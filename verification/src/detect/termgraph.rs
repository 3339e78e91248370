//! The corpus pass of `sharedterm`: from the tracked term counts to the
//! `shared_term` edges between documents, with the words that taught each
//! edge as its evidence.

use super::corpus::{
    card_edge, clip, clip_quote, copy_bytes, edge_views, first_from, rel_is, CorpusFile, CorpusIndex,
    EdgeDraft, EdgeView,
};
use super::linkbudget::{
    accepted_pairs, aview, key_order, lemma_accepted_within, lemma_degree_cap, lemma_key_order,
    pair_count, round_robin, sort_keys,
};
use super::samedir::and_word;
use super::section::card_draft;
use super::sharedterm::{
    counts_view, docs_sorted, docs_view, Docs, CONFIDENCE, EDGE_TYPE, MAX_EDGES_PER_DOC,
    TERMS_IN_EVIDENCE, WEIGHT,
};
use super::termlinks::{
    by_rarity, collect_pairs, entries_view, find_pair, keep_real_pairs, lemma_find_pair,
    lemma_live_found, lemma_live_sorted, lemma_real_pairs_sub, lemma_run_terms_distinct, live, live_docs,
    max_term_docs, pair_keys, pairs_view, postings_ok, real_pairs, run_terms, select_terms,
    selected_set, selection, sels_view, shared_list, shared_terms, sort_by_rarity,
    spec_max_term_docs, terms_view, universe, PairList,
};
use crate::bytes::{bytes_eq, dec_bytes, push_all, push_dec_bytes, sorted_of, vviews};
use vstd::prelude::*;

verus! {

/// Consecutive repeats removed, the first of each run kept.
pub open spec fn dedup_adj(s: Seq<Seq<u8>>) -> Seq<Seq<u8>>
    decreases s.len(),
{
    if s.len() == 0 {
        Seq::empty()
    } else {
        let r = dedup_adj(s.drop_last());
        if r.len() > 0 && r.last() == s.last() {
            r
        } else {
            r.push(s.last())
        }
    }
}

/// `", "`
pub open spec fn comma_space() -> Seq<u8> {
    seq![44u8, 32u8]
}

/// The terms joined by `", "`.
pub open spec fn join(ts: Seq<Seq<u8>>) -> Seq<u8>
    decreases ts.len(),
{
    if ts.len() == 0 {
        Seq::empty()
    } else if ts.len() == 1 {
        ts[0]
    } else {
        join(ts.drop_last()) + comma_space() + ts.last()
    }
}

/// `" distinctive term"`
pub open spec fn distinctive_term() -> Seq<u8> {
    seq![32u8, 100u8, 105u8, 115u8, 116u8, 105u8, 110u8, 99u8, 116u8, 105u8, 118u8, 101u8, 32u8, 116u8, 101u8, 114u8, 109u8]
}

/// `" in common: "`
pub open spec fn in_common() -> Seq<u8> {
    seq![32u8, 105u8, 110u8, 32u8, 99u8, 111u8, 109u8, 109u8, 111u8, 110u8, 58u8, 32u8]
}

/// `" — "` (an em dash between spaces)
pub open spec fn dash() -> Seq<u8> {
    seq![32u8, 226u8, 128u8, 148u8, 32u8]
}

/// The evidence line before clipping: how many distinct terms the two
/// documents share, the first `TERMS_IN_EVIDENCE` of them (rarest first),
/// then the two paths.
pub open spec fn evidence_text(src: Seq<u8>, dst: Seq<u8>, shared: Seq<Seq<u8>>) -> Seq<u8> {
    let named = dedup_adj(shared);
    let total = named.len();
    let shown = if total <= TERMS_IN_EVIDENCE {
        named
    } else {
        named.take(TERMS_IN_EVIDENCE as int)
    };
    dec_bytes(total) + distinctive_term() + (if total == 1 {
        Seq::empty()
    } else {
        seq![115u8]
    }) + in_common() + join(shown) + dash() + src + and_word() + dst
}

/// The `shared_term` edge between the cards of `src` and `dst`.
pub open spec fn term_edge(src: CorpusFile, dst: CorpusFile, shared: Seq<Seq<u8>>) -> EdgeView {
    card_edge(
        src.anchor_doc_id@,
        dst,
        EDGE_TYPE@,
        WEIGHT,
        CONFIDENCE,
        src,
        clip(evidence_text(src.rel@, dst.rel@, shared)),
        0,
    )
}

fn dedup_terms(shared: &Vec<Vec<u8>>) -> (r: Vec<Vec<u8>>)
    ensures
        vviews(r@) == dedup_adj(vviews(shared@)),
{
    let ghost sv = vviews(shared@);
    let mut out: Vec<Vec<u8>> = Vec::new();
    let mut i: usize = 0;
    while i < shared.len()
        invariant
            i <= shared@.len(),
            sv == vviews(shared@),
            vviews(out@) == dedup_adj(sv.subrange(0, i as int)),
        decreases shared@.len() - i,
    {
        proof {
            assert(sv.subrange(0, i + 1).drop_last() =~= sv.subrange(0, i as int));
        }
        let n = out.len();
        let repeat = n > 0 && bytes_eq(out[n - 1].as_slice(), shared[i].as_slice());
        if !repeat {
            let ghost before = vviews(out@);
            out.push(copy_bytes(&shared[i]));
            proof {
                assert(vviews(out@) =~= before.push(sv[i as int]));
            }
        }
        i += 1;
    }
    proof {
        assert(sv.subrange(0, shared@.len() as int) =~= sv);
    }
    out
}

/// The evidence line of an edge, clipped like every quote.
pub fn evidence(src: &[u8], dst: &[u8], shared: &Vec<Vec<u8>>) -> (r: Vec<u8>)
    ensures
        r@ == clip(evidence_text(src@, dst@, vviews(shared@))),
{
    let named = dedup_terms(shared);
    let ghost nv = vviews(named@);
    let total = named.len();
    let shown = if total <= TERMS_IN_EVIDENCE {
        total
    } else {
        TERMS_IN_EVIDENCE
    };
    let term_w: [u8; 17] = [
        32u8, 100u8, 105u8, 115u8, 116u8, 105u8, 110u8, 99u8, 116u8, 105u8, 118u8, 101u8, 32u8,
        116u8, 101u8, 114u8, 109u8,
    ];
    let common_w: [u8; 12] = [32u8, 105u8, 110u8, 32u8, 99u8, 111u8, 109u8, 109u8, 111u8, 110u8, 58u8, 32u8];
    let comma_w: [u8; 2] = [44u8, 32u8];
    let dash_w: [u8; 5] = [32u8, 226u8, 128u8, 148u8, 32u8];
    let and_w: [u8; 5] = [32u8, 97u8, 110u8, 100u8, 32u8];
    let s_w: [u8; 1] = [115u8];
    proof {
        assert(term_w@ =~= distinctive_term());
        assert(common_w@ =~= in_common());
        assert(comma_w@ =~= comma_space());
        assert(dash_w@ =~= dash());
        assert(and_w@ =~= and_word());
        assert(s_w@ =~= seq![115u8]);
    }
    let mut q: Vec<u8> = Vec::new();
    push_dec_bytes(&mut q, total as u64);
    push_all(&mut q, &term_w);
    if total != 1 {
        push_all(&mut q, &s_w);
    }
    push_all(&mut q, &common_w);
    let ghost head = q@;
    let ghost sh = if total <= TERMS_IN_EVIDENCE {
        nv
    } else {
        nv.take(TERMS_IN_EVIDENCE as int)
    };
    proof {
        assert(sh.len() == shown);
        assert(forall|k: int| 0 <= k < shown ==> sh[k] == nv[k]);
    }
    let mut k: usize = 0;
    while k < shown
        invariant
            k <= shown,
            shown <= named@.len(),
            nv == vviews(named@),
            sh.len() == shown,
            forall|j: int| 0 <= j < shown ==> sh[j] == nv[j],
            q@ == head + join(sh.subrange(0, k as int)),
            comma_w@ == comma_space(),
        decreases shown - k,
    {
        proof {
            assert(sh.subrange(0, k + 1).drop_last() =~= sh.subrange(0, k as int));
            if k == 0 {
                assert(sh.subrange(0, 1) =~= seq![sh[0]]);
            }
        }
        let ghost q0 = q@;
        if k > 0 {
            push_all(&mut q, &comma_w);
        }
        let ghost q1 = q@;
        push_all(&mut q, named[k].as_slice());
        proof {
            assert(named@[k as int]@ == nv[k as int]);
            let s1 = sh.subrange(0, k + 1);
            assert(s1.last() == sh[k as int]);
            if k > 0 {
                assert(join(s1) == join(s1.drop_last()) + comma_space() + s1.last());
            }
            assert(q@ == q1 + nv[k as int]);
            if k > 0 {
                assert(q1 == q0 + comma_space());
                assert(q@ =~= head + join(s1));
            } else {
                assert(join(s1) == s1[0]);
                assert(q0 =~= head);
                assert(q@ =~= head + join(s1));
            }
        }
        k += 1;
    }
    proof {
        assert(sh.subrange(0, shown as int) =~= sh);
    }
    push_all(&mut q, &dash_w);
    push_all(&mut q, src);
    push_all(&mut q, &and_w);
    push_all(&mut q, dst);
    proof {
        assert(q@ =~= evidence_text(src@, dst@, vviews(shared@)));
    }
    clip_quote(q.as_slice())
}

/// Each document's distinctive vocabulary.
pub open spec fn selections(live: Docs, max: nat) -> Seq<Seq<Seq<u8>>> {
    Seq::new(live.len(), |i: int| selection(live[i].1, live, max))
}

/// The candidate pairs: every pair of documents whose selections share a
/// term, found rarest term first under the partner headroom, keeping those
/// that share at least two word families.
pub open spec fn candidate_pairs(live: Docs, max: nat) -> PairList {
    let sels = selections(live, max);
    let rs = by_rarity(shared_terms(sels, sorted_of(selected_set(sels))));
    real_pairs(run_terms((Seq::empty(), Seq::new(live.len(), |x: int| 0nat)), rs, 0).0)
}

/// The edges of the accepted pairs `keys`, in order; both documents are
/// looked up in the corpus table, the shared terms in the candidate list.
pub open spec fn pair_edges(fs: Seq<CorpusFile>, live: Docs, fp: PairList, keys: Seq<(int, int)>) -> Seq<EdgeView>
    decreases keys.len(),
{
    if keys.len() == 0 {
        Seq::empty()
    } else {
        let r = pair_edges(fs, live, fp, keys.drop_last());
        let key = keys.last();
        match (first_from(fs, rel_is(live[key.0].0), 0), first_from(fs, rel_is(live[key.1].0), 0), find_pair(fp, key, 0)) {
            (Some(i), Some(j), Some(k)) => r.push(term_edge(fs[i], fs[j], fp[k].1)),
            _ => r,
        }
    }
}

/// Whether the live documents are too few for a comparison: fewer than two,
/// or so few that a term shared by two of them is not distinctive.
pub open spec fn too_small(d: Docs, fs: Seq<CorpusFile>) -> bool {
    let n = live_docs(d, fs).len();
    n < 2 || spec_max_term_docs(n) < 2
}

/// The candidate pairs of the corpus pass over the tracked documents `d`.
pub open spec fn plan_candidates(d: Docs, fs: Seq<CorpusFile>) -> PairList {
    let live = live_docs(d, fs);
    if too_small(d, fs) {
        Seq::empty()
    } else {
        candidate_pairs(live, spec_max_term_docs(live.len()))
    }
}

/// The pairs the degree budget accepts, in the order it accepts them.
pub open spec fn plan_accepted(d: Docs, fs: Seq<CorpusFile>) -> Seq<(int, int)> {
    if too_small(d, fs) {
        Seq::empty()
    } else {
        accepted_pairs(plan_candidates(d, fs), live_docs(d, fs).len())
    }
}

/// What the corpus pass does with the tracked documents `d`: the edges of
/// the accepted pairs in path order, and how many candidate pairs the
/// degree budget refused.
pub open spec fn term_plan(d: Docs, fs: Seq<CorpusFile>) -> (Seq<EdgeView>, nat) {
    let fp = plan_candidates(d, fs);
    let acc = plan_accepted(d, fs);
    (pair_edges(fs, live_docs(d, fs), fp, key_order(acc)), (fp.len() - acc.len()) as nat)
}

fn find_pair_exec(fp: &Vec<((usize, usize), Vec<Vec<u8>>)>, a: usize, b: usize) -> (r: Option<usize>)
    ensures
        match r {
            Some(k) => find_pair(pairs_view(fp@), (a as int, b as int), 0) == Some(k as int),
            None => find_pair(pairs_view(fp@), (a as int, b as int), 0) is None,
        },
        r matches Some(k) ==> k < fp@.len(),
{
    let ghost pv = pairs_view(fp@);
    let mut i: usize = 0;
    while i < fp.len()
        invariant
            i <= fp@.len(),
            pv == pairs_view(fp@),
            find_pair(pv, (a as int, b as int), 0) == find_pair(pv, (a as int, b as int), i as int),
        decreases fp@.len() - i,
    {
        if fp[i].0.0 == a && fp[i].0.1 == b {
            return Some(i);
        }
        i += 1;
    }
    None
}

/// Link the tracked documents (ascending by path): append the edges of
/// `term_plan` to `out` and return how many candidate pairs were refused.
pub fn link_documents(docs: &Vec<(Vec<u8>, Vec<(Vec<u8>, u64)>)>, corpus: &CorpusIndex, out: &mut Vec<EdgeDraft>) -> (r: u64)
    requires
        docs_sorted(docs_view(docs@)),
    ensures
        edge_views(final(out)@) == edge_views(old(out)@) + term_plan(docs_view(docs@), corpus.files@).0,
        r as nat == term_plan(docs_view(docs@), corpus.files@).1,
        term_plan(docs_view(docs@), corpus.files@).0.len() + term_plan(docs_view(docs@), corpus.files@).1
            == plan_candidates(docs_view(docs@), corpus.files@).len(),
        plan_accepted(docs_view(docs@), corpus.files@).no_duplicates(),
        forall|x: int|
            0 <= x < live_docs(docs_view(docs@), corpus.files@).len() ==> #[trigger] pair_count(
                plan_accepted(docs_view(docs@), corpus.files@),
                x,
            ) <= MAX_EDGES_PER_DOC,
{
    let ghost fs = corpus.files@;
    let live = live(docs, corpus);
    let ghost lv = docs_view(live@);
    proof {
        lemma_live_sorted(docs_view(docs@), fs);
    }
    let n = live.len();
    if n < 2 {
        return 0;
    }
    let max = max_term_docs(n);
    if max < 2 {
        return 0;
    }
    let mut sels: Vec<Vec<Vec<u8>>> = Vec::new();
    let mut i: usize = 0;
    while i < n
        invariant
            i <= n,
            n == live@.len(),
            lv == docs_view(live@),
            docs_sorted(lv),
            sels_view(sels@) == selections(lv, max as nat).subrange(0, i as int),
        decreases n - i,
    {
        let row = select_terms(&live[i].1, &live, max);
        let ghost before = sels_view(sels@);
        let ghost rv = terms_view(row@);
        sels.push(row);
        proof {
            assert(lv[i as int].1 == counts_view(live@[i as int].1@));
            assert(rv == selections(lv, max as nat)[i as int]);
            assert(sels_view(sels@) =~= before.push(rv));
            assert(sels_view(sels@) =~= selections(lv, max as nat).subrange(0, i + 1));
        }
        i += 1;
    }
    let ghost sv = selections(lv, max as nat);
    proof {
        assert(sels_view(sels@) =~= sv);
    }
    let ts = universe(&sels);
    let rs0 = shared_list(&sels, &ts);
    let rs = sort_by_rarity(rs0);
    proof {
        assert forall|k: int| 0 <= k < rs@.len() implies #[trigger] postings_ok(rs@[k].1@, n as nat) by {
            let j = choose|j: int| 0 <= j < rs0@.len() && rs0@[j] == rs@[k];
            assert(postings_ok(rs0@[j].1@, sels@.len()));
        }
    }
    let pr = collect_pairs(&rs, n);
    let pairs = pr.0;
    let ghost st0: (PairList, Seq<nat>) = (Seq::empty(), Seq::new(n as nat, |x: int| 0nat));
    proof {
        assert(pair_keys(st0.0).no_duplicates()) by {
            assert(pair_keys(st0.0) =~= Seq::<(int, int)>::empty());
        }
        lemma_run_terms_distinct(st0, entries_view(rs@), 0);
        lemma_real_pairs_sub(pairs_view(pairs@));
    }
    let fp = keep_real_pairs(pairs, Ghost(n as nat));
    let ghost pv = pairs_view(fp@);
    proof {
        assert(pv == candidate_pairs(lv, max as nat));
        assert forall|k: int| 0 <= k < pv.len() implies 0 <= (#[trigger] pv[k]).0.0 < pv[k].0.1 && pv[k].0.1 < n by {
            assert(pv[k].0 == (fp@[k].0.0 as int, fp@[k].0.1 as int));
        }
        lemma_accepted_within(pv, n as nat);
        assert forall|x: int| 0 <= x < n implies #[trigger] pair_count(accepted_pairs(pv, n as nat), x) <= MAX_EDGES_PER_DOC by {
            lemma_degree_cap(pv, n as nat, x);
        }
        if n > 0 {
            lemma_degree_cap(pv, n as nat, 0);
        }
        lemma_live_found(docs_view(docs@), fs);
    }
    let acc0 = round_robin(&fp, n);
    let ghost acc = aview(acc0@);
    let refused = fp.len() - acc0.len();
    let keys = sort_keys(acc0);
    let ghost kv = aview(keys@);
    proof {
        assert forall|k: int| 0 <= k < keys@.len() implies #[trigger] keys@[k].0 < keys@[k].1 && keys@[k].1 < n by {
            let j = choose|j: int| 0 <= j < acc0@.len() && acc0@[j] == keys@[k];
            assert(acc[j] == (acc0@[j].0 as int, acc0@[j].1 as int));
            assert(pair_keys(pv).contains(acc[j]));
            let m = choose|m: int| 0 <= m < pair_keys(pv).len() && pair_keys(pv)[m] == acc[j];
            assert(pv[m].0 == (fp@[m].0.0 as int, fp@[m].0.1 as int));
        }
        lemma_key_order(acc);
        assert forall|k: int| 0 <= k < kv.len() implies pair_keys(pv).contains(#[trigger] kv[k]) by {
            assert(acc.contains(kv[k]));
            let j = choose|j: int| 0 <= j < acc.len() && acc[j] == kv[k];
        }
    }
    let ghost out0 = edge_views(out@);
    let mut k: usize = 0;
    while k < keys.len()
        invariant
            k <= keys@.len(),
            kv == aview(keys@),
            fs == corpus.files@,
            lv == docs_view(live@),
            pv == pairs_view(fp@),
            n == live@.len(),
            forall|j: int| 0 <= j < keys@.len() ==> #[trigger] keys@[j].0 < keys@[j].1 && keys@[j].1 < n,
            edge_views(out@) == out0 + pair_edges(fs, lv, pv, kv.subrange(0, k as int)),
            pair_edges(fs, lv, pv, kv.subrange(0, k as int)).len() == k,
            forall|j: int| 0 <= j < kv.len() ==> pair_keys(pv).contains(#[trigger] kv[j]),
            forall|i: int| 0 <= i < lv.len() ==> first_from(fs, rel_is((#[trigger] lv[i]).0), 0) is Some,
        decreases keys@.len() - k,
    {
        let a = keys[k].0;
        let b = keys[k].1;
        proof {
            assert(kv.subrange(0, k + 1).drop_last() =~= kv.subrange(0, k as int));
            assert(kv[k as int] == (a as int, b as int));
            assert(keys@[k as int].0 < keys@[k as int].1 && keys@[k as int].1 < n);
        }
        let fa = corpus.find_rel(live[a].0.as_slice());
        let fb = corpus.find_rel(live[b].0.as_slice());
        let fk = find_pair_exec(&fp, a, b);
        proof {
            assert(lv[a as int].0 == live@[a as int].0@);
            assert(lv[b as int].0 == live@[b as int].0@);
            assert(first_from(fs, rel_is(lv[a as int].0), 0) is Some);
            assert(first_from(fs, rel_is(lv[b as int].0), 0) is Some);
            lemma_find_pair(pv, kv[k as int], 0);
            assert(pair_keys(pv).contains(kv[k as int]));
            let m = choose|m: int| 0 <= m < pair_keys(pv).len() && pair_keys(pv)[m] == kv[k as int];
            assert(pv[m].0 == kv[k as int]);
        }
        match (fa, fb, fk) {
            (Some(x), Some(y), Some(p)) => {
                let q = evidence(corpus.files[x].rel.as_slice(), corpus.files[y].rel.as_slice(), &fp[p].1);
                let e = card_draft(
                    corpus.files[x].anchor_doc_id.as_slice(),
                    &corpus.files[y],
                    EDGE_TYPE,
                    WEIGHT,
                    CONFIDENCE,
                    &corpus.files[x],
                    q,
                    0,
                );
                let ghost before = edge_views(out@);
                out.push(e);
                proof {
                    assert(pv[p as int].1 == terms_view(fp@[p as int].1@));
                    assert(vviews(fp@[p as int].1@) == terms_view(fp@[p as int].1@));
                    assert(edge_views(out@) =~= before.push(e@));
                }
            },
            _ => {},
        }
        k += 1;
    }
    proof {
        assert(kv.subrange(0, keys@.len() as int) =~= kv);
    }
    refused as u64
}

} // verus!
