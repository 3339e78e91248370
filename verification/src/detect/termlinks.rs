//! The corpus pass of sharedterm: which tracked documents are compared, how
//! distinctive each term is, and which terms each document offers.

use super::corpus::{copy_bytes, first_from, rel_is, CorpusFile, CorpusIndex};
use super::sharedterm::{
    counts_view, docs_sorted, docs_view, has_term, keys_sorted, Counts, Docs, MAX_DOC_PERCENT,
    MAX_TERM_DOCS, TOP_TERMS_PER_DOC,
};
use crate::bytes::{bytes_eq, bytes_lt, lemma_lex_asym, lemma_lex_irreflexive, lemma_lex_total, lemma_lex_trans, lex_lt};
use vstd::prelude::*;

verus! {

pub fn copy_counts(c: &Vec<(Vec<u8>, u64)>) -> (r: Vec<(Vec<u8>, u64)>)
    ensures
        counts_view(r@) == counts_view(c@),
{
    let mut out: Vec<(Vec<u8>, u64)> = Vec::new();
    let mut i: usize = 0;
    while i < c.len()
        invariant
            i <= c@.len(),
            counts_view(out@) == counts_view(c@).subrange(0, i as int),
        decreases c@.len() - i,
    {
        let ghost before = counts_view(out@);
        let k = copy_bytes(&c[i].0);
        out.push((k, c[i].1));
        proof {
            assert(counts_view(out@) =~= before.push((c@[i as int].0@, c@[i as int].1)));
            assert(counts_view(out@) =~= counts_view(c@).subrange(0, i + 1));
        }
        i += 1;
    }
    proof {
        assert(counts_view(c@).subrange(0, c@.len() as int) =~= counts_view(c@));
    }
    out
}

/// Position of term `t` in an ascending count list.
pub fn find_term(c: &Vec<(Vec<u8>, u64)>, t: &[u8]) -> (r: Option<usize>)
    requires
        keys_sorted(counts_view(c@)),
    ensures
        match r {
            Some(i) => i < c@.len() && counts_view(c@)[i as int].0 == t@,
            None => !has_term(counts_view(c@), t@),
        },
{
    let ghost v = counts_view(c@);
    let mut lo: usize = 0;
    let mut hi: usize = c.len();
    while lo < hi
        invariant
            lo <= hi <= c@.len(),
            v == counts_view(c@),
            keys_sorted(v),
            forall|k: int| 0 <= k < lo ==> lex_lt(#[trigger] v[k].0, t@),
            forall|k: int| hi <= k < v.len() ==> lex_lt(t@, #[trigger] v[k].0),
        decreases hi - lo,
    {
        let mid = lo + (hi - lo) / 2;
        if bytes_lt(c[mid].0.as_slice(), t) {
            proof {
                assert forall|k: int| 0 <= k < mid + 1 implies lex_lt(#[trigger] v[k].0, t@) by {
                    if k < mid {
                        lemma_lex_trans(v[k].0, v[mid as int].0, t@);
                    }
                }
            }
            lo = mid + 1;
        } else if bytes_eq(c[mid].0.as_slice(), t) {
            return Some(mid);
        } else {
            proof {
                lemma_lex_total(v[mid as int].0, t@);
                assert forall|k: int| mid <= k < v.len() implies lex_lt(t@, #[trigger] v[k].0) by {
                    if k > mid {
                        lemma_lex_trans(t@, v[mid as int].0, v[k].0);
                    }
                }
            }
            hi = mid;
        }
    }
    proof {
        if has_term(v, t@) {
            let k = choose|k: int| 0 <= k < v.len() && (#[trigger] v[k]).0 == t@;
            lemma_lex_irreflexive(t@);
        }
    }
    None
}

/// The tracked documents the corpus still holds, in order.
pub open spec fn live_docs(d: Docs, fs: Seq<CorpusFile>) -> Docs
    decreases d.len(),
{
    if d.len() == 0 {
        Seq::empty()
    } else {
        let r = live_docs(d.drop_last(), fs);
        if first_from(fs, rel_is(d.last().0), 0) is Some {
            r.push(d.last())
        } else {
            r
        }
    }
}

pub proof fn lemma_live_sorted(d: Docs, fs: Seq<CorpusFile>)
    requires
        docs_sorted(d),
    ensures
        docs_sorted(live_docs(d, fs)),
        forall|i: int| 0 <= i < live_docs(d, fs).len() ==> exists|k: int| 0 <= k < d.len() && d[k] == #[trigger] live_docs(d, fs)[i],
    decreases d.len(),
{
    if d.len() > 0 {
        let p = d.drop_last();
        assert(docs_sorted(p)) by {
            assert forall|i: int, j: int| 0 <= i < j < p.len() implies lex_lt(#[trigger] p[i].0, #[trigger] p[j].0) by {
                assert(p[i] == d[i] && p[j] == d[j]);
            }
            assert forall|i: int| 0 <= i < p.len() implies keys_sorted(#[trigger] p[i].1) by {
                assert(p[i] == d[i]);
            }
        }
        lemma_live_sorted(p, fs);
        let r = live_docs(p, fs);
        assert forall|i: int| 0 <= i < r.len() implies exists|k: int| 0 <= k < d.len() && d[k] == #[trigger] r[i] by {
            let k = choose|k: int| 0 <= k < p.len() && p[k] == r[i];
            assert(d[k] == p[k]);
        }
        if first_from(fs, rel_is(d.last().0), 0) is Some {
            let u = r.push(d.last());
            assert forall|i: int, j: int| 0 <= i < j < u.len() implies lex_lt(#[trigger] u[i].0, #[trigger] u[j].0) by {
                if j == r.len() {
                    let k = choose|k: int| 0 <= k < p.len() && p[k] == r[i];
                    assert(d[k] == p[k]);
                    assert(lex_lt(d[k].0, d[d.len() - 1].0));
                } else {
                    assert(u[i] == r[i] && u[j] == r[j]);
                }
            }
            assert forall|i: int| 0 <= i < u.len() implies keys_sorted(#[trigger] u[i].1) by {
                if i == r.len() {
                    assert(u[i] == d[d.len() - 1]);
                } else {
                    assert(u[i] == r[i]);
                }
            }
            assert forall|i: int| 0 <= i < u.len() implies exists|k: int| 0 <= k < d.len() && d[k] == #[trigger] u[i] by {
                if i == r.len() {
                    assert(d[d.len() - 1] == u[i]);
                } else {
                    assert(u[i] == r[i]);
                }
            }
        }
    }
}

/// Every live document is in the corpus table.
pub proof fn lemma_live_found(d: Docs, fs: Seq<CorpusFile>)
    ensures
        forall|i: int| 0 <= i < live_docs(d, fs).len() ==> first_from(fs, rel_is((#[trigger] live_docs(d, fs)[i]).0), 0) is Some,
    decreases d.len(),
{
    if d.len() > 0 {
        lemma_live_found(d.drop_last(), fs);
        let r = live_docs(d.drop_last(), fs);
        assert forall|i: int| 0 <= i < live_docs(d, fs).len() implies first_from(fs, rel_is((#[trigger] live_docs(d, fs)[i]).0), 0) is Some by {
            if i < r.len() {
                assert(live_docs(d, fs)[i] == r[i]);
            }
        }
    }
}

/// Keep the tracked documents whose path the corpus holds.
pub fn live(docs: &Vec<(Vec<u8>, Vec<(Vec<u8>, u64)>)>, corpus: &CorpusIndex) -> (r: Vec<(Vec<u8>, Vec<(Vec<u8>, u64)>)>)
    ensures
        docs_view(r@) == live_docs(docs_view(docs@), corpus.files@),
{
    let ghost d = docs_view(docs@);
    let mut out: Vec<(Vec<u8>, Vec<(Vec<u8>, u64)>)> = Vec::new();
    let mut i: usize = 0;
    while i < docs.len()
        invariant
            i <= docs@.len(),
            d == docs_view(docs@),
            docs_view(out@) == live_docs(d.subrange(0, i as int), corpus.files@),
        decreases docs@.len() - i,
    {
        proof {
            assert(d.subrange(0, i + 1).drop_last() =~= d.subrange(0, i as int));
        }
        if corpus.find_rel(docs[i].0.as_slice()).is_some() {
            let ghost before = docs_view(out@);
            out.push((copy_bytes(&docs[i].0), copy_counts(&docs[i].1)));
            proof {
                assert(docs_view(out@) =~= before.push(d[i as int]));
            }
        }
        i += 1;
    }
    proof {
        assert(d.subrange(0, docs@.len() as int) =~= d);
    }
    out
}

/// Document frequency: how many of the documents hold term `t`.
pub open spec fn df(d: Docs, t: Seq<u8>) -> nat
    decreases d.len(),
{
    if d.len() == 0 {
        0
    } else {
        df(d.drop_last(), t) + if has_term(d.last().1, t) {
            1nat
        } else {
            0nat
        }
    }
}

pub fn df_exec(docs: &Vec<(Vec<u8>, Vec<(Vec<u8>, u64)>)>, t: &[u8]) -> (r: u64)
    requires
        docs_sorted(docs_view(docs@)),
    ensures
        r == df(docs_view(docs@), t@),
{
    let ghost d = docs_view(docs@);
    let mut n: u64 = 0;
    let mut i: usize = 0;
    while i < docs.len()
        invariant
            i <= docs@.len(),
            d == docs_view(docs@),
            docs_sorted(d),
            n == df(d.subrange(0, i as int), t@),
            n <= i,
        decreases docs@.len() - i,
    {
        proof {
            assert(d.subrange(0, i + 1).drop_last() =~= d.subrange(0, i as int));
            assert(d[i as int].1 == counts_view(docs@[i as int].1@));
            assert(keys_sorted(d[i as int].1));
        }
        let found = find_term(&docs[i].1, t);
        proof {
            if let Some(k) = found {
                assert(has_term(d[i as int].1, t@)) by {
                    assert(d[i as int].1[k as int].0 == t@);
                }
            }
        }
        if found.is_some() {
            n += 1;
        }
        i += 1;
    }
    proof {
        assert(d.subrange(0, docs@.len() as int) =~= d);
    }
    n
}

/// The document-frequency ceiling for `n` documents: a tenth of them,
/// rounded up, and never more than `MAX_TERM_DOCS`.
pub open spec fn spec_max_term_docs(n: nat) -> nat {
    let tenth: nat = ((n * MAX_DOC_PERCENT + 99) / 100) as nat;
    if tenth <= MAX_TERM_DOCS {
        tenth
    } else {
        MAX_TERM_DOCS as nat
    }
}

pub fn max_term_docs(n: usize) -> (r: usize)
    ensures
        r == spec_max_term_docs(n as nat),
{
    let n128: u128 = n as u128;
    assert(n128 <= 0xffff_ffff_ffff_ffffu128);
    let tenth: u128 = (n128 * 10 + 99) / 100;
    if tenth <= MAX_TERM_DOCS as u128 {
        tenth as usize
    } else {
        MAX_TERM_DOCS
    }
}

/// A term a document offers: (term, its count there, its document frequency).
pub type Offer = (Seq<u8>, u64, nat);

/// The terms of `c` whose document frequency is at least 2 and at most `max`.
pub open spec fn eligible(c: Counts, d: Docs, max: nat) -> Seq<Offer>
    decreases c.len(),
{
    if c.len() == 0 {
        Seq::empty()
    } else {
        let r = eligible(c.drop_last(), d, max);
        let f = df(d, c.last().0);
        if 2 <= f <= max {
            r.push((c.last().0, c.last().1, f))
        } else {
            r
        }
    }
}

/// `x` ranks above `y`: used more often in the document, else rarer in the
/// corpus, else the smaller term.
pub open spec fn offer_beats(x: Offer, y: Offer) -> bool {
    x.1 > y.1 || (x.1 == y.1 && (x.2 < y.2 || (x.2 == y.2 && lex_lt(x.0, y.0))))
}

pub open spec fn offers_beating(s: Seq<Offer>, y: Offer) -> nat
    decreases s.len(),
{
    if s.len() == 0 {
        0
    } else {
        offers_beating(s.drop_last(), y) + if offer_beats(s.last(), y) {
            1nat
        } else {
            0nat
        }
    }
}

/// The terms of `s` that rank among the first `TOP_TERMS_PER_DOC` of `full`.
pub open spec fn chosen(s: Seq<Offer>, full: Seq<Offer>) -> Seq<Seq<u8>>
    decreases s.len(),
{
    if s.len() == 0 {
        Seq::empty()
    } else {
        let r = chosen(s.drop_last(), full);
        if offers_beating(full, s.last()) < TOP_TERMS_PER_DOC {
            r.push(s.last().0)
        } else {
            r
        }
    }
}

/// A document's distinctive vocabulary.
pub open spec fn selection(c: Counts, d: Docs, max: nat) -> Seq<Seq<u8>> {
    chosen(eligible(c, d, max), eligible(c, d, max))
}

pub open spec fn offers_view(v: Seq<(Vec<u8>, u64, u64)>) -> Seq<Offer> {
    v.map_values(|o: (Vec<u8>, u64, u64)| (o.0@, o.1, o.2 as nat))
}

pub open spec fn terms_view(v: Seq<Vec<u8>>) -> Seq<Seq<u8>> {
    v.map_values(|t: Vec<u8>| t@)
}

fn beating(v: &Vec<(Vec<u8>, u64, u64)>, y: &(Vec<u8>, u64, u64)) -> (r: usize)
    ensures
        r == offers_beating(offers_view(v@), (y.0@, y.1, y.2 as nat)),
{
    let ghost vv = offers_view(v@);
    let mut n: usize = 0;
    let mut i: usize = 0;
    while i < v.len()
        invariant
            i <= v@.len(),
            vv == offers_view(v@),
            n == offers_beating(vv.subrange(0, i as int), (y.0@, y.1, y.2 as nat)),
            n <= i,
        decreases v@.len() - i,
    {
        proof {
            assert(vv.subrange(0, i + 1).drop_last() =~= vv.subrange(0, i as int));
        }
        let x = &v[i];
        if x.1 > y.1 || (x.1 == y.1 && (x.2 < y.2 || (x.2 == y.2 && bytes_lt(x.0.as_slice(), y.0.as_slice())))) {
            n += 1;
        }
        i += 1;
    }
    proof {
        assert(vv.subrange(0, v@.len() as int) =~= vv);
    }
    n
}

/// A document's distinctive vocabulary among the live documents.
pub fn select_terms(c: &Vec<(Vec<u8>, u64)>, docs: &Vec<(Vec<u8>, Vec<(Vec<u8>, u64)>)>, max: usize) -> (r: Vec<Vec<u8>>)
    requires
        docs_sorted(docs_view(docs@)),
    ensures
        terms_view(r@) == selection(counts_view(c@), docs_view(docs@), max as nat),
{
    let ghost cv = counts_view(c@);
    let ghost d = docs_view(docs@);
    let mut offers: Vec<(Vec<u8>, u64, u64)> = Vec::new();
    let mut i: usize = 0;
    while i < c.len()
        invariant
            i <= c@.len(),
            cv == counts_view(c@),
            d == docs_view(docs@),
            docs_sorted(d),
            offers_view(offers@) == eligible(cv.subrange(0, i as int), d, max as nat),
        decreases c@.len() - i,
    {
        proof {
            assert(cv.subrange(0, i + 1).drop_last() =~= cv.subrange(0, i as int));
        }
        let f = df_exec(docs, c[i].0.as_slice());
        if 2 <= f && f <= max as u64 {
            let ghost before = offers_view(offers@);
            offers.push((copy_bytes(&c[i].0), c[i].1, f));
            proof {
                assert(offers_view(offers@) =~= before.push((cv[i as int].0, cv[i as int].1, f as nat)));
            }
        }
        i += 1;
    }
    proof {
        assert(cv.subrange(0, c@.len() as int) =~= cv);
    }
    let ghost e = offers_view(offers@);
    let mut out: Vec<Vec<u8>> = Vec::new();
    let mut k: usize = 0;
    while k < offers.len()
        invariant
            k <= offers@.len(),
            e == offers_view(offers@),
            terms_view(out@) == chosen(e.subrange(0, k as int), e),
        decreases offers@.len() - k,
    {
        proof {
            assert(e.subrange(0, k + 1).drop_last() =~= e.subrange(0, k as int));
        }
        if beating(&offers, &offers[k]) < TOP_TERMS_PER_DOC {
            let ghost before = terms_view(out@);
            out.push(copy_bytes(&offers[k].0));
            proof {
                assert(terms_view(out@) =~= before.push(e[k as int].0));
            }
        }
        k += 1;
    }
    proof {
        assert(e.subrange(0, offers@.len() as int) =~= e);
    }
    out
}

/// Every selected term, once.
pub open spec fn selected_set(sels: Seq<Seq<Seq<u8>>>) -> Set<Seq<u8>>
    decreases sels.len(),
{
    if sels.len() == 0 {
        Set::empty()
    } else {
        selected_set(sels.drop_last()).union(sels.last().to_set())
    }
}

/// The documents (positions, ascending) whose selection holds `t`.
pub open spec fn postings(sels: Seq<Seq<Seq<u8>>>, t: Seq<u8>) -> Seq<int>
    decreases sels.len(),
{
    if sels.len() == 0 {
        Seq::empty()
    } else {
        let r = postings(sels.drop_last(), t);
        if sels.last().contains(t) {
            r.push(sels.len() - 1)
        } else {
            r
        }
    }
}

/// The terms of `ts` selected by at least two documents, with their postings.
pub open spec fn shared_terms(sels: Seq<Seq<Seq<u8>>>, ts: Seq<Seq<u8>>) -> Seq<(Seq<u8>, Seq<int>)>
    decreases ts.len(),
{
    if ts.len() == 0 {
        Seq::empty()
    } else {
        let r = shared_terms(sels, ts.drop_last());
        if postings(sels, ts.last()).len() >= 2 {
            r.push((ts.last(), postings(sels, ts.last())))
        } else {
            r
        }
    }
}

/// Fewer documents first, then the smaller term.
pub open spec fn rarer(x: (Seq<u8>, Seq<int>), y: (Seq<u8>, Seq<int>)) -> bool {
    x.1.len() < y.1.len() || (x.1.len() == y.1.len() && lex_lt(x.0, y.0))
}

/// Position of the rarest entry (the first of equals).
pub open spec fn rarest(s: Seq<(Seq<u8>, Seq<int>)>) -> int
    decreases s.len(),
{
    if s.len() <= 1 {
        0
    } else {
        let k = rarest(s.drop_last());
        if rarer(s.last(), s[k]) {
            s.len() - 1
        } else {
            k
        }
    }
}

pub proof fn lemma_rarest(s: Seq<(Seq<u8>, Seq<int>)>)
    requires
        s.len() > 0,
    ensures
        0 <= rarest(s) < s.len(),
    decreases s.len(),
{
    if s.len() > 1 {
        lemma_rarest(s.drop_last());
    }
}

/// The entries rarest first.
pub open spec fn by_rarity(s: Seq<(Seq<u8>, Seq<int>)>) -> Seq<(Seq<u8>, Seq<int>)>
    decreases s.len(),
{
    if s.len() == 0 {
        Seq::empty()
    } else {
        proof {
            lemma_rarest(s);
        }
        seq![s[rarest(s)]] + by_rarity(s.remove(rarest(s)))
    }
}

pub open spec fn sels_view(v: Seq<Vec<Vec<u8>>>) -> Seq<Seq<Seq<u8>>> {
    v.map_values(|s: Vec<Vec<u8>>| terms_view(s@))
}

pub open spec fn idx_view(v: Seq<usize>) -> Seq<int> {
    v.map_values(|i: usize| i as int)
}

pub open spec fn entries_view(v: Seq<(Vec<u8>, Vec<usize>)>) -> Seq<(Seq<u8>, Seq<int>)> {
    v.map_values(|e: (Vec<u8>, Vec<usize>)| (e.0@, idx_view(e.1@)))
}

/// Every selected term once, ascending.
pub fn universe(sels: &Vec<Vec<Vec<u8>>>) -> (r: Vec<Vec<u8>>)
    ensures
        crate::bytes::vviews(r@) == crate::bytes::sorted_of(selected_set(sels_view(sels@))),
{
    let ghost sv = sels_view(sels@);
    let mut v: Vec<Vec<u8>> = Vec::new();
    let mut i: usize = 0;
    proof {
        assert(crate::bytes::vviews(v@).to_set() =~= selected_set(sv.subrange(0, 0)));
    }
    while i < sels.len()
        invariant
            i <= sels@.len(),
            sv == sels_view(sels@),
            crate::bytes::strictly_sorted(crate::bytes::vviews(v@)),
            crate::bytes::vviews(v@).to_set() == selected_set(sv.subrange(0, i as int)),
        decreases sels@.len() - i,
    {
        let ghost base = crate::bytes::vviews(v@).to_set();
        let row = &sels[i];
        let mut j: usize = 0;
        while j < row.len()
            invariant
                j <= row@.len(),
                crate::bytes::strictly_sorted(crate::bytes::vviews(v@)),
                crate::bytes::vviews(v@).to_set() == base.union(terms_view(row@).subrange(0, j as int).to_set()),
            decreases row@.len() - j,
        {
            crate::bytes::insert_sorted_distinct(&mut v, copy_bytes(&row[j]));
            proof {
                let tv = terms_view(row@);
                assert(tv.subrange(0, j + 1).to_set() =~= tv.subrange(0, j as int).to_set().insert(tv[j as int])) by {
                    assert forall|e: Seq<u8>| tv.subrange(0, j + 1).to_set().contains(e) implies tv.subrange(0, j as int).to_set().insert(tv[j as int]).contains(e) by {
                        let q = choose|q: int| 0 <= q < j + 1 && #[trigger] tv.subrange(0, j + 1)[q] == e;
                        if q < j {
                            assert(tv.subrange(0, j as int)[q] == e);
                        }
                    }
                    assert forall|e: Seq<u8>| tv.subrange(0, j as int).to_set().insert(tv[j as int]).contains(e) implies tv.subrange(0, j + 1).to_set().contains(e) by {
                        if e == tv[j as int] {
                            assert(tv.subrange(0, j + 1)[j as int] == e);
                        } else {
                            let q = choose|q: int| 0 <= q < j && #[trigger] tv.subrange(0, j as int)[q] == e;
                            assert(tv.subrange(0, j + 1)[q] == e);
                        }
                    }
                }
                assert(crate::bytes::vviews(v@).to_set() =~= base.union(tv.subrange(0, j + 1).to_set()));
            }
            j += 1;
        }
        proof {
            assert(terms_view(row@).subrange(0, row@.len() as int) =~= terms_view(row@));
            assert(sv.subrange(0, i + 1).drop_last() =~= sv.subrange(0, i as int));
            assert(sv[i as int] == terms_view(row@));
        }
        i += 1;
    }
    proof {
        assert(sv.subrange(0, sels@.len() as int) =~= sv);
        crate::bytes::lemma_sorted_of(crate::bytes::vviews(v@), selected_set(sv));
    }
    v
}

fn holds_term(row: &Vec<Vec<u8>>, t: &[u8]) -> (r: bool)
    ensures
        r == terms_view(row@).contains(t@),
{
    let mut j: usize = 0;
    while j < row.len()
        invariant
            j <= row@.len(),
            forall|q: int| 0 <= q < j ==> terms_view(row@)[q] != t@,
        decreases row@.len() - j,
    {
        if bytes_eq(row[j].as_slice(), t) {
            proof {
                assert(terms_view(row@)[j as int] == t@);
            }
            return true;
        }
        j += 1;
    }
    false
}

pub fn postings_exec(sels: &Vec<Vec<Vec<u8>>>, t: &[u8]) -> (r: Vec<usize>)
    ensures
        idx_view(r@) == postings(sels_view(sels@), t@),
        forall|q: int| 0 <= q < r@.len() ==> #[trigger] r@[q] < sels@.len(),
        forall|q1: int, q2: int| 0 <= q1 < q2 < r@.len() ==> #[trigger] r@[q1] < #[trigger] r@[q2],
{
    let ghost sv = sels_view(sels@);
    let mut out: Vec<usize> = Vec::new();
    let mut i: usize = 0;
    while i < sels.len()
        invariant
            i <= sels@.len(),
            sv == sels_view(sels@),
            idx_view(out@) == postings(sv.subrange(0, i as int), t@),
            forall|q: int| 0 <= q < out@.len() ==> #[trigger] out@[q] < i,
            forall|q1: int, q2: int| 0 <= q1 < q2 < out@.len() ==> #[trigger] out@[q1] < #[trigger] out@[q2],
        decreases sels@.len() - i,
    {
        proof {
            assert(sv.subrange(0, i + 1).drop_last() =~= sv.subrange(0, i as int));
            assert(sv[i as int] == terms_view(sels@[i as int]@));
        }
        if holds_term(&sels[i], t) {
            let ghost before = idx_view(out@);
            out.push(i);
            proof {
                assert(idx_view(out@) =~= before.push(i as int));
            }
        }
        i += 1;
    }
    proof {
        assert(sv.subrange(0, sels@.len() as int) =~= sv);
    }
    out
}

/// Positions below `n`, strictly ascending.
pub open spec fn postings_ok(p: Seq<usize>, n: nat) -> bool {
    &&& forall|q: int| 0 <= q < p.len() ==> #[trigger] p[q] < n
    &&& forall|q1: int, q2: int| 0 <= q1 < q2 < p.len() ==> #[trigger] p[q1] < #[trigger] p[q2]
}

/// The terms of `ts` selected by at least two documents, with their postings.
pub fn shared_list(sels: &Vec<Vec<Vec<u8>>>, ts: &Vec<Vec<u8>>) -> (r: Vec<(Vec<u8>, Vec<usize>)>)
    ensures
        entries_view(r@) == shared_terms(sels_view(sels@), crate::bytes::vviews(ts@)),
        forall|k: int| 0 <= k < r@.len() ==> #[trigger] postings_ok(r@[k].1@, sels@.len()),
{
    let ghost tv = crate::bytes::vviews(ts@);
    let mut out: Vec<(Vec<u8>, Vec<usize>)> = Vec::new();
    let mut i: usize = 0;
    while i < ts.len()
        invariant
            i <= ts@.len(),
            tv == crate::bytes::vviews(ts@),
            entries_view(out@) == shared_terms(sels_view(sels@), tv.subrange(0, i as int)),
            forall|k: int| 0 <= k < out@.len() ==> #[trigger] postings_ok(out@[k].1@, sels@.len()),
        decreases ts@.len() - i,
    {
        proof {
            assert(tv.subrange(0, i + 1).drop_last() =~= tv.subrange(0, i as int));
        }
        let p = postings_exec(sels, ts[i].as_slice());
        if p.len() >= 2 {
            let ghost before = entries_view(out@);
            let ghost pv = idx_view(p@);
            out.push((copy_bytes(&ts[i]), p));
            proof {
                assert(entries_view(out@) =~= before.push((tv[i as int], pv)));
            }
        }
        i += 1;
    }
    proof {
        assert(tv.subrange(0, ts@.len() as int) =~= tv);
    }
    out
}

fn rarest_exec(s: &Vec<(Vec<u8>, Vec<usize>)>) -> (r: usize)
    requires
        s@.len() > 0,
    ensures
        r == rarest(entries_view(s@)),
        r < s@.len(),
{
    let ghost ev = entries_view(s@);
    let mut k: usize = 0;
    let mut i: usize = 1;
    while i < s.len()
        invariant
            1 <= i <= s@.len(),
            k < i,
            ev == entries_view(s@),
            k == rarest(ev.subrange(0, i as int)),
        decreases s@.len() - i,
    {
        proof {
            let a = ev.subrange(0, i + 1);
            assert(a.drop_last() =~= ev.subrange(0, i as int));
            assert(a.last() == ev[i as int]);
            assert(a[k as int] == ev[k as int]);
        }
        let x = &s[i];
        let y = &s[k];
        if x.1.len() < y.1.len() || (x.1.len() == y.1.len() && bytes_lt(x.0.as_slice(), y.0.as_slice())) {
            k = i;
        }
        i += 1;
    }
    proof {
        assert(ev.subrange(0, s@.len() as int) =~= ev);
    }
    k
}

/// Order the shared terms rarest first.
pub fn sort_by_rarity(v: Vec<(Vec<u8>, Vec<usize>)>) -> (r: Vec<(Vec<u8>, Vec<usize>)>)
    ensures
        entries_view(r@) == by_rarity(entries_view(v@)),
        forall|k: int| 0 <= k < r@.len() ==> exists|j: int| 0 <= j < v@.len() && v@[j] == #[trigger] r@[k],
{
    let ghost v0 = v@;
    let mut rest = v;
    let mut out: Vec<(Vec<u8>, Vec<usize>)> = Vec::new();
    proof {
        assert(entries_view(out@) + by_rarity(entries_view(rest@)) =~= by_rarity(entries_view(v0)));
    }
    while rest.len() > 0
        invariant
            entries_view(out@) + by_rarity(entries_view(rest@)) == by_rarity(entries_view(v0)),
            forall|k: int| 0 <= k < out@.len() ==> exists|j: int| 0 <= j < v0.len() && v0[j] == #[trigger] out@[k],
            forall|k: int| 0 <= k < rest@.len() ==> exists|j: int| 0 <= j < v0.len() && v0[j] == #[trigger] rest@[k],
        decreases rest@.len(),
    {
        let k = rarest_exec(&rest);
        let ghost old_rest = rest@;
        let e = rest.remove(k);
        let ghost before = entries_view(out@);
        out.push(e);
        proof {
            let ev = entries_view(old_rest);
            lemma_rarest(ev);
            assert(entries_view(rest@) =~= ev.remove(k as int));
            assert(by_rarity(ev) == seq![ev[k as int]] + by_rarity(ev.remove(k as int)));
            assert(entries_view(out@) =~= before.push(ev[k as int]));
            assert(before.push(ev[k as int]) + by_rarity(ev.remove(k as int)) =~= before + (seq![ev[k as int]] + by_rarity(ev.remove(k as int))));
            assert forall|q: int| 0 <= q < out@.len() implies exists|j: int| 0 <= j < v0.len() && v0[j] == #[trigger] out@[q] by {
                if q == out@.len() - 1 {
                    assert(out@[q] == old_rest[k as int]);
                } else {
                    assert(out@[q] == out@.drop_last()[q]);
                }
            }
            assert forall|q: int| 0 <= q < rest@.len() implies exists|j: int| 0 <= j < v0.len() && v0[j] == #[trigger] rest@[q] by {
                if q < k {
                    assert(rest@[q] == old_rest[q]);
                } else {
                    assert(rest@[q] == old_rest[q + 1]);
                }
            }
        }
    }
    proof {
        assert(entries_view(rest@) =~= Seq::<(Seq<u8>, Seq<int>)>::empty());
        assert(entries_view(out@) + Seq::<(Seq<u8>, Seq<int>)>::empty() =~= entries_view(out@));
    }
    out
}

/// Candidate pairs of documents (positions, the smaller first) with the
/// terms they share, in the order the pairs were found.
pub type PairList = Seq<((int, int), Seq<Seq<u8>>)>;

/// Pairs so far and partners per document.
pub type PairState = (PairList, Seq<nat>);

/// Position of the pair with this key at or after `i`.
pub open spec fn find_pair(p: PairList, key: (int, int), i: int) -> Option<int>
    decreases p.len() - i,
{
    if i < 0 || i >= p.len() {
        None
    } else if p[i].0 == key {
        Some(i)
    } else {
        find_pair(p, key, i + 1)
    }
}

pub proof fn lemma_find_pair(p: PairList, key: (int, int), i: int)
    requires
        0 <= i,
    ensures
        find_pair(p, key, i) matches Some(k) ==> i <= k < p.len() && p[k].0 == key,
        find_pair(p, key, i) is None ==> forall|k: int| i <= k < p.len() ==> (#[trigger] p[k]).0 != key,
    decreases p.len() - i,
{
    if i < p.len() && p[i].0 != key {
        lemma_find_pair(p, key, i + 1);
    }
}

/// Term `t` joins documents `a < b`: an existing pair records the term; a new
/// pair is opened only while both documents track fewer than
/// `MAX_PARTNERS_TRACKED` partners.
pub open spec fn pair_step(st: PairState, t: Seq<u8>, a: int, b: int) -> PairState {
    match find_pair(st.0, (a, b), 0) {
        Some(k) => (st.0.update(k, (st.0[k].0, st.0[k].1.push(t))), st.1),
        None => if st.1[a] >= super::sharedterm::MAX_PARTNERS_TRACKED || st.1[b]
            >= super::sharedterm::MAX_PARTNERS_TRACKED {
            st
        } else {
            (st.0.push(((a, b), seq![t])), st.1.update(a, st.1[a] + 1).update(b, st.1[b] + 1))
        },
    }
}

/// Term `t` with the documents after position `i` of its postings, from `j`.
pub open spec fn run_j(st: PairState, t: Seq<u8>, post: Seq<int>, i: int, j: int) -> PairState
    decreases post.len() - j,
{
    if j < 0 || j >= post.len() {
        st
    } else {
        run_j(pair_step(st, t, post[i], post[j]), t, post, i, j + 1)
    }
}

/// Term `t` with every pair of its postings, from position `i`.
pub open spec fn run_i(st: PairState, t: Seq<u8>, post: Seq<int>, i: int) -> PairState
    decreases post.len() - i,
{
    if i < 0 || i >= post.len() {
        st
    } else {
        run_i(run_j(st, t, post, i, i + 1), t, post, i + 1)
    }
}

/// The shared terms from position `k` on, each with every pair of its postings.
pub open spec fn run_terms(st: PairState, rs: Seq<(Seq<u8>, Seq<int>)>, k: int) -> PairState
    decreases rs.len() - k,
{
    if k < 0 || k >= rs.len() {
        st
    } else {
        run_terms(run_i(st, rs[k].0, rs[k].1, 0), rs, k + 1)
    }
}

pub open spec fn pairs_view(v: Seq<((usize, usize), Vec<Vec<u8>>)>) -> PairList {
    v.map_values(|e: ((usize, usize), Vec<Vec<u8>>)| ((e.0.0 as int, e.0.1 as int), terms_view(e.1@)))
}

pub open spec fn nats_view(v: Seq<usize>) -> Seq<nat> {
    v.map_values(|x: usize| x as nat)
}

fn copy_terms(v: &Vec<Vec<u8>>) -> (r: Vec<Vec<u8>>)
    ensures
        terms_view(r@) == terms_view(v@),
{
    let mut out: Vec<Vec<u8>> = Vec::new();
    let mut i: usize = 0;
    while i < v.len()
        invariant
            i <= v@.len(),
            terms_view(out@) == terms_view(v@).subrange(0, i as int),
        decreases v@.len() - i,
    {
        let ghost before = terms_view(out@);
        let c = copy_bytes(&v[i]);
        out.push(c);
        proof {
            assert(terms_view(out@) =~= before.push(v@[i as int]@));
            assert(terms_view(out@) =~= terms_view(v@).subrange(0, i + 1));
        }
        i += 1;
    }
    proof {
        assert(terms_view(v@).subrange(0, v@.len() as int) =~= terms_view(v@));
    }
    out
}

fn pair_step_exec(
    pairs: &mut Vec<((usize, usize), Vec<Vec<u8>>)>,
    partners: &mut Vec<usize>,
    t: &Vec<u8>,
    a: usize,
    b: usize,
)
    requires
        a < b,
        b < old(partners)@.len(),
        forall|x: int| 0 <= x < old(partners)@.len() ==> #[trigger] old(partners)@[x] <= super::sharedterm::MAX_PARTNERS_TRACKED,
    ensures
        (pairs_view(final(pairs)@), nats_view(final(partners)@)) == pair_step(
            (pairs_view(old(pairs)@), nats_view(old(partners)@)),
            t@,
            a as int,
            b as int,
        ),
        final(partners)@.len() == old(partners)@.len(),
        forall|x: int| 0 <= x < final(partners)@.len() ==> #[trigger] final(partners)@[x] <= super::sharedterm::MAX_PARTNERS_TRACKED,
        keys_ok(old(pairs)@, old(partners)@.len()) ==> keys_ok(final(pairs)@, old(partners)@.len()),
{
    let ghost pv = pairs_view(pairs@);
    let mut k: usize = 0;
    while k < pairs.len() && !(pairs[k].0.0 == a && pairs[k].0.1 == b)
        invariant
            k <= pairs@.len(),
            pv == pairs_view(pairs@),
            find_pair(pv, (a as int, b as int), 0) == find_pair(pv, (a as int, b as int), k as int),
        decreases pairs@.len() - k,
    {
        k += 1;
    }
    if k < pairs.len() {
        let key = pairs[k].0;
        let mut terms = copy_terms(&pairs[k].1);
        terms.push(copy_bytes(t));
        let ghost tv = terms_view(terms@);
        pairs.set(k, (key, terms));
        proof {
            assert(tv =~= pv[k as int].1.push(t@));
            assert(pairs_view(pairs@) =~= pv.update(k as int, (pv[k as int].0, pv[k as int].1.push(t@))));
        }
    } else {
        if partners[a] >= super::sharedterm::MAX_PARTNERS_TRACKED || partners[b] >= super::sharedterm::MAX_PARTNERS_TRACKED {
            return;
        }
        let ghost nv = nats_view(partners@);
        let pa = partners[a] + 1;
        partners.set(a, pa);
        let pb = partners[b] + 1;
        partners.set(b, pb);
        let mut one: Vec<Vec<u8>> = Vec::new();
        one.push(copy_bytes(t));
        pairs.push(((a, b), one));
        proof {
            assert(terms_view(one@) =~= seq![t@]);
            assert(pairs_view(pairs@) =~= pv.push(((a as int, b as int), seq![t@])));
            assert(nats_view(partners@) =~= nv.update(a as int, nv[a as int] + 1).update(b as int, nv[b as int] + 1));
        }
    }
}

/// Every pair joins two distinct documents below `n`, the smaller first.
pub open spec fn keys_ok(p: Seq<((usize, usize), Vec<Vec<u8>>)>, n: nat) -> bool {
    forall|k: int| 0 <= k < p.len() ==> #[trigger] p[k].0.0 < p[k].0.1 && p[k].0.1 < n
}

/// Pair up the documents of every shared term, rarest term first.
pub fn collect_pairs(rs: &Vec<(Vec<u8>, Vec<usize>)>, n: usize) -> (r: (Vec<((usize, usize), Vec<Vec<u8>>)>, Vec<usize>))
    requires
        forall|k: int| 0 <= k < rs@.len() ==> #[trigger] postings_ok(rs@[k].1@, n as nat),
    ensures
        (pairs_view(r.0@), nats_view(r.1@)) == run_terms(
            (Seq::empty(), Seq::new(n as nat, |x: int| 0nat)),
            entries_view(rs@),
            0,
        ),
        r.1@.len() == n,
        keys_ok(r.0@, n as nat),
{
    let mut pairs: Vec<((usize, usize), Vec<Vec<u8>>)> = Vec::new();
    let mut partners: Vec<usize> = Vec::new();
    let mut z: usize = 0;
    while z < n
        invariant
            z <= n,
            partners@.len() == z,
            forall|x: int| 0 <= x < z ==> #[trigger] partners@[x] == 0,
        decreases n - z,
    {
        partners.push(0);
        z += 1;
    }
    let ghost ev = entries_view(rs@);
    let ghost st0: PairState = (Seq::empty(), Seq::new(n as nat, |x: int| 0nat));
    proof {
        assert(pairs_view(pairs@) =~= st0.0);
        assert(nats_view(partners@) =~= st0.1);
    }
    let mut k: usize = 0;
    while k < rs.len()
        invariant
            k <= rs@.len(),
            ev == entries_view(rs@),
            partners@.len() == n,
            keys_ok(pairs@, n as nat),
            forall|x: int| 0 <= x < n ==> #[trigger] partners@[x] <= super::sharedterm::MAX_PARTNERS_TRACKED,
            forall|k2: int| 0 <= k2 < rs@.len() ==> #[trigger] postings_ok(rs@[k2].1@, n as nat),
            run_terms(st0, ev, 0) == run_terms((pairs_view(pairs@), nats_view(partners@)), ev, k as int),
        decreases rs@.len() - k,
    {
        let t = &rs[k].0;
        let post = &rs[k].1;
        let ghost pv = idx_view(post@);
        let ghost before: PairState = (pairs_view(pairs@), nats_view(partners@));
        let mut i: usize = 0;
        while i < post.len()
            invariant
                i <= post@.len(),
                pv == idx_view(post@),
                partners@.len() == n,
                keys_ok(pairs@, n as nat),
                forall|x: int| 0 <= x < n ==> #[trigger] partners@[x] <= super::sharedterm::MAX_PARTNERS_TRACKED,
                postings_ok(post@, n as nat),
                run_i(before, t@, pv, 0) == run_i((pairs_view(pairs@), nats_view(partners@)), t@, pv, i as int),
            decreases post@.len() - i,
        {
            let ghost mid: PairState = (pairs_view(pairs@), nats_view(partners@));
            let mut j: usize = i + 1;
            while j < post.len()
                invariant
                    i < post@.len(),
                    i + 1 <= j <= post@.len(),
                    pv == idx_view(post@),
                    partners@.len() == n,
                    keys_ok(pairs@, n as nat),
                    forall|x: int| 0 <= x < n ==> #[trigger] partners@[x] <= super::sharedterm::MAX_PARTNERS_TRACKED,
                    postings_ok(post@, n as nat),
                    run_j(mid, t@, pv, i as int, i + 1) == run_j((pairs_view(pairs@), nats_view(partners@)), t@, pv, i as int, j as int),
                decreases post@.len() - j,
            {
                let a = post[i];
                let b = post[j];
                pair_step_exec(&mut pairs, &mut partners, t, a, b);
                j += 1;
            }
            i += 1;
        }
        k += 1;
    }
    (pairs, partners)
}

/// Start of the character after the one at `i` (or the end).
pub open spec fn next_char_start(s: Seq<u8>, i: int) -> int
    decreases s.len() - i,
{
    if i + 1 >= s.len() {
        s.len() as int
    } else if super::corpus::is_lead(s[i + 1]) {
        i + 1
    } else {
        next_char_start(s, i + 1)
    }
}

pub proof fn lemma_next_char_start(s: Seq<u8>, i: int)
    requires
        0 <= i < s.len(),
    ensures
        i < next_char_start(s, i) <= s.len(),
    decreases s.len() - i,
{
    if i + 1 < s.len() && !super::corpus::is_lead(s[i + 1]) {
        lemma_next_char_start(s, i + 1);
    }
}

/// Where `k` characters from `i` end, or -1 when fewer remain.
pub open spec fn skip_chars(s: Seq<u8>, i: int, k: nat) -> int
    decreases k,
{
    if k == 0 {
        i
    } else if i < 0 || i >= s.len() {
        -1
    } else {
        skip_chars(s, next_char_start(s, i), (k - 1) as nat)
    }
}

pub proof fn lemma_skip_chars(s: Seq<u8>, i: int, k: nat)
    requires
        0 <= i <= s.len(),
    ensures
        skip_chars(s, i, k) == -1 || i <= skip_chars(s, i, k) <= s.len(),
    decreases k,
{
    if k > 0 && i < s.len() {
        lemma_next_char_start(s, i);
        lemma_skip_chars(s, next_char_start(s, i), (k - 1) as nat);
    }
}

/// `t` extends `h`, or both open with the same five characters.
pub open spec fn same_family(h: Seq<u8>, t: Seq<u8>) -> bool {
    let eh = skip_chars(h, 0, super::sharedterm::TERM_FAMILY_PREFIX as nat);
    let et = skip_chars(t, 0, super::sharedterm::TERM_FAMILY_PREFIX as nat);
    (h.len() <= t.len() && t.subrange(0, h.len() as int) == h) || (eh >= 0 && et >= 0 && h.subrange(0, eh) == t.subrange(0, et))
}

/// Word families among ascending terms: a term extending the family's first
/// term, or sharing its first five characters, joins that family.
pub open spec fn fam_count(s: Seq<Seq<u8>>, i: int, head: Option<Seq<u8>>) -> nat
    decreases s.len() - i,
{
    if i < 0 || i >= s.len() {
        0
    } else {
        match head {
            Some(h) => if same_family(h, s[i]) {
                fam_count(s, i + 1, head)
            } else {
                1 + fam_count(s, i + 1, Some(s[i]))
            },
            None => 1 + fam_count(s, i + 1, Some(s[i])),
        }
    }
}

/// Distinct word families among some shared terms.
pub open spec fn families(shared: Seq<Seq<u8>>) -> nat {
    fam_count(crate::bytes::sorted_of(shared.to_set()), 0, None)
}

fn next_char_exec(s: &[u8], i: usize) -> (r: usize)
    requires
        i < s@.len(),
    ensures
        r == next_char_start(s@, i as int),
{
    let n = s.len();
    let mut j = i;
    proof {
        lemma_next_char_start(s@, i as int);
    }
    while j + 1 < n && !(s[j + 1] < 128 || s[j + 1] >= 192)
        invariant
            i <= j < n,
            n == s@.len(),
            next_char_start(s@, i as int) == next_char_start(s@, j as int),
        decreases n - j,
    {
        j += 1;
    }
    if j + 1 >= n {
        n
    } else {
        j + 1
    }
}

fn skip_chars_exec(s: &[u8], k: usize) -> (r: Option<usize>)
    ensures
        match r {
            Some(e) => skip_chars(s@, 0, k as nat) == e as int && e <= s@.len(),
            None => skip_chars(s@, 0, k as nat) == -1,
        },
{
    let mut i: usize = 0;
    let mut left = k;
    while left > 0
        invariant
            i <= s@.len(),
            left <= k,
            skip_chars(s@, 0, k as nat) == skip_chars(s@, i as int, left as nat),
        decreases left,
    {
        if i >= s.len() {
            return None;
        }
        proof {
            lemma_next_char_start(s@, i as int);
        }
        i = next_char_exec(s, i);
        left -= 1;
    }
    Some(i)
}

fn same_family_exec(h: &[u8], t: &[u8]) -> (r: bool)
    ensures
        r == same_family(h@, t@),
{
    if h.len() <= t.len() && crate::bytes::matches_at(t, h, 0) {
        proof {
            assert(t@.subrange(0, h@.len() as int) == h@);
        }
        return true;
    }
    proof {
        if h@.len() <= t@.len() && t@.subrange(0, h@.len() as int) == h@ {
            assert(crate::bytes::occurs_at(t@, h@, 0));
        }
    }
    let eh = skip_chars_exec(h, super::sharedterm::TERM_FAMILY_PREFIX);
    let et = skip_chars_exec(t, super::sharedterm::TERM_FAMILY_PREFIX);
    match (eh, et) {
        (Some(a), Some(b)) => {
            let x = crate::bytes::slice_vec(h, 0, a);
            let y = crate::bytes::slice_vec(t, 0, b);
            bytes_eq(x.as_slice(), y.as_slice())
        },
        _ => false,
    }
}

/// Distinct word families among the shared terms of a pair.
pub fn families_exec(shared: &Vec<Vec<u8>>) -> (r: usize)
    ensures
        r == families(terms_view(shared@)),
{
    let ghost sv = terms_view(shared@);
    let mut sorted: Vec<Vec<u8>> = Vec::new();
    let mut i: usize = 0;
    proof {
        assert(crate::bytes::vviews(sorted@).to_set() =~= sv.subrange(0, 0).to_set());
    }
    while i < shared.len()
        invariant
            i <= shared@.len(),
            sv == terms_view(shared@),
            crate::bytes::strictly_sorted(crate::bytes::vviews(sorted@)),
            crate::bytes::vviews(sorted@).to_set() == sv.subrange(0, i as int).to_set(),
        decreases shared@.len() - i,
    {
        crate::bytes::insert_sorted_distinct(&mut sorted, copy_bytes(&shared[i]));
        proof {
            assert(sv.subrange(0, i + 1).to_set() =~= sv.subrange(0, i as int).to_set().insert(sv[i as int])) by {
                assert forall|e: Seq<u8>| sv.subrange(0, i + 1).to_set().contains(e) implies sv.subrange(0, i as int).to_set().insert(sv[i as int]).contains(e) by {
                    let q = choose|q: int| 0 <= q < i + 1 && #[trigger] sv.subrange(0, i + 1)[q] == e;
                    if q < i {
                        assert(sv.subrange(0, i as int)[q] == e);
                    }
                }
                assert forall|e: Seq<u8>| sv.subrange(0, i as int).to_set().insert(sv[i as int]).contains(e) implies sv.subrange(0, i + 1).to_set().contains(e) by {
                    if e == sv[i as int] {
                        assert(sv.subrange(0, i + 1)[i as int] == e);
                    } else {
                        let q = choose|q: int| 0 <= q < i && #[trigger] sv.subrange(0, i as int)[q] == e;
                        assert(sv.subrange(0, i + 1)[q] == e);
                    }
                }
            }
        }
        i += 1;
    }
    proof {
        assert(sv.subrange(0, shared@.len() as int) =~= sv);
        crate::bytes::lemma_sorted_of(crate::bytes::vviews(sorted@), sv.to_set());
    }
    let ghost q = crate::bytes::vviews(sorted@);
    let mut n: usize = 0;
    let mut head: Option<usize> = None;
    let mut k: usize = 0;
    while k < sorted.len()
        invariant
            k <= sorted@.len(),
            q == crate::bytes::vviews(sorted@),
            n <= k,
            head matches Some(h) ==> h < k,
            fam_count(q, 0, None) == n + fam_count(q, k as int, match head {
                Some(h) => Some(q[h as int]),
                None => None,
            }),
        decreases sorted@.len() - k,
    {
        let same = match head {
            Some(h) => same_family_exec(sorted[h].as_slice(), sorted[k].as_slice()),
            None => false,
        };
        if !same {
            n += 1;
            head = Some(k);
        }
        k += 1;
    }
    n
}

/// The pairs that share at least `MIN_SHARED_TERMS` word families.
pub open spec fn real_pairs(p: PairList) -> PairList
    decreases p.len(),
{
    if p.len() == 0 {
        Seq::empty()
    } else {
        let r = real_pairs(p.drop_last());
        if families(p.last().1) >= super::sharedterm::MIN_SHARED_TERMS {
            r.push(p.last())
        } else {
            r
        }
    }
}

pub fn keep_real_pairs(pairs: Vec<((usize, usize), Vec<Vec<u8>>)>, Ghost(n): Ghost<nat>) -> (r: Vec<((usize, usize), Vec<Vec<u8>>)>)
    requires
        keys_ok(pairs@, n),
    ensures
        keys_ok(r@, n),
        pairs_view(r@) == real_pairs(pairs_view(pairs@)),
        forall|k: int| 0 <= k < r@.len() ==> exists|j: int| 0 <= j < pairs@.len() && #[trigger] r@[k].0 == pairs@[j].0,
{
    let ghost pv = pairs_view(pairs@);
    let mut out: Vec<((usize, usize), Vec<Vec<u8>>)> = Vec::new();
    let mut i: usize = 0;
    while i < pairs.len()
        invariant
            i <= pairs@.len(),
            pv == pairs_view(pairs@),
            pairs_view(out@) == real_pairs(pv.subrange(0, i as int)),
            keys_ok(pairs@, n),
            keys_ok(out@, n),
            forall|k: int| 0 <= k < out@.len() ==> exists|j: int| 0 <= j < pairs@.len() && #[trigger] out@[k].0 == pairs@[j].0,
        decreases pairs@.len() - i,
    {
        proof {
            assert(pv.subrange(0, i + 1).drop_last() =~= pv.subrange(0, i as int));
        }
        if families_exec(&pairs[i].1) >= super::sharedterm::MIN_SHARED_TERMS {
            let ghost before = pairs_view(out@);
            let key = pairs[i].0;
            let terms = copy_terms(&pairs[i].1);
            out.push((key, terms));
            proof {
                assert(pairs_view(out@) =~= before.push(pv[i as int]));
                assert(out@[out@.len() - 1].0 == pairs@[i as int].0);
                assert forall|k: int| 0 <= k < out@.len() implies #[trigger] out@[k].0.0 < out@[k].0.1 && out@[k].0.1 < n by {
                    if k == out@.len() - 1 {
                        assert(out@[k].0 == pairs@[i as int].0);
                    } else {
                        assert(out@[k] == out@.drop_last()[k]);
                    }
                }
            }
        }
        i += 1;
    }
    proof {
        assert(pv.subrange(0, pairs@.len() as int) =~= pv);
    }
    out
}

/// The keys of the pairs, in order.
pub open spec fn pair_keys(p: PairList) -> Seq<(int, int)> {
    p.map_values(|e: ((int, int), Seq<Seq<u8>>)| e.0)
}

pub proof fn lemma_pair_step_distinct(st: PairState, t: Seq<u8>, a: int, b: int)
    requires
        pair_keys(st.0).no_duplicates(),
    ensures
        pair_keys(pair_step(st, t, a, b).0).no_duplicates(),
        pair_step(st, t, a, b).0.len() >= st.0.len(),
{
    lemma_find_pair(st.0, (a, b), 0);
    match find_pair(st.0, (a, b), 0) {
        Some(k) => {
            let u = st.0.update(k, (st.0[k].0, st.0[k].1.push(t)));
            assert(pair_keys(u) =~= pair_keys(st.0));
        },
        None => {
            if !(st.1[a] >= super::sharedterm::MAX_PARTNERS_TRACKED || st.1[b] >= super::sharedterm::MAX_PARTNERS_TRACKED) {
                let u = st.0.push(((a, b), seq![t]));
                assert(pair_keys(u) =~= pair_keys(st.0).push((a, b)));
                assert forall|i: int, j: int| 0 <= i < pair_keys(u).len() && 0 <= j < pair_keys(u).len() && i != j implies pair_keys(u)[i] != pair_keys(u)[j] by {
                    if i < st.0.len() && j < st.0.len() {
                    } else if i < st.0.len() {
                        assert(st.0[i].0 != (a, b));
                    } else {
                        assert(st.0[j].0 != (a, b));
                    }
                }
            }
        },
    }
}

pub proof fn lemma_run_j_distinct(st: PairState, t: Seq<u8>, post: Seq<int>, i: int, j: int)
    requires
        pair_keys(st.0).no_duplicates(),
    ensures
        pair_keys(run_j(st, t, post, i, j).0).no_duplicates(),
    decreases post.len() - j,
{
    if 0 <= j < post.len() {
        lemma_pair_step_distinct(st, t, post[i], post[j]);
        lemma_run_j_distinct(pair_step(st, t, post[i], post[j]), t, post, i, j + 1);
    }
}

pub proof fn lemma_run_i_distinct(st: PairState, t: Seq<u8>, post: Seq<int>, i: int)
    requires
        pair_keys(st.0).no_duplicates(),
    ensures
        pair_keys(run_i(st, t, post, i).0).no_duplicates(),
    decreases post.len() - i,
{
    if 0 <= i < post.len() {
        lemma_run_j_distinct(st, t, post, i, i + 1);
        lemma_run_i_distinct(run_j(st, t, post, i, i + 1), t, post, i + 1);
    }
}

/// A pair is opened once: the candidate pairs have distinct keys.
pub proof fn lemma_run_terms_distinct(st: PairState, rs: Seq<(Seq<u8>, Seq<int>)>, k: int)
    requires
        pair_keys(st.0).no_duplicates(),
    ensures
        pair_keys(run_terms(st, rs, k).0).no_duplicates(),
    decreases rs.len() - k,
{
    if 0 <= k < rs.len() {
        lemma_run_i_distinct(st, rs[k].0, rs[k].1, 0);
        lemma_run_terms_distinct(run_i(st, rs[k].0, rs[k].1, 0), rs, k + 1);
    }
}

pub proof fn lemma_real_pairs_sub(p: PairList)
    ensures
        forall|i: int| 0 <= i < real_pairs(p).len() ==> exists|j: int| 0 <= j < p.len() && p[j] == #[trigger] real_pairs(p)[i],
        pair_keys(p).no_duplicates() ==> pair_keys(real_pairs(p)).no_duplicates(),
    decreases p.len(),
{
    if p.len() > 0 {
        let d = p.drop_last();
        lemma_real_pairs_sub(d);
        let r = real_pairs(d);
        assert forall|i: int| 0 <= i < r.len() implies exists|j: int| 0 <= j < p.len() && p[j] == #[trigger] r[i] by {
            let j = choose|j: int| 0 <= j < d.len() && d[j] == r[i];
            assert(p[j] == d[j]);
        }
        if pair_keys(p).no_duplicates() {
            assert(pair_keys(d).no_duplicates()) by {
                assert forall|i: int, j: int| 0 <= i < pair_keys(d).len() && 0 <= j < pair_keys(d).len() && i != j implies pair_keys(d)[i] != pair_keys(d)[j] by {
                    assert(pair_keys(d)[i] == pair_keys(p)[i]);
                    assert(pair_keys(d)[j] == pair_keys(p)[j]);
                }
            }
        }
        if families(p.last().1) >= super::sharedterm::MIN_SHARED_TERMS {
            let u = r.push(p.last());
            assert forall|i: int| 0 <= i < u.len() implies exists|j: int| 0 <= j < p.len() && p[j] == #[trigger] u[i] by {
                if i == r.len() {
                    assert(p[p.len() - 1] == u[i]);
                } else {
                    assert(u[i] == r[i]);
                }
            }
            if pair_keys(p).no_duplicates() {
                assert forall|i: int, j: int| 0 <= i < pair_keys(u).len() && 0 <= j < pair_keys(u).len() && i != j implies pair_keys(u)[i] != pair_keys(u)[j] by {
                    if i < r.len() && j < r.len() {
                        assert(pair_keys(u)[i] == pair_keys(r)[i]);
                        assert(pair_keys(u)[j] == pair_keys(r)[j]);
                    } else {
                        let q = if i < r.len() { i } else { j };
                        let w = choose|w: int| 0 <= w < d.len() && d[w] == r[q];
                        assert(pair_keys(p)[w] == d[w].0);
                        assert(pair_keys(p)[p.len() - 1] == p.last().0);
                    }
                }
            }
        }
    }
}

} // verus!
