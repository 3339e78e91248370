//! sharedterm@1 — two documents that use the same distinctive vocabulary.
//!
//! The only detector that connects two documents on the strength of what
//! they say rather than on a citation or the file tree. It links documents
//! that share vocabulary, not documents that mean the same thing: terms are
//! compared as strings, not stemmed, which is why the shared terms travel
//! with the edge as evidence.
//!
//! Density is held by rule: a term in more than a tenth of the corpus (or in
//! more than 64 documents) is vocabulary, not topic; each document keeps its
//! 24 most-repeated distinctive terms; a link needs two word families in
//! common; and no document ever has more than 5 `shared_term` edges. What the
//! budget refuses is counted.

use super::corpus::{copy_bytes, edge_views, CorpusIndex, DetectorCounters, EdgeDraft};
use super::linkbudget::pair_count;
use super::termgraph::{link_documents, plan_accepted, plan_candidates, term_plan};
use super::termlinks::live_docs;
use super::section::SectionCtx;
use crate::bytes::{bytes_eq, bytes_lt, lex_lt, slice_vec};
use crate::text::{utf8_of, utf8s, alphabetic, alphanumeric, chars_of, is_alphabetic, is_alphanumeric, lower_of, to_lowercase};
use vstd::prelude::*;
use vstd::string::StringSliceAdditionalSpecFns;

verus! {

pub const TAG: &'static str = "sharedterm@1";

pub const EDGE_TYPE: &'static str = "shared_term";

/// Weight in thousandths.
pub const WEIGHT: u32 = 450;

/// Confidence in thousandths.
pub const CONFIDENCE: u32 = 500;

/// Hard degree budget per document.
pub const MAX_EDGES_PER_DOC: usize = 5;

/// Distinctiveness floor: a term in more than this percentage of the corpus
/// is the corpus's own vocabulary, not a topic.
pub const MAX_DOC_PERCENT: usize = 10;

/// Absolute ceiling on document frequency, whatever the percentage gives.
pub const MAX_TERM_DOCS: usize = 64;

/// Distinctive terms kept per document for linking, by in-document count.
pub const TOP_TERMS_PER_DOC: usize = 24;

/// Word families two documents must share before they are linked.
pub const MIN_SHARED_TERMS: usize = 2;

/// Shared leading characters that make two terms one word family.
pub const TERM_FAMILY_PREFIX: usize = 5;

/// Candidate partners tracked per document before ranking.
pub const MAX_PARTNERS_TRACKED: usize = 32;

/// Terms kept per document after pruning.
pub const TRACK_TERMS_PER_DOC: usize = 256;

/// Distinct terms a document may hold before it is pruned.
pub const PRUNE_AT: usize = 1024;

/// Shortest term considered, in characters.
pub const MIN_TERM_LEN: usize = 3;

/// Longest term considered, in characters.
pub const MAX_TERM_LEN: usize = 32;

/// Shared terms named in the evidence quote.
pub const TERMS_IN_EVIDENCE: usize = 12;

/// English function words, sorted.
pub const STOPWORDS: [&'static str; 84] = [
    "about", "after", "all", "also", "and", "any", "are", "because", "been", "before", "being",
    "between", "both", "but", "can", "could", "did", "does", "each", "for", "from", "had",
    "has", "have", "her", "here", "him", "his", "how", "into", "its", "just", "may", "might",
    "more", "most", "must", "not", "now", "only", "other", "our", "out", "over", "own", "same",
    "she", "should", "since", "some", "such", "than", "that", "the", "their", "them", "then",
    "there", "these", "they", "this", "those", "through", "thus", "too", "under", "use",
    "used", "using", "very", "was", "were", "what", "when", "where", "which", "while", "who",
    "why", "will", "with", "would", "you", "your",
];

/// `t` is one of the stop words.
pub open spec fn is_stop(t: Seq<u8>) -> bool {
    exists|i: int| 0 <= i < 84 && (#[trigger] STOPWORDS[i]).spec_bytes() == t
}

pub fn is_stopword(term: &[u8]) -> (r: bool)
    ensures
        r == is_stop(term@),
{
    let mut i: usize = 0;
    while i < 84
        invariant
            i <= 84,
            forall|j: int| 0 <= j < i ==> (#[trigger] STOPWORDS[j]).spec_bytes() != term@,
        decreases 84 - i,
    {
        let w = STOPWORDS[i];
        if bytes_eq(w.as_bytes(), term) {
            return true;
        }
        i += 1;
    }
    false
}

/// The UTF-8 encoding of a character, as `utf8_of` states it.
fn encode_utf8(c: char) -> (r: Vec<u8>)
    ensures
        r@ == utf8_of(c),
{
    let v = c as u32;
    let mut out: Vec<u8> = Vec::new();
    if v < 0x80 {
        out.push(v as u8);
    } else if v < 0x800 {
        out.push((0xC0 + v / 64) as u8);
        out.push((0x80 + v % 64) as u8);
    } else if v < 0x10000 {
        out.push((0xE0 + v / 4096) as u8);
        out.push((0x80 + (v / 64) % 64) as u8);
        out.push((0x80 + v % 64) as u8);
    } else {
        assert(v <= 0x10FFFF);
        out.push((0xF0 + v / 262144) as u8);
        out.push((0x80 + (v / 4096) % 64) as u8);
        out.push((0x80 + (v / 64) % 64) as u8);
        out.push((0x80 + v % 64) as u8);
    }
    proof {
        assert(out@ =~= utf8_of(c));
    }
    out
}


fn utf8s_exec(cs: &[char]) -> (r: Vec<u8>)
    ensures
        r@ == utf8s(cs@),
{
    let mut out: Vec<u8> = Vec::new();
    let mut i: usize = 0;
    while i < cs.len()
        invariant
            i <= cs@.len(),
            out@ == utf8s(cs@.subrange(0, i as int)),
        decreases cs@.len() - i,
    {
        let b = encode_utf8(cs[i]);
        crate::bytes::push_all(&mut out, b.as_slice());
        proof {
            assert(cs@.subrange(0, i + 1).drop_last() =~= cs@.subrange(0, i as int));
        }
        i += 1;
    }
    proof {
        assert(cs@.subrange(0, cs@.len() as int) =~= cs@);
    }
    out
}

pub open spec fn has_alphabetic(lc: Seq<char>) -> bool {
    exists|k: int| 0 <= k < lc.len() && alphabetic(#[trigger] lc[k])
}

/// A lowercased run is a term: 3 to 32 characters, one of them alphabetic,
/// and not a stop word.
pub open spec fn keeps(lc: Seq<char>) -> bool {
    &&& MIN_TERM_LEN <= lc.len() <= MAX_TERM_LEN
    &&& has_alphabetic(lc)
    &&& !is_stop(utf8s(lc))
}

pub open spec fn flush(acc: Seq<Seq<u8>>, cur: Seq<char>) -> Seq<Seq<u8>> {
    if cur.len() > 0 && keeps(cur) {
        acc.push(utf8s(cur))
    } else {
        acc
    }
}

/// The terms of some characters from `i` on: maximal alphanumeric runs,
/// lowercased (Unicode), that pass `keeps`, in order.
pub open spec fn scan_terms(cs: Seq<char>, i: int, cur: Seq<char>, acc: Seq<Seq<u8>>) -> Seq<Seq<u8>>
    decreases cs.len() - i,
{
    if i < 0 || i >= cs.len() {
        flush(acc, cur)
    } else if alphanumeric(cs[i]) {
        scan_terms(cs, i + 1, cur + lower_of(cs[i]), acc)
    } else {
        scan_terms(cs, i + 1, Seq::empty(), flush(acc, cur))
    }
}

pub open spec fn terms_of(text: Seq<char>) -> Seq<Seq<u8>> {
    scan_terms(text, 0, Seq::empty(), Seq::empty())
}

/// `u64` addition that wraps, as the counters of a release build do.
pub open spec fn wadd(x: u64, y: u64) -> u64 {
    if x + y > u64::MAX {
        (x + y - 0x1_0000_0000_0000_0000) as u64
    } else {
        (x + y) as u64
    }
}

pub fn wadd_exec(x: u64, y: u64) -> (r: u64)
    ensures
        r == wadd(x, y),
{
    if y > u64::MAX - x {
        y - (u64::MAX - x) - 1
    } else {
        x + y
    }
}

/// Term counts, kept ascending by term.
pub type Counts = Seq<(Seq<u8>, u64)>;

/// Merge two ascending count lists, adding the counts of a term in both.
pub open spec fn merge(a: Counts, b: Counts) -> Counts
    decreases a.len() + b.len(),
{
    if a.len() == 0 {
        b
    } else if b.len() == 0 {
        a
    } else if lex_lt(a[0].0, b[0].0) {
        seq![a[0]] + merge(a.drop_first(), b)
    } else if lex_lt(b[0].0, a[0].0) {
        seq![b[0]] + merge(a, b.drop_first())
    } else {
        seq![(a[0].0, wadd(a[0].1, b[0].1))] + merge(a.drop_first(), b.drop_first())
    }
}

pub open spec fn counts_view(v: Seq<(Vec<u8>, u64)>) -> Counts {
    v.map_values(|p: (Vec<u8>, u64)| (p.0@, p.1))
}

pub fn merge_counts(a: &Vec<(Vec<u8>, u64)>, b: &Vec<(Vec<u8>, u64)>) -> (r: Vec<(Vec<u8>, u64)>)
    ensures
        counts_view(r@) == merge(counts_view(a@), counts_view(b@)),
{
    let ghost av = counts_view(a@);
    let ghost bv = counts_view(b@);
    let mut out: Vec<(Vec<u8>, u64)> = Vec::new();
    let mut i: usize = 0;
    let mut j: usize = 0;
    proof {
        assert(av.subrange(0, av.len() as int) =~= av);
        assert(bv.subrange(0, bv.len() as int) =~= bv);
    }
    while i < a.len() || j < b.len()
        invariant
            i <= a@.len(),
            j <= b@.len(),
            av == counts_view(a@),
            bv == counts_view(b@),
            counts_view(out@) + merge(av.subrange(i as int, av.len() as int), bv.subrange(j as int, bv.len() as int))
                == merge(av, bv),
        decreases a@.len() + b@.len() - i - j,
    {
        let ghost x = av.subrange(i as int, av.len() as int);
        let ghost y = bv.subrange(j as int, bv.len() as int);
        let ghost before = counts_view(out@);
        if i == a.len() {
            out.push((copy_bytes(&b[j].0), b[j].1));
            proof {
                assert(x.len() == 0);
                assert(y.drop_first() =~= bv.subrange(j + 1, bv.len() as int));
                assert(merge(x, y.drop_first()) == y.drop_first());
                assert(counts_view(out@) =~= before.push(y[0]));
                assert(before + merge(x, y) =~= counts_view(out@) + merge(x, y.drop_first()));
            }
            j += 1;
        } else if j == b.len() {
            out.push((copy_bytes(&a[i].0), a[i].1));
            proof {
                assert(y.len() == 0);
                assert(x.drop_first() =~= av.subrange(i + 1, av.len() as int));
                assert(merge(x.drop_first(), y) == x.drop_first());
                assert(counts_view(out@) =~= before.push(x[0]));
                assert(before + merge(x, y) =~= counts_view(out@) + merge(x.drop_first(), y));
            }
            i += 1;
        } else if bytes_lt(a[i].0.as_slice(), b[j].0.as_slice()) {
            out.push((copy_bytes(&a[i].0), a[i].1));
            proof {
                assert(x.drop_first() =~= av.subrange(i + 1, av.len() as int));
                assert(counts_view(out@) =~= before.push(x[0]));
                assert(before + merge(x, y) =~= counts_view(out@) + merge(x.drop_first(), y));
            }
            i += 1;
        } else if bytes_lt(b[j].0.as_slice(), a[i].0.as_slice()) {
            out.push((copy_bytes(&b[j].0), b[j].1));
            proof {
                assert(y.drop_first() =~= bv.subrange(j + 1, bv.len() as int));
                assert(counts_view(out@) =~= before.push(y[0]));
                assert(before + merge(x, y) =~= counts_view(out@) + merge(x, y.drop_first()));
            }
            j += 1;
        } else {
            out.push((copy_bytes(&a[i].0), wadd_exec(a[i].1, b[j].1)));
            proof {
                assert(x.drop_first() =~= av.subrange(i + 1, av.len() as int));
                assert(y.drop_first() =~= bv.subrange(j + 1, bv.len() as int));
                assert(counts_view(out@) =~= before.push((x[0].0, wadd(x[0].1, y[0].1))));
                assert(before + merge(x, y) =~= counts_view(out@) + merge(x.drop_first(), y.drop_first()));
            }
            i += 1;
            j += 1;
        }
    }
    proof {
        assert(av.subrange(i as int, av.len() as int) =~= Seq::<(Seq<u8>, u64)>::empty());
        assert(bv.subrange(j as int, bv.len() as int) =~= Seq::<(Seq<u8>, u64)>::empty());
        assert(counts_view(out@) + Seq::<(Seq<u8>, u64)>::empty() =~= counts_view(out@));
    }
    out
}

/// How often each term occurs, ascending by term.
pub open spec fn tally(ts: Seq<Seq<u8>>) -> Counts
    decreases ts.len(),
{
    if ts.len() == 0 {
        Seq::empty()
    } else {
        merge(tally(ts.drop_last()), seq![(ts.last(), 1u64)])
    }
}

/// Tally the current run if it is a term.
fn flush_run(counts: &mut Vec<(Vec<u8>, u64)>, cur: &Vec<char>, alpha: bool, Ghost(acc): Ghost<Seq<Seq<u8>>>)
    requires
        counts_view(old(counts)@) == tally(acc),
        alpha == has_alphabetic(cur@),
    ensures
        counts_view(final(counts)@) == tally(flush(acc, cur@)),
{
    if cur.len() > 0 {
        let n = cur.len();
        if MIN_TERM_LEN <= n && n <= MAX_TERM_LEN && alpha {
            let bytes = utf8s_exec(cur.as_slice());
            if !is_stopword(bytes.as_slice()) {
                let ghost bv = bytes@;
                let one: Vec<(Vec<u8>, u64)> = vec![(bytes, 1u64)];
                proof {
                    assert(counts_view(one@) =~= seq![(bv, 1u64)]);
                }
                let merged = merge_counts(counts, &one);
                *counts = merged;
                proof {
                    assert(acc.push(bv).drop_last() =~= acc);
                }
            }
        }
    }
}

/// Count the terms of a text.
pub fn count_terms(text: &str) -> (r: Vec<(Vec<u8>, u64)>)
    ensures
        counts_view(r@) == tally(terms_of(text@)),
{
    let cs = chars_of(text);
    let mut counts: Vec<(Vec<u8>, u64)> = Vec::new();
    let mut cur: Vec<char> = Vec::new();
    let mut alpha = false;
    let ghost mut acc: Seq<Seq<u8>> = Seq::empty();
    let mut i: usize = 0;
    proof {
        assert(counts_view(counts@) =~= tally(acc));
        assert(cur@ =~= Seq::<char>::empty());
    }
    while i < cs.len()
        invariant
            i <= cs@.len(),
            cs@ == text@,
            scan_terms(cs@, 0, Seq::empty(), Seq::empty()) == scan_terms(cs@, i as int, cur@, acc),
            counts_view(counts@) == tally(acc),
            alpha == has_alphabetic(cur@),
        decreases cs@.len() - i,
    {
        if is_alphanumeric(cs[i]) {
            let low = to_lowercase(cs[i]);
            let mut k: usize = 0;
            let ghost cur0 = cur@;
            proof {
                assert(low@.subrange(0, 0) =~= Seq::<char>::empty());
                assert(cur0 + low@.subrange(0, 0) =~= cur0);
            }
            while k < low.len()
                invariant
                    k <= low@.len(),
                    cur@ == cur0 + low@.subrange(0, k as int),
                    alpha == has_alphabetic(cur@),
                decreases low@.len() - k,
            {
                let c = low[k];
                let ghost before = cur@;
                cur.push(c);
                let a = is_alphabetic(c);
                if a {
                    alpha = true;
                }
                proof {
                    assert(cur@ =~= cur0 + low@.subrange(0, k + 1));
                    if a {
                        assert(cur@[before.len() as int] == c);
                    }
                    if has_alphabetic(before) {
                        let q = choose|q: int| 0 <= q < before.len() && alphabetic(#[trigger] before[q]);
                        assert(cur@[q] == before[q]);
                    }
                    if has_alphabetic(cur@) && !has_alphabetic(before) {
                        let q = choose|q: int| 0 <= q < cur@.len() && alphabetic(#[trigger] cur@[q]);
                        if q < before.len() {
                            assert(before[q] == cur@[q]);
                        }
                    }
                }
                k += 1;
            }
            proof {
                assert(low@.subrange(0, low@.len() as int) =~= low@);
            }
        } else {
            flush_run(&mut counts, &cur, alpha, Ghost(acc));
            proof {
                acc = flush(acc, cur@);
            }
            cur = Vec::new();
            alpha = false;
            proof {
                assert(cur@ =~= Seq::<char>::empty());
            }
        }
        i += 1;
    }
    flush_run(&mut counts, &cur, alpha, Ghost(acc));
    counts
}

/// `x` ranks above `y`: more occurrences, or as many and a smaller term.
pub open spec fn beats(x: (Seq<u8>, u64), y: (Seq<u8>, u64)) -> bool {
    x.1 > y.1 || (x.1 == y.1 && lex_lt(x.0, y.0))
}

/// How many entries of `s` rank above `y`.
pub open spec fn beaten_by(s: Counts, y: (Seq<u8>, u64)) -> nat
    decreases s.len(),
{
    if s.len() == 0 {
        0
    } else {
        beaten_by(s.drop_last(), y) + if beats(s.last(), y) {
            1nat
        } else {
            0nat
        }
    }
}

/// The entries of `s` that fewer than `k` entries of `full` rank above, in order.
pub open spec fn top(s: Counts, full: Counts, k: nat) -> Counts
    decreases s.len(),
{
    if s.len() == 0 {
        Seq::empty()
    } else {
        let r = top(s.drop_last(), full, k);
        if beaten_by(full, s.last()) < k {
            r.push(s.last())
        } else {
            r
        }
    }
}

/// A document past `PRUNE_AT` distinct terms keeps its `TRACK_TERMS_PER_DOC`
/// most repeated ones (ties go to the smaller term).
pub open spec fn prune(s: Counts) -> Counts {
    if s.len() <= PRUNE_AT {
        s
    } else {
        top(s, s, TRACK_TERMS_PER_DOC as nat)
    }
}

fn count_beating(v: &Vec<(Vec<u8>, u64)>, y: &(Vec<u8>, u64)) -> (r: usize)
    ensures
        r == beaten_by(counts_view(v@), (y.0@, y.1)),
{
    let ghost vv = counts_view(v@);
    let mut n: usize = 0;
    let mut i: usize = 0;
    while i < v.len()
        invariant
            i <= v@.len(),
            vv == counts_view(v@),
            n == beaten_by(vv.subrange(0, i as int), (y.0@, y.1)),
            n <= i,
        decreases v@.len() - i,
    {
        proof {
            assert(vv.subrange(0, i + 1).drop_last() =~= vv.subrange(0, i as int));
        }
        if v[i].1 > y.1 || (v[i].1 == y.1 && bytes_lt(v[i].0.as_slice(), y.0.as_slice())) {
            n += 1;
        }
        i += 1;
    }
    proof {
        assert(vv.subrange(0, v@.len() as int) =~= vv);
    }
    n
}

pub fn prune_counts(v: Vec<(Vec<u8>, u64)>) -> (r: Vec<(Vec<u8>, u64)>)
    ensures
        counts_view(r@) == prune(counts_view(v@)),
{
    if v.len() <= PRUNE_AT {
        return v;
    }
    let ghost vv = counts_view(v@);
    let mut out: Vec<(Vec<u8>, u64)> = Vec::new();
    let mut i: usize = 0;
    while i < v.len()
        invariant
            i <= v@.len(),
            vv == counts_view(v@),
            counts_view(out@) == top(vv.subrange(0, i as int), vv, TRACK_TERMS_PER_DOC as nat),
        decreases v@.len() - i,
    {
        proof {
            assert(vv.subrange(0, i + 1).drop_last() =~= vv.subrange(0, i as int));
        }
        if count_beating(&v, &v[i]) < TRACK_TERMS_PER_DOC {
            let ghost before = counts_view(out@);
            out.push((copy_bytes(&v[i].0), v[i].1));
            proof {
                assert(counts_view(out@) =~= before.push(vv[i as int]));
            }
        }
        i += 1;
    }
    proof {
        assert(vv.subrange(0, v@.len() as int) =~= vv);
    }
    out
}

/// The tracked documents: path and term counts, ascending by path.
pub type Docs = Seq<(Seq<u8>, Counts)>;

pub open spec fn docs_view(v: Seq<(Vec<u8>, Vec<(Vec<u8>, u64)>)>) -> Docs {
    v.map_values(|d: (Vec<u8>, Vec<(Vec<u8>, u64)>)| (d.0@, counts_view(d.1@)))
}

/// Add a section's counts to document `rel`, then prune it.
pub open spec fn doc_update(s: Docs, rel: Seq<u8>, c: Counts) -> Docs
    decreases s.len(),
{
    if s.len() == 0 {
        seq![(rel, prune(c))]
    } else if s[0].0 == rel {
        seq![(rel, prune(merge(s[0].1, c)))] + s.drop_first()
    } else if lex_lt(s[0].0, rel) {
        seq![s[0]] + doc_update(s.drop_first(), rel, c)
    } else {
        seq![(rel, prune(c))] + s
    }
}

proof fn lemma_doc_update_skip(s: Docs, rel: Seq<u8>, c: Counts, i: int)
    requires
        0 <= i <= s.len(),
        forall|k: int| 0 <= k < i ==> lex_lt(#[trigger] s[k].0, rel),
    ensures
        doc_update(s, rel, c) == s.subrange(0, i) + doc_update(s.subrange(i, s.len() as int), rel, c),
    decreases i,
{
    if i > 0 {
        crate::bytes::lemma_lex_irreflexive(rel);
        assert(s[0].0 != rel);
        let t = s.drop_first();
        assert forall|k: int| 0 <= k < i - 1 implies lex_lt(#[trigger] t[k].0, rel) by {
            assert(t[k] == s[k + 1]);
        }
        lemma_doc_update_skip(t, rel, c, i - 1);
        assert(t.subrange(i - 1, t.len() as int) =~= s.subrange(i, s.len() as int));
        assert(s.subrange(0, i) =~= seq![s[0]] + t.subrange(0, i - 1));
    } else {
        assert(s.subrange(0, 0) + doc_update(s.subrange(0, s.len() as int), rel, c) =~= doc_update(
            s.subrange(0, s.len() as int),
            rel,
            c,
        ));
        assert(s.subrange(0, s.len() as int) =~= s);
    }
}

/// Terms strictly ascending.
pub open spec fn keys_sorted(c: Counts) -> bool {
    forall|i: int, j: int| 0 <= i < j < c.len() ==> lex_lt(#[trigger] c[i].0, #[trigger] c[j].0)
}

/// `t` is a term of `c`.
pub open spec fn has_term(c: Counts, t: Seq<u8>) -> bool {
    exists|i: int| 0 <= i < c.len() && (#[trigger] c[i]).0 == t
}

proof fn lemma_sorted_drop_first(c: Counts)
    requires
        keys_sorted(c),
        c.len() > 0,
    ensures
        keys_sorted(c.drop_first()),
        forall|i: int| 0 <= i < c.drop_first().len() ==> lex_lt(c[0].0, #[trigger] c.drop_first()[i].0),
{
    assert forall|i: int, j: int| 0 <= i < j < c.drop_first().len() implies lex_lt(
        #[trigger] c.drop_first()[i].0,
        #[trigger] c.drop_first()[j].0,
    ) by {
        assert(c.drop_first()[i] == c[i + 1]);
        assert(c.drop_first()[j] == c[j + 1]);
    }
    assert forall|i: int| 0 <= i < c.drop_first().len() implies lex_lt(c[0].0, #[trigger] c.drop_first()[i].0) by {
        assert(c.drop_first()[i] == c[i + 1]);
    }
}

/// Every term of a merge is a term of one of its inputs.
pub proof fn lemma_merge_terms(a: Counts, b: Counts)
    ensures
        forall|i: int| 0 <= i < merge(a, b).len() ==> has_term(a, #[trigger] merge(a, b)[i].0) || has_term(b, merge(a, b)[i].0),
    decreases a.len() + b.len(),
{
    let m = merge(a, b);
    if a.len() == 0 || b.len() == 0 {
        assert forall|i: int| 0 <= i < m.len() implies has_term(a, #[trigger] m[i].0) || has_term(b, m[i].0) by {
            if a.len() == 0 {
                assert(b[i].0 == m[i].0);
            } else {
                assert(a[i].0 == m[i].0);
            }
        }
    } else if lex_lt(a[0].0, b[0].0) {
        lemma_merge_terms(a.drop_first(), b);
        let r = merge(a.drop_first(), b);
        assert forall|i: int| 0 <= i < m.len() implies has_term(a, #[trigger] m[i].0) || has_term(b, m[i].0) by {
            if i == 0 {
                assert(a[0].0 == m[0].0);
            } else {
                assert(m[i] == r[i - 1]);
                if has_term(a.drop_first(), r[i - 1].0) {
                    let k = choose|k: int| 0 <= k < a.drop_first().len() && (#[trigger] a.drop_first()[k]).0 == r[i - 1].0;
                    assert(a[k + 1] == a.drop_first()[k]);
                }
            }
        }
    } else if lex_lt(b[0].0, a[0].0) {
        lemma_merge_terms(a, b.drop_first());
        let r = merge(a, b.drop_first());
        assert forall|i: int| 0 <= i < m.len() implies has_term(a, #[trigger] m[i].0) || has_term(b, m[i].0) by {
            if i == 0 {
                assert(b[0].0 == m[0].0);
            } else {
                assert(m[i] == r[i - 1]);
                if has_term(b.drop_first(), r[i - 1].0) {
                    let k = choose|k: int| 0 <= k < b.drop_first().len() && (#[trigger] b.drop_first()[k]).0 == r[i - 1].0;
                    assert(b[k + 1] == b.drop_first()[k]);
                }
            }
        }
    } else {
        lemma_merge_terms(a.drop_first(), b.drop_first());
        let r = merge(a.drop_first(), b.drop_first());
        assert forall|i: int| 0 <= i < m.len() implies has_term(a, #[trigger] m[i].0) || has_term(b, m[i].0) by {
            if i == 0 {
                assert(a[0].0 == m[0].0);
            } else {
                assert(m[i] == r[i - 1]);
                if has_term(a.drop_first(), r[i - 1].0) {
                    let k = choose|k: int| 0 <= k < a.drop_first().len() && (#[trigger] a.drop_first()[k]).0 == r[i - 1].0;
                    assert(a[k + 1] == a.drop_first()[k]);
                } else {
                    let k = choose|k: int| 0 <= k < b.drop_first().len() && (#[trigger] b.drop_first()[k]).0 == r[i - 1].0;
                    assert(b[k + 1] == b.drop_first()[k]);
                }
            }
        }
    }
}

/// Merging ascending lists gives an ascending list.
pub proof fn lemma_merge_sorted(a: Counts, b: Counts)
    requires
        keys_sorted(a),
        keys_sorted(b),
    ensures
        keys_sorted(merge(a, b)),
    decreases a.len() + b.len(),
{
    let m = merge(a, b);
    if a.len() == 0 || b.len() == 0 {
    } else {
        lemma_sorted_drop_first(a);
        lemma_sorted_drop_first(b);
        let (r, x) = if lex_lt(a[0].0, b[0].0) {
            lemma_merge_sorted(a.drop_first(), b);
            lemma_merge_terms(a.drop_first(), b);
            (merge(a.drop_first(), b), a[0].0)
        } else if lex_lt(b[0].0, a[0].0) {
            lemma_merge_sorted(a, b.drop_first());
            lemma_merge_terms(a, b.drop_first());
            (merge(a, b.drop_first()), b[0].0)
        } else {
            crate::bytes::lemma_lex_total(a[0].0, b[0].0);
            lemma_merge_sorted(a.drop_first(), b.drop_first());
            lemma_merge_terms(a.drop_first(), b.drop_first());
            (merge(a.drop_first(), b.drop_first()), a[0].0)
        };
        assert(m == seq![m[0]] + r);
        assert(m[0].0 == x);
        assert forall|k: int| 0 <= k < r.len() implies lex_lt(x, #[trigger] r[k].0) by {
            let t = r[k].0;
            if lex_lt(a[0].0, b[0].0) {
                if has_term(a.drop_first(), t) {
                    let q = choose|q: int| 0 <= q < a.drop_first().len() && (#[trigger] a.drop_first()[q]).0 == t;
                } else {
                    let q = choose|q: int| 0 <= q < b.len() && (#[trigger] b[q]).0 == t;
                    if q > 0 {
                        crate::bytes::lemma_lex_trans(a[0].0, b[0].0, b[q].0);
                    }
                }
            } else if lex_lt(b[0].0, a[0].0) {
                if has_term(b.drop_first(), t) {
                    let q = choose|q: int| 0 <= q < b.drop_first().len() && (#[trigger] b.drop_first()[q]).0 == t;
                } else {
                    let q = choose|q: int| 0 <= q < a.len() && (#[trigger] a[q]).0 == t;
                    if q > 0 {
                        crate::bytes::lemma_lex_trans(b[0].0, a[0].0, a[q].0);
                    }
                }
            } else {
                if has_term(a.drop_first(), t) {
                    let q = choose|q: int| 0 <= q < a.drop_first().len() && (#[trigger] a.drop_first()[q]).0 == t;
                } else {
                    let q = choose|q: int| 0 <= q < b.drop_first().len() && (#[trigger] b.drop_first()[q]).0 == t;
                }
            }
        }
        assert forall|i: int, j: int| 0 <= i < j < m.len() implies lex_lt(#[trigger] m[i].0, #[trigger] m[j].0) by {
            if i == 0 {
                assert(m[j] == r[j - 1]);
            } else {
                assert(m[i] == r[i - 1]);
                assert(m[j] == r[j - 1]);
            }
        }
    }
}

pub proof fn lemma_tally_sorted(ts: Seq<Seq<u8>>)
    ensures
        keys_sorted(tally(ts)),
    decreases ts.len(),
{
    if ts.len() > 0 {
        lemma_tally_sorted(ts.drop_last());
        lemma_merge_sorted(tally(ts.drop_last()), seq![(ts.last(), 1u64)]);
    }
}

/// What `top` keeps is taken from its input, in order.
pub proof fn lemma_top_sorted(s: Counts, full: Counts, k: nat)
    requires
        keys_sorted(s),
    ensures
        keys_sorted(top(s, full, k)),
        forall|i: int| 0 <= i < top(s, full, k).len() ==> has_term(s, #[trigger] top(s, full, k)[i].0),
    decreases s.len(),
{
    if s.len() > 0 {
        let d = s.drop_last();
        assert forall|i: int, j: int| 0 <= i < j < d.len() implies lex_lt(#[trigger] d[i].0, #[trigger] d[j].0) by {
            assert(d[i] == s[i] && d[j] == s[j]);
        }
        lemma_top_sorted(d, full, k);
        let r = top(d, full, k);
        assert forall|i: int| 0 <= i < r.len() implies has_term(s, #[trigger] r[i].0) by {
            let q = choose|q: int| 0 <= q < d.len() && (#[trigger] d[q]).0 == r[i].0;
            assert(s[q] == d[q]);
        }
        if beaten_by(full, s.last()) < k {
            let t = r.push(s.last());
            assert forall|i: int, j: int| 0 <= i < j < t.len() implies lex_lt(#[trigger] t[i].0, #[trigger] t[j].0) by {
                if j == r.len() {
                    let q = choose|q: int| 0 <= q < d.len() && (#[trigger] d[q]).0 == r[i].0;
                    assert(s[q] == d[q]);
                    assert(lex_lt(s[q].0, s[s.len() - 1].0));
                } else {
                    assert(t[i] == r[i] && t[j] == r[j]);
                }
            }
            assert forall|i: int| 0 <= i < t.len() implies has_term(s, #[trigger] t[i].0) by {
                if i == r.len() {
                    assert(s[s.len() - 1].0 == t[i].0);
                } else {
                    assert(t[i] == r[i]);
                }
            }
        }
    }
}

pub proof fn lemma_prune_sorted(s: Counts)
    requires
        keys_sorted(s),
    ensures
        keys_sorted(prune(s)),
{
    if s.len() > PRUNE_AT {
        lemma_top_sorted(s, s, TRACK_TERMS_PER_DOC as nat);
    }
}

/// Documents strictly ascending by path, each with ascending terms.
pub open spec fn docs_sorted(d: Docs) -> bool {
    &&& forall|i: int, j: int| 0 <= i < j < d.len() ==> lex_lt(#[trigger] d[i].0, #[trigger] d[j].0)
    &&& forall|i: int| 0 <= i < d.len() ==> keys_sorted(#[trigger] d[i].1)
}

pub proof fn lemma_doc_update_sorted(s: Docs, rel: Seq<u8>, c: Counts)
    requires
        docs_sorted(s),
        keys_sorted(c),
    ensures
        docs_sorted(doc_update(s, rel, c)),
        forall|i: int| 0 <= i < doc_update(s, rel, c).len() ==> (#[trigger] doc_update(s, rel, c)[i]).0 == rel
            || exists|k: int| 0 <= k < s.len() && s[k].0 == doc_update(s, rel, c)[i].0,
    decreases s.len(),
{
    let u = doc_update(s, rel, c);
    lemma_prune_sorted(c);
    if s.len() == 0 {
    } else if s[0].0 == rel {
        lemma_merge_sorted(s[0].1, c);
        lemma_prune_sorted(merge(s[0].1, c));
        assert forall|i: int, j: int| 0 <= i < j < u.len() implies lex_lt(#[trigger] u[i].0, #[trigger] u[j].0) by {
            assert(u[j] == s[j]);
            if i > 0 {
                assert(u[i] == s[i]);
            }
        }
        assert forall|i: int| 0 <= i < u.len() implies keys_sorted(#[trigger] u[i].1) by {
            if i > 0 {
                assert(u[i] == s[i]);
            }
        }
        assert forall|i: int| 0 <= i < u.len() implies (#[trigger] u[i]).0 == rel || exists|k: int| 0 <= k < s.len() && s[k].0 == u[i].0 by {
            if i > 0 {
                assert(u[i] == s[i]);
            }
        }
    } else if lex_lt(s[0].0, rel) {
        let t = s.drop_first();
        assert forall|i: int, j: int| 0 <= i < j < t.len() implies lex_lt(#[trigger] t[i].0, #[trigger] t[j].0) by {
            assert(t[i] == s[i + 1] && t[j] == s[j + 1]);
        }
        assert forall|i: int| 0 <= i < t.len() implies keys_sorted(#[trigger] t[i].1) by {
            assert(t[i] == s[i + 1]);
        }
        lemma_doc_update_sorted(t, rel, c);
        let r = doc_update(t, rel, c);
        assert(u == seq![s[0]] + r);
        assert forall|i: int| 0 <= i < r.len() implies lex_lt(s[0].0, #[trigger] r[i].0) by {
            if r[i].0 != rel {
                let k = choose|k: int| 0 <= k < t.len() && t[k].0 == r[i].0;
                assert(t[k] == s[k + 1]);
            }
        }
        assert forall|i: int, j: int| 0 <= i < j < u.len() implies lex_lt(#[trigger] u[i].0, #[trigger] u[j].0) by {
            assert(u[j] == r[j - 1]);
            if i > 0 {
                assert(u[i] == r[i - 1]);
            }
        }
        assert forall|i: int| 0 <= i < u.len() implies keys_sorted(#[trigger] u[i].1) by {
            if i > 0 {
                assert(u[i] == r[i - 1]);
            }
        }
        assert forall|i: int| 0 <= i < u.len() implies (#[trigger] u[i]).0 == rel || exists|k: int| 0 <= k < s.len() && s[k].0 == u[i].0 by {
            if i > 0 {
                assert(u[i] == r[i - 1]);
                if r[i - 1].0 != rel {
                    let k = choose|k: int| 0 <= k < t.len() && t[k].0 == r[i - 1].0;
                    assert(s[k + 1] == t[k]);
                }
            } else {
                assert(s[0].0 == u[0].0);
            }
        }
    } else {
        crate::bytes::lemma_lex_total(s[0].0, rel);
        assert forall|i: int, j: int| 0 <= i < j < u.len() implies lex_lt(#[trigger] u[i].0, #[trigger] u[j].0) by {
            assert(u[j] == s[j - 1]);
            if i > 0 {
                assert(u[i] == s[i - 1]);
            } else if j - 1 > 0 {
                crate::bytes::lemma_lex_trans(rel, s[0].0, s[j - 1].0);
            }
        }
        assert forall|i: int| 0 <= i < u.len() implies keys_sorted(#[trigger] u[i].1) by {
            if i > 0 {
                assert(u[i] == s[i - 1]);
            }
        }
        assert forall|i: int| 0 <= i < u.len() implies (#[trigger] u[i]).0 == rel || exists|k: int| 0 <= k < s.len() && s[k].0 == u[i].0 by {
            if i > 0 {
                assert(u[i] == s[i - 1]);
            }
        }
    }
}

/// The terms tracked for document `rel`, if any.
pub open spec fn lookup(d: Docs, rel: Seq<u8>) -> Option<Counts>
    decreases d.len(),
{
    if d.len() == 0 {
        None
    } else if d[0].0 == rel {
        Some(d[0].1)
    } else {
        lookup(d.drop_first(), rel)
    }
}

pub open spec fn or_empty(o: Option<Counts>) -> Counts {
    match o {
        Some(c) => c,
        None => Seq::empty(),
    }
}

/// The counts of one section.
pub open spec fn section_counts(text: Seq<char>) -> Counts {
    tally(terms_of(text))
}

/// One section taken in, as `detect_text` takes it.
pub open spec fn take_section(s: Docs, rel: Seq<u8>, text: Seq<char>) -> Docs {
    if section_counts(text).len() == 0 {
        s
    } else {
        doc_update(s, rel, section_counts(text))
    }
}

/// The documents tracked after a fresh detector took these (document,
/// text) sections in order.
pub open spec fn feed(secs: Seq<(Seq<u8>, Seq<char>)>) -> Docs
    decreases secs.len(),
{
    if secs.len() == 0 {
        Seq::empty()
    } else {
        take_section(feed(secs.drop_last()), secs.last().0, secs.last().1)
    }
}

/// The texts of document `rel`'s sections, in order.
pub open spec fn texts_of(secs: Seq<(Seq<u8>, Seq<char>)>, rel: Seq<u8>) -> Seq<Seq<char>>
    decreases secs.len(),
{
    if secs.len() == 0 {
        Seq::empty()
    } else if secs.last().0 == rel {
        texts_of(secs.drop_last(), rel).push(secs.last().1)
    } else {
        texts_of(secs.drop_last(), rel)
    }
}

/// The terms one document's sections leave tracked for it.
pub open spec fn file_terms(texts: Seq<Seq<char>>) -> Option<Counts>
    decreases texts.len(),
{
    if texts.len() == 0 {
        None
    } else if section_counts(texts.last()).len() == 0 {
        file_terms(texts.drop_last())
    } else {
        Some(prune(merge(or_empty(file_terms(texts.drop_last())), section_counts(texts.last()))))
    }
}

proof fn lemma_lookup_absent(d: Docs, rel: Seq<u8>)
    requires
        docs_sorted(d),
        d.len() > 0,
        lex_lt(rel, d[0].0),
    ensures
        lookup(d, rel) is None,
    decreases d.len(),
{
    crate::bytes::lemma_lex_irreflexive(rel);
    assert(d[0].0 != rel);
    let t = d.drop_first();
    if t.len() > 0 {
        assert(lex_lt(d[0].0, d[1].0));
        crate::bytes::lemma_lex_trans(rel, d[0].0, d[1].0);
        assert(t[0] == d[1]);
        assert(docs_sorted(t)) by {
            assert forall|i: int, j: int| 0 <= i < j < t.len() implies lex_lt(#[trigger] t[i].0, #[trigger] t[j].0) by {
                assert(t[i] == d[i + 1] && t[j] == d[j + 1]);
            }
            assert forall|i: int| 0 <= i < t.len() implies keys_sorted(#[trigger] t[i].1) by {
                assert(t[i] == d[i + 1]);
            }
        }
        lemma_lookup_absent(t, rel);
    }
}

proof fn lemma_tail_sorted(d: Docs)
    requires
        docs_sorted(d),
        d.len() > 0,
    ensures
        docs_sorted(d.drop_first()),
        d.len() > 1 ==> lex_lt(d[0].0, d.drop_first()[0].0),
{
    let t = d.drop_first();
    assert forall|i: int, j: int| 0 <= i < j < t.len() implies lex_lt(#[trigger] t[i].0, #[trigger] t[j].0) by {
        assert(t[i] == d[i + 1] && t[j] == d[j + 1]);
    }
    assert forall|i: int| 0 <= i < t.len() implies keys_sorted(#[trigger] t[i].1) by {
        assert(t[i] == d[i + 1]);
    }
    if d.len() > 1 {
        assert(t[0] == d[1]);
        assert(lex_lt(d[0].0, d[1].0));
    }
}

/// Adding a section to one document leaves every other document's terms
/// as they were.
proof fn lemma_lookup_update(s: Docs, r: Seq<u8>, c: Counts, rel: Seq<u8>)
    requires
        docs_sorted(s),
    ensures
        lookup(doc_update(s, r, c), rel) == if r == rel {
            Some(prune(merge(or_empty(lookup(s, rel)), c)))
        } else {
            lookup(s, rel)
        },
    decreases s.len(),
{
    let u = doc_update(s, r, c);
    assert(merge(Seq::<(Seq<u8>, u64)>::empty(), c) == c);
    if s.len() == 0 {
        assert(u[0] == (r, prune(c)));
        assert(u.drop_first().len() == 0);
        assert(lookup(u.drop_first(), rel) is None);
    } else if s[0].0 == r {
        assert(u[0] == (r, prune(merge(s[0].1, c))));
        assert(u.drop_first() =~= s.drop_first());
        if r != rel {
            assert(lookup(u, rel) == lookup(u.drop_first(), rel));
            assert(lookup(s, rel) == lookup(s.drop_first(), rel));
        }
    } else if lex_lt(s[0].0, r) {
        crate::bytes::lemma_lex_irreflexive(r);
        assert(u[0] == s[0]);
        assert(u.drop_first() =~= doc_update(s.drop_first(), r, c));
        lemma_tail_sorted(s);
        lemma_lookup_update(s.drop_first(), r, c, rel);
        if s[0].0 != rel {
            assert(lookup(u, rel) == lookup(u.drop_first(), rel));
            assert(lookup(s, rel) == lookup(s.drop_first(), rel));
        }
    } else {
        crate::bytes::lemma_lex_total(s[0].0, r);
        assert(u[0] == (r, prune(c)));
        assert(u.drop_first() =~= s);
        if r == rel {
            lemma_lookup_absent(s, rel);
        } else {
            assert(lookup(u, rel) == lookup(u.drop_first(), rel));
        }
    }
}

/// What a fresh detector tracks for each document after taking some
/// sections depends on that document's sections alone.
proof fn lemma_feed(secs: Seq<(Seq<u8>, Seq<char>)>)
    ensures
        docs_sorted(feed(secs)),
        forall|rel: Seq<u8>| #[trigger] lookup(feed(secs), rel) == file_terms(texts_of(secs, rel)),
    decreases secs.len(),
{
    if secs.len() > 0 {
        let p = secs.drop_last();
        let (r, t) = secs.last();
        lemma_feed(p);
        let c = section_counts(t);
        if c.len() > 0 {
            lemma_tally_sorted(terms_of(t));
            lemma_doc_update_sorted(feed(p), r, c);
        }
        assert forall|rel: Seq<u8>| #[trigger] lookup(feed(secs), rel) == file_terms(texts_of(secs, rel)) by {
            if r == rel {
                assert(texts_of(secs, rel).drop_last() =~= texts_of(p, rel));
                assert(texts_of(secs, rel).last() == t);
            }
            if c.len() > 0 {
                lemma_lookup_update(feed(p), r, c, rel);
            }
        }
    } else {
        assert forall|rel: Seq<u8>| #[trigger] lookup(feed(secs), rel) == file_terms(texts_of(secs, rel)) by {}
    }
}

/// Sorted document lists that track the same terms for every document are
/// one list.
proof fn lemma_same_lookups(a: Docs, b: Docs)
    requires
        docs_sorted(a),
        docs_sorted(b),
        forall|rel: Seq<u8>| #[trigger] lookup(a, rel) == lookup(b, rel),
    ensures
        a == b,
    decreases a.len() + b.len(),
{
    if a.len() == 0 {
        if b.len() > 0 {
            assert(lookup(b, b[0].0) is Some);
            assert(lookup(a, b[0].0) is None);
        }
        assert(a =~= b);
    } else if b.len() == 0 {
        assert(lookup(a, a[0].0) is Some);
        assert(lookup(b, a[0].0) is None);
    } else {
        let ka = a[0].0;
        let kb = b[0].0;
        assert(lookup(a, ka) == Some(a[0].1));
        assert(lookup(b, kb) == Some(b[0].1));
        crate::bytes::lemma_lex_total(ka, kb);
        if lex_lt(ka, kb) {
            lemma_lookup_absent(b, ka);
        } else if lex_lt(kb, ka) {
            lemma_lookup_absent(a, kb);
        }
        assert(ka == kb);
        assert(a[0] == b[0]);
        let ta = a.drop_first();
        let tb = b.drop_first();
        lemma_tail_sorted(a);
        lemma_tail_sorted(b);
        assert forall|rel: Seq<u8>| #[trigger] lookup(ta, rel) == lookup(tb, rel) by {
            if rel == ka {
                if ta.len() > 0 {
                    lemma_lookup_absent(ta, rel);
                }
                if tb.len() > 0 {
                    lemma_lookup_absent(tb, rel);
                }
            } else {
                assert(lookup(a, rel) == lookup(ta, rel));
                assert(lookup(b, rel) == lookup(tb, rel));
            }
        }
        lemma_same_lookups(ta, tb);
        assert(a =~= seq![a[0]] + ta);
        assert(b =~= seq![b[0]] + tb);
    }
}

/// Taking one more section is one `detect_text` step: a fresh detector
/// (which tracks `feed` of no sections) that has taken `secs` by
/// `detect_text` tracks `feed(secs)`.
pub proof fn lemma_feed_push(secs: Seq<(Seq<u8>, Seq<char>)>, rel: Seq<u8>, text: Seq<char>)
    ensures
        feed(secs.push((rel, text))) == take_section(feed(secs), rel, text),
        feed(Seq::<(Seq<u8>, Seq<char>)>::empty()) == Seq::<(Seq<u8>, Counts)>::empty(),
{
    assert(secs.push((rel, text)).drop_last() =~= secs);
}

/// The detector is deterministic however the documents' sections arrive:
/// two fresh detectors that take the same sections by `detect_text`, each
/// document's sections in the same order but the documents interleaved in
/// any way, track the same documents; so `detect_corpus` then appends the
/// same edges, in the same order, and both count the same refused pairs.
pub proof fn lemma_interleavings_agree(
    secs1: Seq<(Seq<u8>, Seq<char>)>,
    secs2: Seq<(Seq<u8>, Seq<char>)>,
    files: Seq<super::corpus::CorpusFile>,
)
    requires
        forall|rel: Seq<u8>| #[trigger] texts_of(secs1, rel) == texts_of(secs2, rel),
    ensures
        feed(secs1) == feed(secs2),
        term_plan(feed(secs1), files).0 == term_plan(feed(secs2), files).0,
        wadd(0, term_plan(feed(secs1), files).1 as u64) == wadd(0, term_plan(feed(secs2), files).1 as u64),
{
    lemma_feed(secs1);
    lemma_feed(secs2);
    assert forall|rel: Seq<u8>| #[trigger] lookup(feed(secs1), rel) == lookup(feed(secs2), rel) by {
        assert(texts_of(secs1, rel) == texts_of(secs2, rel));
    }
    lemma_same_lookups(feed(secs1), feed(secs2));
}

/// The sharedterm detector: it accumulates term counts per document while
/// sections stream by, and links documents once the whole corpus is known.
pub struct SharedTerm {
    docs: Vec<(Vec<u8>, Vec<(Vec<u8>, u64)>)>,
    capped: u64,
}

impl SharedTerm {
    pub closed spec fn doc_terms(&self) -> Docs {
        docs_view(self.docs@)
    }

    pub closed spec fn capped_count(&self) -> u64 {
        self.capped
    }

    /// Tracked documents stay ascending by path, their terms ascending.
    pub closed spec fn wf(&self) -> bool {
        docs_sorted(docs_view(self.docs@))
    }

    pub fn new() -> (r: SharedTerm)
        ensures
            r.wf(),
            r.doc_terms() == Seq::<(Seq<u8>, Counts)>::empty(),
            r.capped_count() == 0,
    {
        let r = SharedTerm { docs: Vec::new(), capped: 0 };
        proof {
            assert(docs_view(r.docs@) =~= Seq::<(Seq<u8>, Counts)>::empty());
        }
        r
    }

    pub fn tag(&self) -> (r: &'static str)
        ensures
            r@ == TAG@,
    {
        TAG
    }

    /// Accumulate only: an edge cannot be judged until every document's
    /// terms are known. Nothing is emitted here.
    pub fn detect_text(&mut self, ctx: &SectionCtx, out: &mut Vec<EdgeDraft>)
        requires
            old(self).wf(),
        ensures
            final(self).wf(),
            final(out)@ == old(out)@,
            final(self).capped_count() == old(self).capped_count(),
            final(self).doc_terms() == take_section(old(self).doc_terms(), ctx.file.rel@, ctx.text@),
            final(self).doc_terms() == if tally(terms_of(ctx.text@)).len() == 0 {
                old(self).doc_terms()
            } else {
                doc_update(old(self).doc_terms(), ctx.file.rel@, tally(terms_of(ctx.text@)))
            },
    {
        let counts = count_terms(ctx.text);
        if counts.len() == 0 {
            return;
        }
        proof {
            lemma_tally_sorted(terms_of(ctx.text@));
            lemma_doc_update_sorted(docs_view(self.docs@), ctx.file.rel@, counts_view(counts@));
        }
        let rel = ctx.file.rel.as_slice();
        let ghost s = docs_view(self.docs@);
        let ghost c = counts_view(counts@);
        let mut i: usize = 0;
        while i < self.docs.len() && bytes_lt(self.docs[i].0.as_slice(), rel)
            invariant
                i <= self.docs@.len(),
                s == docs_view(self.docs@),
                forall|k: int| 0 <= k < i ==> lex_lt(#[trigger] s[k].0, rel@),
            decreases self.docs@.len() - i,
        {
            i += 1;
        }
        proof {
            lemma_doc_update_skip(s, rel@, c, i as int);
        }
        let ghost tail = s.subrange(i as int, s.len() as int);
        if i < self.docs.len() && bytes_eq(self.docs[i].0.as_slice(), rel) {
            let merged = merge_counts(&self.docs[i].1, &counts);
            let pruned = prune_counts(merged);
            let ghost pv = counts_view(pruned@);
            self.docs.set(i, (copy_bytes(&ctx.file.rel), pruned));
            proof {
                assert(tail[0].0 == rel@);
                assert(tail.drop_first() =~= s.subrange(i + 1, s.len() as int));
                assert(docs_view(self.docs@) =~= s.subrange(0, i as int) + (seq![(rel@, pv)]
                    + tail.drop_first()));
            }
        } else {
            let pruned = prune_counts(counts);
            let ghost pv = counts_view(pruned@);
            self.docs.insert(i, (copy_bytes(&ctx.file.rel), pruned));
            proof {
                if i < s.len() {
                    crate::bytes::lemma_lex_total(tail[0].0, rel@);
                    assert(!lex_lt(tail[0].0, rel@));
                }
                assert(merge(Seq::<(Seq<u8>, u64)>::empty(), c) == c);
                assert(docs_view(self.docs@) =~= s.subrange(0, i as int) + (seq![(rel@, pv)] + tail));
            }
        }
    }

    /// Judge the whole corpus at once, now that every document's terms are
    /// known: emit the `shared_term` edges of `term_plan`, count the pairs
    /// the degree budget refused, and let go of the tracked terms.
    pub fn detect_corpus(&mut self, corpus: &CorpusIndex, out: &mut Vec<EdgeDraft>)
        requires
            old(self).wf(),
        ensures
            final(self).wf(),
            final(self).doc_terms() == Seq::<(Seq<u8>, Counts)>::empty(),
            edge_views(final(out)@) == edge_views(old(out)@) + term_plan(old(self).doc_terms(), corpus.files@).0,
            final(self).capped_count() == wadd(
                old(self).capped_count(),
                term_plan(old(self).doc_terms(), corpus.files@).1 as u64,
            ),
            term_plan(old(self).doc_terms(), corpus.files@).0.len() + term_plan(
                old(self).doc_terms(),
                corpus.files@,
            ).1 == plan_candidates(old(self).doc_terms(), corpus.files@).len(),
            plan_accepted(old(self).doc_terms(), corpus.files@).no_duplicates(),
            forall|x: int|
                0 <= x < live_docs(old(self).doc_terms(), corpus.files@).len() ==> #[trigger] pair_count(
                    plan_accepted(old(self).doc_terms(), corpus.files@),
                    x,
                ) <= MAX_EDGES_PER_DOC,
    {
        let mut docs: Vec<(Vec<u8>, Vec<(Vec<u8>, u64)>)> = Vec::new();
        std::mem::swap(&mut docs, &mut self.docs);
        let refused = link_documents(&docs, corpus, out);
        self.capped = wadd_exec(self.capped, refused);
        proof {
            assert(docs_view(self.docs@) =~= Seq::<(Seq<u8>, Counts)>::empty());
        }
    }

    pub fn counters(&self) -> (r: DetectorCounters)
        ensures
            r == (DetectorCounters { unresolved: 0, ambiguous: 0, capped: self.capped_count() }),
    {
        DetectorCounters { unresolved: 0, ambiguous: 0, capped: self.capped }
    }
}

} // verus!
