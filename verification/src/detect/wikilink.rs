//! wikilink@1 — `[[Target]]` / `[[Target|alias]]` in section text.
//!
//! The strongest signal the detectors have: a human deliberately named
//! another note. Resolution is by name, so a corpus can hold two files
//! answering to the same name; the ambiguity is counted, never hidden.

use super::corpus::{
    card_edge, edge_views, first_from, lemma_first_from, line_at, lower_stem, lower_stem_exec,
    rel_is, rel_without_ext, rel_without_ext_exec, spec_line_at, CorpusFile, CorpusIndex,
    DetectorCounters, EdgeDraft, EdgeView,
};
use super::mdlink::link_views;
use super::section::{bump, bump_exec, bumped, card_draft, SectionCtx};
use crate::bytes::{
    bytes_eq, find_byte, find_from, first_occurrence, lemma_first_occurrence, lemma_next_byte,
    lower_bytes, next_byte, slice_vec, to_lower_bytes,
};
use crate::words::{trim_bytes, trim_exec};
use vstd::prelude::*;
use vstd::string::StringSliceAdditionalSpecFns;

verus! {

pub const TAG: &'static str = "wikilink@1";

pub const EDGE_TYPE: &'static str = "wikilink";

/// Weight in thousandths.
pub const WEIGHT: u32 = 1000;

/// Confidence in thousandths.
pub const CONFIDENCE: u32 = 950;

/// Longer "targets" are ignored: an unmatched `[[` in a code block would
/// otherwise swallow the rest of the section into one bogus link.
pub const MAX_TARGET_LEN: usize = 512;

pub open spec fn open2() -> Seq<u8> {
    seq![91u8, 91u8]
}

pub open spec fn close2() -> Seq<u8> {
    seq![93u8, 93u8]
}

/// Link targets from byte `i` on, as (offset of `[[`, target): the first
/// `]]` closes a link; an inner part longer than the limit or holding `[[` is
/// skipped, the target is the trimmed text before the first `|`, and an empty
/// target is skipped.
pub open spec fn wiki_targets(t: Seq<u8>, i: int) -> Seq<(int, Seq<u8>)>
    decreases t.len() - i,
{
    if i < 0 {
        Seq::empty()
    } else {
        match first_occurrence(t, open2(), i) {
            None => Seq::empty(),
            Some(open) => match first_occurrence(t, close2(), open + 2) {
                None => Seq::empty(),
                Some(close) => {
                    proof {
                        lemma_first_occurrence(t, open2(), i);
                        lemma_first_occurrence(t, close2(), open + 2);
                    }
                    let inner = t.subrange(open + 2, close);
                    let rest = wiki_targets(t, close + 2);
                    if inner.len() > MAX_TARGET_LEN || first_occurrence(inner, open2(), 0) is Some {
                        rest
                    } else {
                        let target = trim_bytes(inner.subrange(0, next_byte(inner, 124u8, 0)));
                        if target.len() == 0 {
                            rest
                        } else {
                            seq![(open, target)] + rest
                        }
                    }
                },
            },
        }
    }
}

/// All wiki-link targets of `t`, in order.
pub fn scan_wikilinks(t: &[u8]) -> (r: Vec<(usize, Vec<u8>)>)
    ensures
        link_views(r@) == wiki_targets(t@, 0),
        forall|k: int| 0 <= k < r@.len() ==> #[trigger] r@[k].0 < t@.len(),
{
    let mut out: Vec<(usize, Vec<u8>)> = Vec::new();
    let mut i: usize = 0;
    let n = t.len();
    let op: [u8; 2] = [91u8, 91u8];
    let cl: [u8; 2] = [93u8, 93u8];
    proof {
        assert(op@ =~= open2());
        assert(cl@ =~= close2());
    }
    loop
        invariant
            i <= t@.len(),
            n == t@.len(),
            op@ == open2(),
            cl@ == close2(),
            link_views(out@) + wiki_targets(t@, i as int) == wiki_targets(t@, 0),
            forall|k: int| 0 <= k < out@.len() ==> #[trigger] out@[k].0 < t@.len(),
        decreases t@.len() - i,
    {
        let open = match find_from(t, &op, i) {
            Some(o) => o,
            None => {
                proof {
                    assert(link_views(out@) + wiki_targets(t@, i as int) =~= link_views(out@));
                }
                return out;
            },
        };
        proof {
            lemma_first_occurrence(t@, open2(), i as int);
        }
        let close = match find_from(t, &cl, open + 2) {
            Some(c) => c,
            None => {
                proof {
                    assert(link_views(out@) + wiki_targets(t@, i as int) =~= link_views(out@));
                }
                return out;
            },
        };
        proof {
            lemma_first_occurrence(t@, close2(), open + 2);
        }
        let inner = slice_vec(t, open + 2, close);
        let nested = find_from(inner.as_slice(), &op, 0);
        if inner.len() <= MAX_TARGET_LEN && nested.is_none() {
            let bar = find_byte(inner.as_slice(), 124u8, 0);
            proof {
                lemma_next_byte(inner@, 124u8, 0);
            }
            let head = slice_vec(inner.as_slice(), 0, bar);
            let (a, b) = trim_exec(head.as_slice());
            if a < b {
                let target = slice_vec(head.as_slice(), a, b);
                let ghost before = link_views(out@);
                out.push((open, target));
                proof {
                    assert(link_views(out@) =~= before.push((open as int, target@)));
                    assert(wiki_targets(t@, i as int) == seq![(open as int, target@)]
                        + wiki_targets(t@, close + 2));
                    assert(before.push((open as int, target@)) + wiki_targets(t@, close + 2)
                        =~= before + (seq![(open as int, target@)] + wiki_targets(
                        t@,
                        close + 2,
                    )));
                }
            }
        }
        i = close + 2;
    }
}

/// How a wiki-link target resolved.
#[derive(Debug, Clone, Copy, PartialEq, Eq)]
pub enum Resolved {
    Hit(usize),
    /// Several files answer to the name; the smallest path was taken.
    Ambiguous(usize),
    Miss,
}

pub open spec fn noext_is(t: Seq<u8>) -> spec_fn(CorpusFile) -> bool {
    |f: CorpusFile| rel_without_ext(f.rel@) == t
}

pub open spec fn stem_is(t: Seq<u8>) -> spec_fn(CorpusFile) -> bool {
    |f: CorpusFile| lower_stem(f.rel@) == t
}

/// First match of `p` and whether a second one follows.
pub open spec fn pick(fs: Seq<CorpusFile>, p: spec_fn(CorpusFile) -> bool) -> Option<Resolved> {
    match first_from(fs, p, 0) {
        None => None,
        Some(k) => if first_from(fs, p, k + 1) is Some {
            Some(Resolved::Ambiguous(k as usize))
        } else {
            Some(Resolved::Hit(k as usize))
        },
    }
}

/// Resolution order: the exact path, else the whole path minus its
/// extension, else the (ASCII case-folded) file stem.
pub open spec fn wiki_resolve(fs: Seq<CorpusFile>, target: Seq<u8>) -> Resolved {
    match first_from(fs, rel_is(target), 0) {
        Some(k) => Resolved::Hit(k as usize),
        None => match pick(fs, noext_is(target)) {
            Some(r) => r,
            None => match pick(fs, stem_is(lower_bytes(target))) {
                Some(r) => r,
                None => Resolved::Miss,
            },
        },
    }
}

fn find_noext(fs: &Vec<CorpusFile>, t: &[u8], from: usize) -> (r: Option<usize>)
    requires
        from <= fs@.len(),
    ensures
        match r {
            Some(i) => first_from(fs@, noext_is(t@), from as int) == Some(i as int) && i < fs@.len(),
            None => first_from(fs@, noext_is(t@), from as int) is None,
        },
{
    let mut i = from;
    while i < fs.len()
        invariant
            from <= i <= fs@.len(),
            first_from(fs@, noext_is(t@), from as int) == first_from(fs@, noext_is(t@), i as int),
        decreases fs@.len() - i,
    {
        let w = rel_without_ext_exec(fs[i].rel.as_slice());
        if bytes_eq(w.as_slice(), t) {
            return Some(i);
        }
        i += 1;
    }
    None
}

fn find_stem(fs: &Vec<CorpusFile>, t: &[u8], from: usize) -> (r: Option<usize>)
    requires
        from <= fs@.len(),
    ensures
        match r {
            Some(i) => first_from(fs@, stem_is(t@), from as int) == Some(i as int) && i < fs@.len(),
            None => first_from(fs@, stem_is(t@), from as int) is None,
        },
{
    let mut i = from;
    while i < fs.len()
        invariant
            from <= i <= fs@.len(),
            first_from(fs@, stem_is(t@), from as int) == first_from(fs@, stem_is(t@), i as int),
        decreases fs@.len() - i,
    {
        let w = lower_stem_exec(fs[i].rel.as_slice());
        if bytes_eq(w.as_slice(), t) {
            return Some(i);
        }
        i += 1;
    }
    None
}

pub open spec fn resolved_index(r: Resolved) -> int {
    match r {
        Resolved::Hit(k) => k as int,
        Resolved::Ambiguous(k) => k as int,
        Resolved::Miss => -1,
    }
}

/// Resolve a wiki-link target against the corpus table.
pub fn resolve(corpus: &CorpusIndex, target: &[u8]) -> (r: Resolved)
    ensures
        r == wiki_resolve(corpus.files@, target@),
        r != Resolved::Miss ==> 0 <= resolved_index(r) < corpus.files@.len(),
{
    let fs = &corpus.files;
    let nf = fs.len();
    if let Some(k) = corpus.find_rel(target) {
        return Resolved::Hit(k);
    }
    if let Some(k) = find_noext(fs, target, 0) {
        return if find_noext(fs, target, k + 1).is_some() {
            Resolved::Ambiguous(k)
        } else {
            Resolved::Hit(k)
        };
    }
    let lt = to_lower_bytes(target);
    if let Some(k) = find_stem(fs, lt.as_slice(), 0) {
        return if find_stem(fs, lt.as_slice(), k + 1).is_some() {
            Resolved::Ambiguous(k)
        } else {
            Resolved::Hit(k)
        };
    }
    Resolved::Miss
}

/// The edges of the first targets of a section, in order.
pub open spec fn wikilink_edges(
    fs: Seq<CorpusFile>,
    file: CorpusFile,
    src: Seq<u8>,
    t: Seq<u8>,
    items: Seq<(int, Seq<u8>)>,
) -> Seq<EdgeView>
    decreases items.len(),
{
    if items.len() == 0 {
        Seq::empty()
    } else {
        let rest = wikilink_edges(fs, file, src, t, items.drop_last());
        let pos = items.last().0;
        let r = wiki_resolve(fs, items.last().1);
        if r == Resolved::Miss {
            rest
        } else {
            rest.push(
                card_edge(
                    src,
                    fs[resolved_index(r)],
                    EDGE_TYPE@,
                    WEIGHT,
                    CONFIDENCE,
                    file,
                    spec_line_at(t, pos),
                    pos,
                ),
            )
        }
    }
}

/// How many of the targets resolve as `kind` says.
pub open spec fn count_resolved(fs: Seq<CorpusFile>, items: Seq<(int, Seq<u8>)>, ambiguous: bool) -> nat
    decreases items.len(),
{
    if items.len() == 0 {
        0
    } else {
        let r = wiki_resolve(fs, items.last().1);
        count_resolved(fs, items.drop_last(), ambiguous) + if (ambiguous && r is Ambiguous) || (
        !ambiguous && r == Resolved::Miss) {
            1nat
        } else {
            0nat
        }
    }
}

/// The wiki-link detector; it counts dangling and ambiguous targets.
pub struct Wikilink {
    unresolved: u64,
    ambiguous: u64,
}

impl Wikilink {
    pub closed spec fn unresolved_count(&self) -> u64 {
        self.unresolved
    }

    pub closed spec fn ambiguous_count(&self) -> u64 {
        self.ambiguous
    }

    pub fn new() -> (r: Wikilink)
        ensures
            r.unresolved_count() == 0,
            r.ambiguous_count() == 0,
    {
        Wikilink { unresolved: 0, ambiguous: 0 }
    }

    pub fn tag(&self) -> (r: &'static str)
        ensures
            r@ == TAG@,
    {
        TAG
    }

    /// Emit one edge per resolved target (ambiguous ones take the smallest
    /// path); dangling targets are counted, never invented.
    pub fn detect_text(&mut self, ctx: &SectionCtx, out: &mut Vec<EdgeDraft>)
        ensures
            edge_views(final(out)@) == edge_views(old(out)@) + wikilink_edges(
                ctx.corpus.files@,
                *ctx.file,
                ctx.section_doc_id.spec_bytes(),
                ctx.text.spec_bytes(),
                wiki_targets(ctx.text.spec_bytes(), 0),
            ),
            final(self).unresolved_count() == bumped(
                old(self).unresolved_count(),
                count_resolved(ctx.corpus.files@, wiki_targets(ctx.text.spec_bytes(), 0), false),
            ),
            final(self).ambiguous_count() == bumped(
                old(self).ambiguous_count(),
                count_resolved(ctx.corpus.files@, wiki_targets(ctx.text.spec_bytes(), 0), true),
            ),
    {
        let t = ctx.text.as_bytes();
        let src = ctx.section_doc_id.as_bytes();
        let items = scan_wikilinks(t);
        let ghost fs = ctx.corpus.files@;
        let ghost file = *ctx.file;
        let ghost lv = link_views(items@);
        let ghost out0 = edge_views(out@);
        let ghost u0 = self.unresolved;
        let ghost a0 = self.ambiguous;
        let mut k: usize = 0;
        while k < items.len()
            invariant
                k <= items@.len(),
                lv == link_views(items@),
                forall|j: int| 0 <= j < items@.len() ==> #[trigger] items@[j].0 < t@.len(),
                fs == ctx.corpus.files@,
                file == *ctx.file,
                edge_views(out@) == out0 + wikilink_edges(fs, file, src@, t@, lv.subrange(0, k as int)),
                self.unresolved == bumped(u0, count_resolved(fs, lv.subrange(0, k as int), false)),
                self.ambiguous == bumped(a0, count_resolved(fs, lv.subrange(0, k as int), true)),
            decreases items@.len() - k,
        {
            let pos = items[k].0;
            let r = resolve(ctx.corpus, items[k].1.as_slice());
            let ghost pre = lv.subrange(0, k as int);
            let ghost nxt = lv.subrange(0, k + 1);
            proof {
                assert(nxt.drop_last() =~= pre);
                assert(nxt.last() == (pos as int, items@[k as int].1@));
            }
            let hit = match r {
                Resolved::Hit(i) => Some(i),
                Resolved::Ambiguous(i) => {
                    self.ambiguous = bump_exec(self.ambiguous);
                    Some(i)
                },
                Resolved::Miss => {
                    self.unresolved = bump_exec(self.unresolved);
                    None
                },
            };
            if let Some(i) = hit {
                let q = line_at(t, pos);
                let e = card_draft(
                    src,
                    &ctx.corpus.files[i],
                    EDGE_TYPE,
                    WEIGHT,
                    CONFIDENCE,
                    ctx.file,
                    q,
                    pos as u64,
                );
                let ghost before = edge_views(out@);
                out.push(e);
                proof {
                    assert(edge_views(out@) =~= before.push(e@));
                }
            }
            k += 1;
        }
        proof {
            assert(lv.subrange(0, items@.len() as int) =~= lv);
        }
    }

    pub fn counters(&self) -> (r: DetectorCounters)
        ensures
            r == (DetectorCounters {
                unresolved: self.unresolved_count(),
                ambiguous: self.ambiguous_count(),
                capped: 0,
            }),
    {
        DetectorCounters { unresolved: self.unresolved, ambiguous: self.ambiguous, capped: 0 }
    }
}

} // verus!
