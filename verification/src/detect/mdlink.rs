//! mdlink@2 — `[text](relative/path.md)` where the target is a corpus file.
//!
//! Slightly below wikilink: an inline markdown link is an explicit authorial
//! act, but it is also how people cite external material. The edge lands on
//! the target's file card and carries both formats.

use super::corpus::{
    card_edge, edge_views, line_at, spec_line_at, spec_resolve_local, CorpusFile, DetectorCounters,
    EdgeDraft, EdgeView, LinkTarget,
};
use super::section::{bump, bump_exec, bumped, card_draft, SectionCtx};
use crate::bytes::{find_byte, lemma_next_byte, next_byte, slice_vec};
use crate::words::{first_word, first_word_exec};
use vstd::prelude::*;
use vstd::string::StringSliceAdditionalSpecFns;

verus! {

pub const TAG: &'static str = "mdlink@2";

pub const EDGE_TYPE: &'static str = "mdlink";

/// Weight in thousandths.
pub const WEIGHT: u32 = 900;

/// Confidence in thousandths.
pub const CONFIDENCE: u32 = 900;

/// `[label](url)` occurrences from byte `i` on, as (offset of `[`, url): the
/// first `]` after a `[` closes the label, it must be followed directly by
/// `(`, the first `)` closes the target, and the url is the first word of the
/// trimmed target (a title after it is dropped). No nesting.
pub open spec fn md_links(t: Seq<u8>, i: int) -> Seq<(int, Seq<u8>)>
    decreases t.len() - i,
{
    if i < 0 || i >= t.len() {
        Seq::empty()
    } else if t[i] != 91u8 {
        md_links(t, i + 1)
    } else {
        let close = next_byte(t, 93u8, i + 1);
        if close >= t.len() {
            Seq::empty()
        } else if close + 1 < t.len() && t[close + 1] == 40u8 {
            let paren = next_byte(t, 41u8, close + 2);
            if paren >= t.len() {
                Seq::empty()
            } else {
                proof {
                    lemma_next_byte(t, 93u8, i + 1);
                    lemma_next_byte(t, 41u8, close + 2);
                }
                seq![(i, first_word(t.subrange(close + 2, paren)))] + md_links(t, paren + 1)
            }
        } else {
            md_links(t, i + 1)
        }
    }
}

pub open spec fn link_views(v: Seq<(usize, Vec<u8>)>) -> Seq<(int, Seq<u8>)> {
    v.map_values(|p: (usize, Vec<u8>)| (p.0 as int, p.1@))
}

/// All markdown links of `t`, in order.
pub fn scan_links(t: &[u8]) -> (r: Vec<(usize, Vec<u8>)>)
    ensures
        link_views(r@) == md_links(t@, 0),
        forall|k: int| 0 <= k < r@.len() ==> #[trigger] r@[k].0 < t@.len(),
{
    let mut out: Vec<(usize, Vec<u8>)> = Vec::new();
    let mut i: usize = 0;
    while i < t.len()
        invariant
            i <= t@.len(),
            link_views(out@) + md_links(t@, i as int) == md_links(t@, 0),
            forall|k: int| 0 <= k < out@.len() ==> #[trigger] out@[k].0 < t@.len(),
        decreases t@.len() - i,
    {
        if t[i] != 91u8 {
            i += 1;
            continue;
        }
        let close = find_byte(t, 93u8, i + 1);
        proof {
            lemma_next_byte(t@, 93u8, i + 1);
        }
        if close >= t.len() {
            proof {
                assert(link_views(out@) + md_links(t@, i as int) =~= link_views(out@));
            }
            return out;
        }
        if close + 1 < t.len() && t[close + 1] == 40u8 {
            let paren = find_byte(t, 41u8, close + 2);
            proof {
                lemma_next_byte(t@, 41u8, close + 2);
            }
            if paren >= t.len() {
                proof {
                    assert(link_views(out@) + md_links(t@, i as int) =~= link_views(out@));
                }
                return out;
            }
            let inner = slice_vec(t, close + 2, paren);
            let (a, b) = first_word_exec(inner.as_slice());
            let url = slice_vec(inner.as_slice(), a, b);
            let ghost before = link_views(out@);
            out.push((i, url));
            proof {
                assert(link_views(out@) =~= before.push((i as int, url@)));
                assert(md_links(t@, i as int) == seq![(i as int, url@)] + md_links(t@, paren + 1));
                assert(before.push((i as int, url@)) + md_links(t@, paren + 1) =~= before + (seq![
                    (i as int, url@),
                ] + md_links(t@, paren + 1)));
            }
            i = paren + 1;
        } else {
            i += 1;
        }
    }
    proof {
        assert(link_views(out@) + md_links(t@, i as int) =~= link_views(out@));
    }
    out
}

/// The edges of the first links of a section, in order.
pub open spec fn mdlink_edges(
    fs: Seq<CorpusFile>,
    file: CorpusFile,
    src: Seq<u8>,
    t: Seq<u8>,
    links: Seq<(int, Seq<u8>)>,
) -> Seq<EdgeView>
    decreases links.len(),
{
    if links.len() == 0 {
        Seq::empty()
    } else {
        let rest = mdlink_edges(fs, file, src, t, links.drop_last());
        let pos = links.last().0;
        match spec_resolve_local(fs, file.dir@, links.last().1) {
            LinkTarget::Hit(k) => rest.push(
                card_edge(
                    src,
                    fs[k as int],
                    EDGE_TYPE@,
                    WEIGHT,
                    CONFIDENCE,
                    file,
                    spec_line_at(t, pos),
                    pos,
                ),
            ),
            _ => rest,
        }
    }
}

/// Local links that resolve to no corpus file.
pub open spec fn dangling(fs: Seq<CorpusFile>, dir: Seq<u8>, links: Seq<(int, Seq<u8>)>) -> nat
    decreases links.len(),
{
    if links.len() == 0 {
        0
    } else {
        dangling(fs, dir, links.drop_last()) + if spec_resolve_local(
            fs,
            dir,
            links.last().1,
        ) == LinkTarget::Miss {
            1nat
        } else {
            0nat
        }
    }
}

/// The markdown-link detector; it counts dangling local links.
pub struct Mdlink {
    unresolved: u64,
}

impl Mdlink {
    pub closed spec fn unresolved_count(&self) -> u64 {
        self.unresolved
    }

    pub fn new() -> (r: Mdlink)
        ensures
            r.unresolved_count() == 0,
    {
        Mdlink { unresolved: 0 }
    }

    pub fn tag(&self) -> (r: &'static str)
        ensures
            r@ == TAG@,
    {
        TAG
    }

    /// Emit one edge per markdown link that resolves to a corpus file;
    /// external and empty links are skipped, local misses are counted.
    pub fn detect_text(&mut self, ctx: &SectionCtx, out: &mut Vec<EdgeDraft>)
        ensures
            edge_views(final(out)@) == edge_views(old(out)@) + mdlink_edges(
                ctx.corpus.files@,
                *ctx.file,
                ctx.section_doc_id.spec_bytes(),
                ctx.text.spec_bytes(),
                md_links(ctx.text.spec_bytes(), 0),
            ),
            final(self).unresolved_count() == bumped(
                old(self).unresolved_count(),
                dangling(ctx.corpus.files@, ctx.file.dir@, md_links(ctx.text.spec_bytes(), 0)),
            ),
    {
        let t = ctx.text.as_bytes();
        let src = ctx.section_doc_id.as_bytes();
        let links = scan_links(t);
        let ghost fs = ctx.corpus.files@;
        let ghost file = *ctx.file;
        let ghost lv = link_views(links@);
        let ghost out0 = edge_views(out@);
        let ghost u0 = self.unresolved;
        let mut k: usize = 0;
        while k < links.len()
            invariant
                k <= links@.len(),
                lv == link_views(links@),
                lv == md_links(t@, 0),
                forall|j: int| 0 <= j < links@.len() ==> #[trigger] links@[j].0 < t@.len(),
                fs == ctx.corpus.files@,
                file == *ctx.file,
                edge_views(out@) == out0 + mdlink_edges(fs, file, src@, t@, lv.subrange(0, k as int)),
                self.unresolved == bumped(u0, dangling(fs, file.dir@, lv.subrange(0, k as int))),
            decreases links@.len() - k,
        {
            let pos = links[k].0;
            let r = ctx.corpus.resolve_local(ctx.file.dir.as_slice(), links[k].1.as_slice());
            let ghost pre = lv.subrange(0, k as int);
            let ghost nxt = lv.subrange(0, k + 1);
            proof {
                assert(nxt.drop_last() =~= pre);
                assert(nxt.last() == (pos as int, links@[k as int].1@));
            }
            match r {
                LinkTarget::Hit(i) => {
                    let q = line_at(t, pos);
                    let target = &ctx.corpus.files[i];
                    let e = card_draft(
                        src,
                        target,
                        EDGE_TYPE,
                        WEIGHT,
                        CONFIDENCE,
                        ctx.file,
                        q,
                        pos as u64,
                    );
                    let ghost before = edge_views(out@);
                    out.push(e);
                    proof {
                        assert(edge_views(out@) =~= before.push(e@));
                    }
                },
                LinkTarget::Miss => {
                    self.unresolved = bump_exec(self.unresolved);
                },
                _ => {},
            }
            k += 1;
        }
        proof {
            assert(lv.subrange(0, links@.len() as int) =~= lv);
        }
    }

    pub fn counters(&self) -> (r: DetectorCounters)
        ensures
            r == (DetectorCounters { unresolved: self.unresolved_count(), ambiguous: 0, capped: 0 }),
    {
        DetectorCounters { unresolved: self.unresolved, ambiguous: 0, capped: 0 }
    }
}

} // verus!
