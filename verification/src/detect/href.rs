//! href@2 — `<a href="…">` to a corpus file, html-sniffed files only.
//!
//! The HTML extractor strips markup before sectioning, so an `<a>` tag never
//! survives into section text. `detect_raw_html` therefore scans the raw
//! decoded source once per html file: those edges start at the file card and
//! carry offset 0 (byte positions did not survive extraction). The section
//! pass only fires on markup that survived as text (escaped anchors), and
//! then the offset is real.

use super::corpus::{
    card_edge, edge_views, line_at, spec_line_at, spec_resolve_local, CorpusFile, CorpusIndex,
    DetectorCounters, EdgeDraft, EdgeView, LinkTarget,
};
use super::mdlink::{dangling, link_views};
use super::section::{bump, bump_exec, bumped, card_draft, SectionCtx};
use crate::bytes::{bytes_eq, slice_vec};
use vstd::prelude::*;
use vstd::string::StringSliceAdditionalSpecFns;

verus! {

pub const TAG: &'static str = "href@2";

pub const EDGE_TYPE: &'static str = "href";

/// Weight in thousandths.
pub const WEIGHT: u32 = 700;

/// Confidence in thousandths.
pub const CONFIDENCE: u32 = 850;

/// The family (`Family::as_str`) this detector is scoped to: sniffing
/// decides, not the extension.
pub open spec fn html_family() -> Seq<u8> {
    seq![104u8, 116u8, 109u8, 108u8]
}

pub type GroupSpans = (Option<(usize, usize)>, Option<(usize, usize)>, Option<(usize, usize)>);

/// The three value groups (double-quoted, single-quoted, bare) of each
/// anchor match in a text.
pub uninterp spec fn anchor_captures(text: Seq<char>) -> Seq<(Option<(usize, usize)>, Option<(usize, usize)>, Option<(usize, usize)>)>;

/// `regex::Regex::captures_iter` with the case-insensitive anchor pattern
/// `<a\s[^>]*?href\s*=\s*(?:"([^"]*)"|'([^']*)'|([^\s>]+))`: for each match
/// in order, the byte spans of its three capture groups. Named, not stated:
/// the contract claims only that the spans are a function of the text.
#[verifier::external_body]
fn anchor_matches(text: &str) -> (r: Vec<(Option<(usize, usize)>, Option<(usize, usize)>, Option<(usize, usize)>)>)
    ensures
        r@ == anchor_captures(text@),
{
    let re = regex::Regex::new(r#"(?is)<a\s[^>]*?href\s*=\s*(?:"([^"]*)"|'([^']*)'|([^\s>]+))"#).unwrap();
    re.captures_iter(text).map(|c| {
        (c.get(1).map(|m| (m.start(), m.end())), c.get(2).map(|m| (m.start(), m.end())), c.get(3).map(|m| (m.start(), m.end())))
    }).collect()
}

/// The first group that took part in the match.
pub open spec fn value_span(c: GroupSpans) -> Option<(usize, usize)> {
    match c.0 {
        Some(x) => Some(x),
        None => match c.1 {
            Some(x) => Some(x),
            None => c.2,
        },
    }
}

/// The anchors of the first matches: (value start, value).
pub open spec fn href_items(t: Seq<u8>, caps: Seq<GroupSpans>) -> Seq<(int, Seq<u8>)>
    decreases caps.len(),
{
    if caps.len() == 0 {
        Seq::empty()
    } else {
        let rest = href_items(t, caps.drop_last());
        match value_span(caps.last()) {
            Some(v) => if v.0 <= v.1 && v.1 <= t.len() {
                rest.push((v.0 as int, t.subrange(v.0 as int, v.1 as int)))
            } else {
                rest
            },
            None => rest,
        }
    }
}

/// The edges of the first anchors: from `src`, at the value start when
/// `real_offsets`, else at 0.
pub open spec fn href_edges(
    fs: Seq<CorpusFile>,
    file: CorpusFile,
    src: Seq<u8>,
    t: Seq<u8>,
    items: Seq<(int, Seq<u8>)>,
    real_offsets: bool,
) -> Seq<EdgeView>
    decreases items.len(),
{
    if items.len() == 0 {
        Seq::empty()
    } else {
        let rest = href_edges(fs, file, src, t, items.drop_last(), real_offsets);
        let pos = items.last().0;
        match spec_resolve_local(fs, file.dir@, items.last().1) {
            LinkTarget::Hit(k) => rest.push(
                card_edge(
                    src,
                    fs[k as int],
                    EDGE_TYPE@,
                    WEIGHT,
                    CONFIDENCE,
                    file,
                    spec_line_at(t, pos),
                    if real_offsets {
                        pos
                    } else {
                        0
                    },
                ),
            ),
            _ => rest,
        }
    }
}

fn anchor_values(t: &[u8], caps: &[GroupSpans]) -> (r: Vec<(usize, Vec<u8>)>)
    ensures
        link_views(r@) == href_items(t@, caps@),
        forall|k: int| 0 <= k < r@.len() ==> #[trigger] r@[k].0 <= t@.len(),
{
    let mut out: Vec<(usize, Vec<u8>)> = Vec::new();
    let n = t.len();
    let mut j: usize = 0;
    while j < caps.len()
        invariant
            j <= caps@.len(),
            n == t@.len(),
            link_views(out@) == href_items(t@, caps@.subrange(0, j as int)),
            forall|k: int| 0 <= k < out@.len() ==> #[trigger] out@[k].0 <= t@.len(),
        decreases caps@.len() - j,
    {
        proof {
            assert(caps@.subrange(0, j + 1).drop_last() =~= caps@.subrange(0, j as int));
        }
        let c = caps[j];
        let v = match c.0 {
            Some(x) => Some(x),
            None => match c.1 {
                Some(x) => Some(x),
                None => c.2,
            },
        };
        if let Some((a, b)) = v {
            if a <= b && b <= n {
                let url = slice_vec(t, a, b);
                let ghost before = link_views(out@);
                out.push((a, url));
                proof {
                    assert(link_views(out@) =~= before.push((a as int, url@)));
                }
            }
        }
        j += 1;
    }
    proof {
        assert(caps@.subrange(0, caps@.len() as int) =~= caps@);
    }
    out
}

/// The anchor detector; it counts dangling local targets.
pub struct Href {
    unresolved: u64,
}

impl Href {
    pub closed spec fn unresolved_count(&self) -> u64 {
        self.unresolved
    }

    pub fn new() -> (r: Href)
        ensures
            r.unresolved_count() == 0,
    {
        Href { unresolved: 0 }
    }

    pub fn tag(&self) -> (r: &'static str)
        ensures
            r@ == TAG@,
    {
        TAG
    }

    fn link_anchors(
        &mut self,
        corpus: &CorpusIndex,
        file: &CorpusFile,
        src: &[u8],
        t: &[u8],
        caps: &[GroupSpans],
        real_offsets: bool,
        out: &mut Vec<EdgeDraft>,
    )
        ensures
            edge_views(final(out)@) == edge_views(old(out)@) + href_edges(
                corpus.files@,
                *file,
                src@,
                t@,
                href_items(t@, caps@),
                real_offsets,
            ),
            final(self).unresolved == bumped(
                old(self).unresolved,
                dangling(corpus.files@, file.dir@, href_items(t@, caps@)),
            ),
    {
        let items = anchor_values(t, caps);
        let ghost lv = link_views(items@);
        let ghost out0 = edge_views(out@);
        let ghost u0 = self.unresolved;
        let mut k: usize = 0;
        while k < items.len()
            invariant
                k <= items@.len(),
                lv == link_views(items@),
                lv == href_items(t@, caps@),
                forall|j: int| 0 <= j < items@.len() ==> #[trigger] items@[j].0 <= t@.len(),
                edge_views(out@) == out0 + href_edges(
                    corpus.files@,
                    *file,
                    src@,
                    t@,
                    lv.subrange(0, k as int),
                    real_offsets,
                ),
                self.unresolved == bumped(u0, dangling(corpus.files@, file.dir@, lv.subrange(0, k as int))),
            decreases items@.len() - k,
        {
            let pos = items[k].0;
            let r = corpus.resolve_local(file.dir.as_slice(), items[k].1.as_slice());
            proof {
                let pre = lv.subrange(0, k as int);
                let nxt = lv.subrange(0, k + 1);
                assert(nxt.drop_last() =~= pre);
                assert(nxt.last() == (pos as int, items@[k as int].1@));
            }
            match r {
                LinkTarget::Hit(i) => {
                    let q = line_at(t, pos);
                    let off: u64 = if real_offsets {
                        pos as u64
                    } else {
                        0
                    };
                    let e = card_draft(src, &corpus.files[i], EDGE_TYPE, WEIGHT, CONFIDENCE, file, q, off);
                    let ghost before = edge_views(out@);
                    out.push(e);
                    proof {
                        assert(edge_views(out@) =~= before.push(e@));
                    }
                },
                LinkTarget::Miss => {
                    self.unresolved = bump_exec(self.unresolved);
                },
                _ => {},
            }
            k += 1;
        }
        proof {
            assert(lv.subrange(0, items@.len() as int) =~= lv);
        }
    }

    /// The raw-source pass over an html file: edges start at the file card
    /// and carry offset 0. Files not sniffed as html are out of scope.
    pub fn detect_raw_html(&mut self, corpus: &CorpusIndex, file: &CorpusFile, raw: &str, out: &mut Vec<EdgeDraft>)
        ensures
            file.family@ != html_family() ==> final(out)@ == old(out)@ && final(self).unresolved_count() == old(self).unresolved_count(),
            file.family@ == html_family() ==> edge_views(final(out)@) == edge_views(old(out)@) + href_edges(
                corpus.files@,
                *file,
                file.anchor_doc_id@,
                raw.spec_bytes(),
                href_items(raw.spec_bytes(), anchor_captures(raw@)),
                false,
            ),
            file.family@ == html_family() ==> final(self).unresolved_count() == bumped(
                old(self).unresolved_count(),
                dangling(corpus.files@, file.dir@, href_items(raw.spec_bytes(), anchor_captures(raw@))),
            ),
    {
        let caps = anchor_matches(raw);
        self.detect_raw_spans(corpus, file, raw, caps.as_slice(), out);
    }

    /// The raw-source pass over the given anchor matches of `raw`.
    pub fn detect_raw_spans(
        &mut self,
        corpus: &CorpusIndex,
        file: &CorpusFile,
        raw: &str,
        caps: &[GroupSpans],
        out: &mut Vec<EdgeDraft>,
    )
        ensures
            file.family@ != html_family() ==> final(out)@ == old(out)@ && final(self).unresolved_count() == old(self).unresolved_count(),
            file.family@ == html_family() ==> edge_views(final(out)@) == edge_views(old(out)@) + href_edges(
                corpus.files@,
                *file,
                file.anchor_doc_id@,
                raw.spec_bytes(),
                href_items(raw.spec_bytes(), caps@),
                false,
            ),
            file.family@ == html_family() ==> final(self).unresolved_count() == bumped(
                old(self).unresolved_count(),
                dangling(corpus.files@, file.dir@, href_items(raw.spec_bytes(), caps@)),
            ),
    {
        let html: [u8; 4] = [104u8, 116u8, 109u8, 108u8];
        proof {
            assert(html@ =~= html_family());
        }
        if !bytes_eq(file.family.as_slice(), &html) {
            return;
        }
        self.link_anchors(corpus, file, file.anchor_doc_id.as_slice(), raw.as_bytes(), caps, false, out);
    }

    /// The section-text pass: only escaped markup that survived extraction
    /// fires here, and the offset is the value's real start.
    pub fn detect_text(&mut self, ctx: &SectionCtx, out: &mut Vec<EdgeDraft>)
        ensures
            ctx.file.family@ != html_family() ==> final(out)@ == old(out)@ && final(self).unresolved_count() == old(self).unresolved_count(),
            ctx.file.family@ == html_family() ==> edge_views(final(out)@) == edge_views(old(out)@) + href_edges(
                ctx.corpus.files@,
                *ctx.file,
                ctx.section_doc_id.spec_bytes(),
                ctx.text.spec_bytes(),
                href_items(ctx.text.spec_bytes(), anchor_captures(ctx.text@)),
                true,
            ),
            ctx.file.family@ == html_family() ==> final(self).unresolved_count() == bumped(
                old(self).unresolved_count(),
                dangling(ctx.corpus.files@, ctx.file.dir@, href_items(ctx.text.spec_bytes(), anchor_captures(ctx.text@))),
            ),
    {
        let caps = anchor_matches(ctx.text);
        self.detect_text_spans(ctx, caps.as_slice(), out);
    }

    /// The section-text pass over the given anchor matches of the text.
    pub fn detect_text_spans(&mut self, ctx: &SectionCtx, caps: &[GroupSpans], out: &mut Vec<EdgeDraft>)
        ensures
            ctx.file.family@ != html_family() ==> final(out)@ == old(out)@ && final(self).unresolved_count() == old(self).unresolved_count(),
            ctx.file.family@ == html_family() ==> edge_views(final(out)@) == edge_views(old(out)@) + href_edges(
                ctx.corpus.files@,
                *ctx.file,
                ctx.section_doc_id.spec_bytes(),
                ctx.text.spec_bytes(),
                href_items(ctx.text.spec_bytes(), caps@),
                true,
            ),
            ctx.file.family@ == html_family() ==> final(self).unresolved_count() == bumped(
                old(self).unresolved_count(),
                dangling(ctx.corpus.files@, ctx.file.dir@, href_items(ctx.text.spec_bytes(), caps@)),
            ),
    {
        let html: [u8; 4] = [104u8, 116u8, 109u8, 108u8];
        proof {
            assert(html@ =~= html_family());
        }
        if !bytes_eq(ctx.file.family.as_slice(), &html) {
            return;
        }
        self.link_anchors(ctx.corpus, ctx.file, ctx.section_doc_id.as_bytes(), ctx.text.as_bytes(), caps, true, out);
    }

    pub fn counters(&self) -> (r: DetectorCounters)
        ensures
            r == (DetectorCounters { unresolved: self.unresolved_count(), ambiguous: 0, capped: 0 }),
    {
        DetectorCounters { unresolved: self.unresolved, ambiguous: 0, capped: 0 }
    }
}

} // verus!
