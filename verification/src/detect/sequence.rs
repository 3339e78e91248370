//! sequence@2 — the file card opens the chain, then each section precedes
//! the next within one file.
//!
//! The predecessor comes from the pipeline's stream order
//! (`SectionCtx::prev_section`), not from arithmetic on the locator, which is
//! what lets PDF sections chain across page boundaries.

use super::corpus::{copy_bytes, edge_views, CorpusFile, EdgeDraft, EdgeView};
use super::section::SectionCtx;
use crate::bytes::{push_all, slice_vec};
use vstd::prelude::*;
use vstd::string::StringSliceAdditionalSpecFns;

verus! {

pub const TAG: &'static str = "sequence@2";

pub const EDGE_TYPE: &'static str = "sequence";

/// Weight in thousandths.
pub const WEIGHT: u32 = 800;

/// Confidence in thousandths.
pub const CONFIDENCE: u32 = 990;

/// `" precedes "`
pub open spec fn precedes_word() -> Seq<u8> {
    seq![32u8, 112u8, 114u8, 101u8, 99u8, 101u8, 100u8, 101u8, 115u8, 32u8]
}

/// `" of "`
pub open spec fn of_word() -> Seq<u8> {
    seq![32u8, 111u8, 102u8, 32u8]
}

/// `" opens "`
pub open spec fn opens_word() -> Seq<u8> {
    seq![32u8, 111u8, 112u8, 101u8, 110u8, 115u8, 32u8]
}

/// The ordering edge into a section: from its predecessor
/// (`"{prev} precedes {label} of {rel}"`), or from the file card for the
/// first section (`"{label} opens {rel}"`).
pub open spec fn sequence_edge(
    file: CorpusFile,
    label: Seq<u8>,
    prev: Option<(Seq<u8>, Seq<u8>)>,
    section_id: Seq<u8>,
) -> EdgeView {
    EdgeView {
        src: match prev {
            Some(p) => p.0,
            None => file.anchor_doc_id@,
        },
        dst: section_id,
        edge_type: EDGE_TYPE@,
        weight: WEIGHT,
        confidence: CONFIDENCE,
        valid_at_ms: file.mtime_ms,
        src_file: file.rel@,
        quote: match prev {
            Some(p) => p.1 + precedes_word() + label + of_word() + file.rel@,
            None => label + opens_word() + file.rel@,
        },
        offset: 0,
        src_format: file.format@,
        dst_format: file.format@,
    }
}

pub open spec fn prev_view(p: Option<(&str, &str)>) -> Option<(Seq<u8>, Seq<u8>)> {
    match p {
        Some(x) => Some((x.0.spec_bytes(), x.1.spec_bytes())),
        None => None,
    }
}

fn str_vec(s: &str) -> (r: Vec<u8>)
    ensures
        r@ == s.spec_bytes(),
{
    let b = s.as_bytes();
    let r = slice_vec(b, 0, b.len());
    proof {
        assert(r@ =~= b@);
    }
    r
}

/// The ordering detector.
pub struct Sequence;

impl Sequence {
    pub fn tag(&self) -> (r: &'static str)
        ensures
            r@ == TAG@,
    {
        TAG
    }

    /// Emit the one ordering edge into this section.
    pub fn detect_text(&self, ctx: &SectionCtx, out: &mut Vec<EdgeDraft>)
        ensures
            edge_views(final(out)@) == edge_views(old(out)@).push(
                sequence_edge(
                    *ctx.file,
                    ctx.section_label.spec_bytes(),
                    prev_view(ctx.prev_section),
                    ctx.section_doc_id.spec_bytes(),
                ),
            ),
    {
        let label = ctx.section_label.as_bytes();
        let rel = ctx.file.rel.as_slice();
        let mut q: Vec<u8> = Vec::new();
        let src = match ctx.prev_section {
            Some((prev_id, prev_label)) => {
                let precedes: [u8; 10] = [32u8, 112u8, 114u8, 101u8, 99u8, 101u8, 100u8, 101u8, 115u8, 32u8];
                let of: [u8; 4] = [32u8, 111u8, 102u8, 32u8];
                proof {
                    assert(precedes@ =~= precedes_word());
                    assert(of@ =~= of_word());
                }
                push_all(&mut q, prev_label.as_bytes());
                push_all(&mut q, &precedes);
                push_all(&mut q, label);
                push_all(&mut q, &of);
                push_all(&mut q, rel);
                str_vec(prev_id)
            },
            None => {
                let opens: [u8; 7] = [32u8, 111u8, 112u8, 101u8, 110u8, 115u8, 32u8];
                proof {
                    assert(opens@ =~= opens_word());
                }
                push_all(&mut q, label);
                push_all(&mut q, &opens);
                push_all(&mut q, rel);
                copy_bytes(&ctx.file.anchor_doc_id)
            },
        };
        let e = EdgeDraft {
            src,
            dst: str_vec(ctx.section_doc_id),
            edge_type: EDGE_TYPE,
            weight: WEIGHT,
            confidence: CONFIDENCE,
            valid_at_ms: ctx.file.mtime_ms,
            src_file: copy_bytes(&ctx.file.rel),
            quote: q,
            offset: 0,
            src_format: copy_bytes(&ctx.file.format),
            dst_format: copy_bytes(&ctx.file.format),
        };
        let ghost before = edge_views(out@);
        out.push(e);
        proof {
            assert(e@.quote =~= sequence_edge(
                *ctx.file,
                ctx.section_label.spec_bytes(),
                prev_view(ctx.prev_section),
                ctx.section_doc_id.spec_bytes(),
            ).quote);
            assert(edge_views(out@) =~= before.push(e@));
        }
    }
}

} // verus!
