//! What a detector sees of one section, and the pieces every detector shares:
//! the edge constructor and the counter step.

use super::corpus::{card_edge, copy_bytes, CorpusFile, CorpusIndex, EdgeDraft};
use vstd::prelude::*;
use vstd::string::StringSliceAdditionalSpecFns;

verus! {

/// One prose section of one indexed file.
pub struct SectionCtx<'a> {
    pub corpus: &'a CorpusIndex,
    pub file: &'a CorpusFile,
    /// Human label of the section ("section 3", "page 2 section 0").
    pub section_label: &'a str,
    /// Doc id and label of the section before this one in stream order.
    pub prev_section: Option<(&'a str, &'a str)>,
    pub section_doc_id: &'a str,
    pub text: &'a str,
}

/// One counter step: `+1`, wrapping at `u64::MAX` as an atomic counter does.
pub open spec fn bump(c: u64) -> u64 {
    if c == u64::MAX {
        0
    } else {
        (c + 1) as u64
    }
}

/// `n` counter steps.
pub open spec fn bumped(c: u64, n: nat) -> u64
    decreases n,
{
    if n == 0 {
        c
    } else {
        bump(bumped(c, (n - 1) as nat))
    }
}

pub fn bump_exec(c: u64) -> (r: u64)
    ensures
        r == bump(c),
{
    if c == u64::MAX {
        0
    } else {
        c + 1
    }
}

/// The edge from `src` to the card of `target`, found in `file`.
pub fn card_draft(
    src: &[u8],
    target: &CorpusFile,
    edge_type: &'static str,
    weight: u32,
    confidence: u32,
    file: &CorpusFile,
    quote: Vec<u8>,
    offset: u64,
) -> (r: EdgeDraft)
    ensures
        r@ == card_edge(src@, *target, edge_type@, weight, confidence, *file, quote@, offset as int),
{
    let s = crate::bytes::slice_vec(src, 0, src.len());
    proof {
        assert(s@ =~= src@);
    }
    EdgeDraft {
        src: s,
        dst: copy_bytes(&target.anchor_doc_id),
        edge_type,
        weight,
        confidence,
        valid_at_ms: file.mtime_ms,
        src_file: copy_bytes(&file.rel),
        quote,
        offset,
        src_format: copy_bytes(&file.format),
        dst_format: copy_bytes(&target.format),
    }
}

} // verus!
