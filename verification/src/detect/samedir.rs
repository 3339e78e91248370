//! samedir@1 — files sharing a directory, chained, never a clique.
//!
//! Directory co-location is weak evidence, but it is the only detector that
//! fires on a corpus with no links at all. A clique over a directory of `n`
//! files would be `n(n-1)/2` edges; the chain over the path-sorted files of a
//! directory is exactly `n - 1`, and it follows name-ordered conventions
//! (01-intro, 02-setup, …).

use super::corpus::{edge_views, CorpusFile, CorpusIndex, EdgeDraft, EdgeView};
use crate::bytes::{
    bytes_eq, insert_sorted_distinct, lemma_sorted_of, push_all, sorted_of, strictly_sorted, vviews,
};
use super::corpus::copy_bytes;
use vstd::prelude::*;

verus! {

pub const TAG: &'static str = "samedir@1";

pub const EDGE_TYPE: &'static str = "same_dir";

/// Weight in thousandths.
pub const WEIGHT: u32 = 300;

/// Confidence in thousandths.
pub const CONFIDENCE: u32 = 400;

/// `" and "`
pub open spec fn and_word() -> Seq<u8> {
    seq![32u8, 97u8, 110u8, 100u8, 32u8]
}

/// `" share directory "`
pub open spec fn share_words() -> Seq<u8> {
    seq![32u8, 115u8, 104u8, 97u8, 114u8, 101u8, 32u8, 100u8, 105u8, 114u8, 101u8, 99u8, 116u8, 111u8, 114u8, 121u8, 32u8]
}

/// The directory as the quote names it: `.` for the root.
pub open spec fn shown_dir(d: Seq<u8>) -> Seq<u8> {
    if d.len() == 0 {
        seq![46u8]
    } else {
        d
    }
}

/// The chain edge from `l` to the next file `r` of the same directory.
pub open spec fn samedir_edge(l: CorpusFile, r: CorpusFile) -> EdgeView {
    EdgeView {
        src: l.anchor_doc_id@,
        dst: r.anchor_doc_id@,
        edge_type: EDGE_TYPE@,
        weight: WEIGHT,
        confidence: CONFIDENCE,
        valid_at_ms: l.mtime_ms,
        src_file: l.rel@,
        quote: l.rel@ + and_word() + r.rel@ + share_words() + shown_dir(l.dir@),
        offset: 0,
        src_format: l.format@,
        dst_format: r.format@,
    }
}

/// The files of directory `d`, in table order.
pub open spec fn in_dir(fs: Seq<CorpusFile>, d: Seq<u8>) -> Seq<CorpusFile>
    decreases fs.len(),
{
    if fs.len() == 0 {
        Seq::empty()
    } else {
        let r = in_dir(fs.drop_last(), d);
        if fs.last().dir@ == d {
            r.push(fs.last())
        } else {
            r
        }
    }
}

/// Edges between consecutive members of `m`.
pub open spec fn chain(m: Seq<CorpusFile>) -> Seq<EdgeView>
    decreases m.len(),
{
    if m.len() < 2 {
        Seq::empty()
    } else {
        chain(m.drop_last()).push(samedir_edge(m[m.len() - 2], m[m.len() - 1]))
    }
}

/// Every directory that holds a file.
pub open spec fn dir_set(fs: Seq<CorpusFile>) -> Set<Seq<u8>> {
    fs.map_values(|f: CorpusFile| f.dir@).to_set()
}

/// The chains of the directories `q`, one after the other.
pub open spec fn chains(fs: Seq<CorpusFile>, q: Seq<Seq<u8>>) -> Seq<EdgeView>
    decreases q.len(),
{
    if q.len() == 0 {
        Seq::empty()
    } else {
        chains(fs, q.drop_last()) + chain(in_dir(fs, q.last()))
    }
}

/// All same-directory edges: directory by directory in ascending order.
pub open spec fn samedir_edges(fs: Seq<CorpusFile>) -> Seq<EdgeView> {
    chains(fs, sorted_of(dir_set(fs)))
}

/// The directories of the table, ascending, each once.
fn sorted_dirs(fs: &Vec<CorpusFile>) -> (r: Vec<Vec<u8>>)
    ensures
        vviews(r@) == sorted_of(dir_set(fs@)),
{
    let mut v: Vec<Vec<u8>> = Vec::new();
    let mut i: usize = 0;
    proof {
        assert(vviews(v@).to_set() =~= dir_set(fs@.subrange(0, 0)));
    }
    while i < fs.len()
        invariant
            i <= fs@.len(),
            strictly_sorted(vviews(v@)),
            vviews(v@).to_set() == dir_set(fs@.subrange(0, i as int)),
        decreases fs@.len() - i,
    {
        let d = copy_bytes(&fs[i].dir);
        insert_sorted_distinct(&mut v, d);
        proof {
            let a = fs@.subrange(0, i as int).map_values(|f: CorpusFile| f.dir@);
            let b = fs@.subrange(0, i + 1).map_values(|f: CorpusFile| f.dir@);
            assert(b =~= a.push(fs@[i as int].dir@));
            assert(b.to_set() =~= a.to_set().insert(fs@[i as int].dir@)) by {
                assert forall|e: Seq<u8>| b.to_set().contains(e) implies a.to_set().insert(
                    fs@[i as int].dir@,
                ).contains(e) by {
                    let k = choose|k: int| 0 <= k < b.len() && b[k] == e;
                    if k < a.len() {
                        assert(a[k] == e);
                    }
                }
                assert forall|e: Seq<u8>| a.to_set().insert(fs@[i as int].dir@).contains(e) implies b.to_set().contains(e) by {
                    if e == fs@[i as int].dir@ {
                        assert(b[a.len() as int] == e);
                    } else {
                        let k = choose|k: int| 0 <= k < a.len() && a[k] == e;
                        assert(b[k] == e);
                    }
                }
            }
        }
        i += 1;
    }
    proof {
        assert(fs@.subrange(0, fs@.len() as int) =~= fs@);
        lemma_sorted_of(vviews(v@), dir_set(fs@));
    }
    v
}

fn samedir_draft(l: &CorpusFile, r: &CorpusFile) -> (e: EdgeDraft)
    ensures
        e@ == samedir_edge(*l, *r),
{
    let and_w: [u8; 5] = [32u8, 97u8, 110u8, 100u8, 32u8];
    let share_w: [u8; 17] = [
        32u8, 115u8, 104u8, 97u8, 114u8, 101u8, 32u8, 100u8, 105u8, 114u8, 101u8, 99u8, 116u8,
        111u8, 114u8, 121u8, 32u8,
    ];
    let dot: [u8; 1] = [46u8];
    proof {
        assert(and_w@ =~= and_word());
        assert(share_w@ =~= share_words());
        assert(dot@ =~= seq![46u8]);
    }
    let mut q: Vec<u8> = Vec::new();
    push_all(&mut q, l.rel.as_slice());
    push_all(&mut q, &and_w);
    push_all(&mut q, r.rel.as_slice());
    push_all(&mut q, &share_w);
    if l.dir.len() == 0 {
        push_all(&mut q, &dot);
    } else {
        push_all(&mut q, l.dir.as_slice());
    }
    EdgeDraft {
        src: copy_bytes(&l.anchor_doc_id),
        dst: copy_bytes(&r.anchor_doc_id),
        edge_type: EDGE_TYPE,
        weight: WEIGHT,
        confidence: CONFIDENCE,
        valid_at_ms: l.mtime_ms,
        src_file: copy_bytes(&l.rel),
        quote: q,
        offset: 0,
        src_format: copy_bytes(&l.format),
        dst_format: copy_bytes(&r.format),
    }
}

/// Append the chain of directory `d`.
fn chain_dir(fs: &Vec<CorpusFile>, d: &[u8], out: &mut Vec<EdgeDraft>)
    ensures
        edge_views(final(out)@) == edge_views(old(out)@) + chain(in_dir(fs@, d@)),
{
    let ghost out0 = edge_views(out@);
    let mut prev: Option<usize> = None;
    let mut i: usize = 0;
    while i < fs.len()
        invariant
            i <= fs@.len(),
            edge_views(out@) == out0 + chain(in_dir(fs@.subrange(0, i as int), d@)),
            match prev {
                None => in_dir(fs@.subrange(0, i as int), d@).len() == 0,
                Some(p) => p < i && in_dir(fs@.subrange(0, i as int), d@).len() > 0 && in_dir(
                    fs@.subrange(0, i as int),
                    d@,
                ).last() == fs@[p as int],
            },
        decreases fs@.len() - i,
    {
        let ghost pre = fs@.subrange(0, i as int);
        let ghost nxt = fs@.subrange(0, i + 1);
        proof {
            assert(nxt.drop_last() =~= pre);
            assert(nxt.last() == fs@[i as int]);
        }
        if bytes_eq(fs[i].dir.as_slice(), d) {
            if let Some(p) = prev {
                let e = samedir_draft(&fs[p], &fs[i]);
                let ghost before = edge_views(out@);
                out.push(e);
                proof {
                    assert(edge_views(out@) =~= before.push(e@));
                    let m = in_dir(nxt, d@);
                    assert(m.drop_last() =~= in_dir(pre, d@));
                }
            } else {
                proof {
                    let m = in_dir(nxt, d@);
                    assert(m.len() == 1);
                }
            }
            prev = Some(i);
        }
        i += 1;
    }
    proof {
        assert(fs@.subrange(0, fs@.len() as int) =~= fs@);
    }
}

/// The same-directory detector.
pub struct SameDir;

impl SameDir {
    pub fn tag(&self) -> (r: &'static str)
        ensures
            r@ == TAG@,
    {
        TAG
    }

    /// Chain the files of every directory, directory by directory in
    /// ascending order, each chain in path order.
    pub fn detect_structure(&self, corpus: &CorpusIndex, out: &mut Vec<EdgeDraft>)
        ensures
            edge_views(final(out)@) == edge_views(old(out)@) + samedir_edges(corpus.files@),
    {
        let dirs = sorted_dirs(&corpus.files);
        let ghost q = vviews(dirs@);
        let ghost out0 = edge_views(out@);
        let mut k: usize = 0;
        while k < dirs.len()
            invariant
                k <= dirs@.len(),
                q == vviews(dirs@),
                edge_views(out@) == out0 + chains(corpus.files@, q.subrange(0, k as int)),
            decreases dirs@.len() - k,
        {
            chain_dir(&corpus.files, dirs[k].as_slice(), out);
            proof {
                let pre = q.subrange(0, k as int);
                let nxt = q.subrange(0, k + 1);
                assert(nxt.drop_last() =~= pre);
                assert(nxt.last() == dirs@[k as int]@);
                assert(chains(corpus.files@, nxt) == chains(corpus.files@, pre) + chain(
                    in_dir(corpus.files@, dirs@[k as int]@),
                ));
                assert(out0 + chains(corpus.files@, nxt) =~= out0 + chains(corpus.files@, pre)
                    + chain(in_dir(corpus.files@, dirs@[k as int]@)));
            }
            k += 1;
        }
        proof {
            assert(q.subrange(0, dirs@.len() as int) =~= q);
        }
    }
}

} // verus!
