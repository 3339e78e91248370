//! cratecite@1 — a crate directory named in prose ("BM25 (xerj-fts)") links
//! to that crate's `Cargo.toml` file card.
//!
//! The crate table is structure, not content: every directory that directly
//! holds a `Cargo.toml`, keyed by the directory's own name (the folder named
//! `xerj-fts`, not the `[package] name`). Only names holding `-` or `_` are
//! citable, so a crate directory named `server` never turns English into
//! edges. A mention must stand as a whole word: the byte before it and the
//! byte after it may not continue a name or a path (`xerj-fts-extra`,
//! `crates/xerj-fts/src`), while a sentence-final period is fine.

use super::corpus::{
    card_edge, edge_views, first_from, line_at, name_of, spec_line_at, CorpusFile, CorpusIndex,
    DetectorCounters, EdgeDraft, EdgeView,
};
use super::pathcite::name_of_exec;
use super::section::{bump, bump_exec, bumped, card_draft, SectionCtx};
use crate::bytes::{
    bytes_eq, contains_byte, find_from, first_occurrence, insert_sorted_distinct,
    lemma_first_occurrence, lemma_sorted_of, sorted_of, strictly_sorted, vviews,
};
use vstd::prelude::*;
use vstd::string::StringSliceAdditionalSpecFns;

verus! {

pub const TAG: &'static str = "cratecite@1";

pub const EDGE_TYPE: &'static str = "cratecite";

/// Weight in thousandths.
pub const WEIGHT: u32 = 500;

/// Confidence in thousandths.
pub const CONFIDENCE: u32 = 600;

/// `Cargo.toml`
pub open spec fn cargo_toml() -> Seq<u8> {
    seq![67u8, 97u8, 114u8, 103u8, 111u8, 46u8, 116u8, 111u8, 109u8, 108u8]
}

pub open spec fn is_cargo(f: CorpusFile) -> bool {
    name_of(f.rel@) == cargo_toml()
}

/// The `Cargo.toml` files of the crate directories named `name`.
pub open spec fn crate_of(name: Seq<u8>) -> spec_fn(CorpusFile) -> bool {
    |f: CorpusFile| is_cargo(f) && name_of(f.dir@) == name
}

/// Names of the directories that directly hold a `Cargo.toml`.
pub open spec fn crate_names(fs: Seq<CorpusFile>) -> Set<Seq<u8>>
    decreases fs.len(),
{
    if fs.len() == 0 {
        Set::empty()
    } else if is_cargo(fs.last()) {
        crate_names(fs.drop_last()).insert(name_of(fs.last().dir@))
    } else {
        crate_names(fs.drop_last())
    }
}

pub open spec fn citable(name: Seq<u8>) -> bool {
    name.contains(45u8) || name.contains(95u8)
}

pub open spec fn ascii_alnum(b: u8) -> bool {
    (48 <= b <= 57) || (65 <= b <= 90) || (97 <= b <= 122)
}

/// Bytes that continue a name or a path.
pub open spec fn wordish(b: u8) -> bool {
    ascii_alnum(b) || b == 95u8 || b == 45u8 || b == 46u8 || b == 47u8
}

pub open spec fn boundary_before(t: Seq<u8>, pos: int) -> bool {
    pos == 0 || !wordish(t[pos - 1])
}

/// After the mention: the end, a `.` that does not start an extension, or a
/// byte that does not continue a name or path.
pub open spec fn boundary_after(t: Seq<u8>, a: int) -> bool {
    if a >= t.len() {
        true
    } else if t[a] == 46u8 {
        !(a + 1 < t.len() && (ascii_alnum(t[a + 1]) || t[a + 1] == 95u8))
    } else {
        !(ascii_alnum(t[a]) || t[a] == 95u8 || t[a] == 45u8 || t[a] == 47u8)
    }
}

/// Whole-word mentions of `name` from byte `from` on.
pub open spec fn mentions(t: Seq<u8>, name: Seq<u8>, from: int) -> Seq<int>
    decreases t.len() - from,
{
    if from < 0 || name.len() == 0 {
        Seq::empty()
    } else {
        match first_occurrence(t, name, from) {
            None => Seq::empty(),
            Some(pos) => {
                proof {
                    lemma_first_occurrence(t, name, from);
                }
                let rest = mentions(t, name, pos + name.len());
                if boundary_before(t, pos) && boundary_after(t, pos + name.len()) {
                    seq![pos] + rest
                } else {
                    rest
                }
            },
        }
    }
}

/// The edges of the first mentions of one crate name.
pub open spec fn mention_edges(
    fs: Seq<CorpusFile>,
    file: CorpusFile,
    src: Seq<u8>,
    t: Seq<u8>,
    name: Seq<u8>,
    ms: Seq<int>,
) -> Seq<EdgeView>
    decreases ms.len(),
{
    if ms.len() == 0 {
        Seq::empty()
    } else {
        let rest = mention_edges(fs, file, src, t, name, ms.drop_last());
        let pos = ms.last();
        match first_from(fs, crate_of(name), 0) {
            Some(k) => if fs[k].rel@ != file.rel@ {
                rest.push(
                    card_edge(
                        src,
                        fs[k],
                        EDGE_TYPE@,
                        WEIGHT,
                        CONFIDENCE,
                        file,
                        spec_line_at(t, pos),
                        pos,
                    ),
                )
            } else {
                rest
            },
            None => rest,
        }
    }
}

/// All edges for the first crate names, name by name.
pub open spec fn cratecite_edges(
    fs: Seq<CorpusFile>,
    file: CorpusFile,
    src: Seq<u8>,
    t: Seq<u8>,
    names: Seq<Seq<u8>>,
) -> Seq<EdgeView>
    decreases names.len(),
{
    if names.len() == 0 {
        Seq::empty()
    } else {
        let name = names.last();
        cratecite_edges(fs, file, src, t, names.drop_last()) + if citable(name) {
            mention_edges(fs, file, src, t, name, mentions(t, name, 0))
        } else {
            Seq::empty()
        }
    }
}

/// Mentions of names that several crate directories share.
pub open spec fn ambiguous_mentions(fs: Seq<CorpusFile>, t: Seq<u8>, names: Seq<Seq<u8>>) -> nat
    decreases names.len(),
{
    if names.len() == 0 {
        0
    } else {
        let name = names.last();
        ambiguous_mentions(fs, t, names.drop_last()) + if citable(name) && (match first_from(
            fs,
            crate_of(name),
            0,
        ) {
            Some(k) => first_from(fs, crate_of(name), k + 1) is Some,
            None => false,
        }) {
            mentions(t, name, 0).len()
        } else {
            0nat
        }
    }
}

fn is_cargo_exec(f: &CorpusFile) -> (r: bool)
    ensures
        r == is_cargo(*f),
{
    let c: [u8; 10] = [67u8, 97u8, 114u8, 103u8, 111u8, 46u8, 116u8, 111u8, 109u8, 108u8];
    proof {
        assert(c@ =~= cargo_toml());
    }
    let n = name_of_exec(f.rel.as_slice());
    bytes_eq(n.as_slice(), &c)
}

/// The crate table's names, ascending.
pub fn crate_table(corpus: &CorpusIndex) -> (r: Vec<Vec<u8>>)
    ensures
        vviews(r@) == sorted_of(crate_names(corpus.files@)),
{
    let fs = &corpus.files;
    let mut v: Vec<Vec<u8>> = Vec::new();
    let mut i: usize = 0;
    proof {
        assert(vviews(v@).to_set() =~= crate_names(fs@.subrange(0, 0)));
    }
    while i < fs.len()
        invariant
            i <= fs@.len(),
            strictly_sorted(vviews(v@)),
            vviews(v@).to_set() == crate_names(fs@.subrange(0, i as int)),
        decreases fs@.len() - i,
    {
        proof {
            assert(fs@.subrange(0, i + 1).drop_last() =~= fs@.subrange(0, i as int));
        }
        if is_cargo_exec(&fs[i]) {
            let b = name_of_exec(fs[i].dir.as_slice());
            insert_sorted_distinct(&mut v, b);
        }
        i += 1;
    }
    proof {
        assert(fs@.subrange(0, fs@.len() as int) =~= fs@);
        lemma_sorted_of(vviews(v@), crate_names(fs@));
    }
    v
}

fn find_crate(fs: &Vec<CorpusFile>, name: &[u8], from: usize) -> (r: Option<usize>)
    requires
        from <= fs@.len(),
    ensures
        match r {
            Some(i) => first_from(fs@, crate_of(name@), from as int) == Some(i as int) && i
                < fs@.len(),
            None => first_from(fs@, crate_of(name@), from as int) is None,
        },
{
    let mut i = from;
    while i < fs.len()
        invariant
            from <= i <= fs@.len(),
            first_from(fs@, crate_of(name@), from as int) == first_from(
                fs@,
                crate_of(name@),
                i as int,
            ),
        decreases fs@.len() - i,
    {
        if is_cargo_exec(&fs[i]) {
            let b = name_of_exec(fs[i].dir.as_slice());
            if bytes_eq(b.as_slice(), name) {
                return Some(i);
            }
        }
        i += 1;
    }
    None
}

fn alnum(b: u8) -> (r: bool)
    ensures
        r == ascii_alnum(b),
{
    (48 <= b && b <= 57) || (65 <= b && b <= 90) || (97 <= b && b <= 122)
}

fn after_ok(t: &[u8], a: usize) -> (r: bool)
    ensures
        r == boundary_after(t@, a as int),
{
    let n = t.len();
    if a >= n {
        true
    } else if t[a] == 46u8 {
        !(a + 1 < n && (alnum(t[a + 1]) || t[a + 1] == 95u8))
    } else {
        !(alnum(t[a]) || t[a] == 95u8 || t[a] == 45u8 || t[a] == 47u8)
    }
}

/// The crate-citation detector; it counts mentions of shared names.
pub struct Cratecite {
    ambiguous: u64,
}

impl Cratecite {
    pub closed spec fn ambiguous_count(&self) -> u64 {
        self.ambiguous
    }

    pub fn new() -> (r: Cratecite)
        ensures
            r.ambiguous_count() == 0,
    {
        Cratecite { ambiguous: 0 }
    }

    pub fn tag(&self) -> (r: &'static str)
        ensures
            r@ == TAG@,
    {
        TAG
    }

    fn cite_name(
        &mut self,
        ctx: &SectionCtx,
        name: &[u8],
        out: &mut Vec<EdgeDraft>,
    )
        requires
            name@.len() > 0,
        ensures
            edge_views(final(out)@) == edge_views(old(out)@) + mention_edges(
                ctx.corpus.files@,
                *ctx.file,
                ctx.section_doc_id.spec_bytes(),
                ctx.text.spec_bytes(),
                name@,
                mentions(ctx.text.spec_bytes(), name@, 0),
            ),
            final(self).ambiguous == bumped(
                old(self).ambiguous,
                if (match first_from(ctx.corpus.files@, crate_of(name@), 0) {
                    Some(k) => first_from(ctx.corpus.files@, crate_of(name@), k + 1) is Some,
                    None => false,
                }) {
                    mentions(ctx.text.spec_bytes(), name@, 0).len()
                } else {
                    0nat
                },
            ),
    {
        let t = ctx.text.as_bytes();
        let n = t.len();
        let src = ctx.section_doc_id.as_bytes();
        let fs = &ctx.corpus.files;
        let nf = fs.len();
        let first = find_crate(fs, name, 0);
        let shared = match first {
            Some(k) => find_crate(fs, name, k + 1).is_some(),
            None => false,
        };
        let ghost all = mentions(t@, name@, 0);
        let ghost out0 = edge_views(out@);
        let ghost a0 = self.ambiguous;
        let ghost fsv = fs@;
        let ghost file = *ctx.file;
        let ghost done: Seq<int> = Seq::empty();
        let mut from: usize = 0;
        loop
            invariant
                from <= t@.len(),
                n == t@.len(),
                name@.len() > 0,
                fsv == ctx.corpus.files@,
                fsv == fs@,
                nf == fs@.len(),
                file == *ctx.file,
                done + mentions(t@, name@, from as int) == all,
                edge_views(out@) == out0 + mention_edges(fsv, file, src@, t@, name@, done),
                self.ambiguous == bumped(
                    a0,
                    if shared {
                        done.len()
                    } else {
                        0nat
                    },
                ),
                first is Some <==> first_from(fsv, crate_of(name@), 0) is Some,
                first matches Some(k) ==> first_from(fsv, crate_of(name@), 0) == Some(k as int) && k < fsv.len(),
                shared == (match first_from(fsv, crate_of(name@), 0) {
                    Some(k) => first_from(fsv, crate_of(name@), k + 1) is Some,
                    None => false,
                }),
                forall|j: int| 0 <= j < done.len() ==> #[trigger] done[j] < t@.len(),
            ensures
                done == all,
                edge_views(out@) == out0 + mention_edges(fsv, file, src@, t@, name@, done),
                self.ambiguous == bumped(
                    a0,
                    if shared {
                        done.len()
                    } else {
                        0nat
                    },
                ),
            decreases t@.len() - from,
        {
            let pos = match find_from(t, name, from) {
                Some(p) => p,
                None => {
                    proof {
                        assert(done + mentions(t@, name@, from as int) =~= done);
                    }
                    break;
                },
            };
            proof {
                lemma_first_occurrence(t@, name@, from as int);
            }
            let end = pos + name.len();
            let before = pos == 0 || !{
                let b = t[pos - 1];
                alnum(b) || b == 95u8 || b == 45u8 || b == 46u8 || b == 47u8
            };
            if before && after_ok(t, end) {
                proof {
                    assert(mentions(t@, name@, from as int) == seq![pos as int] + mentions(t@, name@, end as int));
                    assert(done + mentions(t@, name@, from as int) =~= done.push(pos as int) + mentions(
                        t@,
                        name@,
                        end as int,
                    ));
                    assert(done.push(pos as int).drop_last() =~= done);
                }
                if shared {
                    self.ambiguous = bump_exec(self.ambiguous);
                }
                if let Some(k) = first {
                    let target = &fs[k];
                    if !bytes_eq(target.rel.as_slice(), ctx.file.rel.as_slice()) {
                        let q = line_at(t, pos);
                        let e = card_draft(src, target, EDGE_TYPE, WEIGHT, CONFIDENCE, ctx.file, q, pos as u64);
                        let ghost before_out = edge_views(out@);
                        out.push(e);
                        proof {
                            assert(edge_views(out@) =~= before_out.push(e@));
                        }
                    }
                }
                proof {
                    done = done.push(pos as int);
                }
            }
            from = end;
        }
    }

    /// Link every whole-word mention of a citable crate name, name by name
    /// in ascending order; a name several crate directories share links the
    /// smallest path and each such mention is counted.
    pub fn detect_text(&mut self, ctx: &SectionCtx, out: &mut Vec<EdgeDraft>)
        ensures
            edge_views(final(out)@) == edge_views(old(out)@) + cratecite_edges(
                ctx.corpus.files@,
                *ctx.file,
                ctx.section_doc_id.spec_bytes(),
                ctx.text.spec_bytes(),
                sorted_of(crate_names(ctx.corpus.files@)),
            ),
            final(self).ambiguous_count() == bumped(
                old(self).ambiguous_count(),
                ambiguous_mentions(
                    ctx.corpus.files@,
                    ctx.text.spec_bytes(),
                    sorted_of(crate_names(ctx.corpus.files@)),
                ),
            ),
    {
        let names = crate_table(ctx.corpus);
        let ghost q = vviews(names@);
        let ghost out0 = edge_views(out@);
        let ghost a0 = self.ambiguous;
        let mut k: usize = 0;
        while k < names.len()
            invariant
                k <= names@.len(),
                q == vviews(names@),
                edge_views(out@) == out0 + cratecite_edges(
                    ctx.corpus.files@,
                    *ctx.file,
                    ctx.section_doc_id.spec_bytes(),
                    ctx.text.spec_bytes(),
                    q.subrange(0, k as int),
                ),
                self.ambiguous == bumped(
                    a0,
                    ambiguous_mentions(ctx.corpus.files@, ctx.text.spec_bytes(), q.subrange(0, k as int)),
                ),
            decreases names@.len() - k,
        {
            let name = names[k].as_slice();
            let ghost pre = q.subrange(0, k as int);
            let ghost nxt = q.subrange(0, k + 1);
            proof {
                assert(nxt.drop_last() =~= pre);
                assert(nxt.last() == name@);
            }
            let cit = contains_byte(name, 45u8) || contains_byte(name, 95u8);
            if cit {
                proof {
                    assert(name@.len() > 0);
                }
                let ghost mid = edge_views(out@);
                let ghost amid = self.ambiguous;
                self.cite_name(ctx, name, out);
                proof {
                    let m = mentions(ctx.text.spec_bytes(), name@, 0);
                    let added: nat = if (match first_from(ctx.corpus.files@, crate_of(name@), 0) {
                        Some(j) => first_from(ctx.corpus.files@, crate_of(name@), j + 1) is Some,
                        None => false,
                    }) {
                        m.len()
                    } else {
                        0nat
                    };
                    lemma_bumped_add(a0, ambiguous_mentions(ctx.corpus.files@, ctx.text.spec_bytes(), pre), added);
                    assert(out0 + cratecite_edges(
                        ctx.corpus.files@,
                        *ctx.file,
                        ctx.section_doc_id.spec_bytes(),
                        ctx.text.spec_bytes(),
                        nxt,
                    ) =~= mid + mention_edges(
                        ctx.corpus.files@,
                        *ctx.file,
                        ctx.section_doc_id.spec_bytes(),
                        ctx.text.spec_bytes(),
                        name@,
                        m,
                    ));
                }
            } else {
                proof {
                    assert(cratecite_edges(
                        ctx.corpus.files@,
                        *ctx.file,
                        ctx.section_doc_id.spec_bytes(),
                        ctx.text.spec_bytes(),
                        nxt,
                    ) =~= cratecite_edges(
                        ctx.corpus.files@,
                        *ctx.file,
                        ctx.section_doc_id.spec_bytes(),
                        ctx.text.spec_bytes(),
                        pre,
                    ));
                }
            }
            k += 1;
        }
        proof {
            assert(q.subrange(0, names@.len() as int) =~= q);
        }
    }

    pub fn counters(&self) -> (r: DetectorCounters)
        ensures
            r == (DetectorCounters { unresolved: 0, ambiguous: self.ambiguous_count(), capped: 0 }),
    {
        DetectorCounters { unresolved: 0, ambiguous: self.ambiguous, capped: 0 }
    }
}

/// Counting in two stretches is counting once.
pub proof fn lemma_bumped_add(c: u64, a: nat, b: nat)
    ensures
        bumped(bumped(c, a), b) == bumped(c, a + b),
    decreases b,
{
    if b > 0 {
        lemma_bumped_add(c, a, (b - 1) as nat);
        assert((a + b - 1) as nat == a + (b - 1) as nat);
    }
}

} // verus!
