//! pathcite@1 — a file path mentioned in prose ("see `src/index.rs:123`")
//! that resolves to a corpus file.
//!
//! Tokens are the matches of `[A-Za-z0-9_./-]+\.[A-Za-z0-9_]+` (found with
//! the `regex` crate), with any leading `/`, `./`, `../` stripped. Then:
//! 1. an exact path match wins outright;
//! 2. tokens with at least two path segments may match as a path suffix;
//!    several candidates take the smallest path and are counted ambiguous;
//! 3. a bare one-segment name is never suffix-matched: if a corpus file bears
//!    the name, the mention is counted ambiguous and not linked.
//! Multi-segment tokens that match nothing are counted unresolved; bare
//! tokens that match nothing are prose noise and ignored. A file citing
//! itself emits nothing.

use super::corpus::{
    card_edge, edge_views, first_from, line_at, name_of, name_start, rel_is, spec_line_at,
    CorpusFile, CorpusIndex, DetectorCounters, EdgeDraft, EdgeView,
};
use super::section::{bump, bump_exec, bumped, card_draft, SectionCtx};
use crate::bytes::{bytes_eq, bytes_ends_with, ends_with, matches_at, occurs_at, slice_vec};
use vstd::prelude::*;
use vstd::string::StringSliceAdditionalSpecFns;

verus! {

pub const TAG: &'static str = "pathcite@1";

pub const EDGE_TYPE: &'static str = "pathcite";

/// Weight in thousandths.
pub const WEIGHT: u32 = 600;

/// Confidence in thousandths.
pub const CONFIDENCE: u32 = 700;

/// Byte spans of the path-token matches in a text.
pub uninterp spec fn path_token_spans(text: Seq<char>) -> Seq<(usize, usize)>;

/// `regex::Regex::find_iter` with the path-token pattern: the byte spans
/// `(start, end)` of the successive matches, in order. Named, not stated:
/// the contract claims only that the spans are a function of the text.
#[verifier::external_body]
fn path_token_matches(text: &str) -> (r: Vec<(usize, usize)>)
    ensures
        r@ == path_token_spans(text@),
{
    let re = regex::Regex::new(r"[A-Za-z0-9_./\-]+\.[A-Za-z0-9_]+").unwrap();
    re.find_iter(text).map(|m| (m.start(), m.end())).collect()
}

/// Skip repetitions of `pat` from `k`.
pub open spec fn skip_run(t: Seq<u8>, k: int, pat: Seq<u8>) -> int
    decreases t.len() - k,
{
    if 0 <= k && pat.len() > 0 && occurs_at(t, pat, k) {
        skip_run(t, k + pat.len(), pat)
    } else {
        k
    }
}

pub proof fn lemma_skip_run(t: Seq<u8>, k: int, pat: Seq<u8>)
    requires
        0 <= k <= t.len(),
    ensures
        k <= skip_run(t, k, pat) <= t.len(),
    decreases t.len() - k,
{
    if 0 <= k && pat.len() > 0 && occurs_at(t, pat, k) {
        lemma_skip_run(t, k + pat.len(), pat);
    }
}

pub open spec fn slash_pat() -> Seq<u8> {
    seq![47u8]
}

pub open spec fn dot_slash() -> Seq<u8> {
    seq![46u8, 47u8]
}

pub open spec fn dotdot_slash() -> Seq<u8> {
    seq![46u8, 46u8, 47u8]
}

/// One stripping round: all leading `/`, then `./`, then `../`.
pub open spec fn strip_round(t: Seq<u8>, k: int) -> int {
    skip_run(t, skip_run(t, skip_run(t, k, slash_pat()), dot_slash()), dotdot_slash())
}

pub proof fn lemma_strip_round(t: Seq<u8>, k: int)
    requires
        0 <= k <= t.len(),
    ensures
        k <= strip_round(t, k) <= t.len(),
{
    lemma_skip_run(t, k, slash_pat());
    let a = skip_run(t, k, slash_pat());
    lemma_skip_run(t, a, dot_slash());
    let b = skip_run(t, a, dot_slash());
    lemma_skip_run(t, b, dotdot_slash());
}

/// Where a token starts once rounds stop removing anything.
pub open spec fn lead(t: Seq<u8>, k: int) -> int
    decreases t.len() - k,
{
    if 0 <= k <= t.len() && strip_round(t, k) != k {
        proof {
            lemma_strip_round(t, k);
        }
        lead(t, strip_round(t, k))
    } else {
        k
    }
}

pub proof fn lemma_lead(t: Seq<u8>, k: int)
    requires
        0 <= k <= t.len(),
    ensures
        k <= lead(t, k) <= t.len(),
    decreases t.len() - k,
{
    lemma_strip_round(t, k);
    if strip_round(t, k) != k {
        lemma_lead(t, strip_round(t, k));
    }
}

fn skip_run_exec(t: &[u8], k: usize, pat: &[u8]) -> (r: usize)
    requires
        k <= t@.len(),
    ensures
        r == skip_run(t@, k as int, pat@),
        k <= r <= t@.len(),
{
    let mut i = k;
    let n = t.len();
    proof {
        lemma_skip_run(t@, k as int, pat@);
    }
    while pat.len() > 0 && matches_at(t, pat, i)
        invariant
            k <= i <= t@.len(),
            n == t@.len(),
            skip_run(t@, k as int, pat@) == skip_run(t@, i as int, pat@),
        decreases t@.len() - i,
    {
        proof {
            lemma_skip_run(t@, i + pat@.len(), pat@);
        }
        i = i + pat.len();
    }
    i
}

fn lead_exec(t: &[u8]) -> (r: usize)
    ensures
        r == lead(t@, 0),
        r <= t@.len(),
{
    let sl: [u8; 1] = [47u8];
    let ds: [u8; 2] = [46u8, 47u8];
    let dds: [u8; 3] = [46u8, 46u8, 47u8];
    proof {
        assert(sl@ =~= slash_pat());
        assert(ds@ =~= dot_slash());
        assert(dds@ =~= dotdot_slash());
        lemma_lead(t@, 0);
    }
    let mut k: usize = 0;
    loop
        invariant
            k <= t@.len(),
            sl@ == slash_pat(),
            ds@ == dot_slash(),
            dds@ == dotdot_slash(),
            lead(t@, 0) == lead(t@, k as int),
        decreases t@.len() - k,
    {
        let a = skip_run_exec(t, k, &sl);
        let b = skip_run_exec(t, a, &ds);
        let c = skip_run_exec(t, b, &dds);
        if c == k {
            return k;
        }
        k = c;
    }
}

/// Number of non-empty `/`-separated segments.
pub open spec fn segments(t: Seq<u8>) -> nat
    decreases t.len(),
{
    if t.len() == 0 {
        0
    } else {
        segments(t.drop_last()) + if t.last() != 47u8 && (t.len() == 1 || t[t.len() - 2]
            == 47u8) {
            1nat
        } else {
            0nat
        }
    }
}

fn segments_exec(t: &[u8]) -> (r: u64)
    ensures
        r == segments(t@) || (r == 2 && segments(t@) >= 2),
{
    let mut n: u64 = 0;
    let mut i: usize = 0;
    while i < t.len()
        invariant
            i <= t@.len(),
            n <= 2,
            n == segments(t@.subrange(0, i as int)) || (n == 2 && segments(
                t@.subrange(0, i as int),
            ) >= 2),
        decreases t@.len() - i,
    {
        proof {
            assert(t@.subrange(0, i + 1).drop_last() =~= t@.subrange(0, i as int));
        }
        if t[i] != 47u8 && (i == 0 || t[i - 1] == 47u8) && n < 2 {
            n += 1;
        }
        i += 1;
    }
    proof {
        assert(t@.subrange(0, t@.len() as int) =~= t@);
    }
    n
}

/// How a path token resolved.
#[derive(Debug, Clone, Copy, PartialEq, Eq)]
pub enum PathResolved {
    Hit(usize),
    /// Several suffix matches; the smallest path was taken.
    Ambiguous(usize),
    /// A multi-segment token naming no corpus file: a dangling citation.
    Miss,
    /// A bare file name that some corpus file bears: refused.
    BareRefused,
    /// Not a citation at all.
    Noise,
}

/// Files whose name is `name`.
pub open spec fn named_is(name: Seq<u8>) -> spec_fn(CorpusFile) -> bool {
    |f: CorpusFile| name_of(f.rel@) == name
}

/// Files the multi-segment token `tok` cites as a path suffix.
pub open spec fn cites(tok: Seq<u8>) -> spec_fn(CorpusFile) -> bool {
    |f: CorpusFile| name_of(f.rel@) == name_of(tok) && ends_with(f.rel@, slash_pat() + tok)
}

pub open spec fn path_resolve(fs: Seq<CorpusFile>, tok: Seq<u8>) -> PathResolved {
    match first_from(fs, rel_is(tok), 0) {
        Some(k) => PathResolved::Hit(k as usize),
        None => if segments(tok) >= 2 {
            match first_from(fs, cites(tok), 0) {
                Some(k) => if first_from(fs, cites(tok), k + 1) is Some {
                    PathResolved::Ambiguous(k as usize)
                } else {
                    PathResolved::Hit(k as usize)
                },
                None => PathResolved::Miss,
            }
        } else if first_from(fs, named_is(name_of(tok)), 0) is Some {
            PathResolved::BareRefused
        } else {
            PathResolved::Noise
        },
    }
}

pub fn name_of_exec(rel: &[u8]) -> (r: Vec<u8>)
    ensures
        r@ == name_of(rel@),
{
    let ns = name_start(rel);
    slice_vec(rel, ns, rel.len())
}

fn find_cites(fs: &Vec<CorpusFile>, tok: &[u8], from: usize) -> (r: Option<usize>)
    requires
        from <= fs@.len(),
    ensures
        match r {
            Some(i) => first_from(fs@, cites(tok@), from as int) == Some(i as int) && i < fs@.len(),
            None => first_from(fs@, cites(tok@), from as int) is None,
        },
{
    let name = name_of_exec(tok);
    let mut suffix: Vec<u8> = Vec::new();
    suffix.push(47u8);
    crate::bytes::push_all(&mut suffix, tok);
    proof {
        assert(suffix@ =~= slash_pat() + tok@);
    }
    let mut i = from;
    while i < fs.len()
        invariant
            from <= i <= fs@.len(),
            name@ == name_of(tok@),
            suffix@ == slash_pat() + tok@,
            first_from(fs@, cites(tok@), from as int) == first_from(fs@, cites(tok@), i as int),
        decreases fs@.len() - i,
    {
        let fname = name_of_exec(fs[i].rel.as_slice());
        if bytes_eq(fname.as_slice(), name.as_slice()) && bytes_ends_with(
            fs[i].rel.as_slice(),
            suffix.as_slice(),
        ) {
            return Some(i);
        }
        i += 1;
    }
    None
}

fn any_named(fs: &Vec<CorpusFile>, name: &[u8]) -> (r: bool)
    ensures
        r == first_from(fs@, named_is(name@), 0) is Some,
{
    let mut i: usize = 0;
    while i < fs.len()
        invariant
            i <= fs@.len(),
            first_from(fs@, named_is(name@), 0) == first_from(fs@, named_is(name@), i as int),
        decreases fs@.len() - i,
    {
        let fname = name_of_exec(fs[i].rel.as_slice());
        if bytes_eq(fname.as_slice(), name) {
            return true;
        }
        i += 1;
    }
    false
}

pub open spec fn path_index(r: PathResolved) -> int {
    match r {
        PathResolved::Hit(k) => k as int,
        PathResolved::Ambiguous(k) => k as int,
        _ => -1,
    }
}

/// Resolve a stripped path token against the corpus table.
pub fn resolve(corpus: &CorpusIndex, tok: &[u8]) -> (r: PathResolved)
    ensures
        r == path_resolve(corpus.files@, tok@),
        path_index(r) >= 0 ==> path_index(r) < corpus.files@.len(),
{
    let fs = &corpus.files;
    let nf = fs.len();
    if let Some(k) = corpus.find_rel(tok) {
        return PathResolved::Hit(k);
    }
    if segments_exec(tok) >= 2 {
        match find_cites(fs, tok, 0) {
            Some(k) => if find_cites(fs, tok, k + 1).is_some() {
                PathResolved::Ambiguous(k)
            } else {
                PathResolved::Hit(k)
            },
            None => PathResolved::Miss,
        }
    } else {
        let name = name_of_exec(tok);
        if any_named(fs, name.as_slice()) {
            PathResolved::BareRefused
        } else {
            PathResolved::Noise
        }
    }
}

/// The citations carried by the first spans: (match start, token offset,
/// stripped token). Spans outside the text and tokens stripped to nothing
/// carry none.
pub open spec fn path_items(t: Seq<u8>, spans: Seq<(usize, usize)>) -> Seq<(int, int, Seq<u8>)>
    decreases spans.len(),
{
    if spans.len() == 0 {
        Seq::empty()
    } else {
        let rest = path_items(t, spans.drop_last());
        let s = spans.last().0 as int;
        let e = spans.last().1 as int;
        if s <= e && e <= t.len() {
            let raw = t.subrange(s, e);
            let k = lead(raw, 0);
            if k < raw.len() {
                rest.push((s, s + k, raw.subrange(k, raw.len() as int)))
            } else {
                rest
            }
        } else {
            rest
        }
    }
}

/// The edges of the first citations, in order.
pub open spec fn pathcite_edges(
    fs: Seq<CorpusFile>,
    file: CorpusFile,
    src: Seq<u8>,
    t: Seq<u8>,
    items: Seq<(int, int, Seq<u8>)>,
) -> Seq<EdgeView>
    decreases items.len(),
{
    if items.len() == 0 {
        Seq::empty()
    } else {
        let rest = pathcite_edges(fs, file, src, t, items.drop_last());
        let it = items.last();
        let r = path_resolve(fs, it.2);
        if path_index(r) >= 0 && fs[path_index(r)].rel@ != file.rel@ {
            rest.push(
                card_edge(
                    src,
                    fs[path_index(r)],
                    EDGE_TYPE@,
                    WEIGHT,
                    CONFIDENCE,
                    file,
                    spec_line_at(t, it.0),
                    it.1,
                ),
            )
        } else {
            rest
        }
    }
}

/// Dangling citations (`ambiguous == false`) or refused and ambiguous ones.
pub open spec fn count_paths(fs: Seq<CorpusFile>, items: Seq<(int, int, Seq<u8>)>, ambiguous: bool) -> nat
    decreases items.len(),
{
    if items.len() == 0 {
        0
    } else {
        let r = path_resolve(fs, items.last().2);
        count_paths(fs, items.drop_last(), ambiguous) + if (!ambiguous && r == PathResolved::Miss)
            || (ambiguous && (r is Ambiguous || r == PathResolved::BareRefused)) {
            1nat
        } else {
            0nat
        }
    }
}

/// The path-citation detector; it counts dangling and refused citations.
pub struct Pathcite {
    unresolved: u64,
    ambiguous: u64,
}

impl Pathcite {
    pub closed spec fn unresolved_count(&self) -> u64 {
        self.unresolved
    }

    pub closed spec fn ambiguous_count(&self) -> u64 {
        self.ambiguous
    }

    pub fn new() -> (r: Pathcite)
        ensures
            r.unresolved_count() == 0,
            r.ambiguous_count() == 0,
    {
        Pathcite { unresolved: 0, ambiguous: 0 }
    }

    pub fn tag(&self) -> (r: &'static str)
        ensures
            r@ == TAG@,
    {
        TAG
    }

    /// Scan the section for path tokens and link what resolves.
    pub fn detect_text(&mut self, ctx: &SectionCtx, out: &mut Vec<EdgeDraft>)
        ensures
            edge_views(final(out)@) == edge_views(old(out)@) + pathcite_edges(
                ctx.corpus.files@,
                *ctx.file,
                ctx.section_doc_id.spec_bytes(),
                ctx.text.spec_bytes(),
                path_items(ctx.text.spec_bytes(), path_token_spans(ctx.text@)),
            ),
            final(self).unresolved_count() == bumped(
                old(self).unresolved_count(),
                count_paths(
                    ctx.corpus.files@,
                    path_items(ctx.text.spec_bytes(), path_token_spans(ctx.text@)),
                    false,
                ),
            ),
            final(self).ambiguous_count() == bumped(
                old(self).ambiguous_count(),
                count_paths(
                    ctx.corpus.files@,
                    path_items(ctx.text.spec_bytes(), path_token_spans(ctx.text@)),
                    true,
                ),
            ),
    {
        let spans = path_token_matches(ctx.text);
        self.detect_spans(ctx, spans.as_slice(), out);
    }

    /// Resolve the given token spans of the section (the matches of the
    /// path-token pattern) and link what resolves.
    pub fn detect_spans(&mut self, ctx: &SectionCtx, spans: &[(usize, usize)], out: &mut Vec<EdgeDraft>)
        ensures
            edge_views(final(out)@) == edge_views(old(out)@) + pathcite_edges(
                ctx.corpus.files@,
                *ctx.file,
                ctx.section_doc_id.spec_bytes(),
                ctx.text.spec_bytes(),
                path_items(ctx.text.spec_bytes(), spans@),
            ),
            final(self).unresolved_count() == bumped(
                old(self).unresolved_count(),
                count_paths(ctx.corpus.files@, path_items(ctx.text.spec_bytes(), spans@), false),
            ),
            final(self).ambiguous_count() == bumped(
                old(self).ambiguous_count(),
                count_paths(ctx.corpus.files@, path_items(ctx.text.spec_bytes(), spans@), true),
            ),
    {
        let t = ctx.text.as_bytes();
        let n = t.len();
        let src = ctx.section_doc_id.as_bytes();
        let ghost fs = ctx.corpus.files@;
        let ghost file = *ctx.file;
        let ghost out0 = edge_views(out@);
        let ghost u0 = self.unresolved;
        let ghost a0 = self.ambiguous;
        let mut j: usize = 0;
        while j < spans.len()
            invariant
                j <= spans@.len(),
                n == t@.len(),
                fs == ctx.corpus.files@,
                file == *ctx.file,
                edge_views(out@) == out0 + pathcite_edges(
                    fs,
                    file,
                    src@,
                    t@,
                    path_items(t@, spans@.subrange(0, j as int)),
                ),
                self.unresolved == bumped(
                    u0,
                    count_paths(fs, path_items(t@, spans@.subrange(0, j as int)), false),
                ),
                self.ambiguous == bumped(
                    a0,
                    count_paths(fs, path_items(t@, spans@.subrange(0, j as int)), true),
                ),
            decreases spans@.len() - j,
        {
            let (s, e) = spans[j];
            let ghost pre = spans@.subrange(0, j as int);
            let ghost nxt = spans@.subrange(0, j + 1);
            proof {
                assert(nxt.drop_last() =~= pre);
                assert(nxt.last() == spans@[j as int]);
            }
            if s <= e && e <= n {
                let raw = slice_vec(t, s, e);
                let k = lead_exec(raw.as_slice());
                if k < raw.len() {
                    let tok = slice_vec(raw.as_slice(), k, raw.len());
                    let ghost items = path_items(t@, nxt);
                    proof {
                        assert(items.drop_last() == path_items(t@, pre));
                        assert(items.last() == (s as int, s + k, tok@));
                    }
                    let r = resolve(ctx.corpus, tok.as_slice());
                    let hit = match r {
                        PathResolved::Hit(i) => Some(i),
                        PathResolved::Ambiguous(i) => {
                            self.ambiguous = bump_exec(self.ambiguous);
                            Some(i)
                        },
                        PathResolved::Miss => {
                            self.unresolved = bump_exec(self.unresolved);
                            None
                        },
                        PathResolved::BareRefused => {
                            self.ambiguous = bump_exec(self.ambiguous);
                            None
                        },
                        PathResolved::Noise => None,
                    };
                    if let Some(i) = hit {
                        let target = &ctx.corpus.files[i];
                        if !bytes_eq(target.rel.as_slice(), ctx.file.rel.as_slice()) {
                            let q = line_at(t, s);
                            let e = card_draft(
                                src,
                                target,
                                EDGE_TYPE,
                                WEIGHT,
                                CONFIDENCE,
                                ctx.file,
                                q,
                                (s + k) as u64,
                            );
                            let ghost before = edge_views(out@);
                            out.push(e);
                            proof {
                                assert(edge_views(out@) =~= before.push(e@));
                            }
                        }
                    }
                }
            }
            j += 1;
        }
        proof {
            assert(spans@.subrange(0, spans@.len() as int) =~= spans@);
        }
    }

    pub fn counters(&self) -> (r: DetectorCounters)
        ensures
            r == (DetectorCounters {
                unresolved: self.unresolved_count(),
                ambiguous: self.ambiguous_count(),
                capped: 0,
            }),
    {
        DetectorCounters { unresolved: self.unresolved, ambiguous: self.ambiguous, capped: 0 }
    }
}

} // verus!
