//! The corpus table every detector resolves against, the edge record they
//! emit, and the resolution rules they share.

use crate::bytes::{
    find_byte, lemma_next_byte, next_byte, vviews, after_prev_byte as line_start_of,
    after_prev_byte, bytes_eq, bytes_lt, lemma_lex_total, lemma_prev_byte, lex_lt, lower_bytes, prev_byte,
    push_all, slice_vec, to_lower_bytes, lemma_lex_trans, lemma_lex_asym, lemma_lex_irreflexive,
};
use vstd::prelude::*;
use vstd::string::StringSliceAdditionalSpecFns;

verus! {

pub open spec fn slash() -> u8 {
    47u8
}

pub open spec fn dot() -> u8 {
    46u8
}

/// Index of the last `/` in a root-relative path, or -1.
pub open spec fn last_slash(rel: Seq<u8>) -> int {
    prev_byte(rel, slash(), rel.len() as int)
}

/// The directory part (`""` for files directly under the root).
pub open spec fn dir_of(rel: Seq<u8>) -> Seq<u8> {
    let ls = last_slash(rel);
    if ls >= 0 {
        rel.subrange(0, ls)
    } else {
        Seq::empty()
    }
}

/// The file name.
pub open spec fn name_of(rel: Seq<u8>) -> Seq<u8> {
    rel.subrange(last_slash(rel) + 1, rel.len() as int)
}

/// Index of the extension dot in a file name; a leading dot does not count.
pub open spec fn ext_dot(name: Seq<u8>) -> int {
    prev_byte(name, dot(), name.len() as int)
}

pub open spec fn has_ext(name: Seq<u8>) -> bool {
    ext_dot(name) > 0
}

/// The file name without its extension.
pub open spec fn stem_of(name: Seq<u8>) -> Seq<u8> {
    if has_ext(name) {
        name.subrange(0, ext_dot(name))
    } else {
        name
    }
}

/// The extension without its dot (`""` when there is none).
pub open spec fn ext_of(name: Seq<u8>) -> Seq<u8> {
    if has_ext(name) {
        name.subrange(ext_dot(name) + 1, name.len() as int)
    } else {
        Seq::empty()
    }
}

/// The whole path minus the file's extension: `notes/beta.md` → `notes/beta`.
pub open spec fn rel_without_ext(rel: Seq<u8>) -> Seq<u8> {
    let name = name_of(rel);
    if has_ext(name) {
        rel.subrange(0, last_slash(rel) + 1 + ext_dot(name))
    } else {
        rel
    }
}

/// Start of the file name inside a path.
pub fn name_start(rel: &[u8]) -> (r: usize)
    ensures
        r == last_slash(rel@) + 1,
        r <= rel@.len(),
{
    proof {
        lemma_prev_byte(rel@, 47u8, rel@.len() as int);
    }
    after_prev_byte(rel, 47u8, rel.len())
}

/// Index just past the extension dot of a file name (0 or 1 when it has none).
fn ext_start(name: &[u8]) -> (r: usize)
    ensures
        r == ext_dot(name@) + 1,
        r <= name@.len(),
{
    proof {
        lemma_prev_byte(name@, 46u8, name@.len() as int);
    }
    after_prev_byte(name, 46u8, name.len())
}

pub fn rel_without_ext_exec(rel: &[u8]) -> (r: Vec<u8>)
    ensures
        r@ == rel_without_ext(rel@),
{
    let ns = name_start(rel);
    let name = slice_vec(rel, ns, rel.len());
    let d1 = ext_start(name.as_slice());
    proof {
        assert(name@ == name_of(rel@));
    }
    if d1 > 1 {
        slice_vec(rel, 0, ns + d1 - 1)
    } else {
        let r = slice_vec(rel, 0, rel.len());
        proof {
            assert(r@ =~= rel@);
        }
        r
    }
}

/// The lowercased file stem, the key names are looked up by.
pub open spec fn lower_stem(rel: Seq<u8>) -> Seq<u8> {
    lower_bytes(stem_of(name_of(rel)))
}

pub fn lower_stem_exec(rel: &[u8]) -> (r: Vec<u8>)
    ensures
        r@ == lower_stem(rel@),
{
    let ns = name_start(rel);
    let name = slice_vec(rel, ns, rel.len());
    let d1 = ext_start(name.as_slice());
    proof {
        assert(name@ == name_of(rel@));
    }
    if d1 > 1 {
        let st = slice_vec(name.as_slice(), 0, d1 - 1);
        to_lower_bytes(st.as_slice())
    } else {
        to_lower_bytes(name.as_slice())
    }
}

/// Deterministic document id: `dataset:key:locator`.
pub open spec fn spec_doc_id(dataset: Seq<u8>, key: Seq<u8>, locator: Seq<u8>) -> Seq<u8> {
    dataset + seq![58u8] + key + seq![58u8] + locator
}

/// Locator of a file's card node, where citations of the file land.
pub open spec fn card_locator() -> Seq<u8> {
    seq![102u8, 105u8, 108u8, 101u8]
}

pub fn doc_id(dataset: &[u8], key: &[u8], locator: &[u8]) -> (r: Vec<u8>)
    ensures
        r@ == spec_doc_id(dataset@, key@, locator@),
{
    let mut out: Vec<u8> = Vec::new();
    push_all(&mut out, dataset);
    out.push(58u8);
    push_all(&mut out, key);
    out.push(58u8);
    push_all(&mut out, locator);
    proof {
        assert(out@ =~= spec_doc_id(dataset@, key@, locator@));
    }
    out
}

/// One indexed file as the detectors see it.
#[derive(Debug)]
pub struct CorpusFile {
    /// Root-relative path with forward slashes.
    pub rel: Vec<u8>,
    /// Directory part of `rel`.
    pub dir: Vec<u8>,
    /// Content key of the file.
    pub key: Vec<u8>,
    /// Dataset the file's records went to.
    pub dataset: Vec<u8>,
    /// Sniffed family name (`Family::as_str`).
    pub family: Vec<u8>,
    /// Lowercased extension, the file's format label.
    pub format: Vec<u8>,
    pub mtime_ms: i64,
    /// Id of the file's card node.
    pub anchor_doc_id: Vec<u8>,
}

impl CorpusFile {
    pub open spec fn wf(&self) -> bool {
        &&& self.dir@ == dir_of(self.rel@)
        &&& self.format@ == lower_bytes(ext_of(name_of(self.rel@)))
        &&& self.anchor_doc_id@ == spec_doc_id(self.dataset@, self.key@, card_locator())
    }

    pub fn new(rel: &str, key: &str, dataset: &str, family: &str, mtime_ms: i64) -> (r: CorpusFile)
        ensures
            r.wf(),
            r.rel@ == rel.spec_bytes(),
            r.key@ == key.spec_bytes(),
            r.dataset@ == dataset.spec_bytes(),
            r.family@ == family.spec_bytes(),
            r.mtime_ms == mtime_ms,
    {
        let rb = rel.as_bytes();
        let kb = key.as_bytes();
        let db = dataset.as_bytes();
        let fb = family.as_bytes();
        let ls1 = after_prev_byte(rb, 47u8, rb.len());
        proof {
            lemma_prev_byte(rb@, 47u8, rb@.len() as int);
        }
        let dir = if ls1 > 0 {
            slice_vec(rb, 0, ls1 - 1)
        } else {
            Vec::new()
        };
        proof {
            assert(dir@ =~= dir_of(rb@));
        }
        let name = slice_vec(rb, ls1, rb.len());
        let d1 = after_prev_byte(name.as_slice(), 46u8, name.len());
        proof {
            lemma_prev_byte(name@, 46u8, name@.len() as int);
        }
        let ext = if d1 > 1 {
            slice_vec(name.as_slice(), d1, name.len())
        } else {
            Vec::new()
        };
        proof {
            assert(ext@ =~= ext_of(name_of(rb@)));
        }
        let format = to_lower_bytes(ext.as_slice());
        let card: [u8; 4] = [102u8, 105u8, 108u8, 101u8];
        let anchor = doc_id(db, kb, &card);
        proof {
            assert(card@ =~= card_locator());
        }
        let relv = slice_vec(rb, 0, rb.len());
        let keyv = slice_vec(kb, 0, kb.len());
        let datav = slice_vec(db, 0, db.len());
        let famv = slice_vec(fb, 0, fb.len());
        proof {
            assert(relv@ =~= rb@);
            assert(keyv@ =~= kb@);
            assert(datav@ =~= db@);
            assert(famv@ =~= fb@);
        }
        CorpusFile {
            rel: relv,
            dir,
            key: keyv,
            dataset: datav,
            family: famv,
            format,
            mtime_ms,
            anchor_doc_id: anchor,
        }
    }
}


/// Copy of a byte vector.
pub fn copy_bytes(v: &Vec<u8>) -> (r: Vec<u8>)
    ensures
        r@ == v@,
{
    let r = slice_vec(v.as_slice(), 0, v.len());
    proof {
        assert(r@ =~= v@);
    }
    r
}

/// A candidate edge, before the pipeline turns it into an edge document.
/// Weights and confidences are in thousandths.
#[derive(Debug)]
pub struct EdgeDraft {
    pub src: Vec<u8>,
    pub dst: Vec<u8>,
    pub edge_type: &'static str,
    pub weight: u32,
    pub confidence: u32,
    pub valid_at_ms: i64,
    pub src_file: Vec<u8>,
    pub quote: Vec<u8>,
    pub offset: u64,
    pub src_format: Vec<u8>,
    pub dst_format: Vec<u8>,
}

/// The mathematical content of an edge.
pub struct EdgeView {
    pub src: Seq<u8>,
    pub dst: Seq<u8>,
    pub edge_type: Seq<char>,
    pub weight: u32,
    pub confidence: u32,
    pub valid_at_ms: i64,
    pub src_file: Seq<u8>,
    pub quote: Seq<u8>,
    pub offset: int,
    pub src_format: Seq<u8>,
    pub dst_format: Seq<u8>,
}

impl View for EdgeDraft {
    type V = EdgeView;

    open spec fn view(&self) -> EdgeView {
        EdgeView {
            src: self.src@,
            dst: self.dst@,
            edge_type: self.edge_type@,
            weight: self.weight,
            confidence: self.confidence,
            valid_at_ms: self.valid_at_ms,
            src_file: self.src_file@,
            quote: self.quote@,
            offset: self.offset as int,
            src_format: self.src_format@,
            dst_format: self.dst_format@,
        }
    }
}

pub open spec fn edge_views(v: Seq<EdgeDraft>) -> Seq<EdgeView> {
    v.map_values(|e: EdgeDraft| e@)
}

/// An edge from `src` to the card of `target`, found in `file`.
pub open spec fn card_edge(
    src: Seq<u8>,
    target: CorpusFile,
    edge_type: Seq<char>,
    weight: u32,
    confidence: u32,
    file: CorpusFile,
    quote: Seq<u8>,
    offset: int,
) -> EdgeView {
    EdgeView {
        src,
        dst: target.anchor_doc_id@,
        edge_type,
        weight,
        confidence,
        valid_at_ms: file.mtime_ms,
        src_file: file.rel@,
        quote,
        offset,
        src_format: file.format@,
        dst_format: target.format@,
    }
}

/// Counts a detector reports next to its edges.
#[derive(Debug, Clone, Copy, Default, PartialEq, Eq)]
pub struct DetectorCounters {
    /// Targets that resolve to nothing in the corpus.
    pub unresolved: u64,
    /// Targets that matched several files (the smallest path was used or the mention refused).
    pub ambiguous: u64,
    /// Candidates a budget refused.
    pub capped: u64,
}

pub open spec fn rels(fs: Seq<CorpusFile>) -> Seq<Seq<u8>> {
    fs.map_values(|f: CorpusFile| f.rel@)
}

/// The corpus table: every indexed file, strictly ordered by path.
#[derive(Debug)]
pub struct CorpusIndex {
    pub files: Vec<CorpusFile>,
}

/// First file at or after `i` satisfying `p`.
pub open spec fn first_from(fs: Seq<CorpusFile>, p: spec_fn(CorpusFile) -> bool, i: int) -> Option<
    int,
>
    decreases fs.len() - i,
{
    if i < 0 || i >= fs.len() {
        None
    } else if p(fs[i]) {
        Some(i)
    } else {
        first_from(fs, p, i + 1)
    }
}

pub proof fn lemma_first_from(fs: Seq<CorpusFile>, p: spec_fn(CorpusFile) -> bool, i: int)
    requires
        0 <= i,
    ensures
        match first_from(fs, p, i) {
            Some(k) => i <= k < fs.len() && p(fs[k]) && forall|j: int| i <= j < k ==> !p(#[trigger] fs[j]),
            None => forall|j: int| i <= j < fs.len() ==> !p(#[trigger] fs[j]),
        },
    decreases fs.len() - i,
{
    if i < fs.len() && !p(fs[i]) {
        lemma_first_from(fs, p, i + 1);
    }
}

pub open spec fn rel_is(t: Seq<u8>) -> spec_fn(CorpusFile) -> bool {
    |f: CorpusFile| f.rel@ == t
}

pub open spec fn sorted_rels(fs: Seq<CorpusFile>) -> bool {
    forall|i: int, j: int| 0 <= i < j < fs.len() ==> lex_lt(#[trigger] fs[i].rel@, #[trigger] fs[j].rel@)
}

/// The path table built by inserting the first `n` files in order.
pub open spec fn inserted(input: Seq<CorpusFile>, n: int) -> Map<Seq<u8>, CorpusFile>
    decreases n,
{
    if n <= 0 {
        Map::empty()
    } else {
        inserted(input, n - 1).insert(input[n - 1].rel@, input[n - 1])
    }
}

/// `fs` lists exactly the entries of `m`.
pub open spec fn table_is(fs: Seq<CorpusFile>, m: Map<Seq<u8>, CorpusFile>) -> bool {
    &&& forall|i: int| 0 <= i < fs.len() ==> m.contains_key(#[trigger] fs[i].rel@) && m[fs[i].rel@] == fs[i]
    &&& forall|r: Seq<u8>| m.contains_key(r) ==> exists|i: int| 0 <= i < fs.len() && (#[trigger] fs[i]).rel@ == r
}

/// Insert `f` at its place in a path-sorted list, replacing a file with the same path.
fn upsert(out: &mut Vec<CorpusFile>, f: CorpusFile, Ghost(m): Ghost<Map<Seq<u8>, CorpusFile>>)
    requires
        sorted_rels(old(out)@),
        table_is(old(out)@, m),
    ensures
        sorted_rels(final(out)@),
        table_is(final(out)@, m.insert(f.rel@, f)),
{
    let ghost fr = f.rel@;
    let ghost old_out = out@;
    let mut i: usize = 0;
    while i < out.len() && bytes_lt(out[i].rel.as_slice(), f.rel.as_slice())
        invariant
            i <= out@.len(),
            out@ == old_out,
            forall|j: int| 0 <= j < i ==> lex_lt(#[trigger] out@[j].rel@, f.rel@),
        decreases out@.len() - i,
    {
        i += 1;
    }
    let ghost m2 = m.insert(fr, f);
    if i < out.len() && bytes_eq(out[i].rel.as_slice(), f.rel.as_slice()) {
        out.set(i, f);
        proof {
            assert forall|a: int, b: int| 0 <= a < b < out@.len() implies lex_lt(
                #[trigger] out@[a].rel@,
                #[trigger] out@[b].rel@,
            ) by {
                assert(old_out[a].rel@ == out@[a].rel@);
                assert(old_out[b].rel@ == out@[b].rel@);
            }
            assert forall|a: int| 0 <= a < out@.len() implies m2.contains_key(#[trigger] out@[a].rel@)
                && m2[out@[a].rel@] == out@[a] by {
                if a != i {
                    if a < i {
                        assert(lex_lt(old_out[a].rel@, old_out[i as int].rel@));
                    } else {
                        assert(lex_lt(old_out[i as int].rel@, old_out[a].rel@));
                    }
                    lemma_lex_irreflexive(fr);
                    assert(out@[a].rel@ != fr);
                }
            }
            assert forall|r: Seq<u8>| m2.contains_key(r) implies exists|a: int|
                0 <= a < out@.len() && (#[trigger] out@[a]).rel@ == r by {
                if r == fr {
                    assert(out@[i as int].rel@ == r);
                } else {
                    let a = choose|a: int| 0 <= a < old_out.len() && (#[trigger] old_out[a]).rel@ == r;
                    assert(out@[a].rel@ == r);
                }
            }
        }
    } else {
        proof {
            if i < out@.len() {
                lemma_lex_total(out@[i as int].rel@, fr);
            }
        }
        out.insert(i, f);
        proof {
            assert(out@ =~= old_out.insert(i as int, f));
            assert forall|a: int, b: int| 0 <= a < b < out@.len() implies lex_lt(
                #[trigger] out@[a].rel@,
                #[trigger] out@[b].rel@,
            ) by {
                if b < i {
                } else if b == i {
                } else if a < i {
                    assert(out@[b] == old_out[b - 1]);
                    if i < old_out.len() {
                        lemma_lex_trans(out@[a].rel@, fr, old_out[i as int].rel@);
                        if b - 1 > i {
                            lemma_lex_trans(out@[a].rel@, old_out[i as int].rel@, old_out[b - 1].rel@);
                        }
                    }
                } else if a == i {
                    assert(out@[b] == old_out[b - 1]);
                    if b - 1 > i {
                        lemma_lex_trans(fr, old_out[i as int].rel@, old_out[b - 1].rel@);
                    }
                } else {
                    assert(out@[a] == old_out[a - 1]);
                    assert(out@[b] == old_out[b - 1]);
                }
            }
            assert forall|a: int| 0 <= a < out@.len() implies m2.contains_key(#[trigger] out@[a].rel@)
                && m2[out@[a].rel@] == out@[a] by {
                if a != i {
                    let oa = if a < i { a } else { a - 1 };
                    assert(out@[a] == old_out[oa]);
                    if oa < i {
                        lemma_lex_asym(old_out[oa].rel@, fr);
                        lemma_lex_irreflexive(fr);
                    } else {
                        if oa > i {
                            lemma_lex_trans(fr, old_out[i as int].rel@, old_out[oa].rel@);
                        }
                        lemma_lex_irreflexive(fr);
                    }
                    assert(out@[a].rel@ != fr);
                }
            }
            assert forall|r: Seq<u8>| m2.contains_key(r) implies exists|a: int|
                0 <= a < out@.len() && (#[trigger] out@[a]).rel@ == r by {
                if r == fr {
                    assert(out@[i as int].rel@ == r);
                } else {
                    let a = choose|a: int| 0 <= a < old_out.len() && (#[trigger] old_out[a]).rel@ == r;
                    if a < i {
                        assert(out@[a].rel@ == r);
                    } else {
                        assert(out@[a + 1].rel@ == r);
                    }
                }
            }
        }
    }
}

impl CorpusIndex {
    pub open spec fn wf(&self) -> bool {
        sorted_rels(self.files@)
    }

    /// Index the given files by path; when two share a path the later one wins
    /// (the table is the map built by inserting the files in order).
    pub fn build(files: Vec<CorpusFile>) -> (r: CorpusIndex)
        ensures
            r.wf(),
            table_is(r.files@, inserted(files@, files@.len() as int)),
    {
        let ghost input = files@;
        let mut rest = files;
        let mut rev: Vec<CorpusFile> = Vec::new();
        while rest.len() > 0
            invariant
                rest@.len() + rev@.len() == input.len(),
                forall|j: int| 0 <= j < rest@.len() ==> rest@[j] == input[j],
                forall|j: int| 0 <= j < rev@.len() ==> rev@[j] == input[input.len() - 1 - j],
            decreases rest@.len(),
        {
            let f = rest.pop().unwrap();
            rev.push(f);
        }
        let mut out: Vec<CorpusFile> = Vec::new();
        proof {
            assert(table_is(out@, inserted(input, 0))) by {
                assert(inserted(input, 0) =~= Map::empty());
            }
        }
        while rev.len() > 0
            invariant
                rev@.len() <= input.len(),
                forall|j: int| 0 <= j < rev@.len() ==> rev@[j] == input[input.len() - 1 - j],
                sorted_rels(out@),
                table_is(out@, inserted(input, input.len() - rev@.len())),
            decreases rev@.len(),
        {
            let ghost t = input.len() - rev@.len();
            let f = rev.pop().unwrap();
            proof {
                assert(f == input[t]);
            }
            upsert(&mut out, f, Ghost(inserted(input, t)));
        }
        CorpusIndex { files: out }
    }

    /// Position of the file with exactly this path.
    pub fn find_rel(&self, t: &[u8]) -> (r: Option<usize>)
        ensures
            match r {
                Some(i) => first_from(self.files@, rel_is(t@), 0) == Some(i as int),
                None => first_from(self.files@, rel_is(t@), 0) is None,
            },
            r matches Some(i) ==> i < self.files@.len(),
    {
        let mut i: usize = 0;
        while i < self.files.len()
            invariant
                i <= self.files@.len(),
                first_from(self.files@, rel_is(t@), 0) == first_from(self.files@, rel_is(t@), i as int),
            decreases self.files@.len() - i,
        {
            if bytes_eq(self.files[i].rel.as_slice(), t) {
                return Some(i);
            }
            i += 1;
        }
        None
    }

    /// The file with exactly this path.
    pub fn get(&self, rel: &str) -> (r: Option<&CorpusFile>)
        ensures
            match r {
                Some(f) => exists|i: int|
                    first_from(self.files@, rel_is(rel.spec_bytes()), 0) == Some(i) && *f
                        == self.files@[i],
                None => first_from(self.files@, rel_is(rel.spec_bytes()), 0) is None,
            },
    {
        match self.find_rel(rel.as_bytes()) {
            Some(i) => {
                proof {
                    lemma_first_from(self.files@, rel_is(rel.spec_bytes()), 0);
                }
                Some(&self.files[i])
            },
            None => None,
        }
    }
}


pub open spec fn newline() -> u8 {
    10u8
}

/// Quotes are clipped to this many characters.
pub const QUOTE_CHARS: usize = 240;

pub open spec fn is_lead(b: u8) -> bool {
    !(128 <= b < 192)
}

/// Byte index where the character past the first 240 starts (or the end).
pub open spec fn clip_point(s: Seq<u8>, i: int, chars: int) -> int
    decreases s.len() - i,
{
    if i < 0 || i >= s.len() {
        s.len() as int
    } else if is_lead(s[i]) {
        if chars >= 240 {
            i
        } else {
            clip_point(s, i + 1, chars + 1)
        }
    } else {
        clip_point(s, i + 1, chars)
    }
}

pub proof fn lemma_clip_point(s: Seq<u8>, i: int, chars: int)
    requires
        0 <= i <= s.len(),
    ensures
        i <= clip_point(s, i, chars) <= s.len(),
    decreases s.len() - i,
{
    if i < s.len() {
        if is_lead(s[i]) {
            if chars < 240 {
                lemma_clip_point(s, i + 1, chars + 1);
            }
        } else {
            lemma_clip_point(s, i + 1, chars);
        }
    }
}

/// A quote clipped to at most 240 characters, on a character boundary.
pub open spec fn clip(s: Seq<u8>) -> Seq<u8> {
    s.subrange(0, clip_point(s, 0, 0))
}

pub fn clip_quote(s: &[u8]) -> (r: Vec<u8>)
    ensures
        r@ == clip(s@),
{
    let mut i: usize = 0;
    let mut chars: usize = 0;
    proof {
        lemma_clip_point(s@, 0, 0);
    }
    while i < s.len() && (chars < 240 || (128 <= s[i] && s[i] < 192))
        invariant
            i <= s@.len(),
            chars <= 240,
            clip_point(s@, 0, 0) == clip_point(s@, i as int, chars as int),
        decreases s@.len() - i,
    {
        let b = s[i];
        if !(128 <= b && b < 192) {
            chars += 1;
        }
        i += 1;
    }
    slice_vec(s, 0, i)
}

/// The (clipped) line of `text` that contains byte `pos`.
pub open spec fn spec_line_at(text: Seq<u8>, pos: int) -> Seq<u8> {
    clip(text.subrange(prev_byte(text, newline(), pos) + 1, next_byte(text, newline(), pos)))
}

pub fn line_at(text: &[u8], pos: usize) -> (r: Vec<u8>)
    requires
        pos <= text@.len(),
    ensures
        r@ == spec_line_at(text@, pos as int),
{
    let a = line_start_of(text, 10u8, pos);
    let b = find_byte(text, 10u8, pos);
    proof {
        lemma_prev_byte(text@, 10u8, pos as int);
        lemma_next_byte(text@, 10u8, pos as int);
    }
    let line = slice_vec(text, a, b);
    clip_quote(line.as_slice())
}

/// How a link target resolved.
#[derive(Debug, Clone, Copy, PartialEq, Eq)]
pub enum LinkTarget {
    /// The corpus file at this position of the table.
    Hit(usize),
    /// A URL with a scheme (`https:`, `mailto:`): not a corpus file, not dangling.
    External,
    /// Nothing to resolve (an empty link, or a fragment/query only).
    Empty,
    /// A local path naming no corpus file: a dangling link.
    Miss,
}

pub open spec fn min(a: int, b: int) -> int {
    if a <= b {
        a
    } else {
        b
    }
}

/// A scheme: a `:` after at least one byte and before any `/`, `?` or `#`.
pub open spec fn has_scheme(u: Seq<u8>) -> bool {
    let c = next_byte(u, 58u8, 0);
    c < u.len() && c > 0 && c < min(next_byte(u, slash(), 0), min(next_byte(u, 63u8, 0), next_byte(u, 35u8, 0)))
}

/// The path part: everything before the first `#` or `?`.
pub open spec fn path_part(u: Seq<u8>) -> Seq<u8> {
    u.subrange(0, min(next_byte(u, 35u8, 0), next_byte(u, 63u8, 0)))
}

pub open spec fn dot_seg() -> Seq<u8> {
    seq![46u8]
}

pub open spec fn dotdot_seg() -> Seq<u8> {
    seq![46u8, 46u8]
}

/// Account for one path segment: empty and `.` vanish, `..` climbs (failing above the root).
pub open spec fn push_seg(acc: Seq<Seq<u8>>, seg: Seq<u8>) -> Option<Seq<Seq<u8>>> {
    if seg.len() == 0 || seg == dot_seg() {
        Some(acc)
    } else if seg == dotdot_seg() {
        if acc.len() == 0 {
            None
        } else {
            Some(acc.drop_last())
        }
    } else {
        Some(acc.push(seg))
    }
}

/// Segments of a normalized path, scanning left to right.
pub open spec fn norm_scan(p: Seq<u8>, i: int, acc: Seq<Seq<u8>>, cur: Seq<u8>) -> Option<Seq<Seq<u8>>>
    decreases p.len() - i,
{
    if i < 0 || i >= p.len() {
        push_seg(acc, cur)
    } else if p[i] == slash() {
        match push_seg(acc, cur) {
            None => None,
            Some(a) => norm_scan(p, i + 1, a, Seq::empty()),
        }
    } else {
        norm_scan(p, i + 1, acc, cur.push(p[i]))
    }
}

pub open spec fn join_segs(segs: Seq<Seq<u8>>) -> Seq<u8>
    decreases segs.len(),
{
    if segs.len() == 0 {
        Seq::empty()
    } else if segs.len() == 1 {
        segs[0]
    } else {
        join_segs(segs.drop_last()) + seq![slash()] + segs.last()
    }
}

/// The normalized form of a relative path, if it stays inside the root.
pub open spec fn normalized(p: Seq<u8>) -> Option<Seq<u8>> {
    match norm_scan(p, 0, Seq::empty(), Seq::empty()) {
        None => None,
        Some(segs) => Some(join_segs(segs)),
    }
}

fn seg_is(seg: &Vec<u8>, lit: &[u8]) -> (r: bool)
    ensures
        r == (seg@ == lit@),
{
    bytes_eq(seg.as_slice(), lit)
}

fn push_seg_exec(acc: &mut Vec<Vec<u8>>, seg: Vec<u8>) -> (ok: bool)
    ensures
        ok == push_seg(vviews(old(acc)@), seg@).is_some(),
        ok ==> push_seg(vviews(old(acc)@), seg@) == Some(vviews(final(acc)@)),
{
    let one: [u8; 1] = [46u8];
    let two: [u8; 2] = [46u8, 46u8];
    proof {
        assert(one@ =~= dot_seg());
        assert(two@ =~= dotdot_seg());
    }
    if seg.len() == 0 || seg_is(&seg, &one) {
        true
    } else if seg_is(&seg, &two) {
        if acc.len() == 0 {
            false
        } else {
            acc.pop();
            proof {
                assert(vviews(acc@) =~= vviews(old(acc)@).drop_last());
            }
            true
        }
    } else {
        acc.push(seg);
        proof {
            assert(vviews(acc@) =~= vviews(old(acc)@).push(acc@.last()@));
        }
        true
    }
}

fn join_exec(segs: &Vec<Vec<u8>>) -> (r: Vec<u8>)
    ensures
        r@ == join_segs(vviews(segs@)),
{
    let mut out: Vec<u8> = Vec::new();
    let mut k: usize = 0;
    while k < segs.len()
        invariant
            k <= segs@.len(),
            out@ == join_segs(vviews(segs@).subrange(0, k as int)),
        decreases segs@.len() - k,
    {
        if k > 0 {
            out.push(47u8);
        }
        push_all(&mut out, segs[k].as_slice());
        proof {
            let pre = vviews(segs@).subrange(0, k as int);
            let nxt = vviews(segs@).subrange(0, k + 1);
            assert(nxt.drop_last() =~= pre);
            if k == 0 {
                assert(out@ =~= join_segs(nxt));
            } else {
                assert(out@ =~= join_segs(nxt));
            }
        }
        k += 1;
    }
    proof {
        assert(vviews(segs@).subrange(0, segs@.len() as int) =~= vviews(segs@));
    }
    out
}

/// Normalize a relative path (`.`/`..`/empty segments); `None` above the root.
pub fn normalize(p: &[u8]) -> (r: Option<Vec<u8>>)
    ensures
        match (r, normalized(p@)) {
            (Some(v), Some(w)) => v@ == w,
            (None, None) => true,
            _ => false,
        },
{
    let mut acc: Vec<Vec<u8>> = Vec::new();
    let mut cur: Vec<u8> = Vec::new();
    let mut i: usize = 0;
    proof {
        assert(vviews(acc@) =~= Seq::<Seq<u8>>::empty());
        assert(cur@ =~= Seq::<u8>::empty());
    }
    while i < p.len()
        invariant
            i <= p@.len(),
            norm_scan(p@, 0, Seq::empty(), Seq::empty()) == norm_scan(p@, i as int, vviews(acc@), cur@),
        decreases p@.len() - i,
    {
        if p[i] == 47u8 {
            let seg = cur;
            cur = Vec::new();
            let ok = push_seg_exec(&mut acc, seg);
            if !ok {
                return None;
            }
            proof {
                assert(cur@ =~= Seq::<u8>::empty());
            }
        } else {
            cur.push(p[i]);
        }
        i += 1;
    }
    let ok = push_seg_exec(&mut acc, cur);
    if !ok {
        return None;
    }
    Some(join_exec(&acc))
}

/// Resolve a link written in a file under `dir` (dir-relative first, then
/// root-relative; a leading `/` is root-relative only).
pub open spec fn spec_resolve_local(fs: Seq<CorpusFile>, dir: Seq<u8>, url: Seq<u8>) -> LinkTarget {
    if has_scheme(url) {
        LinkTarget::External
    } else if path_part(url).len() == 0 {
        LinkTarget::Empty
    } else {
        let p = path_part(url);
        let joined = if dir.len() > 0 && p[0] != slash() {
            dir + seq![slash()] + p
        } else {
            p
        };
        let first = match normalized(joined) {
            Some(r) => first_from(fs, rel_is(r), 0),
            None => None,
        };
        let second = match normalized(p) {
            Some(r) => first_from(fs, rel_is(r), 0),
            None => None,
        };
        match first {
            Some(i) => LinkTarget::Hit(i as usize),
            None => match second {
                Some(i) => LinkTarget::Hit(i as usize),
                None => LinkTarget::Miss,
            },
        }
    }
}

impl CorpusIndex {
    fn lookup_normalized(&self, p: &[u8]) -> (r: Option<usize>)
        ensures
            r == match normalized(p@) {
                Some(x) => match first_from(self.files@, rel_is(x), 0) {
                    Some(i) => Some(i as usize),
                    None => None,
                },
                None => None,
            },
            r matches Some(i) ==> i < self.files@.len(),
    {
        match normalize(p) {
            None => None,
            Some(v) => self.find_rel(v.as_slice()),
        }
    }

    /// Resolve a link found in a file under `dir`.
    pub fn resolve_local(&self, dir: &[u8], url: &[u8]) -> (r: LinkTarget)
        ensures
            r == spec_resolve_local(self.files@, dir@, url@),
            r matches LinkTarget::Hit(i) ==> i < self.files@.len(),
    {
        let colon = find_byte(url, 58u8, 0);
        let sl = find_byte(url, 47u8, 0);
        let q = find_byte(url, 63u8, 0);
        let h = find_byte(url, 35u8, 0);
        let stop = if sl <= q && sl <= h { sl } else if q <= h { q } else { h };
        if colon < url.len() && colon > 0 && colon < stop {
            return LinkTarget::External;
        }
        let end = if h <= q { h } else { q };
        proof {
            lemma_next_byte(url@, 35u8, 0);
            lemma_next_byte(url@, 63u8, 0);
        }
        if end == 0 {
            return LinkTarget::Empty;
        }
        let p = slice_vec(url, 0, end);
        let mut joined: Vec<u8> = Vec::new();
        if dir.len() > 0 && p[0] != 47u8 {
            push_all(&mut joined, dir);
            joined.push(47u8);
            push_all(&mut joined, p.as_slice());
        } else {
            push_all(&mut joined, p.as_slice());
        }
        proof {
            let pp = path_part(url@);
            assert(p@ == pp);
            if dir@.len() > 0 && pp[0] != slash() {
                assert(joined@ =~= dir@ + seq![slash()] + pp);
            } else {
                assert(joined@ =~= pp);
            }
        }
        match self.lookup_normalized(joined.as_slice()) {
            Some(i) => LinkTarget::Hit(i),
            None => match self.lookup_normalized(p.as_slice()) {
                Some(i) => LinkTarget::Hit(i),
                None => LinkTarget::Miss,
            },
        }
    }
}

} // verus!
