//! HTML: a tolerant tokenizer with no DOM. It collects the title, the
//! h1–h3 headings, the tag-free body and every table (rows of cells, and
//! whether the first row was a header of `<th>` cells), then picks the
//! dominant table (at least five rows, at least two columns, nine in ten
//! rows of the first row's width).
//!
//! Text is UTF-8 throughout; every offset the tokenizer stops at is an
//! ASCII byte, so the pieces it keeps are UTF-8 too.

use crate::bytes::{
    bytes_eq, find_from, first_occurrence, lemma_first_occurrence, lemma_next_byte, lower_bytes,
    matches_at, next_byte, occurs_at, push_all, slice_vec, to_lower_bytes, vviews,
};
use crate::words::{trim_bytes, trim_exec, ws_at, ws_len};
use vstd::prelude::*;
use vstd::string::StringSliceAdditionalSpecFns;

verus! {

// ---- character entities ----

/// Every non-overlapping occurrence of `pat` (scanning left to right)
/// replaced by `rep`: `str::replace`.
pub open spec fn replace_all(s: Seq<u8>, pat: Seq<u8>, rep: Seq<u8>) -> Seq<u8>
    decreases s.len(),
{
    if pat.len() == 0 || s.len() == 0 {
        s
    } else if pat.len() <= s.len() && s.subrange(0, pat.len() as int) == pat {
        rep + replace_all(s.subrange(pat.len() as int, s.len() as int), pat, rep)
    } else {
        seq![s[0]] + replace_all(s.drop_first(), pat, rep)
    }
}

pub open spec fn amp_ent() -> Seq<u8> {
    seq![38u8, 97u8, 109u8, 112u8, 59u8]
}

pub open spec fn lt_ent() -> Seq<u8> {
    seq![38u8, 108u8, 116u8, 59u8]
}

pub open spec fn gt_ent() -> Seq<u8> {
    seq![38u8, 103u8, 116u8, 59u8]
}

pub open spec fn quot_ent() -> Seq<u8> {
    seq![38u8, 113u8, 117u8, 111u8, 116u8, 59u8]
}

pub open spec fn num39_ent() -> Seq<u8> {
    seq![38u8, 35u8, 51u8, 57u8, 59u8]
}

pub open spec fn apos_ent() -> Seq<u8> {
    seq![38u8, 97u8, 112u8, 111u8, 115u8, 59u8]
}

pub open spec fn nbsp_ent() -> Seq<u8> {
    seq![38u8, 110u8, 98u8, 115u8, 112u8, 59u8]
}

/// The seven entities the tokenizer knows, unescaped in this order:
/// `&amp;` `&lt;` `&gt;` `&quot;` `&#39;` `&apos;` `&nbsp;` (the last to a
/// plain space). Each pass works on the output of the one before.
pub open spec fn decode_entities(s: Seq<u8>) -> Seq<u8> {
    let s1 = replace_all(s, amp_ent(), seq![38u8]);
    let s2 = replace_all(s1, lt_ent(), seq![60u8]);
    let s3 = replace_all(s2, gt_ent(), seq![62u8]);
    let s4 = replace_all(s3, quot_ent(), seq![34u8]);
    let s5 = replace_all(s4, num39_ent(), seq![39u8]);
    let s6 = replace_all(s5, apos_ent(), seq![39u8]);
    replace_all(s6, nbsp_ent(), seq![32u8])
}

proof fn lemma_replace_step(s: Seq<u8>, pat: Seq<u8>, rep: Seq<u8>, k: int)
    requires
        pat.len() > 0,
        0 <= k < s.len(),
    ensures
        occurs_at(s, pat, k) ==> replace_all(s.subrange(k, s.len() as int), pat, rep) == rep
            + replace_all(s.subrange(k + pat.len(), s.len() as int), pat, rep),
        !occurs_at(s, pat, k) ==> replace_all(s.subrange(k, s.len() as int), pat, rep) == seq![s[k]]
            + replace_all(s.subrange(k + 1, s.len() as int), pat, rep),
{
    let t = s.subrange(k, s.len() as int);
    if occurs_at(s, pat, k) {
        assert(t.subrange(0, pat.len() as int) =~= s.subrange(k, k + pat.len()));
        assert(t.subrange(pat.len() as int, t.len() as int) =~= s.subrange(k + pat.len(), s.len() as int));
    } else {
        if pat.len() <= t.len() {
            assert(t.subrange(0, pat.len() as int) =~= s.subrange(k, k + pat.len()));
        }
        assert(t.drop_first() =~= s.subrange(k + 1, s.len() as int));
    }
}

fn replace_bytes(s: &[u8], pat: &[u8], rep: &[u8]) -> (r: Vec<u8>)
    requires
        pat@.len() > 0,
    ensures
        r@ == replace_all(s@, pat@, rep@),
{
    let mut out: Vec<u8> = Vec::new();
    let mut k: usize = 0;
    proof {
        assert(s@.subrange(0, s@.len() as int) =~= s@);
        assert(out@ + replace_all(s@, pat@, rep@) =~= replace_all(s@, pat@, rep@));
    }
    while k < s.len()
        invariant
            k <= s@.len(),
            pat@.len() > 0,
            out@ + replace_all(s@.subrange(k as int, s@.len() as int), pat@, rep@) == replace_all(
                s@,
                pat@,
                rep@,
            ),
        decreases s@.len() - k,
    {
        proof {
            lemma_replace_step(s@, pat@, rep@, k as int);
        }
        if matches_at(s, pat, k) {
            let ghost before = out@;
            push_all(&mut out, rep);
            proof {
                assert(out@ + replace_all(s@.subrange(k + pat@.len(), s@.len() as int), pat@, rep@)
                    =~= before + replace_all(s@.subrange(k as int, s@.len() as int), pat@, rep@));
            }
            k = k + pat.len();
        } else {
            let ghost before = out@;
            out.push(s[k]);
            proof {
                assert(out@ + replace_all(s@.subrange(k + 1, s@.len() as int), pat@, rep@)
                    =~= before + replace_all(s@.subrange(k as int, s@.len() as int), pat@, rep@));
            }
            k = k + 1;
        }
    }
    proof {
        assert(s@.subrange(0, s@.len() as int) =~= s@);
        assert(replace_all(s@.subrange(k as int, s@.len() as int), pat@, rep@) =~= Seq::<u8>::empty());
        assert(out@ =~= out@ + Seq::<u8>::empty());
    }
    out
}

/// Unescape the known character entities.
pub fn decode_entities_exec(s: &[u8]) -> (r: Vec<u8>)
    ensures
        r@ == decode_entities(s@),
{
    let amp: [u8; 5] = [38u8, 97u8, 109u8, 112u8, 59u8];
    let lt: [u8; 4] = [38u8, 108u8, 116u8, 59u8];
    let gt: [u8; 4] = [38u8, 103u8, 116u8, 59u8];
    let quot: [u8; 6] = [38u8, 113u8, 117u8, 111u8, 116u8, 59u8];
    let n39: [u8; 5] = [38u8, 35u8, 51u8, 57u8, 59u8];
    let apos: [u8; 6] = [38u8, 97u8, 112u8, 111u8, 115u8, 59u8];
    let nbsp: [u8; 6] = [38u8, 110u8, 98u8, 115u8, 112u8, 59u8];
    let r_amp: [u8; 1] = [38u8];
    let r_lt: [u8; 1] = [60u8];
    let r_gt: [u8; 1] = [62u8];
    let r_quot: [u8; 1] = [34u8];
    let r_apos: [u8; 1] = [39u8];
    let r_sp: [u8; 1] = [32u8];
    proof {
        assert(amp@ =~= amp_ent());
        assert(lt@ =~= lt_ent());
        assert(gt@ =~= gt_ent());
        assert(quot@ =~= quot_ent());
        assert(n39@ =~= num39_ent());
        assert(apos@ =~= apos_ent());
        assert(nbsp@ =~= nbsp_ent());
        assert(r_amp@ =~= seq![38u8]);
        assert(r_lt@ =~= seq![60u8]);
        assert(r_gt@ =~= seq![62u8]);
        assert(r_quot@ =~= seq![34u8]);
        assert(r_apos@ =~= seq![39u8]);
        assert(r_sp@ =~= seq![32u8]);
    }
    let s1 = replace_bytes(s, &amp, &r_amp);
    let s2 = replace_bytes(s1.as_slice(), &lt, &r_lt);
    let s3 = replace_bytes(s2.as_slice(), &gt, &r_gt);
    let s4 = replace_bytes(s3.as_slice(), &quot, &r_quot);
    let s5 = replace_bytes(s4.as_slice(), &n39, &r_apos);
    let s6 = replace_bytes(s5.as_slice(), &apos, &r_apos);
    replace_bytes(s6.as_slice(), &nbsp, &r_sp)
}

// ---- white space ----

/// The scan behind `squeeze`: white space is dropped, and a word that
/// follows white space is preceded by one space unless it is the first.
pub open spec fn squeeze_from(s: Seq<u8>, k: int, gap: bool, out: Seq<u8>) -> Seq<u8>
    decreases s.len() - k,
{
    if k < 0 || k >= s.len() {
        out
    } else if ws_len(s, k) > 0 {
        squeeze_from(s, k + ws_len(s, k), true, out)
    } else if gap && out.len() > 0 {
        squeeze_from(s, k + 1, false, out.push(32u8).push(s[k]))
    } else {
        squeeze_from(s, k + 1, false, out.push(s[k]))
    }
}

/// The words of `s` joined by single spaces (`split_whitespace` then
/// `join(" ")`).
pub open spec fn squeeze(s: Seq<u8>) -> Seq<u8> {
    squeeze_from(s, 0, false, Seq::empty())
}

pub fn squeeze_exec(s: &[u8]) -> (r: Vec<u8>)
    ensures
        r@ == squeeze(s@),
{
    let mut out: Vec<u8> = Vec::new();
    let mut k: usize = 0;
    let mut gap = false;
    while k < s.len()
        invariant
            k <= s@.len(),
            squeeze(s@) == squeeze_from(s@, k as int, gap, out@),
        decreases s@.len() - k,
    {
        let w = ws_at(s, k);
        if w > 0 {
            k = k + w;
            gap = true;
        } else {
            if gap && out.len() > 0 {
                out.push(32u8);
            }
            out.push(s[k]);
            k = k + 1;
            gap = false;
        }
    }
    out
}

// ---- the byte search ----

/// `memchr::memchr` on `hay[from..]`: the position, relative to `from`, of
/// the first byte `b` there, or `None` when there is none. The contract
/// restates the crate's documentation.
#[verifier::external_body]
fn memchr_from(b: u8, hay: &[u8], from: usize) -> (r: Option<usize>)
    requires
        from <= hay@.len(),
    ensures
        match r {
            Some(p) => from + p < hay@.len() && hay@[from + p] == b && forall|q: int|
                from <= q < from + p ==> hay@[q] != b,
            None => forall|q: int| from <= q < hay@.len() ==> hay@[q] != b,
        },
{
    memchr::memchr(b, &hay[from..])
}

/// The first `<` at or after `from`, or the end.
fn next_lt(hay: &[u8], from: usize) -> (r: usize)
    requires
        from <= hay@.len(),
    ensures
        r == next_byte(hay@, 60u8, from as int),
{
    proof {
        lemma_next_byte(hay@, 60u8, from as int);
    }
    let n = hay.len();
    match memchr_from(60u8, hay, from) {
        Some(p) => {
            assert(from + p < n);
            proof {
                let n = next_byte(hay@, 60u8, from as int);
                if n < from + p {
                    assert(hay@[n] == 60u8);
                }
            }
            from + p
        },
        None => {
            proof {
                let n = next_byte(hay@, 60u8, from as int);
                if n < hay@.len() {
                    assert(hay@[n] == 60u8);
                }
            }
            hay.len()
        },
    }
}

// ---- the document ----

/// What the tokenizer collects from a page.
pub struct DocView {
    pub title: Seq<u8>,
    pub headings: Seq<Seq<u8>>,
    pub body: Seq<u8>,
    /// Tables, each a list of rows, each a list of cells.
    pub tables: Seq<Seq<Seq<Seq<u8>>>>,
    /// Per table: whether its first row was all `<th>` cells.
    pub header_cells: Seq<Seq<bool>>,
}

/// A parsed page; every byte string holds UTF-8.
#[derive(Debug)]
pub struct HtmlDoc {
    pub title: Vec<u8>,
    pub headings: Vec<Vec<u8>>,
    pub body: Vec<u8>,
    pub tables: Vec<Vec<Vec<Vec<u8>>>>,
    pub header_cells: Vec<Vec<bool>>,
}

pub open spec fn rows_view(t: Seq<Vec<Vec<u8>>>) -> Seq<Seq<Seq<u8>>> {
    t.map_values(|r: Vec<Vec<u8>>| vviews(r@))
}

pub open spec fn tables_view(ts: Seq<Vec<Vec<Vec<u8>>>>) -> Seq<Seq<Seq<Seq<u8>>>> {
    ts.map_values(|t: Vec<Vec<Vec<u8>>>| rows_view(t@))
}

pub open spec fn flags_view(v: Seq<Vec<bool>>) -> Seq<Seq<bool>> {
    v.map_values(|f: Vec<bool>| f@)
}

impl View for HtmlDoc {
    type V = DocView;

    open spec fn view(&self) -> DocView {
        DocView {
            title: self.title@,
            headings: vviews(self.headings@),
            body: self.body@,
            tables: tables_view(self.tables@),
            header_cells: flags_view(self.header_cells@),
        }
    }
}

// ---- tag names ----

pub open spec fn script_tag() -> Seq<u8> {
    seq![115u8, 99u8, 114u8, 105u8, 112u8, 116u8]
}

pub open spec fn style_tag() -> Seq<u8> {
    seq![115u8, 116u8, 121u8, 108u8, 101u8]
}

pub open spec fn title_tag() -> Seq<u8> {
    seq![116u8, 105u8, 116u8, 108u8, 101u8]
}

pub open spec fn table_tag() -> Seq<u8> {
    seq![116u8, 97u8, 98u8, 108u8, 101u8]
}

pub open spec fn tr_tag() -> Seq<u8> {
    seq![116u8, 114u8]
}

pub open spec fn td_tag() -> Seq<u8> {
    seq![116u8, 100u8]
}

pub open spec fn th_tag() -> Seq<u8> {
    seq![116u8, 104u8]
}

pub open spec fn is_heading(name: Seq<u8>) -> bool {
    name == seq![104u8, 49u8] || name == seq![104u8, 50u8] || name == seq![104u8, 51u8]
}

/// Tags that end a line of the body: `<br>`, `<p>`, `</p>`, `<div>`,
/// `</div>`, `<li>` and `</tr>`.
pub open spec fn breaks_line(close: bool, name: Seq<u8>) -> bool {
    ||| !close && (name == seq![98u8, 114u8] || name == seq![112u8] || name == seq![100u8, 105u8, 118u8] || name == seq![108u8, 105u8])
    ||| close && (name == seq![112u8] || name == seq![100u8, 105u8, 118u8] || name == tr_tag())
}

/// The element whose text is suppressed: `<script>` (true) or `<style>`.
pub open spec fn skip_name(script: bool) -> Seq<u8> {
    if script {
        script_tag()
    } else {
        style_tag()
    }
}

// ---- the tokenizer's state ----

/// Text context codes: inside `<title>` or inside a heading.
/// Bytes of a page (decompressed) read at most: 64 MiB. A larger page
/// counts as junk.
pub const MAX_WHOLE_FILE: u64 = 67108864;

pub const IN_TITLE: u8 = 0;

pub const IN_HEADING: u8 = 1;

pub struct PState {
    pub doc: DocView,
    /// Open title/heading elements, innermost last.
    pub ctx: Seq<u8>,
    /// Text since the last tag, entities decoded.
    pub text: Seq<u8>,
    /// Inside `<script>` or `<style>`: tags are ignored until it closes.
    pub skip: Option<bool>,
    pub in_table: bool,
    pub table: Seq<Seq<Seq<u8>>>,
    pub row: Seq<Seq<u8>>,
    pub cell: Option<Seq<u8>>,
    /// Per cell of the current row: was it a `<th>`.
    pub row_th: Seq<bool>,
    /// Per row of the current table: was it all `<th>`.
    pub flags: Seq<bool>,
}

pub open spec fn init_state() -> PState {
    PState {
        doc: DocView {
            title: Seq::empty(),
            headings: Seq::empty(),
            body: Seq::empty(),
            tables: Seq::empty(),
            header_cells: Seq::empty(),
        },
        ctx: Seq::empty(),
        text: Seq::empty(),
        skip: None,
        in_table: false,
        table: Seq::empty(),
        row: Seq::empty(),
        cell: None,
        row_th: Seq::empty(),
        flags: Seq::empty(),
    }
}

/// `t` after `c`, one space between them when `c` is not empty.
pub open spec fn add_word(c: Seq<u8>, t: Seq<u8>) -> Seq<u8> {
    if c.len() > 0 {
        c.push(32u8) + t
    } else {
        t
    }
}

/// Hand the pending text, white space squeezed, to where it belongs: the
/// open cell, else the title, else a heading (which also goes to the body,
/// followed by a blank line), else the body followed by a space.
pub open spec fn flush(st: PState) -> PState {
    let t = squeeze(st.text);
    let st0 = PState { text: Seq::empty(), ..st };
    if t.len() == 0 {
        st0
    } else {
        match st.cell {
            Some(c) => PState { cell: Some(add_word(c, t)), ..st0 },
            None => if st.ctx.len() > 0 && st.ctx.last() == IN_TITLE {
                PState { doc: DocView { title: add_word(st.doc.title, t), ..st.doc }, ..st0 }
            } else if st.ctx.len() > 0 && st.ctx.last() == IN_HEADING {
                PState {
                    doc: DocView {
                        headings: st.doc.headings.push(t),
                        body: st.doc.body + t + seq![10u8, 10u8],
                        ..st.doc
                    },
                    ..st0
                }
            } else {
                PState { doc: DocView { body: st.doc.body + t.push(32u8), ..st.doc }, ..st0 }
            },
        }
    }
}

pub open spec fn all_th(v: Seq<bool>) -> bool {
    v.len() > 0 && forall|i: int| 0 <= i < v.len() ==> v[i]
}

/// The open cell, if any, joins the row.
pub open spec fn close_cell(st: PState) -> PState {
    match st.cell {
        Some(c) => PState { row: st.row.push(c), cell: None, ..st },
        None => st,
    }
}

/// The open cell joins the row, and a non-empty row joins the table.
pub open spec fn close_row(st: PState) -> PState {
    let s1 = close_cell(st);
    if s1.row.len() > 0 {
        PState { flags: s1.flags.push(all_th(s1.row_th)), table: s1.table.push(s1.row), row: Seq::empty(), ..s1 }
    } else {
        s1
    }
}

pub open spec fn pop_ctx(st: PState) -> PState {
    if st.ctx.len() > 0 {
        PState { ctx: st.ctx.drop_last(), ..st }
    } else {
        st
    }
}

/// What a tag (lowercased name, opening or closing) does to the state.
pub open spec fn tag(st: PState, close: bool, name: Seq<u8>) -> PState {
    if !close && (name == script_tag() || name == style_tag()) {
        PState { skip: Some(name == script_tag()), ..st }
    } else if !close && name == title_tag() {
        PState { ctx: st.ctx.push(IN_TITLE), ..st }
    } else if close && name == title_tag() {
        pop_ctx(st)
    } else if !close && is_heading(name) {
        PState { ctx: st.ctx.push(IN_HEADING), ..st }
    } else if close && is_heading(name) {
        pop_ctx(st)
    } else if !close && name == table_tag() {
        PState {
            in_table: true,
            table: Seq::empty(),
            row: Seq::empty(),
            row_th: Seq::empty(),
            cell: None,
            flags: Seq::empty(),
            ..st
        }
    } else if close && name == table_tag() {
        let s1 = close_row(st);
        let s2 = if s1.table.len() > 0 {
            PState {
                doc: DocView {
                    header_cells: s1.doc.header_cells.push(seq![s1.flags.len() > 0 && s1.flags[0]]),
                    tables: s1.doc.tables.push(s1.table),
                    ..s1.doc
                },
                table: Seq::empty(),
                ..s1
            }
        } else {
            s1
        };
        PState { in_table: false, ..s2 }
    } else if !close && name == tr_tag() && st.in_table {
        PState { row_th: Seq::empty(), ..close_row(st) }
    } else if !close && (name == td_tag() || name == th_tag()) && st.in_table {
        let s1 = close_cell(st);
        PState { row_th: s1.row_th.push(name == th_tag()), cell: Some(Seq::empty()), ..s1 }
    } else if breaks_line(close, name) && st.doc.body.len() > 0 && st.doc.body.last() != 10u8 {
        PState { doc: DocView { body: st.doc.body.push(10u8), ..st.doc }, ..st }
    } else {
        st
    }
}

pub open spec fn is_name_byte(b: u8) -> bool {
    (48 <= b <= 57) || (65 <= b <= 90) || (97 <= b <= 122) || b == 33
}

/// End of the tag name that starts at `j`: ASCII letters, digits and `!`.
pub open spec fn name_end(s: Seq<u8>, j: int) -> int
    decreases s.len() - j,
{
    if j < 0 || j >= s.len() || !is_name_byte(s[j]) {
        j
    } else {
        name_end(s, j + 1)
    }
}

/// The `>` that ends a tag, skipping quoted attribute values (or the end).
pub open spec fn tag_end(s: Seq<u8>, k: int, q: Option<u8>) -> int
    decreases s.len() - k,
{
    if k < 0 || k >= s.len() {
        s.len() as int
    } else {
        match q {
            Some(c) => tag_end(s, k + 1, if s[k] == c { None } else { q }),
            None => if s[k] == 34u8 || s[k] == 39u8 {
                tag_end(s, k + 1, Some(s[k]))
            } else if s[k] == 62u8 {
                k
            } else {
                tag_end(s, k + 1, None)
            },
        }
    }
}

pub proof fn lemma_name_end(s: Seq<u8>, j: int)
    requires
        0 <= j <= s.len(),
    ensures
        j <= name_end(s, j) <= s.len(),
        forall|q: int| j <= q < name_end(s, j) ==> is_name_byte(#[trigger] s[q]),
    decreases s.len() - j,
{
    if j < s.len() && is_name_byte(s[j]) {
        lemma_name_end(s, j + 1);
    }
}

pub proof fn lemma_tag_end(s: Seq<u8>, k: int, q: Option<u8>)
    requires
        0 <= k <= s.len(),
    ensures
        k <= tag_end(s, k, q) <= s.len(),
    decreases s.len() - k,
{
    if k < s.len() {
        match q {
            Some(c) => lemma_tag_end(s, k + 1, if s[k] == c { None } else { q }),
            None => if s[k] == 34u8 || s[k] == 39u8 {
                lemma_tag_end(s, k + 1, Some(s[k]));
            } else if s[k] != 62u8 {
                lemma_tag_end(s, k + 1, None);
            },
        }
    }
}

pub open spec fn comment_open() -> Seq<u8> {
    seq![60u8, 33u8, 45u8, 45u8]
}

pub open spec fn comment_close() -> Seq<u8> {
    seq![45u8, 45u8, 62u8]
}

/// One token at byte `i`: a comment (skipped whole), a tag, or a run of
/// text up to the next `<`. Gives the next position and state.
pub open spec fn step(s: Seq<u8>, i: int, st: PState) -> (int, PState) {
    if s[i] == 60u8 {
        if occurs_at(s, comment_open(), i) {
            (
                match first_occurrence(s, comment_close(), i) {
                    Some(p) => p + 3,
                    None => s.len() as int,
                },
                st,
            )
        } else {
            let close = i + 1 < s.len() && s[i + 1] == 47u8;
            let ns = if close {
                i + 2
            } else {
                i + 1
            };
            let j = name_end(s, ns);
            let name = lower_bytes(s.subrange(ns, j));
            let te = tag_end(s, j, None);
            match st.skip {
                Some(u) => (
                    te + 1,
                    if close && name == skip_name(u) {
                        PState { skip: None, ..st }
                    } else {
                        st
                    },
                ),
                None => (te + 1, tag(flush(st), close, name)),
            }
        }
    } else {
        let next = next_byte(s, 60u8, i);
        (next, PState { text: st.text + decode_entities(s.subrange(i, next)), ..st })
    }
}

pub proof fn lemma_step_advances(s: Seq<u8>, i: int, st: PState)
    requires
        0 <= i < s.len(),
    ensures
        i < step(s, i, st).0 <= s.len() + 1,
{
    if s[i] == 60u8 {
        if occurs_at(s, comment_open(), i) {
            lemma_first_occurrence(s, comment_close(), i);
        } else {
            let close = i + 1 < s.len() && s[i + 1] == 47u8;
            let ns = if close {
                i + 2
            } else {
                i + 1
            };
            lemma_name_end(s, ns);
            lemma_tag_end(s, name_end(s, ns), None);
        }
    } else {
        lemma_next_byte(s, 60u8, i);
    }
}

/// Tokens from byte `i` on.
pub open spec fn run(s: Seq<u8>, i: int, st: PState) -> PState
    decreases s.len() + 1 - i,
{
    if i < 0 || i >= s.len() {
        st
    } else {
        proof {
            lemma_step_advances(s, i, st);
        }
        run(s, step(s, i, st).0, step(s, i, st).1)
    }
}

/// The document the tokenizer makes of a page.
pub open spec fn parsed(s: Seq<u8>) -> DocView {
    flush(run(s, 0, init_state())).doc
}

// ---- the tokenizer ----

struct Tokenizer {
    doc: HtmlDoc,
    ctx: Vec<u8>,
    text: Vec<u8>,
    skip: Option<bool>,
    in_table: bool,
    table: Vec<Vec<Vec<u8>>>,
    row: Vec<Vec<u8>>,
    cell: Option<Vec<u8>>,
    row_th: Vec<bool>,
    flags: Vec<bool>,
}

pub open spec fn opt_view(c: Option<Vec<u8>>) -> Option<Seq<u8>> {
    match c {
        Some(v) => Some(v@),
        None => None,
    }
}

impl Tokenizer {
    spec fn state(&self) -> PState {
        PState {
            doc: self.doc@,
            ctx: self.ctx@,
            text: self.text@,
            skip: self.skip,
            in_table: self.in_table,
            table: rows_view(self.table@),
            row: vviews(self.row@),
            cell: opt_view(self.cell),
            row_th: self.row_th@,
            flags: self.flags@,
        }
    }

    fn new() -> (r: Tokenizer)
        ensures
            r.state() == init_state(),
    {
        let r = Tokenizer {
            doc: HtmlDoc {
                title: Vec::new(),
                headings: Vec::new(),
                body: Vec::new(),
                tables: Vec::new(),
                header_cells: Vec::new(),
            },
            ctx: Vec::new(),
            text: Vec::new(),
            skip: None,
            in_table: false,
            table: Vec::new(),
            row: Vec::new(),
            cell: None,
            row_th: Vec::new(),
            flags: Vec::new(),
        };
        proof {
            assert(r.state().doc.headings =~= Seq::<Seq<u8>>::empty());
            assert(r.state().doc.tables =~= Seq::<Seq<Seq<Seq<u8>>>>::empty());
            assert(r.state().doc.header_cells =~= Seq::<Seq<bool>>::empty());
            assert(r.state().table =~= Seq::<Seq<Seq<u8>>>::empty());
            assert(r.state().row =~= Seq::<Seq<u8>>::empty());
        }
        r
    }

    fn flush(&mut self)
        ensures
            final(self).state() == flush(old(self).state()),
    {
        let t = squeeze_exec(self.text.as_slice());
        self.text = Vec::new();
        if t.len() == 0 {
            return;
        }
        let mut c: Option<Vec<u8>> = None;
        std::mem::swap(&mut c, &mut self.cell);
        match c {
            Some(mut c) => {
                if c.len() > 0 {
                    c.push(32u8);
                }
                push_all(&mut c, t.as_slice());
                self.cell = Some(c);
            },
            None => {
                let n = self.ctx.len();
                if n > 0 && self.ctx[n - 1] == IN_TITLE {
                    if self.doc.title.len() > 0 {
                        self.doc.title.push(32u8);
                    }
                    push_all(&mut self.doc.title, t.as_slice());
                } else if n > 0 && self.ctx[n - 1] == IN_HEADING {
                    let ghost body0 = self.doc.body@;
                    push_all(&mut self.doc.body, t.as_slice());
                    self.doc.body.push(10u8);
                    self.doc.body.push(10u8);
                    assert(self.doc.body@ =~= body0 + t@ + seq![10u8, 10u8]);
                    let ghost before = vviews(self.doc.headings@);
                    let ghost tv = t@;
                    self.doc.headings.push(t);
                    proof {
                        assert(vviews(self.doc.headings@) =~= before.push(tv));
                    }
                } else {
                    let ghost body0 = self.doc.body@;
                    push_all(&mut self.doc.body, t.as_slice());
                    self.doc.body.push(32u8);
                    assert(self.doc.body@ =~= body0 + t@.push(32u8));
                }
            },
        }
    }

    fn close_cell(&mut self)
        ensures
            final(self).state() == close_cell(old(self).state()),
    {
        let mut c: Option<Vec<u8>> = None;
        std::mem::swap(&mut c, &mut self.cell);
        match c {
            Some(c) => {
                let ghost before = vviews(self.row@);
                let ghost cv = c@;
                self.row.push(c);
                proof {
                    assert(vviews(self.row@) =~= before.push(cv));
                }
            },
            None => {},
        }
    }

    fn close_row(&mut self)
        ensures
            final(self).state() == close_row(old(self).state()),
    {
        self.close_cell();
        if self.row.len() > 0 {
            let mut all = self.row_th.len() > 0;
            let mut k: usize = 0;
            while k < self.row_th.len()
                invariant
                    k <= self.row_th@.len(),
                    all == (self.row_th@.len() > 0 && forall|q: int| 0 <= q < k ==> self.row_th@[q]),
                decreases self.row_th@.len() - k,
            {
                if !self.row_th[k] {
                    all = false;
                }
                k += 1;
            }
            self.flags.push(all);
            let mut r: Vec<Vec<u8>> = Vec::new();
            std::mem::swap(&mut r, &mut self.row);
            let ghost before = rows_view(self.table@);
            let ghost rv = vviews(r@);
            self.table.push(r);
            proof {
                assert(rows_view(self.table@) =~= before.push(rv));
                assert(vviews(self.row@) =~= Seq::<Seq<u8>>::empty());
            }
        }
    }

    fn pop_ctx(&mut self)
        ensures
            final(self).state() == pop_ctx(old(self).state()),
    {
        if self.ctx.len() > 0 {
            self.ctx.pop();
            proof {
                assert(self.ctx@ =~= old(self).ctx@.drop_last());
            }
        }
    }

    fn tag(&mut self, close: bool, name: &[u8])
        ensures
            final(self).state() == tag(old(self).state(), close, name@),
    {
        let script: [u8; 6] = [115u8, 99u8, 114u8, 105u8, 112u8, 116u8];
        let style: [u8; 5] = [115u8, 116u8, 121u8, 108u8, 101u8];
        let title: [u8; 5] = [116u8, 105u8, 116u8, 108u8, 101u8];
        let table: [u8; 5] = [116u8, 97u8, 98u8, 108u8, 101u8];
        let tr: [u8; 2] = [116u8, 114u8];
        let td: [u8; 2] = [116u8, 100u8];
        let th: [u8; 2] = [116u8, 104u8];
        let h1: [u8; 2] = [104u8, 49u8];
        let h2: [u8; 2] = [104u8, 50u8];
        let h3: [u8; 2] = [104u8, 51u8];
        let br: [u8; 2] = [98u8, 114u8];
        let p: [u8; 1] = [112u8];
        let div: [u8; 3] = [100u8, 105u8, 118u8];
        let li: [u8; 2] = [108u8, 105u8];
        proof {
            assert(script@ =~= script_tag());
            assert(style@ =~= style_tag());
            assert(title@ =~= title_tag());
            assert(table@ =~= table_tag());
            assert(tr@ =~= tr_tag());
            assert(td@ =~= td_tag());
            assert(th@ =~= th_tag());
            assert(h1@ =~= seq![104u8, 49u8]);
            assert(h2@ =~= seq![104u8, 50u8]);
            assert(h3@ =~= seq![104u8, 51u8]);
            assert(br@ =~= seq![98u8, 114u8]);
            assert(p@ =~= seq![112u8]);
            assert(div@ =~= seq![100u8, 105u8, 118u8]);
            assert(li@ =~= seq![108u8, 105u8]);
        }
        let is_script = bytes_eq(name, &script);
        let is_style = bytes_eq(name, &style);
        let is_title = bytes_eq(name, &title);
        let is_h = bytes_eq(name, &h1) || bytes_eq(name, &h2) || bytes_eq(name, &h3);
        let is_table = bytes_eq(name, &table);
        let is_tr = bytes_eq(name, &tr);
        let is_td = bytes_eq(name, &td);
        let is_th = bytes_eq(name, &th);
        let is_p = bytes_eq(name, &p);
        let is_div = bytes_eq(name, &div);
        let breaks = (!close && (bytes_eq(name, &br) || is_p || is_div || bytes_eq(name, &li))) || (close
            && (is_p || is_div || is_tr));
        if !close && (is_script || is_style) {
            self.skip = Some(is_script);
        } else if !close && is_title {
            self.ctx.push(IN_TITLE);
        } else if close && is_title {
            self.pop_ctx();
        } else if !close && is_h {
            self.ctx.push(IN_HEADING);
        } else if close && is_h {
            self.pop_ctx();
        } else if !close && is_table {
            self.in_table = true;
            self.table = Vec::new();
            self.row = Vec::new();
            self.row_th = Vec::new();
            self.cell = None;
            self.flags = Vec::new();
            proof {
                assert(rows_view(self.table@) =~= Seq::<Seq<Seq<u8>>>::empty());
                assert(vviews(self.row@) =~= Seq::<Seq<u8>>::empty());
            }
        } else if close && is_table {
            self.close_row();
            if self.table.len() > 0 {
                let first = self.flags.len() > 0 && self.flags[0];
                let ghost hb = flags_view(self.doc.header_cells@);
                let ghost tb = tables_view(self.doc.tables@);
                let ghost tv = rows_view(self.table@);
                let mut hv: Vec<bool> = Vec::new();
                hv.push(first);
                self.doc.header_cells.push(hv);
                let mut t: Vec<Vec<Vec<u8>>> = Vec::new();
                std::mem::swap(&mut t, &mut self.table);
                self.doc.tables.push(t);
                proof {
                    assert(flags_view(self.doc.header_cells@) =~= hb.push(seq![first]));
                    assert(tables_view(self.doc.tables@) =~= tb.push(tv));
                    assert(rows_view(self.table@) =~= Seq::<Seq<Seq<u8>>>::empty());
                }
            }
            self.in_table = false;
        } else if !close && is_tr && self.in_table {
            self.close_row();
            self.row_th = Vec::new();
        } else if !close && (is_td || is_th) && self.in_table {
            self.close_cell();
            self.row_th.push(is_th);
            self.cell = Some(Vec::new());
            proof {
                assert(opt_view(self.cell) == Some(Seq::<u8>::empty()));
            }
        } else if breaks && self.doc.body.len() > 0 && self.doc.body[self.doc.body.len() - 1] != 10u8 {
            self.doc.body.push(10u8);
        }
    }
}

fn name_end_exec(s: &[u8], j: usize) -> (r: usize)
    requires
        j <= s@.len(),
    ensures
        r == name_end(s@, j as int),
{
    let mut k = j;
    while k < s.len() && ((48u8 <= s[k] && s[k] <= 57u8) || (65u8 <= s[k] && s[k] <= 90u8) || (97u8
        <= s[k] && s[k] <= 122u8) || s[k] == 33u8)
        invariant
            j <= k <= s@.len(),
            name_end(s@, j as int) == name_end(s@, k as int),
        decreases s@.len() - k,
    {
        k += 1;
    }
    k
}

fn tag_end_exec(s: &[u8], j: usize) -> (r: usize)
    requires
        j <= s@.len(),
    ensures
        r == tag_end(s@, j as int, None),
        r <= s@.len(),
{
    let mut k = j;
    let mut q: Option<u8> = None;
    proof {
        lemma_tag_end(s@, j as int, None);
    }
    while k < s.len()
        invariant
            j <= k <= s@.len(),
            tag_end(s@, j as int, None) == tag_end(s@, k as int, q),
        decreases s@.len() - k,
    {
        let c = s[k];
        match q {
            Some(x) => {
                if c == x {
                    q = None;
                }
            },
            None => {
                if c == 34u8 || c == 39u8 {
                    q = Some(c);
                } else if c == 62u8 {
                    return k;
                }
            },
        }
        k += 1;
    }
    k
}

/// Tokenize a page.
pub fn parse(html: &str) -> (r: HtmlDoc)
    ensures
        r@ == parsed(html.spec_bytes()),
{
    let s = html.as_bytes();
    let ghost sv = s@;
    let mut t = Tokenizer::new();
    let mut i: usize = 0;
    let comment_o: [u8; 4] = [60u8, 33u8, 45u8, 45u8];
    let comment_c: [u8; 3] = [45u8, 45u8, 62u8];
    proof {
        assert(comment_o@ =~= comment_open());
        assert(comment_c@ =~= comment_close());
    }
    while i < s.len()
        invariant
            sv == s@,
            i <= s@.len(),
            comment_o@ == comment_open(),
            comment_c@ == comment_close(),
            run(sv, 0, init_state()) == run(sv, i as int, t.state()),
        decreases s@.len() - i,
    {
        proof {
            lemma_step_advances(sv, i as int, t.state());
        }
        let ghost st = t.state();
        let ghost nx = step(sv, i as int, st);
        if s[i] == 60u8 {
            if matches_at(s, &comment_o, i) {
                match find_from(s, &comment_c, i) {
                    Some(p) => {
                        proof {
                            lemma_first_occurrence(sv, comment_close(), i as int);
                        }
                        i = p + 3;
                    },
                    None => {
                        i = s.len();
                    },
                }
            } else {
                let close = i + 1 < s.len() && s[i + 1] == 47u8;
                let ns = if close {
                    i + 2
                } else {
                    i + 1
                };
                let j = name_end_exec(s, ns);
                proof {
                    lemma_name_end(sv, ns as int);
                }
                let raw = slice_vec(s, ns, j);
                let name = to_lower_bytes(raw.as_slice());
                let te = tag_end_exec(s, j);
                match t.skip {
                    Some(u) => {
                        let until_script = u;
                        let script: [u8; 6] = [115u8, 99u8, 114u8, 105u8, 112u8, 116u8];
                        let style: [u8; 5] = [115u8, 116u8, 121u8, 108u8, 101u8];
                        proof {
                            assert(script@ =~= script_tag());
                            assert(style@ =~= style_tag());
                        }
                        let hit = if until_script {
                            bytes_eq(name.as_slice(), &script)
                        } else {
                            bytes_eq(name.as_slice(), &style)
                        };
                        if close && hit {
                            t.skip = None;
                        }
                    },
                    None => {
                        t.flush();
                        t.tag(close, name.as_slice());
                    },
                }
                if te < s.len() {
                    i = te + 1;
                } else {
                    i = s.len();
                    proof {
                        assert(run(sv, (te + 1) as int, t.state()) == t.state());
                    }
                }
            }
        } else {
            let next = next_lt(s, i);
            proof {
                lemma_next_byte(sv, 60u8, i as int);
            }
            let piece = slice_vec(s, i, next);
            let dec = decode_entities_exec(piece.as_slice());
            push_all(&mut t.text, dec.as_slice());
            i = next;
        }
        proof {
            assert(t.state() == nx.1);
        }
    }
    t.flush();
    t.doc
}

// ---- the dominant table ----

pub open spec fn is_numeric_byte(b: u8) -> bool {
    (48 <= b <= 57) || b == 46u8 || b == 44u8 || b == 45u8
}

/// A cell that, trimmed, is non-empty and only digits, `.`, `,` and `-`.
pub open spec fn numericish(c: Seq<u8>) -> bool {
    let t = trim_bytes(c);
    t.len() > 0 && forall|i: int| 0 <= i < t.len() ==> is_numeric_byte(#[trigger] t[i])
}

/// A row reads as a header when it has cells and every cell is non-blank
/// and not a number.
pub open spec fn header_like(row: Seq<Seq<u8>>) -> bool {
    row.len() > 0 && forall|i: int| 0 <= i < row.len() ==> !numericish(#[trigger] row[i]) && trim_bytes(row[i]).len() > 0
}

fn numericish_exec(c: &[u8]) -> (r: bool)
    ensures
        r == numericish(c@),
{
    let (a, b) = trim_exec(c);
    let ghost t = trim_bytes(c@);
    if a == b {
        return false;
    }
    let mut k = a;
    while k < b
        invariant
            a <= k <= b <= c@.len(),
            t == c@.subrange(a as int, b as int),
            t == trim_bytes(c@),
            forall|i: int| 0 <= i < k - a ==> is_numeric_byte(#[trigger] t[i]),
        decreases b - k,
    {
        let x = c[k];
        if !((48u8 <= x && x <= 57u8) || x == 46u8 || x == 44u8 || x == 45u8) {
            assert(t[k - a] == x);
            assert(!is_numeric_byte(t[k - a]));
            return false;
        }
        k += 1;
    }
    true
}

/// A row looks like a header exactly when it has cells and each cell,
/// trimmed, is non-empty and holds some byte other than an ASCII digit,
/// `.`, `,` or `-`: a blank cell or a number makes it data.
pub proof fn lemma_header_rows(row: Seq<Seq<u8>>)
    ensures
        header_like(row) <==> (row.len() > 0 && forall|i: int|
            0 <= i < row.len() ==> trim_bytes(#[trigger] row[i]).len() > 0 && exists|j: int|
                0 <= j < trim_bytes(row[i]).len() && {
                    let b = #[trigger] trim_bytes(row[i])[j];
                    !((48u8 <= b && b <= 57u8) || b == 46u8 || b == 44u8 || b == 45u8)
                }),
{
}

/// A row holding a number is data, never a header: when one of its cells,
/// trimmed, is non-empty and made only of ASCII digits, `.`, `,` and `-`
/// (as `3.50`, `1,200` or `-7`), the row does not look like a header.
pub proof fn lemma_numeric_cell_is_no_header(row: Seq<Seq<u8>>, i: int)
    requires
        0 <= i < row.len(),
        trim_bytes(row[i]).len() > 0,
        forall|j: int| 0 <= j < trim_bytes(row[i]).len() ==> {
            let b = #[trigger] trim_bytes(row[i])[j];
            (48u8 <= b && b <= 57u8) || b == 46u8 || b == 44u8 || b == 45u8
        },
    ensures
        !header_like(row),
{
    assert(numericish(row[i]));
}

pub fn looks_like_header(row: &Vec<Vec<u8>>) -> (r: bool)
    ensures
        r == header_like(vviews(row@)),
        forall|i: int|
            0 <= i < row@.len() && trim_bytes(#[trigger] row@[i]@).len() > 0 && (forall|j: int|
                0 <= j < trim_bytes(row@[i]@).len() ==> {
                    let b = #[trigger] trim_bytes(row@[i]@)[j];
                    (48u8 <= b && b <= 57u8) || b == 46u8 || b == 44u8 || b == 45u8
                }) ==> !r,
{
    proof {
        let rv = vviews(row@);
        assert forall|i: int|
            0 <= i < row@.len() && trim_bytes(#[trigger] row@[i]@).len() > 0 && (forall|j: int|
                0 <= j < trim_bytes(row@[i]@).len() ==> {
                    let b = #[trigger] trim_bytes(row@[i]@)[j];
                    (48u8 <= b && b <= 57u8) || b == 46u8 || b == 44u8 || b == 45u8
                }) implies !header_like(rv) by {
            assert(rv[i] == row@[i]@);
            lemma_numeric_cell_is_no_header(rv, i);
        }
    }
    let ghost rv = vviews(row@);
    if row.len() == 0 {
        return false;
    }
    let mut k: usize = 0;
    while k < row.len()
        invariant
            k <= row@.len(),
            rv == vviews(row@),
            forall|i: int| 0 <= i < k ==> !numericish(#[trigger] rv[i]) && trim_bytes(rv[i]).len() > 0,
        decreases row@.len() - k,
    {
        let (a, b) = trim_exec(row[k].as_slice());
        if numericish_exec(row[k].as_slice()) || a == b {
            assert(rv[k as int] == row@[k as int]@);
            return false;
        }
        k += 1;
    }
    true
}

/// How many rows have exactly `w` cells.
pub open spec fn width_count(rows: Seq<Seq<Seq<u8>>>, w: nat) -> nat
    decreases rows.len(),
{
    if rows.len() == 0 {
        0
    } else {
        width_count(rows.drop_last(), w) + if rows.last().len() == w {
            1nat
        } else {
            0nat
        }
    }
}

/// At least five rows, a first row of at least two cells, and at least nine
/// rows in ten as wide as the first.
pub open spec fn qualifies(rows: Seq<Seq<Seq<u8>>>) -> bool {
    rows.len() >= 5 && rows[0].len() >= 2 && width_count(rows, rows[0].len()) * 10 >= rows.len() * 9
}

/// The qualifying table with the most rows, the first of equals.
pub open spec fn best_table(ts: Seq<Seq<Seq<Seq<u8>>>>) -> Option<int>
    decreases ts.len(),
{
    if ts.len() == 0 {
        None
    } else {
        let b = best_table(ts.drop_last());
        let k = ts.len() - 1;
        if qualifies(ts[k]) && match b {
            Some(x) => ts[k].len() > ts[x].len(),
            None => true,
        } {
            Some(k)
        } else {
            b
        }
    }
}

/// The dominant table and whether its first row was a `<th>` header.
pub open spec fn dominant(d: DocView) -> Option<(int, bool)> {
    match best_table(d.tables) {
        Some(i) => Some(
            (i, i < d.header_cells.len() && d.header_cells[i].len() > 0 && d.header_cells[i][0]),
        ),
        None => None,
    }
}

pub proof fn lemma_best_table(ts: Seq<Seq<Seq<Seq<u8>>>>)
    ensures
        best_table(ts) matches Some(i) ==> 0 <= i < ts.len(),
    decreases ts.len(),
{
    if ts.len() > 0 {
        lemma_best_table(ts.drop_last());
    }
}

fn width_count_exec(rows: &Vec<Vec<Vec<u8>>>, w: usize) -> (r: u64)
    ensures
        r as nat == width_count(rows_view(rows@), w as nat),
{
    let ghost rv = rows_view(rows@);
    let mut n: u64 = 0;
    let mut k: usize = 0;
    while k < rows.len()
        invariant
            k <= rows@.len(),
            rv == rows_view(rows@),
            n as nat == width_count(rv.subrange(0, k as int), w as nat),
            n <= k,
        decreases rows@.len() - k,
    {
        proof {
            assert(rv.subrange(0, k + 1).drop_last() =~= rv.subrange(0, k as int));
            assert(rv[k as int].len() == rows@[k as int]@.len());
        }
        if rows[k].len() == w {
            n += 1;
        }
        k += 1;
    }
    proof {
        assert(rv.subrange(0, rows@.len() as int) =~= rv);
    }
    n
}

/// The table a page is really made of, if any: its position among the
/// tables and whether its first row was all `<th>` cells.
pub fn dominant_table(doc: &HtmlDoc) -> (r: Option<(usize, bool)>)
    ensures
        match r {
            Some((i, h)) => dominant(doc@) == Some((i as int, h)),
            None => dominant(doc@) is None,
        },
{
    let ghost ts = tables_view(doc.tables@);
    let mut best: Option<usize> = None;
    let mut k: usize = 0;
    while k < doc.tables.len()
        invariant
            k <= doc.tables@.len(),
            ts == tables_view(doc.tables@),
            match best {
                Some(b) => best_table(ts.subrange(0, k as int)) == Some(b as int) && b < k,
                None => best_table(ts.subrange(0, k as int)) is None,
            },
        decreases doc.tables@.len() - k,
    {
        let ghost pre = ts.subrange(0, k + 1);
        proof {
            assert(pre.drop_last() =~= ts.subrange(0, k as int));
            assert(pre[k as int] == ts[k as int]);
            assert(ts[k as int] == rows_view(doc.tables@[k as int]@));
        }
        let rows = &doc.tables[k];
        let n = rows.len();
        let mut ok = false;
        if n >= 5 {
            let w = rows[0].len();
            proof {
                assert(ts[k as int][0].len() == w);
            }
            if w >= 2 {
                let c = width_count_exec(rows, w);
                ok = (c as u128) * 10 >= (n as u128) * 9;
            }
        }
        let better = match best {
            Some(b) => {
                proof {
                    assert(pre[b as int] == ts[b as int]);
                    assert(ts[b as int].len() == doc.tables@[b as int]@.len());
                }
                n > doc.tables[b].len()
            },
            None => true,
        };
        if ok && better {
            best = Some(k);
        }
        k += 1;
    }
    proof {
        assert(ts.subrange(0, doc.tables@.len() as int) =~= ts);
    }
    match best {
        Some(i) => {
            let h = i < doc.header_cells.len() && doc.header_cells[i].len() > 0 && doc.header_cells[i][0];
            proof {
                let hc = flags_view(doc.header_cells@);
                if i < doc.header_cells@.len() {
                    assert(hc[i as int] == doc.header_cells@[i as int]@);
                }
            }
            Some((i, h))
        },
        None => None,
    }
}

// ---- from the parsed page to records ----

/// The non-blank cells of a row, trimmed, with their column.
pub open spec fn row_fields(row: Seq<Seq<u8>>) -> Seq<(int, Seq<u8>)>
    decreases row.len(),
{
    if row.len() == 0 {
        Seq::empty()
    } else {
        let r = row_fields(row.drop_last());
        let t = trim_bytes(row.last());
        if t.len() == 0 {
            r
        } else {
            r.push(((row.len() - 1) as int, t))
        }
    }
}

/// The rows of the dominant table that become records, with their row
/// number: every row but a header row, and none without a non-blank cell.
pub open spec fn table_records(rows: Seq<Seq<Seq<u8>>>, header: bool) -> Seq<(int, Seq<(int, Seq<u8>)>)>
    decreases rows.len(),
{
    if rows.len() == 0 {
        Seq::empty()
    } else {
        let r = table_records(rows.drop_last(), header);
        let i = rows.len() - 1;
        let f = row_fields(rows.last());
        if (header && i == 0) || f.len() == 0 {
            r
        } else {
            r.push((i as int, f))
        }
    }
}

pub open spec fn fields_view(v: Seq<(usize, Vec<u8>)>) -> Seq<(int, Seq<u8>)> {
    v.map_values(|f: (usize, Vec<u8>)| (f.0 as int, f.1@))
}

pub open spec fn records_view(v: Seq<(usize, Vec<(usize, Vec<u8>)>)>) -> Seq<(int, Seq<(int, Seq<u8>)>)> {
    v.map_values(|r: (usize, Vec<(usize, Vec<u8>)>)| (r.0 as int, fields_view(r.1@)))
}

fn row_fields_exec(row: &Vec<Vec<u8>>) -> (r: Vec<(usize, Vec<u8>)>)
    ensures
        fields_view(r@) == row_fields(vviews(row@)),
{
    let ghost rv = vviews(row@);
    let mut out: Vec<(usize, Vec<u8>)> = Vec::new();
    let mut j: usize = 0;
    while j < row.len()
        invariant
            j <= row@.len(),
            rv == vviews(row@),
            fields_view(out@) == row_fields(rv.subrange(0, j as int)),
        decreases row@.len() - j,
    {
        proof {
            assert(rv.subrange(0, j + 1).drop_last() =~= rv.subrange(0, j as int));
            assert(rv[j as int] == row@[j as int]@);
        }
        let (a, b) = trim_exec(row[j].as_slice());
        if a < b {
            let t = slice_vec(row[j].as_slice(), a, b);
            let ghost before = fields_view(out@);
            out.push((j, t));
            proof {
                assert(fields_view(out@) =~= before.push((j as int, trim_bytes(rv[j as int]))));
            }
        }
        j += 1;
    }
    proof {
        assert(rv.subrange(0, row@.len() as int) =~= rv);
    }
    out
}

/// The records of a table: `header` says whether its first row names the
/// columns (a `<th>` row, or one that reads as a header).
pub fn table_rows(rows: &Vec<Vec<Vec<u8>>>, header: bool) -> (r: Vec<(usize, Vec<(usize, Vec<u8>)>)>)
    ensures
        records_view(r@) == table_records(rows_view(rows@), header),
{
    let ghost rv = rows_view(rows@);
    let mut out: Vec<(usize, Vec<(usize, Vec<u8>)>)> = Vec::new();
    let mut i: usize = 0;
    while i < rows.len()
        invariant
            i <= rows@.len(),
            rv == rows_view(rows@),
            records_view(out@) == table_records(rv.subrange(0, i as int), header),
        decreases rows@.len() - i,
    {
        proof {
            assert(rv.subrange(0, i + 1).drop_last() =~= rv.subrange(0, i as int));
            assert(rv[i as int] == vviews(rows@[i as int]@));
        }
        let f = row_fields_exec(&rows[i]);
        if !((header && i == 0) || f.len() == 0) {
            let ghost before = records_view(out@);
            let ghost fv = fields_view(f@);
            out.push((i, f));
            proof {
                assert(records_view(out@) =~= before.push((i as int, fv)));
            }
        }
        i += 1;
    }
    proof {
        assert(rv.subrange(0, rows@.len() as int) =~= rv);
    }
    out
}

/// The title of the document record: the trimmed `<title>`, else the first
/// heading, else the file's stem.
pub open spec fn doc_title(d: DocView, stem: Seq<u8>) -> Seq<u8> {
    if trim_bytes(d.title).len() == 0 {
        if d.headings.len() > 0 {
            d.headings[0]
        } else {
            stem
        }
    } else {
        trim_bytes(d.title)
    }
}

pub fn document_title(doc: &HtmlDoc, stem: &[u8]) -> (r: Vec<u8>)
    ensures
        r@ == doc_title(doc@, stem@),
{
    let (a, b) = trim_exec(doc.title.as_slice());
    if a == b {
        if doc.headings.len() > 0 {
            proof {
                assert(vviews(doc.headings@)[0] == doc.headings@[0]@);
            }
            slice_vec(doc.headings[0].as_slice(), 0, doc.headings[0].len())
        } else {
            slice_vec(stem, 0, stem.len())
        }
    } else {
        slice_vec(doc.title.as_slice(), a, b)
    }
}

/// The page's record rule: when a dominant table exists, its position,
/// whether its first row names the columns (a `<th>` row, or one that
/// reads as a header) and its records; `None` means the page is one
/// document.
pub open spec fn page_records(d: DocView) -> Option<(int, bool, Seq<(int, Seq<(int, Seq<u8>)>)>)> {
    match dominant(d) {
        Some((i, th)) => {
            let rows = d.tables[i];
            let header = th || (rows.len() > 0 && header_like(rows[0]));
            Some((i, header, table_records(rows, header)))
        },
        None => None,
    }
}

/// The records of the page's dominant table, if it has one.
pub fn page_table(doc: &HtmlDoc) -> (r: Option<(usize, bool, Vec<(usize, Vec<(usize, Vec<u8>)>)>)>)
    ensures
        match page_records(doc@) {
            Some((i, h, recs)) => r matches Some(t) && t.0 == i && t.1 == h && records_view(t.2@) == recs,
            None => r is None,
        },
{
    match dominant_table(doc) {
        None => None,
        Some((i, th)) => {
            proof {
                lemma_best_table(tables_view(doc.tables@));
                assert(tables_view(doc.tables@)[i as int] == rows_view(doc.tables@[i as int]@));
            }
            let rows = &doc.tables[i];
            let header = th || (rows.len() > 0 && looks_like_header(&rows[0]));
            proof {
                if rows@.len() > 0 {
                    assert(rows_view(rows@)[0] == vviews(rows@[0]@));
                }
            }
            let recs = table_rows(rows, header);
            Some((i, header, recs))
        },
    }
}

// ---- field names of a table's columns ----

pub open spec fn names_view(v: Seq<String>) -> Seq<Seq<char>> {
    v.map_values(|s: String| s@)
}

/// The name of column `i` (0-based) when the table has no header: `col_1`,
/// `col_2`, ...
pub open spec fn col_name(i: nat) -> Seq<char> {
    "col_"@ + crate::text::dec(i + 1)
}

/// `k` copies of `2`.
pub open spec fn twos(k: nat) -> Seq<char> {
    Seq::new(k, |j: int| '2')
}

/// How many `2`s make `n` a name not yet taken: the fewest, trying at most
/// as many as names are taken (one of those is always free).
pub open spec fn first_free(n: Seq<char>, taken: Seq<Seq<char>>, k: nat) -> nat
    decreases taken.len() - k,
{
    if k >= taken.len() || !taken.contains(n + twos(k)) {
        k
    } else {
        first_free(n, taken, k + 1)
    }
}

/// Each name in turn, suffixed with `2`s until it differs from the names
/// given before it.
pub open spec fn unique_names(base: Seq<Seq<char>>) -> Seq<Seq<char>>
    decreases base.len(),
{
    if base.len() == 0 {
        Seq::empty()
    } else {
        let prev = unique_names(base.drop_last());
        prev.push(base.last() + twos(first_free(base.last(), prev, 0)))
    }
}

/// The field names of a table's columns: the header cells' names when the
/// first row is a header, else `col_1`, `col_2`, ...; a name already given
/// to an earlier column gets `2`s appended until it is new.
pub open spec fn field_names(header: bool, cells: Seq<Seq<char>>) -> Seq<Seq<char>> {
    unique_names(if header { cells } else { Seq::new(cells.len(), |i: int| col_name(i as nat)) })
}

fn col_name_exec(i: usize) -> (r: String)
    requires
        i < u64::MAX,
    ensures
        r@ == col_name(i as nat),
{
    let mut out: Vec<char> = Vec::new();
    crate::text::push_str_chars(&mut out, "col_");
    crate::text::push_dec(&mut out, i as u64 + 1);
    proof {
        reveal_strlit("col_");
        assert(out@ =~= col_name(i as nat));
    }
    crate::text::string_from_chars(out.as_slice())
}

fn taken_contains(v: &Vec<String>, c: &[char]) -> (r: bool)
    ensures
        r == names_view(v@).contains(c@),
{
    let ghost nv = names_view(v@);
    let mut i: usize = 0;
    while i < v.len()
        invariant
            i <= v@.len(),
            nv == names_view(v@),
            forall|j: int| 0 <= j < i ==> nv[j] != c@,
        decreases v@.len() - i,
    {
        let vc = crate::text::chars_of(v[i].as_str());
        if crate::text::chars_eq(vc.as_slice(), c) {
            proof {
                assert(nv[i as int] == c@);
            }
            return true;
        }
        i += 1;
    }
    false
}

/// Field names for the columns, as `field_names` states them; `cells` are
/// the header cells' names (used when `header` is true; otherwise only
/// their count matters).
pub fn header_field_names(header: bool, cells: &Vec<String>) -> (r: Vec<String>)
    requires
        cells@.len() < u64::MAX,
    ensures
        names_view(r@) == field_names(header, names_view(cells@)),
{
    let ghost base = if header {
        names_view(cells@)
    } else {
        Seq::new(cells@.len(), |i: int| col_name(i as nat))
    };
    let mut out: Vec<String> = Vec::new();
    let mut i: usize = 0;
    while i < cells.len()
        invariant
            i <= cells@.len(),
            cells@.len() < u64::MAX,
            base.len() == cells@.len(),
            base == (if header { names_view(cells@) } else { Seq::new(cells@.len(), |i: int| col_name(i as nat)) }),
            names_view(out@) == unique_names(base.subrange(0, i as int)),
        decreases cells@.len() - i,
    {
        let name = if header {
            cells[i].clone()
        } else {
            col_name_exec(i)
        };
        proof {
            assert(name@ == base[i as int]);
        }
        let ghost prev = names_view(out@);
        let mut cur = crate::text::chars_of(name.as_str());
        let mut k: usize = 0;
        proof {
            assert(twos(0) =~= Seq::<char>::empty());
            assert(cur@ =~= name@ + twos(0));
        }
        while k < out.len() && taken_contains(&out, cur.as_slice())
            invariant
                k <= out@.len(),
                prev == names_view(out@),
                cur@ == name@ + twos(k as nat),
                first_free(name@, prev, 0) == first_free(name@, prev, k as nat),
            decreases out@.len() - k,
        {
            cur.push('2');
            proof {
                assert(twos((k + 1) as nat) =~= twos(k as nat).push('2'));
                assert(cur@ =~= name@ + twos((k + 1) as nat));
            }
            k += 1;
        }
        let fresh = crate::text::string_from_chars(cur.as_slice());
        out.push(fresh);
        proof {
            let b = base.subrange(0, i + 1);
            assert(b.drop_last() =~= base.subrange(0, i as int));
            assert(b.last() == name@);
            assert(names_view(out@) =~= prev.push(cur@));
        }
        i += 1;
    }
    proof {
        assert(base.subrange(0, cells@.len() as int) =~= base);
        if !header {
            assert(base =~= Seq::new(names_view(cells@).len(), |i: int| col_name(i as nat)));
        }
    }
    out
}

/// The field a cell of column `j` (0-based) is stored under: the column's
/// name, or `col_<j+1>` past the named columns.
pub fn column_field(names: &Vec<String>, j: usize) -> (r: String)
    requires
        j < u64::MAX,
    ensures
        r@ == if j < names@.len() { names@[j as int]@ } else { col_name(j as nat) },
{
    if j < names.len() {
        names[j].clone()
    } else {
        col_name_exec(j)
    }
}

} // verus!
