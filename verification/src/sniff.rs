//! Content-based format families, the text decoding policy, and the rule that
//! tells a prose document from a stream of line records.

use crate::bytes::{find_from, first_occurrence, matches_at, occurs_at};
use crate::text::{chars_eq, chars_of, push_str_chars, str_eq, string_from_chars, trim, trim_chars, trim_start, ws_prefix_end, ws_prefix_len};
use crate::words::{back_ws, back_ws_exec, skip_ws, skip_ws_exec};
use vstd::prelude::*;
use vstd::string::StringExecFns;
use vstd::string::StringSliceAdditionalSpecFns;

verus! {

#[derive(Debug, Clone, Copy, PartialEq, Eq, Hash)]
pub enum Family {
    Jsonl,
    Json,
    Csv,
    Logs,
    Xml,
    Html,
    Yaml,
    TxtProse,
    TxtLines,
    Pdf,
    Docx,
    Sqlite,
    SqlDump,
    /// Source code, parsed by the grammar of its language.
    Code,
    /// Unity text-serialized asset: a `%YAML` + `%TAG !u! tag:unity3d.com` stream.
    UnityYaml,
    /// Unity `.meta` sidecar carrying the asset `guid`.
    UnityMeta,
    /// Biovision motion capture: indexed as one metadata record per file.
    Bvh,
    /// User-designated existence-only file: one name-card record, never opened.
    Stub,
    Binary,
}

pub open spec fn family_name(f: Family) -> Seq<char> {
    match f {
        Family::Jsonl => "jsonl"@,
        Family::Json => "json"@,
        Family::Csv => "csv"@,
        Family::Logs => "logs"@,
        Family::Xml => "xml"@,
        Family::Html => "html"@,
        Family::Yaml => "yaml"@,
        Family::TxtProse => "txt-prose"@,
        Family::TxtLines => "txt-lines"@,
        Family::Pdf => "pdf"@,
        Family::Docx => "docx"@,
        Family::Sqlite => "sqlite"@,
        Family::SqlDump => "sqldump"@,
        Family::Code => "code"@,
        Family::UnityYaml => "unity"@,
        Family::UnityMeta => "unity-meta"@,
        Family::Bvh => "bvh"@,
        Family::Stub => "stub"@,
        Family::Binary => "binary"@,
    }
}

impl Family {
    /// The family's name, as datasets and corpus records carry it.
    pub fn as_str(&self) -> (r: &'static str)
        ensures
            r@ == family_name(*self),
    {
        match self {
            Family::Jsonl => "jsonl",
            Family::Json => "json",
            Family::Csv => "csv",
            Family::Logs => "logs",
            Family::Xml => "xml",
            Family::Html => "html",
            Family::Yaml => "yaml",
            Family::TxtProse => "txt-prose",
            Family::TxtLines => "txt-lines",
            Family::Pdf => "pdf",
            Family::Docx => "docx",
            Family::Sqlite => "sqlite",
            Family::SqlDump => "sqldump",
            Family::Code => "code",
            Family::UnityYaml => "unity",
            Family::UnityMeta => "unity-meta",
            Family::Bvh => "bvh",
            Family::Stub => "stub",
            Family::Binary => "binary",
        }
    }

    /// Document families produce one record per document or section.
    pub fn is_document(&self) -> (r: bool)
        ensures
            r == (*self == Family::Pdf || *self == Family::Docx || *self == Family::TxtProse),
    {
        match self {
            Family::Pdf | Family::Docx | Family::TxtProse => true,
            _ => false,
        }
    }
}

#[derive(Debug, Clone, Copy)]
pub struct CsvDialect {
    pub delim: u8,
    pub has_header: bool,
    pub decimal_comma: bool,
}

#[derive(Debug, Clone)]
pub struct Sniffed {
    pub family: Family,
    pub gzip: bool,
    /// e.g. "png", "zip", "elf", "unknown": set when the family is `Binary`.
    pub binary_kind: Option<String>,
    pub csv: Option<CsvDialect>,
    /// "utf-8" or "windows-1252 (lossy)".
    pub encoding: &'static str,
    /// File name of the logical source, even when the sniffed content lives
    /// elsewhere (a content-addressed snapshot blob).
    pub logical_name: Option<std::path::PathBuf>,
}

/// How a sniff result is labelled in reports: the family, marked when the
/// content came gzip-compressed; `unknown` when nothing was sniffed.
pub open spec fn format_label(sn: Option<Sniffed>) -> Seq<char> {
    match sn {
        Some(s) => if s.gzip {
            family_name(s.family) + "(gzip)"@
        } else {
            family_name(s.family)
        },
        None => "unknown"@,
    }
}

/// The report label of a sniff result.
pub fn format_str(sn: Option<&Sniffed>) -> (r: String)
    ensures
        r@ == format_label(match sn {
            Some(s) => Some(*s),
            None => None,
        }),
{
    let mut out: Vec<char> = Vec::new();
    match sn {
        Some(s) => {
            push_str_chars(&mut out, s.family.as_str());
            if s.gzip {
                push_str_chars(&mut out, "(gzip)");
            }
        },
        None => push_str_chars(&mut out, "unknown"),
    }
    string_from_chars(out.as_slice())
}

/// How many leading bytes decide whether a file is gzip-compressed.
pub const GZIP_PROBE_LEN: usize = 8;

/// How many leading (decompressed) bytes the sniffer classifies.
pub const SNIFF_PREFIX_LEN: usize = 8192;

/// The file starts with the gzip magic `1f 8b`.
pub fn is_gzip_magic(head: &[u8]) -> (r: bool)
    ensures
        r == (head@.len() >= 2 && head@[0] == 0x1fu8 && head@[1] == 0x8bu8),
{
    head.len() >= 2 && head[0] == 0x1fu8 && head[1] == 0x8bu8
}

/// The part every Word document holds.
pub const DOCX_MAIN_PART: &'static str = "word/document.xml";

/// A zip container is a Word document iff one of its entries is the main
/// document part.
pub fn holds_docx_part(entry_names: &[String]) -> (r: bool)
    ensures
        r == exists|i: int| 0 <= i < entry_names@.len() && (#[trigger] entry_names@[i])@ == DOCX_MAIN_PART@,
{
    let mut i: usize = 0;
    while i < entry_names.len()
        invariant
            i <= entry_names@.len(),
            forall|j: int| 0 <= j < i ==> (#[trigger] entry_names@[j])@ != DOCX_MAIN_PART@,
        decreases entry_names@.len() - i,
    {
        if str_eq(entry_names[i].as_str(), DOCX_MAIN_PART) {
            return true;
        }
        i += 1;
    }
    false
}

/// The label of the last-resort decode. Every byte maps to something in
/// windows-1252, so it carries no evidence that the bytes are text.
pub const WINDOWS_1252_LOSSY: &'static str = "windows-1252 (lossy)";

/// Where `std::str::from_utf8` stops on some bytes (`None` when all are valid).
pub uninterp spec fn utf8_error_at(b: Seq<u8>) -> Option<usize>;

/// What `String::from_utf8_lossy` makes of some bytes.
pub uninterp spec fn utf8_lossy(b: Seq<u8>) -> Seq<char>;

/// What `encoding_rs::WINDOWS_1252.decode` makes of some bytes.
pub uninterp spec fn windows_1252(b: Seq<u8>) -> Seq<char>;

/// A UTF-8 continuation byte.
pub open spec fn continuation(x: u8) -> bool {
    0x80 <= x && x <= 0xBF
}

/// The length of the well-formed UTF-8 sequence that starts at `i`, 0 when
/// none does (the table of well-formed byte sequences of the Unicode
/// standard: no overlong form, no surrogate, nothing past U+10FFFF).
pub open spec fn utf8_seq_len(b: Seq<u8>, i: int) -> int {
    let n = b.len() - i;
    let x = b[i];
    if x <= 0x7F {
        1
    } else if 0xC2 <= x && x <= 0xDF {
        if n >= 2 && continuation(b[i + 1]) { 2 } else { 0 }
    } else if x == 0xE0 {
        if n >= 3 && 0xA0 <= b[i + 1] && b[i + 1] <= 0xBF && continuation(b[i + 2]) { 3 } else { 0 }
    } else if (0xE1 <= x && x <= 0xEC) || x == 0xEE || x == 0xEF {
        if n >= 3 && continuation(b[i + 1]) && continuation(b[i + 2]) { 3 } else { 0 }
    } else if x == 0xED {
        if n >= 3 && 0x80 <= b[i + 1] && b[i + 1] <= 0x9F && continuation(b[i + 2]) { 3 } else { 0 }
    } else if x == 0xF0 {
        if n >= 4 && 0x90 <= b[i + 1] && b[i + 1] <= 0xBF && continuation(b[i + 2]) && continuation(b[i + 3]) {
            4
        } else {
            0
        }
    } else if 0xF1 <= x && x <= 0xF3 {
        if n >= 4 && continuation(b[i + 1]) && continuation(b[i + 2]) && continuation(b[i + 3]) { 4 } else { 0 }
    } else if x == 0xF4 {
        if n >= 4 && 0x80 <= b[i + 1] && b[i + 1] <= 0x8F && continuation(b[i + 2]) && continuation(b[i + 3]) {
            4
        } else {
            0
        }
    } else {
        0
    }
}

/// The bytes from `i` on are well-formed UTF-8.
pub open spec fn valid_utf8_from(b: Seq<u8>, i: int) -> bool
    decreases b.len() - i,
{
    if i < 0 || i >= b.len() {
        true
    } else if utf8_seq_len(b, i) <= 0 {
        false
    } else {
        valid_utf8_from(b, i + utf8_seq_len(b, i))
    }
}

pub open spec fn valid_utf8(b: Seq<u8>) -> bool {
    valid_utf8_from(b, 0)
}

/// `std::str::from_utf8`, reduced to `Utf8Error::valid_up_to` on failure:
/// `None` exactly when the bytes are well-formed UTF-8, else the longest
/// prefix that is. The position is also named.
#[verifier::external_body]
fn utf8_check(bytes: &[u8]) -> (r: Option<usize>)
    ensures
        r == utf8_error_at(bytes@),
        r is None <==> valid_utf8(bytes@),
        r matches Some(k) ==> k < bytes@.len() && valid_utf8(bytes@.subrange(0, k as int)) && forall|j: int|
            k < j <= bytes@.len() ==> !valid_utf8(#[trigger] bytes@.subrange(0, j)),
{
    match std::str::from_utf8(bytes) {
        Ok(_) => None,
        Err(e) => Some(e.valid_up_to()),
    }
}

/// `String::from_utf8_lossy`, owned. Named; of well-formed UTF-8 it states
/// what std documents: the text is the one those bytes encode, unchanged.
#[verifier::external_body]
pub(crate) fn utf8_lossy_string(bytes: &[u8]) -> (r: String)
    ensures
        r@ == utf8_lossy(bytes@),
        valid_utf8(bytes@) ==> crate::text::utf8s(r@) == bytes@,
{
    String::from_utf8_lossy(bytes).into_owned()
}

/// `encoding_rs::WINDOWS_1252.decode`, owned. Named, not stated.
#[verifier::external_body]
fn windows_1252_string(bytes: &[u8]) -> (r: String)
    ensures
        r@ == windows_1252(bytes@),
{
    let (s, _, _) = encoding_rs::WINDOWS_1252.decode(bytes);
    s.into_owned()
}

/// How a buffer is decoded.
#[derive(Debug, Clone, Copy, PartialEq, Eq)]
pub enum Decoding {
    /// All of it is UTF-8.
    Utf8,
    /// UTF-8 up to this index: a multi-byte character was cut at the end.
    Utf8Prefix(usize),
    /// The last resort: windows-1252, lossy.
    Windows1252,
}

/// The decoding policy, given where UTF-8 validation stopped: a failure
/// within the last four bytes is a character cut at the buffer's end.
pub open spec fn spec_decoding(len: usize, error_at: Option<usize>) -> Decoding {
    match error_at {
        None => Decoding::Utf8,
        Some(k) => if k + 4 >= len {
            Decoding::Utf8Prefix(k)
        } else {
            Decoding::Windows1252
        },
    }
}

pub fn choose_decoding(len: usize, error_at: Option<usize>) -> (r: Decoding)
    ensures
        r == spec_decoding(len, error_at),
{
    match error_at {
        None => Decoding::Utf8,
        Some(k) => if k as u128 + 4 >= len as u128 {
            Decoding::Utf8Prefix(k)
        } else {
            Decoding::Windows1252
        },
    }
}

/// The text and the label of the decoding policy.
pub open spec fn decoded(b: Seq<u8>) -> (Seq<char>, Seq<char>) {
    match spec_decoding(b.len() as usize, utf8_error_at(b)) {
        Decoding::Utf8 => (utf8_lossy(b), "utf-8"@),
        Decoding::Utf8Prefix(k) => (
            if k <= b.len() {
                utf8_lossy(b.subrange(0, k as int))
            } else {
                utf8_lossy(b)
            },
            "utf-8"@,
        ),
        Decoding::Windows1252 => (windows_1252(b), WINDOWS_1252_LOSSY@),
    }
}

/// Decode a whole byte buffer for extraction: UTF-8, tolerating a character
/// cut at the end, else windows-1252; with the label of the decoding used.
pub fn decode_text(bytes: &[u8]) -> (r: (String, &'static str))
    ensures
        r.0@ == decoded(bytes@).0,
        r.1@ == decoded(bytes@).1,
        valid_utf8(bytes@) ==> crate::text::utf8s(r.0@) == bytes@ && r.1@ == "utf-8"@,
        match utf8_error_at(bytes@) {
            Some(k) => k + 4 >= bytes@.len() ==> crate::text::utf8s(r.0@) == bytes@.subrange(0, k as int) && r.1@
                == "utf-8"@,
            None => true,
        },
{
    let e = utf8_check(bytes);
    match choose_decoding(bytes.len(), e) {
        Decoding::Utf8 => (utf8_lossy_string(bytes), "utf-8"),
        Decoding::Utf8Prefix(k) => {
            if k <= bytes.len() {
                let head = crate::bytes::slice_vec(bytes, 0, k);
                (utf8_lossy_string(head.as_slice()), "utf-8")
            } else {
                (utf8_lossy_string(bytes), "utf-8")
            }
        },
        Decoding::Windows1252 => (windows_1252_string(bytes), WINDOWS_1252_LOSSY),
    }
}

/// The bytes of each line.
pub open spec fn line_bytes(ls: Seq<&str>) -> Seq<Seq<u8>> {
    ls.map_values(|l: &str| l.spec_bytes())
}

/// Total byte length of the lines.
pub open spec fn total_len(ls: Seq<Seq<u8>>) -> nat
    decreases ls.len(),
{
    if ls.len() == 0 {
        0
    } else {
        total_len(ls.drop_last()) + ls.last().len()
    }
}

/// A line whose right-trimmed text ends in `.`, `!` or `?`.
pub open spec fn ends_sentence(l: Seq<u8>) -> bool {
    let e = back_ws(l, l.len() as int, 0);
    e > 0 && (l[e - 1] == 46u8 || l[e - 1] == 33u8 || l[e - 1] == 63u8)
}

pub open spec fn sentences(ls: Seq<Seq<u8>>) -> nat
    decreases ls.len(),
{
    if ls.len() == 0 {
        0
    } else {
        sentences(ls.drop_last()) + if ends_sentence(ls.last()) {
            1nat
        } else {
            0nat
        }
    }
}

/// A line holding `[[` or `](`.
pub open spec fn has_link_syntax(l: Seq<u8>) -> bool {
    first_occurrence(l, seq![91u8, 91u8], 0) is Some || first_occurrence(l, seq![93u8, 40u8], 0) is Some
}

pub open spec fn any_link_syntax(ls: Seq<Seq<u8>>) -> bool {
    exists|i: int| 0 <= i < ls.len() && has_link_syntax(#[trigger] ls[i])
}

/// Length of the run of `#` at `k`.
pub open spec fn hash_run(l: Seq<u8>, k: int) -> int
    decreases l.len() - k,
{
    if 0 <= k < l.len() && l[k] == 35u8 {
        1 + hash_run(l, k + 1)
    } else {
        0
    }
}

/// `# Title` … `###### Title`: 1 to 6 `#`, a space, then text (after
/// leading white space). `#!/bin/sh` and a bare `#` are not headings.
pub open spec fn is_md_heading(l: Seq<u8>) -> bool {
    let a = skip_ws(l, 0);
    let h = hash_run(l, a);
    1 <= h <= 6 && a + h < l.len() && l[a + h] == 32u8 && l.len() - a > h + 1
}

/// Prose or line records, for the non-blank lines of a text. Averages and
/// ratios are compared exactly: an average line over 60 bytes, at most five
/// lines, a sentence ratio of at least 0.40, or a heading opener with link
/// syntax or a sentence ratio of at least 0.20 make prose.
pub open spec fn spec_txt_kind(ls: Seq<Seq<u8>>) -> Family {
    let n = ls.len();
    let s = sentences(ls);
    if n == 0 {
        Family::TxtLines
    } else if total_len(ls) > 60 * n {
        Family::TxtProse
    } else if n <= 5 {
        Family::TxtProse
    } else if 10 * s >= 4 * n {
        Family::TxtProse
    } else if is_md_heading(ls[0]) && (any_link_syntax(ls) || 5 * s >= n) {
        Family::TxtProse
    } else {
        Family::TxtLines
    }
}

fn sentence_end_exec(l: &[u8]) -> (r: bool)
    ensures
        r == ends_sentence(l@),
{
    let e = back_ws_exec(l, l.len(), 0);
    e > 0 && (l[e - 1] == 46u8 || l[e - 1] == 33u8 || l[e - 1] == 63u8)
}

fn link_syntax_exec(l: &[u8]) -> (r: bool)
    ensures
        r == has_link_syntax(l@),
{
    let a: [u8; 2] = [91u8, 91u8];
    let b: [u8; 2] = [93u8, 40u8];
    proof {
        assert(a@ =~= seq![91u8, 91u8]);
        assert(b@ =~= seq![93u8, 40u8]);
    }
    find_from(l, &a, 0).is_some() || find_from(l, &b, 0).is_some()
}

pub fn md_heading(l: &[u8]) -> (r: bool)
    ensures
        r == is_md_heading(l@),
{
    let n = l.len();
    let a = skip_ws_exec(l, 0);
    let mut k = a;
    while k < n && l[k] == 35u8
        invariant
            a <= k <= n,
            n == l@.len(),
            hash_run(l@, a as int) == (k - a) + hash_run(l@, k as int),
        decreases n - k,
    {
        k += 1;
    }
    let h = k - a;
    1 <= h && h <= 6 && k < n && l[k] == 32u8 && n - a > h + 1
}

/// A hard-wrapped markdown page is prose: more than five lines, short on
/// average, opening with an ATX heading, with at least one line in five
/// ending a sentence, is `TxtProse` whether or not it holds link syntax.
pub proof fn lemma_heading_opened_page_is_prose(ls: Seq<Seq<u8>>)
    requires
        ls.len() > 5,
        total_len(ls) <= 60 * ls.len(),
        is_md_heading(ls[0]),
        5 * sentences(ls) >= ls.len(),
    ensures
        spec_txt_kind(ls) == Family::TxtProse,
{
}

/// The other ways a text is prose, and when it is line records: no lines
/// make line records; long lines on average (over 60 bytes), at most five
/// lines, or at least two lines in five ending a sentence make prose; so does
/// an ATX-heading opener with link syntax (`[[` or `](`) anywhere.
pub proof fn lemma_prose_or_lines(ls: Seq<Seq<u8>>)
    ensures
        ls.len() == 0 ==> spec_txt_kind(ls) == Family::TxtLines,
        ls.len() > 0 && total_len(ls) > 60 * ls.len() ==> spec_txt_kind(ls) == Family::TxtProse,
        0 < ls.len() <= 5 ==> spec_txt_kind(ls) == Family::TxtProse,
        ls.len() > 0 && 10 * sentences(ls) >= 4 * ls.len() ==> spec_txt_kind(ls) == Family::TxtProse,
        ls.len() > 0 && is_md_heading(ls[0]) && (exists|i: int| 0 <= i < ls.len() && #[trigger] has_link_syntax(ls[i]))
            ==> spec_txt_kind(ls) == Family::TxtProse,
        ls.len() > 5 && total_len(ls) <= 60 * ls.len() && 10 * sentences(ls) < 4 * ls.len() && !is_md_heading(ls[0])
            ==> spec_txt_kind(ls) == Family::TxtLines,
{
}

/// Short line records are never prose by the heading rule alone: more than
/// five lines, short on average, with fewer than one line in five ending a
/// sentence and no link syntax anywhere are `TxtLines`.
pub proof fn lemma_unpunctuated_records_are_lines(ls: Seq<Seq<u8>>)
    requires
        ls.len() > 5,
        total_len(ls) <= 60 * ls.len(),
        5 * sentences(ls) < ls.len(),
        forall|i: int| 0 <= i < ls.len() ==> !has_link_syntax(#[trigger] ls[i]),
    ensures
        spec_txt_kind(ls) == Family::TxtLines,
{
}

/// Prose or line records, for the non-blank lines of a text.
pub fn txt_kind(nonblank: &[&str]) -> (r: Family)
    ensures
        r == spec_txt_kind(line_bytes(nonblank@)),
        ({
            let ls = line_bytes(nonblank@);
            ls.len() > 5 && total_len(ls) <= 60 * ls.len() && is_md_heading(ls[0]) && 5 * sentences(ls) >= ls.len()
                ==> r == Family::TxtProse
        }),
{
    proof {
        let ls = line_bytes(nonblank@);
        if ls.len() > 5 && total_len(ls) <= 60 * ls.len() && is_md_heading(ls[0]) && 5 * sentences(ls) >= ls.len() {
            lemma_heading_opened_page_is_prose(ls);
        }
    }
    let ghost ls = line_bytes(nonblank@);
    let n = nonblank.len();
    if n == 0 {
        return Family::TxtLines;
    }
    let limit: u128 = 60 * (n as u128);
    let mut total: u128 = 0;
    let mut s: usize = 0;
    let mut link = false;
    let mut i: usize = 0;
    while i < n
        invariant
            i <= n,
            n == nonblank@.len(),
            ls == line_bytes(nonblank@),
            limit == 60 * n,
            total <= limit || total_len(ls.subrange(0, i as int)) > limit,
            total <= limit ==> total == total_len(ls.subrange(0, i as int)),
            total <= limit + 0x1_0000_0000_0000_0000,
            s == sentences(ls.subrange(0, i as int)),
            s <= i,
            link == any_link_syntax(ls.subrange(0, i as int)),
        decreases n - i,
    {
        let l = nonblank[i].as_bytes();
        let ghost pre = ls.subrange(0, i as int);
        let ghost nxt = ls.subrange(0, i + 1);
        proof {
            assert(nxt.drop_last() =~= pre);
            assert(nxt.last() == l@);
        }
        if total <= limit {
            total = total + l.len() as u128;
        }
        if sentence_end_exec(l) {
            s += 1;
        }
        let has = link_syntax_exec(l);
        proof {
            if any_link_syntax(nxt) && !any_link_syntax(pre) {
                let j = choose|j: int| 0 <= j < nxt.len() && has_link_syntax(#[trigger] nxt[j]);
                assert(j == i);
            }
            if any_link_syntax(pre) {
                let j = choose|j: int| 0 <= j < pre.len() && has_link_syntax(#[trigger] pre[j]);
                assert(nxt[j] == pre[j]);
            }
            if has {
                assert(nxt[i as int] == l@);
            }
        }
        link = link || has;
        i += 1;
    }
    proof {
        assert(ls.subrange(0, n as int) =~= ls);
    }
    if total > limit {
        return Family::TxtProse;
    }
    if n <= 5 {
        return Family::TxtProse;
    }
    let s128 = s as u128;
    let n128 = n as u128;
    if 10 * s128 >= 4 * n128 {
        return Family::TxtProse;
    }
    if md_heading(nonblank[0].as_bytes()) && (link || 5 * s128 >= n128) {
        return Family::TxtProse;
    }
    Family::TxtLines
}

// ---- the content sniff: magic bytes and binary guards ----

/// Adobe Photoshop: `8BPS`, then the big-endian version 1 (PSD) or 2 (PSB).
pub open spec fn psd_version(p: Seq<u8>) -> bool {
    p.len() >= 6 && p[4] == 0 && (p[5] == 1 || p[5] == 2)
}

/// A byte that text does not hold: a control character or one outside ASCII.
pub open spec fn not_text_byte(b: u8) -> bool {
    b < 0x20 || b >= 0x7f
}

/// Entries of a GIF colour table for the size bits of its flags.
pub open spec fn table_entries(bits: u8) -> int {
    if bits == 0 {
        2
    } else if bits == 1 {
        4
    } else if bits == 2 {
        8
    } else if bits == 3 {
        16
    } else if bits == 4 {
        32
    } else if bits == 5 {
        64
    } else if bits == 6 {
        128
    } else {
        256
    }
}

/// Bytes of the global colour table a GIF's screen flags announce.
pub open spec fn gct_len(flags: u8) -> int {
    if flags >= 128 {
        3 * table_entries(flags % 8)
    } else {
        0
    }
}

/// GIF: version `87a` or `89a`; a logical screen descriptor (bytes 6..13:
/// little-endian width and height, flags, background, aspect) holding a
/// byte that text does not; and, where the prefix reaches it, a first block
/// after the global colour table that is an image (0x2C), the trailer
/// (0x3B) or an extension (0x21) with a defined label.
pub open spec fn gif_screen(p: Seq<u8>) -> bool {
    &&& p.len() >= 13
    &&& (p[4] == 55 || p[4] == 57)
    &&& p[5] == 97
    &&& (not_text_byte(p[6]) || not_text_byte(p[7]) || not_text_byte(p[8]) || not_text_byte(p[9]) || not_text_byte(
        p[10],
    ) || not_text_byte(p[11]) || not_text_byte(p[12]))
    &&& {
        let k = 13 + gct_len(p[10]);
        ||| k >= p.len()
        ||| p[k] == 0x2c
        ||| p[k] == 0x3b
        ||| (p[k] == 0x21 && (k + 1 >= p.len() || p[k + 1] == 0x01 || p[k + 1] == 0xf9 || p[k + 1] == 0xfe
            || p[k + 1] == 0xff))
    }
}

/// Windows bitmap: the four reserved bytes are zero, and the bitmap
/// information header (at byte 14) has one of the defined sizes (12, 40,
/// 52, 56, 64, 108 or 124, little-endian).
pub open spec fn bmp_header(p: Seq<u8>) -> bool {
    &&& p.len() >= 18
    &&& p[6] == 0 && p[7] == 0 && p[8] == 0 && p[9] == 0
    &&& p[15] == 0 && p[16] == 0 && p[17] == 0
    &&& (p[14] == 12 || p[14] == 40 || p[14] == 52 || p[14] == 56 || p[14] == 64 || p[14] == 108 || p[14] == 124)
}

/// RIFF container: a known four-character FORM type at bytes 8..12.
pub open spec fn riff_form(p: Seq<u8>) -> bool {
    p.len() >= 12 && {
        let f = p.subrange(8, 12);
        ||| f == seq![87u8, 65u8, 86u8, 69u8]
        ||| f == seq![65u8, 86u8, 73u8, 32u8]
        ||| f == seq![87u8, 69u8, 66u8, 80u8]
        ||| f == seq![82u8, 77u8, 73u8, 68u8]
        ||| f == seq![65u8, 78u8, 73u8, 32u8]
        ||| f == seq![67u8, 68u8, 68u8, 65u8]
        ||| f == seq![80u8, 65u8, 76u8, 32u8]
        ||| f == seq![82u8, 68u8, 73u8, 66u8]
    }
}

/// Ogg page: the stream structure version, always 0.
pub open spec fn ogg_page(p: Seq<u8>) -> bool {
    p.len() >= 5 && p[4] == 0
}

/// FLAC: the first metadata block is STREAMINFO (type 0, the top bit being
/// the last-block flag).
pub open spec fn flac_metadata_block(p: Seq<u8>) -> bool {
    p.len() >= 5 && (p[4] == 0 || p[4] == 128)
}

/// ID3v2: major version 2 to 4, a revision other than 0xFF, and a
/// synchsafe size (four bytes under 0x80).
pub open spec fn id3v2_header(p: Seq<u8>) -> bool {
    p.len() >= 10 && 2 <= p[3] <= 4 && p[4] != 0xff && forall|i: int| 6 <= i < 10 ==> #[trigger] p[i] < 0x80
}

/// Truevision TGA, which has no magic number: a colour-map type of 0 or 1,
/// an image type of 1, 2, 3, 9, 10 or 11, a pixel depth of 8, 15, 16, 24 or
/// 32, an all-zero colour-map descriptor when there is no colour map, and a
/// non-zero width and height (little-endian).
pub open spec fn tga_header(p: Seq<u8>) -> bool {
    &&& p.len() >= 18
    &&& p[1] <= 1
    &&& (p[2] == 1 || p[2] == 2 || p[2] == 3 || p[2] == 9 || p[2] == 10 || p[2] == 11)
    &&& (p[16] == 8 || p[16] == 15 || p[16] == 16 || p[16] == 24 || p[16] == 32)
    &&& (p[1] == 0 ==> forall|i: int| 3 <= i < 8 ==> #[trigger] p[i] == 0)
    &&& (p[12] != 0 || p[13] != 0)
    &&& (p[14] != 0 || p[15] != 0)
}

pub open spec fn starts(p: Seq<u8>, m: Seq<u8>) -> bool {
    occurs_at(p, m, 0)
}

/// The media signatures, in order; each printable one with its qualifier.
pub open spec fn media_kind(p: Seq<u8>) -> Option<Seq<char>> {
    if starts(p, seq![0x89u8, 80u8, 78u8, 71u8]) {
        Some("png"@)
    } else if starts(p, seq![71u8, 73u8, 70u8, 56u8]) && gif_screen(p) {
        Some("gif"@)
    } else if starts(p, seq![0xffu8, 0xd8u8, 0xffu8]) {
        Some("jpeg"@)
    } else if starts(p, seq![0x7fu8, 69u8, 76u8, 70u8]) {
        Some("elf"@)
    } else if starts(p, seq![66u8, 77u8]) && bmp_header(p) {
        Some("bmp"@)
    } else if starts(p, seq![0u8, 0u8, 1u8, 0u8]) {
        Some("ico"@)
    } else if starts(p, seq![56u8, 66u8, 80u8, 83u8]) && psd_version(p) {
        Some("psd"@)
    } else if starts(p, seq![73u8, 73u8, 42u8, 0u8]) {
        Some("tiff"@)
    } else if starts(p, seq![77u8, 77u8, 0u8, 42u8]) {
        Some("tiff"@)
    } else if starts(p, seq![82u8, 73u8, 70u8, 70u8]) && riff_form(p) {
        Some("riff"@)
    } else if starts(p, seq![79u8, 103u8, 103u8, 83u8]) && ogg_page(p) {
        Some("ogg"@)
    } else if starts(p, seq![102u8, 76u8, 97u8, 67u8]) && flac_metadata_block(p) {
        Some("flac"@)
    } else if starts(p, seq![73u8, 68u8, 51u8]) && id3v2_header(p) {
        Some("mp3"@)
    } else if starts(p, fbx_magic()) {
        Some("fbx"@)
    } else if starts(p, seq![0x76u8, 0x2fu8, 0x31u8, 0x01u8]) {
        Some("exr"@)
    } else {
        None
    }
}

/// `Kaydara FBX Binary`
pub open spec fn fbx_magic() -> Seq<u8> {
    seq![75u8, 97u8, 121u8, 100u8, 97u8, 114u8, 97u8, 32u8, 70u8, 66u8, 88u8, 32u8, 66u8, 105u8, 110u8, 97u8, 114u8, 121u8]
}

/// `SQLite format 3` and a NUL.
pub open spec fn sqlite_magic() -> Seq<u8> {
    seq![83u8, 81u8, 76u8, 105u8, 116u8, 101u8, 32u8, 102u8, 111u8, 114u8, 109u8, 97u8, 116u8, 32u8, 51u8, 0u8]
}

pub open spec fn zero_count(p: Seq<u8>) -> nat
    decreases p.len(),
{
    if p.len() == 0 {
        0
    } else {
        zero_count(p.drop_last()) + if p.last() == 0 {
            1nat
        } else {
            0nat
        }
    }
}

/// A control character other than tab, line feed and carriage return.
pub open spec fn is_ctrl(c: char) -> bool {
    (c as u32) < 0x20 && c != '\t' && c != '\n' && c != '\r'
}

pub open spec fn ctrl_count(t: Seq<char>) -> nat
    decreases t.len(),
{
    if t.len() == 0 {
        0
    } else {
        ctrl_count(t.drop_last()) + if is_ctrl(t.last()) {
            1nat
        } else {
            0nat
        }
    }
}

/// Leading byte-order marks removed.
pub open spec fn strip_bom(t: Seq<char>) -> Seq<char>
    decreases t.len(),
{
    if t.len() > 0 && t[0] == '\u{feff}' {
        strip_bom(t.drop_first())
    } else {
        t
    }
}

pub open spec fn c_occurs(t: Seq<char>, m: Seq<char>, i: int) -> bool {
    0 <= i && i + m.len() <= t.len() && t.subrange(i, i + m.len()) == m
}

/// End of the line that starts at `k`: the next line feed, or the end.
pub open spec fn line_end(t: Seq<char>, k: int) -> int
    decreases t.len() - k,
{
    if k < 0 || k >= t.len() {
        t.len() as int
    } else if t[k] == '\n' {
        k
    } else {
        line_end(t, k + 1)
    }
}

/// Lines are split at line feeds; every use below trims a line or tests
/// how it starts, so a carriage return before the feed changes nothing.
pub open spec fn first_line(t: Seq<char>) -> Seq<char> {
    t.subrange(0, line_end(t, 0))
}

/// A Unity scene, prefab or asset serialized as text.
pub open spec fn unity_yaml(b: Seq<char>) -> bool {
    c_occurs(b, "%YAML"@, 0) && exists|i: int| c_occurs(b, "%TAG !u! tag:unity3d.com"@, i)
}

/// A Unity `.meta` sidecar: it opens with `fileFormatVersion:` and some
/// line starts with `guid:`.
pub open spec fn unity_meta(b: Seq<char>) -> bool {
    c_occurs(first_line(b), "fileFormatVersion:"@, 0) && exists|s: int|
        (s == 0 || (0 < s <= b.len() && b[s - 1] == '\n')) && #[trigger] c_occurs(b, "guid:"@, s)
}

/// BVH motion capture: `HIERARCHY` alone on the first line, and a second
/// line that starts (after white space) with `ROOT `.
pub open spec fn bvh(b: Seq<char>) -> bool {
    let e = line_end(b, 0);
    trim(first_line(b)) == "HIERARCHY"@ && e + 1 < b.len() && c_occurs(
        trim_start(b.subrange(e + 1, line_end(b, e + 1))),
        "ROOT "@,
        0,
    )
}

/// What the content sniff decides before the text heuristics, as (family,
/// binary kind, encoding label); `None` when the text heuristics decide.
/// `docx` says whether the file is a zip archive holding
/// `word/document.xml`; `code` whether its name has a source-code extension.
pub open spec fn head_outcome(p: Seq<u8>, docx: bool, code: bool) -> Option<(Family, Option<Seq<char>>, Seq<char>)> {
    if p.len() == 0 {
        Some((Family::Binary, Some("empty"@), "utf-8"@))
    } else if starts(p, seq![37u8, 80u8, 68u8, 70u8, 45u8]) {
        Some((Family::Pdf, None, "utf-8"@))
    } else if starts(p, sqlite_magic()) {
        Some((Family::Sqlite, None, "utf-8"@))
    } else if starts(p, seq![80u8, 75u8, 3u8, 4u8]) {
        if docx {
            Some((Family::Docx, None, "utf-8"@))
        } else {
            Some((Family::Binary, Some("zip"@), "utf-8"@))
        }
    } else if media_kind(p) is Some {
        Some((Family::Binary, media_kind(p), "utf-8"@))
    } else if tga_header(p) {
        Some((Family::Binary, Some("tga"@), "utf-8"@))
    } else if zero_count(p) * 10 > p.len() {
        Some((Family::Binary, Some("unknown"@), "utf-8"@))
    } else {
        let t = decoded(p).0;
        let enc = decoded(p).1;
        let n = if t.len() > 0 {
            t.len()
        } else {
            1
        };
        let b = strip_bom(t);
        if ctrl_count(t) * 10 > n {
            Some((Family::Binary, Some("unknown"@), "utf-8"@))
        } else if unity_yaml(b) {
            Some((Family::UnityYaml, None, enc))
        } else if unity_meta(b) {
            Some((Family::UnityMeta, None, enc))
        } else if bvh(b) {
            Some((Family::Bvh, None, enc))
        } else if code {
            Some((Family::Code, None, enc))
        } else {
            None
        }
    }
}

pub open spec fn kind_view(k: Option<String>) -> Option<Seq<char>> {
    match k {
        Some(s) => Some(s@),
        None => None,
    }
}

fn mk(family: Family, kind: Option<&str>, encoding: &'static str) -> (r: Sniffed)
    ensures
        r.family == family,
        kind_view(r.binary_kind) == match kind {
            Some(k) => Some(k@),
            None => None::<Seq<char>>,
        },
        r.encoding == encoding,
        !r.gzip,
        r.csv is None,
        r.logical_name is None,
{
    let binary_kind = match kind {
        Some(k) => Some(String::from_str(k)),
        None => None,
    };
    Sniffed { family, gzip: false, binary_kind, csv: None, encoding, logical_name: None }
}

pub fn looks_like_tga_header(p: &[u8]) -> (r: bool)
    ensures
        r == tga_header(p@),
{
    if p.len() < 18 {
        return false;
    }
    let cm = p[1];
    if cm > 1 {
        return false;
    }
    let it = p[2];
    if !(it == 1 || it == 2 || it == 3 || it == 9 || it == 10 || it == 11) {
        return false;
    }
    let d = p[16];
    if !(d == 8 || d == 15 || d == 16 || d == 24 || d == 32) {
        return false;
    }
    if cm == 0 {
        let mut i: usize = 3;
        while i < 8
            invariant
                3 <= i <= 8,
                p@.len() >= 18,
                p@[1] == 0,
                forall|j: int| 3 <= j < i ==> #[trigger] p@[j] == 0,
            decreases 8 - i,
        {
            if p[i] != 0 {
                assert(p@[i as int] != 0);
                return false;
            }
            i += 1;
        }
    }
    (p[12] != 0 || p[13] != 0) && (p[14] != 0 || p[15] != 0)
}

fn riff_form_exec(p: &[u8]) -> (r: bool)
    ensures
        r == riff_form(p@),
{
    if p.len() < 12 {
        return false;
    }
    let a = p[8];
    let b = p[9];
    let c = p[10];
    let d = p[11];
    proof {
        assert(p@.subrange(8, 12) =~= seq![a, b, c, d]);
    }
    (a == 87 && b == 65 && c == 86 && d == 69) || (a == 65 && b == 86 && c == 73 && d == 32) || (a == 87
        && b == 69 && c == 66 && d == 80) || (a == 82 && b == 77 && c == 73 && d == 68) || (a == 65 && b
        == 78 && c == 73 && d == 32) || (a == 67 && b == 68 && c == 68 && d == 65) || (a == 80 && b == 65
        && c == 76 && d == 32) || (a == 82 && b == 68 && c == 73 && d == 66)
}

fn id3v2_exec(p: &[u8]) -> (r: bool)
    ensures
        r == id3v2_header(p@),
{
    if p.len() < 10 {
        return false;
    }
    if !(2 <= p[3] && p[3] <= 4) || p[4] == 0xff {
        return false;
    }
    let ok = p[6] < 0x80 && p[7] < 0x80 && p[8] < 0x80 && p[9] < 0x80;
    proof {
        if ok {
            assert forall|i: int| 6 <= i < 10 implies #[trigger] p@[i] < 0x80 by {
                if i == 6 {
                } else if i == 7 {
                } else if i == 8 {
                } else {
                }
            }
        }
    }
    ok
}

fn not_text_byte_exec(b: u8) -> (r: bool)
    ensures
        r == not_text_byte(b),
{
    b < 0x20 || b >= 0x7f
}

fn gif_screen_exec(p: &[u8]) -> (r: bool)
    ensures
        r == gif_screen(p@),
{
    if p.len() < 13 || !(p[4] == 55 || p[4] == 57) || p[5] != 97 {
        return false;
    }
    if !(not_text_byte_exec(p[6]) || not_text_byte_exec(p[7]) || not_text_byte_exec(p[8]) || not_text_byte_exec(p[9])
        || not_text_byte_exec(p[10]) || not_text_byte_exec(p[11]) || not_text_byte_exec(p[12])) {
        return false;
    }
    let flags = p[10];
    let bits = flags % 8;
    let entries: usize = if bits == 0 {
        2
    } else if bits == 1 {
        4
    } else if bits == 2 {
        8
    } else if bits == 3 {
        16
    } else if bits == 4 {
        32
    } else if bits == 5 {
        64
    } else if bits == 6 {
        128
    } else {
        256
    };
    let gct: usize = if flags >= 128 {
        3 * entries
    } else {
        0
    };
    let k: usize = 13 + gct;
    if k >= p.len() {
        return true;
    }
    let b = p[k];
    b == 0x2c || b == 0x3b || (b == 0x21 && (k + 1 >= p.len() || p[k + 1] == 0x01 || p[k + 1] == 0xf9 || p[k + 1]
        == 0xfe || p[k + 1] == 0xff))
}

fn bmp_header_exec(p: &[u8]) -> (r: bool)
    ensures
        r == bmp_header(p@),
{
    p.len() >= 18 && p[6] == 0 && p[7] == 0 && p[8] == 0 && p[9] == 0 && p[15] == 0 && p[16] == 0 && p[17] == 0
        && (p[14] == 12 || p[14] == 40 || p[14] == 52 || p[14] == 56 || p[14] == 64 || p[14] == 108 || p[14] == 124)
}

fn media_kind_exec(p: &[u8]) -> (r: Option<&'static str>)
    ensures
        match r {
            Some(k) => media_kind(p@) == Some(k@),
            None => media_kind(p@) is None,
        },
{
    let png: [u8; 4] = [0x89u8, 80u8, 78u8, 71u8];
    let gif: [u8; 4] = [71u8, 73u8, 70u8, 56u8];
    let jpeg: [u8; 3] = [0xffu8, 0xd8u8, 0xffu8];
    let elf: [u8; 4] = [0x7fu8, 69u8, 76u8, 70u8];
    let bmp: [u8; 2] = [66u8, 77u8];
    let ico: [u8; 4] = [0u8, 0u8, 1u8, 0u8];
    let psd: [u8; 4] = [56u8, 66u8, 80u8, 83u8];
    let tiff1: [u8; 4] = [73u8, 73u8, 42u8, 0u8];
    let tiff2: [u8; 4] = [77u8, 77u8, 0u8, 42u8];
    let riff: [u8; 4] = [82u8, 73u8, 70u8, 70u8];
    let ogg: [u8; 4] = [79u8, 103u8, 103u8, 83u8];
    let flac: [u8; 4] = [102u8, 76u8, 97u8, 67u8];
    let id3: [u8; 3] = [73u8, 68u8, 51u8];
    let fbx: [u8; 18] = [
        75u8, 97u8, 121u8, 100u8, 97u8, 114u8, 97u8, 32u8, 70u8, 66u8, 88u8, 32u8, 66u8, 105u8,
        110u8, 97u8, 114u8, 121u8,
    ];
    let exr: [u8; 4] = [0x76u8, 0x2fu8, 0x31u8, 0x01u8];
    proof {
        assert(png@ =~= seq![0x89u8, 80u8, 78u8, 71u8]);
        assert(gif@ =~= seq![71u8, 73u8, 70u8, 56u8]);
        assert(jpeg@ =~= seq![0xffu8, 0xd8u8, 0xffu8]);
        assert(elf@ =~= seq![0x7fu8, 69u8, 76u8, 70u8]);
        assert(bmp@ =~= seq![66u8, 77u8]);
        assert(ico@ =~= seq![0u8, 0u8, 1u8, 0u8]);
        assert(psd@ =~= seq![56u8, 66u8, 80u8, 83u8]);
        assert(tiff1@ =~= seq![73u8, 73u8, 42u8, 0u8]);
        assert(tiff2@ =~= seq![77u8, 77u8, 0u8, 42u8]);
        assert(riff@ =~= seq![82u8, 73u8, 70u8, 70u8]);
        assert(ogg@ =~= seq![79u8, 103u8, 103u8, 83u8]);
        assert(flac@ =~= seq![102u8, 76u8, 97u8, 67u8]);
        assert(id3@ =~= seq![73u8, 68u8, 51u8]);
        assert(fbx@ =~= fbx_magic());
        assert(exr@ =~= seq![0x76u8, 0x2fu8, 0x31u8, 0x01u8]);
    }
    if matches_at(p, &png, 0) {
        Some("png")
    } else if matches_at(p, &gif, 0) && gif_screen_exec(p) {
        Some("gif")
    } else if matches_at(p, &jpeg, 0) {
        Some("jpeg")
    } else if matches_at(p, &elf, 0) {
        Some("elf")
    } else if matches_at(p, &bmp, 0) && bmp_header_exec(p) {
        Some("bmp")
    } else if matches_at(p, &ico, 0) {
        Some("ico")
    } else if matches_at(p, &psd, 0) && (p.len() >= 6 && p[4] == 0 && (p[5] == 1 || p[5] == 2)) {
        Some("psd")
    } else if matches_at(p, &tiff1, 0) {
        Some("tiff")
    } else if matches_at(p, &tiff2, 0) {
        Some("tiff")
    } else if matches_at(p, &riff, 0) && riff_form_exec(p) {
        Some("riff")
    } else if matches_at(p, &ogg, 0) && (p.len() >= 5 && p[4] == 0) {
        Some("ogg")
    } else if matches_at(p, &flac, 0) && (p.len() >= 5 && (p[4] == 0 || p[4] == 128)) {
        Some("flac")
    } else if matches_at(p, &id3, 0) && id3v2_exec(p) {
        Some("mp3")
    } else if matches_at(p, &fbx, 0) {
        Some("fbx")
    } else if matches_at(p, &exr, 0) {
        Some("exr")
    } else {
        None
    }
}

fn zero_count_exec(p: &[u8]) -> (r: usize)
    ensures
        r as nat == zero_count(p@),
{
    let mut n: usize = 0;
    let mut i: usize = 0;
    while i < p.len()
        invariant
            i <= p@.len(),
            n <= i,
            n as nat == zero_count(p@.subrange(0, i as int)),
        decreases p@.len() - i,
    {
        proof {
            assert(p@.subrange(0, i + 1).drop_last() =~= p@.subrange(0, i as int));
        }
        if p[i] == 0 {
            n += 1;
        }
        i += 1;
    }
    proof {
        assert(p@.subrange(0, p@.len() as int) =~= p@);
    }
    n
}

fn ctrl_count_exec(t: &[char]) -> (r: usize)
    ensures
        r as nat == ctrl_count(t@),
{
    let mut n: usize = 0;
    let mut i: usize = 0;
    while i < t.len()
        invariant
            i <= t@.len(),
            n <= i,
            n as nat == ctrl_count(t@.subrange(0, i as int)),
        decreases t@.len() - i,
    {
        proof {
            assert(t@.subrange(0, i + 1).drop_last() =~= t@.subrange(0, i as int));
        }
        let c = t[i];
        if (c as u32) < 0x20 && c != '\t' && c != '\n' && c != '\r' {
            n += 1;
        }
        i += 1;
    }
    proof {
        assert(t@.subrange(0, t@.len() as int) =~= t@);
    }
    n
}

fn bom_end(t: &[char]) -> (r: usize)
    ensures
        r <= t@.len(),
        strip_bom(t@) == t@.subrange(r as int, t@.len() as int),
{
    let mut i: usize = 0;
    proof {
        assert(t@.subrange(0, t@.len() as int) =~= t@);
    }
    while i < t.len() && t[i] == '\u{feff}'
        invariant
            i <= t@.len(),
            strip_bom(t@) == strip_bom(t@.subrange(i as int, t@.len() as int)),
        decreases t@.len() - i,
    {
        proof {
            assert(t@.subrange(i as int, t@.len() as int).drop_first() =~= t@.subrange(i + 1, t@.len() as int));
        }
        i += 1;
    }
    i
}

pub fn chars_at(t: &[char], m: &[char], i: usize) -> (r: bool)
    ensures
        r == c_occurs(t@, m@, i as int),
{
    if i > t.len() || m.len() > t.len() - i {
        return false;
    }
    let mut k: usize = 0;
    let n = t.len();
    while k < m.len()
        invariant
            n == t@.len(),
            i + m@.len() <= t@.len(),
            k <= m@.len(),
            forall|j: int| 0 <= j < k ==> t@[i + j] == m@[j],
        decreases m@.len() - k,
    {
        assert(i + k < t@.len());
        if t[i + k] != m[k] {
            assert(t@.subrange(i as int, i + m@.len())[k as int] != m@[k as int]);
            return false;
        }
        k += 1;
    }
    assert(t@.subrange(i as int, i + m@.len()) =~= m@);
    true
}

pub fn line_end_exec(t: &[char], k: usize) -> (r: usize)
    requires
        k <= t@.len(),
    ensures
        r == line_end(t@, k as int),
        k <= r <= t@.len(),
{
    let mut i = k;
    while i < t.len() && t[i] != '\n'
        invariant
            k <= i <= t@.len(),
            line_end(t@, k as int) == line_end(t@, i as int),
        decreases t@.len() - i,
    {
        i += 1;
    }
    i
}

fn unity_yaml_exec(b: &[char]) -> (r: bool)
    ensures
        r == unity_yaml(b@),
{
    let yaml = chars_of("%YAML");
    let tag = chars_of("%TAG !u! tag:unity3d.com");
    if !chars_at(b, yaml.as_slice(), 0) {
        return false;
    }
    let mut i: usize = 0;
    while i < b.len()
        invariant
            i <= b@.len(),
            tag@ == "%TAG !u! tag:unity3d.com"@,
            c_occurs(b@, "%YAML"@, 0),
            forall|j: int| 0 <= j < i ==> !c_occurs(b@, tag@, j),
        decreases b@.len() - i,
    {
        if chars_at(b, tag.as_slice(), i) {
            assert(c_occurs(b@, "%TAG !u! tag:unity3d.com"@, i as int));
            return true;
        }
        i += 1;
    }
    proof {
        assert forall|j: int| !c_occurs(b@, tag@, j) by {
            if 0 <= j && j >= b@.len() {
                reveal_strlit("%TAG !u! tag:unity3d.com");
            }
        }
    }
    false
}

fn unity_meta_exec(b: &[char]) -> (r: bool)
    ensures
        r == unity_meta(b@),
{
    let ffv = chars_of("fileFormatVersion:");
    let guid = chars_of("guid:");
    let e = line_end_exec(b, 0);
    let first = crate::text::sub_chars(b, 0, e);
    if !chars_at(first.as_slice(), ffv.as_slice(), 0) {
        return false;
    }
    let mut s: usize = 0;
    while s < b.len()
        invariant
            s <= b@.len(),
            guid@ == "guid:"@,
            c_occurs(first_line(b@), "fileFormatVersion:"@, 0),
            forall|j: int| 0 <= j < s ==> !((j == 0 || (0 < j <= b@.len() && b@[j - 1] == '\n')) && c_occurs(b@, guid@, j)),
        decreases b@.len() - s,
    {
        if (s == 0 || b[s - 1] == '\n') && chars_at(b, guid.as_slice(), s) {
            assert(c_occurs(b@, "guid:"@, s as int));
            return true;
        }
        s += 1;
    }
    proof {
        reveal_strlit("guid:");
        assert forall|j: int| !((j == 0 || (0 < j <= b@.len() && b@[j - 1] == '\n')) && #[trigger] c_occurs(b@, "guid:"@, j)) by {
            if j >= b@.len() && j > 0 {
                assert(!c_occurs(b@, "guid:"@, j));
            }
        }
    }
    false
}

fn bvh_exec(b: &[char]) -> (r: bool)
    ensures
        r == bvh(b@),
{
    let hier = chars_of("HIERARCHY");
    let root = chars_of("ROOT ");
    let e = line_end_exec(b, 0);
    let first = crate::text::sub_chars(b, 0, e);
    let tf = trim_chars(first.as_slice());
    if !chars_eq(tf.as_slice(), hier.as_slice()) {
        return false;
    }
    if !(e < b.len() && e + 1 < b.len()) {
        return false;
    }
    let e2 = line_end_exec(b, e + 1);
    let second = crate::text::sub_chars(b, e + 1, e2);
    let a = ws_prefix_end(second.as_slice());
    proof {
        crate::text::lemma_ws_prefix_len(second@);
    }
    let rest = crate::text::sub_chars(second.as_slice(), a, second.len());
    chars_at(rest.as_slice(), root.as_slice(), 0)
}

/// The content sniff up to the text heuristics (see `head_outcome`).
pub fn sniff_head(prefix: &[u8], docx: bool, code: bool) -> (r: Option<Sniffed>)
    ensures
        match head_outcome(prefix@, docx, code) {
            Some(o) => r matches Some(s) && s.family == o.0 && kind_view(s.binary_kind) == o.1
                && s.encoding@ == o.2 && !s.gzip && s.csv is None && s.logical_name is None,
            None => r is None,
        },
{
    let pdf: [u8; 5] = [37u8, 80u8, 68u8, 70u8, 45u8];
    let sqlite: [u8; 16] = [
        83u8, 81u8, 76u8, 105u8, 116u8, 101u8, 32u8, 102u8, 111u8, 114u8, 109u8, 97u8, 116u8, 32u8,
        51u8, 0u8,
    ];
    let zip: [u8; 4] = [80u8, 75u8, 3u8, 4u8];
    proof {
        assert(pdf@ =~= seq![37u8, 80u8, 68u8, 70u8, 45u8]);
        assert(sqlite@ =~= sqlite_magic());
        assert(zip@ =~= seq![80u8, 75u8, 3u8, 4u8]);
    }
    if prefix.len() == 0 {
        return Some(mk(Family::Binary, Some("empty"), "utf-8"));
    }
    if matches_at(prefix, &pdf, 0) {
        return Some(mk(Family::Pdf, None, "utf-8"));
    }
    if matches_at(prefix, &sqlite, 0) {
        return Some(mk(Family::Sqlite, None, "utf-8"));
    }
    if matches_at(prefix, &zip, 0) {
        if docx {
            return Some(mk(Family::Docx, None, "utf-8"));
        }
        return Some(mk(Family::Binary, Some("zip"), "utf-8"));
    }
    match media_kind_exec(prefix) {
        Some(k) => {
            return Some(mk(Family::Binary, Some(k), "utf-8"));
        },
        None => {},
    }
    if looks_like_tga_header(prefix) {
        return Some(mk(Family::Binary, Some("tga"), "utf-8"));
    }
    let (text, encoding) = decode_text(prefix);
    let nul = zero_count_exec(prefix);
    if nul as u128 * 10 > prefix.len() as u128 {
        return Some(mk(Family::Binary, Some("unknown"), "utf-8"));
    }
    let t = chars_of(text.as_str());
    let ctrl = ctrl_count_exec(t.as_slice());
    let n = if t.len() > 0 {
        t.len()
    } else {
        1
    };
    if ctrl as u128 * 10 > n as u128 {
        return Some(mk(Family::Binary, Some("unknown"), "utf-8"));
    }
    let a = bom_end(t.as_slice());
    let body = crate::text::sub_chars(t.as_slice(), a, t.len());
    if unity_yaml_exec(body.as_slice()) {
        return Some(mk(Family::UnityYaml, None, encoding));
    }
    if unity_meta_exec(body.as_slice()) {
        return Some(mk(Family::UnityMeta, None, encoding));
    }
    if bvh_exec(body.as_slice()) {
        return Some(mk(Family::Bvh, None, encoding));
    }
    if code {
        return Some(mk(Family::Code, None, encoding));
    }
    None
}

} // verus!
