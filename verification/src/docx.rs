//! DOCX text: the decisions taken on the XML events of
//! `word/document.xml`. Text runs gather into paragraphs, `<w:br>` and
//! `<w:tab>` become spaces, a paragraph styled as a heading or title is
//! also a heading, and both one paragraph and the body stop growing at
//! 64 MiB.

use crate::classify::{lowercase_of, text_lines};
use crate::pdf::{utf8_len, utf8_width};
use crate::sniff::c_occurs;
use crate::text::{chars_of, push_chars, string_from_chars, sub_chars, trim, trim_chars};
use quick_xml::events::Event::{Empty, End, Eof, GeneralRef, Start, Text};
use quick_xml::Reader;
use vstd::prelude::*;

verus! {

/// Bytes one paragraph, and the whole body, may reach: 64 MiB.
pub const MAX_BODY_BYTES: usize = 67108864;

/// Decompressed bytes of `word/document.xml` read at most (72 MiB): the
/// part inflates at whatever ratio its author chose, so the read is capped.
pub const MAX_DECOMPRESSED_BYTES: u64 = 75497472;

/// An XML event as the extraction reads it.
#[derive(Debug, Clone)]
pub enum XmlEvent {
    /// A start or empty element: its qualified name and its attributes.
    Open(String, Vec<(String, String)>),
    /// Text.
    Text(String),
    /// An entity reference: the name between `&` and `;`.
    Reference(String),
    /// An end element: its qualified name.
    Close(String),
    Eof,
    /// The XML was malformed.
    Error,
    /// Anything else (comments, declarations, ...).
    Other,
}

#[verifier::ext_equal]
pub struct DocxView {
    pub body: Seq<char>,
    pub headings: Seq<Seq<char>>,
    pub para: Seq<char>,
    pub heading: bool,
    pub junk: nat,
}

pub open spec fn contains_c(t: Seq<char>, m: Seq<char>) -> bool {
    exists|i: int| #[trigger] c_occurs(t, m, i)
}

/// A `w:val` attribute whose value, lowercased, names a heading or title.
pub open spec fn heading_attr(attrs: Seq<(Seq<char>, Seq<char>)>) -> bool {
    exists|i: int|
        0 <= i < attrs.len() && (#[trigger] attrs[i]).0 == "w:val"@ && (contains_c(lowercase_of(attrs[i].1), "heading"@)
            || contains_c(lowercase_of(attrs[i].1), "title"@))
}

pub enum EventView {
    Open(Seq<char>, Seq<(Seq<char>, Seq<char>)>),
    Text(Seq<char>),
    Reference(Seq<char>),
    Close(Seq<char>),
    Eof,
    Error,
    Other,
}

pub open spec fn attrs_view(v: Seq<(String, String)>) -> Seq<(Seq<char>, Seq<char>)> {
    v.map_values(|a: (String, String)| (a.0@, a.1@))
}

pub open spec fn event_view(e: XmlEvent) -> EventView {
    match e {
        XmlEvent::Open(n, a) => EventView::Open(n@, attrs_view(a@)),
        XmlEvent::Text(t) => EventView::Text(t@),
        XmlEvent::Reference(n) => EventView::Reference(n@),
        XmlEvent::Close(n) => EventView::Close(n@),
        XmlEvent::Eof => EventView::Eof,
        XmlEvent::Error => EventView::Error,
        XmlEvent::Other => EventView::Other,
    }
}

/// A predefined XML entity's text; empty for any other name.
pub open spec fn predefined_entity(n: Seq<char>) -> Seq<char> {
    if n == "lt"@ {
        "<"@
    } else if n == "gt"@ {
        ">"@
    } else if n == "amp"@ {
        "&"@
    } else if n == "apos"@ {
        "'"@
    } else if n == "quot"@ {
        "\""@
    } else {
        Seq::empty()
    }
}

/// A digit's value in radix 10 or 16 (either case).
pub open spec fn digit_of(c: char, hex: bool) -> Option<nat> {
    if '0' <= c && c <= '9' {
        Some((c as nat - 48) as nat)
    } else if hex && 'a' <= c && c <= 'f' {
        Some((c as nat - 87) as nat)
    } else if hex && 'A' <= c && c <= 'F' {
        Some((c as nat - 55) as nat)
    } else {
        None
    }
}

/// The number the digits spell; `None` when one is not a digit.
pub open spec fn digits_value(s: Seq<char>, hex: bool) -> Option<nat>
    decreases s.len(),
{
    if s.len() == 0 {
        Some(0)
    } else {
        match (digits_value(s.drop_last(), hex), digit_of(s.last(), hex)) {
            (Some(v), Some(d)) => Some(if hex { v * 16 + d } else { v * 10 + d }),
            _ => None,
        }
    }
}

/// The code of a character reference (what follows `#`): hexadecimal after
/// `x`, else decimal; at least one digit, and at most `u32::MAX`.
pub open spec fn char_ref_code(num: Seq<char>) -> Option<nat> {
    let hex = num.len() > 0 && num[0] == 'x';
    let ds = if hex { num.drop_first() } else { num };
    if ds.len() == 0 {
        None
    } else {
        match digits_value(ds, hex) {
            Some(v) => if v <= u32::MAX { Some(v) } else { None },
            None => None,
        }
    }
}

/// Two characters with one code are one character.
proof fn lemma_code_injective(c: char, d: char)
    requires
        c as nat == d as nat,
    ensures
        c == d,
{
}

/// The character whose code is `v`.
pub open spec fn char_with_code(v: nat) -> char {
    choose|c: char| #[trigger] code_of(c) == v
}

pub open spec fn code_of(c: char) -> nat {
    c as nat
}

/// A Unicode scalar value.
pub open spec fn is_scalar(v: nat) -> bool {
    v < 0xD800 || (0xE000 <= v && v <= 0x10FFFF)
}

/// The text an entity reference stands for: a character reference gives
/// its character (nothing when the code is 0, not a scalar value or not a
/// number), a predefined entity its character, any other name nothing.
pub open spec fn entity_text(n: Seq<char>) -> Seq<char> {
    if n.len() > 0 && n[0] == '#' {
        match char_ref_code(n.drop_first()) {
            Some(v) => if v != 0 && is_scalar(v) { seq![char_with_code(v)] } else { Seq::empty() },
            None => Seq::empty(),
        }
    } else {
        predefined_entity(n)
    }
}

/// `char::from_u32`: the character with this code, when it is a Unicode
/// scalar value.
#[verifier::external_body]
fn char_from_u32(v: u32) -> (r: Option<char>)
    ensures
        r is Some <==> is_scalar(v as nat),
        r matches Some(c) ==> c as nat == v as nat,
{
    char::from_u32(v)
}

/// The code of a character reference, as `char_ref_code` states it.
fn parse_char_ref(num: &[char]) -> (r: Option<u32>)
    ensures
        match char_ref_code(num@) {
            Some(v) => r == Some(v as u32),
            None => r is None,
        },
{
    let hex = num.len() > 0 && num[0] == 'x';
    let start: usize = if hex { 1 } else { 0 };
    let ghost ds = if hex { num@.drop_first() } else { num@ };
    if num.len() == start {
        return None;
    }
    let mut v: u64 = 0;
    let mut over = false;
    let mut i: usize = start;
    while i < num.len()
        invariant
            start <= i <= num@.len(),
            ds == num@.subrange(start as int, num@.len() as int),
            hex == (start == 1),
            hex == (num@.len() > 0 && num@[0] == 'x'),
            ds == (if hex { num@.drop_first() } else { num@ }),
            !over ==> digits_value(ds.subrange(0, i - start), hex) == Some(v as nat) && v <= u32::MAX,
            over ==> (digits_value(ds.subrange(0, i - start), hex) matches Some(x) && x > u32::MAX),
        decreases num@.len() - i,
    {
        let c = num[i];
        proof {
            assert(ds.subrange(0, i + 1 - start).drop_last() =~= ds.subrange(0, i - start));
            assert(ds.subrange(0, i + 1 - start).last() == c);
        }
        let d: u64 = if '0' <= c && c <= '9' {
            (c as u32 - 48) as u64
        } else if hex && 'a' <= c && c <= 'f' {
            (c as u32 - 87) as u64
        } else if hex && 'A' <= c && c <= 'F' {
            (c as u32 - 55) as u64
        } else {
            proof {
                assert(ds.subrange(0, i + 1 - start).drop_last() =~= ds.subrange(0, i - start));
            }
            assert(digits_value(ds.subrange(0, i + 1 - start), hex) is None);
            proof {
                lemma_none_stays(ds, hex, i + 1 - start);
            }
            return None;
        };
        proof {
            assert(ds.subrange(0, i + 1 - start).drop_last() =~= ds.subrange(0, i - start));
            assert(ds.subrange(0, i + 1 - start).last() == c);
        }
        if !over {
            let nv = if hex { v * 16 + d } else { v * 10 + d };
            if nv > 0xFFFF_FFFF {
                over = true;
            } else {
                v = nv;
            }
        }
        i += 1;
    }
    proof {
        assert(ds.subrange(0, ds.len() as int) =~= ds);
    }
    if over {
        None
    } else {
        Some(v as u32)
    }
}

/// Once a prefix is not all digits, no longer one is.
proof fn lemma_none_stays(s: Seq<char>, hex: bool, k: int)
    requires
        0 <= k <= s.len(),
        digits_value(s.subrange(0, k), hex) is None,
    ensures
        digits_value(s, hex) is None,
    decreases s.len() - k,
{
    if k < s.len() {
        assert(s.subrange(0, k + 1).drop_last() =~= s.subrange(0, k));
        lemma_none_stays(s, hex, k + 1);
    } else {
        assert(s.subrange(0, k) =~= s);
    }
}

/// The text an entity reference stands for, as `entity_text` states it.
pub fn resolve_entity(name: &str) -> (r: Vec<char>)
    ensures
        r@ == entity_text(name@),
{
    let n = chars_of(name);
    if n.len() > 0 && n[0] == '#' {
        let num = sub_chars(n.as_slice(), 1, n.len());
        proof {
            assert(num@ =~= n@.drop_first());
        }
        match parse_char_ref(num.as_slice()) {
            Some(v) => {
                if v != 0 {
                    match char_from_u32(v) {
                        Some(c) => {
                            let mut out: Vec<char> = Vec::new();
                            out.push(c);
                            proof {
                                assert(code_of(c) == v as nat);
                                assert(code_of(char_with_code(v as nat)) == v as nat);
                                let ghost cw = char_with_code(v as nat);
                                assert(code_of(cw) == cw as nat);
                                assert(code_of(c) == c as nat);
                                assert(c as nat == cw as nat);
                                lemma_code_injective(c, cw);
                                assert(out@ =~= seq![char_with_code(v as nat)]);
                            }
                            return out;
                        },
                        None => {
                            return Vec::new();
                        },
                    }
                }
                Vec::new()
            },
            None => Vec::new(),
        }
    } else {
        let t: &str = if crate::text::str_eq(name, "lt") {
            "<"
        } else if crate::text::str_eq(name, "gt") {
            ">"
        } else if crate::text::str_eq(name, "amp") {
            "&"
        } else if crate::text::str_eq(name, "apos") {
            "'"
        } else if crate::text::str_eq(name, "quot") {
            "\""
        } else {
            ""
        };
        proof {
            reveal_strlit("lt");
            reveal_strlit("gt");
            reveal_strlit("amp");
            reveal_strlit("apos");
            reveal_strlit("quot");
            reveal_strlit("<");
            reveal_strlit(">");
            reveal_strlit("&");
            reveal_strlit("'");
            reveal_strlit("\"");
            reveal_strlit("");
        }
        chars_of(t)
    }
}

/// One event: gives the next state and whether reading goes on (it stops
/// at the end, at an error, which counts as junk, and once the body is
/// over `MAX_BODY_BYTES`).
pub open spec fn docx_step(st: DocxView, ev: EventView) -> (DocxView, bool) {
    let next = match ev {
        EventView::Open(name, attrs) => if name == "w:pStyle"@ {
            (DocxView { heading: st.heading || heading_attr(attrs), ..st }, true)
        } else if name == "w:br"@ || name == "w:tab"@ {
            (DocxView { para: st.para.push(' '), ..st }, true)
        } else {
            (st, true)
        },
        EventView::Text(t) => if utf8_len(st.para) < MAX_BODY_BYTES {
            (DocxView { para: st.para + t, ..st }, true)
        } else {
            (st, true)
        },
        EventView::Reference(n) => if utf8_len(st.para) < MAX_BODY_BYTES {
            (DocxView { para: st.para + entity_text(n), ..st }, true)
        } else {
            (st, true)
        },
        EventView::Close(name) => if name == "w:p"@ {
            let text = trim(st.para);
            let st1 = if text.len() > 0 {
                DocxView {
                    headings: if st.heading {
                        st.headings.push(text)
                    } else {
                        st.headings
                    },
                    body: st.body + text + seq!['\n', '\n'],
                    ..st
                }
            } else {
                st
            };
            (DocxView { para: Seq::empty(), heading: false, ..st1 }, true)
        } else {
            (st, true)
        },
        EventView::Eof => (st, false),
        EventView::Error => (DocxView { junk: st.junk + 1, ..st }, false),
        EventView::Other => (st, true),
    };
    (next.0, next.1 && utf8_len(next.0.body) <= MAX_BODY_BYTES)
}

/// The extraction state of one `word/document.xml`.
pub struct DocxText {
    body: Vec<char>,
    body_bytes: usize,
    headings: Vec<Vec<char>>,
    para: Vec<char>,
    para_bytes: usize,
    heading: bool,
    junk: u64,
}

pub open spec fn cviews(v: Seq<Vec<char>>) -> Seq<Seq<char>> {
    v.map_values(|x: Vec<char>| x@)
}

pub open spec fn capped(n: nat) -> nat {
    if n > usize::MAX {
        usize::MAX as nat
    } else {
        n
    }
}

fn width(c: char) -> (r: usize)
    ensures
        r as nat == utf8_width(c),
{
    let u = c as u32;
    if u < 0x80 {
        1
    } else if u < 0x800 {
        2
    } else if u < 0x10000 {
        3
    } else {
        4
    }
}

/// Push `t` onto `v`, keeping a count of UTF-8 bytes that stops at the
/// maximum.
fn push_counted(v: &mut Vec<char>, bytes: &mut usize, t: &[char])
    requires
        *old(bytes) as nat == capped(utf8_len(old(v)@)),
    ensures
        final(v)@ == old(v)@ + t@,
        *final(bytes) as nat == capped(utf8_len(final(v)@)),
{
    let mut i: usize = 0;
    while i < t.len()
        invariant
            i <= t@.len(),
            v@ == old(v)@ + t@.subrange(0, i as int),
            *bytes as nat == capped(utf8_len(v@)),
        decreases t@.len() - i,
    {
        let c = t[i];
        let ghost before = v@;
        v.push(c);
        let w = width(c);
        proof {
            assert(v@.drop_last() =~= before);
        }
        if *bytes > usize::MAX - w {
            *bytes = usize::MAX;
        } else {
            *bytes = *bytes + w;
        }
        i += 1;
        proof {
            assert(v@ =~= old(v)@ + t@.subrange(0, i as int));
        }
    }
    proof {
        assert(t@.subrange(0, t@.len() as int) =~= t@);
    }
}

impl DocxText {
    pub closed spec fn view(&self) -> DocxView {
        DocxView {
            body: self.body@,
            headings: cviews(self.headings@),
            para: self.para@,
            heading: self.heading,
            junk: self.junk as nat,
        }
    }

    pub closed spec fn wf(&self) -> bool {
        &&& self.body_bytes as nat == capped(utf8_len(self.body@))
        &&& self.para_bytes as nat == capped(utf8_len(self.para@))
    }

    pub fn new() -> (r: DocxText)
        ensures
            r.wf(),
            r.view() == (DocxView { body: Seq::empty(), headings: Seq::empty(), para: Seq::empty(), heading: false, junk: 0 }),
    {
        let r = DocxText {
            body: Vec::new(),
            body_bytes: 0,
            headings: Vec::new(),
            para: Vec::new(),
            para_bytes: 0,
            heading: false,
            junk: 0,
        };
        proof {
            assert(cviews(r.headings@) =~= Seq::<Seq<char>>::empty());
        }
        r
    }

    /// Take one event; `false` when reading should stop.
    pub fn step(&mut self, ev: &XmlEvent) -> (r: bool)
        requires
            old(self).wf(),
            old(self).view().junk < u64::MAX,
        ensures
            final(self).wf(),
            (final(self).view(), r) == docx_step(old(self).view(), event_view(*ev)),
    {
        let go = match ev {
            XmlEvent::Open(name, attrs) => {
                if crate::text::str_eq(name.as_str(), "w:pStyle") {
                    let mut hit = false;
                    let mut i: usize = 0;
                    let ghost av = attrs_view(attrs@);
                    while i < attrs.len()
                        invariant
                            i <= attrs@.len(),
                            av == attrs_view(attrs@),
                            hit == exists|j: int|
                                0 <= j < i && (#[trigger] av[j]).0 == "w:val"@ && (contains_c(lowercase_of(av[j].1), "heading"@)
                                    || contains_c(lowercase_of(av[j].1), "title"@)),
                        decreases attrs@.len() - i,
                    {
                        proof {
                            assert(av[i as int] == (attrs@[i as int].0@, attrs@[i as int].1@));
                        }
                        if crate::text::str_eq(attrs[i].0.as_str(), "w:val") {
                            let lower = crate::classify::lowercase(attrs[i].1.as_str());
                            let lc = chars_of(lower.as_str());
                            if crate::classify::contains_chars(lc.as_slice(), chars_of("heading").as_slice())
                                || crate::classify::contains_chars(lc.as_slice(), chars_of("title").as_slice()) {
                                hit = true;
                            }
                        }
                        i += 1;
                    }
                    if hit {
                        self.heading = true;
                    }
                } else if crate::text::str_eq(name.as_str(), "w:br") || crate::text::str_eq(name.as_str(), "w:tab") {
                    let sp: [char; 1] = [' '];
                    push_counted(&mut self.para, &mut self.para_bytes, &sp);
                    proof {
                        assert(sp@ =~= seq![' ']);
                    }
                }
                true
            },
            XmlEvent::Text(t) => {
                if self.para_bytes < MAX_BODY_BYTES {
                    let tc = chars_of(t.as_str());
                    push_counted(&mut self.para, &mut self.para_bytes, tc.as_slice());
                }
                true
            },
            XmlEvent::Reference(n) => {
                if self.para_bytes < MAX_BODY_BYTES {
                    let tc = resolve_entity(n.as_str());
                    push_counted(&mut self.para, &mut self.para_bytes, tc.as_slice());
                }
                true
            },
            XmlEvent::Close(name) => {
                if crate::text::str_eq(name.as_str(), "w:p") {
                    let text = trim_chars(self.para.as_slice());
                    if text.len() > 0 {
                        push_counted(&mut self.body, &mut self.body_bytes, text.as_slice());
                        let nl: [char; 2] = ['\n', '\n'];
                        proof {
                            assert(nl@ =~= seq!['\n', '\n']);
                        }
                        let ghost b0 = self.body@;
                        push_counted(&mut self.body, &mut self.body_bytes, &nl);
                        if self.heading {
                            let ghost hb = cviews(self.headings@);
                            let ghost tv = text@;
                            self.headings.push(text);
                            proof {
                                assert(cviews(self.headings@) =~= hb.push(tv));
                            }
                        }
                    }
                    self.para = Vec::new();
                    self.para_bytes = 0;
                    self.heading = false;
                }
                true
            },
            XmlEvent::Eof => false,
            XmlEvent::Error => {
                self.junk = self.junk + 1;
                false
            },
            XmlEvent::Other => true,
        };
        go && self.body_bytes <= MAX_BODY_BYTES
    }

    /// The body, trimmed; empty means the document counts as junk.
    pub fn body(&self) -> (r: String)
        ensures
            r@ == trim(self.view().body),
    {
        string_from_chars(trim_chars(self.body.as_slice()).as_slice())
    }

    pub fn junk(&self) -> (r: u64)
        ensures
            r as nat == self.view().junk,
    {
        self.junk
    }

    pub fn headings(&self) -> (r: Vec<String>)
        ensures
            r@.len() == self.view().headings.len(),
            forall|i: int| 0 <= i < r@.len() ==> #[trigger] r@[i]@ == self.view().headings[i],
    {
        let mut out: Vec<String> = Vec::new();
        let mut i: usize = 0;
        while i < self.headings.len()
            invariant
                i <= self.headings@.len(),
                out@.len() == i,
                forall|j: int| 0 <= j < i ==> #[trigger] out@[j]@ == self.headings@[j]@,
            decreases self.headings@.len() - i,
        {
            out.push(string_from_chars(self.headings[i].as_slice()));
            i += 1;
        }
        out
    }
}

/// The first line that is not blank.
pub open spec fn first_nonblank(ls: Seq<Seq<char>>) -> Option<Seq<char>>
    decreases ls.len(),
{
    if ls.len() == 0 {
        None
    } else if trim(ls[0]).len() > 0 {
        Some(ls[0])
    } else {
        first_nonblank(ls.drop_first())
    }
}

pub open spec fn take200(t: Seq<char>) -> Seq<char> {
    if t.len() <= 200 {
        t
    } else {
        t.subrange(0, 200)
    }
}

/// The document's title: its first heading, else the first non-blank line
/// of the body (trimmed, at most 200 characters), else the file's stem,
/// else `untitled`.
pub open spec fn docx_title(headings: Seq<Seq<char>>, body: Seq<char>, stem: Option<Seq<char>>) -> Seq<char> {
    if headings.len() > 0 {
        headings[0]
    } else {
        match first_nonblank(text_lines(body)) {
            Some(l) => take200(trim(l)),
            None => match stem {
                Some(s) => s,
                None => "untitled"@,
            },
        }
    }
}

impl DocxText {
    /// The title, given the trimmed body and the file's stem.
    pub fn title(&self, body: &str, stem: Option<&str>) -> (r: String)
        ensures
            r@ == docx_title(self.view().headings, body@, match stem {
                Some(s) => Some(s@),
                None => None,
            }),
    {
        if self.headings.len() > 0 {
            proof {
                assert(cviews(self.headings@)[0] == self.headings@[0]@);
            }
            return string_from_chars(self.headings[0].as_slice());
        }
        let b = chars_of(body);
        let ls = crate::classify::lines_exec(&b);
        let ghost lv = crate::classify::fields_view(ls@);
        let mut i: usize = 0;
        proof {
            assert(lv.subrange(0, lv.len() as int) =~= lv);
        }
        while i < ls.len()
            invariant
                i <= ls@.len(),
                lv == crate::classify::fields_view(ls@),
                lv == text_lines(body@),
                self.headings@.len() == 0,
                first_nonblank(lv) == first_nonblank(lv.subrange(i as int, lv.len() as int)),
            decreases ls@.len() - i,
        {
            let t = trim_chars(ls[i].as_slice());
            proof {
                assert(lv[i as int] == ls@[i as int]@);
                let rest = lv.subrange(i as int, lv.len() as int);
                assert(rest[0] == lv[i as int]);
                assert(rest.drop_first() =~= lv.subrange(i + 1, lv.len() as int));
            }
            if t.len() > 0 {
                if t.len() <= 200 {
                    return string_from_chars(t.as_slice());
                }
                return string_from_chars(sub_chars(t.as_slice(), 0, 200).as_slice());
            }
            i += 1;
        }
        match stem {
            Some(s) => string_from_chars(chars_of(s).as_slice()),
            None => string_from_chars(chars_of("untitled").as_slice()),
        }
    }
}

pub open spec fn events_view(v: Seq<XmlEvent>) -> Seq<EventView> {
    v.map_values(|e: XmlEvent| event_view(e))
}

/// The events quick-xml reads from a document before the first end of input
/// or error, as `read_xml_events` converts them, and whether reading ended
/// in an error.
pub uninterp spec fn xml_events(doc: Seq<u8>) -> (Seq<EventView>, bool);

/// quick-xml's `Reader::read_event` over the document, from the start up to
/// the first `Eof` or error: start and empty elements become `Open` with
/// their name and attributes (attributes it cannot read are skipped), text
/// becomes `Text`, entity references `Reference`, end elements `Close`,
/// anything else `Other`; the flag tells an error from the end. Named, not
/// stated.
#[verifier::external_body]
fn read_xml_events(doc: &[u8]) -> (r: (Vec<XmlEvent>, bool))
    ensures
        (events_view(r.0@), r.1) == xml_events(doc@),
{
    let mut reader = Reader::from_reader(doc);
    let mut out = vec![];
    loop {
        out.push(match reader.read_event() {
            Ok(Start(e) | Empty(e)) => XmlEvent::Open(e.name().0.to_string(),
                e.attributes().flatten().map(|a| (a.key.0.to_string(), a.value.into_owned())).collect()),
            Ok(Text(t)) => XmlEvent::Text(t.to_string()),
            Ok(GeneralRef(r)) => XmlEvent::Reference(r.to_string()),
            Ok(End(e)) => XmlEvent::Close(e.to_string()),
            Ok(Eof) => return (out, false),
            Ok(_) => XmlEvent::Other,
            Err(_) => return (out, true),
        });
    }
}

/// All the events of a document: those read, then its end or its error.
pub open spec fn document_events(doc: Seq<u8>) -> Seq<EventView> {
    let (evs, failed) = xml_events(doc);
    evs.push(if failed { EventView::Error } else { EventView::Eof })
}

pub open spec fn empty_docx() -> DocxView {
    DocxView { body: Seq::empty(), headings: Seq::empty(), para: Seq::empty(), heading: false, junk: 0 }
}

/// The events from `i` on taken into `st`, until one says to stop.
pub open spec fn docx_run(st: DocxView, evs: Seq<EventView>, i: int) -> DocxView
    decreases evs.len() - i,
{
    if i < 0 || i >= evs.len() {
        st
    } else {
        let (next, go) = docx_step(st, evs[i]);
        if go {
            docx_run(next, evs, i + 1)
        } else {
            next
        }
    }
}

/// What a Word document part yields: how many times it counts as junk (a
/// malformed part once, an empty body once more) and, when its trimmed body
/// is not empty, its title, headings and body.
pub open spec fn docx_outcome(doc: Seq<u8>, stem: Option<Seq<char>>) -> (nat, Option<(Seq<char>, Seq<Seq<char>>, Seq<char>)>) {
    let st = docx_run(empty_docx(), document_events(doc), 0);
    let body = trim(st.body);
    if body.len() == 0 {
        (st.junk + 1, None)
    } else {
        (st.junk, Some((docx_title(st.headings, body, stem), st.headings, body)))
    }
}

pub open spec fn strings_view(v: Seq<String>) -> Seq<Seq<char>> {
    v.map_values(|s: String| s@)
}

/// Read `word/document.xml` (already capped at `MAX_DECOMPRESSED_BYTES`):
/// the junk count and, unless the body is empty, (title, headings, body).
pub fn docx_document(doc: &[u8], stem: Option<&str>) -> (r: (u64, Option<(String, Vec<String>, String)>))
    ensures
        ({
            let (junk, d) = docx_outcome(doc@, match stem {
                Some(s) => Some(s@),
                None => None,
            });
            &&& r.0 as nat == junk
            &&& match d {
                None => r.1 is None,
                Some((title, headings, body)) => r.1 matches Some(x) && x.0@ == title && strings_view(x.1@)
                    == headings && x.2@ == body,
            }
        }),
{
    let (mut events, failed) = read_xml_events(doc);
    events.push(if failed { XmlEvent::Error } else { XmlEvent::Eof });
    let ghost evs = document_events(doc@);
    proof {
        assert(events_view(events@) =~= evs);
    }
    let mut d = DocxText::new();
    let mut i: usize = 0;
    while i < events.len()
        invariant_except_break
            d.view().junk == 0,
            docx_run(empty_docx(), evs, 0) == docx_run(d.view(), evs, i as int),
        invariant
            i <= events@.len(),
            evs == events_view(events@),
            d.wf(),
        ensures
            d.view() == docx_run(empty_docx(), evs, 0),
            d.view().junk <= 1,
        decreases events@.len() - i,
    {
        proof {
            assert(evs[i as int] == event_view(events@[i as int]));
        }
        let go = d.step(&events[i]);
        if !go {
            break;
        }
        i += 1;
    }
    let ghost st = docx_run(empty_docx(), evs, 0);
    assert(d.view() == st);
    let body = d.body();
    let headings = d.headings();
    proof {
        assert(strings_view(headings@) =~= d.view().headings);
    }
    if body.as_str().unicode_len() == 0 {
        return (d.junk() + 1, None);
    }
    let title = d.title(body.as_str(), stem);
    (d.junk(), Some((title, headings, body)))
}

} // verus!
