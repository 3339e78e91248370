//! The unauthenticated cluster probe: the body a console reads before
//! login, to choose between the standalone and the topology view.

use crate::text::{dec, push_dec, push_str_chars, string_from_chars};
use vstd::prelude::*;

verus! {

/// A JSON string literal's contents for `s`: `"` and `\` escaped, the
/// control characters below U+0020 as `\b \t \n \f \r` or `\u00XX`, every
/// other character as it is.
pub open spec fn json_escaped(s: Seq<char>) -> Seq<char>
    decreases s.len(),
{
    if s.len() == 0 {
        Seq::empty()
    } else {
        json_escaped(s.drop_last()) + escape_char(s.last())
    }
}

pub open spec fn hex_lower(n: u32) -> char {
    if n < 10 {
        ((48 + n) as u32) as char
    } else {
        ((87 + n) as u32) as char
    }
}

pub open spec fn escape_char(c: char) -> Seq<char> {
    if c == '"' {
        seq!['\\', '"']
    } else if c == '\\' {
        seq!['\\', '\\']
    } else if c == '\u{8}' {
        seq!['\\', 'b']
    } else if c == '\t' {
        seq!['\\', 't']
    } else if c == '\n' {
        seq!['\\', 'n']
    } else if c == '\u{c}' {
        seq!['\\', 'f']
    } else if c == '\r' {
        seq!['\\', 'r']
    } else if (c as u32) < 0x20 {
        seq!['\\', 'u', '0', '0', hex_lower((c as u32) / 16), hex_lower((c as u32) % 16)]
    } else {
        seq![c]
    }
}

fn escape_char_exec(c: char) -> (r: Vec<char>)
    ensures
        r@ == escape_char(c),
{
    if c == '"' {
        vec!['\\', '"']
    } else if c == '\\' {
        vec!['\\', '\\']
    } else if c == '\u{8}' {
        vec!['\\', 'b']
    } else if c == '\t' {
        vec!['\\', 't']
    } else if c == '\n' {
        vec!['\\', 'n']
    } else if c == '\u{c}' {
        vec!['\\', 'f']
    } else if c == '\r' {
        vec!['\\', 'r']
    } else if (c as u32) < 0x20 {
        let u = c as u32;
        let hi = u / 16;
        let lo = u % 16;
        let h = if hi < 10 {
            ((48 + hi) as u8) as char
        } else {
            ((87 + hi) as u8) as char
        };
        let l = if lo < 10 {
            ((48 + lo) as u8) as char
        } else {
            ((87 + lo) as u8) as char
        };
        vec!['\\', 'u', '0', '0', h, l]
    } else {
        vec![c]
    }
}

/// A signed integer in decimal.
pub open spec fn int_text(x: int) -> Seq<char> {
    if x < 0 {
        seq!['-'] + dec((-x) as nat)
    } else {
        dec(x as nat)
    }
}

/// The probe's body: the cluster mode and the node's start time, and
/// nothing else (no node identity, no build version).
pub open spec fn info_text(mode: Seq<char>, started_at_ms: i64) -> Seq<char> {
    "{\"mode\":\""@ + json_escaped(mode) + "\",\"started_at_ms\":"@ + int_text(started_at_ms as int) + "}"@
}

/// The body of the unauthenticated cluster probe, as JSON text.
pub fn info_body(mode: &str, started_at_ms: i64) -> (r: String)
    ensures
        r@ == info_text(mode@, started_at_ms),
{
    let mut out: Vec<char> = Vec::new();
    push_str_chars(&mut out, "{\"mode\":\"");
    let ghost head = out@;
    let cs = crate::text::chars_of(mode);
    let mut i: usize = 0;
    while i < cs.len()
        invariant
            i <= cs@.len(),
            cs@ == mode@,
            out@ == head + json_escaped(cs@.take(i as int)),
        decreases cs@.len() - i,
    {
        let e = escape_char_exec(cs[i]);
        let ghost before = out@;
        crate::text::push_chars(&mut out, e.as_slice());
        proof {
            assert(cs@.take(i + 1).drop_last() =~= cs@.take(i as int));
            assert(cs@.take(i + 1).last() == cs@[i as int]);
        }
        i += 1;
    }
    proof {
        assert(cs@.take(cs@.len() as int) =~= cs@);
    }
    push_str_chars(&mut out, "\",\"started_at_ms\":");
    if started_at_ms < 0 {
        out.push('-');
        let magnitude: u64 = ((-(started_at_ms + 1)) as u64) + 1;
        push_dec(&mut out, magnitude);
    } else {
        push_dec(&mut out, started_at_ms as u64);
    }
    push_str_chars(&mut out, "}");
    proof {
        assert(out@ =~= info_text(mode@, started_at_ms));
    }
    string_from_chars(out.as_slice())
}

} // verus!
