//! Unicode white space on UTF-8 bytes: trimming and first-word extraction
//! without leaving the byte offsets the detectors report.
//!
//! Every `White_Space` character starts with a lead byte, so on valid UTF-8 a
//! pattern match at any byte index is a whole character there; the same holds
//! for a match that ends at an index.

use vstd::prelude::*;

verus! {

/// The three-byte encodings of U+1680, U+2000..U+200A, U+2028, U+2029,
/// U+202F, U+205F and U+3000.
pub open spec fn ws3(a: u8, b: u8, c: u8) -> bool {
    ||| (a == 0xe1 && b == 0x9a && c == 0x80)
    ||| (a == 0xe2 && b == 0x80 && ((0x80 <= c <= 0x8a) || c == 0xa8 || c == 0xa9 || c == 0xaf))
    ||| (a == 0xe2 && b == 0x81 && c == 0x9f)
    ||| (a == 0xe3 && b == 0x80 && c == 0x80)
}

pub open spec fn ws1(a: u8) -> bool {
    a == 0x20 || (0x09 <= a <= 0x0d)
}

/// U+0085 and U+00A0.
pub open spec fn ws2(a: u8, b: u8) -> bool {
    a == 0xc2 && (b == 0x85 || b == 0xa0)
}

/// Length of the white-space character encoded at byte `k`, or 0.
pub open spec fn ws_len(s: Seq<u8>, k: int) -> int {
    if 0 <= k < s.len() && ws1(s[k]) {
        1
    } else if 0 <= k && k + 1 < s.len() && ws2(s[k], s[k + 1]) {
        2
    } else if 0 <= k && k + 2 < s.len() && ws3(s[k], s[k + 1], s[k + 2]) {
        3
    } else {
        0
    }
}

/// Length of the white-space character that ends just before byte `e`, or 0.
pub open spec fn ws_len_before(s: Seq<u8>, e: int) -> int {
    if 1 <= e <= s.len() && ws1(s[e - 1]) {
        1
    } else if 2 <= e <= s.len() && ws2(s[e - 2], s[e - 1]) {
        2
    } else if 3 <= e <= s.len() && ws3(s[e - 3], s[e - 2], s[e - 1]) {
        3
    } else {
        0
    }
}

pub fn ws_at(s: &[u8], k: usize) -> (r: usize)
    ensures
        r == ws_len(s@, k as int),
{
    let n = s.len();
    if k < n && (s[k] == 0x20 || (0x09 <= s[k] && s[k] <= 0x0d)) {
        1
    } else if k < n && n - k > 1 && s[k] == 0xc2 && (s[k + 1] == 0x85 || s[k + 1] == 0xa0) {
        2
    } else if k < n && n - k > 2 {
        let a = s[k];
        let b = s[k + 1];
        let c = s[k + 2];
        if (a == 0xe1 && b == 0x9a && c == 0x80) || (a == 0xe2 && b == 0x80 && ((0x80 <= c && c
            <= 0x8a) || c == 0xa8 || c == 0xa9 || c == 0xaf)) || (a == 0xe2 && b == 0x81 && c
            == 0x9f) || (a == 0xe3 && b == 0x80 && c == 0x80) {
            3
        } else {
            0
        }
    } else {
        0
    }
}

pub fn ws_before(s: &[u8], e: usize) -> (r: usize)
    ensures
        r == ws_len_before(s@, e as int),
{
    let n = s.len();
    if 1 <= e && e <= n && (s[e - 1] == 0x20 || (0x09 <= s[e - 1] && s[e - 1] <= 0x0d)) {
        1
    } else if 2 <= e && e <= n && s[e - 2] == 0xc2 && (s[e - 1] == 0x85 || s[e - 1] == 0xa0) {
        2
    } else if 3 <= e && e <= n {
        let a = s[e - 3];
        let b = s[e - 2];
        let c = s[e - 1];
        if (a == 0xe1 && b == 0x9a && c == 0x80) || (a == 0xe2 && b == 0x80 && ((0x80 <= c && c
            <= 0x8a) || c == 0xa8 || c == 0xa9 || c == 0xaf)) || (a == 0xe2 && b == 0x81 && c
            == 0x9f) || (a == 0xe3 && b == 0x80 && c == 0x80) {
            3
        } else {
            0
        }
    } else {
        0
    }
}

/// First index at or after `k` that does not start a white-space character.
pub open spec fn skip_ws(s: Seq<u8>, k: int) -> int
    decreases s.len() - k,
{
    if k < 0 || k >= s.len() {
        if k < 0 { 0 } else { s.len() as int }
    } else if ws_len(s, k) > 0 {
        skip_ws(s, k + ws_len(s, k))
    } else {
        k
    }
}

/// First index at or after `k` that starts a white-space character (or the end).
pub open spec fn next_ws(s: Seq<u8>, k: int) -> int
    decreases s.len() - k,
{
    if k < 0 || k >= s.len() {
        if k < 0 { 0 } else { s.len() as int }
    } else if ws_len(s, k) > 0 {
        k
    } else {
        next_ws(s, k + 1)
    }
}

/// Walk back from `e` over white space, never below `lo`.
pub open spec fn back_ws(s: Seq<u8>, e: int, lo: int) -> int
    decreases e,
{
    if e <= lo || e <= 0 {
        e
    } else if ws_len_before(s, e) > 0 && e - ws_len_before(s, e) >= lo {
        back_ws(s, e - ws_len_before(s, e), lo)
    } else {
        e
    }
}

pub proof fn lemma_skip_ws(s: Seq<u8>, k: int)
    requires
        0 <= k <= s.len(),
    ensures
        k <= skip_ws(s, k) <= s.len(),
    decreases s.len() - k,
{
    if k < s.len() && ws_len(s, k) > 0 {
        lemma_skip_ws(s, k + ws_len(s, k));
    }
}

pub proof fn lemma_next_ws(s: Seq<u8>, k: int)
    requires
        0 <= k <= s.len(),
    ensures
        k <= next_ws(s, k) <= s.len(),
    decreases s.len() - k,
{
    if k < s.len() && ws_len(s, k) == 0 {
        lemma_next_ws(s, k + 1);
    }
}

pub proof fn lemma_back_ws(s: Seq<u8>, e: int, lo: int)
    requires
        0 <= lo <= e <= s.len(),
    ensures
        lo <= back_ws(s, e, lo) <= e,
    decreases e,
{
    if e > lo && e > 0 && ws_len_before(s, e) > 0 && e - ws_len_before(s, e) >= lo {
        lemma_back_ws(s, e - ws_len_before(s, e), lo);
    }
}

/// `str::trim` on the bytes of a string.
pub open spec fn trim_bytes(s: Seq<u8>) -> Seq<u8> {
    let a = skip_ws(s, 0);
    s.subrange(a, back_ws(s, s.len() as int, a))
}

/// The first white-space separated word (`split_whitespace().next()`, or empty).
pub open spec fn first_word(s: Seq<u8>) -> Seq<u8> {
    let a = skip_ws(s, 0);
    s.subrange(a, next_ws(s, a))
}

pub fn skip_ws_exec(s: &[u8], k: usize) -> (r: usize)
    requires
        k <= s@.len(),
    ensures
        r == skip_ws(s@, k as int),
        k <= r <= s@.len(),
{
    let mut i = k;
    proof {
        lemma_skip_ws(s@, k as int);
    }
    while i < s.len()
        invariant
            k <= i <= s@.len(),
            skip_ws(s@, k as int) == skip_ws(s@, i as int),
        decreases s@.len() - i,
    {
        let w = ws_at(s, i);
        if w == 0 {
            return i;
        }
        proof {
            lemma_skip_ws(s@, (i + w) as int);
        }
        i = i + w;
    }
    i
}

pub fn next_ws_exec(s: &[u8], k: usize) -> (r: usize)
    requires
        k <= s@.len(),
    ensures
        r == next_ws(s@, k as int),
        k <= r <= s@.len(),
{
    let mut i = k;
    while i < s.len()
        invariant
            k <= i <= s@.len(),
            next_ws(s@, k as int) == next_ws(s@, i as int),
        decreases s@.len() - i,
    {
        if ws_at(s, i) > 0 {
            return i;
        }
        i += 1;
    }
    i
}

pub fn back_ws_exec(s: &[u8], e: usize, lo: usize) -> (r: usize)
    requires
        lo <= e <= s@.len(),
    ensures
        r == back_ws(s@, e as int, lo as int),
        lo <= r <= e,
{
    let mut i = e;
    while i > lo && i > 0
        invariant
            lo <= i <= e,
            e <= s@.len(),
            back_ws(s@, e as int, lo as int) == back_ws(s@, i as int, lo as int),
        decreases i,
    {
        let w = ws_before(s, i);
        if w == 0 || i - w < lo {
            return i;
        }
        i = i - w;
    }
    i
}

pub fn trim_exec(s: &[u8]) -> (r: (usize, usize))
    ensures
        r.0 <= r.1 <= s@.len(),
        s@.subrange(r.0 as int, r.1 as int) == trim_bytes(s@),
{
    let a = skip_ws_exec(s, 0);
    let b = back_ws_exec(s, s.len(), a);
    (a, b)
}

pub fn first_word_exec(s: &[u8]) -> (r: (usize, usize))
    ensures
        r.0 <= r.1 <= s@.len(),
        s@.subrange(r.0 as int, r.1 as int) == first_word(s@),
{
    let a = skip_ws_exec(s, 0);
    let b = next_ws_exec(s, a);
    (a, b)
}

} // verus!
