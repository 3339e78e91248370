//! Byte-string helpers shared by the detectors and the sniffer.

use vstd::prelude::*;

verus! {

/// Byte-lexicographic strict order (the order of `str`/`String` comparison).
pub open spec fn lex_lt(a: Seq<u8>, b: Seq<u8>) -> bool
    decreases a.len(),
{
    if a.len() == 0 {
        b.len() > 0
    } else if b.len() == 0 {
        false
    } else if a[0] != b[0] {
        a[0] < b[0]
    } else {
        lex_lt(a.drop_first(), b.drop_first())
    }
}

/// Exact byte comparison of two slices.
pub fn bytes_eq(a: &[u8], b: &[u8]) -> (r: bool)
    ensures
        r == (a@ == b@),
{
    if a.len() != b.len() {
        return false;
    }
    let mut i: usize = 0;
    while i < a.len()
        invariant
            a@.len() == b@.len(),
            i <= a@.len(),
            forall|j: int| 0 <= j < i ==> a@[j] == b@[j],
        decreases a@.len() - i,
    {
        if a[i] != b[i] {
            return false;
        }
        i += 1;
    }
    assert(a@ =~= b@);
    true
}

} // verus!

verus! {

pub proof fn lemma_lex_irreflexive(a: Seq<u8>)
    ensures
        !lex_lt(a, a),
    decreases a.len(),
{
    if a.len() > 0 {
        lemma_lex_irreflexive(a.drop_first());
    }
}

pub proof fn lemma_lex_asym(a: Seq<u8>, b: Seq<u8>)
    ensures
        lex_lt(a, b) ==> !lex_lt(b, a),
    decreases a.len(),
{
    if a.len() > 0 && b.len() > 0 && a[0] == b[0] {
        lemma_lex_asym(a.drop_first(), b.drop_first());
    }
}

pub proof fn lemma_lex_total(a: Seq<u8>, b: Seq<u8>)
    ensures
        lex_lt(a, b) || a == b || lex_lt(b, a),
    decreases a.len(),
{
    if a.len() > 0 && b.len() > 0 && a[0] == b[0] {
        lemma_lex_total(a.drop_first(), b.drop_first());
        if a.drop_first() == b.drop_first() {
            assert(a =~= seq![a[0]] + a.drop_first());
            assert(b =~= seq![b[0]] + b.drop_first());
        }
    } else if a.len() == 0 && b.len() == 0 {
        assert(a =~= b);
    }
}

pub proof fn lemma_lex_trans(a: Seq<u8>, b: Seq<u8>, c: Seq<u8>)
    requires
        lex_lt(a, b),
        lex_lt(b, c),
    ensures
        lex_lt(a, c),
    decreases a.len(),
{
    if a.len() > 0 && b.len() > 0 && c.len() > 0 && a[0] == b[0] && b[0] == c[0] {
        lemma_lex_trans(a.drop_first(), b.drop_first(), c.drop_first());
    }
}

/// Strict byte-lexicographic comparison.
pub fn bytes_lt(a: &[u8], b: &[u8]) -> (r: bool)
    ensures
        r == lex_lt(a@, b@),
{
    let mut i: usize = 0;
    assert(a@.subrange(0, a@.len() as int) =~= a@);
    assert(b@.subrange(0, b@.len() as int) =~= b@);
    while i < a.len() && i < b.len()
        invariant
            i <= a@.len(),
            i <= b@.len(),
            lex_lt(a@, b@) == lex_lt(a@.subrange(i as int, a@.len() as int), b@.subrange(i as int, b@.len() as int)),
        decreases a@.len() - i,
    {
        proof {
            let x = a@.subrange(i as int, a@.len() as int);
            let y = b@.subrange(i as int, b@.len() as int);
            assert(x.drop_first() =~= a@.subrange(i + 1, a@.len() as int));
            assert(y.drop_first() =~= b@.subrange(i + 1, b@.len() as int));
            assert(x[0] == a@[i as int]);
            assert(y[0] == b@[i as int]);
        }
        if a[i] != b[i] {
            return a[i] < b[i];
        }
        i += 1;
    }
    proof {
        assert(a@.subrange(0, a@.len() as int) =~= a@);
        assert(b@.subrange(0, b@.len() as int) =~= b@);
    }
    i < b.len()
}

pub open spec fn strictly_sorted(s: Seq<Seq<u8>>) -> bool {
    forall|i: int, j: int| 0 <= i < j < s.len() ==> lex_lt(#[trigger] s[i], #[trigger] s[j])
}

pub open spec fn vviews(v: Seq<Vec<u8>>) -> Seq<Seq<u8>> {
    v.map_values(|x: Vec<u8>| x@)
}

/// The elements of a finite set of byte strings in ascending order.
pub open spec fn sorted_of(s: Set<Seq<u8>>) -> Seq<Seq<u8>> {
    choose|q: Seq<Seq<u8>>| strictly_sorted(q) && q.to_set() == s
}

proof fn lemma_drop_first_set(a: Seq<Seq<u8>>)
    requires
        strictly_sorted(a),
        a.len() > 0,
    ensures
        a.drop_first().to_set() == a.to_set().remove(a[0]),
        strictly_sorted(a.drop_first()),
{
    let d = a.drop_first();
    assert forall|e: Seq<u8>| d.to_set().contains(e) implies a.to_set().remove(a[0]).contains(e) by {
        let k = choose|k: int| 0 <= k < d.len() && d[k] == e;
        assert(a[k + 1] == e);
        lemma_lex_irreflexive(a[0]);
    }
    assert forall|e: Seq<u8>| a.to_set().remove(a[0]).contains(e) implies d.to_set().contains(e) by {
        let k = choose|k: int| 0 <= k < a.len() && a[k] == e;
        assert(k != 0);
        assert(d[k - 1] == e);
    }
    assert(d.to_set() =~= a.to_set().remove(a[0]));
    assert forall|i: int, j: int| 0 <= i < j < d.len() implies lex_lt(#[trigger] d[i], #[trigger] d[j]) by {
        assert(d[i] == a[i + 1]);
        assert(d[j] == a[j + 1]);
    }
}

/// Two ascending lists with the same elements are the same list.
pub proof fn lemma_sorted_unique(a: Seq<Seq<u8>>, b: Seq<Seq<u8>>)
    requires
        strictly_sorted(a),
        strictly_sorted(b),
        a.to_set() == b.to_set(),
    ensures
        a == b,
    decreases a.len(),
{
    if a.len() == 0 {
        if b.len() > 0 {
            assert(b.to_set().contains(b[0]));
        }
        assert(a =~= b);
    } else {
        assert(a.to_set().contains(a[0]));
        if b.len() == 0 {
            assert(false);
        }
        assert(b.to_set().contains(b[0]));
        let i = choose|i: int| 0 <= i < b.len() && b[i] == a[0];
        let j = choose|j: int| 0 <= j < a.len() && a[j] == b[0];
        if a[0] != b[0] {
            assert(i != 0 && j != 0);
            lemma_lex_asym(b[0], a[0]);
        }
        lemma_drop_first_set(a);
        lemma_drop_first_set(b);
        lemma_sorted_unique(a.drop_first(), b.drop_first());
        assert(a =~= seq![a[0]] + a.drop_first());
        assert(b =~= seq![b[0]] + b.drop_first());
    }
}

/// A witness pins `sorted_of` down.
pub proof fn lemma_sorted_of(q: Seq<Seq<u8>>, s: Set<Seq<u8>>)
    requires
        strictly_sorted(q),
        q.to_set() == s,
    ensures
        sorted_of(s) == q,
{
    let c = sorted_of(s);
    assert(strictly_sorted(c) && c.to_set() == s);
    lemma_sorted_unique(c, q);
}

/// Insert `x` into a strictly sorted list unless it is already there.
pub fn insert_sorted_distinct(v: &mut Vec<Vec<u8>>, x: Vec<u8>)
    requires
        strictly_sorted(vviews(old(v)@)),
    ensures
        strictly_sorted(vviews(final(v)@)),
        vviews(final(v)@).to_set() == vviews(old(v)@).to_set().insert(x@),
{
    let ghost old_s = vviews(v@);
    let mut i: usize = 0;
    while i < v.len() && bytes_lt(v[i].as_slice(), x.as_slice())
        invariant
            i <= v@.len(),
            vviews(v@) == old_s,
            strictly_sorted(old_s),
            forall|j: int| 0 <= j < i ==> lex_lt(#[trigger] old_s[j], x@),
        decreases v@.len() - i,
    {
        i += 1;
    }
    if i < v.len() && bytes_eq(v[i].as_slice(), x.as_slice()) {
        proof {
            assert(old_s[i as int] == x@);
            assert(old_s.to_set().insert(x@) =~= old_s.to_set());
        }
        return;
    }
    proof {
        if i < v@.len() {
            lemma_lex_total(old_s[i as int], x@);
            assert(lex_lt(x@, old_s[i as int]));
        }
    }
    v.insert(i, x);
    proof {
        let ns = vviews(v@);
        assert(ns =~= old_s.insert(i as int, x@));
        assert forall|a: int, b: int| 0 <= a < b < ns.len() implies lex_lt(
            #[trigger] ns[a],
            #[trigger] ns[b],
        ) by {
            if b < i {
            } else if b == i {
            } else if a < i {
                assert(ns[b] == old_s[b - 1]);
                if b - 1 == i {
                } else {
                    lemma_lex_trans(ns[a], old_s[i as int], ns[b]);
                }
                if i < old_s.len() {
                    lemma_lex_trans(ns[a], x@, old_s[i as int]);
                }
            } else if a == i {
                assert(ns[b] == old_s[b - 1]);
                if b - 1 > i {
                    lemma_lex_trans(x@, old_s[i as int], old_s[b - 1]);
                }
            } else {
                assert(ns[a] == old_s[a - 1]);
                assert(ns[b] == old_s[b - 1]);
            }
        }
        assert(ns.to_set() =~= old_s.to_set().insert(x@)) by {
            assert forall|e: Seq<u8>| ns.to_set().contains(e) implies old_s.to_set().insert(
                x@,
            ).contains(e) by {
                let k = choose|k: int| 0 <= k < ns.len() && ns[k] == e;
                if k < i {
                    assert(old_s[k] == e);
                } else if k > i {
                    assert(old_s[k - 1] == e);
                }
            }
            assert forall|e: Seq<u8>| old_s.to_set().insert(x@).contains(e) implies ns.to_set().contains(e) by {
                if e == x@ {
                    assert(ns[i as int] == e);
                } else {
                    let k = choose|k: int| 0 <= k < old_s.len() && old_s[k] == e;
                    if k < i {
                        assert(ns[k] == e);
                    } else {
                        assert(ns[k + 1] == e);
                    }
                }
            }
        }
    }
}

/// Does `needle` occur in `hay` starting at byte `i`?
pub open spec fn occurs_at(hay: Seq<u8>, needle: Seq<u8>, i: int) -> bool {
    0 <= i && i + needle.len() <= hay.len() && hay.subrange(i, i + needle.len()) == needle
}

/// First occurrence at or after `from` (the `str::find` of `hay[from..]`).
pub open spec fn first_occurrence(hay: Seq<u8>, needle: Seq<u8>, from: int) -> Option<int>
    decreases hay.len() - from,
{
    if from < 0 || from + needle.len() > hay.len() {
        None
    } else if occurs_at(hay, needle, from) {
        Some(from)
    } else if from >= hay.len() {
        None
    } else {
        first_occurrence(hay, needle, from + 1)
    }
}

pub proof fn lemma_first_occurrence(hay: Seq<u8>, needle: Seq<u8>, from: int)
    requires
        0 <= from,
    ensures
        first_occurrence(hay, needle, from) matches Some(k) ==> from <= k && k + needle.len()
            <= hay.len() && occurs_at(hay, needle, k),
    decreases hay.len() - from,
{
    if from + needle.len() <= hay.len() && !occurs_at(hay, needle, from) && from < hay.len() {
        lemma_first_occurrence(hay, needle, from + 1);
    }
}

pub fn matches_at(hay: &[u8], needle: &[u8], i: usize) -> (r: bool)
    ensures
        r == occurs_at(hay@, needle@, i as int),
{
    let n = hay.len();
    if i > n || needle.len() > n - i {
        return false;
    }
    let mut k: usize = 0;
    while k < needle.len()
        invariant
            n == hay@.len(),
            i <= hay@.len(),
            i + needle@.len() <= hay@.len(),
            k <= needle@.len(),
            forall|j: int| 0 <= j < k ==> hay@[i + j] == needle@[j],
        decreases needle@.len() - k,
    {
        assert(i + k < hay@.len());
        let idx: usize = i + k;
        if hay[idx] != needle[k] {
            assert(hay@.subrange(i as int, i + needle@.len())[k as int] != needle@[k as int]);
            return false;
        }
        k += 1;
    }
    assert(hay@.subrange(i as int, i + needle@.len()) =~= needle@);
    true
}

/// `hay[from..].find(needle)`, as an absolute index.
pub fn find_from(hay: &[u8], needle: &[u8], from: usize) -> (r: Option<usize>)
    ensures
        match r {
            Some(i) => first_occurrence(hay@, needle@, from as int) == Some(i as int),
            None => first_occurrence(hay@, needle@, from as int) is None,
        },
{
    let mut i = from;
    while i <= hay.len() && needle.len() <= hay.len() - i
        invariant
            from <= i,
            first_occurrence(hay@, needle@, from as int) == first_occurrence(hay@, needle@, i as int),
        decreases hay@.len() + 1 - i,
    {
        if matches_at(hay, needle, i) {
            return Some(i);
        }
        if i == hay.len() {
            return None;
        }
        i += 1;
    }
    None
}

/// First index at or after `from` holding byte `b` (or `hay.len()`).
pub open spec fn next_byte(hay: Seq<u8>, b: u8, from: int) -> int
    decreases hay.len() - from,
{
    if from >= hay.len() {
        hay.len() as int
    } else if hay[from] == b {
        from
    } else {
        next_byte(hay, b, from + 1)
    }
}

pub proof fn lemma_next_byte(hay: Seq<u8>, b: u8, from: int)
    requires
        0 <= from <= hay.len(),
    ensures
        from <= next_byte(hay, b, from) <= hay.len(),
        next_byte(hay, b, from) < hay.len() ==> hay[next_byte(hay, b, from)] == b,
        forall|j: int| from <= j < next_byte(hay, b, from) ==> hay[j] != b,
    decreases hay.len() - from,
{
    if from < hay.len() && hay[from] != b {
        lemma_next_byte(hay, b, from + 1);
    }
}

pub fn find_byte(hay: &[u8], b: u8, from: usize) -> (r: usize)
    requires
        from <= hay@.len(),
    ensures
        r == next_byte(hay@, b, from as int),
{
    let mut i = from;
    while i < hay.len() && hay[i] != b
        invariant
            from <= i <= hay@.len(),
            next_byte(hay@, b, from as int) == next_byte(hay@, b, i as int),
        decreases hay@.len() - i,
    {
        i += 1;
    }
    i
}

/// Last index before `end` holding byte `b`, or -1.
pub open spec fn prev_byte(hay: Seq<u8>, b: u8, end: int) -> int
    decreases end,
{
    if end <= 0 {
        -1
    } else if hay[end - 1] == b {
        end - 1
    } else {
        prev_byte(hay, b, end - 1)
    }
}

pub proof fn lemma_prev_byte(hay: Seq<u8>, b: u8, end: int)
    requires
        0 <= end <= hay.len(),
    ensures
        -1 <= prev_byte(hay, b, end) < end,
        prev_byte(hay, b, end) >= 0 ==> hay[prev_byte(hay, b, end)] == b,
        forall|j: int| prev_byte(hay, b, end) < j < end ==> hay[j] != b,
    decreases end,
{
    if end > 0 && hay[end - 1] != b {
        lemma_prev_byte(hay, b, end - 1);
    }
}

/// One past the last `b` before `end` (0 when there is none).
pub fn after_prev_byte(hay: &[u8], b: u8, end: usize) -> (r: usize)
    requires
        end <= hay@.len(),
    ensures
        r == prev_byte(hay@, b, end as int) + 1,
{
    let mut i = end;
    while i > 0 && hay[i - 1] != b
        invariant
            i <= end,
            end <= hay@.len(),
            prev_byte(hay@, b, end as int) == prev_byte(hay@, b, i as int),
        decreases i,
    {
        i -= 1;
    }
    proof {
        if i > 0 {
            assert(prev_byte(hay@, b, i as int) == i - 1);
        }
    }
    i
}

/// Copy of `s[a..b]`.
pub fn slice_vec(s: &[u8], a: usize, b: usize) -> (r: Vec<u8>)
    requires
        a <= b <= s@.len(),
    ensures
        r@ == s@.subrange(a as int, b as int),
{
    let mut out: Vec<u8> = Vec::new();
    let mut i = a;
    while i < b
        invariant
            a <= i <= b,
            b <= s@.len(),
            out@ == s@.subrange(a as int, i as int),
        decreases b - i,
    {
        out.push(s[i]);
        i += 1;
        proof {
            assert(out@ =~= s@.subrange(a as int, i as int));
        }
    }
    out
}

/// Append all of `src` to `dst`.
pub fn push_all(dst: &mut Vec<u8>, src: &[u8])
    ensures
        final(dst)@ == old(dst)@ + src@,
{
    let mut i: usize = 0;
    while i < src.len()
        invariant
            i <= src@.len(),
            dst@ == old(dst)@ + src@.subrange(0, i as int),
        decreases src@.len() - i,
    {
        dst.push(src[i]);
        i += 1;
        proof {
            assert(dst@ =~= old(dst)@ + src@.subrange(0, i as int));
        }
    }
    proof {
        assert(src@.subrange(0, src@.len() as int) =~= src@);
    }
}

pub open spec fn lower_byte(b: u8) -> u8 {
    if 65 <= b <= 90 {
        (b + 32) as u8
    } else {
        b
    }
}

pub open spec fn lower_bytes(s: Seq<u8>) -> Seq<u8> {
    s.map_values(|b: u8| lower_byte(b))
}

/// ASCII lowercase copy.
pub fn to_lower_bytes(s: &[u8]) -> (r: Vec<u8>)
    ensures
        r@ == lower_bytes(s@),
{
    let mut out: Vec<u8> = Vec::new();
    let mut i: usize = 0;
    while i < s.len()
        invariant
            i <= s@.len(),
            out@ == lower_bytes(s@.subrange(0, i as int)),
        decreases s@.len() - i,
    {
        let b = s[i];
        let l = if 65 <= b && b <= 90 { b + 32 } else { b };
        out.push(l);
        i += 1;
        proof {
            assert(out@ =~= lower_bytes(s@.subrange(0, i as int)));
        }
    }
    proof {
        assert(s@.subrange(0, s@.len() as int) =~= s@);
    }
    out
}

pub open spec fn ends_with(s: Seq<u8>, suffix: Seq<u8>) -> bool {
    suffix.len() <= s.len() && s.subrange(s.len() - suffix.len(), s.len() as int) == suffix
}

pub fn bytes_ends_with(s: &[u8], suffix: &[u8]) -> (r: bool)
    ensures
        r == ends_with(s@, suffix@),
{
    if suffix.len() > s.len() {
        return false;
    }
    matches_at(s, suffix, s.len() - suffix.len())
}

pub fn contains_byte(s: &[u8], b: u8) -> (r: bool)
    ensures
        r == s@.contains(b),
{
    let mut i: usize = 0;
    while i < s.len()
        invariant
            i <= s@.len(),
            forall|j: int| 0 <= j < i ==> s@[j] != b,
        decreases s@.len() - i,
    {
        if s[i] == b {
            return true;
        }
        i += 1;
    }
    false
}

/// The decimal digits of `n`, in ASCII.
pub open spec fn dec_bytes(n: nat) -> Seq<u8>
    decreases n,
{
    if n < 10 {
        seq![(48 + n) as u8]
    } else {
        dec_bytes(n / 10).push((48 + n % 10) as u8)
    }
}

/// Append the decimal digits of `n`.
pub fn push_dec_bytes(out: &mut Vec<u8>, n: u64)
    ensures
        final(out)@ == old(out)@ + dec_bytes(n as nat),
    decreases n,
{
    if n >= 10 {
        push_dec_bytes(out, n / 10);
    }
    let d: u8 = (n % 10) as u8;
    out.push(48u8 + d);
    proof {
        if n >= 10 {
            assert(out@ =~= old(out)@ + dec_bytes((n / 10) as nat).push((48 + n % 10) as u8));
        } else {
            assert(out@ =~= old(out)@ + seq![(48 + n) as u8]);
        }
    }
}

} // verus!
