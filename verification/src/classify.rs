//! The text heuristics of the content sniff: which family a decoded text
//! belongs to (JSON, JSON lines, HTML, XML, log lines, SQL dump, CSV, YAML,
//! prose or line records), and the CSV dialect probe.

use crate::sniff::{c_occurs, line_bytes, line_end, spec_txt_kind, txt_kind, CsvDialect, Family, Sniffed};
use crate::text::{chars_of, string_from_chars, sub_chars, trim, trim_chars, trim_start, ws_prefix_end};
use vstd::prelude::*;

verus! {

// ---- quote-aware field split ----

/// The scan behind `split_quoted`: `"` and `'` open a quoted run that the
/// same quote closes (the quotes are dropped); outside quotes `d` ends a
/// field.
pub open spec fn split_from(l: Seq<char>, d: char, k: int, q: Option<char>, cur: Seq<char>, acc: Seq<Seq<char>>) -> Seq<Seq<char>>
    decreases l.len() - k,
{
    if k < 0 || k >= l.len() {
        acc.push(cur)
    } else {
        let c = l[k];
        match q {
            Some(x) => if c == x {
                split_from(l, d, k + 1, None, cur, acc)
            } else {
                split_from(l, d, k + 1, q, cur.push(c), acc)
            },
            None => if c == '"' || c == '\'' {
                split_from(l, d, k + 1, Some(c), cur, acc)
            } else if c == d {
                split_from(l, d, k + 1, None, Seq::empty(), acc.push(cur))
            } else {
                split_from(l, d, k + 1, None, cur.push(c), acc)
            },
        }
    }
}

/// The fields of a line.
pub open spec fn split_quoted(l: Seq<char>, d: char) -> Seq<Seq<char>> {
    split_from(l, d, 0, None, Seq::empty(), Seq::empty())
}

pub open spec fn fields_view(v: Seq<Vec<char>>) -> Seq<Seq<char>> {
    v.map_values(|f: Vec<char>| f@)
}

pub fn split_quoted_exec(l: &[char], d: char) -> (r: Vec<Vec<char>>)
    ensures
        fields_view(r@) == split_quoted(l@, d),
        r@.len() >= 1,
{
    let mut acc: Vec<Vec<char>> = Vec::new();
    let mut cur: Vec<char> = Vec::new();
    let mut q: Option<char> = None;
    let mut k: usize = 0;
    proof {
        assert(fields_view(acc@) =~= Seq::<Seq<char>>::empty());
        assert(cur@ =~= Seq::<char>::empty());
    }
    while k < l.len()
        invariant
            k <= l@.len(),
            split_quoted(l@, d) == split_from(l@, d, k as int, q, cur@, fields_view(acc@)),
        decreases l@.len() - k,
    {
        let c = l[k];
        match q {
            Some(x) => {
                if c == x {
                    q = None;
                } else {
                    cur.push(c);
                }
            },
            None => {
                if c == '"' || c == '\'' {
                    q = Some(c);
                } else if c == d {
                    let ghost before = fields_view(acc@);
                    let ghost cv = cur@;
                    let mut f: Vec<char> = Vec::new();
                    std::mem::swap(&mut f, &mut cur);
                    acc.push(f);
                    proof {
                        assert(fields_view(acc@) =~= before.push(cv));
                    }
                } else {
                    cur.push(c);
                }
            },
        }
        k += 1;
    }
    let ghost before = fields_view(acc@);
    let ghost cv = cur@;
    acc.push(cur);
    proof {
        assert(fields_view(acc@) =~= before.push(cv));
    }
    acc
}

// ---- the CSV dialect ----

pub open spec fn strs_view(v: Seq<&str>) -> Seq<Seq<char>> {
    v.map_values(|l: &str| l@)
}

/// How many of `cs` equal `x`.
pub open spec fn count_eq(cs: Seq<nat>, x: nat) -> nat
    decreases cs.len(),
{
    if cs.len() == 0 {
        0
    } else {
        count_eq(cs.drop_last(), x) + if cs.last() == x {
            1nat
        } else {
            0nat
        }
    }
}

pub open spec fn field_counts(sample: Seq<Seq<char>>, d: char) -> Seq<nat> {
    sample.map_values(|l: Seq<char>| split_quoted(l, d).len())
}

/// The field count of delimiter `d` when the first line has at least two
/// fields and nine lines in ten have as many.
pub open spec fn delim_fields(sample: Seq<Seq<char>>, d: char) -> Option<nat> {
    let cs = field_counts(sample, d);
    if cs[0] >= 2 && count_eq(cs, cs[0]) * 10 >= cs.len() * 9 {
        Some(cs[0])
    } else {
        None
    }
}

/// Delimiter `d` replaces the best so far unless that one splits into at
/// least as many fields.
pub open spec fn pick(best: Option<(char, nat)>, sample: Seq<Seq<char>>, d: char) -> Option<(char, nat)> {
    match delim_fields(sample, d) {
        Some(f) => match best {
            Some(b) => if b.1 >= f {
                best
            } else {
                Some((d, f))
            },
            None => Some((d, f)),
        },
        None => best,
    }
}

/// The delimiter among `,` `;` tab `|` that splits the sample most evenly
/// into the most fields.
pub open spec fn best_delim(sample: Seq<Seq<char>>) -> Option<(char, nat)> {
    pick(pick(pick(pick(None, sample, ','), sample, ';'), sample, '\t'), sample, '|')
}

pub open spec fn csv_numeric_char(c: char) -> bool {
    ('0' <= c <= '9') || c == '.' || c == ',' || c == '-' || c == '+'
}

/// A field that, trimmed, is non-empty, only digits and `.,-+`, and holds
/// a digit.
pub open spec fn csv_numericish(f: Seq<char>) -> bool {
    let t = trim(f);
    t.len() > 0 && (forall|i: int| 0 <= i < t.len() ==> csv_numeric_char(#[trigger] t[i])) && exists|i: int|
        0 <= i < t.len() && '0' <= #[trigger] t[i] <= '9'
}

/// A header line: no numeric field, all fields distinct once trimmed, and
/// a numeric field somewhere below it in the sample.
pub open spec fn csv_header(sample: Seq<Seq<char>>, d: char) -> bool {
    let h = split_quoted(sample[0], d);
    &&& forall|i: int| 0 <= i < h.len() ==> !csv_numericish(#[trigger] h[i])
    &&& forall|i: int, j: int| 0 <= i < j < h.len() ==> trim(#[trigger] h[i]) != trim(#[trigger] h[j])
    &&& exists|k: int, i: int|
        1 <= k < sample.len() && 0 <= i < split_quoted(sample[k], d).len() && csv_numericish(
            #[trigger] split_quoted(sample[k], d)[i],
        )
}

/// What `Regex::new(r"^-?\d{1,9},\d+$").unwrap().is_match(t)` says of `t`.
pub uninterp spec fn decimal_comma_number(t: Seq<char>) -> bool;

/// `^-?\d{1,9},\d+$` on a field: a number written with a decimal comma.
#[verifier::external_body]
fn is_decimal_comma_number(t: &str) -> (r: bool)
    ensures
        r == decimal_comma_number(t@),
{
    regex::Regex::new(r"^-?\d{1,9},\d+$").unwrap().is_match(t)
}

/// (numeric fields, decimal-comma numbers) among the fields.
pub open spec fn field_nums(fs: Seq<Seq<char>>) -> (nat, nat)
    decreases fs.len(),
{
    if fs.len() == 0 {
        (0, 0)
    } else {
        let r = field_nums(fs.drop_last());
        let t = trim(fs.last());
        if csv_numericish(t) {
            (r.0 + 1, r.1 + if decimal_comma_number(t) {
                1nat
            } else {
                0nat
            })
        } else {
            r
        }
    }
}

/// The same, summed over lines.
pub open spec fn line_nums(ls: Seq<Seq<char>>, d: char) -> (nat, nat)
    decreases ls.len(),
{
    if ls.len() == 0 {
        (0, 0)
    } else {
        let r = line_nums(ls.drop_last(), d);
        let f = field_nums(split_quoted(ls.last(), d));
        (r.0 + f.0, r.1 + f.1)
    }
}

/// With `;` as the delimiter, numbers use a decimal comma when at least
/// three in ten numeric fields below the header look like `12,3`.
pub open spec fn csv_decimal_comma(sample: Seq<Seq<char>>, d: char, header: bool) -> bool {
    d == ';' && {
        let body = if header {
            sample.subrange(1, sample.len() as int)
        } else {
            sample
        };
        let (num, hits) = line_nums(body, d);
        num > 0 && hits * 10 >= num * 3
    }
}

/// The first 64 lines.
pub open spec fn csv_sample(nonblank: Seq<Seq<char>>) -> Seq<Seq<char>> {
    if nonblank.len() <= 64 {
        nonblank
    } else {
        nonblank.subrange(0, 64)
    }
}

/// The dialect of the non-blank lines, if they read as CSV:
/// (delimiter, header, decimal comma).
pub open spec fn csv_dialect(nonblank: Seq<Seq<char>>) -> Option<(char, bool, bool)> {
    let sample = csv_sample(nonblank);
    if nonblank.len() < 2 {
        None
    } else {
        match best_delim(sample) {
            Some(b) => {
                let header = csv_header(sample, b.0);
                Some((b.0, header, csv_decimal_comma(sample, b.0, header)))
            },
            None => None,
        }
    }
}

fn count_fields(sample: &Vec<Vec<char>>, d: char) -> (r: Vec<usize>)
    ensures
        r@.len() == sample@.len(),
        forall|k: int| 0 <= k < r@.len() ==> #[trigger] r@[k] as nat == field_counts(fields_view(sample@), d)[k],
{
    let mut out: Vec<usize> = Vec::new();
    let mut k: usize = 0;
    while k < sample.len()
        invariant
            k <= sample@.len(),
            out@.len() == k,
            forall|j: int| 0 <= j < k ==> #[trigger] out@[j] as nat == field_counts(fields_view(sample@), d)[j],
        decreases sample@.len() - k,
    {
        let fs = split_quoted_exec(sample[k].as_slice(), d);
        proof {
            assert(fields_view(sample@)[k as int] == sample@[k as int]@);
        }
        out.push(fs.len());
        k += 1;
    }
    out
}

fn delim_fields_exec(sample: &Vec<Vec<char>>, d: char) -> (r: Option<usize>)
    requires
        sample@.len() >= 1,
    ensures
        match r {
            Some(f) => delim_fields(fields_view(sample@), d) == Some(f as nat),
            None => delim_fields(fields_view(sample@), d) is None,
        },
{
    let ghost sv = fields_view(sample@);
    let cs = count_fields(sample, d);
    let ghost cv = field_counts(sv, d);
    let first = cs[0];
    if first < 2 {
        return None;
    }
    let mut same: usize = 0;
    let mut k: usize = 0;
    while k < cs.len()
        invariant
            k <= cs@.len(),
            cs@.len() == sv.len(),
            cv == field_counts(sv, d),
            cv.len() == sv.len(),
            forall|j: int| 0 <= j < cs@.len() ==> #[trigger] cs@[j] as nat == cv[j],
            same <= k,
            same as nat == count_eq(cv.subrange(0, k as int), first as nat),
        decreases cs@.len() - k,
    {
        proof {
            assert(cv.subrange(0, k + 1).drop_last() =~= cv.subrange(0, k as int));
        }
        if cs[k] == first {
            same += 1;
        }
        k += 1;
    }
    proof {
        assert(cv.subrange(0, cs@.len() as int) =~= cv);
    }
    if same as u128 * 10 >= cs.len() as u128 * 9 {
        Some(first)
    } else {
        None
    }
}

fn csv_numericish_exec(f: &[char]) -> (r: bool)
    ensures
        r == csv_numericish(f@),
{
    let t = trim_chars(f);
    if t.len() == 0 {
        return false;
    }
    let mut digit = false;
    let mut k: usize = 0;
    while k < t.len()
        invariant
            k <= t@.len(),
            t@ == trim(f@),
            forall|i: int| 0 <= i < k ==> csv_numeric_char(#[trigger] t@[i]),
            digit <==> exists|i: int| 0 <= i < k && '0' <= #[trigger] t@[i] <= '9',
        decreases t@.len() - k,
    {
        let c = t[k];
        if !(('0' <= c && c <= '9') || c == '.' || c == ',' || c == '-' || c == '+') {
            assert(!csv_numeric_char(t@[k as int]));
            return false;
        }
        if '0' <= c && c <= '9' {
            digit = true;
        }
        k += 1;
    }
    digit
}

fn csv_header_exec(sample: &Vec<Vec<char>>, d: char) -> (r: bool)
    requires
        sample@.len() >= 1,
    ensures
        r == csv_header(fields_view(sample@), d),
{
    let ghost sv = fields_view(sample@);
    proof {
        assert(sv[0] == sample@[0]@);
    }
    let h = split_quoted_exec(sample[0].as_slice(), d);
    let ghost hv = fields_view(h@);
    let mut i: usize = 0;
    while i < h.len()
        invariant
            i <= h@.len(),
            hv == fields_view(h@),
            sv == fields_view(sample@),
            hv == split_quoted(sv[0], d),
            forall|j: int| 0 <= j < i ==> !csv_numericish(#[trigger] hv[j]),
        decreases h@.len() - i,
    {
        if csv_numericish_exec(h[i].as_slice()) {
            assert(csv_numericish(hv[i as int]));
            return false;
        }
        i += 1;
    }
    let mut trimmed: Vec<Vec<char>> = Vec::new();
    let mut i: usize = 0;
    while i < h.len()
        invariant
            i <= h@.len(),
            hv == fields_view(h@),
            trimmed@.len() == i,
            forall|j: int| 0 <= j < i ==> #[trigger] trimmed@[j]@ == trim(hv[j]),
        decreases h@.len() - i,
    {
        trimmed.push(trim_chars(h[i].as_slice()));
        i += 1;
    }
    let mut i: usize = 0;
    while i < trimmed.len()
        invariant
            i <= trimmed@.len(),
            trimmed@.len() == hv.len(),
            sv == fields_view(sample@),
            hv == split_quoted(sv[0], d),
            forall|j: int| 0 <= j < trimmed@.len() ==> #[trigger] trimmed@[j]@ == trim(hv[j]),
            forall|a: int, b: int| 0 <= a < b < hv.len() && a < i ==> trim(#[trigger] hv[a]) != trim(#[trigger] hv[b]),
        decreases trimmed@.len() - i,
    {
        let mut j: usize = i + 1;
        while j < trimmed.len()
            invariant
                i < j <= trimmed@.len(),
                i < trimmed@.len(),
                trimmed@.len() == hv.len(),
                sv == fields_view(sample@),
                hv == split_quoted(sv[0], d),
                forall|x: int| 0 <= x < trimmed@.len() ==> #[trigger] trimmed@[x]@ == trim(hv[x]),
                forall|b: int| i < b < j ==> trim(hv[i as int]) != trim(#[trigger] hv[b]),
            decreases trimmed@.len() - j,
        {
            if crate::text::chars_eq(trimmed[i].as_slice(), trimmed[j].as_slice()) {
                assert(trim(hv[i as int]) == trim(hv[j as int]));
                return false;
            }
            j += 1;
        }
        i += 1;
    }
    let mut k: usize = 1;
    while k < sample.len()
        invariant
            1 <= k <= sample@.len(),
            sv == fields_view(sample@),
            sv.len() == sample@.len(),
            hv == split_quoted(sv[0], d),
            forall|j: int| 0 <= j < hv.len() ==> !csv_numericish(#[trigger] hv[j]),
            forall|a: int, b: int| 0 <= a < b < hv.len() ==> trim(#[trigger] hv[a]) != trim(#[trigger] hv[b]),
            forall|a: int, i: int|
                1 <= a < k && 0 <= i < split_quoted(sv[a], d).len() ==> !csv_numericish(
                    #[trigger] split_quoted(sv[a], d)[i],
                ),
        decreases sample@.len() - k,
    {
        let fs = split_quoted_exec(sample[k].as_slice(), d);
        proof {
            assert(sv[k as int] == sample@[k as int]@);
        }
        let ghost fv = fields_view(fs@);
        let mut i: usize = 0;
        while i < fs.len()
            invariant
                i <= fs@.len(),
                fv == fields_view(fs@),
                fv == split_quoted(sv[k as int], d),
                1 <= k < sample@.len(),
                sv == fields_view(sample@),
                sv.len() == sample@.len(),
                hv == split_quoted(sv[0], d),
                forall|j: int| 0 <= j < hv.len() ==> !csv_numericish(#[trigger] hv[j]),
                forall|a: int, b: int| 0 <= a < b < hv.len() ==> trim(#[trigger] hv[a]) != trim(#[trigger] hv[b]),
                forall|j: int| 0 <= j < i ==> !csv_numericish(#[trigger] fv[j]),
            decreases fs@.len() - i,
        {
            if csv_numericish_exec(fs[i].as_slice()) {
                assert(csv_numericish(split_quoted(sv[k as int], d)[i as int]));
                return true;
            }
            i += 1;
        }
        k += 1;
    }
    false
}

fn line_nums_exec(lines: &Vec<Vec<char>>, from: usize, d: char) -> (r: (u128, u128))
    requires
        from <= lines@.len(),
        lines@.len() <= 64,
    ensures
        (r.0 as nat, r.1 as nat) == line_nums(fields_view(lines@).subrange(from as int, lines@.len() as int), d),
        r.1 <= r.0 <= 0x1_0000_0000_0000_0000 * 64,
{
    let ghost lv = fields_view(lines@).subrange(from as int, lines@.len() as int);
    let mut num: u128 = 0;
    let mut hits: u128 = 0;
    let mut k: usize = from;
    while k < lines.len()
        invariant
            from <= k <= lines@.len(),
            lines@.len() <= 64,
            lv == fields_view(lines@).subrange(from as int, lines@.len() as int),
            (num as nat, hits as nat) == line_nums(lv.subrange(0, k - from), d),
            hits <= num,
            num <= 0x1_0000_0000_0000_0000 * (k - from),
        decreases lines@.len() - k,
    {
        proof {
            assert(lv.subrange(0, k + 1 - from).drop_last() =~= lv.subrange(0, k - from));
            assert(lv[k - from] == lines@[k as int]@);
        }
        let fs = split_quoted_exec(lines[k].as_slice(), d);
        let ghost fv = fields_view(fs@);
        let mut n: u64 = 0;
        let mut h: u64 = 0;
        let mut i: usize = 0;
        while i < fs.len()
            invariant
                i <= fs@.len(),
                fv == fields_view(fs@),
                (n as nat, h as nat) == field_nums(fv.subrange(0, i as int)),
                h <= n <= i,
            decreases fs@.len() - i,
        {
            proof {
                assert(fv.subrange(0, i + 1).drop_last() =~= fv.subrange(0, i as int));
            }
            let t = trim_chars(fs[i].as_slice());
            if csv_numericish_exec(t.as_slice()) {
                n += 1;
                let ts = crate::text::string_from_chars(t.as_slice());
                if is_decimal_comma_number(ts.as_str()) {
                    h += 1;
                }
            }
            i += 1;
        }
        proof {
            assert(fv.subrange(0, fs@.len() as int) =~= fv);
        }
        num = num + n as u128;
        hits = hits + h as u128;
        k += 1;
    }
    proof {
        assert(lv.subrange(0, lines@.len() - from) =~= lv);
    }
    (num, hits)
}

fn sample_of(nonblank: &[&str]) -> (r: Vec<Vec<char>>)
    ensures
        fields_view(r@) == csv_sample(strs_view(nonblank@)),
        r@.len() <= 64,
{
    let ghost nv = strs_view(nonblank@);
    let n = if nonblank.len() <= 64 {
        nonblank.len()
    } else {
        64
    };
    let mut out: Vec<Vec<char>> = Vec::new();
    let mut k: usize = 0;
    while k < n
        invariant
            k <= n,
            n <= nonblank@.len(),
            n == if nonblank@.len() <= 64 { nonblank@.len() } else { 64 },
            nv == strs_view(nonblank@),
            fields_view(out@) == nv.subrange(0, k as int),
        decreases n - k,
    {
        let c = chars_of(nonblank[k]);
        let ghost before = fields_view(out@);
        proof {
            assert(nv[k as int] == nonblank@[k as int]@);
            assert(c@ == nv[k as int]);
        }
        out.push(c);
        proof {
            assert(fields_view(out@) =~= before.push(nv[k as int]));
            assert(fields_view(out@) =~= nv.subrange(0, k + 1));
        }
        k += 1;
    }
    proof {
        if nonblank@.len() <= 64 {
            assert(nv.subrange(0, n as int) =~= nv);
        }
    }
    out
}

/// The CSV dialect of the non-blank lines, if they read as CSV.
pub fn sniff_csv_dialect(nonblank: &[&str]) -> (r: Option<CsvDialect>)
    ensures
        match csv_dialect(strs_view(nonblank@)) {
            Some(o) => r matches Some(c) && c.delim as char == o.0 && c.has_header == o.1 && c.decimal_comma == o.2,
            None => r is None,
        },
{
    if nonblank.len() < 2 {
        return None;
    }
    let sample = sample_of(nonblank);
    let ghost sv = fields_view(sample@);
    let mut best: Option<(u8, usize)> = None;
    let delims: [u8; 4] = [44u8, 59u8, 9u8, 124u8];
    let mut k: usize = 0;
    let ghost mut spec_best: Option<(char, nat)> = None;
    while k < 4
        invariant
            k <= 4,
            sample@.len() >= 2,
            sv == fields_view(sample@),
            delims@ == seq![44u8, 59u8, 9u8, 124u8],
            spec_best == match best {
                Some(b) => Some((b.0 as char, b.1 as nat)),
                None => None::<(char, nat)>,
            },
            k == 0 ==> spec_best is None,
            k == 1 ==> spec_best == pick(None, sv, ','),
            k == 2 ==> spec_best == pick(pick(None, sv, ','), sv, ';'),
            k == 3 ==> spec_best == pick(pick(pick(None, sv, ','), sv, ';'), sv, '\t'),
            k == 4 ==> spec_best == best_delim(sv),
        decreases 4 - k,
    {
        let d = delims[k];
        let dc = d as char;
        match delim_fields_exec(&sample, dc) {
            Some(f) => {
                let keep = match best {
                    Some(b) => b.1 >= f,
                    None => false,
                };
                if !keep {
                    best = Some((d, f));
                }
            },
            None => {},
        }
        proof {
            spec_best = pick(spec_best, sv, dc);
        }
        k += 1;
    }
    match best {
        None => None,
        Some(b) => {
            let d = b.0 as char;
            let header = csv_header_exec(&sample, d);
            let decimal_comma = if b.0 == 59u8 {
                let from: usize = if header {
                    1
                } else {
                    0
                };
                let (num, hits) = line_nums_exec(&sample, from, d);
                proof {
                    if header {
                        assert(sv.subrange(1, sv.len() as int) == sv.subrange(from as int, sample@.len() as int));
                    } else {
                        assert(sv.subrange(0, sample@.len() as int) =~= sv);
                    }
                }
                num > 0 && hits * 10 >= num * 3
            } else {
                false
            };
            Some(CsvDialect { delim: b.0, has_header: header, decimal_comma })
        },
    }
}

// ---- the text family ----

/// Whether `serde_json::from_str::<serde_json::Value>` accepts a string.
pub uninterp spec fn json_value(s: Seq<char>) -> bool;

/// `serde_json::from_str::<serde_json::Value>(s).is_ok()`.
#[verifier::external_body]
fn parses_as_json(s: &str) -> (r: bool)
    ensures
        r == json_value(s@),
{
    serde_json::from_str::<serde_json::Value>(s).is_ok()
}

/// What `str::to_lowercase` makes of a string.
pub uninterp spec fn lowercase_of(s: Seq<char>) -> Seq<char>;

/// `str::to_lowercase`: the Unicode lowercase mapping of the whole string.
#[verifier::external_body]
pub(crate) fn lowercase(s: &str) -> (r: String)
    ensures
        r@ == lowercase_of(s@),
{
    s.to_lowercase()
}

/// What `str::to_uppercase` makes of a string.
pub uninterp spec fn uppercase_of(s: Seq<char>) -> Seq<char>;

/// `str::to_uppercase`: the Unicode uppercase mapping of the whole string.
#[verifier::external_body]
fn uppercase(s: &str) -> (r: String)
    ensures
        r@ == uppercase_of(s@),
{
    s.to_uppercase()
}

/// What `Regex::new(r"^\s*(- )?[\w.@/-]+:(\s|$)").unwrap().is_match(l)` says.
pub uninterp spec fn yaml_key_line(l: Seq<char>) -> bool;

/// `^\s*(- )?[\w.@/-]+:(\s|$)` on a line: a YAML `key:` line.
#[verifier::external_body]
fn is_yaml_key_line(l: &str) -> (r: bool)
    ensures
        r == yaml_key_line(l@),
{
    regex::Regex::new(r"^\s*(- )?[\w.@/-]+:(\s|$)").unwrap().is_match(l)
}

pub open spec fn c_contains(t: Seq<char>, m: Seq<char>) -> bool {
    exists|i: int| #[trigger] c_occurs(t, m, i)
}

pub open spec fn take_chars(t: Seq<char>, n: int) -> Seq<char> {
    if t.len() <= n {
        t
    } else {
        t.subrange(0, n)
    }
}

/// A first line that, trimmed, is a bracketed `[section]` that is not JSON:
/// a TOML or INI table header.
pub open spec fn ini_table_header(nb: Seq<Seq<char>>) -> bool {
    nb.len() > 0 && {
        let t = trim(nb[0]);
        t.len() > 0 && t[0] == '[' && t.last() == ']' && !json_value(t)
    }
}

pub open spec fn json_count(nb: Seq<Seq<char>>) -> nat
    decreases nb.len(),
{
    if nb.len() == 0 {
        0
    } else {
        json_count(nb.drop_last()) + if json_value(nb.last()) {
            1nat
        } else {
            0nat
        }
    }
}

/// The first 200 characters hold a `:`, `[` or `{`.
pub open spec fn json_start(t: Seq<char>) -> bool {
    let h = take_chars(t, 200);
    c_contains(h, seq![':']) || c_contains(h, seq!['[']) || c_contains(h, seq!['{'])
}

pub open spec fn starts_with_c(t: Seq<char>, m: Seq<char>) -> bool {
    c_occurs(t, m, 0)
}

/// A YAML-looking line: a `key:` line, or a `- ` item that is not a
/// markdown checkbox.
pub open spec fn yaml_hit(l: Seq<char>) -> bool {
    let t = trim_start(l);
    yaml_key_line(l) || (starts_with_c(t, seq!['-', ' ']) && !(starts_with_c(t, seq!['-', ' ', '[', ' ', ']', ' '])
        || starts_with_c(t, seq!['-', ' ', '[', 'x', ']', ' ']) || starts_with_c(t, seq!['-', ' ', '[', 'X', ']', ' '])))
}

pub open spec fn yaml_hits(nb: Seq<Seq<char>>) -> nat
    decreases nb.len(),
{
    if nb.len() == 0 {
        0
    } else {
        yaml_hits(nb.drop_last()) + if yaml_hit(nb.last()) {
            1nat
        } else {
            0nat
        }
    }
}

/// At least three lines and at least six in ten of them YAML-looking (the
/// ratio compared exactly, as a fraction).
pub open spec fn yaml_ratio_ok(nb: Seq<Seq<char>>) -> bool {
    nb.len() >= 3 && yaml_hits(nb) * 10 >= nb.len() * 6
}

/// The family of a text from its content, given its non-blank lines and
/// how many of them the log-line probe accepts.
pub open spec fn classify(text: Seq<char>, nonblank: Seq<&str>, log_hits: nat) -> Family {
    let nb = strs_view(nonblank);
    let trimmed = trim_start(text);
    let head_lc = lowercase_of(take_chars(text, 256));
    let json_open = !ini_table_header(nb) && trimmed.len() > 0 && (trimmed[0] == '{' || trimmed[0] == '[');
    if json_open && nb.len() >= 2 && json_count(nb) * 10 >= nb.len() * 9 {
        Family::Jsonl
    } else if json_open && nb.len() == 1 && json_value(nb[0]) {
        Family::Json
    } else if json_open && json_start(trimmed) {
        Family::Json
    } else if c_contains(head_lc, "<!doctype html"@) || c_contains(head_lc, "<html"@) {
        Family::Html
    } else if c_contains(head_lc, "<?xml"@) || (trimmed.len() > 0 && trimmed[0] == '<' && c_contains(text, "</"@)) {
        if c_contains(lowercase_of(text), "<html"@) || c_contains(lowercase_of(text), "<body"@) {
            Family::Html
        } else {
            Family::Xml
        }
    } else if nb.len() >= 3 && log_hits * 10 >= nb.len() * 6 {
        Family::Logs
    } else if (c_contains(uppercase_of(take_chars(text, 4096)), "CREATE TABLE"@) || c_contains(
        uppercase_of(take_chars(text, 4096)),
        "INSERT INTO"@,
    )) && c_contains(text, seq![';']) {
        Family::SqlDump
    } else if nb.len() >= 2 && csv_dialect(nb) is Some {
        Family::Csv
    } else if (nb.len() > 0 && trim(nb[0]) == "---"@) || yaml_ratio_ok(nb) {
        Family::Yaml
    } else {
        spec_txt_kind(line_bytes(nonblank))
    }
}

pub(crate) fn contains_chars(t: &[char], m: &[char]) -> (r: bool)
    ensures
        r == c_contains(t@, m@),
{
    let n = t.len();
    let mut i: usize = 0;
    loop
        invariant
            i <= n,
            n == t@.len(),
            forall|j: int| 0 <= j < i ==> !c_occurs(t@, m@, j),
        decreases n - i,
    {
        if crate::sniff::chars_at(t, m, i) {
            return true;
        }
        if i == n {
            proof {
                assert forall|j: int| !#[trigger] c_occurs(t@, m@, j) by {
                    if 0 <= j <= n {
                        assert(j < i || j == i);
                    }
                }
            }
            return false;
        }
        i += 1;
    }
}

fn take_exec(t: &Vec<char>, n: usize) -> (r: Vec<char>)
    ensures
        r@ == take_chars(t@, n as int),
{
    if t.len() <= n {
        let r = sub_chars(t.as_slice(), 0, t.len());
        proof {
            assert(r@ =~= t@);
        }
        r
    } else {
        sub_chars(t.as_slice(), 0, n)
    }
}

fn json_count_exec(nonblank: &[&str]) -> (r: usize)
    ensures
        r as nat == json_count(strs_view(nonblank@)),
        r <= nonblank@.len(),
{
    let ghost nb = strs_view(nonblank@);
    let mut n: usize = 0;
    let mut i: usize = 0;
    while i < nonblank.len()
        invariant
            i <= nonblank@.len(),
            n <= i,
            nb == strs_view(nonblank@),
            n as nat == json_count(nb.subrange(0, i as int)),
        decreases nonblank@.len() - i,
    {
        proof {
            assert(nb.subrange(0, i + 1).drop_last() =~= nb.subrange(0, i as int));
            assert(nb[i as int] == nonblank@[i as int]@);
        }
        if parses_as_json(nonblank[i]) {
            n += 1;
        }
        i += 1;
    }
    proof {
        assert(nb.subrange(0, nonblank@.len() as int) =~= nb);
    }
    n
}

fn yaml_hit_exec(l: &str) -> (r: bool)
    ensures
        r == yaml_hit(l@),
{
    if is_yaml_key_line(l) {
        return true;
    }
    let c = chars_of(l);
    let a = ws_prefix_end(c.as_slice());
    proof {
        crate::text::lemma_ws_prefix_len(c@);
    }
    let t = sub_chars(c.as_slice(), a, c.len());
    let dash: [char; 2] = ['-', ' '];
    let box0: [char; 6] = ['-', ' ', '[', ' ', ']', ' '];
    let box1: [char; 6] = ['-', ' ', '[', 'x', ']', ' '];
    let box2: [char; 6] = ['-', ' ', '[', 'X', ']', ' '];
    proof {
        assert(dash@ =~= seq!['-', ' ']);
        assert(box0@ =~= seq!['-', ' ', '[', ' ', ']', ' ']);
        assert(box1@ =~= seq!['-', ' ', '[', 'x', ']', ' ']);
        assert(box2@ =~= seq!['-', ' ', '[', 'X', ']', ' ']);
    }
    crate::sniff::chars_at(t.as_slice(), &dash, 0) && !(crate::sniff::chars_at(t.as_slice(), &box0, 0)
        || crate::sniff::chars_at(t.as_slice(), &box1, 0) || crate::sniff::chars_at(t.as_slice(), &box2, 0))
}

fn yaml_hits_exec(nonblank: &[&str]) -> (r: usize)
    ensures
        r as nat == yaml_hits(strs_view(nonblank@)),
        r <= nonblank@.len(),
{
    let ghost nb = strs_view(nonblank@);
    let mut n: usize = 0;
    let mut i: usize = 0;
    while i < nonblank.len()
        invariant
            i <= nonblank@.len(),
            n <= i,
            nb == strs_view(nonblank@),
            n as nat == yaml_hits(nb.subrange(0, i as int)),
        decreases nonblank@.len() - i,
    {
        proof {
            assert(nb.subrange(0, i + 1).drop_last() =~= nb.subrange(0, i as int));
            assert(nb[i as int] == nonblank@[i as int]@);
        }
        if yaml_hit_exec(nonblank[i]) {
            n += 1;
        }
        i += 1;
    }
    proof {
        assert(nb.subrange(0, nonblank@.len() as int) =~= nb);
    }
    n
}

/// The family of a text from its content. `nonblank` are its complete
/// non-blank lines; `log_hits` is how many of them the log-line probe
/// accepts.
pub fn classify_text(text: &str, nonblank: &[&str], log_hits: usize) -> (r: Family)
    ensures
        r == classify(text@, nonblank@, log_hits as nat),
{
    let ghost nb = strs_view(nonblank@);
    let t = chars_of(text);
    let a = ws_prefix_end(t.as_slice());
    proof {
        crate::text::lemma_ws_prefix_len(t@);
    }
    let trimmed = sub_chars(t.as_slice(), a, t.len());
    let ini = if nonblank.len() > 0 {
        let f = chars_of(nonblank[0]);
        proof {
            assert(nb[0] == nonblank@[0]@);
        }
        let tt = trim_chars(f.as_slice());
        if tt.len() > 0 && tt[0] == '[' && tt[tt.len() - 1] == ']' {
            let ts = string_from_chars(tt.as_slice());
            !parses_as_json(ts.as_str())
        } else {
            false
        }
    } else {
        false
    };
    let json_open = !ini && trimmed.len() > 0 && (trimmed[0] == '{' || trimmed[0] == '[');
    if json_open {
        if nonblank.len() >= 2 {
            let ok = json_count_exec(nonblank);
            if ok as u128 * 10 >= nonblank.len() as u128 * 9 {
                return Family::Jsonl;
            }
        } else if nonblank.len() == 1 && parses_as_json(nonblank[0]) {
            proof {
                assert(nb[0] == nonblank@[0]@);
            }
            return Family::Json;
        }
        let h = take_exec(&trimmed, 200);
        let colon: [char; 1] = [':'];
        let bracket: [char; 1] = ['['];
        let brace: [char; 1] = ['{'];
        proof {
            assert(colon@ =~= seq![':']);
            assert(bracket@ =~= seq!['[']);
            assert(brace@ =~= seq!['{']);
        }
        if contains_chars(h.as_slice(), &colon) || contains_chars(h.as_slice(), &bracket) || contains_chars(
            h.as_slice(),
            &brace,
        ) {
            return Family::Json;
        }
    }
    let head = take_exec(&t, 256);
    let head_s = string_from_chars(head.as_slice());
    let head_lc_s = lowercase(head_s.as_str());
    let head_lc = chars_of(head_lc_s.as_str());
    let doctype = chars_of("<!doctype html");
    let html_open = chars_of("<html");
    if contains_chars(head_lc.as_slice(), doctype.as_slice()) || contains_chars(head_lc.as_slice(), html_open.as_slice()) {
        return Family::Html;
    }
    let xml_decl = chars_of("<?xml");
    let close_tag = chars_of("</");
    if contains_chars(head_lc.as_slice(), xml_decl.as_slice()) || (trimmed.len() > 0 && trimmed[0] == '<'
        && contains_chars(t.as_slice(), close_tag.as_slice())) {
        let lc_s = lowercase(text);
        let lc = chars_of(lc_s.as_str());
        let body_open = chars_of("<body");
        if contains_chars(lc.as_slice(), html_open.as_slice()) || contains_chars(lc.as_slice(), body_open.as_slice()) {
            return Family::Html;
        }
        return Family::Xml;
    }
    if nonblank.len() >= 3 && log_hits as u128 * 10 >= nonblank.len() as u128 * 6 {
        return Family::Logs;
    }
    let up_head = take_exec(&t, 4096);
    let up_s = uppercase(string_from_chars(up_head.as_slice()).as_str());
    let up = chars_of(up_s.as_str());
    let create = chars_of("CREATE TABLE");
    let insert = chars_of("INSERT INTO");
    let semi: [char; 1] = [';'];
    proof {
        assert(semi@ =~= seq![';']);
    }
    if (contains_chars(up.as_slice(), create.as_slice()) || contains_chars(up.as_slice(), insert.as_slice()))
        && contains_chars(t.as_slice(), &semi) {
        return Family::SqlDump;
    }
    if nonblank.len() >= 2 && sniff_csv_dialect(nonblank).is_some() {
        return Family::Csv;
    }
    let first_dashes = if nonblank.len() > 0 {
        let f = chars_of(nonblank[0]);
        proof {
            assert(nb[0] == nonblank@[0]@);
        }
        let tt = trim_chars(f.as_slice());
        let dashes = chars_of("---");
        crate::text::chars_eq(tt.as_slice(), dashes.as_slice())
    } else {
        false
    };
    if first_dashes {
        return Family::Yaml;
    }
    if nonblank.len() >= 3 {
        let hits = yaml_hits_exec(nonblank);
        if hits as u128 * 10 >= nonblank.len() as u128 * 6 {
            return Family::Yaml;
        }
    }
    txt_kind(nonblank)
}

// ---- lines ----

pub proof fn lemma_line_end(t: Seq<char>, k: int)
    requires
        0 <= k <= t.len(),
    ensures
        k <= line_end(t, k) <= t.len(),
        line_end(t, k) < t.len() ==> t[line_end(t, k)] == '\n',
        forall|j: int| k <= j < line_end(t, k) ==> t[j] != '\n',
    decreases t.len() - k,
{
    if k < t.len() && t[k] != '\n' {
        lemma_line_end(t, k + 1);
    }
}

/// `str::lines`: split at line feeds, a carriage return right before a
/// feed dropped, and no empty line after a final feed.
pub open spec fn text_lines(t: Seq<char>) -> Seq<Seq<char>>
    decreases t.len(),
{
    if t.len() == 0 {
        Seq::empty()
    } else {
        proof {
            lemma_line_end(t, 0);
        }
        let e = line_end(t, 0);
        let l = t.subrange(0, e);
        let l2 = if e < t.len() && e > 0 && l.last() == '\r' {
            l.drop_last()
        } else {
            l
        };
        if e < t.len() {
            seq![l2] + text_lines(t.subrange(e + 1, t.len() as int))
        } else {
            seq![l2]
        }
    }
}

/// The complete lines: the last one is dropped when the text does not end
/// with a line feed (it may have been cut), unless it is the only one.
pub open spec fn complete_lines(t: Seq<char>) -> Seq<Seq<char>> {
    let ls = text_lines(t);
    if !(t.len() > 0 && t.last() == '\n') && ls.len() > 1 {
        ls.drop_last()
    } else {
        ls
    }
}

pub open spec fn nonblank_of(ls: Seq<Seq<char>>) -> Seq<Seq<char>>
    decreases ls.len(),
{
    if ls.len() == 0 {
        Seq::empty()
    } else {
        let r = nonblank_of(ls.drop_last());
        if trim(ls.last()).len() > 0 {
            r.push(ls.last())
        } else {
            r
        }
    }
}

pub open spec fn strings_view(v: Seq<String>) -> Seq<Seq<char>> {
    v.map_values(|s: String| s@)
}

pub(crate) fn lines_exec(t: &Vec<char>) -> (r: Vec<Vec<char>>)
    ensures
        fields_view(r@) == text_lines(t@),
{
    let mut out: Vec<Vec<char>> = Vec::new();
    let mut k: usize = 0;
    let n = t.len();
    proof {
        assert(t@.subrange(0, n as int) =~= t@);
    }
    while k < n
        invariant
            k <= n,
            n == t@.len(),
            text_lines(t@) == fields_view(out@) + text_lines(t@.subrange(k as int, n as int)),
        decreases n - k,
    {
        let ghost rest = t@.subrange(k as int, n as int);
        let e = crate::sniff::line_end_exec(t.as_slice(), k);
        proof {
            lemma_line_end(t@, k as int);
            lemma_line_end(rest, 0);
            assert forall|j: int| 0 <= j <= rest.len() implies #[trigger] line_end(rest, j) == line_end(t@, k + j) - k by {
                lemma_line_end_shift(t@, k as int, j);
            }
        }
        let mut l = sub_chars(t.as_slice(), k, e);
        if e < n && e > k && l[l.len() - 1] == '\r' {
            l.pop();
        }
        let ghost before = fields_view(out@);
        let ghost lv = l@;
        out.push(l);
        proof {
            assert(fields_view(out@) =~= before.push(lv));
            assert(rest.subrange(0, e - k) =~= t@.subrange(k as int, e as int));
            if e < n {
                assert(rest.subrange(e - k + 1, rest.len() as int) =~= t@.subrange(e + 1, n as int));
                assert(seq![lv] + text_lines(t@.subrange(e + 1, n as int)) == text_lines(rest));
                assert(fields_view(out@) + text_lines(t@.subrange(e + 1, n as int)) =~= before + text_lines(rest));
            } else {
                assert(text_lines(rest) == seq![lv]);
                assert(t@.subrange(n as int, n as int) =~= Seq::<char>::empty());
                assert(fields_view(out@) + text_lines(t@.subrange(n as int, n as int)) =~= before + text_lines(rest));
            }
        }
        if e < n {
            k = e + 1;
        } else {
            k = n;
        }
    }
    proof {
        assert(t@.subrange(n as int, n as int) =~= Seq::<char>::empty());
        assert(fields_view(out@) + Seq::<Seq<char>>::empty() =~= fields_view(out@));
    }
    out
}

proof fn lemma_line_end_shift(t: Seq<char>, k: int, j: int)
    requires
        0 <= k <= t.len(),
        0 <= j <= t.len() - k,
    ensures
        line_end(t.subrange(k, t.len() as int), j) == line_end(t, k + j) - k,
    decreases t.len() - k - j,
{
    let rest = t.subrange(k, t.len() as int);
    if j < rest.len() && rest[j] != '\n' {
        lemma_line_end_shift(t, k, j + 1);
    }
}

/// The complete non-blank lines of a decoded text, for the text heuristics.
pub fn nonblank_lines(text: &str) -> (r: Vec<String>)
    ensures
        strings_view(r@) == nonblank_of(complete_lines(text@)),
{
    let t = chars_of(text);
    let mut ls = lines_exec(&t);
    let ends_nl = t.len() > 0 && t[t.len() - 1] == '\n';
    if !ends_nl && ls.len() > 1 {
        ls.pop();
        proof {
            assert(fields_view(ls@) =~= text_lines(t@).drop_last());
        }
    }
    let ghost cl = fields_view(ls@);
    let mut out: Vec<String> = Vec::new();
    let mut i: usize = 0;
    while i < ls.len()
        invariant
            i <= ls@.len(),
            cl == fields_view(ls@),
            strings_view(out@) == nonblank_of(cl.subrange(0, i as int)),
        decreases ls@.len() - i,
    {
        proof {
            assert(cl.subrange(0, i + 1).drop_last() =~= cl.subrange(0, i as int));
            assert(cl[i as int] == ls@[i as int]@);
        }
        let tt = trim_chars(ls[i].as_slice());
        if tt.len() > 0 {
            let ghost before = strings_view(out@);
            let s = string_from_chars(ls[i].as_slice());
            out.push(s);
            proof {
                assert(strings_view(out@) =~= before.push(cl[i as int]));
            }
        }
        i += 1;
    }
    proof {
        assert(cl.subrange(0, ls@.len() as int) =~= cl);
    }
    out
}

/// The text side of the content sniff, from the decoded text, its label,
/// its complete non-blank lines and how many of them the log-line probe
/// accepts: the family, and for CSV the dialect (a text that looked like
/// CSV but has no dialect is prose or line records after all).
pub open spec fn text_outcome(text: Seq<char>, nonblank: Seq<&str>, log_hits: nat) -> (Family, Option<(char, bool, bool)>) {
    let f = classify(text, nonblank, log_hits);
    if f == Family::Csv {
        match csv_dialect(strs_view(nonblank)) {
            Some(d) => (Family::Csv, Some(d)),
            None => (spec_txt_kind(line_bytes(nonblank)), None),
        }
    } else {
        (f, None)
    }
}

pub fn sniff_text(text: &str, encoding: &'static str, nonblank: &[&str], log_hits: usize) -> (r: Sniffed)
    ensures
        r.family == text_outcome(text@, nonblank@, log_hits as nat).0,
        match text_outcome(text@, nonblank@, log_hits as nat).1 {
            Some(d) => r.csv matches Some(c) && c.delim as char == d.0 && c.has_header == d.1 && c.decimal_comma == d.2,
            None => r.csv is None,
        },
        r.encoding == encoding,
        !r.gzip,
        r.binary_kind is None,
        r.logical_name is None,
{
    let family = classify_text(text, nonblank, log_hits);
    let mut out = Sniffed { family, gzip: false, binary_kind: None, csv: None, encoding, logical_name: None };
    let is_csv = match family {
        Family::Csv => true,
        _ => false,
    };
    if is_csv {
        out.csv = sniff_csv_dialect(nonblank);
        if out.csv.is_none() {
            out.family = txt_kind(nonblank);
        }
    }
    out
}

} // verus!
