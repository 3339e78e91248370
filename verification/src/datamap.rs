//! The data map's selections from the catalog: runs newest first, and only
//! the latest run's correlations of each kind (catalog documents upsert by
//! id, so older runs' correlations linger).

use crate::text::{push_str_chars, string_from_chars, chars_less, chars_lt, chars_of, lemma_chars_lt_irreflexive, lemma_chars_lt_total, lemma_chars_lt_trans, str_eq};
use vstd::prelude::*;

verus! {

pub open spec fn opt_str(o: Option<String>) -> Option<Seq<char>> {
    match o {
        Some(s) => Some(s@),
        None => None,
    }
}

// ---- runs, newest first ----

/// The start stamp a run is ordered by (empty when it has none).
pub open spec fn stamp(started: Seq<Option<String>>, i: int) -> Seq<char> {
    match started[i] {
        Some(s) => s@,
        None => Seq::empty(),
    }
}

/// Run `i` is listed before run `j`: a later stamp first, equal stamps in
/// catalog order.
pub open spec fn run_before(started: Seq<Option<String>>, i: int, j: int) -> bool {
    chars_lt(stamp(started, j), stamp(started, i)) || (stamp(started, i) == stamp(started, j) && i < j)
}

proof fn lemma_run_before_trans(started: Seq<Option<String>>, a: int, b: int, c: int)
    requires
        run_before(started, a, b),
        run_before(started, b, c),
    ensures
        run_before(started, a, c),
{
    let (sa, sb, sc) = (stamp(started, a), stamp(started, b), stamp(started, c));
    if chars_lt(sb, sa) && chars_lt(sc, sb) {
        lemma_chars_lt_trans(sc, sb, sa);
    }
}

fn stamp_chars(started: &[Option<String>], i: usize) -> (r: Vec<char>)
    requires
        i < started@.len(),
    ensures
        r@ == stamp(started@, i as int),
{
    match &started[i] {
        Some(s) => chars_of(s.as_str()),
        None => Vec::new(),
    }
}

/// The positions of the runs, newest first (by start stamp, descending;
/// equal stamps keep their order).
pub fn runs_newest_first(started: &[Option<String>]) -> (r: Vec<usize>)
    ensures
        r@.len() == started@.len(),
        forall|i: int| 0 <= i < started@.len() ==> #[trigger] r@.contains(i as usize),
        forall|k: int| 0 <= k < r@.len() ==> #[trigger] r@[k] < started@.len(),
        forall|k: int, l: int| 0 <= k < l < r@.len() ==> run_before(started@, #[trigger] r@[k] as int, #[trigger] r@[l] as int),
{
    let mut out: Vec<usize> = Vec::new();
    let mut i: usize = 0;
    while i < started.len()
        invariant
            i <= started@.len(),
            out@.len() == i,
            forall|x: int| 0 <= x < i ==> #[trigger] out@.contains(x as usize),
            forall|k: int| 0 <= k < out@.len() ==> #[trigger] out@[k] < i,
            forall|k: int, l: int| 0 <= k < l < out@.len() ==> run_before(started@, #[trigger] out@[k] as int, #[trigger] out@[l] as int),
        decreases started@.len() - i,
    {
        let si = stamp_chars(started, i);
        let mut pos: usize = 0;
        let mut found = false;
        while pos < out.len() && !found
            invariant
                pos <= out@.len(),
                i < started@.len(),
                si@ == stamp(started@, i as int),
                forall|k: int| 0 <= k < out@.len() ==> #[trigger] out@[k] < i,
                found ==> pos < out@.len() && chars_lt(stamp(started@, out@[pos as int] as int), si@),
                forall|k: int| 0 <= k < pos ==> !chars_lt(stamp(started@, #[trigger] out@[k] as int), si@),
            decreases out@.len() - pos + if found { 0int } else { 1int },
        {
            let so = stamp_chars(started, out[pos]);
            if chars_less(so.as_slice(), si.as_slice()) {
                found = true;
            } else {
                pos += 1;
            }
        }
        let ghost before = out@;
        out.insert(pos, i);
        proof {
            before.insert_ensures(pos as int, i);
            let s = started@;
            assert forall|x: int| 0 <= x <= i implies #[trigger] out@.contains(x as usize) by {
                if x < i {
                    assert(before.contains(x as usize));
                    let k = choose|k: int| 0 <= k < before.len() && before[k] == x as usize;
                    if k < pos {
                        assert(out@[k] == x as usize);
                    } else {
                        assert(out@[k + 1] == x as usize);
                    }
                } else {
                    assert(out@[pos as int] == i);
                }
            }
            assert forall|k: int, l: int| 0 <= k < l < out@.len() implies run_before(s, #[trigger] out@[k] as int, #[trigger] out@[l] as int) by {
                if l < pos {
                    assert(out@[k] == before[k] && out@[l] == before[l]);
                } else if l == pos {
                    assert(out@[k] == before[k]);
                    let sk = stamp(s, before[k] as int);
                    lemma_chars_lt_total(sk, si@);
                } else if k == pos {
                    assert(out@[l] == before[l - 1]);
                    let sp = stamp(s, before[pos as int] as int);
                    let sl = stamp(s, before[l - 1] as int);
                    if l - 1 > pos {
                        assert(run_before(s, before[pos as int] as int, before[l - 1] as int));
                        if chars_lt(sl, sp) {
                            lemma_chars_lt_trans(sl, sp, si@);
                        }
                    }
                } else if k < pos {
                    assert(out@[k] == before[k] && out@[l] == before[l - 1]);
                } else {
                    assert(out@[k] == before[k - 1] && out@[l] == before[l - 1]);
                }
            }
        }
        i += 1;
    }
    out
}

// ---- the latest correlations ----

/// The two kinds of correlation a run records.
pub open spec fn is_correlation_kind(k: Seq<char>) -> bool {
    k == "key_overlap"@ || k == "time_alignment"@
}

/// The greatest run id among the correlations of kind `k` (`None` when none
/// has one).
pub open spec fn latest_of(items: Seq<(Option<Seq<char>>, Option<Seq<char>>)>, k: Seq<char>) -> Option<Seq<char>>
    decreases items.len(),
{
    if items.len() == 0 {
        None
    } else {
        let rest = latest_of(items.drop_last(), k);
        let it = items.last();
        if it.0 == Some(k) && it.1 is Some {
            match rest {
                None => it.1,
                Some(r) => if chars_lt(r, it.1->0) {
                    it.1
                } else {
                    rest
                },
            }
        } else {
            rest
        }
    }
}

pub open spec fn items_view(v: Seq<(Option<String>, Option<String>)>) -> Seq<(Option<Seq<char>>, Option<Seq<char>>)> {
    v.map_values(|e: (Option<String>, Option<String>)| (opt_str(e.0), opt_str(e.1)))
}

/// A correlation (its kind and run id) is shown when its kind is not one a
/// run records, or when it comes from the latest run that recorded its kind.
pub open spec fn shown(items: Seq<(Option<Seq<char>>, Option<Seq<char>>)>, i: int) -> bool {
    match items[i].0 {
        Some(k) => !is_correlation_kind(k) || items[i].1 == latest_of(items, k),
        None => true,
    }
}

fn opt_eq(a: &Option<String>, b: &Option<Vec<char>>) -> (r: bool)
    ensures
        r == (opt_str(*a) == match *b {
            Some(v) => Some(v@),
            None => None::<Seq<char>>,
        }),
{
    match (a, b) {
        (Some(x), Some(y)) => {
            let xc = chars_of(x.as_str());
            crate::text::chars_eq(xc.as_slice(), y.as_slice())
        },
        (None, None) => true,
        _ => false,
    }
}

fn latest_exec(items: &[(Option<String>, Option<String>)], k: &str) -> (r: Option<Vec<char>>)
    ensures
        match r {
            Some(v) => latest_of(items_view(items@), k@) == Some(v@),
            None => latest_of(items_view(items@), k@) is None,
        },
{
    let ghost iv = items_view(items@);
    let mut best: Option<Vec<char>> = None;
    let mut i: usize = 0;
    while i < items.len()
        invariant
            i <= items@.len(),
            iv == items_view(items@),
            match best {
                Some(v) => latest_of(iv.take(i as int), k@) == Some(v@),
                None => latest_of(iv.take(i as int), k@) is None,
            },
        decreases items@.len() - i,
    {
        proof {
            assert(iv.take(i + 1).drop_last() =~= iv.take(i as int));
            assert(iv.take(i + 1).last() == iv[i as int]);
        }
        let kind_matches = match &items[i].0 {
            Some(kk) => str_eq(kk.as_str(), k),
            None => false,
        };
        if kind_matches {
            match &items[i].1 {
                Some(run) => {
                    let rc = chars_of(run.as_str());
                    let take = match &best {
                        None => true,
                        Some(b) => chars_less(b.as_slice(), rc.as_slice()),
                    };
                    if take {
                        best = Some(rc);
                    }
                },
                None => {},
            }
        }
        i += 1;
    }
    proof {
        assert(iv.take(items@.len() as int) =~= iv);
    }
    best
}

/// Which correlations to show: for each kind a run records, only those of
/// the latest run that recorded it.
pub fn latest_correlations(items: &[(Option<String>, Option<String>)]) -> (r: Vec<bool>)
    ensures
        r@.len() == items@.len(),
        forall|i: int| 0 <= i < items@.len() ==> #[trigger] r@[i] == shown(items_view(items@), i),
{
    let ghost iv = items_view(items@);
    let overlap = latest_exec(items, "key_overlap");
    let timing = latest_exec(items, "time_alignment");
    let mut out: Vec<bool> = Vec::new();
    let mut i: usize = 0;
    while i < items.len()
        invariant
            i <= items@.len(),
            iv == items_view(items@),
            out@.len() == i,
            match overlap {
                Some(v) => latest_of(iv, "key_overlap"@) == Some(v@),
                None => latest_of(iv, "key_overlap"@) is None,
            },
            match timing {
                Some(v) => latest_of(iv, "time_alignment"@) == Some(v@),
                None => latest_of(iv, "time_alignment"@) is None,
            },
            forall|x: int| 0 <= x < i ==> #[trigger] out@[x] == shown(iv, x),
        decreases items@.len() - i,
    {
        proof {
            assert(iv[i as int] == (opt_str(items@[i as int].0), opt_str(items@[i as int].1)));
        }
        let keep = match &items[i].0 {
            Some(kind) => {
                if str_eq(kind.as_str(), "key_overlap") {
                    opt_eq(&items[i].1, &overlap)
                } else if str_eq(kind.as_str(), "time_alignment") {
                    opt_eq(&items[i].1, &timing)
                } else {
                    true
                }
            },
            None => true,
        };
        out.push(keep);
        i += 1;
    }
    out
}

/// The exit status of a map request that finds no dataset in the catalog.
pub const EXIT_NO_CATALOG: i32 = 1;

/// A map request that finds no dataset in the catalog stops with
/// `EXIT_NO_CATALOG` and advice to index a folder first; one that finds any
/// goes on.
pub fn missing_catalog(datasets: usize, url: &str, index: &str) -> (r: Option<(i32, String)>)
    ensures
        (r is Some) == (datasets == 0),
        r matches Some(x) ==> x.0 == EXIT_NO_CATALOG && x.1@ == "no autoindex catalog found at "@ + url@ + " (index "@
            + index@ + ") — run `xerj autoindex <folder>` first"@,
{
    if datasets > 0 {
        return None;
    }
    let mut out: Vec<char> = Vec::new();
    push_str_chars(&mut out, "no autoindex catalog found at ");
    push_str_chars(&mut out, url);
    push_str_chars(&mut out, " (index ");
    push_str_chars(&mut out, index);
    push_str_chars(&mut out, ") — run `xerj autoindex <folder>` first");
    proof {
        assert(out@ =~= "no autoindex catalog found at "@ + url@ + " (index "@ + index@
            + ") — run `xerj autoindex <folder>` first"@);
    }
    Some((EXIT_NO_CATALOG, string_from_chars(out.as_slice())))
}

} // verus!
