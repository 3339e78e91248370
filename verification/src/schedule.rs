//! Which files the indexing phase takes on: a file is skipped when it has
//! no key, or when its key is done and its content did not change; a file
//! whose key the plan assigns is indexed; any other file (unless the plan
//! already recorded it as junk) appeared after the plan was frozen and is
//! reported. The files to index are taken smallest first (the workers pop
//! from the end, so the biggest start first), equal sizes in walk order.
//! Before publishing, the run records durable intents: which changed keys
//! get a replace-start, which keys to publish get an intent, and which keys
//! may hold live records and are deleted first.

use crate::text::{chars_less, chars_lt, chars_of, str_eq};
use vstd::prelude::*;

verus! {

pub open spec fn strs(v: Seq<String>) -> Seq<Seq<char>> {
    v.map_values(|s: String| s@)
}

/// What becomes of the file with this key.
pub enum Fate {
    Skip,
    Index,
    Unplanned,
}

pub open spec fn fate(
    key: Seq<char>,
    done: Seq<Seq<char>>,
    changed: Seq<Seq<char>>,
    planned: Seq<Seq<char>>,
    planned_junk: Seq<Seq<char>>,
) -> Fate {
    if key.len() == 0 || (done.contains(key) && !changed.contains(key)) {
        Fate::Skip
    } else if planned.contains(key) {
        Fate::Index
    } else if !planned_junk.contains(key) {
        Fate::Unplanned
    } else {
        Fate::Skip
    }
}

/// Files are taken in this order: by size, then by position.
pub open spec fn taken_before(sizes: Seq<u64>, a: int, b: int) -> bool {
    sizes[a] < sizes[b] || (sizes[a] == sizes[b] && a < b)
}

fn holds(v: &[String], s: &str) -> (r: bool)
    ensures
        r == strs(v@).contains(s@),
{
    let mut i: usize = 0;
    while i < v.len()
        invariant
            i <= v@.len(),
            forall|j: int| 0 <= j < i ==> strs(v@)[j] != s@,
        decreases v@.len() - i,
    {
        if str_eq(v[i].as_str(), s) {
            proof {
                assert(strs(v@)[i as int] == s@);
            }
            return true;
        }
        i += 1;
    }
    false
}

/// The positions of the files to index, in the order they are taken, and
/// the positions of the files that appeared after the plan, in walk order.
pub fn phase_b_files(
    keys: &[String],
    sizes: &[u64],
    done: &[String],
    changed: &[String],
    planned: &[String],
    planned_junk: &[String],
) -> (r: (Vec<usize>, Vec<usize>))
    requires
        keys@.len() == sizes@.len(),
    ensures
        forall|i: int|
            0 <= i < keys@.len() ==> (r.0@.contains(i as usize) <==> fate(
                (#[trigger] keys@[i])@,
                strs(done@),
                strs(changed@),
                strs(planned@),
                strs(planned_junk@),
            ) is Index),
        forall|i: int|
            0 <= i < keys@.len() ==> (r.1@.contains(i as usize) <==> fate(
                (#[trigger] keys@[i])@,
                strs(done@),
                strs(changed@),
                strs(planned@),
                strs(planned_junk@),
            ) is Unplanned),
        forall|k: int| 0 <= k < r.0@.len() ==> #[trigger] r.0@[k] < keys@.len(),
        forall|k: int| 0 <= k < r.1@.len() ==> #[trigger] r.1@[k] < keys@.len(),
        forall|k: int, l: int| 0 <= k < l < r.0@.len() ==> taken_before(sizes@, #[trigger] r.0@[k] as int, #[trigger] r.0@[l] as int),
        forall|k: int, l: int| 0 <= k < l < r.1@.len() ==> #[trigger] r.1@[k] < #[trigger] r.1@[l],
{
    let ghost d = strs(done@);
    let ghost c = strs(changed@);
    let ghost p = strs(planned@);
    let ghost j = strs(planned_junk@);
    let mut todo: Vec<usize> = Vec::new();
    let mut unplanned: Vec<usize> = Vec::new();
    let mut i: usize = 0;
    while i < keys.len()
        invariant
            i <= keys@.len() == sizes@.len(),
            d == strs(done@),
            c == strs(changed@),
            p == strs(planned@),
            j == strs(planned_junk@),
            forall|x: int| 0 <= x < i ==> (todo@.contains(x as usize) <==> fate((#[trigger] keys@[x])@, d, c, p, j) is Index),
            forall|x: int| 0 <= x < i ==> (unplanned@.contains(x as usize) <==> fate((#[trigger] keys@[x])@, d, c, p, j) is Unplanned),
            forall|k: int| 0 <= k < todo@.len() ==> #[trigger] todo@[k] < i,
            forall|k: int| 0 <= k < unplanned@.len() ==> #[trigger] unplanned@[k] < i,
            forall|k: int, l: int| 0 <= k < l < todo@.len() ==> taken_before(sizes@, #[trigger] todo@[k] as int, #[trigger] todo@[l] as int),
            forall|k: int, l: int| 0 <= k < l < unplanned@.len() ==> #[trigger] unplanned@[k] < #[trigger] unplanned@[l],
        decreases keys@.len() - i,
    {
        let key = keys[i].as_str();
        let skip = crate::text::chars_of(key).len() == 0 || (holds(done, key) && !holds(changed, key));
        let ghost f = fate(keys@[i as int]@, d, c, p, j);
        if !skip && holds(planned, key) {
            // Insert after every file taken before this one.
            let mut pos: usize = 0;
            while pos < todo.len() && sizes[todo[pos]] <= sizes[i]
                invariant
                    pos <= todo@.len(),
                    i < sizes@.len(),
                    forall|k: int| 0 <= k < todo@.len() ==> #[trigger] todo@[k] < i,
                    forall|k: int| 0 <= k < pos ==> sizes@[#[trigger] todo@[k] as int] <= sizes@[i as int],
                decreases todo@.len() - pos,
            {
                pos += 1;
            }
            let ghost before = todo@;
            todo.insert(pos, i);
            proof {
                before.insert_ensures(pos as int, i);
                assert forall|x: int| 0 <= x <= i implies (todo@.contains(x as usize) <==> fate((#[trigger] keys@[x])@, d, c, p, j) is Index) by {
                    if x < i {
                        if before.contains(x as usize) {
                            let k = choose|k: int| 0 <= k < before.len() && before[k] == x as usize;
                            if k < pos {
                                assert(todo@[k] == x as usize);
                            } else {
                                assert(todo@[k + 1] == x as usize);
                            }
                        }
                        if todo@.contains(x as usize) {
                            let k = choose|k: int| 0 <= k < todo@.len() && todo@[k] == x as usize;
                            if k < pos {
                                assert(before[k] == x as usize);
                            } else if k > pos {
                                assert(before[k - 1] == x as usize);
                            }
                        }
                    } else {
                        assert(todo@[pos as int] == i);
                    }
                }
                assert forall|k: int, l: int| 0 <= k < l < todo@.len() implies taken_before(sizes@, #[trigger] todo@[k] as int, #[trigger] todo@[l] as int) by {
                    if l < pos {
                        assert(todo@[k] == before[k] && todo@[l] == before[l]);
                    } else if l == pos {
                        assert(todo@[k] == before[k]);
                    } else if k == pos {
                        assert(todo@[l] == before[l - 1]);
                        assert(before[l - 1] < i);
                        if pos < before.len() {
                            assert(sizes@[before[pos as int] as int] > sizes@[i as int]);
                            if l - 1 > pos {
                                assert(taken_before(sizes@, before[pos as int] as int, before[l - 1] as int));
                            }
                        }
                    } else if k < pos {
                        assert(todo@[k] == before[k] && todo@[l] == before[l - 1]);
                    } else {
                        assert(todo@[k] == before[k - 1] && todo@[l] == before[l - 1]);
                    }
                }
            }
        } else if !skip && !holds(planned_junk, key) {
            let ghost before = unplanned@;
            unplanned.push(i);
            proof {
                assert forall|x: int| 0 <= x <= i implies (unplanned@.contains(x as usize) <==> fate((#[trigger] keys@[x])@, d, c, p, j) is Unplanned) by {
                    if x < i {
                        if before.contains(x as usize) {
                            let k = choose|k: int| 0 <= k < before.len() && before[k] == x as usize;
                            assert(unplanned@[k] == x as usize);
                        }
                    } else {
                        assert(unplanned@[before.len() as int] == i);
                    }
                }
            }
        }
        i += 1;
    }
    (todo, unplanned)
}

// ---- replacement intents ----

/// Keys ascending, each once.
pub open spec fn ascending(ks: Seq<Seq<char>>) -> bool {
    forall|i: int, j: int| 0 <= i < j < ks.len() ==> chars_lt(#[trigger] ks[i], #[trigger] ks[j])
}

/// The value a (key, value) list gives a key: its first entry's.
pub open spec fn value_of(m: Seq<(Seq<char>, Seq<char>)>, k: Seq<char>) -> Option<Seq<char>>
    decreases m.len(),
{
    if m.len() == 0 {
        None
    } else if m[0].0 == k {
        Some(m[0].1)
    } else {
        value_of(m.drop_first(), k)
    }
}

pub open spec fn pairs_view(v: Seq<(String, String)>) -> Seq<(Seq<char>, Seq<char>)> {
    v.map_values(|p: (String, String)| (p.0@, p.1@))
}

/// A key whose content changed needs a durable replace-start before it is
/// published again when its records are live (it was done) or when a
/// replacement of another generation than the one wanted is pending.
pub open spec fn needs_replace_start(
    k: Seq<char>,
    done: Seq<Seq<char>>,
    pending: Seq<(Seq<char>, Seq<char>)>,
    generations: Seq<(Seq<char>, Seq<char>)>,
) -> bool {
    done.contains(k) || (value_of(pending, k) matches Some(p) && Some(p) != value_of(generations, k))
}

/// A key about to be published needs an intent unless one of the same
/// generation is already pending.
pub open spec fn needs_intent(k: Seq<char>, pending: Seq<(Seq<char>, Seq<char>)>, generations: Seq<(Seq<char>, Seq<char>)>) -> bool {
    value_of(pending, k) != Some(generation_or_unknown(generations, k))
}

/// The generation an intent records: the key's, else `unknown`.
pub open spec fn generation_or_unknown(generations: Seq<(Seq<char>, Seq<char>)>, k: Seq<char>) -> Seq<char> {
    match value_of(generations, k) {
        Some(g) => g,
        None => "unknown"@,
    }
}

/// Insert `k` into ascending keys, keeping them ascending and each once.
fn insert_sorted(v: &mut Vec<String>, k: &String)
    requires
        ascending(strs(old(v)@)),
    ensures
        ascending(strs(final(v)@)),
        forall|x: Seq<char>| strs(final(v)@).contains(x) <==> (strs(old(v)@).contains(x) || x == k@),
{
    let ghost ks = strs(v@);
    let kc = chars_of(k.as_str());
    let mut i: usize = 0;
    while i < v.len() && chars_less(chars_of(v[i].as_str()).as_slice(), kc.as_slice())
        invariant
            i <= v@.len(),
            ks == strs(v@),
            kc@ == k@,
            forall|j: int| 0 <= j < i ==> chars_lt(#[trigger] ks[j], k@),
        decreases v@.len() - i,
    {
        i += 1;
    }
    if i < v.len() && str_eq(v[i].as_str(), k.as_str()) {
        proof {
            assert(ks[i as int] == k@);
        }
        return;
    }
    proof {
        if i < ks.len() {
            crate::text::lemma_chars_lt_total(ks[i as int], k@);
        }
    }
    v.insert(i, k.clone());
    proof {
        let ns = strs(v@);
        assert(ns =~= ks.subrange(0, i as int).push(k@) + ks.subrange(i as int, ks.len() as int));
        assert forall|a: int, b: int| 0 <= a < b < ns.len() implies chars_lt(#[trigger] ns[a], #[trigger] ns[b]) by {
            if b < i {
            } else if b == i {
            } else if a == i {
                if b > i + 1 {
                    crate::text::lemma_chars_lt_trans(k@, ks[i as int], ks[b - 1]);
                }
            } else if a < i {
                if b > i + 1 {
                    crate::text::lemma_chars_lt_trans(k@, ks[i as int], ks[b - 1]);
                }
                assert(chars_lt(k@, ns[b]));
                crate::text::lemma_chars_lt_trans(ks[a], k@, ns[b]);
            }
        }
        assert forall|x: Seq<char>| ns.contains(x) <==> (ks.contains(x) || x == k@) by {
            if ns.contains(x) {
                let m = choose|m: int| 0 <= m < ns.len() && ns[m] == x;
                if m < i {
                    assert(ks[m] == x);
                } else if m > i {
                    assert(ks[m - 1] == x);
                }
            }
            if ks.contains(x) {
                let m = choose|m: int| 0 <= m < ks.len() && ks[m] == x;
                if m < i {
                    assert(ns[m] == x);
                } else {
                    assert(ns[m + 1] == x);
                }
            }
            if x == k@ {
                assert(ns[i as int] == x);
            }
        }
    }
}

/// The value a (key, value) list gives a key.
fn find_value(m: &Vec<(String, String)>, k: &str) -> (r: Option<String>)
    ensures
        match value_of(pairs_view(m@), k@) {
            Some(x) => r matches Some(s) && s@ == x,
            None => r is None,
        },
{
    let ghost pv = pairs_view(m@);
    let mut i: usize = 0;
    assert(pv.subrange(0, pv.len() as int) =~= pv);
    while i < m.len()
        invariant
            i <= m@.len(),
            pv == pairs_view(m@),
            value_of(pv, k@) == value_of(pv.subrange(i as int, pv.len() as int), k@),
        decreases m@.len() - i,
    {
        let ghost rest = pv.subrange(i as int, pv.len() as int);
        proof {
            assert(rest[0] == (m@[i as int].0@, m@[i as int].1@));
            assert(rest.drop_first() =~= pv.subrange(i + 1, pv.len() as int));
        }
        if str_eq(m[i].0.as_str(), k) {
            return Some(m[i].1.clone());
        }
        i += 1;
    }
    None
}

/// Which changed keys receive a durable replace-start before phase B, in
/// ascending order: those `needs_replace_start` names.
pub fn replacement_starts(
    changed: &Vec<String>,
    done: &Vec<String>,
    pending: &Vec<(String, String)>,
    generations: &Vec<(String, String)>,
) -> (r: Vec<String>)
    ensures
        ascending(strs(r@)),
        forall|k: Seq<char>| strs(r@).contains(k) <==> (strs(changed@).contains(k) && needs_replace_start(
            k,
            strs(done@),
            pairs_view(pending@),
            pairs_view(generations@),
        )),
{
    let mut out: Vec<String> = Vec::new();
    let mut i: usize = 0;
    while i < changed.len()
        invariant
            i <= changed@.len(),
            ascending(strs(out@)),
            forall|k: Seq<char>| strs(out@).contains(k) <==> (strs(changed@).subrange(0, i as int).contains(k)
                && needs_replace_start(k, strs(done@), pairs_view(pending@), pairs_view(generations@))),
        decreases changed@.len() - i,
    {
        let k = &changed[i];
        let mut was_done = false;
        let mut j: usize = 0;
        while j < done.len()
            invariant
                j <= done@.len(),
                was_done == strs(done@).subrange(0, j as int).contains(k@),
            decreases done@.len() - j,
        {
            if str_eq(done[j].as_str(), k.as_str()) {
                was_done = true;
            }
            proof {
                let a = strs(done@).subrange(0, j as int);
                let b = strs(done@).subrange(0, j + 1);
                assert(b =~= a.push(done@[j as int]@));
                if a.contains(k@) {
                    let m = choose|m: int| 0 <= m < a.len() && a[m] == k@;
                    assert(b[m] == k@);
                }
                if done@[j as int]@ == k@ {
                    assert(b[j as int] == k@);
                }
                if b.contains(k@) {
                    let m = choose|m: int| 0 <= m < b.len() && b[m] == k@;
                    if m < j {
                        assert(a[m] == k@);
                    }
                }
            }
            j += 1;
        }
        proof {
            assert(strs(done@).subrange(0, done@.len() as int) =~= strs(done@));
        }
        let p = find_value(pending, k.as_str());
        let g = find_value(generations, k.as_str());
        let stale = match (&p, &g) {
            (Some(p), Some(g)) => !str_eq(p.as_str(), g.as_str()),
            (Some(_), None) => true,
            (None, _) => false,
        };
        let ghost before = strs(out@);
        if was_done || stale {
            insert_sorted(&mut out, k);
        }
        proof {
            let a = strs(changed@).subrange(0, i as int);
            let b = strs(changed@).subrange(0, i + 1);
            assert(b =~= a.push(k@));
            assert forall|x: Seq<char>| strs(out@).contains(x) <==> (b.contains(x) && needs_replace_start(
                x,
                strs(done@),
                pairs_view(pending@),
                pairs_view(generations@),
            )) by {
                if a.contains(x) {
                    let m = choose|m: int| 0 <= m < a.len() && a[m] == x;
                    assert(b[m] == x);
                }
                if b.contains(x) && x != k@ {
                    let m = choose|m: int| 0 <= m < b.len() && b[m] == x;
                    assert(a[m] == x);
                }
                if x == k@ {
                    assert(b[i as int] == x);
                }
            }
        }
        i += 1;
    }
    proof {
        assert(strs(changed@).subrange(0, changed@.len() as int) =~= strs(changed@));
    }
    out
}

/// The generation an intent records for `k`.
pub fn generation_for(generations: &Vec<(String, String)>, k: &str) -> (r: String)
    ensures
        r@ == generation_or_unknown(pairs_view(generations@), k@),
{
    match find_value(generations, k) {
        Some(g) => g,
        None => {
            proof {
                reveal_strlit("unknown");
            }
            crate::text::string_from_chars(chars_of("unknown").as_slice())
        },
    }
}

/// Which keys about to be published receive an intent before their first
/// bulk, in ascending order, each once: those `needs_intent` names.
pub fn publication_intents(
    to_publish: &Vec<String>,
    pending: &Vec<(String, String)>,
    generations: &Vec<(String, String)>,
) -> (r: Vec<String>)
    ensures
        ascending(strs(r@)),
        forall|k: Seq<char>| strs(r@).contains(k) <==> (strs(to_publish@).contains(k) && needs_intent(
            k,
            pairs_view(pending@),
            pairs_view(generations@),
        )),
{
    let mut out: Vec<String> = Vec::new();
    let mut i: usize = 0;
    while i < to_publish.len()
        invariant
            i <= to_publish@.len(),
            ascending(strs(out@)),
            forall|k: Seq<char>| strs(out@).contains(k) <==> (strs(to_publish@).subrange(0, i as int).contains(k)
                && needs_intent(k, pairs_view(pending@), pairs_view(generations@))),
        decreases to_publish@.len() - i,
    {
        let k = &to_publish[i];
        let p = find_value(pending, k.as_str());
        let g = generation_for(generations, k.as_str());
        let needed = match &p {
            Some(p) => !str_eq(p.as_str(), g.as_str()),
            None => true,
        };
        if needed {
            insert_sorted(&mut out, k);
        }
        proof {
            let a = strs(to_publish@).subrange(0, i as int);
            let b = strs(to_publish@).subrange(0, i + 1);
            assert(b =~= a.push(k@));
            assert forall|x: Seq<char>| strs(out@).contains(x) <==> (b.contains(x) && needs_intent(
                x,
                pairs_view(pending@),
                pairs_view(generations@),
            )) by {
                if a.contains(x) {
                    let m = choose|m: int| 0 <= m < a.len() && a[m] == x;
                    assert(b[m] == x);
                }
                if b.contains(x) && x != k@ {
                    let m = choose|m: int| 0 <= m < b.len() && b[m] == x;
                    assert(a[m] == x);
                }
                if x == k@ {
                    assert(b[i as int] == x);
                }
            }
        }
        i += 1;
    }
    proof {
        assert(strs(to_publish@).subrange(0, to_publish@.len() as int) =~= strs(to_publish@));
    }
    out
}

/// Add every key of `ks` to the ascending keys `out`.
fn insert_all(out: &mut Vec<String>, ks: &Vec<String>)
    requires
        ascending(strs(old(out)@)),
    ensures
        ascending(strs(final(out)@)),
        forall|x: Seq<char>|
            #![trigger strs(final(out)@).contains(x)]
            #![trigger strs(old(out)@).contains(x)]
            #![trigger strs(ks@).contains(x)]
            strs(final(out)@).contains(x) <==> (strs(old(out)@).contains(x) || strs(ks@).contains(x)),
{
    let ghost start = strs(out@);
    let mut i: usize = 0;
    while i < ks.len()
        invariant
            i <= ks@.len(),
            start == strs(old(out)@),
            ascending(strs(out@)),
            forall|x: Seq<char>| strs(out@).contains(x) <==> (start.contains(x) || strs(ks@).subrange(0, i as int).contains(x)),
        decreases ks@.len() - i,
    {
        let ghost before = strs(out@);
        insert_sorted(out, &ks[i]);
        proof {
            let a = strs(ks@).subrange(0, i as int);
            let b = strs(ks@).subrange(0, i + 1);
            assert(b =~= a.push(ks@[i as int]@));
            assert forall|x: Seq<char>| strs(out@).contains(x) <==> (start.contains(x) || b.contains(x)) by {
                assert(before.contains(x) <==> (start.contains(x) || a.contains(x)));
                if a.contains(x) {
                    let m = choose|m: int| 0 <= m < a.len() && a[m] == x;
                    assert(b[m] == x);
                }
                if b.contains(x) && x != ks@[i as int]@ {
                    let m = choose|m: int| 0 <= m < b.len() && b[m] == x;
                    assert(a[m] == x);
                }
                if x == ks@[i as int]@ {
                    assert(b[i as int] == x);
                }
            }
        }
        i += 1;
    }
    proof {
        assert(strs(ks@).subrange(0, ks@.len() as int) =~= strs(ks@));
        assert forall|x: Seq<char>| strs(out@).contains(x) <==> (strs(old(out)@).contains(x) || strs(ks@).contains(x)) by {
            assert(strs(ks@).subrange(0, ks@.len() as int) == strs(ks@));
            assert(start == strs(old(out)@));
            assert(strs(out@).contains(x) <==> (start.contains(x) || strs(ks@).subrange(0, ks@.len() as int).contains(x)));
        }
    }
}

/// Which keys may have live records and are deleted before they are
/// published, in ascending order, each once: the done keys, the keys with a
/// pending replacement, and, when the run resumed a plan, every key it will
/// publish.
pub fn cleanup_keys(
    done: &Vec<String>,
    pending: &Vec<(String, String)>,
    resumed_with_plan: bool,
    to_publish: &Vec<String>,
) -> (r: Vec<String>)
    ensures
        ascending(strs(r@)),
        forall|k: Seq<char>| strs(r@).contains(k) <==> (strs(done@).contains(k) || value_of(pairs_view(pending@), k)
            is Some || (resumed_with_plan && strs(to_publish@).contains(k))),
{
    let mut out: Vec<String> = Vec::new();
    proof {
        assert(strs(out@) =~= Seq::<Seq<char>>::empty());
    }
    insert_all(&mut out, done);
    let ghost o1 = strs(out@);
    let mut keys: Vec<String> = Vec::new();
    let mut i: usize = 0;
    while i < pending.len()
        invariant
            i <= pending@.len(),
            strs(keys@) == keys_of(pairs_view(pending@).subrange(0, i as int)),
        decreases pending@.len() - i,
    {
        let ghost kb = strs(keys@);
        keys.push(pending[i].0.clone());
        proof {
            let pv = pairs_view(pending@);
            assert(pv[i as int] == (pending@[i as int].0@, pending@[i as int].1@));
            assert(strs(keys@) =~= kb.push(pending@[i as int].0@));
            assert(keys_of(pv.subrange(0, i + 1)) =~= keys_of(pv.subrange(0, i as int)).push(pv[i as int].0));
        }
        i += 1;
    }
    proof {
        let pv = pairs_view(pending@);
        assert(pv.subrange(0, pv.len() as int) =~= pv);
        lemma_value_of_keys(pv);
        assert(strs(keys@) == keys_of(pv));
    }
    insert_all(&mut out, &keys);
    let ghost o2 = strs(out@);
    if resumed_with_plan {
        insert_all(&mut out, to_publish);
        proof {
            assert forall|k: Seq<char>| strs(out@).contains(k) <==> (o2.contains(k) || strs(to_publish@).contains(k)) by {}
        }
    }
    proof {
        assert forall|k: Seq<char>| strs(out@).contains(k) <==> (strs(done@).contains(k) || value_of(pairs_view(pending@), k)
            is Some || (resumed_with_plan && strs(to_publish@).contains(k))) by {
            assert(o1.contains(k) <==> strs(done@).contains(k));
            assert(o2.contains(k) <==> (o1.contains(k) || strs(keys@).contains(k)));
            assert(strs(keys@).contains(k) <==> value_of(pairs_view(pending@), k) is Some);
            if !resumed_with_plan {
                assert(strs(out@) == o2);
            }
        }
    }
    out
}

/// The keys of a (key, value) list.
pub open spec fn keys_of(m: Seq<(Seq<char>, Seq<char>)>) -> Seq<Seq<char>> {
    m.map_values(|p: (Seq<char>, Seq<char>)| p.0)
}

/// A list gives a key a value exactly when one of its entries has that key.
proof fn lemma_value_of_keys(m: Seq<(Seq<char>, Seq<char>)>)
    ensures
        forall|k: Seq<char>| (value_of(m, k) is Some) <==> keys_of(m).contains(k),
    decreases m.len(),
{
    let ks = keys_of(m);
    if m.len() > 0 {
        lemma_value_of_keys(m.drop_first());
        let kt = keys_of(m.drop_first());
        assert(ks =~= seq![m[0].0] + kt);
        assert forall|k: Seq<char>| (value_of(m, k) is Some) <==> ks.contains(k) by {
            if ks.contains(k) && k != m[0].0 {
                let x = choose|x: int| 0 <= x < ks.len() && ks[x] == k;
                assert(kt[x - 1] == k);
            }
            if kt.contains(k) {
                let x = choose|x: int| 0 <= x < kt.len() && kt[x] == k;
                assert(ks[x + 1] == k);
            }
            if k == m[0].0 {
                assert(ks[0] == k);
            } else {
                assert(value_of(m, k) == value_of(m.drop_first(), k));
            }
        }
    } else {
        assert forall|k: Seq<char>| (value_of(m, k) is Some) <==> ks.contains(k) by {}
    }
}

// ---- the indexing run's small rules ----

/// Documents one bulk request carries at most.
pub const MAX_BATCH_DOCS: usize = 5000;

/// A staged batch is sent once it reaches the byte cut or the document cap.
pub fn flush_batch(buf_len: usize, docs: usize, bulk_cut: usize) -> (r: bool)
    ensures
        r == (buf_len >= bulk_cut || docs >= MAX_BATCH_DOCS),
{
    buf_len >= bulk_cut || docs >= MAX_BATCH_DOCS
}

/// The exit status of a run that left junk behind, distinct from success.
pub const EXIT_JUNK: i32 = 3;

/// A run exits with `EXIT_JUNK` when any record or file was junk, else 0.
pub fn run_exit_code(junk_records: u64, junk_files: usize) -> (r: i32)
    ensures
        r == if junk_records > 0 || junk_files > 0 {
            EXIT_JUNK
        } else {
            0
        },
{
    if junk_records > 0 || junk_files > 0 {
        EXIT_JUNK
    } else {
        0
    }
}

/// The bytes a file adds to its first dataset: its size shared among the
/// datasets it is assigned to (at least one).
pub fn dataset_bytes(size: u64, assignments: usize) -> (r: u64)
    ensures
        r == size / (if assignments == 0 {
            1
        } else {
            assignments as u64
        }),
{
    let n: u64 = if assignments == 0 {
        1
    } else {
        assignments as u64
    };
    size / n
}

/// A completed file is reported every 200 files, and whenever it is over
/// 5 MiB.
pub fn reports_progress(done: u64, size: u64) -> (r: bool)
    ensures
        r == (done % 200 == 0 || size > 5 * 1048576),
{
    done % 200 == 0 || size > 5 * 1048576
}

} // verus!
