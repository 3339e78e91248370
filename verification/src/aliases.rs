//! Which content keys a change in duplicate-file aliases invalidates.
//!
//! A content key is re-indexed when the set of paths that alias it changed
//! between two runs (or when a migration names it); every other key keeps
//! its indexed documents.

use crate::text::str_eq;
use vstd::prelude::*;

verus! {

/// A file whose content duplicates another indexed file.
#[derive(Debug, Clone, PartialEq, Eq)]
pub struct DuplicateFile {
    pub file_key: String,
    pub rel: String,
    pub path_id: String,
    pub duplicate_of: String,
    pub bytes: u64,
}

/// The paths that alias content key `k`.
pub open spec fn paths_of(aliases: Seq<DuplicateFile>, k: Seq<char>) -> Set<Seq<char>> {
    Set::new(|r: Seq<char>| exists|i: int| 0 <= i < aliases.len() && (#[trigger] aliases[i]).file_key@ == k && aliases[i].rel@ == r)
}

/// Key `k` must be re-indexed.
pub open spec fn invalidated(
    previous: Seq<DuplicateFile>,
    current: Seq<DuplicateFile>,
    migration: Option<Seq<String>>,
    k: Seq<char>,
) -> bool {
    (match migration {
        Some(m) => listed(m, k),
        None => false,
    }) || paths_of(previous, k) != paths_of(current, k)
}

/// Every path aliasing `k` in `a` aliases it in `b` too.
fn covered(a: &[DuplicateFile], b: &[DuplicateFile], k: &str) -> (r: bool)
    ensures
        r == paths_of(a@, k@).subset_of(paths_of(b@, k@)),
{
    let mut i: usize = 0;
    while i < a.len()
        invariant
            i <= a@.len(),
            forall|x: int|
                0 <= x < i && (#[trigger] a@[x]).file_key@ == k@ ==> paths_of(b@, k@).contains(a@[x].rel@),
        decreases a@.len() - i,
    {
        if str_eq(a[i].file_key.as_str(), k) {
            let mut j: usize = 0;
            let mut found = false;
            while j < b.len() && !found
                invariant
                    i < a@.len(),
                    j <= b@.len(),
                    found ==> paths_of(b@, k@).contains(a@[i as int].rel@),
                    !found ==> forall|y: int| 0 <= y < j ==> !((#[trigger] b@[y]).file_key@ == k@ && b@[y].rel@ == a@[i as int].rel@),
                decreases b@.len() - j,
            {
                if str_eq(b[j].file_key.as_str(), k) && str_eq(b[j].rel.as_str(), a[i].rel.as_str()) {
                    found = true;
                    proof {
                        assert(paths_of(b@, k@).contains(a@[i as int].rel@)) by {
                            assert(b@[j as int].file_key@ == k@ && b@[j as int].rel@ == a@[i as int].rel@);
                        }
                    }
                }
                j += 1;
            }
            if !found {
                proof {
                    assert(paths_of(a@, k@).contains(a@[i as int].rel@));
                    if paths_of(b@, k@).contains(a@[i as int].rel@) {
                        let y = choose|y: int| 0 <= y < b@.len() && (#[trigger] b@[y]).file_key@ == k@ && b@[y].rel@ == a@[i as int].rel@;
                        assert(false);
                    }
                }
                return false;
            }
        }
        i += 1;
    }
    proof {
        assert forall|r: Seq<char>| paths_of(a@, k@).contains(r) implies paths_of(b@, k@).contains(r) by {
            let x = choose|x: int| 0 <= x < a@.len() && (#[trigger] a@[x]).file_key@ == k@ && a@[x].rel@ == r;
        }
    }
    true
}

/// `s` is one of the strings of `v`.
pub open spec fn listed(v: Seq<String>, s: Seq<char>) -> bool {
    exists|i: int| 0 <= i < v.len() && (#[trigger] v[i])@ == s
}

/// No string occurs twice.
pub open spec fn distinct_strs(v: Seq<String>) -> bool {
    forall|x: int, y: int| 0 <= x < y < v.len() ==> (#[trigger] v[x])@ != (#[trigger] v[y])@
}

/// Some alias of `aliases` has content key `k`.
pub open spec fn has_key(aliases: Seq<DuplicateFile>, k: Seq<char>) -> bool {
    exists|i: int| 0 <= i < aliases.len() && (#[trigger] aliases[i]).file_key@ == k
}

fn key_listed(keys: &Vec<String>, k: &str) -> (r: bool)
    ensures
        r == listed(keys@, k@),
{
    let mut i: usize = 0;
    while i < keys.len()
        invariant
            i <= keys@.len(),
            forall|x: int| 0 <= x < i ==> (#[trigger] keys@[x])@ != k@,
        decreases keys@.len() - i,
    {
        if str_eq(keys[i].as_str(), k) {
            return true;
        }
        i += 1;
    }
    false
}

/// Add `k` unless it is listed already.
fn add_key(out: &mut Vec<String>, k: &String)
    requires
        distinct_strs(old(out)@),
    ensures
        distinct_strs(final(out)@),
        forall|s: Seq<char>| #![trigger listed(final(out)@, s)] listed(final(out)@, s) <==> (listed(old(out)@, s) || s == k@),
{
    if !key_listed(out, k.as_str()) {
        let c = k.clone();
        let ghost before = out@;
        out.push(c);
        proof {
            assert forall|s: Seq<char>| listed(out@, s) implies (listed(before, s) || s == k@) by {
                let i = choose|i: int| 0 <= i < out@.len() && (#[trigger] out@[i])@ == s;
                if i < before.len() {
                    assert(before[i] == out@[i]);
                }
            }
            assert forall|s: Seq<char>| (listed(before, s) || s == k@) implies listed(out@, s) by {
                if s == k@ {
                    assert(out@[before.len() as int]@ == s);
                } else {
                    let i = choose|i: int| 0 <= i < before.len() && (#[trigger] before[i])@ == s;
                    assert(out@[i] == before[i]);
                }
            }
            assert forall|x: int, y: int| 0 <= x < y < out@.len() implies (#[trigger] out@[x])@ != (#[trigger] out@[y])@ by {
                if y == before.len() {
                    assert(out@[x] == before[x]);
                }
            }
        }
    }
}

/// Add the key of every alias whose path set changed.
fn add_changed(
    out: &mut Vec<String>,
    scan: &[DuplicateFile],
    previous: &[DuplicateFile],
    current: &[DuplicateFile],
)
    requires
        distinct_strs(old(out)@),
    ensures
        distinct_strs(final(out)@),
        forall|s: Seq<char>| #![trigger listed(final(out)@, s)] listed(final(out)@, s) <==> (listed(old(out)@, s) || (has_key(scan@, s)
            && paths_of(previous@, s) != paths_of(current@, s))),
{
    let ghost out0 = out@;
    let mut i: usize = 0;
    while i < scan.len()
        invariant
            i <= scan@.len(),
            distinct_strs(out@),
            forall|s: Seq<char>| #![trigger listed(out@, s)] listed(out@, s) <==> (listed(out0, s) || (has_key(scan@.subrange(0, i as int), s)
                && paths_of(previous@, s) != paths_of(current@, s))),
        decreases scan@.len() - i,
    {
        let k = &scan[i].file_key;
        let same = covered(previous, current, k.as_str()) && covered(current, previous, k.as_str());
        proof {
            if same {
                assert(paths_of(previous@, k@) =~= paths_of(current@, k@));
            }
        }
        let ghost before = out@;
        if !same {
            add_key(out, k);
        }
        proof {
            let pre = scan@.subrange(0, i as int);
            let nxt = scan@.subrange(0, i + 1);
            assert forall|s: Seq<char>| has_key(nxt, s) <==> (has_key(pre, s) || s == k@) by {
                if has_key(nxt, s) {
                    let x = choose|x: int| 0 <= x < nxt.len() && (#[trigger] nxt[x]).file_key@ == s;
                    if x < i {
                        assert(pre[x] == nxt[x]);
                    }
                }
                if has_key(pre, s) {
                    let x = choose|x: int| 0 <= x < pre.len() && (#[trigger] pre[x]).file_key@ == s;
                    assert(nxt[x] == pre[x]);
                }
                if s == k@ {
                    assert(nxt[i as int].file_key@ == s);
                }
            }
            assert forall|s: Seq<char>| #![trigger listed(out@, s)] listed(out@, s) <==> (listed(out0, s) || (has_key(nxt, s)
                && paths_of(previous@, s) != paths_of(current@, s))) by {
                assert(listed(before, s) <==> (listed(out0, s) || (has_key(pre, s) && paths_of(previous@, s) != paths_of(current@, s))));
            }
        }
        i += 1;
    }
    proof {
        assert(scan@.subrange(0, scan@.len() as int) =~= scan@);
    }
}

/// Paths that differ are paths some run holds.
proof fn lemma_changed_has_key(previous: Seq<DuplicateFile>, current: Seq<DuplicateFile>, k: Seq<char>)
    requires
        paths_of(previous, k) != paths_of(current, k),
    ensures
        has_key(previous, k) || has_key(current, k),
{
    if !has_key(previous, k) && !has_key(current, k) {
        assert(paths_of(previous, k) =~= Set::empty());
        assert(paths_of(current, k) =~= Set::empty());
    }
}

/// The content keys to re-index: every key whose set of alias paths differs
/// between the previous and the current run, plus every migration key. Each
/// key is listed once; the order carries no meaning.
pub fn alias_keys_to_reindex(
    previous: &[DuplicateFile],
    current: &[DuplicateFile],
    migration_keys: Option<&Vec<String>>,
) -> (r: Vec<String>)
    ensures
        forall|k: Seq<char>|
            #![trigger listed(r@, k)]
            listed(r@, k) <==> invalidated(
                previous@,
                current@,
                match migration_keys {
                    Some(m) => Some(m@),
                    None => None,
                },
                k,
            ),
        distinct_strs(r@),
{
    let mut out: Vec<String> = Vec::new();
    if let Some(m) = migration_keys {
        let mut i: usize = 0;
        while i < m.len()
            invariant
                i <= m@.len(),
                distinct_strs(out@),
                forall|s: Seq<char>| #![trigger listed(out@, s)] listed(out@, s) <==> listed(m@.subrange(0, i as int), s),
            decreases m@.len() - i,
        {
            let ghost before = out@;
            add_key(&mut out, &m[i]);
            proof {
                let pre = m@.subrange(0, i as int);
                let nxt = m@.subrange(0, i + 1);
                assert forall|s: Seq<char>| listed(nxt, s) <==> (listed(pre, s) || s == m@[i as int]@) by {
                    if listed(nxt, s) {
                        let x = choose|x: int| 0 <= x < nxt.len() && (#[trigger] nxt[x])@ == s;
                        if x < i {
                            assert(pre[x] == nxt[x]);
                        }
                    }
                    if listed(pre, s) {
                        let x = choose|x: int| 0 <= x < pre.len() && (#[trigger] pre[x])@ == s;
                        assert(nxt[x] == pre[x]);
                    }
                    if s == m@[i as int]@ {
                        assert(nxt[i as int]@ == s);
                    }
                }
                assert forall|s: Seq<char>| #![trigger listed(out@, s)] listed(out@, s) <==> listed(nxt, s) by {
                    assert(listed(before, s) <==> listed(pre, s));
                }
            }
            i += 1;
        }
        proof {
            assert(m@.subrange(0, m@.len() as int) =~= m@);
        }
    }
    let ghost after_mig = out@;
    let ghost mig_listed = |s: Seq<char>| match migration_keys {
        Some(m) => listed(m@, s),
        None => false,
    };
    assert(forall|s: Seq<char>| #![trigger listed(after_mig, s)] listed(after_mig, s) <==> mig_listed(s));
    add_changed(&mut out, previous, previous, current);
    let ghost after_prev = out@;
    add_changed(&mut out, current, previous, current);
    proof {
        let mig = match migration_keys {
            Some(m) => Some(m@),
            None => None,
        };
        assert forall|k: Seq<char>| #![trigger listed(out@, k)] listed(out@, k) <==> invalidated(previous@, current@, mig, k) by {
            if paths_of(previous@, k) != paths_of(current@, k) {
                lemma_changed_has_key(previous@, current@, k);
            }
            assert(listed(after_prev, k) <==> (listed(after_mig, k) || (has_key(previous@, k)
                && paths_of(previous@, k) != paths_of(current@, k))));
            assert(listed(out@, k) <==> (listed(after_prev, k) || (has_key(current@, k)
                && paths_of(previous@, k) != paths_of(current@, k))));
            assert(listed(after_mig, k) <==> mig_listed(k));
        }
    }
    out
}

} // verus!
