//! The per-document degree budget of sharedterm: each document offers its
//! candidate partners strongest first and takes one per round; a pair is
//! accepted only while both documents have room.

use super::sharedterm::MAX_EDGES_PER_DOC;
use super::termlinks::{keys_ok, pair_keys, pairs_view, PairList};
use vstd::prelude::*;

verus! {

/// A candidate partner: (terms shared with it, its position).
pub type Cand = (nat, int);

/// The partners of document `x` among the pairs, in pair order.
pub open spec fn cands_of(fp: PairList, x: int) -> Seq<Cand>
    decreases fp.len(),
{
    if fp.len() == 0 {
        Seq::empty()
    } else {
        let r = cands_of(fp.drop_last(), x);
        let e = fp.last();
        if e.0.0 == x {
            r.push((e.1.len(), e.0.1))
        } else if e.0.1 == x {
            r.push((e.1.len(), e.0.0))
        } else {
            r
        }
    }
}

/// More shared terms first, then the earlier document.
pub open spec fn cand_better(a: Cand, b: Cand) -> bool {
    a.0 > b.0 || (a.0 == b.0 && a.1 < b.1)
}

pub open spec fn best_cand(s: Seq<Cand>) -> int
    decreases s.len(),
{
    if s.len() <= 1 {
        0
    } else {
        let k = best_cand(s.drop_last());
        if cand_better(s.last(), s[k]) {
            s.len() - 1
        } else {
            k
        }
    }
}

pub proof fn lemma_best_cand(s: Seq<Cand>)
    requires
        s.len() > 0,
    ensures
        0 <= best_cand(s) < s.len(),
    decreases s.len(),
{
    if s.len() > 1 {
        lemma_best_cand(s.drop_last());
    }
}

/// The candidates strongest first.
pub open spec fn cand_order(s: Seq<Cand>) -> Seq<Cand>
    decreases s.len(),
{
    if s.len() == 0 {
        Seq::empty()
    } else {
        proof {
            lemma_best_cand(s);
        }
        seq![s[best_cand(s)]] + cand_order(s.remove(best_cand(s)))
    }
}

/// Each document's ranked candidates.
pub open spec fn ranked_cands(fp: PairList, n: nat) -> Seq<Seq<Cand>> {
    Seq::new(n, |x: int| cand_order(cands_of(fp, x)))
}

/// Degrees, cursors, accepted pairs, and whether this round accepted one.
pub type Budget = (Seq<nat>, Seq<nat>, Seq<(int, int)>, bool);

/// Document `x` walks its candidates from its cursor and takes the first
/// partner that is not already linked to it and still has room.
pub open spec fn scan(st: Budget, x: int, c: Seq<Cand>) -> Budget
    decreases c.len() - st.1[x],
{
    if x < 0 || x >= st.1.len() || st.1[x] >= c.len() {
        st
    } else {
        let p = c[st.1[x] as int].1;
        let cursor = st.1.update(x, st.1[x] + 1);
        let key = if x < p {
            (x, p)
        } else {
            (p, x)
        };
        if st.2.contains(key) || (0 <= p < st.0.len() && st.0[p] >= MAX_EDGES_PER_DOC) {
            scan((st.0, cursor, st.2, st.3), x, c)
        } else {
            (st.0.update(x, st.0[x] + 1).update(p, st.0[p] + 1), cursor, st.2.push(key), true)
        }
    }
}

/// One round: every document with room, in order, takes at most one partner.
pub open spec fn round(st: Budget, cands: Seq<Seq<Cand>>, x: int) -> Budget
    decreases cands.len() - x,
{
    if x < 0 || x >= cands.len() {
        st
    } else {
        let st1 = if cands[x].len() > 0 && 0 <= x < st.0.len() && st.0[x] < MAX_EDGES_PER_DOC {
            scan(st, x, cands[x])
        } else {
            st
        };
        round(st1, cands, x + 1)
    }
}

/// Up to `MAX_EDGES_PER_DOC` rounds, stopping after one that accepted nothing.
pub open spec fn rounds(st: Budget, cands: Seq<Seq<Cand>>, r: nat) -> Budget
    decreases MAX_EDGES_PER_DOC - r,
{
    if r >= MAX_EDGES_PER_DOC {
        st
    } else {
        let st1 = round((st.0, st.1, st.2, false), cands, 0);
        if !st1.3 {
            st1
        } else {
            rounds(st1, cands, r + 1)
        }
    }
}

pub open spec fn zeros(n: nat) -> Seq<nat> {
    Seq::new(n, |x: int| 0nat)
}

/// The accepted pairs, in the order they were accepted.
pub open spec fn accepted_pairs(fp: PairList, n: nat) -> Seq<(int, int)> {
    rounds((zeros(n), zeros(n), Seq::empty(), false), ranked_cands(fp, n), 0).2
}

/// How many of the pairs have `x` as an endpoint.
pub open spec fn pair_count(acc: Seq<(int, int)>, x: int) -> nat
    decreases acc.len(),
{
    if acc.len() == 0 {
        0
    } else {
        pair_count(acc.drop_last(), x) + if acc.last().0 == x || acc.last().1 == x {
            1nat
        } else {
            0nat
        }
    }
}

/// Every candidate of document `x` is another document below `n`.
pub open spec fn cands_ok(cands: Seq<Seq<Cand>>, n: nat) -> bool {
    &&& cands.len() == n
    &&& forall|x: int, k: int|
        0 <= x < n && 0 <= k < cands[x].len() ==> 0 <= (#[trigger] cands[x][k]).1 < n && cands[x][k].1 != x
}

/// The budget invariant: each degree counts the accepted pairs at that
/// document and stays within `MAX_EDGES_PER_DOC`; accepted pairs are
/// distinct and join two distinct documents.
pub open spec fn budget_ok(st: Budget, n: nat) -> bool {
    &&& st.0.len() == n
    &&& st.1.len() == n
    &&& forall|y: int| 0 <= y < n ==> #[trigger] st.0[y] == pair_count(st.2, y) && st.0[y] <= MAX_EDGES_PER_DOC
    &&& forall|k: int| 0 <= k < st.2.len() ==> 0 <= (#[trigger] st.2[k]).0 < st.2[k].1 < n
    &&& st.2.no_duplicates()
}

proof fn lemma_pair_count_push(acc: Seq<(int, int)>, key: (int, int), y: int)
    ensures
        pair_count(acc.push(key), y) == pair_count(acc, y) + if key.0 == y || key.1 == y {
            1nat
        } else {
            0nat
        },
{
    assert(acc.push(key).drop_last() =~= acc);
}

pub proof fn lemma_scan_ok(st: Budget, x: int, c: Seq<Cand>, n: nat)
    requires
        budget_ok(st, n),
        0 <= x < n,
        st.0[x] < MAX_EDGES_PER_DOC,
        forall|k: int| 0 <= k < c.len() ==> 0 <= (#[trigger] c[k]).1 < n && c[k].1 != x,
    ensures
        budget_ok(scan(st, x, c), n),
        scan(st, x, c).3 == (st.3 || scan(st, x, c).2.len() > st.2.len()),
        scan(st, x, c).2.len() >= st.2.len(),
    decreases c.len() - st.1[x],
{
    if st.1[x] < c.len() {
        let p = c[st.1[x] as int].1;
        let cursor = st.1.update(x, st.1[x] + 1);
        let key = if x < p {
            (x, p)
        } else {
            (p, x)
        };
        if st.2.contains(key) || (0 <= p < st.0.len() && st.0[p] >= MAX_EDGES_PER_DOC) {
            lemma_scan_ok((st.0, cursor, st.2, st.3), x, c, n);
        } else {
            let d = st.0.update(x, st.0[x] + 1).update(p, st.0[p] + 1);
            let acc = st.2.push(key);
            assert forall|y: int| 0 <= y < n implies #[trigger] d[y] == pair_count(acc, y) && d[y] <= MAX_EDGES_PER_DOC by {
                lemma_pair_count_push(st.2, key, y);
            }
            assert forall|k: int| 0 <= k < acc.len() implies 0 <= (#[trigger] acc[k]).0 < acc[k].1 < n by {
                if k < st.2.len() {
                    assert(acc[k] == st.2[k]);
                }
            }
            assert(acc.no_duplicates()) by {
                assert forall|i: int, j: int| 0 <= i < acc.len() && 0 <= j < acc.len() && i != j implies acc[i] != acc[j] by {
                    if i < st.2.len() && j < st.2.len() {
                        assert(acc[i] == st.2[i] && acc[j] == st.2[j]);
                    } else if i < st.2.len() {
                        assert(acc[i] == st.2[i]);
                        assert(acc[j] == key);
                    } else {
                        assert(acc[j] == st.2[j]);
                        assert(acc[i] == key);
                    }
                }
            }
        }
    }
}

pub proof fn lemma_round_ok(st: Budget, cands: Seq<Seq<Cand>>, x: int, n: nat)
    requires
        budget_ok(st, n),
        cands_ok(cands, n),
        0 <= x,
    ensures
        budget_ok(round(st, cands, x), n),
        round(st, cands, x).3 == (st.3 || round(st, cands, x).2.len() > st.2.len()),
        round(st, cands, x).2.len() >= st.2.len(),
    decreases cands.len() - x,
{
    if x < cands.len() {
        let st1 = if cands[x].len() > 0 && 0 <= x < st.0.len() && st.0[x] < MAX_EDGES_PER_DOC {
            assert forall|k: int| 0 <= k < cands[x].len() implies 0 <= (#[trigger] cands[x][k]).1 < n && cands[x][k].1 != x by {
            }
            lemma_scan_ok(st, x, cands[x], n);
            scan(st, x, cands[x])
        } else {
            st
        };
        lemma_round_ok(st1, cands, x + 1, n);
    }
}

pub proof fn lemma_rounds_ok(st: Budget, cands: Seq<Seq<Cand>>, r: nat, n: nat)
    requires
        budget_ok(st, n),
        cands_ok(cands, n),
    ensures
        budget_ok(rounds(st, cands, r), n),
    decreases MAX_EDGES_PER_DOC - r,
{
    if r < MAX_EDGES_PER_DOC {
        lemma_round_ok((st.0, st.1, st.2, false), cands, 0, n);
        let st1 = round((st.0, st.1, st.2, false), cands, 0);
        if st1.3 {
            lemma_rounds_ok(st1, cands, r + 1, n);
        }
    }
}

pub proof fn lemma_cand_order_elems(s: Seq<Cand>)
    ensures
        cand_order(s).len() == s.len(),
        forall|k: int| 0 <= k < cand_order(s).len() ==> s.contains(#[trigger] cand_order(s)[k]),
    decreases s.len(),
{
    if s.len() > 0 {
        lemma_best_cand(s);
        let b = best_cand(s);
        let rest = s.remove(b);
        lemma_cand_order_elems(rest);
        let o = cand_order(s);
        assert forall|k: int| 0 <= k < o.len() implies s.contains(#[trigger] o[k]) by {
            if k == 0 {
                assert(s[b] == o[0]);
            } else {
                assert(o[k] == cand_order(rest)[k - 1]);
                let j = choose|j: int| 0 <= j < rest.len() && rest[j] == cand_order(rest)[k - 1];
                if j < b {
                    assert(s[j] == rest[j]);
                } else {
                    assert(s[j + 1] == rest[j]);
                }
            }
        }
    }
}

pub proof fn lemma_cands_of(fp: PairList, x: int, n: nat)
    requires
        forall|k: int| 0 <= k < fp.len() ==> 0 <= (#[trigger] fp[k]).0.0 < fp[k].0.1 && fp[k].0.1 < n,
    ensures
        forall|k: int| 0 <= k < cands_of(fp, x).len() ==> 0 <= (#[trigger] cands_of(fp, x)[k]).1 < n && cands_of(fp, x)[k].1 != x,
    decreases fp.len(),
{
    if fp.len() > 0 {
        let d = fp.drop_last();
        assert forall|k: int| 0 <= k < d.len() implies 0 <= (#[trigger] d[k]).0.0 < d[k].0.1 && d[k].0.1 < n by {
            assert(d[k] == fp[k]);
        }
        lemma_cands_of(d, x, n);
        assert(fp.last() == fp[fp.len() - 1]);
        let r = cands_of(d, x);
        let c = cands_of(fp, x);
        assert forall|k: int| 0 <= k < c.len() implies 0 <= (#[trigger] c[k]).1 < n && c[k].1 != x by {
            if k < r.len() {
                assert(c[k] == r[k]);
            }
        }
    }
}

/// The ranked candidates of well-formed pairs name other documents below `n`.
pub proof fn lemma_ranked_ok(fp: PairList, n: nat)
    requires
        forall|k: int| 0 <= k < fp.len() ==> 0 <= (#[trigger] fp[k]).0.0 < fp[k].0.1 && fp[k].0.1 < n,
    ensures
        cands_ok(ranked_cands(fp, n), n),
{
    let rc = ranked_cands(fp, n);
    assert forall|x: int, k: int| 0 <= x < n && 0 <= k < rc[x].len() implies 0 <= (#[trigger] rc[x][k]).1 < n && rc[x][k].1 != x by {
        lemma_cands_of(fp, x, n);
        lemma_cand_order_elems(cands_of(fp, x));
        let c = cands_of(fp, x);
        assert(rc[x] == cand_order(c));
        let j = choose|j: int| 0 <= j < c.len() && c[j] == cand_order(c)[k];
    }
}

/// The degree cap, the budget's guarantee: however the candidates rank, no
/// document is an endpoint of more than `MAX_EDGES_PER_DOC` accepted pairs,
/// and no pair is accepted twice.
pub proof fn lemma_degree_cap(fp: PairList, n: nat, x: int)
    requires
        forall|k: int| 0 <= k < fp.len() ==> 0 <= (#[trigger] fp[k]).0.0 < fp[k].0.1 && fp[k].0.1 < n,
        0 <= x < n,
    ensures
        pair_count(accepted_pairs(fp, n), x) <= MAX_EDGES_PER_DOC,
        accepted_pairs(fp, n).no_duplicates(),
{
    lemma_ranked_ok(fp, n);
    let st0: Budget = (zeros(n), zeros(n), Seq::empty(), false);
    assert forall|y: int| 0 <= y < n implies #[trigger] st0.0[y] == pair_count(st0.2, y) && st0.0[y] <= MAX_EDGES_PER_DOC by {
    }
    lemma_rounds_ok(st0, ranked_cands(fp, n), 0, n);
    let fin = rounds(st0, ranked_cands(fp, n), 0);
    assert(fin.0[x] == pair_count(fin.2, x) && fin.0[x] <= MAX_EDGES_PER_DOC);
}

/// The key of the pair between `x` and `p`, the smaller first.
pub open spec fn key_of(x: int, p: int) -> (int, int) {
    if x < p {
        (x, p)
    } else {
        (p, x)
    }
}

/// Every candidate names a pair of `fp`.
pub open spec fn cands_from(cands: Seq<Seq<Cand>>, fp: PairList) -> bool {
    forall|x: int, k: int|
        0 <= x < cands.len() && 0 <= k < cands[x].len() ==> pair_keys(fp).contains(key_of(x, (#[trigger] cands[x][k]).1))
}

/// Every accepted pair is a pair of `fp`.
pub open spec fn keys_in(acc: Seq<(int, int)>, fp: PairList) -> bool {
    forall|k: int| 0 <= k < acc.len() ==> pair_keys(fp).contains(#[trigger] acc[k])
}

pub proof fn lemma_scan_keys(st: Budget, x: int, c: Seq<Cand>, fp: PairList)
    requires
        keys_in(st.2, fp),
        forall|k: int| 0 <= k < c.len() ==> pair_keys(fp).contains(key_of(x, (#[trigger] c[k]).1)),
    ensures
        keys_in(scan(st, x, c).2, fp),
    decreases c.len() - st.1[x],
{
    if 0 <= x < st.1.len() && st.1[x] < c.len() {
        let p = c[st.1[x] as int].1;
        let cursor = st.1.update(x, st.1[x] + 1);
        let key = key_of(x, p);
        if st.2.contains(key) || (0 <= p < st.0.len() && st.0[p] >= MAX_EDGES_PER_DOC) {
            lemma_scan_keys((st.0, cursor, st.2, st.3), x, c, fp);
        } else {
            let acc = st.2.push(key);
            assert forall|k: int| 0 <= k < acc.len() implies pair_keys(fp).contains(#[trigger] acc[k]) by {
                if k < st.2.len() {
                    assert(acc[k] == st.2[k]);
                } else {
                    assert(pair_keys(fp).contains(key_of(x, c[st.1[x] as int].1)));
                }
            }
        }
    }
}

pub proof fn lemma_round_keys(st: Budget, cands: Seq<Seq<Cand>>, x: int, fp: PairList)
    requires
        keys_in(st.2, fp),
        cands_from(cands, fp),
        0 <= x,
    ensures
        keys_in(round(st, cands, x).2, fp),
    decreases cands.len() - x,
{
    if x < cands.len() {
        let st1 = if cands[x].len() > 0 && 0 <= x < st.0.len() && st.0[x] < MAX_EDGES_PER_DOC {
            assert forall|k: int| 0 <= k < cands[x].len() implies pair_keys(fp).contains(key_of(x, (#[trigger] cands[x][k]).1)) by {
            }
            lemma_scan_keys(st, x, cands[x], fp);
            scan(st, x, cands[x])
        } else {
            st
        };
        lemma_round_keys(st1, cands, x + 1, fp);
    }
}

pub proof fn lemma_rounds_keys(st: Budget, cands: Seq<Seq<Cand>>, r: nat, fp: PairList)
    requires
        keys_in(st.2, fp),
        cands_from(cands, fp),
    ensures
        keys_in(rounds(st, cands, r).2, fp),
    decreases MAX_EDGES_PER_DOC - r,
{
    if r < MAX_EDGES_PER_DOC {
        lemma_round_keys((st.0, st.1, st.2, false), cands, 0, fp);
        let st1 = round((st.0, st.1, st.2, false), cands, 0);
        if st1.3 {
            lemma_rounds_keys(st1, cands, r + 1, fp);
        }
    }
}

pub proof fn lemma_cands_of_keys(fp: PairList, x: int)
    requires
        forall|k: int| 0 <= k < fp.len() ==> (#[trigger] fp[k]).0.0 < fp[k].0.1,
    ensures
        forall|k: int| 0 <= k < cands_of(fp, x).len() ==> pair_keys(fp).contains(key_of(x, (#[trigger] cands_of(fp, x)[k]).1)),
    decreases fp.len(),
{
    if fp.len() > 0 {
        let d = fp.drop_last();
        assert forall|k: int| 0 <= k < d.len() implies (#[trigger] d[k]).0.0 < d[k].0.1 by {
            assert(d[k] == fp[k]);
        }
        lemma_cands_of_keys(d, x);
        let r = cands_of(d, x);
        let c = cands_of(fp, x);
        assert forall|k: int| 0 <= k < c.len() implies pair_keys(fp).contains(key_of(x, (#[trigger] c[k]).1)) by {
            if k < r.len() {
                assert(c[k] == r[k]);
                let w = choose|w: int| 0 <= w < pair_keys(d).len() && pair_keys(d)[w] == key_of(x, r[k].1);
                assert(pair_keys(fp)[w] == pair_keys(d)[w]);
            } else {
                assert(pair_keys(fp)[fp.len() - 1] == fp.last().0);
            }
        }
    }
}

/// Every candidate pair is either drawn or counted: the accepted pairs are
/// distinct pairs of the candidate list, so there are never more of them.
pub proof fn lemma_accepted_within(fp: PairList, n: nat)
    requires
        forall|k: int| 0 <= k < fp.len() ==> 0 <= (#[trigger] fp[k]).0.0 < fp[k].0.1 && fp[k].0.1 < n,
        pair_keys(fp).no_duplicates(),
    ensures
        accepted_pairs(fp, n).len() <= fp.len(),
        keys_in(accepted_pairs(fp, n), fp),
{
    let rc = ranked_cands(fp, n);
    assert(cands_from(rc, fp)) by {
        assert forall|x: int, k: int| 0 <= x < rc.len() && 0 <= k < rc[x].len() implies pair_keys(fp).contains(key_of(x, (#[trigger] rc[x][k]).1)) by {
            lemma_cands_of_keys(fp, x);
            lemma_cand_order_elems(cands_of(fp, x));
            let c = cands_of(fp, x);
            let j = choose|j: int| 0 <= j < c.len() && c[j] == cand_order(c)[k];
        }
    }
    let st0: Budget = (zeros(n), zeros(n), Seq::empty(), false);
    lemma_rounds_keys(st0, rc, 0, fp);
    lemma_ranked_ok(fp, n);
    assert forall|y: int| 0 <= y < n implies #[trigger] st0.0[y] == pair_count(st0.2, y) && st0.0[y] <= MAX_EDGES_PER_DOC by {
    }
    lemma_rounds_ok(st0, rc, 0, n);
    let acc = accepted_pairs(fp, n);
    acc.unique_seq_to_set();
    pair_keys(fp).unique_seq_to_set();
    assert(acc.to_set().subset_of(pair_keys(fp).to_set())) by {
        assert forall|e: (int, int)| acc.to_set().contains(e) implies pair_keys(fp).to_set().contains(e) by {
            let k = choose|k: int| 0 <= k < acc.len() && acc[k] == e;
        }
    }
    vstd::seq_lib::seq_to_set_is_finite(pair_keys(fp));
    vstd::set_lib::lemma_len_subset(acc.to_set(), pair_keys(fp).to_set());
}

pub open spec fn cview(v: Seq<(usize, usize)>) -> Seq<Cand> {
    v.map_values(|c: (usize, usize)| (c.0 as nat, c.1 as int))
}

pub open spec fn aview(v: Seq<(usize, usize)>) -> Seq<(int, int)> {
    v.map_values(|k: (usize, usize)| (k.0 as int, k.1 as int))
}

pub open spec fn nview(v: Seq<usize>) -> Seq<nat> {
    v.map_values(|x: usize| x as nat)
}

fn cands_exec(fp: &Vec<((usize, usize), Vec<Vec<u8>>)>, x: usize) -> (r: Vec<(usize, usize)>)
    ensures
        cview(r@) == cands_of(pairs_view(fp@), x as int),
{
    let ghost pv = pairs_view(fp@);
    let mut out: Vec<(usize, usize)> = Vec::new();
    let mut i: usize = 0;
    while i < fp.len()
        invariant
            i <= fp@.len(),
            pv == pairs_view(fp@),
            cview(out@) == cands_of(pv.subrange(0, i as int), x as int),
        decreases fp@.len() - i,
    {
        proof {
            assert(pv.subrange(0, i + 1).drop_last() =~= pv.subrange(0, i as int));
            assert(pv.subrange(0, i + 1).last() == pv[i as int]);
        }
        let (a, b) = fp[i].0;
        let n = fp[i].1.len();
        let ghost before = cview(out@);
        if a == x {
            out.push((n, b));
            proof {
                assert(cview(out@) =~= before.push((n as nat, b as int)));
            }
        } else if b == x {
            out.push((n, a));
            proof {
                assert(cview(out@) =~= before.push((n as nat, a as int)));
            }
        }
        i += 1;
    }
    proof {
        assert(pv.subrange(0, fp@.len() as int) =~= pv);
    }
    out
}

fn best_cand_exec(s: &Vec<(usize, usize)>) -> (r: usize)
    requires
        s@.len() > 0,
    ensures
        r == best_cand(cview(s@)),
        r < s@.len(),
{
    let ghost cv = cview(s@);
    let mut k: usize = 0;
    let mut i: usize = 1;
    while i < s.len()
        invariant
            1 <= i <= s@.len(),
            k < i,
            cv == cview(s@),
            k == best_cand(cv.subrange(0, i as int)),
        decreases s@.len() - i,
    {
        proof {
            let a = cv.subrange(0, i + 1);
            assert(a.drop_last() =~= cv.subrange(0, i as int));
            assert(a.last() == cv[i as int]);
            assert(a[k as int] == cv[k as int]);
        }
        if s[i].0 > s[k].0 || (s[i].0 == s[k].0 && s[i].1 < s[k].1) {
            k = i;
        }
        i += 1;
    }
    proof {
        assert(cv.subrange(0, s@.len() as int) =~= cv);
    }
    k
}

fn order_cands(v: Vec<(usize, usize)>) -> (r: Vec<(usize, usize)>)
    ensures
        cview(r@) == cand_order(cview(v@)),
{
    let ghost v0 = cview(v@);
    let mut rest = v;
    let mut out: Vec<(usize, usize)> = Vec::new();
    proof {
        assert(cview(out@) + cand_order(cview(rest@)) =~= cand_order(v0));
    }
    while rest.len() > 0
        invariant
            cview(out@) + cand_order(cview(rest@)) == cand_order(v0),
        decreases rest@.len(),
    {
        let k = best_cand_exec(&rest);
        let ghost old_rest = cview(rest@);
        let e = rest.remove(k);
        let ghost before = cview(out@);
        out.push(e);
        proof {
            lemma_best_cand(old_rest);
            assert(cview(rest@) =~= old_rest.remove(k as int));
            assert(cand_order(old_rest) == seq![old_rest[k as int]] + cand_order(old_rest.remove(k as int)));
            assert(cview(out@) =~= before.push(old_rest[k as int]));
            assert(before.push(old_rest[k as int]) + cand_order(old_rest.remove(k as int)) =~= before + (seq![old_rest[k as int]] + cand_order(old_rest.remove(k as int))));
        }
    }
    proof {
        assert(cview(rest@) =~= Seq::<Cand>::empty());
        assert(cview(out@) + Seq::<Cand>::empty() =~= cview(out@));
    }
    out
}

fn holds_key(acc: &Vec<(usize, usize)>, a: usize, b: usize) -> (r: bool)
    ensures
        r == aview(acc@).contains((a as int, b as int)),
{
    let mut i: usize = 0;
    while i < acc.len()
        invariant
            i <= acc@.len(),
            forall|q: int| 0 <= q < i ==> aview(acc@)[q] != (a as int, b as int),
        decreases acc@.len() - i,
    {
        if acc[i].0 == a && acc[i].1 == b {
            proof {
                assert(aview(acc@)[i as int] == (a as int, b as int));
            }
            return true;
        }
        i += 1;
    }
    false
}

pub open spec fn view_of(degree: Seq<usize>, cursor: Seq<usize>, acc: Seq<(usize, usize)>, progressed: bool) -> Budget {
    (nview(degree), nview(cursor), aview(acc), progressed)
}

fn scan_exec(
    degree: &mut Vec<usize>,
    cursor: &mut Vec<usize>,
    acc: &mut Vec<(usize, usize)>,
    progressed: &mut bool,
    x: usize,
    c: &Vec<(usize, usize)>,
)
    requires
        x < old(degree)@.len(),
        old(cursor)@.len() == old(degree)@.len(),
        old(degree)@[x as int] < MAX_EDGES_PER_DOC,
        forall|y: int| 0 <= y < old(degree)@.len() ==> #[trigger] old(degree)@[y] <= MAX_EDGES_PER_DOC,
        forall|k: int| 0 <= k < c@.len() ==> (#[trigger] c@[k]).1 < old(degree)@.len() && c@[k].1 != x,
    ensures
        view_of(final(degree)@, final(cursor)@, final(acc)@, *final(progressed)) == scan(
            view_of(old(degree)@, old(cursor)@, old(acc)@, *old(progressed)),
            x as int,
            cview(c@),
        ),
        final(degree)@.len() == old(degree)@.len(),
        final(cursor)@.len() == old(cursor)@.len(),
        forall|y: int| 0 <= y < final(degree)@.len() ==> #[trigger] final(degree)@[y] <= MAX_EDGES_PER_DOC,
{
    let ghost cv = cview(c@);
    let ghost target = scan(view_of(degree@, cursor@, acc@, *progressed), x as int, cv);
    let n = degree.len();
    let mut done = false;
    while !done && cursor[x] < c.len()
        invariant
            x < n,
            n == degree@.len(),
            cursor@.len() == n,
            cv == cview(c@),
            forall|k: int| 0 <= k < c@.len() ==> (#[trigger] c@[k]).1 < n && c@[k].1 != x,
            forall|y: int| 0 <= y < n ==> #[trigger] degree@[y] <= MAX_EDGES_PER_DOC,
            !done ==> degree@[x as int] < MAX_EDGES_PER_DOC,
            target == if done {
                view_of(degree@, cursor@, acc@, *progressed)
            } else {
                scan(view_of(degree@, cursor@, acc@, *progressed), x as int, cv)
            },
        decreases c@.len() - cursor@[x as int] + if done {
            0int
        } else {
            1int
        },
    {
        let ghost st = view_of(degree@, cursor@, acc@, *progressed);
        let at = cursor[x];
        let p = c[at].1;
        cursor.set(x, at + 1);
        let (ka, kb) = if x < p {
            (x, p)
        } else {
            (p, x)
        };
        proof {
            assert(nview(cursor@) =~= st.1.update(x as int, st.1[x as int] + 1));
            assert(cv[at as int].1 == p as int);
        }
        if holds_key(acc, ka, kb) || degree[p] >= MAX_EDGES_PER_DOC {
        } else {
            let dx = degree[x] + 1;
            degree.set(x, dx);
            let dp = degree[p] + 1;
            degree.set(p, dp);
            let ghost before_acc = aview(acc@);
            acc.push((ka, kb));
            *progressed = true;
            done = true;
            proof {
                assert(nview(degree@) =~= st.0.update(x as int, st.0[x as int] + 1).update(p as int, st.0[p as int] + 1));
                assert(aview(acc@) =~= before_acc.push((ka as int, kb as int)));
            }
        }
    }
    proof {
        if !done {
            assert(scan(view_of(degree@, cursor@, acc@, *progressed), x as int, cv) == view_of(degree@, cursor@, acc@, *progressed));
        }
    }
}

/// The accepted pairs of the budget, in the order they were accepted.
pub fn round_robin(fp: &Vec<((usize, usize), Vec<Vec<u8>>)>, n: usize) -> (r: Vec<(usize, usize)>)
    requires
        keys_ok(fp@, n as nat),
    ensures
        aview(r@) == accepted_pairs(pairs_view(fp@), n as nat),
{
    let ghost pv = pairs_view(fp@);
    let ghost rc = ranked_cands(pv, n as nat);
    proof {
        assert forall|k: int| 0 <= k < pv.len() implies 0 <= (#[trigger] pv[k]).0.0 < pv[k].0.1 && pv[k].0.1 < n by {
            assert(pv[k].0 == (fp@[k].0.0 as int, fp@[k].0.1 as int));
        }
        lemma_ranked_ok(pv, n as nat);
    }
    let mut cands: Vec<Vec<(usize, usize)>> = Vec::new();
    let mut x: usize = 0;
    while x < n
        invariant
            x <= n,
            pv == pairs_view(fp@),
            rc == ranked_cands(pv, n as nat),
            cands@.len() == x,
            forall|y: int| 0 <= y < x ==> cview(#[trigger] cands@[y]@) == rc[y],
        decreases n - x,
    {
        let c = order_cands(cands_exec(fp, x));
        cands.push(c);
        proof {
            assert(cview(cands@[x as int]@) == rc[x as int]);
        }
        x += 1;
    }
    let mut degree: Vec<usize> = Vec::new();
    let mut cursor: Vec<usize> = Vec::new();
    let mut z: usize = 0;
    while z < n
        invariant
            z <= n,
            degree@.len() == z,
            cursor@.len() == z,
            forall|y: int| 0 <= y < z ==> #[trigger] degree@[y] == 0 && cursor@[y] == 0,
        decreases n - z,
    {
        degree.push(0);
        cursor.push(0);
        z += 1;
    }
    let mut acc: Vec<(usize, usize)> = Vec::new();
    let mut progressed = false;
    let ghost st0: Budget = (zeros(n as nat), zeros(n as nat), Seq::empty(), false);
    proof {
        assert(nview(degree@) =~= zeros(n as nat));
        assert(nview(cursor@) =~= zeros(n as nat));
        assert(aview(acc@) =~= Seq::<(int, int)>::empty());
        assert(view_of(degree@, cursor@, acc@, progressed) == st0);
    }
    let ghost target = rounds(st0, rc, 0);
    let mut r: usize = 0;
    let mut stop = false;
    while !stop && r < MAX_EDGES_PER_DOC
        invariant
            r <= MAX_EDGES_PER_DOC,
            degree@.len() == n,
            cursor@.len() == n,
            cands@.len() == n,
            rc == ranked_cands(pv, n as nat),
            cands_ok(rc, n as nat),
            forall|y: int| 0 <= y < n ==> cview(#[trigger] cands@[y]@) == rc[y],
            forall|y: int| 0 <= y < n ==> #[trigger] degree@[y] <= MAX_EDGES_PER_DOC,
            target == if stop {
                view_of(degree@, cursor@, acc@, progressed)
            } else {
                rounds(view_of(degree@, cursor@, acc@, progressed), rc, r as nat)
            },
        decreases MAX_EDGES_PER_DOC - r + if stop {
            0int
        } else {
            1int
        },
    {
        progressed = false;
        let ghost start = view_of(degree@, cursor@, acc@, progressed);
        let mut y: usize = 0;
        while y < n
            invariant
                y <= n,
                degree@.len() == n,
                cursor@.len() == n,
                cands@.len() == n,
                cands_ok(rc, n as nat),
                forall|w: int| 0 <= w < n ==> cview(#[trigger] cands@[w]@) == rc[w],
                forall|w: int| 0 <= w < n ==> #[trigger] degree@[w] <= MAX_EDGES_PER_DOC,
                round(start, rc, 0) == round(view_of(degree@, cursor@, acc@, progressed), rc, y as int),
            decreases n - y,
        {
            if cands[y].len() > 0 && degree[y] < MAX_EDGES_PER_DOC {
                proof {
                    assert(cview(cands@[y as int]@) == rc[y as int]);
                    assert forall|k: int| 0 <= k < cands@[y as int]@.len() implies (#[trigger] cands@[y as int]@[k]).1 < n && cands@[y as int]@[k].1 != y by {
                        assert(cview(cands@[y as int]@)[k] == rc[y as int][k]);
                    }
                }
                scan_exec(&mut degree, &mut cursor, &mut acc, &mut progressed, y, &cands[y]);
            }
            y += 1;
        }
        if !progressed {
            stop = true;
        } else {
            r += 1;
        }
    }
    acc
}

/// Key order: the smaller first document, then the smaller second.
pub open spec fn key_less(a: (int, int), b: (int, int)) -> bool {
    a.0 < b.0 || (a.0 == b.0 && a.1 < b.1)
}

pub open spec fn least_key(s: Seq<(int, int)>) -> int
    decreases s.len(),
{
    if s.len() <= 1 {
        0
    } else {
        let k = least_key(s.drop_last());
        if key_less(s.last(), s[k]) {
            s.len() - 1
        } else {
            k
        }
    }
}

pub proof fn lemma_least_key(s: Seq<(int, int)>)
    requires
        s.len() > 0,
    ensures
        0 <= least_key(s) < s.len(),
    decreases s.len(),
{
    if s.len() > 1 {
        lemma_least_key(s.drop_last());
    }
}

/// The pairs in key order.
pub open spec fn key_order(s: Seq<(int, int)>) -> Seq<(int, int)>
    decreases s.len(),
{
    if s.len() == 0 {
        Seq::empty()
    } else {
        proof {
            lemma_least_key(s);
        }
        seq![s[least_key(s)]] + key_order(s.remove(least_key(s)))
    }
}

/// Sorting keeps every pair: as many pairs, each one of the input.
pub proof fn lemma_key_order(s: Seq<(int, int)>)
    ensures
        key_order(s).len() == s.len(),
        forall|i: int| 0 <= i < key_order(s).len() ==> s.contains(#[trigger] key_order(s)[i]),
    decreases s.len(),
{
    if s.len() > 0 {
        lemma_least_key(s);
        let m = least_key(s);
        let t = s.remove(m);
        lemma_key_order(t);
        let r = key_order(s);
        assert(r == seq![s[m]] + key_order(t));
        assert forall|i: int| 0 <= i < r.len() implies s.contains(#[trigger] r[i]) by {
            if i == 0 {
                assert(s[m] == r[0]);
            } else {
                assert(r[i] == key_order(t)[i - 1]);
                assert(t.contains(r[i]));
                let j = choose|j: int| 0 <= j < t.len() && t[j] == r[i];
                if j < m {
                    assert(s[j] == t[j]);
                } else {
                    assert(s[j + 1] == t[j]);
                }
            }
        }
    }
}

fn least_key_exec(s: &Vec<(usize, usize)>) -> (r: usize)
    requires
        s@.len() > 0,
    ensures
        r == least_key(aview(s@)),
        r < s@.len(),
{
    let ghost av = aview(s@);
    let mut k: usize = 0;
    let mut i: usize = 1;
    while i < s.len()
        invariant
            1 <= i <= s@.len(),
            k < i,
            av == aview(s@),
            k == least_key(av.subrange(0, i as int)),
        decreases s@.len() - i,
    {
        proof {
            let a = av.subrange(0, i + 1);
            assert(a.drop_last() =~= av.subrange(0, i as int));
            assert(a.last() == av[i as int]);
            assert(a[k as int] == av[k as int]);
        }
        if s[i].0 < s[k].0 || (s[i].0 == s[k].0 && s[i].1 < s[k].1) {
            k = i;
        }
        i += 1;
    }
    proof {
        assert(av.subrange(0, s@.len() as int) =~= av);
    }
    k
}

/// Sort the accepted pairs into key order.
pub fn sort_keys(v: Vec<(usize, usize)>) -> (r: Vec<(usize, usize)>)
    ensures
        aview(r@) == key_order(aview(v@)),
        forall|k: int| 0 <= k < r@.len() ==> exists|j: int| 0 <= j < v@.len() && v@[j] == #[trigger] r@[k],
{
    let ghost v0 = v@;
    let mut rest = v;
    let mut out: Vec<(usize, usize)> = Vec::new();
    proof {
        assert(aview(out@) + key_order(aview(rest@)) =~= key_order(aview(v0)));
    }
    while rest.len() > 0
        invariant
            aview(out@) + key_order(aview(rest@)) == key_order(aview(v0)),
            forall|k: int| 0 <= k < out@.len() ==> exists|j: int| 0 <= j < v0.len() && v0[j] == #[trigger] out@[k],
            forall|k: int| 0 <= k < rest@.len() ==> exists|j: int| 0 <= j < v0.len() && v0[j] == #[trigger] rest@[k],
        decreases rest@.len(),
    {
        let k = least_key_exec(&rest);
        let ghost old_rest = rest@;
        let e = rest.remove(k);
        let ghost before = aview(out@);
        out.push(e);
        proof {
            let ov = aview(old_rest);
            lemma_least_key(ov);
            assert(aview(rest@) =~= ov.remove(k as int));
            assert(key_order(ov) == seq![ov[k as int]] + key_order(ov.remove(k as int)));
            assert(aview(out@) =~= before.push(ov[k as int]));
            assert(before.push(ov[k as int]) + key_order(ov.remove(k as int)) =~= before + (seq![ov[k as int]] + key_order(ov.remove(k as int))));
            assert forall|q: int| 0 <= q < out@.len() implies exists|j: int| 0 <= j < v0.len() && v0[j] == #[trigger] out@[q] by {
                if q == out@.len() - 1 {
                    assert(out@[q] == old_rest[k as int]);
                } else {
                    assert(out@[q] == out@.drop_last()[q]);
                }
            }
            assert forall|q: int| 0 <= q < rest@.len() implies exists|j: int| 0 <= j < v0.len() && v0[j] == #[trigger] rest@[q] by {
                if q < k {
                    assert(rest@[q] == old_rest[q]);
                } else {
                    assert(rest@[q] == old_rest[q + 1]);
                }
            }
        }
    }
    proof {
        assert(aview(rest@) =~= Seq::<(int, int)>::empty());
        assert(aview(out@) + Seq::<(int, int)>::empty() =~= aview(out@));
    }
    out
}

} // verus!
