//! Banker's-algorithm safety check.
//!
//! A state (available vector, allocation matrix, need matrix) is *safe* when
//! some order exists in which every claimant thread can run to completion:
//! each thread's whole recorded need is covered by the work vector at its
//! turn, and a finished thread returns its allocation to the work vector.
//! The check below decides exactly that property; the greedy elimination it
//! performs is proved equivalent to the existence of a completion order, so
//! the order in which eligible threads are picked cannot change the verdict.

use vstd::prelude::*;

use crate::matrix::MatCell;
use crate::matrix::SparseMat;
use crate::matrix::cell_cnt;
use crate::matrix::cells_wf;
use crate::matrix::cell_inc;
use crate::matrix::col_sum;
use crate::matrix::lemma_cell_cnt_at;
use crate::matrix::lemma_cell_cnt_absent;
use crate::matrix::lemma_cell_cnt_le_max;
use crate::matrix::lemma_mat_sum_take_le;
use crate::matrix::lemma_mat_sum_push;
use crate::matrix::pair_weight;
use crate::matrix::tids_of;

verus! {

/// The work vector's entry for resource `r` after the threads of `done`
/// have finished and returned their allocations.
pub open spec fn work_of(avail: Seq<usize>, alloc: Seq<MatCell>, done: Seq<usize>, r: usize) -> nat
    decreases done.len(),
{
    if done.len() == 0 {
        avail[r as int] as nat
    } else {
        work_of(avail, alloc, done.drop_last(), r) + cell_cnt(alloc, done.last(), r)
    }
}

/// Thread `t` can finish once the threads of `done` have: its whole
/// recorded need is covered by the current work vector.
pub open spec fn fits(
    avail: Seq<usize>,
    alloc: Seq<MatCell>,
    need: Seq<MatCell>,
    t: usize,
    done: Seq<usize>,
) -> bool {
    forall|r: usize| r < avail.len() ==> cell_cnt(need, t, r) <= work_of(avail, alloc, done, r)
}

/// `order` is a completion order: pairwise distinct, and each thread fits
/// once its predecessors have finished.
pub open spec fn feasible_order(
    avail: Seq<usize>,
    alloc: Seq<MatCell>,
    need: Seq<MatCell>,
    order: Seq<usize>,
) -> bool {
    &&& order.no_duplicates()
    &&& forall|i: int|
        0 <= i < order.len() ==> fits(avail, alloc, need, order[i], #[trigger] order.take(i))
}

/// The threads that hold or request any unit.
pub open spec fn claimants(alloc: Seq<MatCell>, need: Seq<MatCell>) -> Set<usize> {
    tids_of(alloc).union(tids_of(need))
}

/// Safety: a completion order over all claimants exists.
pub open spec fn banker_safe(avail: Seq<usize>, alloc: Seq<MatCell>, need: Seq<MatCell>) -> bool {
    exists|order: Seq<usize>|
        feasible_order(avail, alloc, need, order) && order.to_set() == claimants(alloc, need)
}

/// Thread `t`'s whole recorded need is covered by the given work values.
pub open spec fn row_fits(need: Seq<MatCell>, t: usize, work: Seq<u128>) -> bool {
    forall|r: usize| r < work.len() ==> cell_cnt(need, t, r) <= work[r as int]
}

/// The work vector never drops below the available vector.
proof fn lemma_work_of_ge_avail(avail: Seq<usize>, alloc: Seq<MatCell>, done: Seq<usize>, r: usize)
    ensures
        work_of(avail, alloc, done, r) >= avail[r as int],
    decreases done.len(),
{
    if done.len() > 0 {
        lemma_work_of_ge_avail(avail, alloc, done.drop_last(), r);
    }
}

/// Removing one finisher removes exactly its contribution.
proof fn lemma_work_of_remove(
    avail: Seq<usize>,
    alloc: Seq<MatCell>,
    done: Seq<usize>,
    i: int,
    r: usize,
)
    requires
        0 <= i < done.len(),
    ensures
        work_of(avail, alloc, done, r) == work_of(avail, alloc, done.remove(i), r) + cell_cnt(
            alloc,
            done[i],
            r,
        ),
    decreases done.len(),
{
    if i == done.len() - 1 {
        assert(done.remove(i) =~= done.drop_last());
    } else {
        assert(done.remove(i).drop_last() =~= done.drop_last().remove(i));
        assert(done.remove(i).last() == done.last());
        lemma_work_of_remove(avail, alloc, done.drop_last(), i, r);
    }
}

/// Removing an element of a duplicate-free sequence removes exactly that
/// element from its set.
pub proof fn lemma_remove_distinct(s: Seq<usize>, i: int)
    requires
        s.no_duplicates(),
        0 <= i < s.len(),
    ensures
        s.remove(i).no_duplicates(),
        s.remove(i).to_set() == s.to_set().remove(s[i]),
{
    let s2 = s.remove(i);
    assert forall|a: int, b: int| 0 <= a < b < s2.len() implies s2[a] != s2[b] by {
        let a0 = if a < i { a } else { a + 1 };
        let b0 = if b < i { b } else { b + 1 };
        assert(s2[a] == s[a0] && s2[b] == s[b0]);
    }
    assert forall|x: usize| s2.to_set().contains(x) implies s.to_set().contains(x) && x != s[i] by {
        let j = choose|j: int| 0 <= j < s2.len() && s2[j] == x;
        let j0 = if j < i { j } else { j + 1 };
        assert(s[j0] == x);
    }
    assert forall|x: usize| s.to_set().contains(x) && x != s[i] implies s2.to_set().contains(x) by {
        let j = choose|j: int| 0 <= j < s.len() && s[j] == x;
        if j < i {
            assert(s2[j] == x);
        } else {
            assert(s2[j - 1] == x);
        }
    }
    assert(s2.to_set() =~= s.to_set().remove(s[i]));
}

/// Monotonicity: a work vector over more finishers is no smaller.
proof fn lemma_work_of_subset(
    avail: Seq<usize>,
    alloc: Seq<MatCell>,
    a: Seq<usize>,
    b: Seq<usize>,
    r: usize,
)
    requires
        a.no_duplicates(),
        b.no_duplicates(),
        a.to_set().subset_of(b.to_set()),
    ensures
        work_of(avail, alloc, a, r) <= work_of(avail, alloc, b, r),
    decreases a.len(),
{
    if a.len() == 0 {
        lemma_work_of_ge_avail(avail, alloc, b, r);
    } else {
        let t = a.last();
        assert(a.to_set().contains(t));
        assert(b.to_set().contains(t));
        let i = choose|i: int| 0 <= i < b.len() && b[i] == t;
        lemma_work_of_remove(avail, alloc, b, i, r);
        lemma_remove_distinct(b, i);
        assert(a.drop_last().no_duplicates());
        assert forall|x: usize| a.drop_last().to_set().contains(x) implies b.remove(
            i,
        ).to_set().contains(x) by {
            let j = choose|j: int| 0 <= j < a.drop_last().len() && a.drop_last()[j] == x;
            assert(a[j] == x);
            assert(x != t);
            assert(a.to_set().contains(x));
        }
        lemma_work_of_subset(avail, alloc, a.drop_last(), b.remove(i), r);
    }
}

/// The work vector grows by at most one machine word per finisher.
proof fn lemma_work_of_bound(
    avail: Seq<usize>,
    alloc: Seq<MatCell>,
    nres: nat,
    done: Seq<usize>,
    r: usize,
)
    requires
        cells_wf(alloc, nres),
        r < avail.len(),
    ensures
        work_of(avail, alloc, done, r) <= avail[r as int] + done.len() * (usize::MAX as int),
    decreases done.len(),
{
    if done.len() > 0 {
        lemma_work_of_bound(avail, alloc, nres, done.drop_last(), r);
        lemma_cell_cnt_le_max(alloc, nres, done.last(), r);
        assert((done.len() - 1) * (usize::MAX as int) + (usize::MAX as int) == done.len() * (
        usize::MAX as int)) by (nonlinear_arith);
    }
}

/// The least position of `s` whose element lies in `target`.
proof fn first_index_in(s: Seq<usize>, target: Set<usize>) -> (j: int)
    requires
        exists|i: int| 0 <= i < s.len() && target.contains(s[i]),
    ensures
        0 <= j < s.len(),
        target.contains(s[j]),
        forall|k: int| 0 <= k < j ==> !target.contains(s[k]),
    decreases s.len(),
{
    if target.contains(s[0]) {
        0
    } else {
        let i0 = choose|i: int| 0 <= i < s.len() && target.contains(s[i]);
        assert(s.drop_first()[i0 - 1] == s[i0]);
        let j1 = first_index_in(s.drop_first(), target);
        assert forall|k: int| 0 <= k < j1 + 1 implies !target.contains(s[k]) by {
            if k > 0 {
                assert(s[k] == s.drop_first()[k - 1]);
            }
        }
        j1 + 1
    }
}

/// If no pending thread fits the current work vector, no completion order
/// exists at all: the greedy elimination cannot get stuck on a safe state.
proof fn lemma_stuck_unsafe(
    avail: Seq<usize>,
    alloc: Seq<MatCell>,
    need: Seq<MatCell>,
    done: Seq<usize>,
    pending: Set<usize>,
)
    requires
        done.no_duplicates(),
        pending.len() > 0 || !pending.finite(),
        done.to_set().union(pending) == claimants(alloc, need),
        forall|x: usize| !(done.to_set().contains(x) && pending.contains(x)),
        forall|t: usize| pending.contains(t) ==> !fits(avail, alloc, need, t, done),
    ensures
        !banker_safe(avail, alloc, need),
{
    if banker_safe(avail, alloc, need) {
        let order = choose|order: Seq<usize>|
            feasible_order(avail, alloc, need, order) && order.to_set() == claimants(alloc, need);
        // some pending thread occurs in the order
        let t0 = pending.choose();
        assert(pending.contains(t0));
        assert(order.to_set().contains(t0));
        assert(exists|i: int| 0 <= i < order.len() && pending.contains(order[i])) by {
            let i = choose|i: int| 0 <= i < order.len() && order[i] == t0;
            assert(pending.contains(order[i]));
        }
        let j = first_index_in(order, pending);
        let t = order[j];
        // everything before position j is already done
        assert forall|x: usize| order.take(j).to_set().contains(x) implies done.to_set().contains(
            x,
        ) by {
            let k = choose|k: int| 0 <= k < j && order.take(j)[k] == x;
            assert(order[k] == x);
            assert(!pending.contains(x));
            assert(order.to_set().contains(x));
            assert(claimants(alloc, need).contains(x));
        }
        assert(order.take(j).no_duplicates());
        assert(fits(avail, alloc, need, t, order.take(j)));
        assert forall|r: usize| r < avail.len() implies cell_cnt(need, t, r) <= work_of(
            avail,
            alloc,
            done,
            r,
        ) by {
            lemma_work_of_subset(avail, alloc, order.take(j), done, r);
        }
        assert(fits(avail, alloc, need, t, done));
        assert(!fits(avail, alloc, need, t, done));
    }
}

/// Post-grant work vectors: granting one unit of `r` to `t` lowers the
/// available vector by that unit and raises `t`'s allocation by it, so a
/// work vector over finishers that include `t` is unchanged, and one over
/// finishers without `t` is lower by exactly that one unit.
proof fn lemma_work_of_grant(
    avail: Seq<usize>,
    alloc: Seq<MatCell>,
    avail2: Seq<usize>,
    alloc2: Seq<MatCell>,
    t: usize,
    r: usize,
    e: Seq<usize>,
    r2: usize,
)
    requires
        e.no_duplicates(),
        r < avail.len(),
        avail[r as int] >= 1,
        r2 < avail.len(),
        avail2.len() == avail.len(),
        avail2[r as int] == avail[r as int] - 1,
        forall|q: int| 0 <= q < avail.len() && q != r ==> avail2[q] == avail[q],
        forall|q: usize|
            cell_cnt(alloc2, t, q) == cell_cnt(alloc, t, q) + (if q == r {
                1nat
            } else {
                0nat
            }),
        forall|t2: usize, q: usize|
            t2 != t ==> cell_cnt(alloc2, t2, q) == cell_cnt(alloc, t2, q),
    ensures
        work_of(avail2, alloc2, e, r2) + (if r2 == r && !e.contains(t) {
            1nat
        } else {
            0nat
        }) == work_of(avail, alloc, e, r2),
    decreases e.len(),
{
    if e.len() == 0 {
        assert(!e.contains(t));
    } else {
        let d = e.drop_last();
        let u = e.last();
        assert(d.no_duplicates());
        assert(e.contains(t) <==> d.contains(t) || u == t) by {
            if e.contains(t) {
                let j = choose|j: int| 0 <= j < e.len() && e[j] == t;
                if j < e.len() - 1 {
                    assert(d[j] == t);
                }
            }
            if d.contains(t) {
                let j = choose|j: int| 0 <= j < d.len() && d[j] == t;
                assert(e[j] == t);
            }
        }
        if u == t {
            assert(!d.contains(t)) by {
                if d.contains(t) {
                    let j = choose|j: int| 0 <= j < d.len() && d[j] == t;
                    assert(e[j] == e[e.len() - 1]);
                }
            }
        }
        lemma_work_of_grant(avail, alloc, avail2, alloc2, t, r, d, r2);
    }
}

/// Safety monotonicity: when the check reports safe for a state in which
/// thread `t` requests exactly one unit of resource `r`, actually granting
/// that unit (available loses it, `t`'s allocation gains it, `t`'s need is
/// cleared) leaves a state from which a completion order still exists.
pub proof fn lemma_grant_preserves_safety(
    avail: Seq<usize>,
    alloc: Seq<MatCell>,
    need: Seq<MatCell>,
    avail2: Seq<usize>,
    alloc2: Seq<MatCell>,
    need2: Seq<MatCell>,
    t: usize,
    r: usize,
)
    requires
        banker_safe(avail, alloc, need),
        r < avail.len(),
        avail[r as int] >= 1,
        avail2.len() == avail.len(),
        avail2[r as int] == avail[r as int] - 1,
        forall|q: int| 0 <= q < avail.len() && q != r ==> avail2[q] == avail[q],
        cell_cnt(need, t, r) == 1,
        forall|q: usize|
            cell_cnt(alloc2, t, q) == cell_cnt(alloc, t, q) + (if q == r {
                1nat
            } else {
                0nat
            }),
        forall|t2: usize, q: usize|
            t2 != t ==> cell_cnt(alloc2, t2, q) == cell_cnt(alloc, t2, q),
        forall|q: usize| cell_cnt(need2, t, q) == 0,
        forall|t2: usize, q: usize|
            t2 != t ==> cell_cnt(need2, t2, q) == cell_cnt(need, t2, q),
        claimants(alloc2, need2) == claimants(alloc, need),
    ensures
        banker_safe(avail2, alloc2, need2),
{
    let order = choose|order: Seq<usize>|
        feasible_order(avail, alloc, need, order) && order.to_set() == claimants(alloc, need);
    // t is a claimant: it records a positive need
    assert(exists|j: int| 0 <= j < need.len() && need[j].0 == t && need[j].1 == r) by {
        if forall|j: int| 0 <= j < need.len() ==> !(need[j].0 == t && need[j].1 == r) {
            lemma_cell_cnt_absent(need, t, r);
        }
    }
    assert(tids_of(need).contains(t)) by {
        crate::matrix::lemma_tids_of_contains(need, t);
        let j = choose|j: int| 0 <= j < need.len() && need[j].0 == t && need[j].1 == r;
        assert(need[j].0 == t);
    }
    assert(order.to_set().contains(t));
    let i = choose|i: int| 0 <= i < order.len() && order[i] == t;
    let rest = order.remove(i);
    lemma_remove_distinct(order, i);
    let sigma = seq![t] + rest;
    assert(sigma.len() == order.len());
    assert(sigma[0] == t);
    assert(forall|k: int| 1 <= k < sigma.len() ==> sigma[k] == rest[k - 1]);
    // sigma is distinct
    assert forall|a: int, b: int| 0 <= a < b < sigma.len() implies sigma[a] != sigma[b] by {
        if a == 0 {
            assert(rest.to_set().contains(rest[b - 1]));
            assert(!rest.to_set().contains(t));
        }
    }
    // sigma covers the same claimants
    assert forall|x: usize| sigma.to_set().contains(x) implies order.to_set().contains(x) by {
        let k = choose|k: int| 0 <= k < sigma.len() && sigma[k] == x;
        if k >= 1 {
            assert(rest.to_set().contains(x));
        }
    }
    assert forall|x: usize| order.to_set().contains(x) implies sigma.to_set().contains(x) by {
        if x == t {
            assert(sigma[0] == x);
        } else {
            assert(rest.to_set().contains(x));
            let k = choose|k: int| 0 <= k < rest.len() && rest[k] == x;
            assert(sigma[k + 1] == x);
        }
    }
    assert(sigma.to_set() =~= order.to_set());
    // sigma is feasible in the post-grant state
    assert forall|k: int| 0 <= k < sigma.len() implies fits(
        avail2,
        alloc2,
        need2,
        sigma[k],
        #[trigger] sigma.take(k),
    ) by {
        if k == 0 {
            assert forall|q: usize| q < avail2.len() implies cell_cnt(need2, t, q) <= work_of(
                avail2,
                alloc2,
                sigma.take(0),
                q,
            ) by {
                assert(cell_cnt(need2, t, q) == 0);
            }
        } else {
            let u = sigma[k];
            assert(u == rest[k - 1]);
            assert(rest.to_set().contains(u));
            assert(u != t);
            let p = if k - 1 < i {
                k - 1
            } else {
                k
            };
            assert(order[p] == u);
            assert(fits(avail, alloc, need, order[p], order.take(p)));
            let pre = sigma.take(k);
            assert(pre.no_duplicates());
            assert(pre.contains(t)) by {
                assert(pre[0] == t);
            }
            assert(order.take(p).no_duplicates());
            // the old prefix is contained in the new one
            assert forall|x: usize| order.take(p).to_set().contains(x) implies
                pre.to_set().contains(x) by {
                let m = choose|m: int| 0 <= m < p && order[m] == x;
                if x == t {
                    assert(pre[0] == x);
                } else {
                    assert(m != i);
                    let m2 = if m < i {
                        m
                    } else {
                        m - 1
                    };
                    assert(rest[m2] == x);
                    assert(m2 < k - 1);
                    assert(pre[m2 + 1] == x);
                }
            }
            assert forall|q: usize| q < avail2.len() implies cell_cnt(need2, u, q) <= work_of(
                avail2,
                alloc2,
                pre,
                q,
            ) by {
                assert(cell_cnt(need2, u, q) == cell_cnt(need, u, q));
                assert(cell_cnt(need, u, q) <= work_of(avail, alloc, order.take(p), q));
                lemma_work_of_subset(avail, alloc, order.take(p), pre, q);
                lemma_work_of_grant(avail, alloc, avail2, alloc2, t, r, pre, q);
            }
        }
    }
    assert(feasible_order(avail2, alloc2, need2, sigma) && sigma.to_set() == claimants(
        alloc2,
        need2,
    ));
}


/// Safety monotonicity at the syscall level: the check is run on the
/// prospective state (the caller's single-unit request added to the need
/// matrix, nothing else recorded for that thread); when it reports safe
/// and a unit is available, performing the grant — one unit leaves the
/// available vector and enters the caller's allocation, the request is
/// consumed — leaves a state that is itself safe.
pub proof fn lemma_granted_request_still_safe(
    avail: Seq<usize>,
    alloc: Seq<MatCell>,
    need: Seq<MatCell>,
    t: usize,
    r: usize,
    nres: nat,
)
    requires
        cells_wf(alloc, nres),
        cells_wf(need, nres),
        avail.len() == nres,
        r < nres,
        avail[r as int] >= 1,
        avail[r as int] + col_sum(alloc, r) <= usize::MAX,
        forall|q: usize| cell_cnt(need, t, q) == 0,
        banker_safe(avail, alloc, cell_inc(need, t, r)),
    ensures
        banker_safe(
            avail.update(r as int, (avail[r as int] - 1) as usize),
            cell_inc(alloc, t, r),
            need,
        ),
{
    let avail2 = avail.update(r as int, (avail[r as int] - 1) as usize);
    let needp = cell_inc(need, t, r);
    let alloc2 = cell_inc(alloc, t, r);
    assert(cell_cnt(alloc, t, r) < usize::MAX) by {
        crate::matrix::lemma_cnt_le_col_sum(alloc, t, r);
    }
    crate::matrix::lemma_cell_inc_cnt(alloc, nres, t, r);
    crate::matrix::lemma_cell_inc_cnt(need, nres, t, r);
    // the claimants are unchanged by the grant
    assert(claimants(alloc2, need) =~= claimants(alloc, needp)) by {
        assert(tids_of(alloc2) == tids_of(alloc).insert(t));
        assert(tids_of(needp) == tids_of(need).insert(t));
    }
    lemma_grant_preserves_safety(avail, alloc, needp, avail2, alloc2, need, t, r);
}


/// No false positive for a lone claimant: when the requesting thread is
/// the only thread holding or requesting anything, and the unit it asks
/// for is available, the state is safe — sequential locking and
/// unlocking by a single thread is never rejected by the detector.
pub proof fn lemma_lone_claimant_safe(
    avail: Seq<usize>,
    alloc: Seq<MatCell>,
    need: Seq<MatCell>,
    t: usize,
)
    requires
        forall|x: usize| tids_of(alloc).contains(x) ==> x == t,
        forall|x: usize| tids_of(need).contains(x) ==> x == t,
        forall|r: usize| r < avail.len() ==> cell_cnt(need, t, r) <= avail[r as int],
    ensures
        banker_safe(avail, alloc, need),
{
    let lone = seq![t];
    assert(lone.no_duplicates());
    if claimants(alloc, need).contains(t) {
        assert forall|i: int| 0 <= i < lone.len() implies fits(
            avail,
            alloc,
            need,
            lone[i],
            #[trigger] lone.take(i),
        ) by {
            assert(lone.take(0) =~= Seq::<usize>::empty());
            assert forall|r: usize| r < avail.len() implies cell_cnt(need, t, r) <= work_of(
                avail,
                alloc,
                lone.take(0),
                r,
            ) by {}
        }
        assert forall|x: usize| #[trigger] claimants(alloc, need).contains(x) implies
            lone.to_set().contains(x) by {
            assert(x == t);
            assert(lone[0] == t);
        }
        assert forall|x: usize| #[trigger] lone.to_set().contains(x) implies claimants(
            alloc,
            need,
        ).contains(x) by {
            let k = choose|k: int| 0 <= k < lone.len() && lone[k] == x;
            assert(x == t);
        }
        assert(lone.to_set() =~= claimants(alloc, need));
        assert(feasible_order(avail, alloc, need, lone) && lone.to_set() == claimants(
            alloc,
            need,
        ));
    } else {
        let none = Seq::<usize>::empty();
        assert(none.no_duplicates());
        assert forall|x: usize| claimants(alloc, need).contains(x) implies false by {}
        assert(none.to_set() =~= claimants(alloc, need));
        assert(feasible_order(avail, alloc, need, none) && none.to_set() == claimants(
            alloc,
            need,
        ));
    }
}

/// True when every recorded need of `t` is covered by `work`.
fn thread_fits(need: &SparseMat, nres: usize, t: usize, work: &Vec<u128>) -> (b: bool)
    requires
        need.wf(nres as nat),
        work@.len() == nres,
    ensures
        b == row_fits(need.cells@, t, work@),
{
    let n = need.cells.len();
    let mut i: usize = 0;
    while i < n
        invariant
            need.wf(nres as nat),
            work@.len() == nres,
            i <= n == need.cells@.len(),
            forall|j: int|
                0 <= j < i && need.cells@[j].0 == t ==> need.cells@[j].2
                    <= work@[need.cells@[j].1 as int],
        decreases n - i,
    {
        let c = need.cells[i];
        if c.0 == t {
            if (c.2 as u128) > work[c.1] {
                proof {
                    lemma_cell_cnt_at(need.cells@, nres as nat, i as int);
                    assert(cell_cnt(need.cells@, t, c.1) > work@[c.1 as int]);
                }
                return false;
            }
        }
        i = i + 1;
    }
    proof {
        assert forall|r: usize| r < nres implies cell_cnt(need.cells@, t, r)
            <= work@[r as int] by {
            if exists|j: int|
                0 <= j < need.cells@.len() && need.cells@[j].0 == t && need.cells@[j].1 == r {
                let j = choose|j: int|
                    0 <= j < need.cells@.len() && need.cells@[j].0 == t && need.cells@[j].1 == r;
                lemma_cell_cnt_at(need.cells@, nres as nat, j);
            } else {
                lemma_cell_cnt_absent(need.cells@, t, r);
            }
        }
    }
    true
}

/// Credit the whole allocation row of `t` to the work vector.
fn credit_row(work: &mut Vec<u128>, alloc: &SparseMat, nres: usize, t: usize)
    requires
        alloc.wf(nres as nat),
        old(work)@.len() == nres,
        forall|r: int|
            0 <= r < nres ==> old(work)@[r] <= u128::MAX - (usize::MAX as u128),
    ensures
        final(work)@.len() == nres,
        forall|r: usize|
            r < nres ==> final(work)@[r as int] == old(work)@[r as int] + cell_cnt(
                alloc.cells@,
                t,
                r,
            ),
{
    let n = alloc.cells.len();
    let ghost w0 = work@;
    let mut i: usize = 0;
    while i < n
        invariant
            alloc.wf(nres as nat),
            work@.len() == nres,
            i <= n == alloc.cells@.len(),
            forall|r: int| 0 <= r < nres ==> w0[r] <= u128::MAX - (usize::MAX as u128),
            forall|r: usize|
                r < nres ==> work@[r as int] == w0[r as int] + cell_cnt(
                    alloc.cells@.take(i as int),
                    t,
                    r,
                ),
        decreases n - i,
    {
        let c = alloc.cells[i];
        proof {
            assert(alloc.cells@.take(i + 1) =~= alloc.cells@.take(i as int).push(c));
            assert forall|r: usize| r < nres implies #[trigger] cell_cnt(
                alloc.cells@.take(i + 1),
                t,
                r,
            ) <= usize::MAX by {
                lemma_mat_sum_take_le(alloc.cells@, pair_weight(t, r), i + 1);
                lemma_cell_cnt_le_max(alloc.cells@, nres as nat, t, r);
            }
            assert forall|r: usize| r < nres implies #[trigger] cell_cnt(
                alloc.cells@.take(i + 1),
                t,
                r,
            ) == cell_cnt(alloc.cells@.take(i as int), t, r) + (pair_weight(t, r))(c) by {
                lemma_mat_sum_push(alloc.cells@.take(i as int), pair_weight(t, r), c);
            }
        }
        if c.0 == t {
            proof {
                assert((pair_weight(t, c.1))(c) == c.2 as nat);
                assert(work@[c.1 as int] == w0[c.1 as int] + cell_cnt(
                    alloc.cells@.take(i as int),
                    t,
                    c.1,
                ));
                assert(cell_cnt(alloc.cells@.take(i + 1), t, c.1) <= usize::MAX);
            }
            let w = work[c.1];
            work[c.1] = w + (c.2 as u128);
        }
        i = i + 1;
    }
    proof {
        assert(alloc.cells@.take(n as int) =~= alloc.cells@);
    }
}

/// First pending thread whose whole need the work vector covers.
fn find_eligible(pending: &Vec<usize>, need: &SparseMat, nres: usize, work: &Vec<u128>) -> (ret:
    Option<usize>)
    requires
        need.wf(nres as nat),
        work@.len() == nres,
    ensures
        match ret {
            Some(j) => j < pending@.len() && row_fits(need.cells@, pending@[j as int], work@),
            None => forall|k: int|
                0 <= k < pending@.len() ==> !row_fits(need.cells@, #[trigger] pending@[k], work@),
        },
{
    let mut j: usize = 0;
    while j < pending.len()
        invariant
            need.wf(nres as nat),
            work@.len() == nres,
            j <= pending@.len(),
            forall|k: int|
                0 <= k < j ==> !row_fits(need.cells@, #[trigger] pending@[k], work@),
        decreases pending@.len() - j,
    {
        if thread_fits(need, nres, pending[j], work) {
            return Some(j);
        }
        j = j + 1;
    }
    None
}

/// Collect the distinct claimant thread ids of both matrices.
fn collect_claimants(alloc: &SparseMat, need: &SparseMat) -> (v: Vec<usize>)
    ensures
        v@.no_duplicates(),
        v@.to_set() == claimants(alloc.cells@, need.cells@),
{
    let mut v: Vec<usize> = Vec::new();
    let mut i: usize = 0;
    while i < alloc.cells.len()
        invariant
            i <= alloc.cells@.len(),
            v@.no_duplicates(),
            v@.to_set() == tids_of(alloc.cells@.take(i as int)),
        decreases alloc.cells@.len() - i,
    {
        let t = alloc.cells[i].0;
        proof {
            assert(alloc.cells@.take(i + 1) =~= alloc.cells@.take(i as int).push(
                alloc.cells@[i as int],
            ));
            crate::matrix::lemma_tids_of_push(alloc.cells@.take(i as int), alloc.cells@[i as int]);
        }
        let mut seen = false;
        let mut k: usize = 0;
        while k < v.len()
            invariant
                k <= v@.len(),
                seen == exists|m: int| 0 <= m < k && v@[m] == t,
            decreases v@.len() - k,
        {
            if v[k] == t {
                seen = true;
            }
            k = k + 1;
        }
        if !seen {
            let ghost vold = v@;
            v.push(t);
            proof {
                vold.lemma_push_to_set_commute(t);
                assert(!vold.contains(t));
                assert forall|a: int, b: int| 0 <= a < b < v@.len() implies v@[a] != v@[b] by {
                    if b == v@.len() - 1 {
                        assert(vold[a] == v@[a]);
                        assert(!vold.contains(t));
                    }
                }
            }
        } else {
            proof {
                assert(v@.to_set().contains(t));
                assert(v@.to_set() =~= v@.to_set().insert(t));
            }
        }
        i = i + 1;
    }
    proof {
        assert(alloc.cells@.take(alloc.cells@.len() as int) =~= alloc.cells@);
    }
    let mut i: usize = 0;
    while i < need.cells.len()
        invariant
            i <= need.cells@.len(),
            v@.no_duplicates(),
            v@.to_set() == tids_of(alloc.cells@).union(tids_of(need.cells@.take(i as int))),
        decreases need.cells@.len() - i,
    {
        let t = need.cells[i].0;
        proof {
            assert(need.cells@.take(i + 1) =~= need.cells@.take(i as int).push(
                need.cells@[i as int],
            ));
            crate::matrix::lemma_tids_of_push(need.cells@.take(i as int), need.cells@[i as int]);
        }
        let mut seen = false;
        let mut k: usize = 0;
        while k < v.len()
            invariant
                k <= v@.len(),
                seen == exists|m: int| 0 <= m < k && v@[m] == t,
            decreases v@.len() - k,
        {
            if v[k] == t {
                seen = true;
            }
            k = k + 1;
        }
        if !seen {
            let ghost vold = v@;
            v.push(t);
            proof {
                vold.lemma_push_to_set_commute(t);
                assert(!vold.contains(t));
                assert forall|a: int, b: int| 0 <= a < b < v@.len() implies v@[a] != v@[b] by {
                    if b == v@.len() - 1 {
                        assert(vold[a] == v@[a]);
                        assert(!vold.contains(t));
                    }
                }
            }
        } else {
            proof {
                assert(v@.to_set().contains(t));
                assert(v@.to_set() =~= v@.to_set().insert(t));
            }
        }
        i = i + 1;
    }
    proof {
        assert(need.cells@.take(need.cells@.len() as int) =~= need.cells@);
    }
    v
}

/// Decide whether the state (available, allocation, need) is safe: whether
/// an order exists in which every claimant thread can run to completion.
///
/// Used by the blocking-acquisition syscalls before they let the caller
/// block; an unsafe verdict makes them reject the request instead.
pub fn deadlock_check(avail: &Vec<usize>, alloc: &SparseMat, need: &SparseMat) -> (safe: bool)
    requires
        alloc.wf(avail@.len() as nat),
        need.wf(avail@.len() as nat),
    ensures
        safe == banker_safe(avail@, alloc.cells@, need.cells@),
{
    let nres = avail.len();
    let mut work: Vec<u128> = Vec::new();
    let mut i: usize = 0;
    while i < nres
        invariant
            i <= nres == avail@.len(),
            work@.len() == i,
            forall|r: int| 0 <= r < i ==> work@[r] == avail@[r] as u128,
        decreases nres - i,
    {
        work.push(avail[i] as u128);
        i = i + 1;
    }
    let mut pending: Vec<usize> = collect_claimants(alloc, need);
    let n_claim: usize = pending.len();
    let ghost n0 = n_claim as nat;
    let ghost mut done: Seq<usize> = Seq::empty();
    proof {
        assert(done.to_set() =~= Set::<usize>::empty());
        assert(done.to_set().union(pending@.to_set()) =~= pending@.to_set());
    }
    while pending.len() > 0
        invariant
            avail@.len() == nres,
            alloc.wf(nres as nat),
            need.wf(nres as nat),
            work@.len() == nres,
            pending@.no_duplicates(),
            done.no_duplicates(),
            done.len() + pending@.len() == n0 <= usize::MAX,
            forall|x: usize| !(done.to_set().contains(x) && pending@.to_set().contains(x)),
            done.to_set().union(pending@.to_set()) == claimants(alloc.cells@, need.cells@),
            feasible_order(avail@, alloc.cells@, need.cells@, done),
            forall|r: usize|
                r < nres ==> work@[r as int] as nat == work_of(avail@, alloc.cells@, done, r),
        decreases pending@.len(),
    {
        match find_eligible(&pending, need, nres, &work) {
            Some(j) => {
                let t = pending[j];
                proof {
                    // the chosen thread fits the current prefix
                    assert(row_fits(need.cells@, t, work@));
                    assert forall|r: usize| r < avail@.len() implies cell_cnt(need.cells@, t, r)
                        <= work_of(avail@, alloc.cells@, done, r) by {
                        assert(cell_cnt(need.cells@, t, r) <= work@[r as int]);
                    }
                    assert(fits(avail@, alloc.cells@, need.cells@, t, done));
                    // headroom for crediting one more allocation row
                    assert forall|r: int|
                        0 <= r < nres implies work@[r] <= u128::MAX - (usize::MAX as u128) by {
                        let ru = r as usize;
                        lemma_work_of_bound(avail@, alloc.cells@, nres as nat, done, ru);
                        assert(work@[r] as nat == work_of(avail@, alloc.cells@, done, ru));
                        assert(avail@[r] <= usize::MAX);
                        assert(done.len() <= n0 - 1);
                        assert(done.len() * (usize::MAX as int) <= (n0 - 1) * (usize::MAX as int))
                            by (nonlinear_arith)
                            requires
                                0 <= done.len() <= n0 - 1,
                        ;
                        assert((n0 - 1) * (usize::MAX as int) <= (usize::MAX as int) * (usize::MAX
                            as int)) by (nonlinear_arith)
                            requires
                                0 <= n0 - 1 <= usize::MAX as int,
                        ;
                    }
                }
                credit_row(&mut work, alloc, nres, t);
                let ghost done0 = done;
                let ghost pend0 = pending@;
                pending.remove(j);
                proof {
                    lemma_remove_distinct(pend0, j as int);
                    done = done0.push(t);
                    // the extended prefix is still distinct and disjoint
                    assert(!done0.to_set().contains(t));
                    assert(done.drop_last() =~= done0);
                    assert forall|a: int, b: int| 0 <= a < b < done.len() implies done[a]
                        != done[b] by {
                        if b < done.len() - 1 {
                            assert(done0[a] != done0[b]);
                        } else {
                            assert(done0.to_set().contains(done0[a]));
                        }
                    }
                    done0.lemma_push_to_set_commute(t);
                    assert(done.to_set() == done0.to_set().insert(t));
                    assert(done.to_set().union(pending@.to_set()) =~= done0.to_set().union(
                        pend0.to_set(),
                    ));
                    // feasibility of the extended prefix
                    assert forall|i2: int| 0 <= i2 < done.len() implies fits(
                        avail@,
                        alloc.cells@,
                        need.cells@,
                        done[i2],
                        #[trigger] done.take(i2),
                    ) by {
                        if i2 < done.len() - 1 {
                            assert(done.take(i2) =~= done0.take(i2));
                            assert(fits(avail@, alloc.cells@, need.cells@, done0[i2], done0.take(
                                i2,
                            )));
                        } else {
                            assert(done.take(i2) =~= done0);
                            assert(fits(avail@, alloc.cells@, need.cells@, t, done0));
                        }
                    }
                    // the work vector tracks the spec work
                    assert forall|r: usize| r < nres implies work@[r as int] as nat == work_of(
                        avail@,
                        alloc.cells@,
                        done,
                        r,
                    ) by {
                        assert(done.drop_last() =~= done0);
                        assert(done.last() == t);
                    }
                }
            },
            None => {
                proof {
                    assert forall|t: usize| pending@.to_set().contains(t) implies !fits(
                        avail@,
                        alloc.cells@,
                        need.cells@,
                        t,
                        done,
                    ) by {
                        let k = choose|k: int| 0 <= k < pending@.len() && pending@[k] == t;
                        assert(!row_fits(need.cells@, pending@[k], work@));
                        let r = choose|r: usize|
                            r < work@.len() && cell_cnt(need.cells@, t, r) > work@[r as int];
                        assert(cell_cnt(need.cells@, t, r) > work_of(avail@, alloc.cells@, done, r));
                    }
                    pending@.unique_seq_to_set();
                    lemma_stuck_unsafe(
                        avail@,
                        alloc.cells@,
                        need.cells@,
                        done,
                        pending@.to_set(),
                    );
                }
                return false;
            },
        }
    }
    proof {
        assert(pending@.to_set() =~= Set::<usize>::empty());
        assert(done.to_set() =~= claimants(alloc.cells@, need.cells@));
        assert(feasible_order(avail@, alloc.cells@, need.cells@, done) && done.to_set()
            == claimants(alloc.cells@, need.cells@));
    }
    true
}

} // verus!
