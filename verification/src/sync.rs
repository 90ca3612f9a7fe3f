//! Synchronization syscalls.
//!
//! The handlers run the protocol of the synchronization manager over a
//! process's [`ProcState`]; the actual blocking primitives and the
//! scheduler are the dispatch loop's business.  A blocking acquisition
//! (`sys_mutex_lock`, `sys_semaphore_down`) records the caller's need,
//! runs the safety check when detection is on, and either completes at
//! once (a unit is available), rejects the request (`DeadlockRejected`,
//! surfaced as the `-0xdead` sentinel, with the speculative need entry
//! rolled back), or reports `WouldBlock`: the dispatch loop then blocks
//! the thread on the primitive and calls the matching `..._complete`
//! function when the unit is granted.
//!
//! Hardened error handling: a handle that names no live slot, and a
//! release (`sys_mutex_unlock`, `sys_semaphore_up`) by a thread that holds
//! no unit of the resource, return -1 and leave the state untouched,
//! rather than faulting or silently underflowing; this also keeps the
//! conservation invariant (available plus allocated is constant) intact.

use vstd::prelude::*;

use crate::banker::banker_safe;
use crate::banker::lemma_granted_request_still_safe;
use crate::banker::deadlock_check;
use crate::matrix::cell_cnt;
use crate::matrix::cell_dec;
use crate::matrix::cell_inc;
use crate::matrix::col_sum;
use crate::matrix::lemma_cnt_le_col_sum;
use crate::matrix::lemma_mat_sum_zero;
use crate::matrix::col_weight;
use crate::state::AcquireOutcome;
use crate::state::CondvarObj;
use crate::state::MutexKind;
use crate::state::ProcState;
use crate::state::first_free;

verus! {

/// The two states agree on every synchronization field.
pub open spec fn states_eq(a: &ProcState, b: &ProcState) -> bool {
    non_mutex_eq(a, b) && non_sem_eq(a, b)
}

/// The two states agree on everything but the mutex side.
pub open spec fn non_mutex_eq(a: &ProcState, b: &ProcState) -> bool {
    &&& a.semaphore_list@ == b.semaphore_list@
    &&& a.sem_available@ == b.sem_available@
    &&& a.sem_allocation.cells@ == b.sem_allocation.cells@
    &&& a.sem_need.cells@ == b.sem_need.cells@
    &&& a.condvar_list@ == b.condvar_list@
    &&& a.deadlock_detect_enabled == b.deadlock_detect_enabled
}

/// The two states agree on everything but the semaphore side.
pub open spec fn non_sem_eq(a: &ProcState, b: &ProcState) -> bool {
    &&& a.mutex_list@ == b.mutex_list@
    &&& a.mutex_available@ == b.mutex_available@
    &&& a.mutex_allocation.cells@ == b.mutex_allocation.cells@
    &&& a.mutex_need.cells@ == b.mutex_need.cells@
    &&& a.condvar_list@ == b.condvar_list@
    &&& a.deadlock_detect_enabled == b.deadlock_detect_enabled
}

/// Sleep: the caller is blocked until the returned expiry (milliseconds).
///
/// The decision part of the syscall computes the absolute expiry time from
/// the timer's current reading; the dispatch loop programs the timer with
/// it and blocks the thread.  The syscall's return value is the first
/// component: always 0.
pub fn sys_sleep(now_ms: usize, ms: usize) -> (r: (isize, usize))
    requires
        now_ms + ms <= usize::MAX,
    ensures
        r.0 == 0,
        r.1 == now_ms + ms,
{
    (0, now_ms + ms)
}

/// Create a mutex (spinning or blocking) and return its handle: the lowest
/// free registry slot, or a fresh slot when none is free.  The new mutex
/// starts with its single unit available.
pub fn sys_mutex_create(state: &mut ProcState, blocking: bool) -> (id: isize)
    requires
        old(state).wf(),
        old(state).mutex_list@.len() < isize::MAX,
    ensures
        final(state).wf(),
        0 <= id <= old(state).mutex_list@.len(),
        ({
            let k = if blocking {
                MutexKind::Blocking
            } else {
                MutexKind::Spin
            };
            let n = old(state).mutex_list@.len() as int;
            if id < n {
                &&& old(state).mutex_list@[id as int] is None
                &&& forall|j: int| 0 <= j < id ==> old(state).mutex_list@[j] is Some
                &&& final(state).mutex_list@ == old(state).mutex_list@.update(id as int, Some(k))
                &&& final(state).mutex_available@ == old(state).mutex_available@.update(
                    id as int,
                    1usize,
                )
            } else {
                &&& id == n
                &&& forall|j: int| 0 <= j < n ==> old(state).mutex_list@[j] is Some
                &&& final(state).mutex_list@ == old(state).mutex_list@.push(Some(k))
                &&& final(state).mutex_available@ == old(state).mutex_available@.push(1usize)
            }
        }),
        final(state).mutex_allocation.cells@ == old(state).mutex_allocation.cells@,
        final(state).mutex_need.cells@ == old(state).mutex_need.cells@,
        non_mutex_eq(final(state), old(state)),
        final(state).mutex_units(id as usize) == 1,
        forall|r: usize|
            r < old(state).mutex_list@.len() && r != id as usize
                ==> final(state).mutex_units(r) == old(state).mutex_units(r),
{
    let kind = if blocking {
        MutexKind::Blocking
    } else {
        MutexKind::Spin
    };
    match first_free(&state.mutex_list) {
        Some(id) => {
            state.mutex_list[id] = Some(kind);
            state.mutex_available[id] = 1;
            proof {
                assert(old(state).mutex_slot_ok(id));
                assert(col_sum(old(state).mutex_allocation.cells@, id) == 0);
                assert forall|r: usize| r < state.mutex_list@.len() implies #[trigger] state
                    .mutex_slot_ok(r) by {
                    assert(old(state).mutex_slot_ok(r));
                }
                assert forall|r: usize|
                    r < state.mutex_list@.len() implies #[trigger] state.mutex_units(r)
                    <= usize::MAX by {
                    if r != id {
                        assert(old(state).mutex_units(r) <= usize::MAX);
                    }
                }
                assert forall|r: usize|
                    r < old(state).mutex_list@.len() && r != id implies state.mutex_units(r)
                    == old(state).mutex_units(r) by {}
                crate::state::lemma_sem_wf_congruent(old(state), state);
            }
            id as isize
        },
        None => {
            state.mutex_list.push(Some(kind));
            state.mutex_available.push(1);
            let id = state.mutex_list.len() - 1;
            proof {
                assert forall|i: int|
                    0 <= i < state.mutex_allocation.cells@.len() implies (col_weight(
                    id,
                ))(state.mutex_allocation.cells@[i]) == 0 by {}
                lemma_mat_sum_zero(state.mutex_allocation.cells@, col_weight(id));
                assert forall|r: usize| r < state.mutex_list@.len() implies #[trigger] state
                    .mutex_slot_ok(r) by {
                    if r < id {
                        assert(old(state).mutex_slot_ok(r));
                        assert(state.mutex_available@[r as int] == old(
                            state,
                        ).mutex_available@[r as int]);
                    }
                }
                assert forall|r: usize|
                    r < state.mutex_list@.len() implies #[trigger] state.mutex_units(r)
                    <= usize::MAX by {
                    if r < id {
                        assert(old(state).mutex_units(r) <= usize::MAX);
                        assert(state.mutex_available@[r as int] == old(
                            state,
                        ).mutex_available@[r as int]);
                    }
                }
                assert forall|r: usize|
                    r < old(state).mutex_list@.len() && r != id implies state.mutex_units(r)
                    == old(state).mutex_units(r) by {
                    assert(state.mutex_available@[r as int] == old(
                        state,
                    ).mutex_available@[r as int]);
                }
                crate::state::lemma_sem_wf_congruent(old(state), state);
            }
            id as isize
        },
    }
}


/// Attempt to lock a mutex for thread `tid`.
///
/// Protocol: record the intent as a need entry; when detection is on, run
/// the safety check over the prospective state (the recorded needs plus
/// this request) and reject the request outright when no completion order
/// would exist, leaving the state as if the request had never been made;
/// otherwise grant at once when the unit is available, or report
/// `WouldBlock` with the need left recorded while the thread waits.
///
/// Total units of every mutex are conserved, whatever the outcome.
pub fn sys_mutex_lock(state: &mut ProcState, tid: usize, mutex_id: usize) -> (ret: AcquireOutcome)
    requires
        old(state).wf(),
        old(state).mutex_need.cnt(tid, mutex_id) < usize::MAX,
    ensures
        final(state).wf(),
        (ret == AcquireOutcome::BadHandle) == !old(state).mutex_live(mutex_id),
        (ret == AcquireOutcome::DeadlockRejected) == (old(state).mutex_live(mutex_id) && old(
            state,
        ).deadlock_detect_enabled && !banker_safe(
            old(state).mutex_available@,
            old(state).mutex_allocation.cells@,
            cell_inc(old(state).mutex_need.cells@, tid, mutex_id),
        )),
        ret == AcquireOutcome::BadHandle || ret == AcquireOutcome::DeadlockRejected ==> states_eq(
            final(state),
            old(state),
        ),
        (ret == AcquireOutcome::Granted) == (old(state).mutex_live(mutex_id) && !(ret
            == AcquireOutcome::DeadlockRejected) && old(
            state,
        ).mutex_available@[mutex_id as int] >= 1),
        ret == AcquireOutcome::Granted ==> final(state).mutex_available@ == old(
            state,
        ).mutex_available@.update(
            mutex_id as int,
            (old(state).mutex_available@[mutex_id as int] - 1) as usize,
        ) && final(state).mutex_allocation.cells@ == cell_inc(
            old(state).mutex_allocation.cells@,
            tid,
            mutex_id,
        ) && final(state).mutex_need.cells@ == old(state).mutex_need.cells@,
        (ret == AcquireOutcome::WouldBlock) == (old(state).mutex_live(mutex_id) && !(ret
            == AcquireOutcome::DeadlockRejected) && old(
            state,
        ).mutex_available@[mutex_id as int] == 0),
        ret == AcquireOutcome::WouldBlock ==> final(state).mutex_need.cells@ == cell_inc(
            old(state).mutex_need.cells@,
            tid,
            mutex_id,
        ) && final(state).mutex_available@ == old(state).mutex_available@ && final(state).mutex_allocation.cells@ == old(state).mutex_allocation.cells@,
        final(state).mutex_list@ == old(state).mutex_list@,
        non_mutex_eq(final(state), old(state)),
        forall|r: usize|
            r < old(state).mutex_list@.len() ==> final(state).mutex_units(r) == old(
                state,
            ).mutex_units(r),
{
    let nres = state.mutex_list.len();
    if mutex_id >= nres {
        return AcquireOutcome::BadHandle;
    }
    if state.mutex_list[mutex_id].is_none() {
        return AcquireOutcome::BadHandle;
    }
    if state.deadlock_detect_enabled {
        let mut need_plus = state.mutex_need.dup();
        need_plus.inc_unit(nres, tid, mutex_id);
        let safe = deadlock_check(&state.mutex_available, &state.mutex_allocation, &need_plus);
        if !safe {
            return AcquireOutcome::DeadlockRejected;
        }
    }
    let avail = state.mutex_available[mutex_id];
    if avail >= 1 {
        state.mutex_available[mutex_id] = avail - 1;
        proof {
            lemma_cnt_le_col_sum(state.mutex_allocation.cells@, tid, mutex_id);
            assert(old(state).mutex_units(mutex_id) <= usize::MAX);
        }
        state.mutex_allocation.inc_unit(nres, tid, mutex_id);
        proof {
            assert forall|r: usize| r < state.mutex_list@.len() implies #[trigger] state
                .mutex_slot_ok(r) by {
                assert(old(state).mutex_slot_ok(r));
            }
            assert forall|r: usize|
                r < state.mutex_list@.len() implies #[trigger] state.mutex_units(r)
                <= usize::MAX by {
                assert(old(state).mutex_units(r) <= usize::MAX);
            }
            assert forall|r: usize|
                r < old(state).mutex_list@.len() implies state.mutex_units(r) == old(
                state,
            ).mutex_units(r) by {
                assert(old(state).mutex_units(r) <= usize::MAX);
            }
            crate::state::lemma_sem_wf_congruent(old(state), state);
        }
        AcquireOutcome::Granted
    } else {
        state.mutex_need.inc_unit(nres, tid, mutex_id);
        proof {
            assert forall|r: usize| r < state.mutex_list@.len() implies #[trigger] state
                .mutex_slot_ok(r) by {
                assert(old(state).mutex_slot_ok(r));
            }
            assert forall|r: usize|
                r < state.mutex_list@.len() implies #[trigger] state.mutex_units(r)
                <= usize::MAX by {
                assert(old(state).mutex_units(r) <= usize::MAX);
            }
            assert forall|r: usize|
                r < old(state).mutex_list@.len() implies state.mutex_units(r) == old(
                state,
            ).mutex_units(r) by {
                assert(old(state).mutex_units(r) <= usize::MAX);
            }
            crate::state::lemma_sem_wf_congruent(old(state), state);
        }
        AcquireOutcome::WouldBlock
    }
}

/// Complete a mutex acquisition after the blocked thread was woken: the
/// unit became available, so move it from the caller's recorded need into
/// its allocation.  The dispatch loop calls this when the primitive grants
/// the lock to a thread whose `sys_mutex_lock` reported `WouldBlock`.
pub fn mutex_lock_complete(state: &mut ProcState, tid: usize, mutex_id: usize)
    requires
        old(state).wf(),
        old(state).mutex_live(mutex_id),
        old(state).mutex_need.cnt(tid, mutex_id) >= 1,
        old(state).mutex_available@[mutex_id as int] >= 1,
    ensures
        final(state).wf(),
        final(state).mutex_available@ == old(state).mutex_available@.update(
            mutex_id as int,
            (old(state).mutex_available@[mutex_id as int] - 1) as usize,
        ),
        final(state).mutex_allocation.cells@ == cell_inc(
            old(state).mutex_allocation.cells@,
            tid,
            mutex_id,
        ),
        final(state).mutex_need.cells@ == cell_dec(old(state).mutex_need.cells@, tid, mutex_id),
        final(state).mutex_list@ == old(state).mutex_list@,
        non_mutex_eq(final(state), old(state)),
        forall|r: usize|
            r < old(state).mutex_list@.len() ==> final(state).mutex_units(r) == old(
                state,
            ).mutex_units(r),
{
    let nres = state.mutex_list.len();
    let avail = state.mutex_available[mutex_id];
    state.mutex_available[mutex_id] = avail - 1;
    proof {
        lemma_cnt_le_col_sum(state.mutex_allocation.cells@, tid, mutex_id);
        assert(old(state).mutex_units(mutex_id) <= usize::MAX);
    }
    state.mutex_allocation.inc_unit(nres, tid, mutex_id);
    state.mutex_need.dec_unit(nres, tid, mutex_id);
    proof {
        assert forall|r: usize| r < state.mutex_list@.len() implies #[trigger] state.mutex_slot_ok(
            r,
        ) by {
            assert(old(state).mutex_slot_ok(r));
        }
        assert forall|r: usize| r < state.mutex_list@.len() implies #[trigger] state.mutex_units(r)
            <= usize::MAX by {
            assert(old(state).mutex_units(r) <= usize::MAX);
        }
        assert forall|r: usize|
            r < old(state).mutex_list@.len() implies state.mutex_units(r) == old(
            state,
        ).mutex_units(r) by {
            assert(old(state).mutex_units(r) <= usize::MAX);
        }
        crate::state::lemma_sem_wf_congruent(old(state), state);
    }
}

/// Unlock a mutex held by thread `tid`: give the unit back to the
/// available vector and drop it from the caller's allocation.  Returns 0,
/// or -1 when the handle is dead or the caller holds no unit of it (the
/// state is then untouched).
pub fn sys_mutex_unlock(state: &mut ProcState, tid: usize, mutex_id: usize) -> (r: isize)
    requires
        old(state).wf(),
    ensures
        final(state).wf(),
        (r == 0) == (old(state).mutex_live(mutex_id) && old(state).mutex_allocation.cnt(
            tid,
            mutex_id,
        ) >= 1),
        r != 0 ==> r == -1 && states_eq(final(state), old(state)),
        r == 0 ==> final(state).mutex_available@ == old(state).mutex_available@.update(
            mutex_id as int,
            (old(state).mutex_available@[mutex_id as int] + 1) as usize,
        ) && final(state).mutex_allocation.cells@ == cell_dec(
            old(state).mutex_allocation.cells@,
            tid,
            mutex_id,
        ) && final(state).mutex_need.cells@ == old(state).mutex_need.cells@,
        final(state).mutex_list@ == old(state).mutex_list@,
        non_mutex_eq(final(state), old(state)),
        forall|r2: usize|
            r2 < old(state).mutex_list@.len() ==> final(state).mutex_units(r2) == old(
                state,
            ).mutex_units(r2),
{
    let nres = state.mutex_list.len();
    if mutex_id >= nres {
        return -1;
    }
    if state.mutex_list[mutex_id].is_none() {
        return -1;
    }
    let held = state.mutex_allocation.get_units(nres, tid, mutex_id);
    if held == 0 {
        return -1;
    }
    proof {
        lemma_cnt_le_col_sum(state.mutex_allocation.cells@, tid, mutex_id);
        assert(old(state).mutex_units(mutex_id) <= usize::MAX);
    }
    state.mutex_allocation.dec_unit(nres, tid, mutex_id);
    let avail = state.mutex_available[mutex_id];
    state.mutex_available[mutex_id] = avail + 1;
    proof {
        assert forall|r2: usize| r2 < state.mutex_list@.len() implies #[trigger] state
            .mutex_slot_ok(r2) by {
            assert(old(state).mutex_slot_ok(r2));
        }
        assert forall|r2: usize|
            r2 < state.mutex_list@.len() implies #[trigger] state.mutex_units(r2)
            <= usize::MAX by {
            assert(old(state).mutex_units(r2) <= usize::MAX);
        }
        assert forall|r2: usize|
            r2 < old(state).mutex_list@.len() implies state.mutex_units(r2) == old(
            state,
        ).mutex_units(r2) by {
            assert(old(state).mutex_units(r2) <= usize::MAX);
        }
        crate::state::lemma_sem_wf_congruent(old(state), state);
    }
    0
}


/// Create a semaphore with `res_count` initial units and return its
/// handle: the lowest free registry slot, or a fresh slot when none is
/// free.  The slot remembers the initial unit count.
pub fn sys_semaphore_create(state: &mut ProcState, res_count: usize) -> (id: isize)
    requires
        old(state).wf(),
        old(state).semaphore_list@.len() < isize::MAX,
    ensures
        final(state).wf(),
        0 <= id <= old(state).semaphore_list@.len(),
        ({
            let n = old(state).semaphore_list@.len() as int;
            if id < n {
                &&& old(state).semaphore_list@[id as int] is None
                &&& forall|j: int| 0 <= j < id ==> old(state).semaphore_list@[j] is Some
                &&& final(state).semaphore_list@ == old(state).semaphore_list@.update(
                    id as int,
                    Some(res_count),
                )
                &&& final(state).sem_available@ == old(state).sem_available@.update(
                    id as int,
                    res_count,
                )
            } else {
                &&& id == n
                &&& forall|j: int| 0 <= j < n ==> old(state).semaphore_list@[j] is Some
                &&& final(state).semaphore_list@ == old(state).semaphore_list@.push(
                    Some(res_count),
                )
                &&& final(state).sem_available@ == old(state).sem_available@.push(res_count)
            }
        }),
        final(state).sem_allocation.cells@ == old(state).sem_allocation.cells@,
        final(state).sem_need.cells@ == old(state).sem_need.cells@,
        non_sem_eq(final(state), old(state)),
        final(state).sem_units(id as usize) == res_count,
        forall|r: usize|
            r < old(state).semaphore_list@.len() && r != id as usize
                ==> final(state).sem_units(r) == old(state).sem_units(r),
{
    match first_free(&state.semaphore_list) {
        Some(id) => {
            state.semaphore_list[id] = Some(res_count);
            state.sem_available[id] = res_count;
            proof {
                assert(old(state).sem_slot_ok(id));
                assert(col_sum(old(state).sem_allocation.cells@, id) == 0);
                assert forall|r: usize| r < state.semaphore_list@.len() implies #[trigger] state
                    .sem_slot_ok(r) by {
                    assert(old(state).sem_slot_ok(r));
                }
                assert forall|r: usize|
                    r < state.semaphore_list@.len() implies #[trigger] state.sem_units(r)
                    <= usize::MAX by {
                    if r != id {
                        assert(old(state).sem_units(r) <= usize::MAX);
                    }
                }
                assert forall|r: usize|
                    r < old(state).semaphore_list@.len() && r != id implies state.sem_units(r)
                    == old(state).sem_units(r) by {}
                crate::state::lemma_mutex_wf_congruent(old(state), state);
            }
            id as isize
        },
        None => {
            state.semaphore_list.push(Some(res_count));
            state.sem_available.push(res_count);
            let id = state.semaphore_list.len() - 1;
            proof {
                assert forall|i: int|
                    0 <= i < state.sem_allocation.cells@.len() implies (col_weight(
                    id,
                ))(state.sem_allocation.cells@[i]) == 0 by {}
                lemma_mat_sum_zero(state.sem_allocation.cells@, col_weight(id));
                assert forall|r: usize| r < state.semaphore_list@.len() implies #[trigger] state
                    .sem_slot_ok(r) by {
                    if r < id {
                        assert(old(state).sem_slot_ok(r));
                        assert(state.sem_available@[r as int] == old(
                            state,
                        ).sem_available@[r as int]);
                    }
                }
                assert forall|r: usize|
                    r < state.semaphore_list@.len() implies #[trigger] state.sem_units(r)
                    <= usize::MAX by {
                    if r < id {
                        assert(old(state).sem_units(r) <= usize::MAX);
                        assert(state.sem_available@[r as int] == old(
                            state,
                        ).sem_available@[r as int]);
                    }
                }
                assert forall|r: usize|
                    r < old(state).semaphore_list@.len() && r != id implies state.sem_units(r)
                    == old(state).sem_units(r) by {
                    assert(state.sem_available@[r as int] == old(state).sem_available@[r as int]);
                }
                crate::state::lemma_mutex_wf_congruent(old(state), state);
            }
            id as isize
        },
    }
}

/// Take one unit of a semaphore for thread `tid`.
///
/// Same protocol as `sys_mutex_lock`: record the intent as a need entry;
/// when detection is on, run the safety check over the prospective state
/// and reject the request outright when no completion order would exist,
/// leaving the state as if the request had never been made; otherwise
/// grant at once when a unit is available, or report `WouldBlock` with
/// the need left recorded while the thread waits.
///
/// Total units of every semaphore are conserved, whatever the outcome.
pub fn sys_semaphore_down(state: &mut ProcState, tid: usize, sem_id: usize) -> (ret: AcquireOutcome)
    requires
        old(state).wf(),
        old(state).sem_need.cnt(tid, sem_id) < usize::MAX,
    ensures
        final(state).wf(),
        (ret == AcquireOutcome::BadHandle) == !old(state).sem_live(sem_id),
        (ret == AcquireOutcome::DeadlockRejected) == (old(state).sem_live(sem_id) && old(
            state,
        ).deadlock_detect_enabled && !banker_safe(
            old(state).sem_available@,
            old(state).sem_allocation.cells@,
            cell_inc(old(state).sem_need.cells@, tid, sem_id),
        )),
        ret == AcquireOutcome::BadHandle || ret == AcquireOutcome::DeadlockRejected ==> states_eq(
            final(state),
            old(state),
        ),
        (ret == AcquireOutcome::Granted) == (old(state).sem_live(sem_id) && !(ret
            == AcquireOutcome::DeadlockRejected) && old(
            state,
        ).sem_available@[sem_id as int] >= 1),
        ret == AcquireOutcome::Granted ==> final(state).sem_available@ == old(
            state,
        ).sem_available@.update(
            sem_id as int,
            (old(state).sem_available@[sem_id as int] - 1) as usize,
        ) && final(state).sem_allocation.cells@ == cell_inc(
            old(state).sem_allocation.cells@,
            tid,
            sem_id,
        ) && final(state).sem_need.cells@ == old(state).sem_need.cells@,
        (ret == AcquireOutcome::WouldBlock) == (old(state).sem_live(sem_id) && !(ret
            == AcquireOutcome::DeadlockRejected) && old(
            state,
        ).sem_available@[sem_id as int] == 0),
        ret == AcquireOutcome::WouldBlock ==> final(state).sem_need.cells@ == cell_inc(
            old(state).sem_need.cells@,
            tid,
            sem_id,
        ) && final(state).sem_available@ == old(state).sem_available@ && final(state).sem_allocation.cells@ == old(state).sem_allocation.cells@,
        final(state).semaphore_list@ == old(state).semaphore_list@,
        non_sem_eq(final(state), old(state)),
        forall|r: usize|
            r < old(state).semaphore_list@.len() ==> final(state).sem_units(r) == old(
                state,
            ).sem_units(r),
{
    let nres = state.semaphore_list.len();
    if sem_id >= nres {
        return AcquireOutcome::BadHandle;
    }
    if state.semaphore_list[sem_id].is_none() {
        return AcquireOutcome::BadHandle;
    }
    if state.deadlock_detect_enabled {
        let mut need_plus = state.sem_need.dup();
        need_plus.inc_unit(nres, tid, sem_id);
        let safe = deadlock_check(&state.sem_available, &state.sem_allocation, &need_plus);
        if !safe {
            return AcquireOutcome::DeadlockRejected;
        }
    }
    let avail = state.sem_available[sem_id];
    if avail >= 1 {
        state.sem_available[sem_id] = avail - 1;
        proof {
            lemma_cnt_le_col_sum(state.sem_allocation.cells@, tid, sem_id);
            assert(old(state).sem_units(sem_id) <= usize::MAX);
        }
        state.sem_allocation.inc_unit(nres, tid, sem_id);
        proof {
            assert forall|r: usize| r < state.semaphore_list@.len() implies #[trigger] state
                .sem_slot_ok(r) by {
                assert(old(state).sem_slot_ok(r));
            }
            assert forall|r: usize|
                r < state.semaphore_list@.len() implies #[trigger] state.sem_units(r)
                <= usize::MAX by {
                assert(old(state).sem_units(r) <= usize::MAX);
            }
            assert forall|r: usize|
                r < old(state).semaphore_list@.len() implies state.sem_units(r) == old(
                state,
            ).sem_units(r) by {
                assert(old(state).sem_units(r) <= usize::MAX);
            }
            crate::state::lemma_mutex_wf_congruent(old(state), state);
        }
        AcquireOutcome::Granted
    } else {
        state.sem_need.inc_unit(nres, tid, sem_id);
        proof {
            assert forall|r: usize| r < state.semaphore_list@.len() implies #[trigger] state
                .sem_slot_ok(r) by {
                assert(old(state).sem_slot_ok(r));
            }
            assert forall|r: usize|
                r < state.semaphore_list@.len() implies #[trigger] state.sem_units(r)
                <= usize::MAX by {
                assert(old(state).sem_units(r) <= usize::MAX);
            }
            assert forall|r: usize|
                r < old(state).semaphore_list@.len() implies state.sem_units(r) == old(
                state,
            ).sem_units(r) by {
                assert(old(state).sem_units(r) <= usize::MAX);
            }
            crate::state::lemma_mutex_wf_congruent(old(state), state);
        }
        AcquireOutcome::WouldBlock
    }
}

/// Complete a semaphore acquisition after the blocked thread was woken:
/// a unit became available, so move it from the caller's recorded need
/// into its allocation.  The dispatch loop calls this when the primitive
/// grants a unit to a thread whose `sys_semaphore_down` reported
/// `WouldBlock`.
pub fn semaphore_down_complete(state: &mut ProcState, tid: usize, sem_id: usize)
    requires
        old(state).wf(),
        old(state).sem_live(sem_id),
        old(state).sem_need.cnt(tid, sem_id) >= 1,
        old(state).sem_available@[sem_id as int] >= 1,
    ensures
        final(state).wf(),
        final(state).sem_available@ == old(state).sem_available@.update(
            sem_id as int,
            (old(state).sem_available@[sem_id as int] - 1) as usize,
        ),
        final(state).sem_allocation.cells@ == cell_inc(
            old(state).sem_allocation.cells@,
            tid,
            sem_id,
        ),
        final(state).sem_need.cells@ == cell_dec(old(state).sem_need.cells@, tid, sem_id),
        final(state).semaphore_list@ == old(state).semaphore_list@,
        non_sem_eq(final(state), old(state)),
        forall|r: usize|
            r < old(state).semaphore_list@.len() ==> final(state).sem_units(r) == old(
                state,
            ).sem_units(r),
{
    let nres = state.semaphore_list.len();
    let avail = state.sem_available[sem_id];
    state.sem_available[sem_id] = avail - 1;
    proof {
        lemma_cnt_le_col_sum(state.sem_allocation.cells@, tid, sem_id);
        assert(old(state).sem_units(sem_id) <= usize::MAX);
    }
    state.sem_allocation.inc_unit(nres, tid, sem_id);
    state.sem_need.dec_unit(nres, tid, sem_id);
    proof {
        assert forall|r: usize| r < state.semaphore_list@.len() implies #[trigger] state.sem_slot_ok(
            r,
        ) by {
            assert(old(state).sem_slot_ok(r));
        }
        assert forall|r: usize| r < state.semaphore_list@.len() implies #[trigger] state.sem_units(r)
            <= usize::MAX by {
            assert(old(state).sem_units(r) <= usize::MAX);
        }
        assert forall|r: usize|
            r < old(state).semaphore_list@.len() implies state.sem_units(r) == old(
            state,
        ).sem_units(r) by {
            assert(old(state).sem_units(r) <= usize::MAX);
        }
        crate::state::lemma_mutex_wf_congruent(old(state), state);
    }
}

/// Release one semaphore unit held by thread `tid`: give the unit back
/// to the available vector and drop it from the caller's allocation.
/// Returns 0, or -1 when the handle is dead or the caller holds no unit
/// of it (the state is then untouched).
pub fn sys_semaphore_up(state: &mut ProcState, tid: usize, sem_id: usize) -> (r: isize)
    requires
        old(state).wf(),
    ensures
        final(state).wf(),
        (r == 0) == (old(state).sem_live(sem_id) && old(state).sem_allocation.cnt(
            tid,
            sem_id,
        ) >= 1),
        r != 0 ==> r == -1 && states_eq(final(state), old(state)),
        r == 0 ==> final(state).sem_available@ == old(state).sem_available@.update(
            sem_id as int,
            (old(state).sem_available@[sem_id as int] + 1) as usize,
        ) && final(state).sem_allocation.cells@ == cell_dec(
            old(state).sem_allocation.cells@,
            tid,
            sem_id,
        ) && final(state).sem_need.cells@ == old(state).sem_need.cells@,
        final(state).semaphore_list@ == old(state).semaphore_list@,
        non_sem_eq(final(state), old(state)),
        forall|r2: usize|
            r2 < old(state).semaphore_list@.len() ==> final(state).sem_units(r2) == old(
                state,
            ).sem_units(r2),
{
    let nres = state.semaphore_list.len();
    if sem_id >= nres {
        return -1;
    }
    if state.semaphore_list[sem_id].is_none() {
        return -1;
    }
    let held = state.sem_allocation.get_units(nres, tid, sem_id);
    if held == 0 {
        return -1;
    }
    proof {
        lemma_cnt_le_col_sum(state.sem_allocation.cells@, tid, sem_id);
        assert(old(state).sem_units(sem_id) <= usize::MAX);
    }
    state.sem_allocation.dec_unit(nres, tid, sem_id);
    let avail = state.sem_available[sem_id];
    state.sem_available[sem_id] = avail + 1;
    proof {
        assert forall|r2: usize| r2 < state.semaphore_list@.len() implies #[trigger] state
            .sem_slot_ok(r2) by {
            assert(old(state).sem_slot_ok(r2));
        }
        assert forall|r2: usize|
            r2 < state.semaphore_list@.len() implies #[trigger] state.sem_units(r2)
            <= usize::MAX by {
            assert(old(state).sem_units(r2) <= usize::MAX);
        }
        assert forall|r2: usize|
            r2 < old(state).semaphore_list@.len() implies state.sem_units(r2) == old(
            state,
        ).sem_units(r2) by {
            assert(old(state).sem_units(r2) <= usize::MAX);
        }
        crate::state::lemma_mutex_wf_congruent(old(state), state);
    }
    0
}


/// Create a condition variable and return its handle: the lowest free
/// registry slot, or a fresh slot when none is free.
pub fn sys_condvar_create(state: &mut ProcState) -> (id: isize)
    requires
        old(state).wf(),
        old(state).condvar_list@.len() < isize::MAX,
    ensures
        final(state).wf(),
        0 <= id <= old(state).condvar_list@.len(),
        ({
            let n = old(state).condvar_list@.len() as int;
            let obj = CondvarObj {};
            if id < n {
                &&& old(state).condvar_list@[id as int] is None
                &&& forall|j: int| 0 <= j < id ==> old(state).condvar_list@[j] is Some
                &&& final(state).condvar_list@ == old(state).condvar_list@.update(
                    id as int,
                    Some(obj),
                )
            } else {
                &&& id == n
                &&& forall|j: int| 0 <= j < n ==> old(state).condvar_list@[j] is Some
                &&& final(state).condvar_list@ == old(state).condvar_list@.push(Some(obj))
            }
        }),
        final(state).mutex_list@ == old(state).mutex_list@,
        final(state).mutex_available@ == old(state).mutex_available@,
        final(state).mutex_allocation.cells@ == old(state).mutex_allocation.cells@,
        final(state).mutex_need.cells@ == old(state).mutex_need.cells@,
        final(state).semaphore_list@ == old(state).semaphore_list@,
        final(state).sem_available@ == old(state).sem_available@,
        final(state).sem_allocation.cells@ == old(state).sem_allocation.cells@,
        final(state).sem_need.cells@ == old(state).sem_need.cells@,
        final(state).deadlock_detect_enabled == old(state).deadlock_detect_enabled,
{
    let obj = CondvarObj {};
    let ret: isize;
    match first_free(&state.condvar_list) {
        Some(id) => {
            state.condvar_list[id] = Some(obj);
            ret = id as isize;
        },
        None => {
            state.condvar_list.push(Some(obj));
            ret = (state.condvar_list.len() - 1) as isize;
        },
    }
    proof {
        crate::state::lemma_mutex_wf_congruent(old(state), state);
        crate::state::lemma_sem_wf_congruent(old(state), state);
    }
    ret
}

/// Signal a condition variable: at most one thread blocked in a wait on
/// it is woken (a no-op when none waits).  The waking itself is the
/// primitive's business; this handler validates the handle and returns 0,
/// or -1 for a dead handle.
pub fn sys_condvar_signal(state: &ProcState, condvar_id: usize) -> (r: isize)
    ensures
        r == if state.condvar_live(condvar_id) {
            0isize
        } else {
            -1isize
        },
{
    if condvar_id >= state.condvar_list.len() {
        return -1;
    }
    if state.condvar_list[condvar_id].is_none() {
        return -1;
    }
    0
}

/// Wait on a condition variable with classic monitor semantics: the named
/// mutex is released, the thread suspends until a signal, and the mutex
/// is re-acquired before the syscall returns.  Those three steps belong
/// to the primitives and the dispatch loop; this path is deliberately not
/// instrumented by the deadlock detector, so the matrices are untouched.
/// Returns 0 when both handles are live, -1 otherwise.
pub fn sys_condvar_wait(state: &ProcState, condvar_id: usize, mutex_id: usize) -> (r: isize)
    ensures
        r == if state.condvar_live(condvar_id) && state.mutex_live(mutex_id) {
            0isize
        } else {
            -1isize
        },
{
    if condvar_id >= state.condvar_list.len() {
        return -1;
    }
    if state.condvar_list[condvar_id].is_none() {
        return -1;
    }
    if mutex_id >= state.mutex_list.len() {
        return -1;
    }
    if state.mutex_list[mutex_id].is_none() {
        return -1;
    }
    0
}

/// Toggle deadlock detection for the process.  Only the exact values 0
/// (off) and 1 (on) are accepted; anything else is an input error (-1)
/// and changes nothing.
pub fn sys_enable_deadlock_detect(state: &mut ProcState, enabled: usize) -> (r: isize)
    requires
        old(state).wf(),
    ensures
        final(state).wf(),
        r == if enabled == 0 || enabled == 1 {
            0isize
        } else {
            -1isize
        },
        final(state).deadlock_detect_enabled == if enabled == 1 {
            true
        } else if enabled == 0 {
            false
        } else {
            old(state).deadlock_detect_enabled
        },
        final(state).mutex_list@ == old(state).mutex_list@,
        final(state).mutex_available@ == old(state).mutex_available@,
        final(state).mutex_allocation.cells@ == old(state).mutex_allocation.cells@,
        final(state).mutex_need.cells@ == old(state).mutex_need.cells@,
        final(state).semaphore_list@ == old(state).semaphore_list@,
        final(state).sem_available@ == old(state).sem_available@,
        final(state).sem_allocation.cells@ == old(state).sem_allocation.cells@,
        final(state).sem_need.cells@ == old(state).sem_need.cells@,
        final(state).condvar_list@ == old(state).condvar_list@,
{
    let r: isize;
    match enabled {
        0 => {
            state.deadlock_detect_enabled = false;
            r = 0;
        },
        1 => {
            state.deadlock_detect_enabled = true;
            r = 0;
        },
        _ => {
            r = -1;
        },
    }
    proof {
        crate::state::lemma_mutex_wf_congruent(old(state), state);
        crate::state::lemma_sem_wf_congruent(old(state), state);
    }
    r
}


/// Safety monotonicity for `sys_mutex_lock`: when the caller (a running
/// thread, so nothing of it is on record in the need matrix) passes the
/// safety check and is granted the unit at once, the state after the
/// grant is itself safe — the detector's verdict survives the grant.
pub proof fn lemma_lock_grant_keeps_safety(
    pre: &ProcState,
    post: &ProcState,
    tid: usize,
    mutex_id: usize,
)
    requires
        pre.wf(),
        pre.mutex_live(mutex_id),
        forall|q: usize| cell_cnt(pre.mutex_need.cells@, tid, q) == 0,
        banker_safe(
            pre.mutex_available@,
            pre.mutex_allocation.cells@,
            cell_inc(pre.mutex_need.cells@, tid, mutex_id),
        ),
        pre.mutex_available@[mutex_id as int] >= 1,
        post.mutex_available@ == pre.mutex_available@.update(
            mutex_id as int,
            (pre.mutex_available@[mutex_id as int] - 1) as usize,
        ),
        post.mutex_allocation.cells@ == cell_inc(pre.mutex_allocation.cells@, tid, mutex_id),
        post.mutex_need.cells@ == pre.mutex_need.cells@,
    ensures
        banker_safe(post.mutex_available@, post.mutex_allocation.cells@, post.mutex_need.cells@),
{
    assert(pre.mutex_units(mutex_id) <= usize::MAX);
    lemma_granted_request_still_safe(
        pre.mutex_available@,
        pre.mutex_allocation.cells@,
        pre.mutex_need.cells@,
        tid,
        mutex_id,
        pre.mutex_list@.len() as nat,
    );
}

/// Safety monotonicity for `sys_semaphore_down`, as for the mutex lock.
pub proof fn lemma_down_grant_keeps_safety(
    pre: &ProcState,
    post: &ProcState,
    tid: usize,
    sem_id: usize,
)
    requires
        pre.wf(),
        pre.sem_live(sem_id),
        forall|q: usize| cell_cnt(pre.sem_need.cells@, tid, q) == 0,
        banker_safe(
            pre.sem_available@,
            pre.sem_allocation.cells@,
            cell_inc(pre.sem_need.cells@, tid, sem_id),
        ),
        pre.sem_available@[sem_id as int] >= 1,
        post.sem_available@ == pre.sem_available@.update(
            sem_id as int,
            (pre.sem_available@[sem_id as int] - 1) as usize,
        ),
        post.sem_allocation.cells@ == cell_inc(pre.sem_allocation.cells@, tid, sem_id),
        post.sem_need.cells@ == pre.sem_need.cells@,
    ensures
        banker_safe(post.sem_available@, post.sem_allocation.cells@, post.sem_need.cells@),
{
    assert(pre.sem_units(sem_id) <= usize::MAX);
    lemma_granted_request_still_safe(
        pre.sem_available@,
        pre.sem_allocation.cells@,
        pre.sem_need.cells@,
        tid,
        sem_id,
        pre.semaphore_list@.len() as nat,
    );
}

} // verus!
