//! Per-process synchronization state.
//!
//! Each process owns index-addressed registries of mutexes, semaphores and
//! condition variables (a slot holds `None` once free, and creation reuses
//! the lowest free slot before growing the registry), an available-unit
//! vector per lock-like registry, the sparse allocation and need matrices,
//! and the deadlock-detection flag.
//!
//! The well-formedness invariant ties them together: the available vectors
//! run parallel to their registries, every matrix cell points at a registry
//! slot, per resource the available units plus all allocated units fit in a
//! machine word, and a free slot carries no units and no claims.

use vstd::prelude::*;

use crate::matrix::SparseMat;
use crate::matrix::col_sum;

verus! {

/// Which flavour of mutex a registry slot holds.
#[derive(Clone, Copy, PartialEq, Eq, Structural, Debug)]
pub enum MutexKind {
    /// busy-waiting mutex
    Spin,
    /// mutex with a wait queue
    Blocking,
}

/// Marker for a live condition-variable slot: nothing is recorded about
/// a condition variable beyond its liveness.
#[derive(Clone, Copy, PartialEq, Eq, Structural, Debug)]
pub struct CondvarObj {}

/// Outcome of a blocking acquisition attempt (mutex lock, semaphore down).
#[derive(Clone, Copy, PartialEq, Eq, Structural, Debug)]
pub enum AcquireOutcome {
    /// a unit was available: the acquisition completed at once
    Granted,
    /// no unit is available: the caller must block on the primitive, and
    /// complete the acquisition once woken; its need stays recorded
    WouldBlock,
    /// detection is on and granting could deadlock: nothing was changed
    DeadlockRejected,
    /// the handle names no live object: nothing was changed
    BadHandle,
}

/// The sentinel error for a rejected, possibly deadlocking acquisition.
pub const DEADLOCK_RET: isize = -0xdead;

impl AcquireOutcome {
    /// The value the syscall hands back to user space.  A `WouldBlock`
    /// outcome has no immediate return value: the thread suspends and the
    /// syscall returns 0 only after the acquisition completes, so this maps
    /// it to the 0 the caller will eventually see.
    pub fn code(&self) -> (c: isize)
        ensures
            c == match self {
                AcquireOutcome::Granted => 0isize,
                AcquireOutcome::WouldBlock => 0isize,
                AcquireOutcome::DeadlockRejected => DEADLOCK_RET,
                AcquireOutcome::BadHandle => -1isize,
            },
    {
        match self {
            AcquireOutcome::Granted => 0,
            AcquireOutcome::WouldBlock => 0,
            AcquireOutcome::DeadlockRejected => DEADLOCK_RET,
            AcquireOutcome::BadHandle => -1,
        }
    }
}

/// All synchronization state a process owns.
pub struct ProcState {
    /// registry of mutexes; a free slot holds `None`
    pub mutex_list: Vec<Option<MutexKind>>,
    /// available units per mutex (1 when unlocked, 0 when held)
    pub mutex_available: Vec<usize>,
    /// mutex units currently held, per thread and mutex
    pub mutex_allocation: SparseMat,
    /// mutex units requested and not yet granted
    pub mutex_need: SparseMat,
    /// registry of semaphores; a live slot records the initial unit count
    pub semaphore_list: Vec<Option<usize>>,
    /// available units per semaphore
    pub sem_available: Vec<usize>,
    /// semaphore units currently held
    pub sem_allocation: SparseMat,
    /// semaphore units requested and not yet granted
    pub sem_need: SparseMat,
    /// registry of condition variables
    pub condvar_list: Vec<Option<CondvarObj>>,
    /// whether the safety check gates blocking acquisitions
    pub deadlock_detect_enabled: bool,
}

impl ProcState {
    /// Units of mutex `r` in the system: available plus allocated.
    pub open spec fn mutex_units(&self, r: usize) -> nat {
        (self.mutex_available@[r as int] + col_sum(self.mutex_allocation.cells@, r)) as nat
    }

    /// Units of semaphore `r` in the system: available plus allocated.
    pub open spec fn sem_units(&self, r: usize) -> nat {
        (self.sem_available@[r as int] + col_sum(self.sem_allocation.cells@, r)) as nat
    }

    /// The mutex handle names a live registry slot.
    pub open spec fn mutex_live(&self, id: usize) -> bool {
        id < self.mutex_list@.len() && self.mutex_list@[id as int] is Some
    }

    /// The semaphore handle names a live registry slot.
    pub open spec fn sem_live(&self, id: usize) -> bool {
        id < self.semaphore_list@.len() && self.semaphore_list@[id as int] is Some
    }

    /// The condition-variable handle names a live registry slot.
    pub open spec fn condvar_live(&self, id: usize) -> bool {
        id < self.condvar_list@.len() && self.condvar_list@[id as int] is Some
    }

    /// A free mutex slot carries no units and no claims.
    pub open spec fn mutex_slot_ok(&self, r: usize) -> bool {
        self.mutex_list@[r as int] is None ==> self.mutex_available@[r as int] == 0 && col_sum(
            self.mutex_allocation.cells@,
            r,
        ) == 0 && col_sum(self.mutex_need.cells@, r) == 0
    }

    /// A free semaphore slot carries no units and no claims.
    pub open spec fn sem_slot_ok(&self, r: usize) -> bool {
        self.semaphore_list@[r as int] is None ==> self.sem_available@[r as int] == 0 && col_sum(
            self.sem_allocation.cells@,
            r,
        ) == 0 && col_sum(self.sem_need.cells@, r) == 0
    }

    /// Well-formedness of the mutex side alone.
    pub open spec fn mutex_wf(&self) -> bool {
        &&& self.mutex_available@.len() == self.mutex_list@.len()
        &&& self.mutex_allocation.wf(self.mutex_list@.len() as nat)
        &&& self.mutex_need.wf(self.mutex_list@.len() as nat)
        &&& forall|r: usize| r < self.mutex_list@.len() ==> #[trigger] self.mutex_units(r)
            <= usize::MAX
        &&& forall|r: usize| r < self.mutex_list@.len() ==> #[trigger] self.mutex_slot_ok(r)
    }

    /// Well-formedness of the semaphore side alone.
    pub open spec fn sem_wf(&self) -> bool {
        &&& self.sem_available@.len() == self.semaphore_list@.len()
        &&& self.sem_allocation.wf(self.semaphore_list@.len() as nat)
        &&& self.sem_need.wf(self.semaphore_list@.len() as nat)
        &&& forall|r: usize| r < self.semaphore_list@.len() ==> #[trigger] self.sem_units(r)
            <= usize::MAX
        &&& forall|r: usize| r < self.semaphore_list@.len() ==> #[trigger] self.sem_slot_ok(r)
    }

    pub open spec fn wf(&self) -> bool {
        self.mutex_wf() && self.sem_wf()
    }

    /// A fresh process: empty registries, detection off.
    pub fn new() -> (s: Self)
        ensures
            s.wf(),
            s.mutex_list@.len() == 0,
            s.semaphore_list@.len() == 0,
            s.condvar_list@.len() == 0,
            s.mutex_allocation.cells@.len() == 0,
            s.mutex_need.cells@.len() == 0,
            s.sem_allocation.cells@.len() == 0,
            s.sem_need.cells@.len() == 0,
            !s.deadlock_detect_enabled,
    {
        ProcState {
            mutex_list: Vec::new(),
            mutex_available: Vec::new(),
            mutex_allocation: SparseMat::empty(),
            mutex_need: SparseMat::empty(),
            semaphore_list: Vec::new(),
            sem_available: Vec::new(),
            sem_allocation: SparseMat::empty(),
            sem_need: SparseMat::empty(),
            condvar_list: Vec::new(),
            deadlock_detect_enabled: false,
        }
    }
}

/// Two states with the same mutex-side fields share its well-formedness.
pub proof fn lemma_mutex_wf_congruent(a: &ProcState, b: &ProcState)
    requires
        a.mutex_wf(),
        b.mutex_list@ == a.mutex_list@,
        b.mutex_available@ == a.mutex_available@,
        b.mutex_allocation.cells@ == a.mutex_allocation.cells@,
        b.mutex_need.cells@ == a.mutex_need.cells@,
    ensures
        b.mutex_wf(),
{
    assert forall|r: usize| r < b.mutex_list@.len() implies #[trigger] b.mutex_units(r)
        <= usize::MAX by {
        assert(a.mutex_units(r) <= usize::MAX);
    }
    assert forall|r: usize| r < b.mutex_list@.len() implies #[trigger] b.mutex_slot_ok(r) by {
        assert(a.mutex_slot_ok(r));
    }
}

/// Two states with the same semaphore-side fields share its well-formedness.
pub proof fn lemma_sem_wf_congruent(a: &ProcState, b: &ProcState)
    requires
        a.sem_wf(),
        b.semaphore_list@ == a.semaphore_list@,
        b.sem_available@ == a.sem_available@,
        b.sem_allocation.cells@ == a.sem_allocation.cells@,
        b.sem_need.cells@ == a.sem_need.cells@,
    ensures
        b.sem_wf(),
{
    assert forall|r: usize| r < b.semaphore_list@.len() implies #[trigger] b.sem_units(r)
        <= usize::MAX by {
        assert(a.sem_units(r) <= usize::MAX);
    }
    assert forall|r: usize| r < b.semaphore_list@.len() implies #[trigger] b.sem_slot_ok(r) by {
        assert(a.sem_slot_ok(r));
    }
}

/// Lowest free slot of a registry, if any: creation reuses it before the
/// registry grows.
pub fn first_free<T>(list: &Vec<Option<T>>) -> (ret: Option<usize>)
    ensures
        match ret {
            Some(i) => i < list@.len() && list@[i as int] is None && forall|j: int|
                0 <= j < i ==> list@[j] is Some,
            None => forall|j: int| 0 <= j < list@.len() ==> list@[j] is Some,
        },
{
    let mut i: usize = 0;
    while i < list.len()
        invariant
            i <= list@.len(),
            forall|j: int| 0 <= j < i ==> list@[j] is Some,
        decreases list@.len() - i,
    {
        if list[i].is_none() {
            return Some(i);
        }
        i = i + 1;
    }
    None
}

} // verus!
