use kernel_services::banker::deadlock_check;
use kernel_services::state::AcquireOutcome;
use kernel_services::state::MutexKind;
use kernel_services::state::ProcState;
use kernel_services::sync::mutex_lock_complete;
use kernel_services::sync::semaphore_down_complete;
use kernel_services::sync::sys_condvar_create;
use kernel_services::sync::sys_condvar_signal;
use kernel_services::sync::sys_condvar_wait;
use kernel_services::sync::sys_enable_deadlock_detect;
use kernel_services::sync::sys_mutex_create;
use kernel_services::sync::sys_mutex_lock;
use kernel_services::sync::sys_mutex_unlock;
use kernel_services::sync::sys_semaphore_create;
use kernel_services::sync::sys_semaphore_down;
use kernel_services::sync::sys_semaphore_up;
use kernel_services::sync::sys_sleep;

#[test]
fn sleep_returns_expiry() {
    let r = sys_sleep(1_000, 250);
    assert_eq!(r.0, 0);
    assert_eq!(r.1, 1_250);
}

#[test]
fn mutex_create_counts_up_from_zero() {
    let mut st = ProcState::new();
    assert_eq!(sys_mutex_create(&mut st, false), 0);
    assert_eq!(sys_mutex_create(&mut st, true), 1);
    assert_eq!(st.mutex_list.len(), 2);
    assert_eq!(st.mutex_available, vec![1, 1]);
    assert_eq!(st.mutex_list[0], Some(MutexKind::Spin));
    assert_eq!(st.mutex_list[1], Some(MutexKind::Blocking));
}

#[test]
fn mutex_create_reuses_lowest_free_slot() {
    let mut st = ProcState::new();
    assert_eq!(sys_mutex_create(&mut st, false), 0);
    assert_eq!(sys_mutex_create(&mut st, false), 1);
    assert_eq!(sys_mutex_create(&mut st, false), 2);
    // conceptually free the middle slot, then create again
    st.mutex_list[1] = None;
    st.mutex_available[1] = 0;
    assert_eq!(sys_mutex_create(&mut st, true), 1);
    assert_eq!(st.mutex_list[1], Some(MutexKind::Blocking));
    // with no free slot left, the registry grows
    assert_eq!(sys_mutex_create(&mut st, false), 3);
}

#[test]
fn semaphore_create_reuses_lowest_free_slot() {
    let mut st = ProcState::new();
    assert_eq!(sys_semaphore_create(&mut st, 2), 0);
    assert_eq!(sys_semaphore_create(&mut st, 5), 1);
    st.semaphore_list[0] = None;
    st.sem_available[0] = 0;
    assert_eq!(sys_semaphore_create(&mut st, 7), 0);
    assert_eq!(st.semaphore_list[0], Some(7));
    assert_eq!(st.sem_available[0], 7);
}

#[test]
fn condvar_create_reuses_lowest_free_slot() {
    let mut st = ProcState::new();
    assert_eq!(sys_condvar_create(&mut st), 0);
    assert_eq!(sys_condvar_create(&mut st), 1);
    st.condvar_list[0] = None;
    assert_eq!(sys_condvar_create(&mut st), 0);
    assert_eq!(sys_condvar_create(&mut st), 2);
}

#[test]
fn mutex_lock_and_unlock_move_the_unit() {
    let mut st = ProcState::new();
    sys_mutex_create(&mut st, false);
    assert_eq!(sys_mutex_lock(&mut st, 0, 0), AcquireOutcome::Granted);
    assert_eq!(st.mutex_available[0], 0);
    // a second locker must wait
    assert_eq!(sys_mutex_lock(&mut st, 1, 0), AcquireOutcome::WouldBlock);
    assert_eq!(sys_mutex_unlock(&mut st, 0, 0), 0);
    assert_eq!(st.mutex_available[0], 1);
    // the released unit completes the waiting thread's acquisition
    mutex_lock_complete(&mut st, 1, 0);
    assert_eq!(st.mutex_available[0], 0);
    assert_eq!(sys_mutex_unlock(&mut st, 1, 0), 0);
}

#[test]
fn mutex_lock_bad_handle() {
    let mut st = ProcState::new();
    assert_eq!(sys_mutex_lock(&mut st, 0, 0), AcquireOutcome::BadHandle);
    assert_eq!(sys_mutex_lock(&mut st, 0, 3).code(), -1);
}

#[test]
fn mutex_unlock_without_holding_is_an_error() {
    let mut st = ProcState::new();
    sys_mutex_create(&mut st, false);
    assert_eq!(sys_mutex_unlock(&mut st, 0, 0), -1);
    assert_eq!(sys_mutex_unlock(&mut st, 0, 9), -1);
}

#[test]
fn deadlock_scenario_is_rejected_without_blocking() {
    // two mutexes, two threads: A takes m0, B takes m1, A waits for m1;
    // B's attempt on m0 closes the cycle and must be rejected at once
    let mut st = ProcState::new();
    assert_eq!(sys_enable_deadlock_detect(&mut st, 1), 0);
    let m0 = sys_mutex_create(&mut st, true) as usize;
    let m1 = sys_mutex_create(&mut st, true) as usize;
    let a = 0;
    let b = 1;
    assert_eq!(sys_mutex_lock(&mut st, a, m0), AcquireOutcome::Granted);
    assert_eq!(sys_mutex_lock(&mut st, b, m1), AcquireOutcome::Granted);
    assert_eq!(sys_mutex_lock(&mut st, a, m1), AcquireOutcome::WouldBlock);
    let second = sys_mutex_lock(&mut st, b, m0);
    assert_eq!(second, AcquireOutcome::DeadlockRejected);
    assert_eq!(second.code(), -0xdead);
    assert_eq!(second.code(), -57005);
    // the speculative need entry was rolled back: the matrices record
    // only A's wait for m1
    assert!(!st.mutex_need.cells.iter().any(|c| c.0 == b));
    assert_eq!(st.mutex_need.cells, vec![(a, m1, 1)]);
    // and B can still release m1
    assert_eq!(sys_mutex_unlock(&mut st, b, m1), 0);
}

#[test]
fn sequential_locking_never_trips_the_detector() {
    // one thread locking and unlocking two mutexes in turn is safe
    let mut st = ProcState::new();
    assert_eq!(sys_enable_deadlock_detect(&mut st, 1), 0);
    let m0 = sys_mutex_create(&mut st, false) as usize;
    let m1 = sys_mutex_create(&mut st, false) as usize;
    assert_eq!(sys_mutex_lock(&mut st, 0, m0), AcquireOutcome::Granted);
    assert_eq!(sys_mutex_unlock(&mut st, 0, m0), 0);
    assert_eq!(sys_mutex_lock(&mut st, 0, m1), AcquireOutcome::Granted);
    assert_eq!(sys_mutex_unlock(&mut st, 0, m1), 0);
    // even holding both at once is fine for a single thread
    assert_eq!(sys_mutex_lock(&mut st, 0, m0), AcquireOutcome::Granted);
    assert_eq!(sys_mutex_lock(&mut st, 0, m1), AcquireOutcome::Granted);
    assert_eq!(sys_mutex_unlock(&mut st, 0, m1), 0);
    assert_eq!(sys_mutex_unlock(&mut st, 0, m0), 0);
}

#[test]
fn semaphore_down_up_protocol() {
    let mut st = ProcState::new();
    assert_eq!(sys_enable_deadlock_detect(&mut st, 1), 0);
    let s = sys_semaphore_create(&mut st, 2) as usize;
    assert_eq!(sys_semaphore_down(&mut st, 0, s), AcquireOutcome::Granted);
    assert_eq!(sys_semaphore_down(&mut st, 1, s), AcquireOutcome::Granted);
    assert_eq!(st.sem_available[s], 0);
    // no unit left: thread 2 waits with its need recorded
    assert_eq!(sys_semaphore_down(&mut st, 2, s), AcquireOutcome::WouldBlock);
    // thread 0 returns its unit and thread 2's acquisition completes
    assert_eq!(sys_semaphore_up(&mut st, 0, s), 0);
    assert_eq!(st.sem_available[s], 1);
    semaphore_down_complete(&mut st, 2, s);
    assert_eq!(st.sem_available[s], 0);
    // releasing a unit the caller never took is the hardened error
    assert_eq!(sys_semaphore_up(&mut st, 0, s), -1);
}

#[test]
fn matrix_conservation_across_operations() {
    // available[r] plus all allocations of r stays at the created total
    let mut st = ProcState::new();
    let s = sys_semaphore_create(&mut st, 3) as usize;
    let total = |st: &ProcState| -> usize {
        let mut sum = st.sem_available[s];
        for c in &st.sem_allocation.cells {
            if c.1 == s {
                sum += c.2;
            }
        }
        sum
    };
    assert_eq!(total(&st), 3);
    sys_semaphore_down(&mut st, 0, s);
    assert_eq!(total(&st), 3);
    sys_semaphore_down(&mut st, 1, s);
    assert_eq!(total(&st), 3);
    sys_semaphore_up(&mut st, 0, s);
    assert_eq!(total(&st), 3);
    sys_semaphore_down(&mut st, 2, s);
    sys_semaphore_down(&mut st, 2, s);
    assert_eq!(total(&st), 3);
}

#[test]
fn safe_verdict_survives_the_grant() {
    // the check says a grant is safe; after actually granting, a fresh
    // exhaustive check still finds a completion order
    let mut st = ProcState::new();
    assert_eq!(sys_enable_deadlock_detect(&mut st, 1), 0);
    let s = sys_semaphore_create(&mut st, 2) as usize;
    assert_eq!(sys_semaphore_down(&mut st, 0, s), AcquireOutcome::Granted);
    assert!(deadlock_check(&st.sem_available, &st.sem_allocation, &st.sem_need));
    assert_eq!(sys_semaphore_down(&mut st, 1, s), AcquireOutcome::Granted);
    assert!(deadlock_check(&st.sem_available, &st.sem_allocation, &st.sem_need));
}

#[test]
fn condvar_signal_and_wait_validate_handles() {
    let mut st = ProcState::new();
    let c = sys_condvar_create(&mut st) as usize;
    let m = sys_mutex_create(&mut st, true) as usize;
    assert_eq!(sys_condvar_signal(&st, c), 0);
    assert_eq!(sys_condvar_signal(&st, c + 1), -1);
    assert_eq!(sys_condvar_wait(&st, c, m), 0);
    assert_eq!(sys_condvar_wait(&st, c + 1, m), -1);
    assert_eq!(sys_condvar_wait(&st, c, m + 7), -1);
}

#[test]
fn enable_deadlock_detect_accepts_only_zero_and_one() {
    let mut st = ProcState::new();
    assert!(!st.deadlock_detect_enabled);
    assert_eq!(sys_enable_deadlock_detect(&mut st, 1), 0);
    assert!(st.deadlock_detect_enabled);
    assert_eq!(sys_enable_deadlock_detect(&mut st, 0), 0);
    assert!(!st.deadlock_detect_enabled);
    assert_eq!(sys_enable_deadlock_detect(&mut st, 2), -1);
    assert!(!st.deadlock_detect_enabled);
    assert_eq!(sys_enable_deadlock_detect(&mut st, usize::MAX), -1);
}
