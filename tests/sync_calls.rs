use deadlock_detect::sync::{
    mutex_lock_granted, semaphore_down_granted, sys_condvar_create, sys_condvar_signal,
    sys_condvar_wait, sys_enable_deadlock_detect, sys_mutex_create, sys_mutex_lock,
    sys_mutex_unlock, sys_semaphore_create, sys_semaphore_down, sys_semaphore_up, sys_sleep,
    ProcessSync, DEADLOCK, INVALID,
};

#[test]
fn semaphore_end_to_end() {
    let mut s = ProcessSync::new();
    assert_eq!(sys_enable_deadlock_detect(&mut s, 1), 0);
    assert_eq!(sys_semaphore_create(&mut s, 1), 0);
    let live = || vec![false, false];
    // task 0 (A) downs it
    assert_eq!(sys_semaphore_down(&mut s, 0, 0, live()), 0);
    assert_eq!(semaphore_down_granted(&mut s, 0, 0), 0);
    assert_eq!(s.detector.semes.avail[0], 0);
    // task 1 (B) downs it: A can finish, so B may block
    assert_eq!(sys_semaphore_down(&mut s, 1, 0, live()), 0);
    assert_eq!(s.detector.semes.need[1][0], 1);
    // A raises it, then B's pending down is granted
    assert_eq!(sys_semaphore_up(&mut s, 0, 0), 0);
    assert_eq!(s.detector.semes.avail[0], 1);
    assert_eq!(semaphore_down_granted(&mut s, 1, 0), 0);
    assert_eq!(s.detector.semes.avail[0], 0);
    assert_eq!(s.detector.semes.allocated[1][0], 1);
    assert_eq!(s.detector.semes.allocated[0][0], 0);
    assert_eq!(s.detector.semes.need[1][0], 0);
}

#[test]
fn mutex_deadlock_is_refused_without_change() {
    let mut s = ProcessSync::new();
    sys_enable_deadlock_detect(&mut s, 1);
    let a = sys_mutex_create(&mut s, true);
    let b = sys_mutex_create(&mut s, false);
    assert_eq!((a, b), (0, 1));
    let live = || vec![true, false, false];
    assert_eq!(sys_mutex_lock(&mut s, 1, 0, live()), 0);
    assert_eq!(mutex_lock_granted(&mut s, 1, 0), 0);
    assert_eq!(sys_mutex_lock(&mut s, 2, 1, live()), 0);
    assert_eq!(mutex_lock_granted(&mut s, 2, 1), 0);
    assert_eq!(sys_mutex_lock(&mut s, 1, 1, live()), 0);
    let avail = s.detector.mutexes.avail.clone();
    let allocated = s.detector.mutexes.allocated.clone();
    assert_eq!(sys_mutex_lock(&mut s, 2, 0, live()), DEADLOCK);
    assert_eq!(s.detector.mutexes.avail, avail);
    assert_eq!(s.detector.mutexes.allocated, allocated);
    // task 2 stays runnable and backs off
    assert_eq!(sys_mutex_unlock(&mut s, 2, 1), 0);
    assert_eq!(mutex_lock_granted(&mut s, 1, 1), 0);
    assert_eq!(s.detector.mutexes.avail, vec![0, 0]);
}

#[test]
fn detection_off_never_reports_deadlock() {
    let mut s = ProcessSync::new();
    sys_mutex_create(&mut s, true);
    sys_mutex_create(&mut s, true);
    let live = || vec![false, false];
    assert_eq!(sys_mutex_lock(&mut s, 0, 0, live()), 0);
    assert_eq!(mutex_lock_granted(&mut s, 0, 0), 0);
    assert_eq!(sys_mutex_lock(&mut s, 1, 1, live()), 0);
    assert_eq!(mutex_lock_granted(&mut s, 1, 1), 0);
    assert_eq!(sys_mutex_lock(&mut s, 0, 1, live()), 0);
    assert_eq!(sys_mutex_lock(&mut s, 1, 0, live()), 0);
    // the ledger was kept all along, so turning detection on is exact
    sys_enable_deadlock_detect(&mut s, 1);
    assert_eq!(sys_mutex_lock(&mut s, 0, 1, live()), 0);
    assert_eq!(sys_mutex_lock(&mut s, 1, 0, live()), DEADLOCK);
}

#[test]
fn invalid_ids_are_refused() {
    let mut s = ProcessSync::new();
    assert_eq!(sys_mutex_lock(&mut s, 0, 0, vec![false]), INVALID);
    assert_eq!(mutex_lock_granted(&mut s, 0, 0), INVALID);
    assert_eq!(sys_mutex_unlock(&mut s, 0, 0), INVALID);
    assert_eq!(sys_semaphore_up(&mut s, 0, 3), INVALID);
    assert_eq!(sys_semaphore_down(&mut s, 0, 3, vec![false]), INVALID);
    assert_eq!(semaphore_down_granted(&mut s, 0, 3), INVALID);
    assert_eq!(sys_condvar_signal(&s, 0), INVALID);
    assert_eq!(sys_condvar_wait(&s, 0, 0), INVALID);
    assert!(s.mutex_list.is_empty());
    assert!(s.detector.mutexes.avail.is_empty());
}

#[test]
fn unlock_by_non_holder_is_refused() {
    let mut s = ProcessSync::new();
    sys_mutex_create(&mut s, true);
    assert_eq!(sys_mutex_lock(&mut s, 0, 0, vec![false, false]), 0);
    assert_eq!(mutex_lock_granted(&mut s, 0, 0), 0);
    assert_eq!(sys_mutex_unlock(&mut s, 1, 0), INVALID);
    assert_eq!(sys_mutex_unlock(&mut s, 0, 0), 0);
    assert_eq!(sys_mutex_unlock(&mut s, 0, 0), INVALID);
}

#[test]
fn grant_beyond_ledger_is_refused() {
    let mut s = ProcessSync::new();
    sys_mutex_create(&mut s, true);
    assert_eq!(mutex_lock_granted(&mut s, 0, 0), 0);
    assert_eq!(mutex_lock_granted(&mut s, 1, 0), INVALID);
    assert_eq!(s.detector.mutexes.avail[0], 0);
}

#[test]
fn semaphore_up_without_hold_adds_a_unit() {
    let mut s = ProcessSync::new();
    assert_eq!(sys_semaphore_create(&mut s, 0), 0);
    // task 1 waits on the empty semaphore, task 0 signals it
    assert_eq!(sys_semaphore_down(&mut s, 1, 0, vec![false, false]), 0);
    assert_eq!(sys_semaphore_up(&mut s, 0, 0), 0);
    assert_eq!(s.detector.semes.avail, vec![1]);
    assert_eq!(semaphore_down_granted(&mut s, 1, 0), 0);
    assert_eq!(s.detector.semes.avail, vec![0]);
    assert_eq!(s.detector.semes.allocated[1][0], 1);
}

#[test]
fn signal_that_would_overflow_is_refused() {
    let mut s = ProcessSync::new();
    assert_eq!(sys_semaphore_create(&mut s, i32::MAX as usize), 0);
    assert_eq!(sys_semaphore_up(&mut s, 0, 0), INVALID);
    assert_eq!(s.detector.semes.avail, vec![i32::MAX]);
}

#[test]
fn semaphore_count_must_fit() {
    let mut s = ProcessSync::new();
    assert_eq!(sys_semaphore_create(&mut s, (i32::MAX as usize) + 1), INVALID);
    assert!(s.semaphore_list.is_empty());
    assert_eq!(sys_semaphore_create(&mut s, i32::MAX as usize), 0);
    assert_eq!(s.detector.semes.avail, vec![i32::MAX]);
    assert_eq!(sys_semaphore_create(&mut s, 3), 1);
}

#[test]
fn free_slots_are_reused_first() {
    let mut s = ProcessSync::new();
    s.condvar_list = vec![true, false, true];
    assert_eq!(sys_condvar_create(&mut s, 0), 1);
    assert_eq!(sys_condvar_create(&mut s, 0), 3);
    assert_eq!(s.condvar_list, vec![true; 4]);
    assert_eq!(sys_condvar_signal(&s, 3), 0);
    sys_mutex_create(&mut s, false);
    assert_eq!(sys_condvar_wait(&s, 2, 0), 0);
    assert_eq!(sys_condvar_wait(&s, 2, 1), INVALID);
}

#[test]
fn sleep_deadline_saturates() {
    assert_eq!(sys_sleep(1000, 250), 1250);
    assert_eq!(sys_sleep(usize::MAX - 1, 5), usize::MAX);
}
