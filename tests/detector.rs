use deadlock_detect::detector::Detector;

#[test]
fn classic_two_mutex_deadlock() {
    let mut d = Detector::new();
    d.create_mutex(0);
    d.create_mutex(1);
    let live = || vec![true, false, false];
    assert!(!d.check_mutex(1, 0, live()));
    d.alloc_mutex(1, 0);
    assert!(!d.check_mutex(2, 1, live()));
    d.alloc_mutex(2, 1);
    // task 1 holds A and asks for B: task 2 can still finish
    assert!(!d.check_mutex(1, 1, live()));
    // task 2 holds B and asks for A: a cycle
    assert!(d.check_mutex(2, 0, live()));
}

#[test]
fn mutex_has_one_unit() {
    let mut d = Detector::new();
    d.create_mutex(2);
    assert_eq!(d.mutexes.avail, vec![0, 0, 1]);
    assert!(d.semes.avail.is_empty());
    d.alloc_mutex(0, 2);
    assert_eq!(d.mutexes.avail[2], 0);
    assert_eq!(d.mutexes.allocated[0][2], 1);
    d.cycle_mutex(0, 2);
    assert_eq!(d.mutexes.avail[2], 1);
    assert_eq!(d.mutexes.allocated[0][2], 0);
}

#[test]
fn semaphore_units_are_counted() {
    let mut d = Detector::new();
    d.create_sem(0, 2);
    assert_eq!(d.semes.avail, vec![2]);
    assert!(!d.check_semaphore(0, 0, vec![false, false]));
    d.alloc_semaphore(0, 0);
    assert!(!d.check_semaphore(1, 0, vec![false, false]));
    d.alloc_semaphore(1, 0);
    assert_eq!(d.semes.avail[0], 0);
    // task 0 asks again while task 1 waits for nothing: safe
    assert!(!d.check_semaphore(0, 0, vec![false, false]));
    // task 1 asks too: both wait, nothing is free
    assert!(d.check_semaphore(1, 0, vec![false, false]));
    d.cycle_sem(1, 0);
    assert_eq!(d.semes.avail[0], 1);
    assert!(d.mutexes.avail.is_empty());
}
