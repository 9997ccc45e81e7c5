use deadlock_detect::ledger::ResourceList;

fn held(l: &ResourceList, r: usize) -> i64 {
    l.allocated
        .iter()
        .map(|row| if r < row.len() { row[r] as i64 } else { 0 })
        .sum()
}

#[test]
fn new_ledger_is_empty() {
    let l = ResourceList::new();
    assert!(l.avail.is_empty());
    assert!(l.allocated.is_empty());
    assert!(l.need.is_empty());
}

#[test]
fn init_size_fills_skipped_ids_with_zero() {
    let mut l = ResourceList::new();
    l.init_size(3, 2);
    assert_eq!(l.avail, vec![0, 0, 3]);
    l.init_size(5, 0);
    assert_eq!(l.avail, vec![5, 0, 3]);
}

#[test]
fn is_enough_compares_with_free_units() {
    let mut l = ResourceList::new();
    l.init_size(2, 0);
    assert!(l.is_enough(0, 2));
    assert!(!l.is_enough(0, 3));
    assert!(l.is_enough(7, 0));
    assert!(!l.is_enough(7, 1));
}

#[test]
fn alloc_one_moves_units_and_clears_need() {
    let mut l = ResourceList::new();
    l.init_size(3, 0);
    assert!(!l.is_dead(1, 0, 2, vec![true, false]));
    assert_eq!(l.need[1][0], 2);
    l.alloc_one(2, 0, 1);
    assert_eq!(l.avail[0], 1);
    assert_eq!(l.allocated[1][0], 2);
    assert_eq!(l.need[1][0], 0);
}

#[test]
fn commit_then_release_restores() {
    let mut l = ResourceList::new();
    l.init_size(4, 0);
    l.init_size(1, 1);
    l.alloc_one(1, 0, 2);
    let avail_before = l.avail.clone();
    let held_before = l.allocated[2][0];
    l.alloc_one(3, 0, 2);
    assert_eq!(l.avail[0], 0);
    l.cycle(0, 3, 2);
    assert_eq!(l.avail, avail_before);
    assert_eq!(l.allocated[2][0], held_before);
}

#[test]
fn conservation_holds_at_quiescent_points() {
    let caps = [3i64, 1, 2];
    let mut l = ResourceList::new();
    for (r, c) in caps.iter().enumerate() {
        l.init_size(*c as usize, r);
    }
    let check = |l: &ResourceList| {
        for r in 0..caps.len() {
            assert_eq!(l.avail[r] as i64 + held(l, r), caps[r]);
        }
    };
    l.is_dead(0, 0, 2, vec![false, false]);
    check(&l);
    l.alloc_one(2, 0, 0);
    check(&l);
    l.alloc_one(1, 1, 1);
    check(&l);
    l.alloc_one(1, 2, 4);
    check(&l);
    l.cycle(0, 1, 0);
    check(&l);
    l.cycle(1, 1, 1);
    check(&l);
}

#[test]
fn free_request_is_safe_despite_other_waits() {
    let mut l = ResourceList::new();
    l.init_size(1, 0);
    l.init_size(1, 1);
    l.init_size(2, 2);
    l.alloc_one(1, 0, 0);
    l.alloc_one(1, 1, 1);
    assert!(!l.is_dead(0, 1, 1, vec![false, false]));
    // task 1 now waits for resource 0 held by task 0: a cycle
    assert!(l.is_dead(1, 0, 1, vec![false, false]));
    // resource 2 is free, so asking for it is safe whatever the others do
    assert!(!l.is_dead(1, 2, 2, vec![false, false]));
}

#[test]
fn all_finished_is_safe_with_nothing_free() {
    let mut l = ResourceList::new();
    l.init_size(1, 0);
    l.alloc_one(1, 0, 0);
    assert_eq!(l.avail[0], 0);
    assert!(!l.is_dead(1, 0, 1, vec![true, true]));
    assert!(!l.is_dead(1, 0, 1, vec![]));
}

#[test]
fn disjoint_demand_is_no_deadlock() {
    let mut l = ResourceList::new();
    l.init_size(1, 0);
    l.init_size(1, 1);
    l.alloc_one(1, 0, 0);
    l.alloc_one(1, 1, 1);
    // task 1 waits for resource 0; task 0 waits for nothing
    assert!(!l.is_dead(1, 0, 1, vec![false, false]));
}

#[test]
fn task_without_recorded_need_can_finish() {
    let mut l = ResourceList::new();
    l.init_size(1, 0);
    l.alloc_one(1, 0, 3);
    // task 3 holds the resource and has never waited for anything
    assert!(!l.is_dead(0, 0, 1, vec![false, true, true, false]));
}

#[test]
fn request_for_unseen_ids_keeps_old_rows() {
    let mut l = ResourceList::new();
    l.init_size(2, 0);
    l.init_size(1, 1);
    l.alloc_one(1, 0, 0);
    l.is_dead(0, 1, 1, vec![false]);
    let avail = l.avail.clone();
    let allocated = l.allocated.clone();
    let need0 = l.need[0].clone();
    l.is_dead(5, 3, 1, vec![false; 6]);
    assert_eq!(l.avail, avail);
    assert_eq!(l.allocated, allocated);
    assert_eq!(l.need[0], need0);
    assert_eq!(l.need.len(), 6);
    assert_eq!(l.need[5][3], 1);
    l.init_size(4, 6);
    assert_eq!(&l.avail[..2], &avail[..]);
    assert_eq!(l.avail[6], 4);
}

#[test]
fn held_units_sums_a_column() {
    let mut l = ResourceList::new();
    l.init_size(5, 0);
    l.init_size(2, 1);
    assert_eq!(l.held_units(0), 0);
    l.alloc_one(2, 0, 0);
    l.alloc_one(1, 0, 3);
    l.alloc_one(1, 1, 3);
    assert_eq!(l.held_units(0), 3);
    assert_eq!(l.held_units(1), 1);
}
