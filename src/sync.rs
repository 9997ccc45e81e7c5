//! The decisions of the synchronization system calls of one process.
//!
//! The primitives themselves (their wait queues, blocking and waking) live
//! with the caller, in tables indexed by the same ids as here. An acquire is
//! two steps: `sys_mutex_lock` / `sys_semaphore_down` decide, under the
//! process lock, whether the caller may go on to block on the primitive;
//! once the primitive has been acquired, with the process lock taken again,
//! `mutex_lock_granted` / `semaphore_down_granted` record the grant. Other
//! tasks may run between the two steps, so the check narrows the window for
//! a deadlock without closing it.
//!
//! The ledger follows every create, grant and release whether or not
//! detection is on, so that it is exact when detection is switched on later.

use vstd::prelude::*;
use crate::detector::Detector;
use crate::ledger::{ResourceList, lemma_held_total, lemma_held_zero};

verus! {

/// Status returned when a request was refused because it risks a deadlock.
pub const DEADLOCK: isize = -0xdead;

/// Status of a call on an id that names no live primitive.
pub const INVALID: isize = -1;

/// Whether `id` names an occupied slot of `slots`.
pub open spec fn live(slots: Seq<bool>, id: int) -> bool {
    0 <= id < slots.len() && slots[id]
}

/// Synchronization state of one process: which mutex, semaphore and
/// condition variable slots are in use, whether detection is on, and the
/// detector's ledgers.
pub struct ProcessSync {
    pub mutex_list: Vec<bool>,
    pub semaphore_list: Vec<bool>,
    pub condvar_list: Vec<bool>,
    pub detection: bool,
    pub detector: Detector,
}

impl ProcessSync {
    /// The ledgers have one resource per slot, and nothing is held of a
    /// slot that is free.
    pub open spec fn wf(&self) -> bool {
        &&& self.detector.wf()
        &&& self.detector.mutexes.avail@.len() == self.mutex_list@.len()
        &&& self.detector.semes.avail@.len() == self.semaphore_list@.len()
        &&& forall|r: int|
            0 <= r < self.mutex_list@.len() && !self.mutex_list@[r] ==> #[trigger] self.detector.mutexes.held(r)
                == 0
        &&& forall|r: int|
            0 <= r < self.semaphore_list@.len() && !self.semaphore_list@[r]
                ==> #[trigger] self.detector.semes.held(r) == 0
    }

    /// No primitive yet, detection off.
    pub fn new() -> (s: Self)
        ensures
            s.wf(),
            s.mutex_list@.len() == 0,
            s.semaphore_list@.len() == 0,
            s.condvar_list@.len() == 0,
            !s.detection,
    {
        ProcessSync {
            mutex_list: Vec::new(),
            semaphore_list: Vec::new(),
            condvar_list: Vec::new(),
            detection: false,
            detector: Detector::new(),
        }
    }
}

/// The first free slot of `slots`, if any.
fn first_free(slots: &Vec<bool>) -> (r: Option<usize>)
    ensures
        match r {
            Some(i) => i < slots@.len() && !slots@[i as int] && forall|j: int|
                0 <= j < i ==> #[trigger] slots@[j],
            None => forall|j: int| 0 <= j < slots@.len() ==> #[trigger] slots@[j],
        },
{
    let mut i: usize = 0;
    while i < slots.len()
        invariant
            i <= slots@.len(),
            forall|j: int| 0 <= j < i ==> #[trigger] slots@[j],
        decreases slots@.len() - i,
    {
        if !slots[i] {
            return Some(i);
        }
        i = i + 1;
    }
    None
}

/// Takes the first free slot of `slots`, or a new one at the end, and
/// returns its index.
fn take_slot(slots: &mut Vec<bool>) -> (id: usize)
    ensures
        id <= old(slots)@.len(),
        id < old(slots)@.len() ==> !old(slots)@[id as int],
        forall|j: int| 0 <= j < id ==> #[trigger] old(slots)@[j],
        final(slots)@ == if id < old(slots)@.len() {
            old(slots)@.update(id as int, true)
        } else {
            old(slots)@.push(true)
        },
{
    match first_free(slots) {
        Some(i) => {
            slots.set(i, true);
            i
        },
        None => {
            slots.push(true);
            slots.len() - 1
        },
    }
}


/// Everything but the mutex ledger and the mutex table is as before.
pub open spec fn same_but_mutexes(pre: &ProcessSync, post: &ProcessSync) -> bool {
    &&& post.semaphore_list == pre.semaphore_list
    &&& post.condvar_list == pre.condvar_list
    &&& post.detection == pre.detection
    &&& post.detector.semes == pre.detector.semes
}

/// Everything but the semaphore ledger and the semaphore table is as before.
pub open spec fn same_but_semaphores(pre: &ProcessSync, post: &ProcessSync) -> bool {
    &&& post.mutex_list == pre.mutex_list
    &&& post.condvar_list == pre.condvar_list
    &&& post.detection == pre.detection
    &&& post.detector.mutexes == pre.detector.mutexes
}

/// Two ledgers that hold the same of every resource.
proof fn lemma_same_holdings(a: &ResourceList, b: &ResourceList)
    requires
        a.allocated == b.allocated,
    ensures
        forall|r: int| #[trigger] b.held(r) == a.held(r),
{
    assert forall|r: int| #[trigger] b.held(r) == a.held(r) by {
        lemma_held_total(a, b, r, 0, 0);
    }
}

/// A resource past the end of a well-formed ledger is held by nobody.
proof fn lemma_fresh_unheld(a: &ResourceList, r: int)
    requires
        a.wf(),
        r >= a.avail@.len(),
    ensures
        a.held(r) == 0,
{
    assert forall|t: int| #[trigger] a.alloc_at(t, r) == 0 by {}
    lemma_held_zero(a, r, a.allocated@.len() as int);
}

/// Creates a mutex in the first free slot, or in a new one, and returns
/// its id; `INVALID` when the table cannot grow any more. Whether the mutex
/// spins or blocks is the caller's affair.
pub fn sys_mutex_create(sync: &mut ProcessSync, _blocking: bool) -> (id: isize)
    requires
        old(sync).wf(),
    ensures
        final(sync).wf(),
        old(sync).mutex_list@.len() >= isize::MAX ==> id == INVALID && *final(sync) == *old(sync),
        old(sync).mutex_list@.len() < isize::MAX ==> {
            &&& 0 <= id <= old(sync).mutex_list@.len()
            &&& id < old(sync).mutex_list@.len() ==> !old(sync).mutex_list@[id as int]
            &&& forall|j: int| 0 <= j < id ==> #[trigger] old(sync).mutex_list@[j]
            &&& final(sync).mutex_list@ == if id < old(sync).mutex_list@.len() {
                old(sync).mutex_list@.update(id as int, true)
            } else {
                old(sync).mutex_list@.push(true)
            }
            &&& ResourceList::created(&old(sync).detector.mutexes, &final(sync).detector.mutexes, id as int, 1)
            &&& same_but_mutexes(old(sync), final(sync))
        },
{
    if sync.mutex_list.len() >= isize::MAX as usize {
        return INVALID;
    }
    let ghost pre = *sync;
    let id = take_slot(&mut sync.mutex_list);
    proof {
        if id < pre.mutex_list@.len() {
            assert(pre.detector.mutexes.held(id as int) == 0);
        } else {
            lemma_fresh_unheld(&pre.detector.mutexes, id as int);
        }
    }
    sync.detector.create_mutex(id);
    proof {
        lemma_same_holdings(&pre.detector.mutexes, &sync.detector.mutexes);
        assert forall|r: int|
            0 <= r < sync.mutex_list@.len() && !sync.mutex_list@[r] implies #[trigger] sync.detector.mutexes.held(
            r,
        ) == 0 by {
            assert(!pre.mutex_list@[r]);
        }
    }
    id as isize
}

/// First step of a lock by task `tid`: `INVALID` for a dead id, `DEADLOCK`
/// when detection is on and the lock risks a deadlock given which tasks are
/// `finished`, else `0`: the caller may block on the mutex, then report the
/// grant with `mutex_lock_granted`. With detection on, the request is
/// recorded in the ledger either way.
pub fn sys_mutex_lock(sync: &mut ProcessSync, tid: usize, mutex_id: usize, finished: Vec<bool>) -> (r: isize)
    requires
        old(sync).wf(),
    ensures
        final(sync).wf(),
        !live(old(sync).mutex_list@, mutex_id as int) ==> r == INVALID && *final(sync) == *old(sync),
        live(old(sync).mutex_list@, mutex_id as int) && !old(sync).detection ==> r == 0 && *final(sync)
            == *old(sync),
        live(old(sync).mutex_list@, mutex_id as int) && old(sync).detection ==> {
            &&& final(sync).mutex_list == old(sync).mutex_list
            &&& same_but_mutexes(old(sync), final(sync))
            &&& ResourceList::requested(
                &old(sync).detector.mutexes,
                &final(sync).detector.mutexes,
                tid as int,
                mutex_id as int,
                1,
            )
            &&& r == if final(sync).detector.mutexes.avail_at(mutex_id as int) < 1
                && final(sync).detector.mutexes.stuck(final(sync).detector.mutexes.avail_seq(), finished@) {
                DEADLOCK
            } else {
                0
            }
        },
{
    if mutex_id >= sync.mutex_list.len() || !sync.mutex_list[mutex_id] {
        return INVALID;
    }
    if !sync.detection {
        return 0;
    }
    let ghost pre = *sync;
    let dead = sync.detector.check_mutex(tid, mutex_id, finished);
    proof {
        lemma_same_holdings(&pre.detector.mutexes, &sync.detector.mutexes);
    }
    if dead {
        DEADLOCK
    } else {
        0
    }
}

/// Second step of a lock: task `tid` has acquired mutex `mutex_id`, and the
/// ledger records it. `INVALID`, with nothing changed, for a dead id or when
/// the ledger has the mutex taken already.
pub fn mutex_lock_granted(sync: &mut ProcessSync, tid: usize, mutex_id: usize) -> (r: isize)
    requires
        old(sync).wf(),
    ensures
        final(sync).wf(),
        !live(old(sync).mutex_list@, mutex_id as int) || old(sync).detector.mutexes.avail_at(mutex_id as int) < 1
            ==> r == INVALID && *final(sync) == *old(sync),
        live(old(sync).mutex_list@, mutex_id as int) && old(sync).detector.mutexes.avail_at(mutex_id as int)
            >= 1 ==> {
            &&& r == 0
            &&& final(sync).mutex_list == old(sync).mutex_list
            &&& same_but_mutexes(old(sync), final(sync))
            &&& ResourceList::committed(
                &old(sync).detector.mutexes,
                &final(sync).detector.mutexes,
                tid as int,
                mutex_id as int,
                1,
            )
        },
{
    if mutex_id >= sync.mutex_list.len() || !sync.mutex_list[mutex_id] {
        return INVALID;
    }
    if !sync.detector.mutexes.is_enough(mutex_id, 1) {
        return INVALID;
    }
    let ghost pre = *sync;
    sync.detector.alloc_mutex(tid, mutex_id);
    proof {
        assert forall|r: int|
            0 <= r < sync.mutex_list@.len() && !sync.mutex_list@[r] implies #[trigger] sync.detector.mutexes.held(
            r,
        ) == 0 by {
            lemma_held_total(&pre.detector.mutexes, &sync.detector.mutexes, r, tid as int, 0);
        }
    }
    0
}

/// Unlock of mutex `mutex_id` by task `tid`: the ledger takes the unit
/// back and `0` tells the caller to release the mutex. `INVALID`, with
/// nothing changed, for a dead id or a task that does not hold the mutex.
pub fn sys_mutex_unlock(sync: &mut ProcessSync, tid: usize, mutex_id: usize) -> (r: isize)
    requires
        old(sync).wf(),
    ensures
        final(sync).wf(),
        !live(old(sync).mutex_list@, mutex_id as int) || old(sync).detector.mutexes.alloc_at(
            tid as int,
            mutex_id as int,
        ) < 1 ==> r == INVALID && *final(sync) == *old(sync),
        live(old(sync).mutex_list@, mutex_id as int) && old(sync).detector.mutexes.alloc_at(
            tid as int,
            mutex_id as int,
        ) >= 1 ==> {
            &&& r == 0
            &&& final(sync).mutex_list == old(sync).mutex_list
            &&& same_but_mutexes(old(sync), final(sync))
            &&& ResourceList::released(
                &old(sync).detector.mutexes,
                &final(sync).detector.mutexes,
                tid as int,
                mutex_id as int,
                1,
            )
        },
{
    if mutex_id >= sync.mutex_list.len() || !sync.mutex_list[mutex_id] {
        return INVALID;
    }
    if !holds(&sync.detector.mutexes, tid, mutex_id) {
        return INVALID;
    }
    let ghost pre = *sync;
    sync.detector.cycle_mutex(tid, mutex_id);
    proof {
        assert forall|r: int|
            0 <= r < sync.mutex_list@.len() && !sync.mutex_list@[r] implies #[trigger] sync.detector.mutexes.held(
            r,
        ) == 0 by {
            lemma_held_total(&pre.detector.mutexes, &sync.detector.mutexes, r, tid as int, 0);
        }
    }
    0
}

/// Creates a semaphore with `res_count` units in the first free slot, or in
/// a new one, and returns its id; `INVALID` when the count does not fit an
/// `i32` or the table cannot grow any more.
pub fn sys_semaphore_create(sync: &mut ProcessSync, res_count: usize) -> (id: isize)
    requires
        old(sync).wf(),
    ensures
        final(sync).wf(),
        old(sync).semaphore_list@.len() >= isize::MAX || res_count > i32::MAX ==> id == INVALID
            && *final(sync) == *old(sync),
        old(sync).semaphore_list@.len() < isize::MAX && res_count <= i32::MAX ==> {
            &&& 0 <= id <= old(sync).semaphore_list@.len()
            &&& id < old(sync).semaphore_list@.len() ==> !old(sync).semaphore_list@[id as int]
            &&& forall|j: int| 0 <= j < id ==> #[trigger] old(sync).semaphore_list@[j]
            &&& final(sync).semaphore_list@ == if id < old(sync).semaphore_list@.len() {
                old(sync).semaphore_list@.update(id as int, true)
            } else {
                old(sync).semaphore_list@.push(true)
            }
            &&& ResourceList::created(
                &old(sync).detector.semes,
                &final(sync).detector.semes,
                id as int,
                res_count as int,
            )
            &&& same_but_semaphores(old(sync), final(sync))
        },
{
    if sync.semaphore_list.len() >= isize::MAX as usize || res_count > i32::MAX as usize {
        return INVALID;
    }
    let ghost pre = *sync;
    let id = take_slot(&mut sync.semaphore_list);
    proof {
        if id < pre.semaphore_list@.len() {
            assert(pre.detector.semes.held(id as int) == 0);
        } else {
            lemma_fresh_unheld(&pre.detector.semes, id as int);
        }
    }
    sync.detector.create_sem(id, res_count);
    proof {
        lemma_same_holdings(&pre.detector.semes, &sync.detector.semes);
        assert forall|r: int|
            0 <= r < sync.semaphore_list@.len() && !sync.semaphore_list@[r] implies #[trigger] sync.detector.semes.held(
            r,
        ) == 0 by {
            assert(!pre.semaphore_list@[r]);
        }
    }
    id as isize
}

/// `up` of semaphore `sem_id` by task `tid`: when the task holds a unit the
/// ledger takes it back; a task that holds none signals, and the semaphore
/// gains a unit. `0` tells the caller to raise the semaphore; `INVALID`,
/// with nothing changed, for a dead id or when the count would no longer fit
/// an `i32`.
pub fn sys_semaphore_up(sync: &mut ProcessSync, tid: usize, sem_id: usize) -> (r: isize)
    requires
        old(sync).wf(),
    ensures
        final(sync).wf(),
        !live(old(sync).semaphore_list@, sem_id as int) ==> r == INVALID && *final(sync) == *old(sync),
        live(old(sync).semaphore_list@, sem_id as int) && old(sync).detector.semes.alloc_at(
            tid as int,
            sem_id as int,
        ) < 1 ==> if old(sync).detector.semes.avail_at(sem_id as int) + old(sync).detector.semes.held(
            sem_id as int,
        ) < i32::MAX {
            &&& r == 0
            &&& final(sync).semaphore_list == old(sync).semaphore_list
            &&& same_but_semaphores(old(sync), final(sync))
            &&& ResourceList::created(
                &old(sync).detector.semes,
                &final(sync).detector.semes,
                sem_id as int,
                old(sync).detector.semes.avail_at(sem_id as int) + 1,
            )
        } else {
            r == INVALID && *final(sync) == *old(sync)
        },
        live(old(sync).semaphore_list@, sem_id as int) && old(sync).detector.semes.alloc_at(
            tid as int,
            sem_id as int,
        ) >= 1 ==> {
            &&& r == 0
            &&& final(sync).semaphore_list == old(sync).semaphore_list
            &&& same_but_semaphores(old(sync), final(sync))
            &&& ResourceList::released(
                &old(sync).detector.semes,
                &final(sync).detector.semes,
                tid as int,
                sem_id as int,
                1,
            )
        },
{
    if sem_id >= sync.semaphore_list.len() || !sync.semaphore_list[sem_id] {
        return INVALID;
    }
    let ghost pre = *sync;
    if !holds(&sync.detector.semes, tid, sem_id) {
        proof {
            assert(0 <= pre.detector.semes.avail_at(sem_id as int));
            assert(pre.detector.semes.avail_at(sem_id as int) + pre.detector.semes.held(sem_id as int)
                <= i32::MAX);
            lemma_held_total(&pre.detector.semes, &pre.detector.semes, sem_id as int, 0, 0);
        }
        let free: i32 = sync.detector.semes.avail[sem_id];
        let held: i64 = sync.detector.semes.held_units(sem_id);
        if free as i64 + held >= i32::MAX as i64 {
            return INVALID;
        }
        sync.detector.create_sem(sem_id, (free + 1) as usize);
        proof {
            lemma_same_holdings(&pre.detector.semes, &sync.detector.semes);
        }
        return 0;
    }
    sync.detector.cycle_sem(tid, sem_id);
    proof {
        assert forall|r: int|
            0 <= r < sync.semaphore_list@.len() && !sync.semaphore_list@[r] implies #[trigger] sync.detector.semes.held(
            r,
        ) == 0 by {
            lemma_held_total(&pre.detector.semes, &sync.detector.semes, r, tid as int, 0);
        }
    }
    0
}

/// First step of a `down` by task `tid`: `INVALID` for a dead id,
/// `DEADLOCK` when detection is on and the `down` risks a deadlock given
/// which tasks are `finished`, else `0`: the caller may block on the
/// semaphore, then report the grant with `semaphore_down_granted`. With
/// detection on, the request is recorded in the ledger either way.
pub fn sys_semaphore_down(sync: &mut ProcessSync, tid: usize, sem_id: usize, finished: Vec<bool>) -> (r: isize)
    requires
        old(sync).wf(),
    ensures
        final(sync).wf(),
        !live(old(sync).semaphore_list@, sem_id as int) ==> r == INVALID && *final(sync) == *old(sync),
        live(old(sync).semaphore_list@, sem_id as int) && !old(sync).detection ==> r == 0 && *final(sync)
            == *old(sync),
        live(old(sync).semaphore_list@, sem_id as int) && old(sync).detection ==> {
            &&& final(sync).semaphore_list == old(sync).semaphore_list
            &&& same_but_semaphores(old(sync), final(sync))
            &&& ResourceList::requested(
                &old(sync).detector.semes,
                &final(sync).detector.semes,
                tid as int,
                sem_id as int,
                1,
            )
            &&& r == if final(sync).detector.semes.avail_at(sem_id as int) < 1
                && final(sync).detector.semes.stuck(final(sync).detector.semes.avail_seq(), finished@) {
                DEADLOCK
            } else {
                0
            }
        },
{
    if sem_id >= sync.semaphore_list.len() || !sync.semaphore_list[sem_id] {
        return INVALID;
    }
    if !sync.detection {
        return 0;
    }
    let ghost pre = *sync;
    let dead = sync.detector.check_semaphore(tid, sem_id, finished);
    proof {
        lemma_same_holdings(&pre.detector.semes, &sync.detector.semes);
    }
    if dead {
        DEADLOCK
    } else {
        0
    }
}

/// Second step of a `down`: task `tid` has got a unit of semaphore
/// `sem_id`, and the ledger records it. `INVALID`, with nothing changed, for
/// a dead id or when the ledger has no unit free.
pub fn semaphore_down_granted(sync: &mut ProcessSync, tid: usize, sem_id: usize) -> (r: isize)
    requires
        old(sync).wf(),
    ensures
        final(sync).wf(),
        !live(old(sync).semaphore_list@, sem_id as int) || old(sync).detector.semes.avail_at(sem_id as int) < 1
            ==> r == INVALID && *final(sync) == *old(sync),
        live(old(sync).semaphore_list@, sem_id as int) && old(sync).detector.semes.avail_at(sem_id as int)
            >= 1 ==> {
            &&& r == 0
            &&& final(sync).semaphore_list == old(sync).semaphore_list
            &&& same_but_semaphores(old(sync), final(sync))
            &&& ResourceList::committed(
                &old(sync).detector.semes,
                &final(sync).detector.semes,
                tid as int,
                sem_id as int,
                1,
            )
        },
{
    if sem_id >= sync.semaphore_list.len() || !sync.semaphore_list[sem_id] {
        return INVALID;
    }
    if !sync.detector.semes.is_enough(sem_id, 1) {
        return INVALID;
    }
    let ghost pre = *sync;
    sync.detector.alloc_semaphore(tid, sem_id);
    proof {
        assert forall|r: int|
            0 <= r < sync.semaphore_list@.len() && !sync.semaphore_list@[r] implies #[trigger] sync.detector.semes.held(
            r,
        ) == 0 by {
            lemma_held_total(&pre.detector.semes, &sync.detector.semes, r, tid as int, 0);
        }
    }
    0
}

/// Creates a condition variable in the first free slot, or in a new one,
/// and returns its id; `INVALID` when the table cannot grow any more.
pub fn sys_condvar_create(sync: &mut ProcessSync, _arg: usize) -> (id: isize)
    requires
        old(sync).wf(),
    ensures
        final(sync).wf(),
        old(sync).condvar_list@.len() >= isize::MAX ==> id == INVALID && *final(sync) == *old(sync),
        old(sync).condvar_list@.len() < isize::MAX ==> {
            &&& 0 <= id <= old(sync).condvar_list@.len()
            &&& id < old(sync).condvar_list@.len() ==> !old(sync).condvar_list@[id as int]
            &&& forall|j: int| 0 <= j < id ==> #[trigger] old(sync).condvar_list@[j]
            &&& final(sync).condvar_list@ == if id < old(sync).condvar_list@.len() {
                old(sync).condvar_list@.update(id as int, true)
            } else {
                old(sync).condvar_list@.push(true)
            }
            &&& final(sync).mutex_list == old(sync).mutex_list
            &&& final(sync).semaphore_list == old(sync).semaphore_list
            &&& final(sync).detection == old(sync).detection
            &&& final(sync).detector == old(sync).detector
        },
{
    if sync.condvar_list.len() >= isize::MAX as usize {
        return INVALID;
    }
    let id = take_slot(&mut sync.condvar_list);
    id as isize
}

/// Signal of condition variable `condvar_id`: `0` tells the caller to wake
/// a waiter, `INVALID` is for a dead id. Nothing is recorded.
pub fn sys_condvar_signal(sync: &ProcessSync, condvar_id: usize) -> (r: isize)
    ensures
        r == if live(sync.condvar_list@, condvar_id as int) {
            0
        } else {
            INVALID
        },
{
    if condvar_id < sync.condvar_list.len() && sync.condvar_list[condvar_id] {
        0
    } else {
        INVALID
    }
}

/// Wait on condition variable `condvar_id` with mutex `mutex_id`: `0` tells
/// the caller to wait, `INVALID` is for a dead id of either. Nothing is
/// recorded.
pub fn sys_condvar_wait(sync: &ProcessSync, condvar_id: usize, mutex_id: usize) -> (r: isize)
    ensures
        r == if live(sync.condvar_list@, condvar_id as int) && live(sync.mutex_list@, mutex_id as int) {
            0
        } else {
            INVALID
        },
{
    if condvar_id < sync.condvar_list.len() && sync.condvar_list[condvar_id] && mutex_id
        < sync.mutex_list.len() && sync.mutex_list[mutex_id] {
        0
    } else {
        INVALID
    }
}

/// Turns deadlock detection on for the rest of the process's life.
pub fn sys_enable_deadlock_detect(sync: &mut ProcessSync, _enabled: usize) -> (r: isize)
    requires
        old(sync).wf(),
    ensures
        final(sync).wf(),
        r == 0,
        final(sync).detection,
        final(sync).mutex_list == old(sync).mutex_list,
        final(sync).semaphore_list == old(sync).semaphore_list,
        final(sync).condvar_list == old(sync).condvar_list,
        final(sync).detector == old(sync).detector,
{
    sync.detection = true;
    0
}

/// When a task that goes to sleep for `ms` milliseconds at time `now_ms`
/// is to be woken; the latest representable time when the sum overflows.
pub fn sys_sleep(now_ms: usize, ms: usize) -> (expire_ms: usize)
    ensures
        expire_ms == if now_ms + ms <= usize::MAX {
            (now_ms + ms) as usize
        } else {
            usize::MAX
        },
{
    now_ms.saturating_add(ms)
}

/// Whether task `tid` holds at least one unit of resource `rid`.
fn holds(l: &ResourceList, tid: usize, rid: usize) -> (r: bool)
    ensures
        r == (l.alloc_at(tid as int, rid as int) >= 1),
{
    tid < l.allocated.len() && rid < l.allocated[tid].len() && l.allocated[tid][rid] >= 1
}

} // verus!
