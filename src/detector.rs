//! The detector of one process: a ledger for its mutexes and one for its
//! semaphores. A mutex always has one unit; a lock or a semaphore `down`
//! asks for one unit, an unlock or an `up` gives one back.

use vstd::prelude::*;
use crate::ledger::ResourceList;

verus! {

/// Units that one lock, unlock, `down` or `up` moves.
pub const UNIT: usize = 1;

#[derive(Clone)]
pub struct Detector {
    pub mutexes: ResourceList,
    pub semes: ResourceList,
}

impl Detector {
    pub open spec fn wf(&self) -> bool {
        self.mutexes.wf() && self.semes.wf()
    }

    pub fn new() -> (d: Self)
        ensures
            d.wf(),
            d.mutexes.avail@.len() == 0,
            d.mutexes.allocated@.len() == 0,
            d.mutexes.need@.len() == 0,
            d.semes.avail@.len() == 0,
            d.semes.allocated@.len() == 0,
            d.semes.need@.len() == 0,
    {
        Self { mutexes: ResourceList::new(), semes: ResourceList::new() }
    }

    /// Registers mutex `mid` with its single unit free.
    pub fn create_mutex(&mut self, mid: usize)
        requires
            old(self).wf(),
            old(self).mutexes.held(mid as int) < i32::MAX,
        ensures
            final(self).wf(),
            final(self).semes == old(self).semes,
            ResourceList::created(&old(self).mutexes, &final(self).mutexes, mid as int, 1),
    {
        self.mutexes.init_size(UNIT, mid);
    }

    /// Records that task `tid` unlocked mutex `mid`.
    pub fn cycle_mutex(&mut self, tid: usize, mid: usize)
        requires
            old(self).wf(),
            mid < old(self).mutexes.avail@.len(),
            1 <= old(self).mutexes.alloc_at(tid as int, mid as int),
        ensures
            final(self).wf(),
            final(self).semes == old(self).semes,
            ResourceList::released(&old(self).mutexes, &final(self).mutexes, tid as int, mid as int, 1),
    {
        self.mutexes.cycle(mid, UNIT, tid);
    }

    /// Registers semaphore `sid` with `size` units free.
    pub fn create_sem(&mut self, sid: usize, size: usize)
        requires
            old(self).wf(),
            size + old(self).semes.held(sid as int) <= i32::MAX,
        ensures
            final(self).wf(),
            final(self).mutexes == old(self).mutexes,
            ResourceList::created(&old(self).semes, &final(self).semes, sid as int, size as int),
    {
        self.semes.init_size(size, sid);
    }

    /// Records that task `tid` raised semaphore `sid`, giving back a unit.
    pub fn cycle_sem(&mut self, tid: usize, sid: usize)
        requires
            old(self).wf(),
            sid < old(self).semes.avail@.len(),
            1 <= old(self).semes.alloc_at(tid as int, sid as int),
        ensures
            final(self).wf(),
            final(self).mutexes == old(self).mutexes,
            ResourceList::released(&old(self).semes, &final(self).semes, tid as int, sid as int, 1),
    {
        self.semes.cycle(sid, UNIT, tid)
    }

    /// Records that task `tid` asks to lock mutex `mid` and tells whether
    /// that risks a deadlock, given which tasks are finished.
    pub fn check_mutex(&mut self, tid: usize, mid: usize, task_set: Vec<bool>) -> (dead: bool)
        requires
            old(self).wf(),
        ensures
            final(self).wf(),
            final(self).semes == old(self).semes,
            ResourceList::requested(&old(self).mutexes, &final(self).mutexes, tid as int, mid as int, 1),
            dead == (final(self).mutexes.avail_at(mid as int) < 1 && final(self).mutexes.stuck(
                final(self).mutexes.avail_seq(),
                task_set@,
            )),
    {
        self.mutexes.is_dead(tid, mid, UNIT, task_set)
    }

    /// Records that task `tid` now holds mutex `mid`.
    pub fn alloc_mutex(&mut self, tid: usize, mid: usize)
        requires
            old(self).wf(),
            mid < old(self).mutexes.avail@.len(),
            1 <= old(self).mutexes.avail_at(mid as int),
        ensures
            final(self).wf(),
            final(self).semes == old(self).semes,
            ResourceList::committed(&old(self).mutexes, &final(self).mutexes, tid as int, mid as int, 1),
    {
        self.mutexes.alloc_one(UNIT, mid, tid);
    }

    /// Records that task `tid` asks to lower semaphore `sid` and tells
    /// whether that risks a deadlock, given which tasks are finished.
    pub fn check_semaphore(&mut self, tid: usize, sid: usize, task_set: Vec<bool>) -> (dead: bool)
        requires
            old(self).wf(),
        ensures
            final(self).wf(),
            final(self).mutexes == old(self).mutexes,
            ResourceList::requested(&old(self).semes, &final(self).semes, tid as int, sid as int, 1),
            dead == (final(self).semes.avail_at(sid as int) < 1 && final(self).semes.stuck(
                final(self).semes.avail_seq(),
                task_set@,
            )),
    {
        self.semes.is_dead(tid, sid, UNIT, task_set)
    }

    /// Records that task `tid` got a unit of semaphore `sid`.
    pub fn alloc_semaphore(&mut self, tid: usize, sid: usize)
        requires
            old(self).wf(),
            sid < old(self).semes.avail@.len(),
            1 <= old(self).semes.avail_at(sid as int),
        ensures
            final(self).wf(),
            final(self).mutexes == old(self).mutexes,
            ResourceList::committed(&old(self).semes, &final(self).semes, tid as int, sid as int, 1),
    {
        self.semes.alloc_one(UNIT, sid, tid);
    }
}

} // verus!
