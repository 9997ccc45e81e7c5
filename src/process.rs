//! The checks and arithmetic of the process system calls; mapping memory,
//! reading the clock and switching tasks are the caller's.

use vstd::prelude::*;

verus! {

/// Size of a page in bytes.
pub const PAGE_SIZE: usize = 0x1000;

/// Number of system call ids counted per task.
pub const MAX_SYSCALL_NUM: usize = 500;

/// Microseconds in a second.
pub const US_PER_SEC: usize = 1_000_000;

#[derive(Clone, Copy, PartialEq, Eq, Structural, Debug)]
pub enum TaskStatus {
    UnInit,
    Ready,
    Running,
    Exited,
}

/// A time as seconds and microseconds.
#[derive(Debug)]
pub struct TimeVal {
    pub sec: usize,
    pub usec: usize,
}

impl TimeVal {
    /// Splits `us` microseconds into seconds and the microseconds left.
    pub fn from_us(us: usize) -> (t: TimeVal)
        ensures
            t.sec == us / US_PER_SEC,
            t.usec == us % US_PER_SEC,
    {
        TimeVal { sec: us / US_PER_SEC, usec: us % US_PER_SEC }
    }
}

/// What a task learns about itself.
#[derive(Clone, Copy)]
pub struct TaskInfo {
    pub status: TaskStatus,
    pub syscall_times: [u32; MAX_SYSCALL_NUM],
    pub time: usize,
}

impl TaskInfo {
    /// Information on the running task: its calls, and the milliseconds
    /// since it was first scheduled at `start_us`, seen at `now_us`.
    pub fn running(syscall_times: [u32; MAX_SYSCALL_NUM], now_us: usize, start_us: usize) -> (i: TaskInfo)
        requires
            start_us <= now_us,
        ensures
            i.status == TaskStatus::Running,
            i.syscall_times@ == syscall_times@,
            i.time == (now_us - start_us) / 1000,
    {
        TaskInfo { status: TaskStatus::Running, syscall_times, time: (now_us - start_us) / 1000 }
    }
}

/// Priorities are not supported: always `-1`.
pub fn sys_set_priority(_prio: isize) -> (r: isize)
    ensures
        r == -1,
{
    -1
}

/// `len` rounded up to whole pages, if that fits a `usize`.
pub open spec fn page_round(len: int) -> int {
    if len % PAGE_SIZE as int == 0 {
        len
    } else {
        (len / PAGE_SIZE as int + 1) * PAGE_SIZE as int
    }
}

/// Checks a request to map `len` bytes at `start` with protection `port`
/// and gives the length to map, in whole pages. `Err(-1)` when `start` is
/// not page aligned, when `port` has bits other than the lowest three or
/// none of them, or when the rounded length does not fit.
pub fn sys_mmap(start: usize, len: usize, port: usize) -> (r: Result<usize, isize>)
    ensures
        start % PAGE_SIZE != 0 || port >= 8 || port == 0 || page_round(len as int) > usize::MAX
            ==> r == Err::<usize, isize>(-1isize),
        !(start % PAGE_SIZE != 0 || port >= 8 || port == 0 || page_round(len as int) > usize::MAX)
            ==> r == Ok::<usize, isize>(page_round(len as int) as usize),
{
    if start % PAGE_SIZE != 0 {
        return Err(-1);
    }
    let high: usize = port & !0x7usize;
    assert(high == 0 <==> port < 8) by (bit_vector)
        requires
            high == port & !0x7usize,
    ;
    if high != 0 || port == 0 {
        return Err(-1);
    }
    if len % PAGE_SIZE == 0 {
        return Ok(len);
    }
    let pages: usize = len / PAGE_SIZE;
    if pages >= usize::MAX / PAGE_SIZE {
        return Err(-1);
    }
    Ok((pages + 1) * PAGE_SIZE)
}

/// Checks a request to unmap `len` bytes at `start`: `Err(-1)` unless both
/// are whole pages.
pub fn sys_munmap(start: usize, len: usize) -> (r: Result<(), isize>)
    ensures
        r == if start % PAGE_SIZE == 0 && len % PAGE_SIZE == 0 {
            Ok::<(), isize>(())
        } else {
            Err::<(), isize>(-1isize)
        },
{
    if start % PAGE_SIZE != 0 || len % PAGE_SIZE != 0 {
        Err(-1)
    } else {
        Ok(())
    }
}

} // verus!
