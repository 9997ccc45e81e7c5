//! The checks of the file system calls on a task's descriptor table. The
//! table is seen as one flag per descriptor: whether it is open. Reading,
//! writing and the files themselves are the caller's.

use vstd::prelude::*;

verus! {

/// Whether descriptor `fd` is open in `table`.
pub open spec fn is_open(table: Seq<bool>, fd: int) -> bool {
    0 <= fd < table.len() && table[fd]
}

/// Checks a write to descriptor `fd`: `Err(-1)` unless it is open.
pub fn sys_write(table: &Vec<bool>, fd: usize) -> (r: Result<(), isize>)
    ensures
        r == if is_open(table@, fd as int) {
            Ok::<(), isize>(())
        } else {
            Err::<(), isize>(-1isize)
        },
{
    if fd < table.len() && table[fd] {
        Ok(())
    } else {
        Err(-1)
    }
}

/// Checks a read from descriptor `fd`: `Err(-1)` unless it is open.
pub fn sys_read(table: &Vec<bool>, fd: usize) -> (r: Result<(), isize>)
    ensures
        r == if is_open(table@, fd as int) {
            Ok::<(), isize>(())
        } else {
            Err::<(), isize>(-1isize)
        },
{
    sys_write(table, fd)
}

/// Closes descriptor `fd`: `0`, or `-1` with the table unchanged when it is
/// not open.
pub fn sys_close(table: &mut Vec<bool>, fd: usize) -> (r: isize)
    ensures
        is_open(old(table)@, fd as int) ==> r == 0 && final(table)@ == old(table)@.update(fd as int, false),
        !is_open(old(table)@, fd as int) ==> r == -1 && final(table)@ == old(table)@,
{
    if fd >= table.len() || !table[fd] {
        return -1;
    }
    table.set(fd, false);
    0
}

/// Checks a request to link `new_name` to `old_name`: `Err(-1)` when the
/// two names are the same.
pub fn sys_linkat(old_name: &Vec<u8>, new_name: &Vec<u8>) -> (r: Result<(), isize>)
    ensures
        r == if old_name@ == new_name@ {
            Err::<(), isize>(-1isize)
        } else {
            Ok::<(), isize>(())
        },
{
    if old_name.len() != new_name.len() {
        return Ok(());
    }
    let mut i: usize = 0;
    while i < old_name.len()
        invariant
            old_name@.len() == new_name@.len(),
            i <= old_name@.len(),
            forall|j: int| 0 <= j < i ==> old_name@[j] == new_name@[j],
        decreases old_name@.len() - i,
    {
        if old_name[i] != new_name[i] {
            return Ok(());
        }
        i = i + 1;
    }
    assert(old_name@ =~= new_name@);
    Err(-1)
}

} // verus!
