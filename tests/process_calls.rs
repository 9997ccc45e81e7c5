use deadlock_detect::fs::{sys_close, sys_linkat, sys_read, sys_write};
use deadlock_detect::process::{
    sys_mmap, sys_munmap, sys_set_priority, TaskInfo, TaskStatus, TimeVal, MAX_SYSCALL_NUM,
};

#[test]
fn time_splits_into_seconds_and_micros() {
    let t = TimeVal::from_us(3_250_017);
    assert_eq!((t.sec, t.usec), (3, 250_017));
    let t = TimeVal::from_us(999_999);
    assert_eq!((t.sec, t.usec), (0, 999_999));
}

#[test]
fn task_info_reports_running_time_in_ms() {
    let mut times = [0u32; MAX_SYSCALL_NUM];
    times[64] = 3;
    let i = TaskInfo::running(times, 12_345_678, 2_000_000);
    assert!(i.status == TaskStatus::Running);
    assert_eq!(i.syscall_times[64], 3);
    assert_eq!(i.time, 10_345);
}

#[test]
fn priority_is_refused() {
    assert_eq!(sys_set_priority(16), -1);
}

#[test]
fn mmap_checks_alignment_and_protection() {
    assert_eq!(sys_mmap(0x1001, 0x1000, 1), Err(-1));
    assert_eq!(sys_mmap(0x1000, 0x1000, 0), Err(-1));
    assert_eq!(sys_mmap(0x1000, 0x1000, 8), Err(-1));
    assert_eq!(sys_mmap(0x1000, 0x1000, 0xf), Err(-1));
    assert_eq!(sys_mmap(0x1000, 0x1000, 7), Ok(0x1000));
    assert_eq!(sys_mmap(0x2000, 1, 3), Ok(0x1000));
    assert_eq!(sys_mmap(0x2000, 0x1001, 3), Ok(0x2000));
    assert_eq!(sys_mmap(0, 0, 1), Ok(0));
    assert_eq!(sys_mmap(0, usize::MAX, 1), Err(-1));
}

#[test]
fn munmap_needs_whole_pages() {
    assert_eq!(sys_munmap(0x3000, 0x2000), Ok(()));
    assert_eq!(sys_munmap(0x3000, 0x2001), Err(-1));
    assert_eq!(sys_munmap(0x3010, 0x2000), Err(-1));
}

#[test]
fn descriptors_must_be_open() {
    let mut table = vec![true, false, true];
    assert_eq!(sys_write(&table, 0), Ok(()));
    assert_eq!(sys_write(&table, 1), Err(-1));
    assert_eq!(sys_read(&table, 2), Ok(()));
    assert_eq!(sys_read(&table, 3), Err(-1));
    assert_eq!(sys_close(&mut table, 2), 0);
    assert_eq!(table, vec![true, false, false]);
    assert_eq!(sys_close(&mut table, 2), -1);
    assert_eq!(sys_close(&mut table, 9), -1);
    assert_eq!(table, vec![true, false, false]);
}

#[test]
fn link_to_same_name_is_refused() {
    assert_eq!(sys_linkat(&b"a.txt".to_vec(), &b"a.txt".to_vec()), Err(-1));
    assert_eq!(sys_linkat(&b"a.txt".to_vec(), &b"b.txt".to_vec()), Ok(()));
    assert_eq!(sys_linkat(&b"a".to_vec(), &b"ab".to_vec()), Ok(()));
}
