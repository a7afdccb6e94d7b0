//! Tests for the stride scheduler, the task records and the deadlock
//! detector's safety check.

use os_core::detect::check_safety;
use os_core::manager::{TaskManager, BIG_STRIDE};
use os_core::task::{Task, TaskInfo, TaskStatus, MAX_SYSCALL_NUM};

fn ready_task(tid: usize, stride: u64, priority: u64) -> Task {
    Task { pid: 1, tid, status: TaskStatus::Ready, stride, priority, exit_code: 0 }
}

#[test]
fn fetch_on_empty_queue_is_idle() {
    let mut m = TaskManager::new();
    assert!(m.fetch().is_none());
    assert_eq!(m.len(), 0);
}

#[test]
fn fetch_picks_smallest_stride() {
    let mut m = TaskManager::new();
    m.add(ready_task(0, 50, 2));
    m.add(ready_task(1, 10, 2));
    m.add(ready_task(2, 30, 2));
    let t = m.fetch().unwrap();
    assert_eq!(t.tid, 1);
    assert_eq!(t.stride, 10 + BIG_STRIDE / 2);
    assert_eq!(m.len(), 2);
}

#[test]
fn tie_break_returns_later_index() {
    // Two ready tasks of identical stride: the later-indexed one wins.
    let mut m = TaskManager::new();
    m.add(ready_task(0, 25, 2));
    m.add(ready_task(1, 25, 2));
    let t = m.fetch().unwrap();
    assert_eq!(t.tid, 1);
}

#[test]
fn stride_advances_by_big_stride_over_priority() {
    let mut m = TaskManager::new();
    m.add(ready_task(7, 0, 5));
    m.update_stride_by_index(0);
    let t = m.fetch().unwrap();
    assert_eq!(t.tid, 7);
    // one explicit update plus the one done by fetch
    assert_eq!(t.stride, 2 * (BIG_STRIDE / 5));
}

#[test]
fn dispatch_counts_follow_priorities() {
    // Priorities 100 and 200: the priority-200 task must be dispatched
    // about twice as often while both stay perpetually ready.  The window
    // stays short of the stride constant: past it the policy's known
    // wraparound edge sets in.
    let mut m = TaskManager::new();
    m.add(ready_task(0, 0, 100));
    m.add(ready_task(1, 0, 200));
    let mut counts: [i64; 2] = [0, 0];
    for _ in 0..120 {
        let t = m.fetch().unwrap();
        counts[t.tid] += 1;
        m.add(t);
    }
    assert!((2 * counts[0] - counts[1]).abs() <= 3, "counts {counts:?}");
}

#[test]
fn safety_check_accepts_orderable_snapshot() {
    let available: Vec<usize> = vec![0, 0];
    let need: Vec<Vec<usize>> = vec![vec![0, 0], vec![0, 1]];
    let allocation: Vec<Vec<usize>> = vec![vec![0, 1], vec![1, 0]];
    assert!(check_safety(&available, &need, &allocation));
}

#[test]
fn safety_check_rejects_circular_snapshot() {
    let available: Vec<usize> = vec![0, 0];
    let need: Vec<Vec<usize>> = vec![vec![1, 0], vec![0, 1]];
    let allocation: Vec<Vec<usize>> = vec![vec![0, 1], vec![1, 0]];
    assert!(!check_safety(&available, &need, &allocation));
}

#[test]
fn safety_check_classic_banker_example() {
    // A classic multi-resource snapshot with a safe completion order.
    let available: Vec<usize> = vec![3, 3, 2];
    let need: Vec<Vec<usize>> = vec![
        vec![7, 4, 3],
        vec![1, 2, 2],
        vec![6, 0, 0],
        vec![0, 1, 1],
        vec![4, 3, 1],
    ];
    let allocation: Vec<Vec<usize>> = vec![
        vec![0, 1, 0],
        vec![2, 0, 0],
        vec![3, 0, 2],
        vec![2, 1, 1],
        vec![0, 0, 2],
    ];
    assert!(check_safety(&available, &need, &allocation));
}

#[test]
fn safety_check_empty_snapshot_is_safe() {
    let available: Vec<usize> = Vec::new();
    let need: Vec<Vec<usize>> = Vec::new();
    let allocation: Vec<Vec<usize>> = Vec::new();
    assert!(check_safety(&available, &need, &allocation));
}

#[test]
fn task_info_records_status_counts_and_time() {
    let mut info = TaskInfo::new();
    assert_eq!(info.status(), TaskStatus::Ready);
    assert_eq!(info.time(), 0);
    assert_eq!(info.syscall_count(64), 0);
    info.change_status(TaskStatus::Running);
    info.add_syscall_time(64);
    info.add_syscall_time(64);
    info.add_syscall_time(93);
    info.change_time(250, 100);
    assert_eq!(info.status(), TaskStatus::Running);
    assert_eq!(info.syscall_count(64), 2);
    assert_eq!(info.syscall_count(93), 1);
    assert_eq!(info.syscall_count(MAX_SYSCALL_NUM - 1), 0);
    assert_eq!(info.time(), 150);
    info.change_time(300, 100);
    assert_eq!(info.time(), 200);
}

#[test]
fn scan_degenerates_once_strides_pass_the_constant() {
    // Once every stride has run past BIG_STRIDE, the scan's running
    // minimum never updates and the first entry is picked: the policy's
    // known, uncompensated wraparound edge.
    let mut m = TaskManager::new();
    m.add(ready_task(0, BIG_STRIDE + 5, 2));
    m.add(ready_task(1, BIG_STRIDE + 1, 2));
    let t = m.fetch().unwrap();
    assert_eq!(t.tid, 0);
}

#[test]
fn task_info_list_tracks_slots_exclusively() {
    let mut list = os_core::task::TaskInfoList::new(3);
    let mut infos = list.task_infos.exclusive_access();
    assert_eq!(infos.len(), 3);
    infos[2].add_syscall_time(124);
    infos[2].change_status(TaskStatus::Running);
    list.task_infos.release(infos);
    let infos = list.task_infos.exclusive_access();
    assert_eq!(infos[2].syscall_count(124), 1);
    assert_eq!(infos[2].status(), TaskStatus::Running);
    assert_eq!(infos[0].syscall_count(124), 0);
    list.task_infos.release(infos);
    let times = list.task_init_times.exclusive_access();
    assert_eq!(times, vec![0, 0, 0]);
    list.task_init_times.release(times);
}
