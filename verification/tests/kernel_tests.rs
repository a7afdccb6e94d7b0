//! Scenario tests driving the syscall-facing entry points of the kernel
//! core: mutual exclusion, wakeup at release, deadlock veto, slot reuse,
//! sleeping, and the exclusive-access wrapper.

use os_core::sync::ExclusiveCell;
use os_core::syscall::{
    check_timer, schedule_next, spawn_task, sys_condvar_create, sys_condvar_signal,
    sys_condvar_wait, sys_enable_deadlock_detect, sys_exit, sys_getpid, sys_mutex_create,
    sys_mutex_destroy, sys_mutex_lock, sys_mutex_unlock, sys_semaphore_create, sys_semaphore_down,
    sys_semaphore_up, sys_set_priority, sys_sleep, sys_yield, Kernel, DEADLOCK_CODE,
};
use os_core::task::TaskStatus;

/// A kernel with `n` spawned tasks and the first pick dispatched.
fn booted(n: usize) -> Kernel {
    let mut k = Kernel::new();
    for i in 0..n {
        let tid = spawn_task(&mut k, 1, 16);
        assert_eq!(tid, i);
    }
    schedule_next(&mut k);
    k
}

fn running_tid(k: &Kernel) -> usize {
    k.running.unwrap().tid
}

#[test]
fn boot_dispatches_later_task_on_equal_strides() {
    let k = booted(2);
    // both start at stride 0; the scan's tie-break picks the later index
    assert_eq!(running_tid(&k), 1);
}

#[test]
fn getpid_and_set_priority() {
    let mut k = Kernel::new();
    spawn_task(&mut k, 42, 16);
    schedule_next(&mut k);
    assert_eq!(sys_getpid(&k), 42);
    assert_eq!(sys_set_priority(&mut k, 1), -1);
    assert_eq!(sys_set_priority(&mut k, 0), -1);
    assert_eq!(sys_set_priority(&mut k, 7), 7);
    assert_eq!(k.running.unwrap().priority, 7);
}

#[test]
fn exit_leaves_a_zombie_with_its_code() {
    let mut k = booted(2);
    assert_eq!(sys_exit(&mut k, 3), 0);
    assert_eq!(k.zombies.len(), 1);
    assert_eq!(k.zombies[0].exit_code, 3);
    assert_eq!(k.zombies[0].status, TaskStatus::Zombie);
    // the other task was dispatched
    assert_eq!(running_tid(&k), 0);
}

#[test]
fn mutex_mutual_exclusion_blocks_second_locker() {
    let mut k = booted(2);
    assert_eq!(sys_mutex_create(&mut k, true), 0);
    // t1 runs first and takes the mutex
    assert_eq!(sys_mutex_lock(&mut k, 0), 0);
    assert_eq!(k.allocation_mutex[1][0], 1);
    assert_eq!(k.available_mutex[0], 0);
    assert_eq!(sys_yield(&mut k), 0);
    assert_eq!(running_tid(&k), 0);
    // t0's lock attempt blocks: it leaves the ready set, t1 runs again
    assert_eq!(sys_mutex_lock(&mut k, 0), 0);
    assert_eq!(running_tid(&k), 1);
    assert_eq!(k.manager.len(), 0);
    // exactly one holder at all times
    assert_eq!(k.allocation_mutex[0][0], 0);
    assert_eq!(k.allocation_mutex[1][0], 1);
    assert_eq!(k.available_mutex[0], 0);
}

#[test]
fn mutex_unlock_wakes_blocked_waiter_without_nudge() {
    let mut k = booted(2);
    assert_eq!(sys_mutex_create(&mut k, true), 0);
    assert_eq!(sys_mutex_lock(&mut k, 0), 0);
    sys_yield(&mut k);
    sys_mutex_lock(&mut k, 0); // t0 blocks
    assert_eq!(k.manager.len(), 0);
    // the matching unlock alone must resume the waiter, with the mutex
    // handed over directly
    assert_eq!(sys_mutex_unlock(&mut k, 0), 0);
    assert_eq!(k.manager.len(), 1);
    assert_eq!(k.allocation_mutex[0][0], 1);
    assert_eq!(k.allocation_mutex[1][0], 0);
    assert_eq!(k.available_mutex[0], 0);
    // the resumed task runs and can release the mutex it now holds
    sys_yield(&mut k);
    assert_eq!(running_tid(&k), 0);
    assert_eq!(sys_mutex_unlock(&mut k, 0), 0);
    assert_eq!(k.available_mutex[0], 1);
}

#[test]
fn spin_mutex_contention_yields_and_retries() {
    let mut k = booted(1);
    assert_eq!(sys_mutex_create(&mut k, false), 0);
    assert_eq!(sys_mutex_lock(&mut k, 0), 0);
    // a contended spin lock does not block: the caller yields and retries
    assert_eq!(sys_mutex_lock(&mut k, 0), 1);
    assert_eq!(running_tid(&k), 0);
    assert_eq!(sys_mutex_unlock(&mut k, 0), 0);
    assert_eq!(sys_mutex_lock(&mut k, 0), 0);
    assert_eq!(k.allocation_mutex[0][0], 1);
}

#[test]
fn deadlock_detection_vetoes_circular_request() {
    let mut k = booted(2);
    assert_eq!(sys_mutex_create(&mut k, true), 0); // mutex a
    assert_eq!(sys_mutex_create(&mut k, true), 1); // mutex b
    assert_eq!(sys_enable_deadlock_detect(&mut k, 1), 0);
    // t1 holds b
    assert_eq!(sys_mutex_lock(&mut k, 1), 0);
    sys_yield(&mut k);
    assert_eq!(running_tid(&k), 0);
    // t0 holds a and requests b: still safe, so it blocks
    assert_eq!(sys_mutex_lock(&mut k, 0), 0);
    assert_eq!(sys_mutex_lock(&mut k, 1), 0);
    assert_eq!(running_tid(&k), 1);
    // t1 requests a: that closes the cycle and must be vetoed, without
    // blocking and without touching the allocation state
    let r = sys_mutex_lock(&mut k, 0);
    assert_eq!(r, DEADLOCK_CODE);
    assert_eq!(DEADLOCK_CODE, -0xdead);
    assert_eq!(running_tid(&k), 1);
    assert_eq!(k.allocation_mutex[0][0], 1);
    assert_eq!(k.allocation_mutex[1][1], 1);
    assert_eq!(k.allocation_mutex[1][0], 0);
    assert_eq!(k.available_mutex[0], 0);
    assert_eq!(k.available_mutex[1], 0);
    // the vetoed request is rolled back, as if never made
    assert_eq!(k.need_mutex[1][0], 0);
}

#[test]
fn detection_disabled_lets_circular_request_block() {
    let mut k = booted(2);
    sys_mutex_create(&mut k, true);
    sys_mutex_create(&mut k, true);
    sys_mutex_lock(&mut k, 1);
    sys_yield(&mut k);
    sys_mutex_lock(&mut k, 0);
    sys_mutex_lock(&mut k, 1);
    // with the detector off the same request simply blocks: both tasks
    // are now wedged and nothing is runnable
    assert_eq!(sys_mutex_lock(&mut k, 0), 0);
    assert!(k.running.is_none());
    assert_eq!(k.manager.len(), 0);
}

#[test]
fn mutex_slot_reuse_after_destroy() {
    let mut k = booted(1);
    assert_eq!(sys_mutex_create(&mut k, true), 0);
    assert_eq!(sys_mutex_create(&mut k, false), 1);
    assert_eq!(sys_mutex_destroy(&mut k, 0), 0);
    // a cleared slot is an invalid handle until recreated
    assert_eq!(sys_mutex_lock(&mut k, 0), -1);
    // the freed slot id is reused before a new one is allocated
    assert_eq!(sys_mutex_create(&mut k, true), 0);
    assert_eq!(sys_mutex_create(&mut k, true), 2);
}

#[test]
fn mutex_destroy_refuses_bad_or_held_slot() {
    let mut k = booted(1);
    assert_eq!(sys_mutex_destroy(&mut k, 0), -1);
    assert_eq!(sys_mutex_create(&mut k, true), 0);
    assert_eq!(sys_mutex_lock(&mut k, 0), 0);
    assert_eq!(sys_mutex_destroy(&mut k, 0), -1);
    assert_eq!(sys_mutex_unlock(&mut k, 0), 0);
    assert_eq!(sys_mutex_destroy(&mut k, 0), 0);
}

#[test]
fn semaphore_down_blocks_and_up_transfers_unit() {
    let mut k = booted(2);
    assert_eq!(sys_semaphore_create(&mut k, 1), 0);
    // t1 takes the single unit
    assert_eq!(sys_semaphore_down(&mut k, 0), 0);
    assert_eq!(k.allocation_sem[1][0], 1);
    assert_eq!(k.available_sem[0], 0);
    sys_yield(&mut k);
    assert_eq!(running_tid(&k), 0);
    // t0 blocks in down
    assert_eq!(sys_semaphore_down(&mut k, 0), 0);
    assert_eq!(running_tid(&k), 1);
    assert_eq!(k.manager.len(), 0);
    // the matching up wakes t0 and hands it the unit directly
    assert_eq!(sys_semaphore_up(&mut k, 0), 0);
    assert_eq!(k.manager.len(), 1);
    assert_eq!(k.allocation_sem[0][0], 1);
    assert_eq!(k.allocation_sem[1][0], 0);
    assert_eq!(k.available_sem[0], 0);
}

#[test]
fn semaphore_counts_multiple_units() {
    let mut k = booted(1);
    assert_eq!(sys_semaphore_create(&mut k, 2), 0);
    assert_eq!(k.available_sem[0], 2);
    assert_eq!(sys_semaphore_down(&mut k, 0), 0);
    assert_eq!(k.available_sem[0], 1);
    assert_eq!(sys_semaphore_down(&mut k, 0), 0);
    assert_eq!(k.available_sem[0], 0);
    assert_eq!(k.allocation_sem[0][0], 2);
    assert_eq!(sys_semaphore_up(&mut k, 0), 0);
    assert_eq!(k.available_sem[0], 1);
    assert_eq!(k.allocation_sem[0][0], 1);
}

#[test]
fn condvar_wait_releases_mutex_and_signal_wakes_mesa_style() {
    let mut k = booted(2);
    assert_eq!(sys_mutex_create(&mut k, true), 0);
    assert_eq!(sys_condvar_create(&mut k), 0);
    // t1 holds the mutex, then waits: unlock and block as one step
    assert_eq!(sys_mutex_lock(&mut k, 0), 0);
    assert_eq!(sys_condvar_wait(&mut k, 0, 0), 0);
    assert_eq!(running_tid(&k), 0);
    assert_eq!(k.available_mutex[0], 1);
    assert_eq!(k.allocation_mutex[1][0], 0);
    assert_eq!(k.manager.len(), 0);
    // signal wakes at most one waiter; it does not reacquire the mutex
    assert_eq!(sys_condvar_signal(&mut k, 0), 0);
    assert_eq!(k.manager.len(), 1);
    assert_eq!(k.available_mutex[0], 1);
    // a second signal with no waiter is a no-op
    assert_eq!(sys_condvar_signal(&mut k, 0), 0);
    assert_eq!(k.manager.len(), 1);
    // the resumed task must re-lock the mutex itself; on the first yield
    // the tie-break keeps t0 (equal strides, later queue index), the
    // second hands the processor to t1
    sys_yield(&mut k);
    assert_eq!(running_tid(&k), 0);
    sys_yield(&mut k);
    assert_eq!(running_tid(&k), 1);
    assert_eq!(sys_mutex_lock(&mut k, 0), 0);
    assert_eq!(k.allocation_mutex[1][0], 1);
}

#[test]
fn sleep_parks_until_timer_expiry() {
    let mut k = booted(2);
    // t1 sleeps 50 ms from now
    assert_eq!(sys_sleep(&mut k, 100, 50), 0);
    assert_eq!(running_tid(&k), 0);
    assert_eq!(k.sleeping.len(), 1);
    assert_eq!(k.sleeping[0].expire_ms, 150);
    assert_eq!(k.sleeping[0].task.status, TaskStatus::Blocked);
    // too early: nothing wakes
    check_timer(&mut k, 149);
    assert_eq!(k.sleeping.len(), 1);
    assert_eq!(k.manager.len(), 0);
    // at the deadline the task returns to the ready set
    check_timer(&mut k, 150);
    assert_eq!(k.sleeping.len(), 0);
    assert_eq!(k.manager.len(), 1);
}

#[test]
fn invalid_ids_are_refused_with_minus_one() {
    let mut k = booted(1);
    assert_eq!(sys_mutex_lock(&mut k, 3), -1);
    assert_eq!(sys_mutex_unlock(&mut k, 3), -1);
    assert_eq!(sys_semaphore_up(&mut k, 0), -1);
    assert_eq!(sys_semaphore_down(&mut k, 0), -1);
    assert_eq!(sys_condvar_signal(&mut k, 1), -1);
    assert_eq!(sys_condvar_wait(&mut k, 1, 0), -1);
    assert_eq!(sys_mutex_destroy(&mut k, 3), -1);
}

#[test]
fn idle_when_ready_set_empty() {
    let mut k = Kernel::new();
    schedule_next(&mut k);
    assert!(k.running.is_none());
}

#[test]
fn exclusive_cell_round_trip() {
    let mut cell: ExclusiveCell<u32> = ExclusiveCell::new(5);
    let v = cell.exclusive_access();
    assert_eq!(v, 5);
    cell.release(v + 1);
    let v2 = cell.exclusive_access();
    assert_eq!(v2, 6);
    cell.release(v2);
}

#[test]
fn semaphore_and_condvar_ids_are_dense() {
    let mut k = booted(1);
    assert_eq!(sys_condvar_create(&mut k), 0);
    assert_eq!(sys_condvar_create(&mut k), 1);
    assert_eq!(sys_semaphore_create(&mut k, 3), 0);
    assert_eq!(sys_semaphore_create(&mut k, 0), 1);
    assert_eq!(k.available_sem[0], 3);
    assert_eq!(k.available_sem[1], 0);
}

#[test]
fn sleep_zero_expires_at_once() {
    let mut k = booted(1);
    assert_eq!(sys_sleep(&mut k, 5, 0), 0);
    assert!(k.running.is_none());
    check_timer(&mut k, 5);
    assert_eq!(k.sleeping.len(), 0);
    assert_eq!(k.manager.len(), 1);
    schedule_next(&mut k);
    assert_eq!(running_tid(&k), 0);
}

#[test]
fn timer_wakes_only_expired_sleepers() {
    let mut k = booted(3);
    sys_sleep(&mut k, 0, 10);
    sys_sleep(&mut k, 0, 20);
    sys_sleep(&mut k, 0, 10);
    assert!(k.running.is_none());
    assert_eq!(k.sleeping.len(), 3);
    check_timer(&mut k, 10);
    assert_eq!(k.manager.len(), 2);
    assert_eq!(k.sleeping.len(), 1);
    assert_eq!(k.sleeping[0].expire_ms, 20);
    check_timer(&mut k, 20);
    assert_eq!(k.manager.len(), 3);
    assert_eq!(k.sleeping.len(), 0);
}
