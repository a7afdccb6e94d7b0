//! Tasks (threads) and the per-task accounting record.

use vstd::prelude::*;
use crate::sync::ExclusiveCell;

verus! {

/// Number of distinct syscall ids whose invocation counts a task records.
pub const MAX_SYSCALL_NUM: usize = 500;

/// Lifecycle status of a task.
#[derive(Clone, Copy, Debug, PartialEq, Eq, Structural)]
pub enum TaskStatus {
    /// In the ready queue, waiting to be dispatched.
    Ready,
    /// The task the processor is currently executing.
    Running,
    /// Removed from scheduling until a wakeup (unlock/up/signal/timer).
    Blocked,
    /// Exited; waiting to be reaped by its parent.
    Zombie,
}

/// A schedulable thread.
///
/// Identity is the pair (process id, thread slot index); the thread slot
/// index `tid` is the row used in the resource-accounting matrices.  The
/// task holds no owning reference to its process: `pid` is resolved through
/// a registry by the surrounding system.
#[derive(Clone, Copy, Debug, PartialEq, Eq, Structural)]
pub struct Task {
    /// Id of the owning process (a non-owning back-reference).
    pub pid: usize,
    /// Thread slot index inside the owning process.
    pub tid: usize,
    /// Lifecycle status.
    pub status: TaskStatus,
    /// Accumulated stride; the ready task with the smallest stride runs next.
    pub stride: u64,
    /// Stride divisor; at least 2.  A larger priority gives a smaller stride
    /// increment and hence more frequent selection.
    pub priority: u64,
    /// Exit status, meaningful once `status` is `Zombie`.
    pub exit_code: i32,
}

/// The seconds/microseconds pair in which the timer collaborator reports
/// wall-clock time to user tasks.
#[derive(Clone, Copy, Debug, PartialEq, Eq, Structural)]
pub struct TimeVal {
    /// Whole seconds.
    pub sec: usize,
    /// Microseconds below one second.
    pub usec: usize,
}

/// Per-task bookkeeping: lifecycle status, how often each syscall was made,
/// and the time elapsed since the task first ran.
pub struct TaskInfo {
    status: TaskStatus,
    syscall_times: Vec<u32>,
    time: usize,
}

impl TaskInfo {
    /// The record always keeps one counter per syscall id.
    pub closed spec fn wf(self) -> bool {
        self.syscall_times@.len() == MAX_SYSCALL_NUM
    }

    /// The recorded lifecycle status.
    pub closed spec fn spec_status(self) -> TaskStatus {
        self.status
    }

    /// The syscall counters, indexed by syscall id.
    pub closed spec fn counts(self) -> Seq<u32> {
        self.syscall_times@
    }

    /// The recorded running time.
    pub closed spec fn spec_time(self) -> usize {
        self.time
    }

    /// A fresh record: status `Ready`, every counter zero, no time elapsed.
    pub fn new() -> (r: Self)
        ensures
            r.wf(),
            r.spec_status() == TaskStatus::Ready,
            forall|i: int| 0 <= i < MAX_SYSCALL_NUM ==> r.counts()[i] == 0u32,
            r.spec_time() == 0,
    {
        let times: Vec<u32> = vec![0u32; MAX_SYSCALL_NUM];
        assert(forall|i: int| 0 <= i < MAX_SYSCALL_NUM ==> times@[i] == 0u32);
        TaskInfo { status: TaskStatus::Ready, syscall_times: times, time: 0 }
    }

    /// The recorded lifecycle status.
    pub fn status(&self) -> (r: TaskStatus)
        ensures
            r == self.spec_status(),
    {
        self.status
    }

    /// The recorded running time.
    pub fn time(&self) -> (r: usize)
        ensures
            r == self.spec_time(),
    {
        self.time
    }

    /// How often the given syscall id was invoked.
    pub fn syscall_count(&self, syscall_id: usize) -> (r: u32)
        requires
            self.wf(),
            syscall_id < MAX_SYSCALL_NUM,
        ensures
            r == self.counts()[syscall_id as int],
    {
        self.syscall_times[syscall_id]
    }

    /// Record a new lifecycle status.
    pub fn change_status(&mut self, cur: TaskStatus)
        ensures
            final(self).spec_status() == cur,
            final(self).counts() == old(self).counts(),
            final(self).spec_time() == old(self).spec_time(),
    {
        self.status = cur;
    }

    /// Count one more invocation of the given syscall id.
    pub fn add_syscall_time(&mut self, syscall_id: usize)
        requires
            old(self).wf(),
            syscall_id < MAX_SYSCALL_NUM,
            old(self).counts()[syscall_id as int] < u32::MAX,
        ensures
            final(self).wf(),
            final(self).counts() == old(self).counts().update(
                syscall_id as int,
                (old(self).counts()[syscall_id as int] + 1) as u32,
            ),
            final(self).spec_status() == old(self).spec_status(),
            final(self).spec_time() == old(self).spec_time(),
    {
        let n = self.syscall_times[syscall_id];
        self.syscall_times[syscall_id] = n + 1;
    }

    /// Record the time elapsed since the task was first dispatched, given the
    /// current time and the recorded initial time.
    pub fn change_time(&mut self, cur_time: usize, init_time: usize)
        requires
            init_time <= cur_time,
        ensures
            final(self).spec_time() == cur_time - init_time,
            final(self).counts() == old(self).counts(),
            final(self).spec_status() == old(self).spec_status(),
    {
        self.time = cur_time - init_time;
    }
}

/// Shared per-task accounting for the syscall dispatch layer: one record of
/// status and syscall counts per task slot, and the time each slot was
/// first dispatched.  Each table sits behind its own exclusive-access cell,
/// since the dispatcher touches them on every trap.
pub struct TaskInfoList {
    /// Accounting record per task slot.
    pub task_infos: ExclusiveCell<Vec<TaskInfo>>,
    /// First-dispatch time per task slot, in milliseconds.
    pub task_init_times: ExclusiveCell<Vec<usize>>,
}

impl TaskInfoList {
    /// Fresh accounting for `slots` task slots: every record new, every
    /// first-dispatch time zero.
    pub fn new(slots: usize) -> (r: Self)
        ensures
            r.task_infos.is_present(),
            r.task_infos.spec_value()@.len() == slots,
            forall|i: int| 0 <= i < slots ==> (#[trigger] r.task_infos.spec_value()@[i]).wf(),
            r.task_init_times.is_present(),
            r.task_init_times.spec_value()@.len() == slots,
            forall|i: int| 0 <= i < slots ==> #[trigger] r.task_init_times.spec_value()@[i] == 0,
    {
        let mut infos: Vec<TaskInfo> = Vec::new();
        let mut times: Vec<usize> = Vec::new();
        let mut i: usize = 0;
        while i < slots
            invariant
                0 <= i <= slots,
                infos@.len() == i,
                times@.len() == i,
                forall|j: int| 0 <= j < i ==> (#[trigger] infos@[j]).wf(),
                forall|j: int| 0 <= j < i ==> #[trigger] times@[j] == 0,
            decreases slots - i,
        {
            infos.push(TaskInfo::new());
            times.push(0);
            i += 1;
        }
        TaskInfoList {
            task_infos: ExclusiveCell::new(infos),
            task_init_times: ExclusiveCell::new(times),
        }
    }
}

} // verus!
