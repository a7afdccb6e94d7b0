//! Syscall-facing operations over the kernel's scheduling and
//! synchronization state.
//!
//! The surrounding system (trap dispatch) decodes user requests and calls
//! the `sys_*` entry points here, passing the explicit [`Kernel`] state that
//! a real kernel would keep in a global behind its exclusive-access cell.
//! Exactly one task executes at a time: each entry point is one atomic step
//! of the interleaving, and "blocking" means moving the current task out of
//! scheduling and handing the processor to the scheduler's next pick.
//!
//! Bookkeeping for a contended acquisition is committed at handoff time: the
//! instant `unlock`/`up` transfers the resource to the head waiter, the
//! tables record the transfer, which is what the resumed task would do first
//! thing upon running.

use vstd::prelude::*;
use crate::detect::{
    col_of, seq_sum, lemma_seq_sum_nonneg, lemma_seq_sum_two_entries, lemma_seq_sum_zero,
    lemma_seq_sum_entry, lemma_seq_sum_update, lemma_seq_sum_push,
};
use crate::manager::{scan_idx, stride_after, TaskManager};
use crate::sync::{Condvar, Mutex, Semaphore};
use crate::task::{Task, TaskStatus};

verus! {

/// Distinguished status for an acquisition vetoed by the deadlock detector,
/// distinct from the generic `-1` failure for an invalid id.
pub const DEADLOCK_CODE: isize = -0xdead;

/// A task parked until an absolute deadline, registered by the sleep
/// syscall and released by the timer collaborator.
#[derive(Clone, Copy, Debug, PartialEq, Eq, Structural)]
pub struct SleepEntry {
    /// Absolute wakeup time in milliseconds.
    pub expire_ms: usize,
    /// The parked task.
    pub task: Task,
}

/// The scheduling and synchronization state of the kernel: the global ready
/// queue, the current task, and the owning process's primitive slots and
/// resource-accounting tables.
pub struct Kernel {
    /// The global ready queue.
    pub manager: TaskManager,
    /// The task the processor is executing, if any.
    pub running: Option<Task>,
    /// Tasks parked until a timer deadline.
    pub sleeping: Vec<SleepEntry>,
    /// Exited tasks awaiting reaping.
    pub zombies: Vec<Task>,
    /// Mutex slots; slot ids are reused after a clear.
    pub mutex_list: Vec<Option<Mutex>>,
    /// Semaphore slots.
    pub semaphore_list: Vec<Option<Semaphore>>,
    /// Condition-variable slots.
    pub condvar_list: Vec<Option<Condvar>>,
    /// Free units per mutex slot (1 or 0).
    pub available_mutex: Vec<usize>,
    /// Mutex units requested but not yet granted, per thread and slot.
    pub need_mutex: Vec<Vec<usize>>,
    /// Mutex units currently held, per thread and slot.
    pub allocation_mutex: Vec<Vec<usize>>,
    /// Free units per semaphore slot.
    pub available_sem: Vec<usize>,
    /// Semaphore units requested but not yet granted.
    pub need_sem: Vec<Vec<usize>>,
    /// Semaphore units currently held.
    pub allocation_sem: Vec<Vec<usize>>,
    /// Whether the deadlock detector vets blocking acquisitions.
    pub deadlock_detect_enabled: bool,
    /// Number of thread slots (rows of the accounting matrices).
    pub num_threads: usize,
}

/// A task is shaped for this kernel: its thread slot indexes the accounting
/// matrices, its priority is a usable stride divisor, and its process id
/// fits the syscall status word.
pub open spec fn task_ok(nthreads: int, t: Task) -> bool {
    &&& t.tid < nthreads
    &&& t.priority >= 2
    &&& t.pid <= isize::MAX
}

/// A task blocked on a primitive slot: well shaped and marked blocked.
pub open spec fn blocked_waiter_ok(nthreads: int, w: Task) -> bool {
    &&& task_ok(nthreads, w)
    &&& w.status == TaskStatus::Blocked
}

/// The accounting invariant of one mutex slot.  For an occupied slot, one
/// unit exists in all: `available + sum(allocation column) == 1`, the lock
/// flag mirrors `available`, and every queued waiter is a blocked task.  A
/// cleared slot carries no units and no requests.
pub open spec fn mutex_slot_ok(
    slot: Option<Mutex>,
    avail: int,
    need_col: Seq<usize>,
    alloc_col: Seq<usize>,
    nthreads: int,
) -> bool {
    match slot {
        Option::Some(mx) => {
            &&& 0 <= avail <= 1
            &&& (mx.locked() <==> avail == 0)
            &&& avail + seq_sum(alloc_col) == 1
            &&& forall|t: int| 0 <= t < nthreads ==> #[trigger] alloc_col[t] <= 1
            &&& forall|t: int| 0 <= t < nthreads ==> #[trigger] need_col[t] <= 1
            &&& (mx.waiters().len() > 0 ==> mx.locked())
            &&& forall|i: int|
                0 <= i < mx.waiters().len() ==> blocked_waiter_ok(
                    nthreads,
                    #[trigger] mx.waiters()[i],
                )
        },
        Option::None => {
            &&& avail == 0
            &&& forall|t: int| 0 <= t < nthreads ==> #[trigger] alloc_col[t] == 0
            &&& forall|t: int| 0 <= t < nthreads ==> #[trigger] need_col[t] == 0
        },
    }
}

/// The accounting invariant of one semaphore slot: `available` mirrors the
/// non-negative part of the counter, and the allocation column accounts for
/// every unit taken out (`sum == total - count - queued`).
pub open spec fn sem_slot_ok(
    slot: Option<Semaphore>,
    avail: int,
    need_col: Seq<usize>,
    alloc_col: Seq<usize>,
    nthreads: int,
) -> bool {
    match slot {
        Option::Some(sem) => {
            &&& sem.wf()
            &&& avail == (if sem.spec_count() >= 0 {
                sem.spec_count()
            } else {
                0int
            })
            &&& seq_sum(alloc_col) == sem.spec_total() - sem.spec_count() - sem.waiters().len()
            &&& forall|t: int| 0 <= t < nthreads ==> #[trigger] need_col[t] <= 1
            &&& forall|i: int|
                0 <= i < sem.waiters().len() ==> blocked_waiter_ok(
                    nthreads,
                    #[trigger] sem.waiters()[i],
                )
        },
        Option::None => {
            &&& avail == 0
            &&& forall|t: int| 0 <= t < nthreads ==> #[trigger] alloc_col[t] == 0
            &&& forall|t: int| 0 <= t < nthreads ==> #[trigger] need_col[t] == 0
        },
    }
}

/// The invariant of one condition-variable slot: every waiter is a blocked,
/// well-shaped task.
pub open spec fn condvar_slot_ok(slot: Option<Condvar>, nthreads: int) -> bool {
    match slot {
        Option::Some(cv) => forall|i: int|
            0 <= i < cv.waiters().len() ==> task_ok(nthreads, #[trigger] cv.waiters()[i])
                && cv.waiters()[i].status == TaskStatus::Blocked,
        Option::None => true,
    }
}

impl Kernel {
    /// Number of thread slots.
    pub open spec fn nthreads(self) -> int {
        self.num_threads as int
    }

    /// Number of mutex slots.
    pub open spec fn nmutex(self) -> int {
        self.mutex_list@.len() as int
    }

    /// Number of semaphore slots.
    pub open spec fn nsem(self) -> int {
        self.semaphore_list@.len() as int
    }

    /// Number of condition-variable slots.
    pub open spec fn ncondvar(self) -> int {
        self.condvar_list@.len() as int
    }

    /// Whether some task is currently executing.
    pub open spec fn has_cur(self) -> bool {
        self.running is Some
    }

    /// The currently executing task.
    pub open spec fn cur(self) -> Task
        recommends
            self.has_cur(),
    {
        self.running->Some_0
    }

    /// Column `id` of the mutex `need` matrix.
    pub open spec fn mutex_need_col(self, id: int) -> Seq<usize> {
        col_of(self.need_mutex.deep_view(), id, self.nthreads())
    }

    /// Column `id` of the mutex `allocation` matrix.
    pub open spec fn mutex_alloc_col(self, id: int) -> Seq<usize> {
        col_of(self.allocation_mutex.deep_view(), id, self.nthreads())
    }

    /// Column `id` of the semaphore `need` matrix.
    pub open spec fn sem_need_col(self, id: int) -> Seq<usize> {
        col_of(self.need_sem.deep_view(), id, self.nthreads())
    }

    /// Column `id` of the semaphore `allocation` matrix.
    pub open spec fn sem_alloc_col(self, id: int) -> Seq<usize> {
        col_of(self.allocation_sem.deep_view(), id, self.nthreads())
    }

    /// Shapes: one `available` entry per slot, one matrix row per thread,
    /// each row as wide as the slot list of its class.
    pub open spec fn wf_shapes(self) -> bool {
        &&& self.available_mutex@.len() == self.nmutex()
        &&& self.need_mutex@.len() == self.nthreads()
        &&& self.allocation_mutex@.len() == self.nthreads()
        &&& forall|t: int|
            0 <= t < self.nthreads() ==> (#[trigger] self.need_mutex@[t])@.len() == self.nmutex()
        &&& forall|t: int|
            0 <= t < self.nthreads() ==> (#[trigger] self.allocation_mutex@[t])@.len()
                == self.nmutex()
        &&& self.available_sem@.len() == self.nsem()
        &&& self.need_sem@.len() == self.nthreads()
        &&& self.allocation_sem@.len() == self.nthreads()
        &&& forall|t: int|
            0 <= t < self.nthreads() ==> (#[trigger] self.need_sem@[t])@.len() == self.nsem()
        &&& forall|t: int|
            0 <= t < self.nthreads() ==> (#[trigger] self.allocation_sem@[t])@.len() == self.nsem()
    }

    /// The kernel invariant: shapes hold, every task in every container is
    /// well shaped and carries the status of its container, and every slot
    /// satisfies its accounting invariant.
    pub open spec fn wf(self) -> bool {
        &&& self.wf_shapes()
        &&& self.manager.wf()
        &&& forall|i: int|
            0 <= i < self.manager@.len() ==> task_ok(self.nthreads(), #[trigger] self.manager@[i])
                && self.manager@[i].status == TaskStatus::Ready
        &&& match self.running {
            Option::Some(t) => task_ok(self.nthreads(), t) && t.status == TaskStatus::Running,
            Option::None => true,
        }
        &&& forall|i: int|
            0 <= i < self.sleeping@.len() ==> task_ok(
                self.nthreads(),
                (#[trigger] self.sleeping@[i]).task,
            ) && self.sleeping@[i].task.status == TaskStatus::Blocked
        &&& forall|i: int|
            0 <= i < self.zombies@.len() ==> task_ok(self.nthreads(), #[trigger] self.zombies@[i])
                && self.zombies@[i].status == TaskStatus::Zombie
        &&& forall|id: int|
            0 <= id < self.nmutex() ==> mutex_slot_ok(
                #[trigger] self.mutex_list@[id],
                self.available_mutex@[id] as int,
                self.mutex_need_col(id),
                self.mutex_alloc_col(id),
                self.nthreads(),
            )
        &&& forall|id: int|
            0 <= id < self.nsem() ==> sem_slot_ok(
                #[trigger] self.semaphore_list@[id],
                self.available_sem@[id] as int,
                self.sem_need_col(id),
                self.sem_alloc_col(id),
                self.nthreads(),
            )
        &&& forall|id: int|
            0 <= id < self.ncondvar() ==> condvar_slot_ok(
                #[trigger] self.condvar_list@[id],
                self.nthreads(),
            )
    }

    /// A kernel with no tasks, no slots and detection disabled.
    pub fn new() -> (r: Self)
        ensures
            r.wf(),
            r.nthreads() == 0,
            r.nmutex() == 0,
            r.nsem() == 0,
            r.ncondvar() == 0,
            r.manager@ == Seq::<Task>::empty(),
            r.running is None,
            r.sleeping@ == Seq::<SleepEntry>::empty(),
            r.zombies@ == Seq::<Task>::empty(),
            !r.deadlock_detect_enabled,
    {
        Kernel {
            manager: TaskManager::new(),
            running: None,
            sleeping: Vec::new(),
            zombies: Vec::new(),
            mutex_list: Vec::new(),
            semaphore_list: Vec::new(),
            condvar_list: Vec::new(),
            available_mutex: Vec::new(),
            need_mutex: Vec::new(),
            allocation_mutex: Vec::new(),
            available_sem: Vec::new(),
            need_sem: Vec::new(),
            allocation_sem: Vec::new(),
            deadlock_detect_enabled: false,
            num_threads: 0,
        }
    }
}

/// Mutual exclusion: in a well-formed state, no two thread slots hold the
/// same mutex at the same time — between a successful `lock` and the
/// matching `unlock`, the holder is alone.
pub proof fn lemma_mutual_exclusion(k: Kernel, id: int, t1: int, t2: int)
    requires
        k.wf(),
        0 <= id < k.nmutex(),
        k.mutex_list@[id] is Some,
        0 <= t1 < k.nthreads(),
        0 <= t2 < k.nthreads(),
        t1 != t2,
    ensures
        !(k.mutex_alloc_col(id)[t1] == 1 && k.mutex_alloc_col(id)[t2] == 1),
{
    if k.mutex_alloc_col(id)[t1] == 1 && k.mutex_alloc_col(id)[t2] == 1 {
        lemma_seq_sum_two_entries(k.mutex_alloc_col(id), t1, t2);
    }
}

/// The mutex tables and slots are unchanged between two states.
pub open spec fn same_mutex_state(a: Kernel, b: Kernel) -> bool {
    &&& b.mutex_list == a.mutex_list
    &&& b.available_mutex == a.available_mutex
    &&& b.need_mutex == a.need_mutex
    &&& b.allocation_mutex == a.allocation_mutex
}

/// The semaphore tables and slots are unchanged between two states.
pub open spec fn same_sem_state(a: Kernel, b: Kernel) -> bool {
    &&& b.semaphore_list == a.semaphore_list
    &&& b.available_sem == a.available_sem
    &&& b.need_sem == a.need_sem
    &&& b.allocation_sem == a.allocation_sem
}

/// The condition-variable slots are unchanged between two states.
pub open spec fn same_condvar_state(a: Kernel, b: Kernel) -> bool {
    b.condvar_list == a.condvar_list
}

/// Scheduling state (ready queue, current task, sleepers, zombies) is
/// unchanged between two states.
pub open spec fn same_sched_state(a: Kernel, b: Kernel) -> bool {
    &&& b.manager == a.manager
    &&& b.running == a.running
    &&& b.sleeping == a.sleeping
    &&& b.zombies == a.zombies
}

/// Thread-slot count and detector flag are unchanged between two states.
pub open spec fn same_config(a: Kernel, b: Kernel) -> bool {
    &&& b.deadlock_detect_enabled == a.deadlock_detect_enabled
    &&& b.num_threads == a.num_threads
}

/// A mutex slot's invariant survives adding a thread slot with no units and
/// no requests.
proof fn lemma_mutex_slot_ok_extend(
    slot: Option<Mutex>,
    avail: int,
    nc: Seq<usize>,
    ac: Seq<usize>,
    n: int,
)
    requires
        mutex_slot_ok(slot, avail, nc, ac, n),
        nc.len() == n,
        ac.len() == n,
    ensures
        mutex_slot_ok(slot, avail, nc.push(0), ac.push(0), n + 1),
{
    lemma_seq_sum_push(ac, 0);
    match slot {
        Option::Some(mx) => {
            assert forall|i: int| 0 <= i < mx.waiters().len() implies blocked_waiter_ok(
                n + 1,
                #[trigger] mx.waiters()[i],
            ) by {
                assert(blocked_waiter_ok(n, mx.waiters()[i]));
            };
        },
        Option::None => {
        },
    }
}

/// A semaphore slot's invariant survives adding a thread slot with no units
/// and no requests.
proof fn lemma_sem_slot_ok_extend(
    slot: Option<Semaphore>,
    avail: int,
    nc: Seq<usize>,
    ac: Seq<usize>,
    n: int,
)
    requires
        sem_slot_ok(slot, avail, nc, ac, n),
        nc.len() == n,
        ac.len() == n,
    ensures
        sem_slot_ok(slot, avail, nc.push(0), ac.push(0), n + 1),
{
    lemma_seq_sum_push(ac, 0);
    match slot {
        Option::Some(sem) => {
            assert forall|i: int| 0 <= i < sem.waiters().len() implies blocked_waiter_ok(
                n + 1,
                #[trigger] sem.waiters()[i],
            ) by {
                assert(blocked_waiter_ok(n, sem.waiters()[i]));
            };
        },
        Option::None => {
        },
    }
}

/// A zero-filled accounting row of the given width.
fn zero_row(width: usize) -> (r: Vec<usize>)
    ensures
        r@.len() == width,
        forall|i: int| 0 <= i < width ==> #[trigger] r@[i] == 0,
{
    let mut r: Vec<usize> = Vec::new();
    let mut i: usize = 0;
    while i < width
        invariant
            0 <= i <= width,
            r@.len() == i,
            forall|j: int| 0 <= j < i ==> #[trigger] r@[j] == 0,
        decreases width - i,
    {
        r.push(0);
        i += 1;
    }
    r
}

/// Create a new thread slot: the task starts ready with stride 0 and the
/// given priority, and each accounting matrix gains a row of zeroes.  This
/// is the one point where process lifecycle creates scheduling state.
pub fn spawn_task(k: &mut Kernel, pid: usize, priority: isize) -> (tid: usize)
    requires
        old(k).wf(),
        priority >= 2,
        pid <= isize::MAX as usize,
        old(k).num_threads < usize::MAX,
    ensures
        final(k).wf(),
        tid == old(k).num_threads,
        final(k).num_threads == old(k).num_threads + 1,
        final(k).manager@ == old(k).manager@.push(
            (Task {
                pid,
                tid,
                status: TaskStatus::Ready,
                stride: 0,
                priority: priority as u64,
                exit_code: 0,
            }),
        ),
        final(k).running == old(k).running,
        final(k).sleeping == old(k).sleeping,
        final(k).zombies == old(k).zombies,
        final(k).mutex_list == old(k).mutex_list,
        final(k).available_mutex == old(k).available_mutex,
        final(k).semaphore_list == old(k).semaphore_list,
        final(k).available_sem == old(k).available_sem,
        final(k).condvar_list == old(k).condvar_list,
        final(k).deadlock_detect_enabled == old(k).deadlock_detect_enabled,
        final(k).need_mutex@.len() == old(k).need_mutex@.len() + 1,
        forall|t: int|
            0 <= t < old(k).nthreads() ==> (#[trigger] final(k).need_mutex@[t])@ == old(k).need_mutex@[t]@ && final(k).allocation_mutex@[t]@ == old(k).allocation_mutex@[t]@
                && final(k).need_sem@[t]@ == old(k).need_sem@[t]@ && final(k).allocation_sem@[t]@ == old(k).allocation_sem@[t]@,
        forall|c: int|
            0 <= c < old(k).nmutex() ==> final(k).need_mutex@[old(k).nthreads()]@[c] == 0 && final(k).allocation_mutex@[old(k).nthreads()]@[c] == 0,
        forall|c: int|
            0 <= c < old(k).nsem() ==> final(k).need_sem@[old(k).nthreads()]@[c] == 0 && final(k).allocation_sem@[old(k).nthreads()]@[c] == 0,
{
    let tid = k.num_threads;
    k.num_threads = tid + 1;
    let task = Task {
        pid,
        tid,
        status: TaskStatus::Ready,
        stride: 0,
        priority: priority as u64,
        exit_code: 0,
    };
    k.manager.add(task);
    let m = k.mutex_list.len();
    let s = k.semaphore_list.len();
    k.need_mutex.push(zero_row(m));
    k.allocation_mutex.push(zero_row(m));
    k.need_sem.push(zero_row(s));
    k.allocation_sem.push(zero_row(s));
    proof {
        let ko = *old(k);
        let n = ko.nthreads();
        assert forall|i: int| 0 <= i < k.manager@.len() implies task_ok(
            k.nthreads(),
            #[trigger] k.manager@[i],
        ) && k.manager@[i].status == TaskStatus::Ready by {
            if i < ko.manager@.len() {
                assert(task_ok(n, ko.manager@[i]));
            }
        };
        assert forall|i: int| 0 <= i < k.sleeping@.len() implies task_ok(
            k.nthreads(),
            (#[trigger] k.sleeping@[i]).task,
        ) && k.sleeping@[i].task.status == TaskStatus::Blocked by {
            assert(task_ok(n, ko.sleeping@[i].task));
        };
        assert forall|i: int| 0 <= i < k.zombies@.len() implies task_ok(
            k.nthreads(),
            #[trigger] k.zombies@[i],
        ) && k.zombies@[i].status == TaskStatus::Zombie by {
            assert(task_ok(n, ko.zombies@[i]));
        };
        assert forall|id: int| 0 <= id < k.nmutex() implies mutex_slot_ok(
            #[trigger] k.mutex_list@[id],
            k.available_mutex@[id] as int,
            k.mutex_need_col(id),
            k.mutex_alloc_col(id),
            k.nthreads(),
        ) by {
            assert(k.mutex_need_col(id) =~= ko.mutex_need_col(id).push(0));
            assert(k.mutex_alloc_col(id) =~= ko.mutex_alloc_col(id).push(0));
            assert(mutex_slot_ok(
                ko.mutex_list@[id],
                ko.available_mutex@[id] as int,
                ko.mutex_need_col(id),
                ko.mutex_alloc_col(id),
                n,
            ));
            lemma_mutex_slot_ok_extend(
                ko.mutex_list@[id],
                ko.available_mutex@[id] as int,
                ko.mutex_need_col(id),
                ko.mutex_alloc_col(id),
                n,
            );
        };
        assert forall|id: int| 0 <= id < k.nsem() implies sem_slot_ok(
            #[trigger] k.semaphore_list@[id],
            k.available_sem@[id] as int,
            k.sem_need_col(id),
            k.sem_alloc_col(id),
            k.nthreads(),
        ) by {
            assert(k.sem_need_col(id) =~= ko.sem_need_col(id).push(0));
            assert(k.sem_alloc_col(id) =~= ko.sem_alloc_col(id).push(0));
            assert(sem_slot_ok(
                ko.semaphore_list@[id],
                ko.available_sem@[id] as int,
                ko.sem_need_col(id),
                ko.sem_alloc_col(id),
                n,
            ));
            lemma_sem_slot_ok_extend(
                ko.semaphore_list@[id],
                ko.available_sem@[id] as int,
                ko.sem_need_col(id),
                ko.sem_alloc_col(id),
                n,
            );
        };
        assert forall|id: int| 0 <= id < k.ncondvar() implies condvar_slot_ok(
            #[trigger] k.condvar_list@[id],
            k.nthreads(),
        ) by {
            assert(condvar_slot_ok(ko.condvar_list@[id], n));
            match ko.condvar_list@[id] {
                Option::Some(cv) => {
                    assert forall|i: int| 0 <= i < cv.waiters().len() implies task_ok(
                        k.nthreads(),
                        #[trigger] cv.waiters()[i],
                    ) && cv.waiters()[i].status == TaskStatus::Blocked by {
                        assert(task_ok(n, cv.waiters()[i]));
                    };
                },
                Option::None => {
                },
            }
        };
    }
    tid
}

/// Hand the processor to the scheduler's next pick (or go idle).  This is
/// the dispatch step of the processor's idle loop; the previous current
/// task, if any, has already been moved wherever it belongs.
pub fn schedule_next(k: &mut Kernel)
    requires
        old(k).wf(),
        old(k).running is None,
    ensures
        final(k).wf(),
        old(k).manager@.len() == 0 ==> final(k).running is None && final(k).manager@ == old(k).manager@,
        old(k).manager@.len() > 0 ==> ({
            let q = old(k).manager@;
            let idx = scan_idx(q, q.len() as int);
            &&& 0 <= idx < q.len()
            &&& final(k).running == Some(
                (Task {
                    status: TaskStatus::Running,
                    stride: stride_after(q[idx].stride, q[idx].priority),
                    ..q[idx]
                }),
            )
            &&& final(k).manager@ == q.remove(idx)
        }),
        same_mutex_state(*old(k), *final(k)),
        same_sem_state(*old(k), *final(k)),
        same_condvar_state(*old(k), *final(k)),
        same_config(*old(k), *final(k)),
        final(k).sleeping == old(k).sleeping,
        final(k).zombies == old(k).zombies,
{
    let picked = k.manager.fetch();
    match picked {
        Some(t) => {
            k.running = Some(Task { status: TaskStatus::Running, ..t });
        },
        None => {
            k.running = None;
        },
    }
}

/// Give up the processor: the current task returns to the back of the ready
/// queue and the scheduler picks the next task (possibly the same one).
pub fn sys_yield(k: &mut Kernel) -> (r: isize)
    requires
        old(k).wf(),
        old(k).has_cur(),
    ensures
        r == 0,
        final(k).wf(),
        ({
            let q = old(k).manager@.push((Task { status: TaskStatus::Ready, ..old(k).cur() }));
            let idx = scan_idx(q, q.len() as int);
            &&& 0 <= idx < q.len()
            &&& final(k).running == Some(
                (Task {
                    status: TaskStatus::Running,
                    stride: stride_after(q[idx].stride, q[idx].priority),
                    ..q[idx]
                }),
            )
            &&& final(k).manager@ == q.remove(idx)
        }),
        same_mutex_state(*old(k), *final(k)),
        same_sem_state(*old(k), *final(k)),
        same_condvar_state(*old(k), *final(k)),
        same_config(*old(k), *final(k)),
        final(k).sleeping == old(k).sleeping,
        final(k).zombies == old(k).zombies,
{
    let cur = k.running.unwrap();
    k.running = None;
    k.manager.add(Task { status: TaskStatus::Ready, ..cur });
    schedule_next(k);
    0
}

/// The process id of the current task.
pub fn sys_getpid(k: &Kernel) -> (r: isize)
    requires
        k.wf(),
        k.has_cur(),
    ensures
        r == k.cur().pid as int,
{
    k.running.as_ref().unwrap().pid as isize
}

/// Exit the current task: it becomes a zombie holding its exit code, and
/// the scheduler picks the next task.
pub fn sys_exit(k: &mut Kernel, exit_code: i32) -> (r: isize)
    requires
        old(k).wf(),
        old(k).has_cur(),
    ensures
        r == 0,
        final(k).wf(),
        final(k).zombies@ == old(k).zombies@.push(
            (Task { status: TaskStatus::Zombie, exit_code, ..old(k).cur() }),
        ),
        old(k).manager@.len() == 0 ==> final(k).running is None && final(k).manager@ == old(k).manager@,
        old(k).manager@.len() > 0 ==> ({
            let q = old(k).manager@;
            let idx = scan_idx(q, q.len() as int);
            &&& final(k).running == Some(
                (Task {
                    status: TaskStatus::Running,
                    stride: stride_after(q[idx].stride, q[idx].priority),
                    ..q[idx]
                }),
            )
            &&& final(k).manager@ == q.remove(idx)
        }),
        same_mutex_state(*old(k), *final(k)),
        same_sem_state(*old(k), *final(k)),
        same_condvar_state(*old(k), *final(k)),
        same_config(*old(k), *final(k)),
        final(k).sleeping == old(k).sleeping,
{
    let cur = k.running.unwrap();
    k.running = None;
    k.zombies.push(Task { status: TaskStatus::Zombie, exit_code, ..cur });
    schedule_next(k);
    0
}

/// Set the current task's priority.  Values below 2 are rejected with `-1`;
/// otherwise the priority is stored and returned.
pub fn sys_set_priority(k: &mut Kernel, prio: isize) -> (r: isize)
    requires
        old(k).wf(),
        old(k).has_cur(),
    ensures
        final(k).wf(),
        prio <= 1 ==> r == -1 && final(k).running == old(k).running,
        prio >= 2 ==> r == prio && final(k).running == Some(
            (Task { priority: prio as u64, ..old(k).cur() }),
        ),
        final(k).manager == old(k).manager,
        same_mutex_state(*old(k), *final(k)),
        same_sem_state(*old(k), *final(k)),
        same_condvar_state(*old(k), *final(k)),
        same_config(*old(k), *final(k)),
        final(k).sleeping == old(k).sleeping,
        final(k).zombies == old(k).zombies,
{
    if prio <= 1 {
        return -1;
    }
    let cur = k.running.unwrap();
    k.running = Some(Task { priority: prio as u64, ..cur });
    prio
}

/// Enable (1) or disable (anything else) the deadlock detector for
/// subsequent blocking acquisitions.
pub fn sys_enable_deadlock_detect(k: &mut Kernel, enabled: usize) -> (r: isize)
    requires
        old(k).wf(),
    ensures
        r == 0,
        final(k).wf(),
        final(k).deadlock_detect_enabled == (enabled == 1),
        final(k).num_threads == old(k).num_threads,
        same_mutex_state(*old(k), *final(k)),
        same_sem_state(*old(k), *final(k)),
        same_condvar_state(*old(k), *final(k)),
        same_sched_state(*old(k), *final(k)),
{
    k.deadlock_detect_enabled = enabled == 1;
    0
}

/// The slot id that a creation call hands out: the first cleared slot at or
/// after `i`, or one past the end of the list.  Slot ids are reused to keep
/// them dense and stable for table indexing.
pub open spec fn first_free<T>(list: Seq<Option<T>>, i: int) -> int
    recommends
        0 <= i <= list.len(),
    decreases list.len() - i,
{
    if i < 0 || i >= list.len() {
        list.len() as int
    } else if list[i] is None {
        i
    } else {
        first_free(list, i + 1)
    }
}

/// Append one zero entry to every row of an accounting matrix (a new
/// resource slot column).
fn widen_rows(m: &mut Vec<Vec<usize>>)
    ensures
        final(m)@.len() == old(m)@.len(),
        forall|t: int|
            0 <= t < old(m)@.len() ==> (#[trigger] final(m)@[t])@ == old(m)@[t]@.push(0),
{
    let n = m.len();
    let mut t: usize = 0;
    while t < n
        invariant
            n == old(m)@.len(),
            m@.len() == n,
            0 <= t <= n,
            forall|i: int| 0 <= i < t ==> (#[trigger] m@[i])@ == old(m)@[i]@.push(0),
            forall|i: int| t <= i < n ==> #[trigger] m@[i] == old(m)@[i],
        decreases n - t,
    {
        let row = &mut m[t];
        row.push(0);
        t += 1;
    }
}

/// Create a mutex of the requested variant in the owning process's slot
/// table and return its id: the first cleared slot is reused, else a new
/// slot is appended.  The slot starts with its one unit available.
pub fn sys_mutex_create(k: &mut Kernel, blocking: bool) -> (r: isize)
    requires
        old(k).wf(),
        old(k).nmutex() < isize::MAX,
    ensures
        final(k).wf(),
        r == first_free(old(k).mutex_list@, 0),
        0 <= r <= old(k).nmutex(),
        ({
            let id = first_free(old(k).mutex_list@, 0);
            &&& final(k).mutex_list@.len() == (if id < old(k).nmutex() {
                old(k).nmutex()
            } else {
                old(k).nmutex() + 1
            })
            &&& forall|j: int|
                0 <= j < old(k).nmutex() && j != id ==> final(k).mutex_list@[j] == old(k).mutex_list@[j]
            &&& final(k).mutex_list@[id] is Some
            &&& !final(k).mutex_list@[id]->Some_0.locked()
            &&& final(k).mutex_list@[id]->Some_0.waiters() == Seq::<Task>::empty()
            &&& final(k).mutex_list@[id]->Some_0.is_blocking() == blocking
            &&& final(k).available_mutex@ == (if id < old(k).nmutex() {
                old(k).available_mutex@.update(id, 1usize)
            } else {
                old(k).available_mutex@.push(1usize)
            })
            &&& (id < old(k).nmutex() ==> final(k).need_mutex == old(k).need_mutex && final(k).allocation_mutex == old(k).allocation_mutex)
            &&& (id == old(k).nmutex() ==> final(k).need_mutex@.len() == old(k).need_mutex@.len()
                && final(k).allocation_mutex@.len() == old(k).allocation_mutex@.len() && (forall|
                t: int,
            |
                0 <= t < old(k).nthreads() ==> (#[trigger] final(k).need_mutex@[t])@ == old(k).need_mutex@[t]@.push(0) && (final(k).allocation_mutex@[t])@ == old(k).allocation_mutex@[t]@.push(0)))
        }),
        same_sem_state(*old(k), *final(k)),
        same_condvar_state(*old(k), *final(k)),
        same_sched_state(*old(k), *final(k)),
        same_config(*old(k), *final(k)),
{
    let ghost ko = *old(k);
    let n = k.mutex_list.len();
    let mut id: usize = 0;
    let mut found: bool = false;
    while id < n && !found
        invariant
            n == ko.mutex_list@.len(),
            k.mutex_list == ko.mutex_list,
            0 <= id <= n,
            !found ==> forall|j: int| 0 <= j < id ==> !(#[trigger] k.mutex_list@[j] is None),
            !found ==> first_free(ko.mutex_list@, id as int) == first_free(ko.mutex_list@, 0),
            found ==> id < n && k.mutex_list@[id as int] is None && id as int == first_free(
                ko.mutex_list@,
                0,
            ),
        decreases n - id, (if found { 0int } else { 1int }),
    {
        if k.mutex_list[id].is_none() {
            found = true;
        } else {
            id += 1;
        }
    }
    if found {
        k.mutex_list[id] = Some(Mutex::new(blocking));
        k.available_mutex[id] = 1;
        proof {
            assert(k.mutex_need_col(id as int) =~= ko.mutex_need_col(id as int));
            assert(k.mutex_alloc_col(id as int) =~= ko.mutex_alloc_col(id as int));
            assert forall|j: int| 0 <= j < k.nmutex() implies mutex_slot_ok(
                #[trigger] k.mutex_list@[j],
                k.available_mutex@[j] as int,
                k.mutex_need_col(j),
                k.mutex_alloc_col(j),
                k.nthreads(),
            ) by {
                assert(mutex_slot_ok(
                    ko.mutex_list@[j],
                    ko.available_mutex@[j] as int,
                    ko.mutex_need_col(j),
                    ko.mutex_alloc_col(j),
                    ko.nthreads(),
                ));
                assert(k.mutex_need_col(j) =~= ko.mutex_need_col(j));
                assert(k.mutex_alloc_col(j) =~= ko.mutex_alloc_col(j));
                if j == id as int {
                    lemma_seq_sum_zero(ko.mutex_alloc_col(j));
                }
            };
        }
        id as isize
    } else {
        k.mutex_list.push(Some(Mutex::new(blocking)));
        k.available_mutex.push(1);
        widen_rows(&mut k.need_mutex);
        widen_rows(&mut k.allocation_mutex);
        proof {
            assert(first_free(ko.mutex_list@, n as int) == n as int);
            assert forall|j: int| 0 <= j < k.nmutex() implies mutex_slot_ok(
                #[trigger] k.mutex_list@[j],
                k.available_mutex@[j] as int,
                k.mutex_need_col(j),
                k.mutex_alloc_col(j),
                k.nthreads(),
            ) by {
                if j < n {
                    assert(mutex_slot_ok(
                        ko.mutex_list@[j],
                        ko.available_mutex@[j] as int,
                        ko.mutex_need_col(j),
                        ko.mutex_alloc_col(j),
                        ko.nthreads(),
                    ));
                    assert(k.mutex_need_col(j) =~= ko.mutex_need_col(j));
                    assert(k.mutex_alloc_col(j) =~= ko.mutex_alloc_col(j));
                    assert(k.mutex_list@[j] == ko.mutex_list@[j]);
                } else {
                    assert forall|t: int| 0 <= t < k.nthreads() implies #[trigger] k.mutex_need_col(
                        j,
                    )[t] == 0 && k.mutex_alloc_col(j)[t] == 0 by {
                        assert(k.need_mutex@[t]@ == ko.need_mutex@[t]@.push(0));
                        assert(k.allocation_mutex@[t]@ == ko.allocation_mutex@[t]@.push(0));
                    };
                    lemma_seq_sum_zero(k.mutex_alloc_col(j));
                }
            };
            assert forall|t: int| 0 <= t < k.nsem() implies sem_slot_ok(
                #[trigger] k.semaphore_list@[t],
                k.available_sem@[t] as int,
                k.sem_need_col(t),
                k.sem_alloc_col(t),
                k.nthreads(),
            ) by {
                assert(sem_slot_ok(
                    ko.semaphore_list@[t],
                    ko.available_sem@[t] as int,
                    ko.sem_need_col(t),
                    ko.sem_alloc_col(t),
                    ko.nthreads(),
                ));
            };
        }
        id as isize
    }
}

/// Clear a mutex slot so that a later creation can reuse its id.  The
/// reference design leaves destruction an open point; this is the
/// destroy-equivalent: it succeeds only for a valid, free slot with no
/// request pending, and returns `-1` otherwise.
pub fn sys_mutex_destroy(k: &mut Kernel, mutex_id: usize) -> (r: isize)
    requires
        old(k).wf(),
    ensures
        final(k).wf(),
        ({
            let ok = mutex_id < old(k).nmutex() && old(k).mutex_list@[mutex_id as int] is Some
                && old(k).available_mutex@[mutex_id as int] == 1 && (forall|t: int|
                0 <= t < old(k).nthreads() ==> #[trigger] old(k).mutex_need_col(
                    mutex_id as int,
                )[t] == 0);
            &&& (ok ==> r == 0 && final(k).mutex_list@ == old(k).mutex_list@.update(
                mutex_id as int,
                Option::None,
            ) && final(k).available_mutex@ == old(k).available_mutex@.update(
                mutex_id as int,
                0usize,
            ) && final(k).need_mutex == old(k).need_mutex && final(k).allocation_mutex == old(k).allocation_mutex)
            &&& (!ok ==> r == -1 && same_mutex_state(*old(k), *final(k)))
        }),
        same_sem_state(*old(k), *final(k)),
        same_condvar_state(*old(k), *final(k)),
        same_sched_state(*old(k), *final(k)),
        same_config(*old(k), *final(k)),
{
    let ghost ko = *old(k);
    if mutex_id >= k.mutex_list.len() {
        return -1;
    }
    if k.mutex_list[mutex_id].is_none() {
        return -1;
    }
    if k.available_mutex[mutex_id] != 1 {
        return -1;
    }
    let n = k.num_threads;
    let mut t: usize = 0;
    while t < n
        invariant
            *k == ko,
            n == ko.nthreads(),
            ko.wf(),
            mutex_id < ko.nmutex(),
            0 <= t <= n,
            forall|i: int| 0 <= i < t ==> #[trigger] ko.mutex_need_col(mutex_id as int)[i] == 0,
        decreases n - t,
    {
        let row = &k.need_mutex[t];
        if row[mutex_id] != 0 {
            proof {
                assert(ko.mutex_need_col(mutex_id as int)[t as int] == ko.need_mutex.deep_view()[t as int][mutex_id as int]);
                assert(ko.need_mutex.deep_view()[t as int] == ko.need_mutex@[t as int]@);
                assert(ko.mutex_need_col(mutex_id as int)[t as int] != 0);
            }
            return -1;
        }
        t += 1;
    }
    k.mutex_list[mutex_id] = None;
    k.available_mutex[mutex_id] = 0;
    proof {
        let id = mutex_id as int;
        assert(mutex_slot_ok(
            ko.mutex_list@[id],
            ko.available_mutex@[id] as int,
            ko.mutex_need_col(id),
            ko.mutex_alloc_col(id),
            ko.nthreads(),
        ));
        assert(seq_sum(ko.mutex_alloc_col(id)) == 0);
        assert forall|j: int| 0 <= j < k.nmutex() implies mutex_slot_ok(
            #[trigger] k.mutex_list@[j],
            k.available_mutex@[j] as int,
            k.mutex_need_col(j),
            k.mutex_alloc_col(j),
            k.nthreads(),
        ) by {
            assert(mutex_slot_ok(
                ko.mutex_list@[j],
                ko.available_mutex@[j] as int,
                ko.mutex_need_col(j),
                ko.mutex_alloc_col(j),
                ko.nthreads(),
            ));
            assert(k.mutex_need_col(j) =~= ko.mutex_need_col(j));
            assert(k.mutex_alloc_col(j) =~= ko.mutex_alloc_col(j));
            if j == id {
                assert forall|tt: int| 0 <= tt < k.nthreads() implies #[trigger] k.mutex_alloc_col(
                    j,
                )[tt] == 0 by {
                    lemma_seq_sum_entry(ko.mutex_alloc_col(j), tt);
                    lemma_seq_sum_nonneg(ko.mutex_alloc_col(j));
                    assert(forall|i: int|
                        0 <= i < k.nthreads() ==> #[trigger] ko.mutex_alloc_col(j)[i] >= 0);
                };
            }
        };
    }
    0
}

/// Write one entry of an accounting matrix.
fn mat_set(m: &mut Vec<Vec<usize>>, t: usize, c: usize, v: usize)
    requires
        t < old(m)@.len(),
        c < old(m)@[t as int]@.len(),
    ensures
        final(m)@.len() == old(m)@.len(),
        forall|i: int| 0 <= i < old(m)@.len() && i != t ==> #[trigger] final(m)@[i] == old(m)@[i],
        (final(m)@[t as int])@ == old(m)@[t as int]@.update(c as int, v),
        final(m).deep_view() == old(m).deep_view().update(
            t as int,
            old(m).deep_view()[t as int].update(c as int, v),
        ),
{
    let row = &mut m[t];
    row[c] = v;
    proof {
        assert(m.deep_view() =~~= old(m).deep_view().update(
            t as int,
            old(m).deep_view()[t as int].update(c as int, v),
        ));
    }
}

/// Read one entry of an accounting matrix.
fn mat_get(m: &Vec<Vec<usize>>, t: usize, c: usize) -> (v: usize)
    requires
        t < m@.len(),
        c < m@[t as int]@.len(),
    ensures
        v == m.deep_view()[t as int][c as int],
{
    m[t][c]
}

/// Lock a mutex on behalf of the current task.
///
/// The request is first recorded in the `need` table; with detection
/// enabled, the deadlock detector then vets the snapshot and an unsafe
/// request is refused with [`DEADLOCK_CODE`], the recorded intent rolled
/// back.  Otherwise: a free mutex is granted at once (`0`, tables updated);
/// a held blocking mutex enqueues and blocks the caller (`0` — the value
/// the task observes when it resumes holding the mutex at handoff); a held
/// spin mutex re-queues the caller behind the ready set (`1`: the
/// cooperative retry — the attempt is reissued when the task runs again).
/// An invalid id is refused with `-1` before anything is recorded.
pub fn sys_mutex_lock(k: &mut Kernel, mutex_id: usize) -> (r: isize)
    requires
        old(k).wf(),
        old(k).has_cur(),
    ensures
        final(k).wf(),
        ({
            let ko = *old(k);
            let kf = *final(k);
            let id = mutex_id as int;
            let tid = ko.cur().tid as int;
            let valid = id < ko.nmutex() && ko.mutex_list@[id] is Some;
            let nd0 = ko.need_mutex.deep_view();
            let nd1 = nd0.update(tid, nd0[tid].update(id, 1usize));
            let vetoed = ko.deadlock_detect_enabled && !crate::detect::safe_state(
                ko.available_mutex@,
                nd1,
                ko.allocation_mutex.deep_view(),
            );
            let mx = ko.mutex_list@[id]->Some_0;
            &&& (!valid ==> r == -1 && same_mutex_state(ko, kf) && same_sched_state(ko, kf))
            &&& (valid && vetoed ==> r == DEADLOCK_CODE && kf.mutex_list == ko.mutex_list
                && kf.available_mutex == ko.available_mutex && kf.allocation_mutex == ko.allocation_mutex
                && kf.need_mutex.deep_view() == nd0 && same_sched_state(ko, kf))
            &&& (valid && !vetoed && !mx.locked() ==> r == 0 && kf.running == ko.running
                && kf.manager == ko.manager && kf.available_mutex@ == ko.available_mutex@.update(
                id,
                0usize,
            ) && kf.need_mutex.deep_view() == nd0.update(tid, nd0[tid].update(id, 0usize))
                && kf.allocation_mutex.deep_view() == ko.allocation_mutex.deep_view().update(
                tid,
                ko.allocation_mutex.deep_view()[tid].update(id, 1usize),
            ) && kf.mutex_list@[id] is Some && kf.mutex_list@[id]->Some_0.locked()
                && kf.mutex_list@[id]->Some_0.waiters() == mx.waiters()
                && kf.mutex_list@[id]->Some_0.is_blocking() == mx.is_blocking())
            &&& (valid && !vetoed && mx.locked() && mx.is_blocking() ==> r == 0
                && kf.available_mutex == ko.available_mutex && kf.allocation_mutex
                == ko.allocation_mutex && kf.need_mutex.deep_view() == nd1
                && kf.mutex_list@[id] is Some && kf.mutex_list@[id]->Some_0.locked()
                && kf.mutex_list@[id]->Some_0.waiters() == mx.waiters().push(
                (Task { status: TaskStatus::Blocked, ..ko.cur() }),
            ) && kf.mutex_list@[id]->Some_0.is_blocking() && ({
                let q = ko.manager@;
                &&& (q.len() == 0 ==> kf.running is None && kf.manager@ == q)
                &&& (q.len() > 0 ==> ({
                    let idx = scan_idx(q, q.len() as int);
                    &&& kf.running == Some(
                        (Task {
                            status: TaskStatus::Running,
                            stride: stride_after(q[idx].stride, q[idx].priority),
                            ..q[idx]
                        }),
                    )
                    &&& kf.manager@ == q.remove(idx)
                }))
            }))
            &&& (valid && !vetoed && mx.locked() && !mx.is_blocking() ==> r == 1
                && kf.available_mutex == ko.available_mutex && kf.allocation_mutex
                == ko.allocation_mutex && kf.need_mutex.deep_view() == nd1
                && kf.mutex_list@[id] is Some && kf.mutex_list@[id]->Some_0.locked()
                && !kf.mutex_list@[id]->Some_0.is_blocking() && ({
                let q = ko.manager@.push((Task { status: TaskStatus::Ready, ..ko.cur() }));
                let idx = scan_idx(q, q.len() as int);
                &&& kf.running == Some(
                    (Task {
                        status: TaskStatus::Running,
                        stride: stride_after(q[idx].stride, q[idx].priority),
                        ..q[idx]
                    }),
                )
                &&& kf.manager@ == q.remove(idx)
            }))
            &&& (valid ==> forall|j: int|
                0 <= j < ko.nmutex() && j != id ==> #[trigger] kf.mutex_list@[j]
                    == ko.mutex_list@[j])
            &&& kf.mutex_list@.len() == ko.mutex_list@.len()
            &&& kf.sleeping == ko.sleeping
            &&& kf.zombies == ko.zombies
            &&& same_sem_state(ko, kf)
            &&& same_condvar_state(ko, kf)
            &&& same_config(ko, kf)
        }),
{
    let ghost ko = *old(k);
    if mutex_id >= k.mutex_list.len() {
        return -1;
    }
    if k.mutex_list[mutex_id].is_none() {
        return -1;
    }
    let cur = k.running.unwrap();
    let tid = cur.tid;
    let ghost id = mutex_id as int;
    let ghost nd0 = ko.need_mutex.deep_view();
    let ghost nd1 = nd0.update(tid as int, nd0[tid as int].update(id, 1usize));
    // record intent: the current task requests one unit
    let prev_need = mat_get(&k.need_mutex, tid, mutex_id);
    mat_set(&mut k.need_mutex, tid, mutex_id, 1);
    proof {
        assert(k.need_mutex.deep_view() == nd1);
        lemma_wf_after_need_set(ko, *k, tid as int, id, 1);
    }
    if k.deadlock_detect_enabled {
        proof {
            lemma_mutex_tables_for_check(*k);
        }
        let safe = crate::detect::check_safety(
            &k.available_mutex,
            &k.need_mutex,
            &k.allocation_mutex,
        );
        if !safe {
            // refuse the request and roll back the recorded intent
            mat_set(&mut k.need_mutex, tid, mutex_id, prev_need);
            proof {
                assert(k.need_mutex.deep_view() =~~= nd0);
                assert(mutex_slot_ok(
                    ko.mutex_list@[id],
                    ko.available_mutex@[id] as int,
                    ko.mutex_need_col(id),
                    ko.mutex_alloc_col(id),
                    ko.nthreads(),
                ));
                assert(ko.mutex_need_col(id)[tid as int] == prev_need);
                assert(ko.need_mutex.deep_view().update(
                    tid as int,
                    ko.need_mutex.deep_view()[tid as int].update(id, prev_need),
                ) =~~= nd0);
                lemma_wf_after_need_set(ko, *k, tid as int, id, prev_need as int);
            }
            return DEADLOCK_CODE;
        }
    }
    let ghost kmid = *k;
    let slot_ref = &mut k.mutex_list[mutex_id];
    let mut mx = slot_ref.take().unwrap();
    let got = mx.try_acquire();
    if got {
        // the mutex was free: grant it and settle the tables
        k.mutex_list[mutex_id] = Some(mx);
        k.available_mutex[mutex_id] = 0;
        mat_set(&mut k.need_mutex, tid, mutex_id, 0);
        mat_set(&mut k.allocation_mutex, tid, mutex_id, 1);
        proof {
            assert(k.need_mutex.deep_view() =~~= nd0.update(
                tid as int,
                nd0[tid as int].update(id, 0usize),
            ));
            lemma_wf_after_grant(kmid, *k, tid as int, id);
        }
        0
    } else if mx.blocking_variant() {
        // held blocking mutex: enqueue and block the caller
        mx.enqueue(Task { status: TaskStatus::Blocked, ..cur });
        k.mutex_list[mutex_id] = Some(mx);
        k.running = None;
        proof {
            lemma_wf_after_block(kmid, *k, id);
        }
        schedule_next(k);
        0
    } else {
        // held spin mutex: yield and let the caller retry when scheduled
        k.mutex_list[mutex_id] = Some(mx);
        k.running = None;
        k.manager.add(Task { status: TaskStatus::Ready, ..cur });
        proof {
            lemma_wf_after_spin_yield(kmid, *k, id);
        }
        schedule_next(k);
        1
    }
}

/// After writing `v <= 1` into the mutex `need` table for a live slot, the
/// kernel invariant still holds.
proof fn lemma_wf_after_need_set(ko: Kernel, k: Kernel, tid: int, id: int, v: int)
    requires
        ko.wf(),
        0 <= id < ko.nmutex(),
        ko.mutex_list@[id] is Some,
        0 <= tid < ko.nthreads(),
        0 <= v <= 1,
        k.need_mutex.deep_view() == ko.need_mutex.deep_view().update(
            tid,
            ko.need_mutex.deep_view()[tid].update(id, v as usize),
        ),
        k.need_mutex@.len() == ko.need_mutex@.len(),
        forall|t: int|
            0 <= t < ko.nthreads() ==> (#[trigger] k.need_mutex@[t])@.len()
                == ko.need_mutex@[t]@.len(),
        k == (Kernel { need_mutex: k.need_mutex, ..ko }),
    ensures
        k.wf(),
{
    assert forall|j: int| 0 <= j < k.nmutex() implies mutex_slot_ok(
        #[trigger] k.mutex_list@[j],
        k.available_mutex@[j] as int,
        k.mutex_need_col(j),
        k.mutex_alloc_col(j),
        k.nthreads(),
    ) by {
        assert(mutex_slot_ok(
            ko.mutex_list@[j],
            ko.available_mutex@[j] as int,
            ko.mutex_need_col(j),
            ko.mutex_alloc_col(j),
            ko.nthreads(),
        ));
        assert(k.mutex_alloc_col(j) =~= ko.mutex_alloc_col(j));
        if j != id {
            assert(k.mutex_need_col(j) =~= ko.mutex_need_col(j));
        } else {
            assert(k.mutex_need_col(j) =~= ko.mutex_need_col(j).update(tid, v as usize));
        }
    };
    assert forall|j: int| 0 <= j < k.nsem() implies sem_slot_ok(
        #[trigger] k.semaphore_list@[j],
        k.available_sem@[j] as int,
        k.sem_need_col(j),
        k.sem_alloc_col(j),
        k.nthreads(),
    ) by {
        assert(sem_slot_ok(
            ko.semaphore_list@[j],
            ko.available_sem@[j] as int,
            ko.sem_need_col(j),
            ko.sem_alloc_col(j),
            ko.nthreads(),
        ));
        assert(k.sem_need_col(j) =~= ko.sem_need_col(j));
        assert(k.sem_alloc_col(j) =~= ko.sem_alloc_col(j));
    };
}

/// The mutex tables of a well-formed kernel satisfy the preconditions of
/// the safety check.
proof fn lemma_mutex_tables_for_check(k: Kernel)
    requires
        k.wf(),
    ensures
        crate::detect::matrices_wf(
            k.available_mutex@,
            k.need_mutex.deep_view(),
            k.allocation_mutex.deep_view(),
        ),
        crate::detect::totals_bounded(k.available_mutex@, k.allocation_mutex.deep_view()),
{
    let al = k.allocation_mutex.deep_view();
    assert forall|r: int| 0 <= r < k.available_mutex@.len() implies k.available_mutex@[r]
        + #[trigger] crate::detect::col_total(al, r) <= usize::MAX by {
        crate::detect::lemma_col_total_as_column(al, r);
        assert(col_of(al, r, al.len() as int) =~= k.mutex_alloc_col(r));
        assert(mutex_slot_ok(
            k.mutex_list@[r],
            k.available_mutex@[r] as int,
            k.mutex_need_col(r),
            k.mutex_alloc_col(r),
            k.nthreads(),
        ));
        match k.mutex_list@[r] {
            Option::Some(_) => {
            },
            Option::None => {
                lemma_seq_sum_zero(k.mutex_alloc_col(r));
            },
        }
    };
}

/// Granting a free mutex to the requesting task preserves the invariant.
proof fn lemma_wf_after_grant(ko: Kernel, k: Kernel, tid: int, id: int)
    requires
        ko.wf(),
        ko.has_cur(),
        tid == ko.cur().tid as int,
        0 <= id < ko.nmutex(),
        ko.mutex_list@[id] is Some,
        !ko.mutex_list@[id]->Some_0.locked(),
        k.mutex_list@.len() == ko.mutex_list@.len(),
        forall|j: int|
            0 <= j < ko.nmutex() && j != id ==> #[trigger] k.mutex_list@[j] == ko.mutex_list@[j],
        k.mutex_list@[id] is Some,
        k.mutex_list@[id]->Some_0.locked(),
        k.mutex_list@[id]->Some_0.waiters() == ko.mutex_list@[id]->Some_0.waiters(),
        k.available_mutex@ == ko.available_mutex@.update(id, 0usize),
        k.need_mutex@.len() == ko.need_mutex@.len(),
        forall|t: int|
            0 <= t < ko.nthreads() ==> (#[trigger] k.need_mutex@[t])@.len()
                == ko.need_mutex@[t]@.len(),
        k.need_mutex.deep_view() == ko.need_mutex.deep_view().update(
            tid,
            ko.need_mutex.deep_view()[tid].update(id, 0usize),
        ),
        k.allocation_mutex@.len() == ko.allocation_mutex@.len(),
        forall|t: int|
            0 <= t < ko.nthreads() ==> (#[trigger] k.allocation_mutex@[t])@.len()
                == ko.allocation_mutex@[t]@.len(),
        k.allocation_mutex.deep_view() == ko.allocation_mutex.deep_view().update(
            tid,
            ko.allocation_mutex.deep_view()[tid].update(id, 1usize),
        ),
        k == (Kernel {
            mutex_list: k.mutex_list,
            available_mutex: k.available_mutex,
            need_mutex: k.need_mutex,
            allocation_mutex: k.allocation_mutex,
            ..ko
        }),
    ensures
        k.wf(),
{
    assert forall|j: int| 0 <= j < k.nmutex() implies mutex_slot_ok(
        #[trigger] k.mutex_list@[j],
        k.available_mutex@[j] as int,
        k.mutex_need_col(j),
        k.mutex_alloc_col(j),
        k.nthreads(),
    ) by {
        assert(mutex_slot_ok(
            ko.mutex_list@[j],
            ko.available_mutex@[j] as int,
            ko.mutex_need_col(j),
            ko.mutex_alloc_col(j),
            ko.nthreads(),
        ));
        if j != id {
            assert(k.mutex_need_col(j) =~= ko.mutex_need_col(j));
            assert(k.mutex_alloc_col(j) =~= ko.mutex_alloc_col(j));
        } else {
            assert(k.mutex_need_col(j) =~= ko.mutex_need_col(j).update(tid, 0usize));
            assert(k.mutex_alloc_col(j) =~= ko.mutex_alloc_col(j).update(tid, 1usize));
            // the mutex was free, so its one unit was available and nobody held it
            assert(seq_sum(ko.mutex_alloc_col(j)) == 0);
            assert forall|t: int| 0 <= t < k.nthreads() implies #[trigger] ko.mutex_alloc_col(
                j,
            )[t] == 0 by {
                lemma_seq_sum_entry(ko.mutex_alloc_col(j), t);
                lemma_seq_sum_nonneg(ko.mutex_alloc_col(j));
                assert(forall|i: int|
                    0 <= i < k.nthreads() ==> #[trigger] ko.mutex_alloc_col(j)[i] >= 0);
            };
            lemma_seq_sum_update(ko.mutex_alloc_col(j), tid, 1);
        }
    };
    assert forall|j: int| 0 <= j < k.nsem() implies sem_slot_ok(
        #[trigger] k.semaphore_list@[j],
        k.available_sem@[j] as int,
        k.sem_need_col(j),
        k.sem_alloc_col(j),
        k.nthreads(),
    ) by {
        assert(sem_slot_ok(
            ko.semaphore_list@[j],
            ko.available_sem@[j] as int,
            ko.sem_need_col(j),
            ko.sem_alloc_col(j),
            ko.nthreads(),
        ));
        assert(k.sem_need_col(j) =~= ko.sem_need_col(j));
        assert(k.sem_alloc_col(j) =~= ko.sem_alloc_col(j));
    };
}

/// Blocking the current task on a held blocking mutex preserves the
/// invariant (with the processor handed back, ready for the scheduler).
proof fn lemma_wf_after_block(ko: Kernel, k: Kernel, id: int)
    requires
        ko.wf(),
        ko.has_cur(),
        0 <= id < ko.nmutex(),
        ko.mutex_list@[id] is Some,
        ko.mutex_list@[id]->Some_0.locked(),
        k.mutex_list@.len() == ko.mutex_list@.len(),
        forall|j: int|
            0 <= j < ko.nmutex() && j != id ==> #[trigger] k.mutex_list@[j] == ko.mutex_list@[j],
        k.mutex_list@[id] is Some,
        k.mutex_list@[id]->Some_0.locked(),
        k.mutex_list@[id]->Some_0.waiters() == ko.mutex_list@[id]->Some_0.waiters().push(
            (Task { status: TaskStatus::Blocked, ..ko.cur() }),
        ),
        k.running is None,
        k == (Kernel { mutex_list: k.mutex_list, running: k.running, ..ko }),
    ensures
        k.wf(),
{
    assert forall|j: int| 0 <= j < k.nmutex() implies mutex_slot_ok(
        #[trigger] k.mutex_list@[j],
        k.available_mutex@[j] as int,
        k.mutex_need_col(j),
        k.mutex_alloc_col(j),
        k.nthreads(),
    ) by {
        assert(mutex_slot_ok(
            ko.mutex_list@[j],
            ko.available_mutex@[j] as int,
            ko.mutex_need_col(j),
            ko.mutex_alloc_col(j),
            ko.nthreads(),
        ));
        assert(k.mutex_need_col(j) =~= ko.mutex_need_col(j));
        assert(k.mutex_alloc_col(j) =~= ko.mutex_alloc_col(j));
        if j == id {
            let w0 = ko.mutex_list@[id]->Some_0.waiters();
            let w1 = k.mutex_list@[id]->Some_0.waiters();
            assert forall|i: int| 0 <= i < w1.len() implies blocked_waiter_ok(
                k.nthreads(),
                #[trigger] w1[i],
            ) by {
                if i < w0.len() {
                    assert(w1[i] == w0[i]);
                } else {
                    assert(w1[i] == (Task { status: TaskStatus::Blocked, ..ko.cur() }));
                }
            };
        }
    };
}

/// Re-queueing the current task behind a held spin mutex preserves the
/// invariant (with the processor handed back, ready for the scheduler).
proof fn lemma_wf_after_spin_yield(ko: Kernel, k: Kernel, id: int)
    requires
        ko.wf(),
        ko.has_cur(),
        0 <= id < ko.nmutex(),
        ko.mutex_list@[id] is Some,
        k.mutex_list@.len() == ko.mutex_list@.len(),
        forall|j: int|
            0 <= j < ko.nmutex() && j != id ==> #[trigger] k.mutex_list@[j] == ko.mutex_list@[j],
        k.mutex_list@[id] is Some,
        k.mutex_list@[id]->Some_0.locked() == ko.mutex_list@[id]->Some_0.locked(),
        k.mutex_list@[id]->Some_0.waiters() == ko.mutex_list@[id]->Some_0.waiters(),
        k.running is None,
        k.manager@ == ko.manager@.push((Task { status: TaskStatus::Ready, ..ko.cur() })),
        k.manager.wf(),
        k == (Kernel { mutex_list: k.mutex_list, running: k.running, manager: k.manager, ..ko }),
    ensures
        k.wf(),
{
    assert forall|i: int| 0 <= i < k.manager@.len() implies task_ok(
        k.nthreads(),
        #[trigger] k.manager@[i],
    ) && k.manager@[i].status == TaskStatus::Ready by {
        if i < ko.manager@.len() {
            assert(k.manager@[i] == ko.manager@[i]);
        }
    };
    assert forall|j: int| 0 <= j < k.nmutex() implies mutex_slot_ok(
        #[trigger] k.mutex_list@[j],
        k.available_mutex@[j] as int,
        k.mutex_need_col(j),
        k.mutex_alloc_col(j),
        k.nthreads(),
    ) by {
        assert(mutex_slot_ok(
            ko.mutex_list@[j],
            ko.available_mutex@[j] as int,
            ko.mutex_need_col(j),
            ko.mutex_alloc_col(j),
            ko.nthreads(),
        ));
        assert(k.mutex_need_col(j) =~= ko.mutex_need_col(j));
        assert(k.mutex_alloc_col(j) =~= ko.mutex_alloc_col(j));
    };
}

/// Unlock a mutex held by the current task.
///
/// If waiters are queued, the mutex and its unit are handed directly to the
/// head waiter, which returns to the ready queue with the transfer recorded
/// in the tables; otherwise the unit goes back to `available` and the mutex
/// is marked free.  An invalid id is refused with `-1`; the caller must
/// hold the mutex (unlocking a mutex one does not hold is an invariant
/// violation, excluded by contract).
pub fn sys_mutex_unlock(k: &mut Kernel, mutex_id: usize) -> (r: isize)
    requires
        old(k).wf(),
        old(k).has_cur(),
        mutex_id < old(k).nmutex() && old(k).mutex_list@[mutex_id as int] is Some ==> old(k).mutex_alloc_col(mutex_id as int)[old(k).cur().tid as int] == 1,
    ensures
        final(k).wf(),
        ({
            let ko = *old(k);
            let kf = *final(k);
            let id = mutex_id as int;
            let tid = ko.cur().tid as int;
            let valid = id < ko.nmutex() && ko.mutex_list@[id] is Some;
            let mx = ko.mutex_list@[id]->Some_0;
            let al0 = ko.allocation_mutex.deep_view();
            &&& (!valid ==> r == -1 && same_mutex_state(ko, kf) && same_sched_state(ko, kf))
            &&& (valid && mx.waiters().len() == 0 ==> r == 0 && kf.running == ko.running
                && kf.manager == ko.manager && kf.mutex_list@[id] is Some
                && !kf.mutex_list@[id]->Some_0.locked() && kf.mutex_list@[id]->Some_0.waiters()
                == Seq::<Task>::empty() && kf.available_mutex@ == ko.available_mutex@.update(
                id,
                1usize,
            ) && kf.need_mutex == ko.need_mutex && kf.allocation_mutex.deep_view() == al0.update(
                tid,
                al0[tid].update(id, 0usize),
            ))
            &&& (valid && mx.waiters().len() > 0 ==> ({
                let w = mx.waiters()[0];
                let al1 = al0.update(tid, al0[tid].update(id, 0usize));
                let nd0 = ko.need_mutex.deep_view();
                &&& r == 0
                &&& kf.running == ko.running
                &&& kf.manager@ == ko.manager@.push((Task { status: TaskStatus::Ready, ..w }))
                &&& kf.mutex_list@[id] is Some
                &&& kf.mutex_list@[id]->Some_0.locked()
                &&& kf.mutex_list@[id]->Some_0.waiters() == mx.waiters().subrange(
                    1,
                    mx.waiters().len() as int,
                )
                &&& kf.available_mutex == ko.available_mutex
                &&& kf.allocation_mutex.deep_view() == al1.update(
                    w.tid as int,
                    al1[w.tid as int].update(id, 1usize),
                )
                &&& kf.need_mutex.deep_view() == nd0.update(
                    w.tid as int,
                    nd0[w.tid as int].update(id, 0usize),
                )
            }))
            &&& (valid ==> forall|j: int|
                0 <= j < ko.nmutex() && j != id ==> #[trigger] kf.mutex_list@[j]
                    == ko.mutex_list@[j])
            &&& kf.mutex_list@.len() == ko.mutex_list@.len()
            &&& kf.sleeping == ko.sleeping
            &&& kf.zombies == ko.zombies
            &&& same_sem_state(ko, kf)
            &&& same_condvar_state(ko, kf)
            &&& same_config(ko, kf)
        }),
{
    let ghost ko = *old(k);
    if mutex_id >= k.mutex_list.len() {
        return -1;
    }
    if k.mutex_list[mutex_id].is_none() {
        return -1;
    }
    let cur = k.running.unwrap();
    let tid = cur.tid;
    let ghost id = mutex_id as int;
    proof {
        // the caller holds the unit, so the mutex is locked
        lemma_seq_sum_entry(ko.mutex_alloc_col(id), tid as int);
        assert(ko.mutex_list@[id]->Some_0.locked());
    }
    let slot_ref = &mut k.mutex_list[mutex_id];
    let mut mx = slot_ref.take().unwrap();
    let woken = mx.release();
    mat_set(&mut k.allocation_mutex, tid, mutex_id, 0);
    proof {
        lemma_seq_sum_update(ko.mutex_alloc_col(id), tid as int, 0);
    }
    match woken {
        Some(w) => {
            // direct handoff: the head waiter now holds the unit
            k.mutex_list[mutex_id] = Some(mx);
            let ghost kw = *k;
            mat_set(&mut k.allocation_mutex, w.tid, mutex_id, 1);
            mat_set(&mut k.need_mutex, w.tid, mutex_id, 0);
            k.manager.add(Task { status: TaskStatus::Ready, ..w });
            proof {
                lemma_wf_after_handoff(ko, *k, tid as int, id, w);
            }
            0
        },
        None => {
            k.mutex_list[mutex_id] = Some(mx);
            k.available_mutex[mutex_id] = 1;
            proof {
                assert(k.mutex_list@[id]->Some_0.waiters() =~= Seq::<Task>::empty());
                lemma_wf_after_free(ko, *k, tid as int, id);
            }
            0
        },
    }
}

/// Releasing a mutex with no waiters preserves the invariant.
proof fn lemma_wf_after_free(ko: Kernel, k: Kernel, tid: int, id: int)
    requires
        ko.wf(),
        0 <= id < ko.nmutex(),
        0 <= tid < ko.nthreads(),
        ko.mutex_list@[id] is Some,
        ko.mutex_alloc_col(id)[tid] == 1,
        k.mutex_list@.len() == ko.mutex_list@.len(),
        forall|j: int|
            0 <= j < ko.nmutex() && j != id ==> #[trigger] k.mutex_list@[j] == ko.mutex_list@[j],
        k.mutex_list@[id] is Some,
        !k.mutex_list@[id]->Some_0.locked(),
        k.mutex_list@[id]->Some_0.waiters() == Seq::<Task>::empty(),
        k.available_mutex@ == ko.available_mutex@.update(id, 1usize),
        k.allocation_mutex@.len() == ko.allocation_mutex@.len(),
        forall|t: int|
            0 <= t < ko.nthreads() ==> (#[trigger] k.allocation_mutex@[t])@.len()
                == ko.allocation_mutex@[t]@.len(),
        k.allocation_mutex.deep_view() == ko.allocation_mutex.deep_view().update(
            tid,
            ko.allocation_mutex.deep_view()[tid].update(id, 0usize),
        ),
        k == (Kernel {
            mutex_list: k.mutex_list,
            available_mutex: k.available_mutex,
            allocation_mutex: k.allocation_mutex,
            ..ko
        }),
    ensures
        k.wf(),
{
    assert forall|j: int| 0 <= j < k.nmutex() implies mutex_slot_ok(
        #[trigger] k.mutex_list@[j],
        k.available_mutex@[j] as int,
        k.mutex_need_col(j),
        k.mutex_alloc_col(j),
        k.nthreads(),
    ) by {
        assert(mutex_slot_ok(
            ko.mutex_list@[j],
            ko.available_mutex@[j] as int,
            ko.mutex_need_col(j),
            ko.mutex_alloc_col(j),
            ko.nthreads(),
        ));
        assert(k.mutex_need_col(j) =~= ko.mutex_need_col(j));
        if j != id {
            assert(k.mutex_alloc_col(j) =~= ko.mutex_alloc_col(j));
        } else {
            assert(k.mutex_alloc_col(j) =~= ko.mutex_alloc_col(j).update(tid, 0usize));
            lemma_seq_sum_entry(ko.mutex_alloc_col(j), tid);
            lemma_seq_sum_update(ko.mutex_alloc_col(j), tid, 0);
        }
    };
    assert forall|j: int| 0 <= j < k.nsem() implies sem_slot_ok(
        #[trigger] k.semaphore_list@[j],
        k.available_sem@[j] as int,
        k.sem_need_col(j),
        k.sem_alloc_col(j),
        k.nthreads(),
    ) by {
        assert(sem_slot_ok(
            ko.semaphore_list@[j],
            ko.available_sem@[j] as int,
            ko.sem_need_col(j),
            ko.sem_alloc_col(j),
            ko.nthreads(),
        ));
        assert(k.sem_need_col(j) =~= ko.sem_need_col(j));
        assert(k.sem_alloc_col(j) =~= ko.sem_alloc_col(j));
    };
}

/// Handing a released mutex to its head waiter preserves the invariant.
proof fn lemma_wf_after_handoff(ko: Kernel, k: Kernel, tid: int, id: int, w: Task)
    requires
        ko.wf(),
        0 <= id < ko.nmutex(),
        0 <= tid < ko.nthreads(),
        ko.mutex_list@[id] is Some,
        ko.mutex_list@[id]->Some_0.locked(),
        ko.mutex_list@[id]->Some_0.waiters().len() > 0,
        w == ko.mutex_list@[id]->Some_0.waiters()[0],
        ko.mutex_alloc_col(id)[tid] == 1,
        k.mutex_list@.len() == ko.mutex_list@.len(),
        forall|j: int|
            0 <= j < ko.nmutex() && j != id ==> #[trigger] k.mutex_list@[j] == ko.mutex_list@[j],
        k.mutex_list@[id] is Some,
        k.mutex_list@[id]->Some_0.locked(),
        k.mutex_list@[id]->Some_0.waiters() == ko.mutex_list@[id]->Some_0.waiters().subrange(
            1,
            ko.mutex_list@[id]->Some_0.waiters().len() as int,
        ),
        k.available_mutex == ko.available_mutex,
        k.allocation_mutex@.len() == ko.allocation_mutex@.len(),
        forall|t: int|
            0 <= t < ko.nthreads() ==> (#[trigger] k.allocation_mutex@[t])@.len()
                == ko.allocation_mutex@[t]@.len(),
        ({
            let al0 = ko.allocation_mutex.deep_view();
            let al1 = al0.update(tid, al0[tid].update(id, 0usize));
            k.allocation_mutex.deep_view() == al1.update(
                w.tid as int,
                al1[w.tid as int].update(id, 1usize),
            )
        }),
        k.need_mutex@.len() == ko.need_mutex@.len(),
        forall|t: int|
            0 <= t < ko.nthreads() ==> (#[trigger] k.need_mutex@[t])@.len()
                == ko.need_mutex@[t]@.len(),
        k.need_mutex.deep_view() == ko.need_mutex.deep_view().update(
            w.tid as int,
            ko.need_mutex.deep_view()[w.tid as int].update(id, 0usize),
        ),
        k.manager@ == ko.manager@.push((Task { status: TaskStatus::Ready, ..w })),
        k.manager.wf(),
        k == (Kernel {
            mutex_list: k.mutex_list,
            allocation_mutex: k.allocation_mutex,
            need_mutex: k.need_mutex,
            manager: k.manager,
            ..ko
        }),
    ensures
        k.wf(),
{
    let wtid = w.tid as int;
    assert(blocked_waiter_ok(ko.nthreads(), w));
    assert(0 <= wtid < ko.nthreads());
    assert forall|i: int| 0 <= i < k.manager@.len() implies task_ok(
        k.nthreads(),
        #[trigger] k.manager@[i],
    ) && k.manager@[i].status == TaskStatus::Ready by {
        if i < ko.manager@.len() {
            assert(k.manager@[i] == ko.manager@[i]);
        }
    };
    assert forall|j: int| 0 <= j < k.nmutex() implies mutex_slot_ok(
        #[trigger] k.mutex_list@[j],
        k.available_mutex@[j] as int,
        k.mutex_need_col(j),
        k.mutex_alloc_col(j),
        k.nthreads(),
    ) by {
        assert(mutex_slot_ok(
            ko.mutex_list@[j],
            ko.available_mutex@[j] as int,
            ko.mutex_need_col(j),
            ko.mutex_alloc_col(j),
            ko.nthreads(),
        ));
        if j != id {
            assert(k.mutex_need_col(j) =~= ko.mutex_need_col(j));
            assert(k.mutex_alloc_col(j) =~= ko.mutex_alloc_col(j));
        } else {
            let ac0 = ko.mutex_alloc_col(j);
            let ac1 = ac0.update(tid, 0usize);
            let ac2 = ac1.update(wtid, 1usize);
            assert(k.mutex_need_col(j) =~= ko.mutex_need_col(j).update(wtid, 0usize));
            assert(k.mutex_alloc_col(j) =~= ac2);
            lemma_seq_sum_entry(ac0, tid);
            lemma_seq_sum_update(ac0, tid, 0);
            assert(seq_sum(ac1) == 0);
            assert forall|t: int| 0 <= t < k.nthreads() implies #[trigger] ac1[t] == 0 by {
                lemma_seq_sum_entry(ac1, t);
                lemma_seq_sum_nonneg(ac1);
                assert(forall|i: int| 0 <= i < k.nthreads() ==> #[trigger] ac1[i] >= 0);
            };
            lemma_seq_sum_update(ac1, wtid, 1);
            let w0 = ko.mutex_list@[id]->Some_0.waiters();
            let w1 = k.mutex_list@[id]->Some_0.waiters();
            assert forall|i: int| 0 <= i < w1.len() implies blocked_waiter_ok(
                k.nthreads(),
                #[trigger] w1[i],
            ) by {
                assert(w1[i] == w0[i + 1]);
            };
        }
    };
    assert forall|j: int| 0 <= j < k.nsem() implies sem_slot_ok(
        #[trigger] k.semaphore_list@[j],
        k.available_sem@[j] as int,
        k.sem_need_col(j),
        k.sem_alloc_col(j),
        k.nthreads(),
    ) by {
        assert(sem_slot_ok(
            ko.semaphore_list@[j],
            ko.available_sem@[j] as int,
            ko.sem_need_col(j),
            ko.sem_alloc_col(j),
            ko.nthreads(),
        ));
        assert(k.sem_need_col(j) =~= ko.sem_need_col(j));
        assert(k.sem_alloc_col(j) =~= ko.sem_alloc_col(j));
    };
}

/// Create a counting semaphore with `res_count` units in the owning
/// process's slot table and return its id: the first cleared slot is
/// reused, else a new slot is appended.
pub fn sys_semaphore_create(k: &mut Kernel, res_count: usize) -> (r: isize)
    requires
        old(k).wf(),
        old(k).nsem() < isize::MAX,
        res_count <= isize::MAX as usize,
    ensures
        final(k).wf(),
        r == first_free(old(k).semaphore_list@, 0),
        0 <= r <= old(k).nsem(),
        ({
            let id = first_free(old(k).semaphore_list@, 0);
            &&& final(k).semaphore_list@.len() == (if id < old(k).nsem() {
                old(k).nsem()
            } else {
                old(k).nsem() + 1
            })
            &&& forall|j: int|
                0 <= j < old(k).nsem() && j != id ==> #[trigger] final(k).semaphore_list@[j]
                    == old(k).semaphore_list@[j]
            &&& final(k).semaphore_list@[id] is Some
            &&& final(k).semaphore_list@[id]->Some_0.spec_count() == res_count
            &&& final(k).semaphore_list@[id]->Some_0.spec_total() == res_count
            &&& final(k).semaphore_list@[id]->Some_0.waiters() == Seq::<Task>::empty()
            &&& final(k).available_sem@ == (if id < old(k).nsem() {
                old(k).available_sem@.update(id, res_count)
            } else {
                old(k).available_sem@.push(res_count)
            })
            &&& (id < old(k).nsem() ==> final(k).need_sem == old(k).need_sem && final(k).allocation_sem == old(k).allocation_sem)
            &&& (id == old(k).nsem() ==> final(k).need_sem@.len() == old(k).need_sem@.len()
                && final(k).allocation_sem@.len() == old(k).allocation_sem@.len() && (forall|
                t: int,
            |
                0 <= t < old(k).nthreads() ==> (#[trigger] final(k).need_sem@[t])@ == old(k).need_sem@[t]@.push(0) && (final(k).allocation_sem@[t])@ == old(k).allocation_sem@[t]@.push(0)))
        }),
        same_mutex_state(*old(k), *final(k)),
        same_condvar_state(*old(k), *final(k)),
        same_sched_state(*old(k), *final(k)),
        same_config(*old(k), *final(k)),
{
    let ghost ko = *old(k);
    let n = k.semaphore_list.len();
    let mut id: usize = 0;
    let mut found: bool = false;
    while id < n && !found
        invariant
            n == ko.semaphore_list@.len(),
            k.semaphore_list == ko.semaphore_list,
            0 <= id <= n,
            !found ==> forall|j: int| 0 <= j < id ==> !(#[trigger] k.semaphore_list@[j] is None),
            !found ==> first_free(ko.semaphore_list@, id as int) == first_free(
                ko.semaphore_list@,
                0,
            ),
            found ==> id < n && k.semaphore_list@[id as int] is None && id as int == first_free(
                ko.semaphore_list@,
                0,
            ),
        decreases n - id, (if found { 0int } else { 1int }),
    {
        if k.semaphore_list[id].is_none() {
            found = true;
        } else {
            id += 1;
        }
    }
    if found {
        k.semaphore_list[id] = Some(Semaphore::new(res_count));
        k.available_sem[id] = res_count;
        proof {
            assert forall|j: int| 0 <= j < k.nsem() implies sem_slot_ok(
                #[trigger] k.semaphore_list@[j],
                k.available_sem@[j] as int,
                k.sem_need_col(j),
                k.sem_alloc_col(j),
                k.nthreads(),
            ) by {
                assert(sem_slot_ok(
                    ko.semaphore_list@[j],
                    ko.available_sem@[j] as int,
                    ko.sem_need_col(j),
                    ko.sem_alloc_col(j),
                    ko.nthreads(),
                ));
                assert(k.sem_need_col(j) =~= ko.sem_need_col(j));
                assert(k.sem_alloc_col(j) =~= ko.sem_alloc_col(j));
                if j == id as int {
                    lemma_seq_sum_zero(ko.sem_alloc_col(j));
                }
            };
        }
        id as isize
    } else {
        k.semaphore_list.push(Some(Semaphore::new(res_count)));
        k.available_sem.push(res_count);
        widen_rows(&mut k.need_sem);
        widen_rows(&mut k.allocation_sem);
        proof {
            assert(first_free(ko.semaphore_list@, n as int) == n as int);
            assert forall|j: int| 0 <= j < k.nsem() implies sem_slot_ok(
                #[trigger] k.semaphore_list@[j],
                k.available_sem@[j] as int,
                k.sem_need_col(j),
                k.sem_alloc_col(j),
                k.nthreads(),
            ) by {
                if j < n {
                    assert(sem_slot_ok(
                        ko.semaphore_list@[j],
                        ko.available_sem@[j] as int,
                        ko.sem_need_col(j),
                        ko.sem_alloc_col(j),
                        ko.nthreads(),
                    ));
                    assert(k.sem_need_col(j) =~= ko.sem_need_col(j));
                    assert(k.sem_alloc_col(j) =~= ko.sem_alloc_col(j));
                    assert(k.semaphore_list@[j] == ko.semaphore_list@[j]);
                } else {
                    assert forall|t: int| 0 <= t < k.nthreads() implies #[trigger] k.sem_need_col(
                        j,
                    )[t] == 0 && k.sem_alloc_col(j)[t] == 0 by {
                        assert(k.need_sem@[t]@ == ko.need_sem@[t]@.push(0));
                        assert(k.allocation_sem@[t]@ == ko.allocation_sem@[t]@.push(0));
                    };
                    lemma_seq_sum_zero(k.sem_alloc_col(j));
                }
            };
            assert forall|t: int| 0 <= t < k.nmutex() implies mutex_slot_ok(
                #[trigger] k.mutex_list@[t],
                k.available_mutex@[t] as int,
                k.mutex_need_col(t),
                k.mutex_alloc_col(t),
                k.nthreads(),
            ) by {
                assert(mutex_slot_ok(
                    ko.mutex_list@[t],
                    ko.available_mutex@[t] as int,
                    ko.mutex_need_col(t),
                    ko.mutex_alloc_col(t),
                    ko.nthreads(),
                ));
            };
        }
        id as isize
    }
}

/// The semaphore tables of a well-formed kernel satisfy the preconditions
/// of the safety check.
proof fn lemma_sem_tables_for_check(k: Kernel)
    requires
        k.wf(),
    ensures
        crate::detect::matrices_wf(
            k.available_sem@,
            k.need_sem.deep_view(),
            k.allocation_sem.deep_view(),
        ),
        crate::detect::totals_bounded(k.available_sem@, k.allocation_sem.deep_view()),
{
    let al = k.allocation_sem.deep_view();
    assert forall|r: int| 0 <= r < k.available_sem@.len() implies k.available_sem@[r]
        + #[trigger] crate::detect::col_total(al, r) <= usize::MAX by {
        crate::detect::lemma_col_total_as_column(al, r);
        assert(col_of(al, r, al.len() as int) =~= k.sem_alloc_col(r));
        assert(sem_slot_ok(
            k.semaphore_list@[r],
            k.available_sem@[r] as int,
            k.sem_need_col(r),
            k.sem_alloc_col(r),
            k.nthreads(),
        ));
        match k.semaphore_list@[r] {
            Option::Some(_) => {
            },
            Option::None => {
                lemma_seq_sum_zero(k.sem_alloc_col(r));
            },
        }
    };
}

/// After writing `v <= 1` into the semaphore `need` table for a live slot,
/// the kernel invariant still holds.
proof fn lemma_wf_after_sem_need_set(ko: Kernel, k: Kernel, tid: int, id: int, v: int)
    requires
        ko.wf(),
        0 <= id < ko.nsem(),
        ko.semaphore_list@[id] is Some,
        0 <= tid < ko.nthreads(),
        0 <= v <= 1,
        k.need_sem.deep_view() == ko.need_sem.deep_view().update(
            tid,
            ko.need_sem.deep_view()[tid].update(id, v as usize),
        ),
        k.need_sem@.len() == ko.need_sem@.len(),
        forall|t: int|
            0 <= t < ko.nthreads() ==> (#[trigger] k.need_sem@[t])@.len() == ko.need_sem@[t]@.len(),
        k == (Kernel { need_sem: k.need_sem, ..ko }),
    ensures
        k.wf(),
{
    assert forall|j: int| 0 <= j < k.nsem() implies sem_slot_ok(
        #[trigger] k.semaphore_list@[j],
        k.available_sem@[j] as int,
        k.sem_need_col(j),
        k.sem_alloc_col(j),
        k.nthreads(),
    ) by {
        assert(sem_slot_ok(
            ko.semaphore_list@[j],
            ko.available_sem@[j] as int,
            ko.sem_need_col(j),
            ko.sem_alloc_col(j),
            ko.nthreads(),
        ));
        assert(k.sem_alloc_col(j) =~= ko.sem_alloc_col(j));
        if j != id {
            assert(k.sem_need_col(j) =~= ko.sem_need_col(j));
        } else {
            assert(k.sem_need_col(j) =~= ko.sem_need_col(j).update(tid, v as usize));
        }
    };
    assert forall|j: int| 0 <= j < k.nmutex() implies mutex_slot_ok(
        #[trigger] k.mutex_list@[j],
        k.available_mutex@[j] as int,
        k.mutex_need_col(j),
        k.mutex_alloc_col(j),
        k.nthreads(),
    ) by {
        assert(mutex_slot_ok(
            ko.mutex_list@[j],
            ko.available_mutex@[j] as int,
            ko.mutex_need_col(j),
            ko.mutex_alloc_col(j),
            ko.nthreads(),
        ));
        assert(k.mutex_need_col(j) =~= ko.mutex_need_col(j));
        assert(k.mutex_alloc_col(j) =~= ko.mutex_alloc_col(j));
    };
}

/// Release one semaphore unit held by the current task.
///
/// If a waiter is queued, the unit is transferred directly to the head
/// waiter, which returns to the ready queue with the transfer recorded in
/// the tables; otherwise the unit goes back to `available`.  An invalid id
/// is refused with `-1`; the caller must hold at least one unit (releasing
/// a unit one does not hold would corrupt the accounting, the reference
/// behavior being an unchecked counter underflow).
pub fn sys_semaphore_up(k: &mut Kernel, sem_id: usize) -> (r: isize)
    requires
        old(k).wf(),
        old(k).has_cur(),
        sem_id < old(k).nsem() && old(k).semaphore_list@[sem_id as int] is Some ==> old(k).sem_alloc_col(sem_id as int)[old(k).cur().tid as int] >= 1,
    ensures
        final(k).wf(),
        ({
            let ko = *old(k);
            let kf = *final(k);
            let id = sem_id as int;
            let tid = ko.cur().tid as int;
            let valid = id < ko.nsem() && ko.semaphore_list@[id] is Some;
            let sem = ko.semaphore_list@[id]->Some_0;
            let al0 = ko.allocation_sem.deep_view();
            let al1 = al0.update(tid, al0[tid].update(id, (al0[tid][id] - 1) as usize));
            &&& (!valid ==> r == -1 && same_sem_state(ko, kf) && same_sched_state(ko, kf))
            &&& (valid ==> r == 0 && kf.running == ko.running && kf.semaphore_list@[id] is Some
                && kf.semaphore_list@[id]->Some_0.spec_count() == sem.spec_count() + 1
                && kf.semaphore_list@[id]->Some_0.spec_total() == sem.spec_total())
            &&& (valid && sem.spec_count() >= 0 ==> kf.manager == ko.manager
                && kf.semaphore_list@[id]->Some_0.waiters() == sem.waiters() && kf.available_sem@
                == ko.available_sem@.update(id, (ko.available_sem@[id] + 1) as usize)
                && kf.need_sem == ko.need_sem && kf.allocation_sem.deep_view() == al1)
            &&& (valid && sem.spec_count() < 0 ==> ({
                let w = sem.waiters()[0];
                let nd0 = ko.need_sem.deep_view();
                &&& kf.manager@ == ko.manager@.push((Task { status: TaskStatus::Ready, ..w }))
                &&& kf.semaphore_list@[id]->Some_0.waiters() == sem.waiters().subrange(
                    1,
                    sem.waiters().len() as int,
                )
                &&& kf.available_sem == ko.available_sem
                &&& kf.need_sem.deep_view() == nd0.update(
                    w.tid as int,
                    nd0[w.tid as int].update(id, 0usize),
                )
                &&& kf.allocation_sem.deep_view() == al1.update(
                    w.tid as int,
                    al1[w.tid as int].update(id, (al1[w.tid as int][id] + 1) as usize),
                )
            }))
            &&& (valid ==> forall|j: int|
                0 <= j < ko.nsem() && j != id ==> #[trigger] kf.semaphore_list@[j]
                    == ko.semaphore_list@[j])
            &&& kf.semaphore_list@.len() == ko.semaphore_list@.len()
            &&& kf.sleeping == ko.sleeping
            &&& kf.zombies == ko.zombies
            &&& same_mutex_state(ko, kf)
            &&& same_condvar_state(ko, kf)
            &&& same_config(ko, kf)
        }),
{
    let ghost ko = *old(k);
    if sem_id >= k.semaphore_list.len() {
        return -1;
    }
    if k.semaphore_list[sem_id].is_none() {
        return -1;
    }
    let cur = k.running.unwrap();
    let tid = cur.tid;
    let ghost id = sem_id as int;
    proof {
        assert(sem_slot_ok(
            ko.semaphore_list@[id],
            ko.available_sem@[id] as int,
            ko.sem_need_col(id),
            ko.sem_alloc_col(id),
            ko.nthreads(),
        ));
        // the caller holds a unit, so the counter sits below the total
        lemma_seq_sum_entry(ko.sem_alloc_col(id), tid as int);
    }
    let slot_ref = &mut k.semaphore_list[sem_id];
    let mut sem = slot_ref.take().unwrap();
    let woken = sem.up();
    let prev_alloc = mat_get(&k.allocation_sem, tid, sem_id);
    mat_set(&mut k.allocation_sem, tid, sem_id, prev_alloc - 1);
    proof {
        lemma_seq_sum_update(ko.sem_alloc_col(id), tid as int, (prev_alloc - 1) as usize);
    }
    match woken {
        Some(w) => {
            // direct transfer: the head waiter resumes holding the unit
            k.semaphore_list[sem_id] = Some(sem);
            proof {
                assert(blocked_waiter_ok(ko.nthreads(), w));
            }
            mat_set(&mut k.need_sem, w.tid, sem_id, 0);
            let prev_w = mat_get(&k.allocation_sem, w.tid, sem_id);
            proof {
                let ac1 = ko.sem_alloc_col(id).update(tid as int, (prev_alloc - 1) as usize);
                assert(k.sem_alloc_col(id) =~= ac1);
                lemma_seq_sum_entry(ac1, w.tid as int);
                lemma_seq_sum_nonneg(ac1.update(w.tid as int, 0usize));
                lemma_seq_sum_update(ac1, w.tid as int, 0usize);
            }
            mat_set(&mut k.allocation_sem, w.tid, sem_id, prev_w + 1);
            k.manager.add(Task { status: TaskStatus::Ready, ..w });
            proof {
                lemma_wf_after_sem_up_handoff(ko, *k, tid as int, id, w);
            }
            0
        },
        None => {
            k.semaphore_list[sem_id] = Some(sem);
            let avail = k.available_sem[sem_id];
            k.available_sem[sem_id] = avail + 1;
            proof {
                lemma_wf_after_sem_up_free(ko, *k, tid as int, id);
            }
            0
        },
    }
}

/// Releasing a semaphore unit with no waiter queued preserves the
/// invariant.
proof fn lemma_wf_after_sem_up_free(ko: Kernel, k: Kernel, tid: int, id: int)
    requires
        ko.wf(),
        0 <= id < ko.nsem(),
        0 <= tid < ko.nthreads(),
        ko.semaphore_list@[id] is Some,
        ko.semaphore_list@[id]->Some_0.spec_count() >= 0,
        ko.sem_alloc_col(id)[tid] >= 1,
        k.semaphore_list@.len() == ko.semaphore_list@.len(),
        forall|j: int|
            0 <= j < ko.nsem() && j != id ==> #[trigger] k.semaphore_list@[j]
                == ko.semaphore_list@[j],
        k.semaphore_list@[id] is Some,
        ({
            let s0 = ko.semaphore_list@[id]->Some_0;
            let s1 = k.semaphore_list@[id]->Some_0;
            &&& s1.wf()
            &&& s1.spec_count() == s0.spec_count() + 1
            &&& s1.spec_total() == s0.spec_total()
            &&& s1.waiters() == s0.waiters()
        }),
        k.available_sem@ == ko.available_sem@.update(id, (ko.available_sem@[id] + 1) as usize),
        k.allocation_sem@.len() == ko.allocation_sem@.len(),
        forall|t: int|
            0 <= t < ko.nthreads() ==> (#[trigger] k.allocation_sem@[t])@.len()
                == ko.allocation_sem@[t]@.len(),
        k.allocation_sem.deep_view() == ko.allocation_sem.deep_view().update(
            tid,
            ko.allocation_sem.deep_view()[tid].update(
                id,
                (ko.allocation_sem.deep_view()[tid][id] - 1) as usize,
            ),
        ),
        k == (Kernel {
            semaphore_list: k.semaphore_list,
            available_sem: k.available_sem,
            allocation_sem: k.allocation_sem,
            ..ko
        }),
    ensures
        k.wf(),
{
    assert forall|j: int| 0 <= j < k.nsem() implies sem_slot_ok(
        #[trigger] k.semaphore_list@[j],
        k.available_sem@[j] as int,
        k.sem_need_col(j),
        k.sem_alloc_col(j),
        k.nthreads(),
    ) by {
        assert(sem_slot_ok(
            ko.semaphore_list@[j],
            ko.available_sem@[j] as int,
            ko.sem_need_col(j),
            ko.sem_alloc_col(j),
            ko.nthreads(),
        ));
        assert(k.sem_need_col(j) =~= ko.sem_need_col(j));
        if j != id {
            assert(k.sem_alloc_col(j) =~= ko.sem_alloc_col(j));
        } else {
            lemma_seq_sum_entry(ko.sem_alloc_col(j), tid);
            lemma_seq_sum_update(
                ko.sem_alloc_col(j),
                tid,
                (ko.sem_alloc_col(j)[tid] - 1) as usize,
            );
            assert(k.sem_alloc_col(j) =~= ko.sem_alloc_col(j).update(
                tid,
                (ko.sem_alloc_col(j)[tid] - 1) as usize,
            ));
        }
    };
    assert forall|j: int| 0 <= j < k.nmutex() implies mutex_slot_ok(
        #[trigger] k.mutex_list@[j],
        k.available_mutex@[j] as int,
        k.mutex_need_col(j),
        k.mutex_alloc_col(j),
        k.nthreads(),
    ) by {
        assert(mutex_slot_ok(
            ko.mutex_list@[j],
            ko.available_mutex@[j] as int,
            ko.mutex_need_col(j),
            ko.mutex_alloc_col(j),
            ko.nthreads(),
        ));
        assert(k.mutex_need_col(j) =~= ko.mutex_need_col(j));
        assert(k.mutex_alloc_col(j) =~= ko.mutex_alloc_col(j));
    };
}

/// Transferring a released semaphore unit to the head waiter preserves the
/// invariant.
proof fn lemma_wf_after_sem_up_handoff(ko: Kernel, k: Kernel, tid: int, id: int, w: Task)
    requires
        ko.wf(),
        0 <= id < ko.nsem(),
        0 <= tid < ko.nthreads(),
        ko.semaphore_list@[id] is Some,
        ko.semaphore_list@[id]->Some_0.spec_count() < 0,
        ko.semaphore_list@[id]->Some_0.waiters().len() > 0,
        w == ko.semaphore_list@[id]->Some_0.waiters()[0],
        ko.sem_alloc_col(id)[tid] >= 1,
        k.semaphore_list@.len() == ko.semaphore_list@.len(),
        forall|j: int|
            0 <= j < ko.nsem() && j != id ==> #[trigger] k.semaphore_list@[j]
                == ko.semaphore_list@[j],
        k.semaphore_list@[id] is Some,
        ({
            let s0 = ko.semaphore_list@[id]->Some_0;
            let s1 = k.semaphore_list@[id]->Some_0;
            &&& s1.wf()
            &&& s1.spec_count() == s0.spec_count() + 1
            &&& s1.spec_total() == s0.spec_total()
            &&& s1.waiters() == s0.waiters().subrange(1, s0.waiters().len() as int)
        }),
        k.available_sem == ko.available_sem,
        k.allocation_sem@.len() == ko.allocation_sem@.len(),
        forall|t: int|
            0 <= t < ko.nthreads() ==> (#[trigger] k.allocation_sem@[t])@.len()
                == ko.allocation_sem@[t]@.len(),
        ({
            let al0 = ko.allocation_sem.deep_view();
            let al1 = al0.update(tid, al0[tid].update(id, (al0[tid][id] - 1) as usize));
            k.allocation_sem.deep_view() == al1.update(
                w.tid as int,
                al1[w.tid as int].update(id, (al1[w.tid as int][id] + 1) as usize),
            )
        }),
        k.need_sem@.len() == ko.need_sem@.len(),
        forall|t: int|
            0 <= t < ko.nthreads() ==> (#[trigger] k.need_sem@[t])@.len() == ko.need_sem@[t]@.len(),
        k.need_sem.deep_view() == ko.need_sem.deep_view().update(
            w.tid as int,
            ko.need_sem.deep_view()[w.tid as int].update(id, 0usize),
        ),
        k.manager@ == ko.manager@.push((Task { status: TaskStatus::Ready, ..w })),
        k.manager.wf(),
        k == (Kernel {
            semaphore_list: k.semaphore_list,
            allocation_sem: k.allocation_sem,
            need_sem: k.need_sem,
            manager: k.manager,
            ..ko
        }),
    ensures
        k.wf(),
{
    let wtid = w.tid as int;
    assert(blocked_waiter_ok(ko.nthreads(), w));
    assert forall|i: int| 0 <= i < k.manager@.len() implies task_ok(
        k.nthreads(),
        #[trigger] k.manager@[i],
    ) && k.manager@[i].status == TaskStatus::Ready by {
        if i < ko.manager@.len() {
            assert(k.manager@[i] == ko.manager@[i]);
        }
    };
    assert forall|j: int| 0 <= j < k.nsem() implies sem_slot_ok(
        #[trigger] k.semaphore_list@[j],
        k.available_sem@[j] as int,
        k.sem_need_col(j),
        k.sem_alloc_col(j),
        k.nthreads(),
    ) by {
        assert(sem_slot_ok(
            ko.semaphore_list@[j],
            ko.available_sem@[j] as int,
            ko.sem_need_col(j),
            ko.sem_alloc_col(j),
            ko.nthreads(),
        ));
        if j != id {
            assert(k.sem_need_col(j) =~= ko.sem_need_col(j));
            assert(k.sem_alloc_col(j) =~= ko.sem_alloc_col(j));
        } else {
            let ac0 = ko.sem_alloc_col(j);
            let ac1 = ac0.update(tid, (ac0[tid] - 1) as usize);
            let ac2 = ac1.update(wtid, (ac1[wtid] + 1) as usize);
            assert(k.sem_need_col(j) =~= ko.sem_need_col(j).update(wtid, 0usize));
            assert(k.sem_alloc_col(j) =~= ac2);
            lemma_seq_sum_entry(ac0, tid);
            lemma_seq_sum_update(ac0, tid, (ac0[tid] - 1) as usize);
            lemma_seq_sum_entry(ac1, wtid);
            lemma_seq_sum_update(ac1, wtid, (ac1[wtid] + 1) as usize);
            let w0 = ko.semaphore_list@[id]->Some_0.waiters();
            let w1 = k.semaphore_list@[id]->Some_0.waiters();
            assert forall|i: int| 0 <= i < w1.len() implies blocked_waiter_ok(
                k.nthreads(),
                #[trigger] w1[i],
            ) by {
                assert(w1[i] == w0[i + 1]);
            };
        }
    };
    assert forall|j: int| 0 <= j < k.nmutex() implies mutex_slot_ok(
        #[trigger] k.mutex_list@[j],
        k.available_mutex@[j] as int,
        k.mutex_need_col(j),
        k.mutex_alloc_col(j),
        k.nthreads(),
    ) by {
        assert(mutex_slot_ok(
            ko.mutex_list@[j],
            ko.available_mutex@[j] as int,
            ko.mutex_need_col(j),
            ko.mutex_alloc_col(j),
            ko.nthreads(),
        ));
        assert(k.mutex_need_col(j) =~= ko.mutex_need_col(j));
        assert(k.mutex_alloc_col(j) =~= ko.mutex_alloc_col(j));
    };
}

/// Consume one semaphore unit on behalf of the current task.
///
/// The request is first recorded in the `need` table; with detection
/// enabled, the deadlock detector (keyed by the calling thread id,
/// uniformly with the mutex class) vets the snapshot and an unsafe request
/// is refused with [`DEADLOCK_CODE`], the recorded intent rolled back.
/// Otherwise a free unit is granted at once (`0`, tables updated), or the
/// caller is enqueued and blocked until a matching `up` transfers a unit
/// to it (`0` — the value the task observes when it resumes).  An invalid
/// id is refused with `-1` before anything is recorded.
pub fn sys_semaphore_down(k: &mut Kernel, sem_id: usize) -> (r: isize)
    requires
        old(k).wf(),
        old(k).has_cur(),
        sem_id < old(k).nsem() && old(k).semaphore_list@[sem_id as int] is Some ==> old(
            k,
        ).semaphore_list@[sem_id as int]->Some_0.spec_count() > isize::MIN,
    ensures
        final(k).wf(),
        ({
            let ko = *old(k);
            let kf = *final(k);
            let id = sem_id as int;
            let tid = ko.cur().tid as int;
            let valid = id < ko.nsem() && ko.semaphore_list@[id] is Some;
            let sem = ko.semaphore_list@[id]->Some_0;
            let nd0 = ko.need_sem.deep_view();
            let nd1 = nd0.update(tid, nd0[tid].update(id, 1usize));
            let al0 = ko.allocation_sem.deep_view();
            let vetoed = ko.deadlock_detect_enabled && !crate::detect::safe_state(
                ko.available_sem@,
                nd1,
                al0,
            );
            &&& (!valid ==> r == -1 && same_sem_state(ko, kf) && same_sched_state(ko, kf))
            &&& (valid && vetoed ==> r == DEADLOCK_CODE && kf.semaphore_list == ko.semaphore_list
                && kf.available_sem == ko.available_sem && kf.allocation_sem == ko.allocation_sem
                && kf.need_sem.deep_view() == nd0 && same_sched_state(ko, kf))
            &&& (valid && !vetoed && sem.spec_count() > 0 ==> r == 0 && kf.running == ko.running
                && kf.manager == ko.manager && kf.semaphore_list@[id] is Some
                && kf.semaphore_list@[id]->Some_0.spec_count() == sem.spec_count() - 1
                && kf.semaphore_list@[id]->Some_0.spec_total() == sem.spec_total()
                && kf.semaphore_list@[id]->Some_0.waiters() == sem.waiters() && kf.available_sem@
                == ko.available_sem@.update(id, (ko.available_sem@[id] - 1) as usize)
                && kf.need_sem.deep_view() == nd0.update(tid, nd0[tid].update(id, 0usize))
                && kf.allocation_sem.deep_view() == al0.update(
                tid,
                al0[tid].update(id, (al0[tid][id] + 1) as usize),
            ))
            &&& (valid && !vetoed && sem.spec_count() <= 0 ==> r == 0
                && kf.semaphore_list@[id] is Some && kf.semaphore_list@[id]->Some_0.spec_count()
                == sem.spec_count() - 1 && kf.semaphore_list@[id]->Some_0.spec_total()
                == sem.spec_total() && kf.semaphore_list@[id]->Some_0.waiters()
                == sem.waiters().push((Task { status: TaskStatus::Blocked, ..ko.cur() }))
                && kf.available_sem == ko.available_sem && kf.allocation_sem == ko.allocation_sem
                && kf.need_sem.deep_view() == nd1 && ({
                let q = ko.manager@;
                &&& (q.len() == 0 ==> kf.running is None && kf.manager@ == q)
                &&& (q.len() > 0 ==> ({
                    let idx = scan_idx(q, q.len() as int);
                    &&& kf.running == Some(
                        (Task {
                            status: TaskStatus::Running,
                            stride: stride_after(q[idx].stride, q[idx].priority),
                            ..q[idx]
                        }),
                    )
                    &&& kf.manager@ == q.remove(idx)
                }))
            }))
            &&& (valid ==> forall|j: int|
                0 <= j < ko.nsem() && j != id ==> #[trigger] kf.semaphore_list@[j]
                    == ko.semaphore_list@[j])
            &&& kf.semaphore_list@.len() == ko.semaphore_list@.len()
            &&& kf.sleeping == ko.sleeping
            &&& kf.zombies == ko.zombies
            &&& same_mutex_state(ko, kf)
            &&& same_condvar_state(ko, kf)
            &&& same_config(ko, kf)
        }),
{
    let ghost ko = *old(k);
    if sem_id >= k.semaphore_list.len() {
        return -1;
    }
    if k.semaphore_list[sem_id].is_none() {
        return -1;
    }
    let cur = k.running.unwrap();
    let tid = cur.tid;
    let ghost id = sem_id as int;
    let ghost nd0 = ko.need_sem.deep_view();
    let ghost nd1 = nd0.update(tid as int, nd0[tid as int].update(id, 1usize));
    proof {
        assert(sem_slot_ok(
            ko.semaphore_list@[id],
            ko.available_sem@[id] as int,
            ko.sem_need_col(id),
            ko.sem_alloc_col(id),
            ko.nthreads(),
        ));
    }
    // record intent: the current task requests one unit
    let prev_need = mat_get(&k.need_sem, tid, sem_id);
    mat_set(&mut k.need_sem, tid, sem_id, 1);
    proof {
        assert(k.need_sem.deep_view() == nd1);
        lemma_wf_after_sem_need_set(ko, *k, tid as int, id, 1);
    }
    if k.deadlock_detect_enabled {
        proof {
            lemma_sem_tables_for_check(*k);
        }
        let safe = crate::detect::check_safety(&k.available_sem, &k.need_sem, &k.allocation_sem);
        if !safe {
            // refuse the request and roll back the recorded intent
            mat_set(&mut k.need_sem, tid, sem_id, prev_need);
            proof {
                assert(k.need_sem.deep_view() =~~= nd0);
                assert(ko.sem_need_col(id)[tid as int] == prev_need);
                assert(ko.need_sem.deep_view().update(
                    tid as int,
                    ko.need_sem.deep_view()[tid as int].update(id, prev_need),
                ) =~~= nd0);
                lemma_wf_after_sem_need_set(ko, *k, tid as int, id, prev_need as int);
            }
            return DEADLOCK_CODE;
        }
    }
    let ghost kmid = *k;
    let slot_ref = &mut k.semaphore_list[sem_id];
    let mut sem = slot_ref.take().unwrap();
    let granted = sem.down(Task { status: TaskStatus::Blocked, ..cur });
    if granted {
        // a unit was free: take it and settle the tables
        k.semaphore_list[sem_id] = Some(sem);
        let avail = k.available_sem[sem_id];
        k.available_sem[sem_id] = avail - 1;
        mat_set(&mut k.need_sem, tid, sem_id, 0);
        let prev_a = mat_get(&k.allocation_sem, tid, sem_id);
        proof {
            lemma_seq_sum_entry(ko.sem_alloc_col(id), tid as int);
        }
        mat_set(&mut k.allocation_sem, tid, sem_id, prev_a + 1);
        proof {
            assert(k.need_sem.deep_view() =~~= nd0.update(
                tid as int,
                nd0[tid as int].update(id, 0usize),
            ));
            lemma_wf_after_sem_grant(ko, *k, tid as int, id);
        }
        0
    } else {
        // no unit free: enqueue and block until a matching up
        k.semaphore_list[sem_id] = Some(sem);
        k.running = None;
        proof {
            lemma_wf_after_sem_block(kmid, *k, id);
        }
        schedule_next(k);
        0
    }
}

/// Granting a free semaphore unit to the requesting task preserves the
/// invariant.
proof fn lemma_wf_after_sem_grant(ko: Kernel, k: Kernel, tid: int, id: int)
    requires
        ko.wf(),
        ko.has_cur(),
        tid == ko.cur().tid as int,
        0 <= id < ko.nsem(),
        ko.semaphore_list@[id] is Some,
        ko.semaphore_list@[id]->Some_0.spec_count() > 0,
        k.semaphore_list@.len() == ko.semaphore_list@.len(),
        forall|j: int|
            0 <= j < ko.nsem() && j != id ==> #[trigger] k.semaphore_list@[j]
                == ko.semaphore_list@[j],
        k.semaphore_list@[id] is Some,
        ({
            let s0 = ko.semaphore_list@[id]->Some_0;
            let s1 = k.semaphore_list@[id]->Some_0;
            &&& s1.wf()
            &&& s1.spec_count() == s0.spec_count() - 1
            &&& s1.spec_total() == s0.spec_total()
            &&& s1.waiters() == s0.waiters()
        }),
        k.available_sem@ == ko.available_sem@.update(id, (ko.available_sem@[id] - 1) as usize),
        k.need_sem@.len() == ko.need_sem@.len(),
        forall|t: int|
            0 <= t < ko.nthreads() ==> (#[trigger] k.need_sem@[t])@.len() == ko.need_sem@[t]@.len(),
        k.need_sem.deep_view() == ko.need_sem.deep_view().update(
            tid,
            ko.need_sem.deep_view()[tid].update(id, 0usize),
        ),
        k.allocation_sem@.len() == ko.allocation_sem@.len(),
        forall|t: int|
            0 <= t < ko.nthreads() ==> (#[trigger] k.allocation_sem@[t])@.len()
                == ko.allocation_sem@[t]@.len(),
        k.allocation_sem.deep_view() == ko.allocation_sem.deep_view().update(
            tid,
            ko.allocation_sem.deep_view()[tid].update(
                id,
                (ko.allocation_sem.deep_view()[tid][id] + 1) as usize,
            ),
        ),
        k == (Kernel {
            semaphore_list: k.semaphore_list,
            available_sem: k.available_sem,
            need_sem: k.need_sem,
            allocation_sem: k.allocation_sem,
            ..ko
        }),
    ensures
        k.wf(),
{
    assert forall|j: int| 0 <= j < k.nsem() implies sem_slot_ok(
        #[trigger] k.semaphore_list@[j],
        k.available_sem@[j] as int,
        k.sem_need_col(j),
        k.sem_alloc_col(j),
        k.nthreads(),
    ) by {
        assert(sem_slot_ok(
            ko.semaphore_list@[j],
            ko.available_sem@[j] as int,
            ko.sem_need_col(j),
            ko.sem_alloc_col(j),
            ko.nthreads(),
        ));
        if j != id {
            assert(k.sem_need_col(j) =~= ko.sem_need_col(j));
            assert(k.sem_alloc_col(j) =~= ko.sem_alloc_col(j));
        } else {
            let ac0 = ko.sem_alloc_col(j);
            assert(k.sem_need_col(j) =~= ko.sem_need_col(j).update(tid, 0usize));
            assert(k.sem_alloc_col(j) =~= ac0.update(tid, (ac0[tid] + 1) as usize));
            lemma_seq_sum_entry(ac0, tid);
            lemma_seq_sum_update(ac0, tid, (ac0[tid] + 1) as usize);
        }
    };
    assert forall|j: int| 0 <= j < k.nmutex() implies mutex_slot_ok(
        #[trigger] k.mutex_list@[j],
        k.available_mutex@[j] as int,
        k.mutex_need_col(j),
        k.mutex_alloc_col(j),
        k.nthreads(),
    ) by {
        assert(mutex_slot_ok(
            ko.mutex_list@[j],
            ko.available_mutex@[j] as int,
            ko.mutex_need_col(j),
            ko.mutex_alloc_col(j),
            ko.nthreads(),
        ));
        assert(k.mutex_need_col(j) =~= ko.mutex_need_col(j));
        assert(k.mutex_alloc_col(j) =~= ko.mutex_alloc_col(j));
    };
}

/// Blocking the current task on an empty semaphore preserves the invariant
/// (with the processor handed back, ready for the scheduler).
proof fn lemma_wf_after_sem_block(ko: Kernel, k: Kernel, id: int)
    requires
        ko.wf(),
        ko.has_cur(),
        0 <= id < ko.nsem(),
        ko.semaphore_list@[id] is Some,
        ko.semaphore_list@[id]->Some_0.spec_count() <= 0,
        k.semaphore_list@.len() == ko.semaphore_list@.len(),
        forall|j: int|
            0 <= j < ko.nsem() && j != id ==> #[trigger] k.semaphore_list@[j]
                == ko.semaphore_list@[j],
        k.semaphore_list@[id] is Some,
        ({
            let s0 = ko.semaphore_list@[id]->Some_0;
            let s1 = k.semaphore_list@[id]->Some_0;
            &&& s1.wf()
            &&& s1.spec_count() == s0.spec_count() - 1
            &&& s1.spec_total() == s0.spec_total()
            &&& s1.waiters() == s0.waiters().push(
                (Task { status: TaskStatus::Blocked, ..ko.cur() }),
            )
        }),
        k.running is None,
        k == (Kernel { semaphore_list: k.semaphore_list, running: k.running, ..ko }),
    ensures
        k.wf(),
{
    assert forall|j: int| 0 <= j < k.nsem() implies sem_slot_ok(
        #[trigger] k.semaphore_list@[j],
        k.available_sem@[j] as int,
        k.sem_need_col(j),
        k.sem_alloc_col(j),
        k.nthreads(),
    ) by {
        assert(sem_slot_ok(
            ko.semaphore_list@[j],
            ko.available_sem@[j] as int,
            ko.sem_need_col(j),
            ko.sem_alloc_col(j),
            ko.nthreads(),
        ));
        assert(k.sem_need_col(j) =~= ko.sem_need_col(j));
        assert(k.sem_alloc_col(j) =~= ko.sem_alloc_col(j));
        if j == id {
            let w0 = ko.semaphore_list@[id]->Some_0.waiters();
            let w1 = k.semaphore_list@[id]->Some_0.waiters();
            assert forall|i: int| 0 <= i < w1.len() implies blocked_waiter_ok(
                k.nthreads(),
                #[trigger] w1[i],
            ) by {
                if i < w0.len() {
                    assert(w1[i] == w0[i]);
                } else {
                    assert(w1[i] == (Task { status: TaskStatus::Blocked, ..ko.cur() }));
                }
            };
        }
    };
    assert forall|j: int| 0 <= j < k.nmutex() implies mutex_slot_ok(
        #[trigger] k.mutex_list@[j],
        k.available_mutex@[j] as int,
        k.mutex_need_col(j),
        k.mutex_alloc_col(j),
        k.nthreads(),
    ) by {
        assert(mutex_slot_ok(
            ko.mutex_list@[j],
            ko.available_mutex@[j] as int,
            ko.mutex_need_col(j),
            ko.mutex_alloc_col(j),
            ko.nthreads(),
        ));
        assert(k.mutex_need_col(j) =~= ko.mutex_need_col(j));
        assert(k.mutex_alloc_col(j) =~= ko.mutex_alloc_col(j));
    };
}

/// Create a condition variable in the owning process's slot table and
/// return its id: the first cleared slot is reused, else a new slot is
/// appended.
pub fn sys_condvar_create(k: &mut Kernel) -> (r: isize)
    requires
        old(k).wf(),
        old(k).ncondvar() < isize::MAX,
    ensures
        final(k).wf(),
        r == first_free(old(k).condvar_list@, 0),
        0 <= r <= old(k).ncondvar(),
        ({
            let id = first_free(old(k).condvar_list@, 0);
            &&& final(k).condvar_list@.len() == (if id < old(k).ncondvar() {
                old(k).ncondvar()
            } else {
                old(k).ncondvar() + 1
            })
            &&& forall|j: int|
                0 <= j < old(k).ncondvar() && j != id ==> #[trigger] final(k).condvar_list@[j]
                    == old(k).condvar_list@[j]
            &&& final(k).condvar_list@[id] is Some
            &&& final(k).condvar_list@[id]->Some_0.waiters() == Seq::<Task>::empty()
        }),
        same_mutex_state(*old(k), *final(k)),
        same_sem_state(*old(k), *final(k)),
        same_sched_state(*old(k), *final(k)),
        same_config(*old(k), *final(k)),
{
    let ghost ko = *old(k);
    let n = k.condvar_list.len();
    let mut id: usize = 0;
    let mut found: bool = false;
    while id < n && !found
        invariant
            n == ko.condvar_list@.len(),
            k.condvar_list == ko.condvar_list,
            0 <= id <= n,
            !found ==> forall|j: int| 0 <= j < id ==> !(#[trigger] k.condvar_list@[j] is None),
            !found ==> first_free(ko.condvar_list@, id as int) == first_free(ko.condvar_list@, 0),
            found ==> id < n && k.condvar_list@[id as int] is None && id as int == first_free(
                ko.condvar_list@,
                0,
            ),
        decreases n - id, (if found { 0int } else { 1int }),
    {
        if k.condvar_list[id].is_none() {
            found = true;
        } else {
            id += 1;
        }
    }
    if found {
        k.condvar_list[id] = Some(Condvar::new());
        id as isize
    } else {
        k.condvar_list.push(Some(Condvar::new()));
        proof {
            assert(first_free(ko.condvar_list@, n as int) == n as int);
        }
        id as isize
    }
}

/// Wake at most one waiter of a condition variable: the head of its queue
/// returns to the ready set.  Mesa-style, waking does not reacquire any
/// mutex — the resumed task must re-lock before proceeding.  An invalid id
/// is refused with `-1`.
pub fn sys_condvar_signal(k: &mut Kernel, condvar_id: usize) -> (r: isize)
    requires
        old(k).wf(),
    ensures
        final(k).wf(),
        ({
            let ko = *old(k);
            let kf = *final(k);
            let id = condvar_id as int;
            let valid = id < ko.ncondvar() && ko.condvar_list@[id] is Some;
            let cv = ko.condvar_list@[id]->Some_0;
            &&& (!valid ==> r == -1 && same_condvar_state(ko, kf) && same_sched_state(ko, kf))
            &&& (valid && cv.waiters().len() == 0 ==> r == 0 && kf.condvar_list@[id] is Some
                && kf.condvar_list@[id]->Some_0.waiters() == cv.waiters() && kf.manager
                == ko.manager && kf.running == ko.running)
            &&& (valid && cv.waiters().len() > 0 ==> r == 0 && kf.condvar_list@[id] is Some
                && kf.condvar_list@[id]->Some_0.waiters() == cv.waiters().subrange(
                1,
                cv.waiters().len() as int,
            ) && kf.manager@ == ko.manager@.push(
                (Task { status: TaskStatus::Ready, ..cv.waiters()[0] }),
            ) && kf.running == ko.running)
            &&& (valid ==> forall|j: int|
                0 <= j < ko.ncondvar() && j != id ==> #[trigger] kf.condvar_list@[j]
                    == ko.condvar_list@[j])
            &&& kf.condvar_list@.len() == ko.condvar_list@.len()
            &&& kf.sleeping == ko.sleeping
            &&& kf.zombies == ko.zombies
            &&& same_mutex_state(ko, kf)
            &&& same_sem_state(ko, kf)
            &&& same_config(ko, kf)
        }),
{
    let ghost ko = *old(k);
    if condvar_id >= k.condvar_list.len() {
        return -1;
    }
    if k.condvar_list[condvar_id].is_none() {
        return -1;
    }
    let ghost id = condvar_id as int;
    proof {
        assert(condvar_slot_ok(ko.condvar_list@[id], ko.nthreads()));
    }
    let slot_ref = &mut k.condvar_list[condvar_id];
    let mut cv = slot_ref.take().unwrap();
    let woken = cv.signal();
    k.condvar_list[condvar_id] = Some(cv);
    match woken {
        Some(w) => {
            k.manager.add(Task { status: TaskStatus::Ready, ..w });
            proof {
                lemma_wf_after_signal(ko, *k, id, w);
            }
            0
        },
        None => {
            proof {
                assert forall|j: int| 0 <= j < k.ncondvar() implies condvar_slot_ok(
                    #[trigger] k.condvar_list@[j],
                    k.nthreads(),
                ) by {
                    assert(condvar_slot_ok(ko.condvar_list@[j], ko.nthreads()));
                };
            }
            0
        },
    }
}

/// Waking the head waiter of a condition variable preserves the invariant.
proof fn lemma_wf_after_signal(ko: Kernel, k: Kernel, id: int, w: Task)
    requires
        ko.wf(),
        0 <= id < ko.ncondvar(),
        ko.condvar_list@[id] is Some,
        ko.condvar_list@[id]->Some_0.waiters().len() > 0,
        w == ko.condvar_list@[id]->Some_0.waiters()[0],
        k.condvar_list@.len() == ko.condvar_list@.len(),
        forall|j: int|
            0 <= j < ko.ncondvar() && j != id ==> #[trigger] k.condvar_list@[j]
                == ko.condvar_list@[j],
        k.condvar_list@[id] is Some,
        k.condvar_list@[id]->Some_0.waiters() == ko.condvar_list@[id]->Some_0.waiters().subrange(
            1,
            ko.condvar_list@[id]->Some_0.waiters().len() as int,
        ),
        k.manager@ == ko.manager@.push((Task { status: TaskStatus::Ready, ..w })),
        k.manager.wf(),
        k == (Kernel { condvar_list: k.condvar_list, manager: k.manager, ..ko }),
    ensures
        k.wf(),
{
    assert(condvar_slot_ok(ko.condvar_list@[id], ko.nthreads()));
    assert forall|i: int| 0 <= i < k.manager@.len() implies task_ok(
        k.nthreads(),
        #[trigger] k.manager@[i],
    ) && k.manager@[i].status == TaskStatus::Ready by {
        if i < ko.manager@.len() {
            assert(k.manager@[i] == ko.manager@[i]);
        }
    };
    assert forall|j: int| 0 <= j < k.ncondvar() implies condvar_slot_ok(
        #[trigger] k.condvar_list@[j],
        k.nthreads(),
    ) by {
        assert(condvar_slot_ok(ko.condvar_list@[j], ko.nthreads()));
        if j == id {
            let w0 = ko.condvar_list@[id]->Some_0.waiters();
            let w1 = k.condvar_list@[id]->Some_0.waiters();
            assert forall|i: int| 0 <= i < w1.len() implies task_ok(
                k.nthreads(),
                #[trigger] w1[i],
            ) && w1[i].status == TaskStatus::Blocked by {
                assert(w1[i] == w0[i + 1]);
            };
        }
    };
}

/// Wait on a condition variable: as one atomic step from the caller's
/// perspective, unlock the given mutex (with its accounting, handing it to
/// a queued waiter if any) and block the current task on the condition
/// variable's queue.  Mesa-style: once signalled, the resumed task must
/// re-lock the mutex itself before proceeding.  An invalid id is refused
/// with `-1`; the caller must hold the mutex.
pub fn sys_condvar_wait(k: &mut Kernel, condvar_id: usize, mutex_id: usize) -> (r: isize)
    requires
        old(k).wf(),
        old(k).has_cur(),
        condvar_id < old(k).ncondvar() && old(k).condvar_list@[condvar_id as int] is Some
            && mutex_id < old(k).nmutex() && old(k).mutex_list@[mutex_id as int] is Some ==> old(
            k,
        ).mutex_alloc_col(mutex_id as int)[old(k).cur().tid as int] == 1,
    ensures
        final(k).wf(),
        ({
            let ko = *old(k);
            let kf = *final(k);
            let cid = condvar_id as int;
            let mid = mutex_id as int;
            let tid = ko.cur().tid as int;
            let valid = cid < ko.ncondvar() && ko.condvar_list@[cid] is Some && mid < ko.nmutex()
                && ko.mutex_list@[mid] is Some;
            let mx = ko.mutex_list@[mid]->Some_0;
            let al0 = ko.allocation_mutex.deep_view();
            let al1 = al0.update(tid, al0[tid].update(mid, 0usize));
            &&& (!valid ==> r == -1 && same_mutex_state(ko, kf) && same_condvar_state(ko, kf)
                && same_sched_state(ko, kf))
            &&& (valid ==> r == 0 && kf.condvar_list@[cid] is Some
                && kf.condvar_list@[cid]->Some_0.waiters()
                == ko.condvar_list@[cid]->Some_0.waiters().push(
                (Task { status: TaskStatus::Blocked, ..ko.cur() }),
            ) && (forall|j: int|
                0 <= j < ko.ncondvar() && j != cid ==> #[trigger] kf.condvar_list@[j]
                    == ko.condvar_list@[j]))
            &&& (valid && mx.waiters().len() == 0 ==> kf.mutex_list@[mid] is Some
                && !kf.mutex_list@[mid]->Some_0.locked() && kf.available_mutex@
                == ko.available_mutex@.update(mid, 1usize) && kf.need_mutex == ko.need_mutex
                && kf.allocation_mutex.deep_view() == al1 && ({
                let q = ko.manager@;
                &&& (q.len() == 0 ==> kf.running is None && kf.manager@ == q)
                &&& (q.len() > 0 ==> ({
                    let idx = scan_idx(q, q.len() as int);
                    &&& kf.running == Some(
                        (Task {
                            status: TaskStatus::Running,
                            stride: stride_after(q[idx].stride, q[idx].priority),
                            ..q[idx]
                        }),
                    )
                    &&& kf.manager@ == q.remove(idx)
                }))
            }))
            &&& (valid && mx.waiters().len() > 0 ==> ({
                let w = mx.waiters()[0];
                let nd0 = ko.need_mutex.deep_view();
                &&& kf.mutex_list@[mid] is Some
                &&& kf.mutex_list@[mid]->Some_0.locked()
                &&& kf.mutex_list@[mid]->Some_0.waiters() == mx.waiters().subrange(
                    1,
                    mx.waiters().len() as int,
                )
                &&& kf.available_mutex == ko.available_mutex
                &&& kf.allocation_mutex.deep_view() == al1.update(
                    w.tid as int,
                    al1[w.tid as int].update(mid, 1usize),
                )
                &&& kf.need_mutex.deep_view() == nd0.update(
                    w.tid as int,
                    nd0[w.tid as int].update(mid, 0usize),
                )
                &&& ({
                    let q = ko.manager@.push((Task { status: TaskStatus::Ready, ..w }));
                    let idx = scan_idx(q, q.len() as int);
                    &&& kf.running == Some(
                        (Task {
                            status: TaskStatus::Running,
                            stride: stride_after(q[idx].stride, q[idx].priority),
                            ..q[idx]
                        }),
                    )
                    &&& kf.manager@ == q.remove(idx)
                })
            }))
            &&& kf.condvar_list@.len() == ko.condvar_list@.len()
            &&& kf.mutex_list@.len() == ko.mutex_list@.len()
            &&& (valid ==> forall|j: int|
                0 <= j < ko.nmutex() && j != mid ==> #[trigger] kf.mutex_list@[j]
                    == ko.mutex_list@[j])
            &&& kf.sleeping == ko.sleeping
            &&& kf.zombies == ko.zombies
            &&& same_sem_state(ko, kf)
            &&& same_config(ko, kf)
        }),
{
    let ghost ko = *old(k);
    if condvar_id >= k.condvar_list.len() {
        return -1;
    }
    if k.condvar_list[condvar_id].is_none() {
        return -1;
    }
    if mutex_id >= k.mutex_list.len() {
        return -1;
    }
    if k.mutex_list[mutex_id].is_none() {
        return -1;
    }
    let cur = k.running.unwrap();
    sys_mutex_unlock(k, mutex_id);
    let ghost ku = *k;
    k.running = None;
    let slot_ref = &mut k.condvar_list[condvar_id];
    let mut cv = slot_ref.take().unwrap();
    cv.wait_enqueue(Task { status: TaskStatus::Blocked, ..cur });
    k.condvar_list[condvar_id] = Some(cv);
    proof {
        let cid = condvar_id as int;
        assert forall|j: int| 0 <= j < k.ncondvar() implies condvar_slot_ok(
            #[trigger] k.condvar_list@[j],
            k.nthreads(),
        ) by {
            assert(condvar_slot_ok(ku.condvar_list@[j], ku.nthreads()));
            if j == cid {
                let w0 = ku.condvar_list@[cid]->Some_0.waiters();
                let w1 = k.condvar_list@[cid]->Some_0.waiters();
                assert forall|i: int| 0 <= i < w1.len() implies task_ok(
                    k.nthreads(),
                    #[trigger] w1[i],
                ) && w1[i].status == TaskStatus::Blocked by {
                    if i < w0.len() {
                        assert(w1[i] == w0[i]);
                    } else {
                        assert(w1[i] == (Task { status: TaskStatus::Blocked, ..ko.cur() }));
                    }
                };
            }
        };
        assert forall|j: int| 0 <= j < k.nmutex() implies mutex_slot_ok(
            #[trigger] k.mutex_list@[j],
            k.available_mutex@[j] as int,
            k.mutex_need_col(j),
            k.mutex_alloc_col(j),
            k.nthreads(),
        ) by {
            assert(mutex_slot_ok(
                ku.mutex_list@[j],
                ku.available_mutex@[j] as int,
                ku.mutex_need_col(j),
                ku.mutex_alloc_col(j),
                ku.nthreads(),
            ));
            assert(k.mutex_need_col(j) =~= ku.mutex_need_col(j));
            assert(k.mutex_alloc_col(j) =~= ku.mutex_alloc_col(j));
        };
        assert forall|j: int| 0 <= j < k.nsem() implies sem_slot_ok(
            #[trigger] k.semaphore_list@[j],
            k.available_sem@[j] as int,
            k.sem_need_col(j),
            k.sem_alloc_col(j),
            k.nthreads(),
        ) by {
            assert(sem_slot_ok(
                ku.semaphore_list@[j],
                ku.available_sem@[j] as int,
                ku.sem_need_col(j),
                ku.sem_alloc_col(j),
                ku.nthreads(),
            ));
            assert(k.sem_need_col(j) =~= ku.sem_need_col(j));
            assert(k.sem_alloc_col(j) =~= ku.sem_alloc_col(j));
        };
    }
    schedule_next(k);
    0
}

/// The sleepers that remain parked: entries whose deadline lies after
/// `now`, in order.
pub open spec fn still_sleeping(s: Seq<SleepEntry>, now: int) -> Seq<SleepEntry>
    decreases s.len(),
{
    if s.len() <= 0 {
        Seq::empty()
    } else {
        let r = still_sleeping(s.drop_last(), now);
        if s.last().expire_ms > now {
            r.push(s.last())
        } else {
            r
        }
    }
}

/// The tasks released by the timer: those whose deadline has passed, in
/// order, marked ready.
pub open spec fn woken_tasks(s: Seq<SleepEntry>, now: int) -> Seq<Task>
    decreases s.len(),
{
    if s.len() <= 0 {
        Seq::empty()
    } else {
        let r = woken_tasks(s.drop_last(), now);
        if s.last().expire_ms <= now {
            r.push((Task { status: TaskStatus::Ready, ..s.last().task }))
        } else {
            r
        }
    }
}

/// Park the current task until the absolute deadline `now_ms + ms`,
/// registering it with the timer, and hand the processor to the
/// scheduler's next pick.  The current time is supplied by the timer
/// collaborator.
pub fn sys_sleep(k: &mut Kernel, now_ms: usize, ms: usize) -> (r: isize)
    requires
        old(k).wf(),
        old(k).has_cur(),
        now_ms + ms <= usize::MAX,
    ensures
        r == 0,
        final(k).wf(),
        final(k).sleeping@ == old(k).sleeping@.push(
            (SleepEntry {
                expire_ms: (now_ms + ms) as usize,
                task: (Task { status: TaskStatus::Blocked, ..old(k).cur() }),
            }),
        ),
        ({
            let q = old(k).manager@;
            &&& (q.len() == 0 ==> final(k).running is None && final(k).manager@ == q)
            &&& (q.len() > 0 ==> ({
                let idx = scan_idx(q, q.len() as int);
                &&& final(k).running == Some(
                    (Task {
                        status: TaskStatus::Running,
                        stride: stride_after(q[idx].stride, q[idx].priority),
                        ..q[idx]
                    }),
                )
                &&& final(k).manager@ == q.remove(idx)
            }))
        }),
        final(k).zombies == old(k).zombies,
        same_mutex_state(*old(k), *final(k)),
        same_sem_state(*old(k), *final(k)),
        same_condvar_state(*old(k), *final(k)),
        same_config(*old(k), *final(k)),
{
    let cur = k.running.unwrap();
    k.running = None;
    let expire_ms = now_ms + ms;
    k.sleeping.push(SleepEntry { expire_ms, task: Task { status: TaskStatus::Blocked, ..cur } });
    proof {
        let ko = *old(k);
        assert forall|i: int| 0 <= i < k.sleeping@.len() implies task_ok(
            k.nthreads(),
            (#[trigger] k.sleeping@[i]).task,
        ) && k.sleeping@[i].task.status == TaskStatus::Blocked by {
            if i < ko.sleeping@.len() {
                assert(k.sleeping@[i] == ko.sleeping@[i]);
            }
        };
    }
    schedule_next(k);
    0
}

/// The timer collaborator's callback: return every sleeper whose deadline
/// has passed to the ready set, in registration order, keeping the rest
/// parked.
pub fn check_timer(k: &mut Kernel, now_ms: usize)
    requires
        old(k).wf(),
    ensures
        final(k).wf(),
        final(k).sleeping@ == still_sleeping(old(k).sleeping@, now_ms as int),
        final(k).manager@ == old(k).manager@ + woken_tasks(old(k).sleeping@, now_ms as int),
        final(k).running == old(k).running,
        final(k).zombies == old(k).zombies,
        same_mutex_state(*old(k), *final(k)),
        same_sem_state(*old(k), *final(k)),
        same_condvar_state(*old(k), *final(k)),
        same_config(*old(k), *final(k)),
{
    let ghost ko = *old(k);
    let ghost s0 = k.sleeping@;
    let mut kept: Vec<SleepEntry> = Vec::new();
    let mut i: usize = 0;
    proof {
        assert(k.manager@ =~= ko.manager@ + woken_tasks(s0.take(0), now_ms as int));
    }
    while i < k.sleeping.len()
        invariant
            ko.wf(),
            k.sleeping@ == s0,
            s0 == ko.sleeping@,
            0 <= i <= s0.len(),
            kept@ == still_sleeping(s0.take(i as int), now_ms as int),
            k.manager@ == ko.manager@ + woken_tasks(s0.take(i as int), now_ms as int),
            k.manager.wf(),
            forall|j: int|
                0 <= j < k.manager@.len() ==> task_ok(k.nthreads(), #[trigger] k.manager@[j])
                    && k.manager@[j].status == TaskStatus::Ready,
            *k == (Kernel { manager: k.manager, ..ko }),
        decreases s0.len() - i,
    {
        let e = k.sleeping[i];
        proof {
            assert(s0.take(i + 1).drop_last() =~= s0.take(i as int));
            assert(s0.take(i + 1).last() == s0[i as int]);
            assert(task_ok(ko.nthreads(), ko.sleeping@[i as int].task));
        }
        if e.expire_ms <= now_ms {
            k.manager.add(Task { status: TaskStatus::Ready, ..e.task });
        } else {
            kept.push(e);
        }
        i += 1;
    }
    proof {
        assert(s0.take(s0.len() as int) =~= s0);
    }
    k.sleeping = kept;
    proof {
        assert forall|j: int| 0 <= j < k.sleeping@.len() implies task_ok(
            k.nthreads(),
            (#[trigger] k.sleeping@[j]).task,
        ) && k.sleeping@[j].task.status == TaskStatus::Blocked by {
            lemma_still_sleeping_members(s0, now_ms as int, j);
            assert(task_ok(ko.nthreads(), k.sleeping@[j].task)) by {
                let i0 = choose|i0: int|
                    0 <= i0 < s0.len() && s0[i0] == still_sleeping(s0, now_ms as int)[j];
                assert(ko.sleeping@[i0] == s0[i0]);
            };
        };
    }
}

/// Every entry kept by the timer scan was one of the original sleepers.
proof fn lemma_still_sleeping_members(s: Seq<SleepEntry>, now: int, j: int)
    requires
        0 <= j < still_sleeping(s, now).len(),
    ensures
        exists|i0: int| 0 <= i0 < s.len() && s[i0] == still_sleeping(s, now)[j],
    decreases s.len(),
{
    if s.len() > 0 {
        let r = still_sleeping(s.drop_last(), now);
        if j < r.len() {
            lemma_still_sleeping_members(s.drop_last(), now, j);
            let i0 = choose|i0: int| 0 <= i0 < s.drop_last().len() && s.drop_last()[i0] == r[j];
            assert(s[i0] == s.drop_last()[i0]);
        } else {
            assert(still_sleeping(s, now)[j] == s.last());
            assert(s[s.len() - 1] == s.last());
        }
    }
}

} // verus!
