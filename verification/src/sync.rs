//! Synchronization primitives: spinning and blocking mutexes, counting
//! semaphores, condition variables, and the exclusive-access wrapper.
//!
//! The primitives here are pure state; removing a blocked task from
//! scheduling and returning a woken task to the ready queue is the job of
//! the entry points in `syscall`, which thread tasks in and out of the wait
//! queues kept here.

use vstd::prelude::*;
use crate::task::Task;

verus! {

/// A mutual-exclusion primitive with the contract "at most one holder at a
/// time", in two variants.
pub enum Mutex {
    /// A contended lock attempt cooperatively yields the processor and
    /// retries; no queue, no ordering guarantee among waiters.
    Spin {
        /// Whether the mutex is held.
        locked: bool,
    },
    /// A contended lock attempt enqueues and blocks the calling task; unlock
    /// hands the mutex directly to the head of the queue.
    Blocking {
        /// Whether the mutex is held.
        locked: bool,
        /// Tasks blocked on the mutex, in arrival order.
        wait_queue: Vec<Task>,
    },
}

impl Mutex {
    /// Whether the mutex is currently held.
    pub open spec fn locked(self) -> bool {
        match self {
            Mutex::Spin { locked } => locked,
            Mutex::Blocking { locked, .. } => locked,
        }
    }

    /// The queued waiters (always empty for the spin variant).
    pub open spec fn waiters(self) -> Seq<Task> {
        match self {
            Mutex::Spin { .. } => Seq::empty(),
            Mutex::Blocking { wait_queue, .. } => wait_queue@,
        }
    }

    /// Which variant this mutex is.
    pub open spec fn is_blocking(self) -> bool {
        self is Blocking
    }

    /// A fresh, free mutex of the requested variant.
    pub fn new(blocking: bool) -> (r: Self)
        ensures
            !r.locked(),
            r.waiters() == Seq::<Task>::empty(),
            r.is_blocking() == blocking,
    {
        if blocking {
            Mutex::Blocking { locked: false, wait_queue: Vec::new() }
        } else {
            Mutex::Spin { locked: false }
        }
    }

    /// Whether this is the blocking variant.
    pub fn blocking_variant(&self) -> (b: bool)
        ensures
            b == self.is_blocking(),
    {
        matches!(self, Mutex::Blocking { .. })
    }

    /// One atomic acquisition attempt: takes the mutex exactly when it is
    /// free.
    pub fn try_acquire(&mut self) -> (r: bool)
        ensures
            r == !old(self).locked(),
            final(self).locked() == true,
            final(self).waiters() == old(self).waiters(),
            final(self).is_blocking() == old(self).is_blocking(),
    {
        match self {
            Mutex::Spin { locked } => {
                if *locked {
                    false
                } else {
                    *locked = true;
                    true
                }
            },
            Mutex::Blocking { locked, .. } => {
                if *locked {
                    false
                } else {
                    *locked = true;
                    true
                }
            },
        }
    }

    /// Enqueue a task that failed to acquire the held blocking mutex.
    pub fn enqueue(&mut self, task: Task)
        requires
            old(self).is_blocking(),
            old(self).locked(),
        ensures
            final(self).waiters() == old(self).waiters().push(task),
            final(self).locked(),
            final(self).is_blocking(),
    {
        match self {
            Mutex::Spin { .. } => {
            },
            Mutex::Blocking { wait_queue, .. } => {
                wait_queue.push(task);
            },
        }
    }

    /// Release the mutex: hand it directly to the head waiter if one is
    /// queued (the mutex stays locked, now on the waiter's behalf), else
    /// mark it free.
    pub fn release(&mut self) -> (woken: Option<Task>)
        requires
            old(self).locked(),
        ensures
            final(self).is_blocking() == old(self).is_blocking(),
            old(self).waiters().len() == 0 ==> woken is None && !final(self).locked() && final(self).waiters() == old(self).waiters(),
            old(self).waiters().len() > 0 ==> woken == Some(old(self).waiters()[0]) && final(self).locked() && final(self).waiters() == old(self).waiters().subrange(
                1,
                old(self).waiters().len() as int,
            ),
    {
        match self {
            Mutex::Spin { locked } => {
                *locked = false;
                None
            },
            Mutex::Blocking { locked, wait_queue } => {
                if wait_queue.len() > 0 {
                    let head = wait_queue.remove(0);
                    assert(wait_queue@ =~= old(self).waiters().subrange(
                        1,
                        old(self).waiters().len() as int,
                    ));
                    Some(head)
                } else {
                    *locked = false;
                    None
                }
            },
        }
    }
}

/// A counting semaphore: a signed counter plus a queue of blocked waiters.
/// A negative counter records how many tasks are queued.
pub struct Semaphore {
    count: isize,
    wait_queue: Vec<Task>,
    total: Ghost<int>,
}

impl Semaphore {
    /// The current counter value.
    pub closed spec fn spec_count(self) -> int {
        self.count as int
    }

    /// The tasks blocked in `down`, in arrival order.
    pub closed spec fn waiters(self) -> Seq<Task> {
        self.wait_queue@
    }

    /// The number of units the semaphore was created with.
    pub closed spec fn spec_total(self) -> int {
        self.total@
    }

    /// The counter never exceeds the creation count, and exactly the tasks
    /// accounted by a negative counter are queued.
    pub open spec fn wf(self) -> bool {
        &&& 0 <= self.spec_total() <= isize::MAX
        &&& self.spec_count() <= self.spec_total()
        &&& self.waiters().len() == (if self.spec_count() < 0 {
            -self.spec_count()
        } else {
            0int
        })
    }

    /// A fresh semaphore holding `res_count` units.
    pub fn new(res_count: usize) -> (r: Self)
        requires
            res_count <= isize::MAX as usize,
        ensures
            r.wf(),
            r.spec_count() == res_count,
            r.spec_total() == res_count,
            r.waiters() == Seq::<Task>::empty(),
    {
        Semaphore {
            count: res_count as isize,
            wait_queue: Vec::new(),
            total: Ghost(res_count as int),
        }
    }

    /// Consume one unit.  When none is free the calling task is enqueued and
    /// the attempt reports that the caller must block.
    pub fn down(&mut self, current: Task) -> (granted: bool)
        requires
            old(self).wf(),
            old(self).spec_count() > isize::MIN,
        ensures
            final(self).wf(),
            final(self).spec_count() == old(self).spec_count() - 1,
            final(self).spec_total() == old(self).spec_total(),
            granted == (old(self).spec_count() > 0),
            granted ==> final(self).waiters() == old(self).waiters(),
            !granted ==> final(self).waiters() == old(self).waiters().push(current),
    {
        self.count = self.count - 1;
        if self.count < 0 {
            self.wait_queue.push(current);
            false
        } else {
            true
        }
    }

    /// Release one unit.  If a waiter is queued the unit is transferred to
    /// the head waiter directly, which is returned so the caller can wake
    /// it; the woken task does not decrement again.
    pub fn up(&mut self) -> (woken: Option<Task>)
        requires
            old(self).wf(),
            old(self).spec_count() < old(self).spec_total(),
        ensures
            final(self).wf(),
            final(self).spec_count() == old(self).spec_count() + 1,
            final(self).spec_total() == old(self).spec_total(),
            old(self).spec_count() < 0 ==> woken == Some(old(self).waiters()[0]) && final(self).waiters() == old(self).waiters().subrange(1, old(self).waiters().len() as int),
            old(self).spec_count() >= 0 ==> woken is None && final(self).waiters() == old(self).waiters(),
    {
        self.count = self.count + 1;
        if self.count <= 0 {
            let head = self.wait_queue.remove(0);
            assert(self.wait_queue@ =~= old(self).waiters().subrange(
                1,
                old(self).waiters().len() as int,
            ));
            Some(head)
        } else {
            None
        }
    }
}

/// A condition variable: a queue of waiters woken one at a time by
/// `signal`.  Mesa-style: a woken waiter must re-lock the associated mutex
/// itself before proceeding.
pub struct Condvar {
    wait_queue: Vec<Task>,
}

impl Condvar {
    /// The tasks blocked in `wait`, in arrival order.
    pub closed spec fn waiters(self) -> Seq<Task> {
        self.wait_queue@
    }

    /// A fresh condition variable with no waiters.
    pub fn new() -> (r: Self)
        ensures
            r.waiters() == Seq::<Task>::empty(),
    {
        Condvar { wait_queue: Vec::new() }
    }

    /// Enqueue a task that is blocking in `wait`.
    pub fn wait_enqueue(&mut self, task: Task)
        ensures
            final(self).waiters() == old(self).waiters().push(task),
    {
        self.wait_queue.push(task);
    }

    /// Wake at most one waiter: the head of the queue, if any.
    pub fn signal(&mut self) -> (woken: Option<Task>)
        ensures
            old(self).waiters().len() == 0 ==> woken is None && final(self).waiters() == old(self).waiters(),
            old(self).waiters().len() > 0 ==> woken == Some(old(self).waiters()[0]) && final(self).waiters() == old(self).waiters().subrange(1, old(self).waiters().len() as int),
    {
        if self.wait_queue.len() > 0 {
            let head = self.wait_queue.remove(0);
            assert(self.wait_queue@ =~= old(self).waiters().subrange(
                1,
                old(self).waiters().len() as int,
            ));
            Some(head)
        } else {
            None
        }
    }
}

/// A runtime-checked single-owner access wrapper around shared kernel
/// state.  Not a real lock — there is no hardware parallelism to guard
/// against; it exists to catch reentrancy bugs.  Taking a second exclusive
/// borrow while one is outstanding is a fatal programming error, which the
/// contracts below exclude statically.
pub struct ExclusiveCell<T> {
    value: Option<T>,
}

impl<T> ExclusiveCell<T> {
    /// Whether the value is inside the cell (no borrow outstanding).
    pub closed spec fn is_present(self) -> bool {
        self.value is Some
    }

    /// The stored value.
    pub closed spec fn spec_value(self) -> T
        recommends
            self.is_present(),
    {
        self.value->Some_0
    }

    /// Wrap a value.
    pub fn new(value: T) -> (r: Self)
        ensures
            r.is_present(),
            r.spec_value() == value,
    {
        ExclusiveCell { value: Some(value) }
    }

    /// Take the value for exclusive use.  A second take while one is
    /// outstanding is the reentrancy error; its exclusion is the cell's
    /// whole contract.
    pub fn exclusive_access(&mut self) -> (v: T)
        requires
            old(self).is_present(),
        ensures
            v == old(self).spec_value(),
            !final(self).is_present(),
    {
        self.value.take().unwrap()
    }

    /// Put the (possibly updated) value back, ending the exclusive access.
    pub fn release(&mut self, value: T)
        requires
            !old(self).is_present(),
        ensures
            final(self).is_present(),
            final(self).spec_value() == value,
    {
        self.value = Some(value);
    }
}

} // verus!
