//! The ready queue and the stride scheduling policy.

use vstd::prelude::*;
use vstd::wrapping::u64_specs;
use crate::task::Task;

verus! {

/// The stride constant: each dispatch advances the selected task's stride by
/// `BIG_STRIDE / priority`, so a task with a larger priority value advances
/// more slowly and is selected more often.
pub const BIG_STRIDE: u64 = 0x1000_0000;

/// The stride increment earned by one dispatch of a task with the given
/// priority.
pub open spec fn stride_inc(priority: u64) -> u64
    recommends
        priority >= 2,
{
    BIG_STRIDE / priority
}

/// The stride of a task after one dispatch.  The counter is a plain machine
/// word and wraps; wraparound past the constant is a known open edge of the
/// policy and is not compensated for.
pub open spec fn stride_after(stride: u64, priority: u64) -> u64
    recommends
        priority >= 2,
{
    u64_specs::wrapping_add(stride, stride_inc(priority))
}

/// The running minimum stride after scanning the first `n` queue entries,
/// starting from `BIG_STRIDE`.
pub open spec fn scan_min(s: Seq<Task>, n: int) -> u64
    recommends
        0 <= n <= s.len(),
    decreases n,
{
    if n <= 0 {
        BIG_STRIDE
    } else if s[n - 1].stride <= scan_min(s, n - 1) {
        s[n - 1].stride
    } else {
        scan_min(s, n - 1)
    }
}

/// The index selected after scanning the first `n` queue entries: the last
/// index whose stride is less than or equal to the running minimum.
pub open spec fn scan_idx(s: Seq<Task>, n: int) -> int
    recommends
        0 <= n <= s.len(),
    decreases n,
{
    if n <= 0 {
        0
    } else if s[n - 1].stride <= scan_min(s, n - 1) {
        n - 1
    } else {
        scan_idx(s, n - 1)
    }
}

/// As long as no stride has run past `BIG_STRIDE`, the scan finds the true
/// minimum stride, and among equal minima the last index wins.
pub proof fn lemma_scan_props(s: Seq<Task>, n: int)
    requires
        0 <= n <= s.len(),
        forall|i: int| 0 <= i < n ==> #[trigger] s[i].stride <= BIG_STRIDE,
    ensures
        n > 0 ==> 0 <= scan_idx(s, n) < n,
        n > 0 ==> s[scan_idx(s, n)].stride == scan_min(s, n),
        forall|i: int| 0 <= i < n ==> scan_min(s, n) <= #[trigger] s[i].stride,
        forall|j: int| scan_idx(s, n) < j < n ==> #[trigger] s[j].stride > scan_min(s, n),
    decreases n,
{
    if n > 0 {
        lemma_scan_props(s, n - 1);
    }
}

/// Tie-break determinism: the scan picks an index of minimal stride, and
/// among entries of equal minimal stride the later index displaces the
/// earlier one, so `fetch` deterministically returns the last task whose
/// stride attains the minimum.
pub proof fn lemma_fetch_tie_break(s: Seq<Task>)
    requires
        s.len() > 0,
        forall|i: int| 0 <= i < s.len() ==> #[trigger] s[i].stride <= BIG_STRIDE,
    ensures
        ({
            let idx = scan_idx(s, s.len() as int);
            let m = scan_min(s, s.len() as int);
            &&& 0 <= idx < s.len()
            &&& s[idx].stride == m
            &&& forall|i: int| 0 <= i < s.len() ==> m <= #[trigger] s[i].stride
            &&& forall|j: int| idx < j < s.len() ==> #[trigger] s[j].stride > m
        }),
{
    lemma_scan_props(s, s.len() as int);
}

/// Stride fairness, in its finite form.  A dispatch advances the selected
/// task's stride by exactly `BIG_STRIDE / priority`, so the number of
/// dispatches a perpetually ready task accumulates is its stride divided by
/// that increment; this lemma supplies the bound behind the proportionality:
/// as long as no stride has run past `BIG_STRIDE`, one dispatch step (fetch
/// followed by re-adding the returned task) keeps every two strides within
/// `BIG_STRIDE / 2` of each other.
pub proof fn lemma_stride_spread_preserved(s: Seq<Task>)
    requires
        s.len() > 0,
        forall|i: int| 0 <= i < s.len() ==> #[trigger] s[i].priority >= 2,
        forall|i: int| 0 <= i < s.len() ==> #[trigger] s[i].stride <= BIG_STRIDE,
        forall|i: int, j: int|
            #![trigger s[i], s[j]]
            0 <= i < s.len() && 0 <= j < s.len() ==> s[i].stride - s[j].stride <= BIG_STRIDE / 2,
    ensures
        ({
            let idx = scan_idx(s, s.len() as int);
            let picked = s[idx];
            let s2 = s.remove(idx).push(
                (Task { stride: stride_after(picked.stride, picked.priority), ..picked }),
            );
            forall|i: int, j: int|
                #![trigger s2[i], s2[j]]
                0 <= i < s2.len() && 0 <= j < s2.len() ==> s2[i].stride - s2[j].stride
                    <= BIG_STRIDE / 2
        }),
{
    lemma_scan_props(s, s.len() as int);
    let idx = scan_idx(s, s.len() as int);
    let picked = s[idx];
    vstd::arithmetic::div_mod::lemma_div_is_ordered_by_denominator(
        BIG_STRIDE as int,
        2,
        picked.priority as int,
    );
    assert(stride_inc(picked.priority) <= BIG_STRIDE / 2);
    assert(stride_after(picked.stride, picked.priority) == picked.stride + stride_inc(
        picked.priority,
    ));
    let s2 = s.remove(idx).push(
        (Task { stride: stride_after(picked.stride, picked.priority), ..picked }),
    );
    assert forall|i: int, j: int|
        #![trigger s2[i], s2[j]]
        0 <= i < s2.len() && 0 <= j < s2.len() implies s2[i].stride - s2[j].stride <= BIG_STRIDE
        / 2 by {
        let n = s.len() as int;
        assert(s2.len() == n);
        let oi = if i < idx { i } else { i + 1 };
        let oj = if j < idx { j } else { j + 1 };
        if i < n - 1 {
            assert(s2[i] == s[oi]);
        }
        if j < n - 1 {
            assert(s2[j] == s[oj]);
        }
    }
}

/// The ready queue of all runnable tasks, dispatched by stride scheduling.
pub struct TaskManager {
    ready_queue: Vec<Task>,
}

impl View for TaskManager {
    type V = Seq<Task>;

    closed spec fn view(&self) -> Seq<Task> {
        self.ready_queue@
    }
}

impl TaskManager {
    /// Every queued task carries a usable stride divisor.
    pub open spec fn wf(self) -> bool {
        forall|i: int| 0 <= i < self@.len() ==> #[trigger] self@[i].priority >= 2
    }

    /// An empty ready queue.
    pub fn new() -> (r: Self)
        ensures
            r@ == Seq::<Task>::empty(),
            r.wf(),
    {
        TaskManager { ready_queue: Vec::new() }
    }

    /// Append a task to the ready set.
    pub fn add(&mut self, task: Task)
        requires
            old(self).wf(),
            task.priority >= 2,
        ensures
            final(self)@ == old(self)@.push(task),
            final(self).wf(),
    {
        self.ready_queue.push(task);
    }

    /// Advance the stride of the task at the given index by one dispatch.
    pub fn update_stride_by_index(&mut self, index: usize)
        requires
            old(self).wf(),
            index < old(self)@.len(),
        ensures
            final(self)@ == old(self)@.update(
                index as int,
                (Task {
                    stride: stride_after(old(self)@[index as int].stride, old(self)@[index as int].priority),
                    ..old(self)@[index as int]
                }),
            ),
            final(self).wf(),
    {
        let t = self.ready_queue[index];
        let updated = Task { stride: t.stride.wrapping_add(BIG_STRIDE / t.priority), ..t };
        self.ready_queue[index] = updated;
    }

    /// Remove and return the task that should run next, or `None` when the
    /// ready set is empty (the idle condition, not an error).
    ///
    /// The scan walks the queue left to right, keeping the last index whose
    /// stride is less than or equal to the running minimum (which starts at
    /// `BIG_STRIDE`); the selected task's stride is advanced by one dispatch
    /// before it is removed and returned.
    pub fn fetch(&mut self) -> (r: Option<Task>)
        requires
            old(self).wf(),
        ensures
            old(self)@.len() == 0 ==> r is None && final(self)@ == old(self)@,
            old(self)@.len() > 0 ==> {
                let idx = scan_idx(old(self)@, old(self)@.len() as int);
                let picked = old(self)@[idx];
                &&& 0 <= idx < old(self)@.len()
                &&& r == Some(
                    (Task { stride: stride_after(picked.stride, picked.priority), ..picked }),
                )
                &&& final(self)@ == old(self)@.remove(idx)
            },
            final(self).wf(),
    {
        let ghost s = self.ready_queue@;
        if self.ready_queue.is_empty() {
            return None;
        }
        let n = self.ready_queue.len();
        let mut min_index: usize = 0;
        let mut min_stride: u64 = BIG_STRIDE;
        let mut i: usize = 0;
        while i < n
            invariant
                self.ready_queue@ == s,
                n == s.len(),
                0 < n,
                0 <= i <= n,
                min_index < n,
                min_index as int == scan_idx(s, i as int),
                min_stride == scan_min(s, i as int),
            decreases n - i,
        {
            let stride = self.ready_queue[i].stride;
            if stride <= min_stride {
                min_index = i;
                min_stride = stride;
            }
            i += 1;
        }
        let t = self.ready_queue[min_index];
        let updated = Task { stride: t.stride.wrapping_add(BIG_STRIDE / t.priority), ..t };
        self.ready_queue[min_index] = updated;
        let picked = self.ready_queue.remove(min_index);
        assert(self.ready_queue@ =~= s.remove(min_index as int));
        Some(picked)
    }

    /// How many tasks are ready.
    pub fn len(&self) -> (r: usize)
        ensures
            r == self@.len(),
    {
        self.ready_queue.len()
    }
}

} // verus!
