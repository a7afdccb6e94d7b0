//! The deadlock detector: a Banker's-style safety check over a snapshot of
//! the resource-accounting tables.
//!
//! A snapshot consists of an `available` vector (free units per resource), a
//! `need` matrix (units requested but not yet granted, per thread and
//! resource) and an `allocation` matrix (units currently held).  A state is
//! safe when the threads can be finished one after another, each one only
//! when its whole `need` row fits into the units freed so far.  The check is
//! run separately for the mutex tables and for the semaphore tables.

use vstd::prelude::*;

verus! {

/// Shape of a snapshot: one `need` and one `allocation` row per thread, each
/// as wide as `available`.
pub open spec fn matrices_wf(avail: Seq<usize>, need: Seq<Seq<usize>>, alloc: Seq<Seq<usize>>) -> bool {
    &&& need.len() == alloc.len()
    &&& forall|t: int| 0 <= t < need.len() ==> (#[trigger] need[t]).len() == avail.len()
    &&& forall|t: int| 0 <= t < alloc.len() ==> (#[trigger] alloc[t]).len() == avail.len()
}

/// Sum of column `r` of `alloc` over the threads marked finished in `fin`.
pub open spec fn col_sum_fin(alloc: Seq<Seq<usize>>, fin: Seq<bool>, r: int) -> int
    decreases fin.len(),
{
    if fin.len() <= 0 {
        0
    } else {
        col_sum_fin(alloc, fin.drop_last(), r) + if fin.last() {
            alloc[fin.len() - 1][r] as int
        } else {
            0
        }
    }
}

/// Sum of column `r` of `alloc` over all threads.
pub open spec fn col_total(alloc: Seq<Seq<usize>>, r: int) -> int {
    col_sum_fin(alloc, Seq::new(alloc.len(), |t: int| true), r)
}

/// The snapshot leaves room in a machine word for returning every allocated
/// unit of a resource to its `available` entry.
pub open spec fn totals_bounded(avail: Seq<usize>, alloc: Seq<Seq<usize>>) -> bool {
    forall|r: int| 0 <= r < avail.len() ==> avail[r] + #[trigger] col_total(alloc, r) <= usize::MAX
}

/// Every entry of `row` fits under the matching entry of `work`.
pub open spec fn row_le(row: Seq<usize>, work: Seq<usize>) -> bool {
    forall|r: int| 0 <= r < row.len() ==> #[trigger] row[r] <= work[r]
}

/// Thread `t` could finish next: its whole `need` row fits into `available`
/// plus what the threads finished so far would free.
pub open spec fn eligible(
    avail: Seq<usize>,
    need: Seq<Seq<usize>>,
    alloc: Seq<Seq<usize>>,
    fin: Seq<bool>,
    t: int,
) -> bool {
    forall|r: int| 0 <= r < avail.len() ==> #[trigger] need[t][r] <= avail[r] + col_sum_fin(
        alloc,
        fin,
        r,
    )
}

/// The finished-set of a discovery order, as one mark per thread.
pub open spec fn fin_of(run: Seq<int>, n: int) -> Seq<bool> {
    Seq::new(n as nat, |t: int| run.contains(t))
}

/// `run` is a valid discovery order: each entry is a fresh thread index that
/// was eligible at its turn.
pub open spec fn run_ok(
    avail: Seq<usize>,
    need: Seq<Seq<usize>>,
    alloc: Seq<Seq<usize>>,
    run: Seq<int>,
) -> bool {
    forall|k: int| 0 <= k < run.len() ==> {
        &&& 0 <= #[trigger] run[k] < need.len()
        &&& !run.take(k).contains(run[k])
        &&& eligible(avail, need, alloc, fin_of(run.take(k), need.len() as int), run[k])
    }
}

/// No thread outside `run` is still eligible: the discovery order has been
/// driven as far as it goes.
pub open spec fn run_maximal(
    avail: Seq<usize>,
    need: Seq<Seq<usize>>,
    alloc: Seq<Seq<usize>>,
    run: Seq<int>,
) -> bool {
    forall|t: int| 0 <= t < need.len() && !run.contains(t) ==> !#[trigger] eligible(
        avail,
        need,
        alloc,
        fin_of(run, need.len() as int),
        t,
    )
}

/// The discovery order finished every thread.
pub open spec fn run_covers_all(need: Seq<Seq<usize>>, run: Seq<int>) -> bool {
    forall|t: int| 0 <= t < need.len() ==> run.contains(t)
}

/// A snapshot is safe when some discovery order finishes every thread.  The
/// order is existentially quantified: safety is a property of the snapshot
/// alone, not of any particular scan.
pub open spec fn safe_state(
    avail: Seq<usize>,
    need: Seq<Seq<usize>>,
    alloc: Seq<Seq<usize>>,
) -> bool {
    exists|run: Seq<int>| #[trigger] run_ok(avail, need, alloc, run) && run_covers_all(need, run)
}

/// Column `c` of a matrix with `n` rows, as a flat sequence.
pub open spec fn col_of(m: Seq<Seq<usize>>, c: int, n: int) -> Seq<usize> {
    Seq::new(n as nat, |t: int| m[t][c])
}

/// Sum of a sequence of counts.
pub open spec fn seq_sum(s: Seq<usize>) -> int
    decreases s.len(),
{
    if s.len() <= 0 {
        0
    } else {
        seq_sum(s.drop_last()) + s.last()
    }
}

/// A sum of counts is never negative.
pub proof fn lemma_seq_sum_nonneg(s: Seq<usize>)
    ensures
        seq_sum(s) >= 0,
    decreases s.len(),
{
    if s.len() > 0 {
        lemma_seq_sum_nonneg(s.drop_last());
    }
}

/// Replacing one entry shifts the sum by the difference.
pub proof fn lemma_seq_sum_update(s: Seq<usize>, i: int, v: usize)
    requires
        0 <= i < s.len(),
    ensures
        seq_sum(s.update(i, v)) == seq_sum(s) - s[i] + v,
    decreases s.len(),
{
    let s2 = s.update(i, v);
    if i == s.len() - 1 {
        assert(s2.drop_last() =~= s.drop_last());
    } else {
        assert(s2.drop_last() =~= s.drop_last().update(i, v));
        lemma_seq_sum_update(s.drop_last(), i, v);
    }
}

/// Appending an entry adds it to the sum.
pub proof fn lemma_seq_sum_push(s: Seq<usize>, v: usize)
    ensures
        seq_sum(s.push(v)) == seq_sum(s) + v,
{
    assert(s.push(v).drop_last() =~= s);
}

/// A sum of zeroes is zero.
pub proof fn lemma_seq_sum_zero(s: Seq<usize>)
    requires
        forall|i: int| 0 <= i < s.len() ==> #[trigger] s[i] == 0,
    ensures
        seq_sum(s) == 0,
    decreases s.len(),
{
    if s.len() > 0 {
        lemma_seq_sum_zero(s.drop_last());
    }
}

/// Every entry is below the sum.
pub proof fn lemma_seq_sum_entry(s: Seq<usize>, i: int)
    requires
        0 <= i < s.len(),
    ensures
        s[i] <= seq_sum(s),
    decreases s.len(),
{
    lemma_seq_sum_nonneg(s.drop_last());
    if i < s.len() - 1 {
        lemma_seq_sum_entry(s.drop_last(), i);
    }
}

/// Two distinct entries together stay below the sum.
pub proof fn lemma_seq_sum_two_entries(s: Seq<usize>, i: int, j: int)
    requires
        0 <= i < s.len(),
        0 <= j < s.len(),
        i != j,
    ensures
        s[i] + s[j] <= seq_sum(s),
    decreases s.len(),
{
    if i == s.len() - 1 {
        lemma_seq_sum_entry(s.drop_last(), j);
    } else if j == s.len() - 1 {
        lemma_seq_sum_entry(s.drop_last(), i);
    } else {
        lemma_seq_sum_two_entries(s.drop_last(), i, j);
    }
}

/// Prefix form of the bridge between matrix column sums and flat column
/// sums.
pub proof fn lemma_col_sum_prefix(m: Seq<Seq<usize>>, r: int, k: int)
    requires
        0 <= k,
    ensures
        col_sum_fin(m, Seq::new(k as nat, |t: int| true), r) == seq_sum(col_of(m, r, k)),
    decreases k,
{
    if k > 0 {
        lemma_col_sum_prefix(m, r, k - 1);
        assert(Seq::new(k as nat, |t: int| true).drop_last() =~= Seq::new(
            (k - 1) as nat,
            |t: int| true,
        ));
        assert(col_of(m, r, k).drop_last() =~= col_of(m, r, k - 1));
    }
}

/// A column total is the sum of the extracted column.
pub proof fn lemma_col_total_as_column(m: Seq<Seq<usize>>, r: int)
    ensures
        col_total(m, r) == seq_sum(col_of(m, r, m.len() as int)),
{
    lemma_col_sum_prefix(m, r, m.len() as int);
    assert(Seq::new(m.len(), |t: int| true) =~= Seq::new(
        (m.len() as int) as nat,
        |t: int| true,
    ));
}

/// Marking one more thread finished adds exactly its allocation row to each
/// column sum.
pub proof fn lemma_col_sum_fin_flip(alloc: Seq<Seq<usize>>, fin: Seq<bool>, t: int, r: int)
    requires
        0 <= t < fin.len(),
        !fin[t],
    ensures
        col_sum_fin(alloc, fin.update(t, true), r) == col_sum_fin(alloc, fin, r) + alloc[t][r],
    decreases fin.len(),
{
    let fin2 = fin.update(t, true);
    if t == fin.len() - 1 {
        assert(fin2.drop_last() =~= fin.drop_last());
    } else {
        assert(fin2.drop_last() =~= fin.drop_last().update(t, true));
        lemma_col_sum_fin_flip(alloc, fin.drop_last(), t, r);
    }
}

/// Column sums only grow when more threads are marked finished.
pub proof fn lemma_col_sum_fin_mono(alloc: Seq<Seq<usize>>, fin1: Seq<bool>, fin2: Seq<bool>, r: int)
    requires
        fin1.len() == fin2.len(),
        forall|t: int| 0 <= t < fin1.len() && fin1[t] ==> #[trigger] fin2[t],
    ensures
        col_sum_fin(alloc, fin1, r) <= col_sum_fin(alloc, fin2, r),
    decreases fin1.len(),
{
    if fin1.len() > 0 {
        lemma_col_sum_fin_mono(alloc, fin1.drop_last(), fin2.drop_last(), r);
    }
}







/// A column sum with nothing marked finished is zero.
pub proof fn lemma_col_sum_fin_zero(alloc: Seq<Seq<usize>>, fin: Seq<bool>, r: int)
    requires
        forall|t: int| 0 <= t < fin.len() ==> !#[trigger] fin[t],
    ensures
        col_sum_fin(alloc, fin, r) == 0,
    decreases fin.len(),
{
    if fin.len() > 0 {
        lemma_col_sum_fin_zero(alloc, fin.drop_last(), r);
    }
}

/// Membership in a sequence extended by one element.
pub proof fn lemma_contains_push(run: Seq<int>, t: int, x: int)
    ensures
        run.push(t).contains(x) <==> (run.contains(x) || x == t),
{
    if run.contains(x) {
        let i = choose|i: int| 0 <= i < run.len() && run[i] == x;
        assert(run.push(t)[i] == x);
    }
    assert(run.push(t)[run.len() as int] == t);
    if run.push(t).contains(x) {
        let i = choose|i: int| 0 <= i < run.push(t).len() && run.push(t)[i] == x;
        if i < run.len() {
            assert(run[i] == x);
        }
    }
}

/// A valid discovery order stays valid when extended by a fresh eligible
/// thread.
pub proof fn lemma_run_ok_push(
    avail: Seq<usize>,
    need: Seq<Seq<usize>>,
    alloc: Seq<Seq<usize>>,
    run: Seq<int>,
    t: int,
)
    requires
        run_ok(avail, need, alloc, run),
        0 <= t < need.len(),
        !run.contains(t),
        eligible(avail, need, alloc, fin_of(run, need.len() as int), t),
    ensures
        run_ok(avail, need, alloc, run.push(t)),
{
    let run2 = run.push(t);
    assert forall|k: int| 0 <= k < run2.len() implies {
        &&& 0 <= #[trigger] run2[k] < need.len()
        &&& !run2.take(k).contains(run2[k])
        &&& eligible(avail, need, alloc, fin_of(run2.take(k), need.len() as int), run2[k])
    } by {
        if k < run.len() {
            assert(run2.take(k) =~= run.take(k));
            assert(run2[k] == run[k]);
        } else {
            assert(run2.take(k) =~= run);
            assert(run2[k] == t);
        }
    }
}

/// The least index of `w` whose entry lies outside `run`, given one such
/// index.
proof fn min_index_outside(w: Seq<int>, run: Seq<int>, k: int) -> (m: int)
    requires
        0 <= k < w.len(),
        !run.contains(w[k]),
    ensures
        0 <= m <= k,
        !run.contains(w[m]),
        forall|k2: int| 0 <= k2 < m ==> run.contains(#[trigger] w[k2]),
    decreases k,
{
    if exists|k2: int| 0 <= k2 < k && !run.contains(#[trigger] w[k2]) {
        let k2 = choose|k2: int| 0 <= k2 < k && !run.contains(#[trigger] w[k2]);
        min_index_outside(w, run, k2)
    } else {
        k
    }
}

/// A maximal discovery order decides safety: it finishes every thread
/// exactly when the snapshot is safe.  Together with the fact that the
/// algorithm below always produces a maximal order, this is the
/// order-independence of the safety check.
pub proof fn lemma_maximal_run_decides(
    avail: Seq<usize>,
    need: Seq<Seq<usize>>,
    alloc: Seq<Seq<usize>>,
    run: Seq<int>,
)
    requires
        matrices_wf(avail, need, alloc),
        run_ok(avail, need, alloc, run),
        run_maximal(avail, need, alloc, run),
    ensures
        run_covers_all(need, run) <==> safe_state(avail, need, alloc),
{
    let n = need.len() as int;
    if run_covers_all(need, run) {
        assert(run_ok(avail, need, alloc, run) && run_covers_all(need, run));
    }
    if safe_state(avail, need, alloc) && !run_covers_all(need, run) {
        let w = choose|w: Seq<int>| #[trigger] run_ok(avail, need, alloc, w) && run_covers_all(
            need,
            w,
        );
        let t0 = choose|t0: int| 0 <= t0 < n && !run.contains(t0);
        assert(w.contains(t0));
        let k0 = choose|k0: int| 0 <= k0 < w.len() && w[k0] == t0;
        let m = min_index_outside(w, run, k0);
        let t = w[m];
        let finw = fin_of(w.take(m), n);
        let finr = fin_of(run, n);
        assert(eligible(avail, need, alloc, finw, t));
        assert forall|x: int| 0 <= x < n && finw[x] implies #[trigger] finr[x] by {
            let i = choose|i: int| 0 <= i < w.take(m).len() && w.take(m)[i] == x;
            assert(run.contains(w[i]));
        };
        assert forall|r: int| 0 <= r < avail.len() implies #[trigger] need[t][r] <= avail[r]
            + col_sum_fin(alloc, finr, r) by {
            lemma_col_sum_fin_mono(alloc, finw, finr, r);
        };
        assert(eligible(avail, need, alloc, finr, t));
        assert(!eligible(avail, need, alloc, finr, t));
    }
}

/// The order in which eligible threads are discovered does not matter:
/// any two fully driven discovery orders either both finish all threads
/// or both get stuck.
pub proof fn lemma_safety_order_independent(
    avail: Seq<usize>,
    need: Seq<Seq<usize>>,
    alloc: Seq<Seq<usize>>,
    run1: Seq<int>,
    run2: Seq<int>,
)
    requires
        matrices_wf(avail, need, alloc),
        run_ok(avail, need, alloc, run1),
        run_maximal(avail, need, alloc, run1),
        run_ok(avail, need, alloc, run2),
        run_maximal(avail, need, alloc, run2),
    ensures
        run_covers_all(need, run1) <==> run_covers_all(need, run2),
{
    lemma_maximal_run_decides(avail, need, alloc, run1);
    lemma_maximal_run_decides(avail, need, alloc, run2);
}

/// Whether every entry of `row` fits under the matching entry of `work`.
fn row_fits(row: &Vec<usize>, work: &Vec<usize>) -> (r: bool)
    requires
        row@.len() == work@.len(),
    ensures
        r == row_le(row@, work@),
{
    let mut j: usize = 0;
    while j < row.len()
        invariant
            0 <= j <= row@.len(),
            row@.len() == work@.len(),
            forall|r2: int| 0 <= r2 < j ==> #[trigger] row@[r2] <= work@[r2],
        decreases row@.len() - j,
    {
        if row[j] > work[j] {
            return false;
        }
        j += 1;
    }
    true
}

/// Count of threads marked finished.
spec fn count_true(fin: Seq<bool>) -> int
    decreases fin.len(),
{
    if fin.len() <= 0 {
        0
    } else {
        count_true(fin.drop_last()) + if fin.last() {
            1int
        } else {
            0int
        }
    }
}

proof fn lemma_count_true_le(fin: Seq<bool>)
    ensures
        count_true(fin) <= fin.len(),
    decreases fin.len(),
{
    if fin.len() > 0 {
        lemma_count_true_le(fin.drop_last());
    }
}

proof fn lemma_count_true_flip(fin: Seq<bool>, t: int)
    requires
        0 <= t < fin.len(),
        !fin[t],
    ensures
        count_true(fin.update(t, true)) == count_true(fin) + 1,
    decreases fin.len(),
{
    let fin2 = fin.update(t, true);
    if t == fin.len() - 1 {
        assert(fin2.drop_last() =~= fin.drop_last());
    } else {
        assert(fin2.drop_last() =~= fin.drop_last().update(t, true));
        lemma_count_true_flip(fin.drop_last(), t);
    }
}

/// The safety algorithm.  Starting from `work = available` and no thread
/// finished, repeatedly find an unfinished thread whose whole `need` row
/// fits into `work`, add its `allocation` row to `work` and mark it
/// finished; the snapshot is safe exactly when every thread ends up
/// finished.
///
/// The result equals `safe_state`, which quantifies over every discovery
/// order, so the scan order used here (and any other order) cannot change
/// the answer.
pub fn check_safety(
    available: &Vec<usize>,
    need: &Vec<Vec<usize>>,
    allocation: &Vec<Vec<usize>>,
) -> (safe: bool)
    requires
        matrices_wf(available@, need.deep_view(), allocation.deep_view()),
        totals_bounded(available@, allocation.deep_view()),
    ensures
        safe == safe_state(available@, need.deep_view(), allocation.deep_view()),
{
    let ghost av = available@;
    let ghost nd = need.deep_view();
    let ghost al = allocation.deep_view();
    let n = need.len();
    let m = available.len();
    proof {
        assert(forall|t: int| 0 <= t < n ==> nd[t] == #[trigger] need@[t]@);
        assert(forall|t: int| 0 <= t < n ==> al[t] == #[trigger] allocation@[t]@);
    }
    let mut finish: Vec<bool> = Vec::new();
    while finish.len() < n
        invariant
            finish@.len() <= n,
            forall|t: int| 0 <= t < finish@.len() ==> !#[trigger] finish@[t],
        decreases n - finish@.len(),
    {
        finish.push(false);
    }
    let mut work: Vec<usize> = Vec::new();
    let mut r0: usize = 0;
    while r0 < m
        invariant
            m == av.len(),
            available@ == av,
            0 <= r0 <= m,
            work@.len() == r0,
            forall|r: int| 0 <= r < r0 ==> #[trigger] work@[r] == av[r],
        decreases m - r0,
    {
        work.push(available[r0]);
        r0 += 1;
    }
    let ghost mut run: Seq<int> = Seq::empty();
    proof {
        lemma_col_sum_fin_zero(al, finish@, 0);
        assert(fin_of(run, n as int) =~= finish@);
        assert forall|r: int| 0 <= r < m implies #[trigger] work@[r] == av[r] + col_sum_fin(
            al,
            finish@,
            r,
        ) by {
            lemma_col_sum_fin_zero(al, finish@, r);
        };
    }
    loop
        invariant
            n == nd.len(),
            n == al.len(),
            m == av.len(),
            available@ == av,
            need.deep_view() == nd,
            allocation.deep_view() == al,
            need@.len() == n,
            allocation@.len() == n,
            forall|t: int| 0 <= t < n ==> nd[t] == #[trigger] need@[t]@,
            forall|t: int| 0 <= t < n ==> al[t] == #[trigger] allocation@[t]@,
            matrices_wf(av, nd, al),
            totals_bounded(av, al),
            finish@.len() == n,
            work@.len() == m,
            forall|r: int| 0 <= r < m ==> #[trigger] work@[r] == av[r] + col_sum_fin(
                al,
                finish@,
                r,
            ),
            run_ok(av, nd, al, run),
            fin_of(run, n as int) == finish@,
        ensures
            finish@.len() == n,
            run_ok(av, nd, al, run),
            run_maximal(av, nd, al, run),
            fin_of(run, n as int) == finish@,
        decreases n - count_true(finish@),
    {
        let mut candidate: usize = 0;
        let mut found: bool = false;
        while candidate < n && !found
            invariant
                n == need@.len(),
                n == nd.len(),
                m == av.len(),
                work@.len() == m,
                finish@.len() == n,
                forall|t: int| 0 <= t < n ==> nd[t] == #[trigger] need@[t]@,
                matrices_wf(av, nd, al),
                0 <= candidate <= n,
                !found ==> forall|t: int| 0 <= t < candidate ==> !(!#[trigger] finish@[t]
                    && row_le(nd[t], work@)),
                found ==> candidate < n && !finish@[candidate as int] && row_le(
                    nd[candidate as int],
                    work@,
                ),
            decreases n - candidate, (if found { 0int } else { 1int }),
        {
            if !finish[candidate] {
                if row_fits(&need[candidate], &work) {
                    found = true;
                } else {
                    candidate += 1;
                }
            } else {
                candidate += 1;
            }
        }
        if !found {
            proof {
                assert forall|t: int| 0 <= t < n && !run.contains(t) implies !#[trigger] eligible(
                    av,
                    nd,
                    al,
                    fin_of(run, n as int),
                    t,
                ) by {
                    assert(!finish@[t]);
                    assert(!row_le(nd[t], work@));
                    let r = choose|r: int| 0 <= r < nd[t].len() && !(nd[t][r] <= work@[r]);
                    assert(nd[t][r] > av[r] + col_sum_fin(al, fin_of(run, n as int), r));
                };
            }
            break;
        }
        let t = candidate;
        let mut r: usize = 0;
        while r < m
            invariant
                m == av.len(),
                t < n,
                n == al.len(),
                allocation@.len() == n,
                forall|tt: int| 0 <= tt < n ==> al[tt] == #[trigger] allocation@[tt]@,
                matrices_wf(av, nd, al),
                totals_bounded(av, al),
                finish@.len() == n,
                !finish@[t as int],
                work@.len() == m,
                0 <= r <= m,
                forall|r2: int| r <= r2 < m ==> #[trigger] work@[r2] == av[r2] + col_sum_fin(
                    al,
                    finish@,
                    r2,
                ),
                forall|r2: int| 0 <= r2 < r ==> #[trigger] work@[r2] == av[r2] + col_sum_fin(
                    al,
                    finish@.update(t as int, true),
                    r2,
                ),
            decreases m - r,
        {
            proof {
                lemma_col_sum_fin_flip(al, finish@, t as int, r as int);
                lemma_col_sum_fin_mono(
                    al,
                    finish@.update(t as int, true),
                    Seq::new(al.len(), |x: int| true),
                    r as int,
                );
                assert(col_total(al, r as int) == col_sum_fin(
                    al,
                    Seq::new(al.len(), |x: int| true),
                    r as int,
                ));
                assert(av[r as int] + col_total(al, r as int) <= usize::MAX);
            }
            let add_units = allocation[t][r];
            work[r] = work[r] + add_units;
            r += 1;
        }
        proof {
            lemma_count_true_flip(finish@, t as int);
            let finp = finish@.update(t as int, true);
            assert(eligible(av, nd, al, finish@, t as int)) by {
                assert forall|r2: int| 0 <= r2 < av.len() implies #[trigger] nd[t as int][r2]
                    <= av[r2] + col_sum_fin(al, finish@, r2) by {
                    assert(nd[t as int][r2] <= work@[r2] - al[t as int][r2] + col_sum_fin(
                        al,
                        finish@,
                        r2,
                    ) - col_sum_fin(al, finp, r2) + al[t as int][r2]) by {
                        lemma_col_sum_fin_flip(al, finish@, t as int, r2);
                    };
                };
            };
            assert(!run.contains(t as int));
            lemma_run_ok_push(av, nd, al, run, t as int);
            let run2 = run.push(t as int);
            assert(fin_of(run2, n as int) =~= finp) by {
                assert forall|x: int| 0 <= x < n implies fin_of(run2, n as int)[x] == finp[x] by {
                    lemma_contains_push(run, t as int, x);
                };
            };
            run = run2;
        }
        finish[t] = true;
        proof {
            lemma_count_true_le(finish@);
        }
    }
    let mut all: bool = true;
    let mut t2: usize = 0;
    while t2 < n
        invariant
            finish@.len() == n,
            0 <= t2 <= n,
            all == (forall|t: int| 0 <= t < t2 ==> #[trigger] finish@[t]),
        decreases n - t2,
    {
        if !finish[t2] {
            all = false;
        }
        t2 += 1;
    }
    proof {
        assert(run_maximal(av, nd, al, run));
        lemma_maximal_run_decides(av, nd, al, run);
        if all {
            assert forall|t: int| 0 <= t < n implies run.contains(t) by {
                assert(finish@[t]);
            };
        }
        if run_covers_all(nd, run) {
            assert forall|t: int| 0 <= t < n implies #[trigger] finish@[t] by {
                assert(run.contains(t));
            };
        }
    }
    all
}

} // verus!
