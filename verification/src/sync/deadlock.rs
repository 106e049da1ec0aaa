//! Deadlock detection with the banker's safety check.
//!
//! A detector tracks, for each task and resource, how many units the task
//! holds (`allocation`) and waits for (`need`), and how many units of each
//! resource are free (`available`). The system is free of deadlock when the
//! tasks can be finished one after another, each finding what it needs among
//! the free units plus those returned by the tasks finished before it.
use vstd::prelude::*;
use crate::sync::summation::{sum_over, id_range, lemma_sum_push, lemma_sum_subset,
    lemma_sum_abs_bound, lemma_distinct_ids_len, lemma_sum_range_extend, lemma_sum_range_point_change};

verus! {

pub open spec fn abs(x: int) -> int {
    if x < 0 { -x } else { x }
}

/// A row of `n` zeros.
pub open spec fn zeros(n: int) -> Seq<isize> {
    Seq::new(n as nat, |i: int| 0isize)
}

/// The contents of each row.
pub open spec fn row_views(rows: Seq<Vec<isize>>) -> Seq<Seq<isize>> {
    rows.map_values(|v: Vec<isize>| v@)
}

proof fn lemma_row_views(rows: Seq<Vec<isize>>)
    ensures
        row_views(rows).len() == rows.len(),
        forall|t: int| 0 <= t < rows.len() ==> #[trigger] row_views(rows)[t] == rows[t]@,
{
}

/// `rows` with zero rows appended until the row `tid` exists.
pub open spec fn grown(rows: Seq<Seq<isize>>, tid: int, res: int) -> Seq<Seq<isize>> {
    if tid < rows.len() {
        rows
    } else {
        rows + Seq::new((tid + 1 - rows.len()) as nat, |i: int| zeros(res))
    }
}

proof fn lemma_grown_len(rows: Seq<Seq<isize>>, tid: int, res: int)
    requires
        0 <= tid,
    ensures
        grown(rows, tid, res).len() > tid,
        grown(rows, tid, res).len() >= rows.len(),
{
}

/// `rows` with the entry at (`t`, `r`) replaced by `v`.
pub open spec fn set_entry(rows: Seq<Seq<isize>>, t: int, r: int, v: int) -> Seq<Seq<isize>> {
    rows.update(t, rows[t].update(r, v as isize))
}

/// The state of a deadlock detector: free units per resource, and the units
/// each task holds and waits for.
pub struct DeadlockDetectorInner {
    pub available: Vec<isize>,
    pub allocation: Vec<Vec<isize>>,
    pub need: Vec<Vec<isize>>,
}

impl DeadlockDetectorInner {
    pub open spec fn task_count(&self) -> int {
        self.allocation@.len() as int
    }

    pub open spec fn res_count(&self) -> int {
        self.available@.len() as int
    }

    pub open spec fn alloc_rows(&self) -> Seq<Seq<isize>> {
        row_views(self.allocation@)
    }

    pub open spec fn need_rows(&self) -> Seq<Seq<isize>> {
        row_views(self.need@)
    }

    pub open spec fn avail(&self, r: int) -> int {
        self.available@[r] as int
    }

    pub open spec fn held(&self, t: int, r: int) -> int {
        self.allocation@[t]@[r] as int
    }

    pub open spec fn needs(&self, t: int, r: int) -> int {
        self.need@[t]@[r] as int
    }

    /// Every task has one entry per resource in both tables.
    pub open spec fn wf(&self) -> bool {
        &&& self.need@.len() == self.allocation@.len()
        &&& forall|t: int|
            0 <= t < self.task_count() ==> (#[trigger] self.allocation@[t])@.len() == self.res_count()
        &&& forall|t: int| 0 <= t < self.task_count() ==> (#[trigger] self.need@[t])@.len() == self.res_count()
    }

    /// What task `t` holds of resource `r`, as a function of `t`.
    pub open spec fn alloc_column(&self, r: int) -> spec_fn(int) -> int {
        |t: int| self.held(t, r)
    }

    pub open spec fn abs_alloc_column(&self, r: int) -> spec_fn(int) -> int {
        |t: int| abs(self.held(t, r))
    }

    /// Free units of `r` once the tasks of `order` have finished and returned
    /// what they hold.
    pub open spec fn work_after(&self, order: Seq<int>, r: int) -> int {
        self.avail(r) + sum_over(order, self.alloc_column(r))
    }

    /// Task `t` finds all it needs once the tasks of `order` have finished.
    pub open spec fn can_finish(&self, t: int, order: Seq<int>) -> bool {
        forall|r: int| 0 <= r < self.res_count() ==> self.needs(t, r) <= #[trigger] self.work_after(order, r)
    }

    /// Distinct task ids.
    pub open spec fn is_task_order(&self, s: Seq<int>) -> bool {
        &&& s.no_duplicates()
        &&& forall|i: int| 0 <= i < s.len() ==> 0 <= #[trigger] s[i] < self.task_count()
    }

    /// Tasks that can be finished in this order, each after the ones before it.
    pub open spec fn is_safe_order(&self, s: Seq<int>) -> bool {
        &&& self.is_task_order(s)
        &&& forall|k: int| 0 <= k < s.len() ==> #[trigger] self.can_finish(s[k], s.take(k))
    }

    pub open spec fn covers_all(&self, s: Seq<int>) -> bool {
        forall|t: int| 0 <= t < self.task_count() ==> #[trigger] s.contains(t)
    }

    /// Some order finishes every task: the state is safe.
    pub open spec fn has_safe_sequence(&self) -> bool {
        exists|s: Seq<int>| self.is_safe_order(s) && self.covers_all(s)
    }

    /// The tasks of `s` can be finished in order, and after them every task
    /// left (there is at least one) waits for more than is free.
    pub open spec fn is_stuck_after(&self, s: Seq<int>) -> bool {
        &&& self.is_safe_order(s)
        &&& exists|t: int| 0 <= t < self.task_count() && !s.contains(t)
        &&& forall|t: int|
            0 <= t < self.task_count() && !s.contains(t) ==> !#[trigger] self.can_finish(t, s)
    }

    /// One pass of the safety check over the tasks `tid, tid + 1, ...`: each
    /// task not yet finished whose needs fit in what is free is finished,
    /// in table order, and returns what it holds before the next is tried.
    pub open spec fn safety_pass(&self, order: Seq<int>, tid: int) -> Seq<int>
        decreases self.task_count() - tid,
    {
        if tid >= self.task_count() {
            order
        } else if !order.contains(tid) && self.can_finish(tid, order) {
            self.safety_pass(order.push(tid), tid + 1)
        } else {
            self.safety_pass(order, tid + 1)
        }
    }

    /// The order in which the safety check finishes tasks after `order`:
    /// passes over the table until one finishes no task.
    pub open spec fn greedy_from(&self, order: Seq<int>) -> Seq<int>
        decreases self.task_count() - order.len(),
    {
        let next = self.safety_pass(order, 0);
        if order.len() < next.len() <= self.task_count() {
            self.greedy_from(next)
        } else {
            order
        }
    }

    /// The order in which the safety check finishes tasks.
    pub open spec fn greedy_order(&self) -> Seq<int> {
        self.greedy_from(Seq::empty())
    }

    /// No task holds a negative number of units.
    pub open spec fn allocations_nonnegative(&self) -> bool {
        forall|t: int, r: int|
            0 <= t < self.task_count() && 0 <= r < self.res_count() ==> #[trigger] self.held(t, r) >= 0
    }

    /// Sums of free and held units, of any sign, fit in an `isize` with
    /// `slack` to spare.
    pub open spec fn sums_fit_with_slack(&self, slack: int) -> bool {
        forall|r: int|
            0 <= r < self.res_count() ==> abs(self.avail(r)) + sum_over(
                id_range(self.task_count()),
                #[trigger] self.abs_alloc_column(r),
            ) + slack <= isize::MAX
    }

    /// Sums of free and held units, of any sign, fit in an `isize`.
    pub open spec fn sums_fit(&self) -> bool {
        self.sums_fit_with_slack(0)
    }

    /// Free units fit in an `isize` at every step of the safety check: at
    /// the start, and after each task it finishes, in the order it finishes
    /// them.
    pub open spec fn greedy_sums_fit(&self) -> bool {
        forall|k: int, r: int|
            0 <= k <= self.greedy_order().len() && 0 <= r < self.res_count() ==> isize::MIN
                <= #[trigger] self.work_after(self.greedy_order().take(k), r) <= isize::MAX
    }
}

/// An order that finishes the tasks of `order` and then `t`.
proof fn lemma_safe_push(d: &DeadlockDetectorInner, order: Seq<int>, t: int)
    requires
        d.is_safe_order(order),
        !order.contains(t),
        0 <= t < d.task_count(),
        d.can_finish(t, order),
    ensures
        d.is_safe_order(order.push(t)),
{
    let s = order.push(t);
    assert forall|a: int, b: int| 0 <= a < s.len() && 0 <= b < s.len() && a != b implies s[a] != s[b] by {
        if a < order.len() && b < order.len() {
            assert(order[a] != order[b]);
        } else if a < order.len() {
            assert(order.contains(s[a]));
        } else {
            assert(order.contains(s[b]));
        }
    }
    assert forall|k: int| 0 <= k < s.len() implies #[trigger] d.can_finish(s[k], s.take(k)) by {
        if k < order.len() {
            assert(s.take(k) =~= order.take(k));
            assert(d.can_finish(order[k], order.take(k)));
        } else {
            assert(s.take(k) =~= order);
        }
    }
}

/// Free units stay within `isize` after any distinct tasks have finished.
proof fn lemma_work_fits(d: &DeadlockDetectorInner, order: Seq<int>, r: int)
    requires
        d.wf(),
        d.sums_fit(),
        d.is_task_order(order),
        0 <= r < d.res_count(),
    ensures
        isize::MIN <= d.work_after(order, r) <= isize::MAX,
{
    let f = d.alloc_column(r);
    let g = d.abs_alloc_column(r);
    assert forall|x: int| order.contains(x) implies -g(x) <= f(x) <= g(x) by {
    }
    lemma_sum_abs_bound(order, f, g);
    let all = id_range(d.task_count());
    assert forall|x: int| order.contains(x) implies all.contains(x) by {
        let j = choose|j: int| 0 <= j < order.len() && order[j] == x;
        assert(all[x] == x);
    }
    assert forall|x: int| all.contains(x) implies g(x) >= 0 by {
    }
    lemma_sum_subset(order, all, g);
    assert(abs(d.avail(r)) + sum_over(all, d.abs_alloc_column(r)) + 0 <= isize::MAX);
}

/// `p` starts with `o`.
pub open spec fn extends(p: Seq<int>, o: Seq<int>) -> bool {
    &&& o.len() <= p.len()
    &&& forall|i: int| 0 <= i < o.len() ==> p[i] == o[i]
}

/// A pass of the safety check only appends distinct tasks to the order.
proof fn lemma_pass_extends(d: &DeadlockDetectorInner, o: Seq<int>, t: int)
    requires
        d.is_task_order(o),
        0 <= t,
    ensures
        extends(d.safety_pass(o, t), o),
        d.is_task_order(d.safety_pass(o, t)),
    decreases d.task_count() - t,
{
    if t < d.task_count() {
        if !o.contains(t) && d.can_finish(t, o) {
            let n = o.push(t);
            assert(d.is_task_order(n)) by {
                assert forall|a: int, b: int| 0 <= a < n.len() && 0 <= b < n.len() && a != b implies n[a] != n[b] by {
                    if a < o.len() && b < o.len() {
                        assert(o[a] != o[b]);
                    } else if a < o.len() {
                        assert(o.contains(n[a]));
                    } else {
                        assert(o.contains(n[b]));
                    }
                }
            }
            lemma_pass_extends(d, n, t + 1);
        } else {
            lemma_pass_extends(d, o, t + 1);
        }
    }
}

/// The safety check's order starts with the order it was given, and holds
/// distinct tasks.
proof fn lemma_greedy_extends(d: &DeadlockDetectorInner, o: Seq<int>)
    requires
        d.is_task_order(o),
    ensures
        extends(d.greedy_from(o), o),
        d.is_task_order(d.greedy_from(o)),
    decreases d.task_count() - o.len(),
{
    let next = d.safety_pass(o, 0);
    lemma_pass_extends(d, o, 0);
    if o.len() < next.len() <= d.task_count() {
        lemma_greedy_extends(d, next);
    }
}

/// The plain bound on the sums covers every step of the safety check.
proof fn lemma_sums_fit_covers_greedy(d: &DeadlockDetectorInner)
    requires
        d.wf(),
        d.sums_fit(),
    ensures
        d.greedy_sums_fit(),
{
    let g = d.greedy_order();
    assert(d.is_task_order(Seq::<int>::empty()));
    lemma_greedy_extends(d, Seq::<int>::empty());
    assert forall|k: int, r: int| 0 <= k <= g.len() && 0 <= r < d.res_count() implies isize::MIN
        <= #[trigger] d.work_after(g.take(k), r) <= isize::MAX by {
        let o = g.take(k);
        assert(d.is_task_order(o)) by {
            assert forall|a: int, b: int| 0 <= a < o.len() && 0 <= b < o.len() && a != b implies o[a] != o[b] by {
                assert(g[a] != g[b]);
            }
            assert forall|i: int| 0 <= i < o.len() implies 0 <= #[trigger] o[i] < d.task_count() by {
                assert(o[i] == g[i]);
            }
        }
        lemma_work_fits(d, o, r);
    }
}

/// With no negative allocation, a state that gets stuck after some safe
/// order has no safe sequence at all: finishing tasks only frees units, so
/// any safe sequence could only run tasks of the stuck order.
pub proof fn lemma_stuck_excludes_safe_sequence(d: &DeadlockDetectorInner, o: Seq<int>)
    requires
        d.wf(),
        d.allocations_nonnegative(),
        d.is_stuck_after(o),
    ensures
        !d.has_safe_sequence(),
{
    if d.has_safe_sequence() {
        let s = choose|s: Seq<int>| d.is_safe_order(s) && d.covers_all(s);
        lemma_safe_prefix_within(d, o, s, s.len() as int);
        let t = choose|t: int| 0 <= t < d.task_count() && !o.contains(t);
        assert(s.contains(t));
        let j = choose|j: int| 0 <= j < s.len() && s[j] == t;
        assert(o.contains(s[j]));
    }
}

/// Every task among the first `k` of a safe sequence belongs to the order
/// after which the state is stuck.
proof fn lemma_safe_prefix_within(d: &DeadlockDetectorInner, o: Seq<int>, s: Seq<int>, k: int)
    requires
        d.wf(),
        d.allocations_nonnegative(),
        d.is_stuck_after(o),
        d.is_safe_order(s),
        0 <= k <= s.len(),
    ensures
        forall|j: int| 0 <= j < k ==> o.contains(#[trigger] s[j]),
    decreases k,
{
    if k > 0 {
        lemma_safe_prefix_within(d, o, s, k - 1);
        let p = s.take(k - 1);
        let x = s[k - 1];
        assert(d.can_finish(x, p));
        if !o.contains(x) {
            assert(0 <= x < d.task_count());
            assert forall|r: int| 0 <= r < d.res_count() implies d.needs(x, r) <= #[trigger] d.work_after(o, r) by {
                assert(d.needs(x, r) <= d.work_after(p, r));
                assert(p.no_duplicates()) by {
                    assert forall|a: int, b: int| 0 <= a < p.len() && 0 <= b < p.len() && a != b implies p[a]
                        != p[b] by {
                        assert(p[a] == s[a]);
                        assert(p[b] == s[b]);
                    }
                }
                assert forall|y: int| p.contains(y) implies o.contains(y) by {
                    let j = choose|j: int| 0 <= j < p.len() && p[j] == y;
                    assert(s[j] == y);
                }
                let f = d.alloc_column(r);
                assert forall|y: int| o.contains(y) implies f(y) >= 0 by {
                    let j = choose|j: int| 0 <= j < o.len() && o[j] == y;
                    assert(0 <= o[j] < d.task_count());
                    assert(d.held(y, r) >= 0);
                }
                lemma_sum_subset(p, o, f);
            }
            assert(d.can_finish(x, o));
            assert(false);
        }
    }
}

impl DeadlockDetectorInner {
    /// The allocation table once the rows reach `tid`.
    pub open spec fn grown_alloc(&self, tid: int) -> Seq<Seq<isize>> {
        grown(self.alloc_rows(), tid, self.res_count())
    }

    /// The need table once the rows reach `tid`.
    pub open spec fn grown_need(&self, tid: int) -> Seq<Seq<isize>> {
        grown(self.need_rows(), tid, self.res_count())
    }

    /// Units of `rid` held by `tid`, zero for a task not yet in the table.
    pub open spec fn held_after_grow(&self, tid: int, rid: int) -> int {
        self.grown_alloc(tid)[tid][rid] as int
    }

    /// Units of `rid` wanted by `tid`, zero for a task not yet in the table.
    pub open spec fn need_after_grow(&self, tid: int, rid: int) -> int {
        self.grown_need(tid)[tid][rid] as int
    }
}

/// The need of `tid` for `rid` can change by `delta` without overflow.
pub open spec fn can_change_need(d: DeadlockDetectorInner, tid: int, rid: int, delta: int) -> bool {
    &&& d.wf()
    &&& 0 <= tid < usize::MAX
    &&& 0 <= rid < d.res_count()
    &&& isize::MIN <= d.need_after_grow(tid, rid) + delta <= isize::MAX
}

/// `e` is `d` with the rows grown to `tid` and the need of `tid` for `rid`
/// changed by `delta`.
pub open spec fn need_changed(d: DeadlockDetectorInner, e: DeadlockDetectorInner, tid: int, rid: int, delta: int) -> bool {
    &&& e.wf()
    &&& e.available@ == d.available@
    &&& e.alloc_rows() == d.grown_alloc(tid)
    &&& e.need_rows() == set_entry(d.grown_need(tid), tid, rid, d.need_after_grow(tid, rid) + delta)
}

/// `tid` can take one unit of `rid` without overflow.
pub open spec fn can_lock(d: DeadlockDetectorInner, tid: int, rid: int) -> bool {
    &&& d.wf()
    &&& 0 <= tid < usize::MAX
    &&& 0 <= rid < d.res_count()
    &&& d.held_after_grow(tid, rid) < isize::MAX
    &&& d.need_after_grow(tid, rid) > isize::MIN
    &&& d.avail(rid) > isize::MIN
}

/// `e` is `d` after `tid` took one unit of `rid`: it holds one more, needs
/// one less, and one unit less is free.
pub open spec fn locked(d: DeadlockDetectorInner, e: DeadlockDetectorInner, tid: int, rid: int) -> bool {
    &&& e.wf()
    &&& e.available@ == d.available@.update(rid, (d.avail(rid) - 1) as isize)
    &&& e.alloc_rows() == set_entry(d.grown_alloc(tid), tid, rid, d.held_after_grow(tid, rid) + 1)
    &&& e.need_rows() == set_entry(d.grown_need(tid), tid, rid, d.need_after_grow(tid, rid) - 1)
}

/// `tid` can give back one unit of `rid` without overflow.
pub open spec fn can_unlock(d: DeadlockDetectorInner, tid: int, rid: int) -> bool {
    &&& d.wf()
    &&& 0 <= tid < usize::MAX
    &&& 0 <= rid < d.res_count()
    &&& d.held_after_grow(tid, rid) > isize::MIN
    &&& d.avail(rid) < isize::MAX
}

/// `e` is `d` after `tid` gave back one unit of `rid`.
pub open spec fn unlocked(d: DeadlockDetectorInner, e: DeadlockDetectorInner, tid: int, rid: int) -> bool {
    &&& e.wf()
    &&& e.available@ == d.available@.update(rid, (d.avail(rid) + 1) as isize)
    &&& e.alloc_rows() == set_entry(d.grown_alloc(tid), tid, rid, d.held_after_grow(tid, rid) - 1)
    &&& e.need_rows() == d.grown_need(tid)
}

/// What a deadlock check answers of `d`: deadlock exactly when passes of
/// the safety check leave some task unfinished; then no deadlock only with a
/// safe sequence, deadlock only when stuck after some safe order, and with
/// no negative holding, deadlock exactly when no safe sequence exists.
pub open spec fn check_outcome(d: DeadlockDetectorInner, r: bool) -> bool {
    &&& r == !d.covers_all(d.greedy_order())
    &&& !r ==> d.has_safe_sequence()
    &&& r ==> exists|s: Seq<int>| d.is_stuck_after(s)
    &&& d.allocations_nonnegative() ==> (r <==> !d.has_safe_sequence())
}

/// The held-units column `r` of `e`, which agrees with `d` grown to `tid`
/// except at `tid`, where it differs by at most `delta`, sums in absolute
/// value to at most `delta` more than that of `d`.
proof fn lemma_column_sum_after(d: DeadlockDetectorInner, e: DeadlockDetectorInner, tid: int, r: int, delta: int)
    requires
        d.wf(),
        e.wf(),
        e.res_count() == d.res_count(),
        0 <= tid,
        0 <= r < d.res_count(),
        0 <= delta,
        e.alloc_rows().len() == d.grown_alloc(tid).len(),
        forall|t: int| 0 <= t < e.task_count() && t != tid ==> #[trigger] e.alloc_rows()[t][r] == d.grown_alloc(tid)[t][r],
        -delta <= e.alloc_rows()[tid][r] - d.held_after_grow(tid, r) <= delta,
    ensures
        sum_over(id_range(e.task_count()), e.abs_alloc_column(r)) <= sum_over(id_range(d.task_count()), d.abs_alloc_column(r)) + delta,
{
    lemma_row_views(d.allocation@);
    lemma_row_views(e.allocation@);
    lemma_grown_len(d.alloc_rows(), tid, d.res_count());
    let g = d.grown_alloc(tid);
    let h = |t: int| abs(g[t][r] as int);
    assert forall|t: int| 0 <= t < d.task_count() implies #[trigger] d.abs_alloc_column(r)(t) == h(t) by {
        assert(g[t] == d.alloc_rows()[t]);
    }
    assert forall|t: int| d.task_count() <= t < e.task_count() implies #[trigger] h(t) == 0 by {
        assert(g[t] == zeros(d.res_count()));
    }
    lemma_sum_range_extend(d.task_count(), e.task_count(), d.abs_alloc_column(r), h);
    assert forall|t: int| 0 <= t < e.task_count() && t != tid implies #[trigger] h(t) == e.abs_alloc_column(r)(t) by {
        assert(e.alloc_rows()[t][r] == g[t][r]);
    }
    lemma_sum_range_point_change(e.task_count(), tid, h, e.abs_alloc_column(r));
}

/// A change of the need table keeps the sums within bounds.
pub proof fn lemma_need_change_keeps_sums(d: DeadlockDetectorInner, e: DeadlockDetectorInner, tid: int, rid: int, delta: int, slack: int)
    requires
        need_changed(d, e, tid, rid, delta),
        can_change_need(d, tid, rid, delta),
        d.sums_fit_with_slack(slack),
    ensures
        e.sums_fit_with_slack(slack),
{
    lemma_row_views(e.allocation@);
    lemma_grown_len(d.alloc_rows(), tid, d.res_count());
    assert forall|r: int| 0 <= r < e.res_count() implies abs(e.avail(r)) + sum_over(
        id_range(e.task_count()), #[trigger] e.abs_alloc_column(r)) + slack <= isize::MAX by {
        lemma_column_sum_after(d, e, tid, r, 0);
        assert(abs(d.avail(r)) + sum_over(id_range(d.task_count()), d.abs_alloc_column(r)) + slack <= isize::MAX);
    }
}

/// Taking one unit uses up at most two units of the slack of the sums.
pub proof fn lemma_lock_keeps_sums(d: DeadlockDetectorInner, e: DeadlockDetectorInner, tid: int, rid: int, slack: int)
    requires
        locked(d, e, tid, rid),
        can_lock(d, tid, rid),
        d.sums_fit_with_slack(slack + 2),
    ensures
        e.sums_fit_with_slack(slack),
{
    lemma_row_views(e.allocation@);
    lemma_grown_len(d.alloc_rows(), tid, d.res_count());
    assert forall|r: int| 0 <= r < e.res_count() implies abs(e.avail(r)) + sum_over(
        id_range(e.task_count()), #[trigger] e.abs_alloc_column(r)) + slack <= isize::MAX by {
        if r == rid {
            lemma_column_sum_after(d, e, tid, r, 1);
        } else {
            lemma_column_sum_after(d, e, tid, r, 0);
        }
        assert(abs(d.avail(r)) + sum_over(id_range(d.task_count()), d.abs_alloc_column(r)) + slack + 2 <= isize::MAX);
    }
}

/// Taking back a wish (`noneed`) right after making it (`need`) leaves the
/// detector as it was, but for the rows added for the task.
pub proof fn lemma_noneed_undoes_need(d: DeadlockDetectorInner, e: DeadlockDetectorInner, f: DeadlockDetectorInner, tid: int, rid: int)
    requires
        can_change_need(d, tid, rid, 1),
        need_changed(d, e, tid, rid, 1),
        need_changed(e, f, tid, rid, -1),
    ensures
        f.available@ == d.available@,
        f.alloc_rows() == d.grown_alloc(tid),
        f.need_rows() == d.grown_need(tid),
{
    lemma_grown_len(d.alloc_rows(), tid, d.res_count());
    lemma_grown_len(d.need_rows(), tid, d.res_count());
    lemma_row_views(e.allocation@);
    lemma_row_views(e.need@);
    assert(e.grown_alloc(tid) == e.alloc_rows());
    assert(e.grown_need(tid) == e.need_rows());
    let g = d.grown_need(tid);
    assert(g[tid].len() == d.res_count()) by {
        if tid < d.need_rows().len() {
            lemma_row_views(d.need@);
        }
    }
    let v = g[tid][rid];
    assert(e.need_rows()[tid][rid] == v + 1);
    assert(e.need_after_grow(tid, rid) == v + 1);
    assert(f.need_rows()[tid] =~= g[tid]);
    assert(f.need_rows() =~= g);
}

/// Giving back a unit (`unlock`) right after taking it (`lock`) restores
/// the free units and what the task holds; the need it had is used up.
pub proof fn lemma_unlock_undoes_lock(d: DeadlockDetectorInner, e: DeadlockDetectorInner, f: DeadlockDetectorInner, tid: int, rid: int)
    requires
        can_lock(d, tid, rid),
        locked(d, e, tid, rid),
        unlocked(e, f, tid, rid),
    ensures
        f.available@ == d.available@,
        f.alloc_rows() == d.grown_alloc(tid),
        f.need_rows() == set_entry(d.grown_need(tid), tid, rid, d.need_after_grow(tid, rid) - 1),
{
    lemma_grown_len(d.alloc_rows(), tid, d.res_count());
    lemma_grown_len(d.need_rows(), tid, d.res_count());
    lemma_row_views(e.allocation@);
    lemma_row_views(e.need@);
    assert(e.grown_alloc(tid) == e.alloc_rows());
    assert(e.grown_need(tid) == e.need_rows());
    let g = d.grown_alloc(tid);
    assert(g[tid].len() == d.res_count()) by {
        if tid < d.alloc_rows().len() {
            lemma_row_views(d.allocation@);
        }
    }
    let v = g[tid][rid];
    assert(e.alloc_rows()[tid][rid] == v + 1);
    assert(e.held_after_grow(tid, rid) == v + 1);
    assert(f.alloc_rows()[tid] =~= g[tid]);
    assert(f.alloc_rows() =~= g);
    assert(f.available@ =~= d.available@);
}

/// For a task that already has rows, asking for a unit, taking it and
/// giving it back leaves the detector exactly as it was.
pub proof fn lemma_release_undoes_request(d0: DeadlockDetectorInner, d1: DeadlockDetectorInner, d2: DeadlockDetectorInner,
    d3: DeadlockDetectorInner, tid: int, rid: int)
    requires
        can_request(d0, tid, rid),
        tid < d0.task_count(),
        need_changed(d0, d1, tid, rid, 1),
        locked(d1, d2, tid, rid),
        unlocked(d2, d3, tid, rid),
    ensures
        d3.available@ == d0.available@,
        d3.alloc_rows() == d0.alloc_rows(),
        d3.need_rows() == d0.need_rows(),
{
    lemma_row_views(d0.allocation@);
    lemma_row_views(d0.need@);
    lemma_row_views(d1.allocation@);
    lemma_row_views(d1.need@);
    lemma_row_views(d2.allocation@);
    lemma_row_views(d2.need@);
    assert(d0.grown_alloc(tid) == d0.alloc_rows());
    assert(d0.grown_need(tid) == d0.need_rows());
    assert(d1.grown_alloc(tid) == d1.alloc_rows());
    assert(d1.grown_need(tid) == d1.need_rows());
    assert(d2.grown_alloc(tid) == d2.alloc_rows());
    assert(d2.grown_need(tid) == d2.need_rows());
    let a = d0.alloc_rows()[tid][rid];
    let n = d0.need_rows()[tid][rid];
    assert(d0.alloc_rows()[tid].len() == d0.res_count());
    assert(d1.need_rows()[tid][rid] == n + 1);
    assert(d2.alloc_rows()[tid][rid] == a + 1);
    assert(d2.need_rows()[tid][rid] == n);
    assert(d3.alloc_rows()[tid] =~= d0.alloc_rows()[tid]);
    assert(d3.alloc_rows() =~= d0.alloc_rows());
    assert(d2.need_rows()[tid] =~= d0.need_rows()[tid]);
    assert(d3.need_rows() =~= d0.need_rows());
    assert(d3.available@ =~= d0.available@);
}

/// A deadlock check has one answer for a given state, so two checks with
/// nothing between them agree.
pub proof fn lemma_check_outcome_determined(d: DeadlockDetectorInner, r1: bool, r2: bool)
    requires
        check_outcome(d, r1),
        check_outcome(d, r2),
    ensures
        r1 == r2,
{
}

/// A detector of deadlock among tasks that share resources.
pub struct DeadlockDetector {
    pub inner: DeadlockDetectorInner,
}

/// A row of `n` zeros.
fn zero_row(n: usize) -> (v: Vec<isize>)
    ensures
        v@ == zeros(n as int),
{
    let mut v: Vec<isize> = Vec::new();
    let mut i: usize = 0;
    while i < n
        invariant
            i <= n,
            v@ == zeros(i as int),
        decreases n - i,
    {
        v.push(0);
        i = i + 1;
        assert(v@ =~= zeros(i as int));
    }
    v
}

/// Every entry of `need_row` is at most the matching entry of `work`.
fn fits_within(need_row: &Vec<isize>, work: &Vec<isize>) -> (r: bool)
    requires
        need_row@.len() == work@.len(),
    ensures
        r == forall|i: int| 0 <= i < work@.len() ==> need_row@[i] <= work@[i],
{
    let mut i: usize = 0;
    while i < work.len()
        invariant
            i <= work@.len(),
            need_row@.len() == work@.len(),
            forall|j: int| 0 <= j < i ==> need_row@[j] <= work@[j],
        decreases work@.len() - i,
    {
        if need_row[i] > work[i] {
            return false;
        }
        i = i + 1;
    }
    true
}

impl DeadlockDetector {
    /// create a new DeadlockDetector
    pub fn new() -> (r: Self)
        ensures
            r.inner.wf(),
            r.inner.available@.len() == 0,
            r.inner.allocation@.len() == 0,
            r.inner.need@.len() == 0,
    {
        DeadlockDetector {
            inner: DeadlockDetectorInner { available: Vec::new(), allocation: Vec::new(), need: Vec::new() },
        }
    }

    /// add task, lazy add: tasks up to `tid` get rows of zeros.
    pub fn add_task(&mut self, tid: usize)
        requires
            old(self).inner.wf(),
            tid < usize::MAX,
        ensures
            final(self).inner.wf(),
            final(self).inner.available@ == old(self).inner.available@,
            final(self).inner.alloc_rows() == grown(old(self).inner.alloc_rows(), tid as int, old(self).inner.res_count()),
            final(self).inner.need_rows() == grown(old(self).inner.need_rows(), tid as int, old(self).inner.res_count()),
    {
        let res_num = self.inner.available.len();
        let ghost old_alloc = self.inner.alloc_rows();
        let ghost old_need = self.inner.need_rows();
        while tid >= self.inner.allocation.len()
            invariant
                old_alloc == old(self).inner.alloc_rows(),
                old_need == old(self).inner.need_rows(),
                res_num == self.inner.available@.len(),
                self.inner.wf(),
                self.inner.available@ == old(self).inner.available@,
                tid < usize::MAX,
                old_alloc.len() <= self.inner.allocation@.len(),
                self.inner.allocation@.len() <= if tid < old_alloc.len() { old_alloc.len() as int } else { tid + 1 },
                self.inner.alloc_rows() == old_alloc + Seq::new((self.inner.allocation@.len() - old_alloc.len()) as nat, |i: int| zeros(res_num as int)),
                self.inner.need_rows() == old_need + Seq::new((self.inner.allocation@.len() - old_alloc.len()) as nat, |i: int| zeros(res_num as int)),
            decreases tid + 1 - self.inner.allocation@.len(),
        {
            let ghost a0 = self.inner.alloc_rows();
            let ghost n0 = self.inner.need_rows();
            self.inner.allocation.push(zero_row(res_num));
            self.inner.need.push(zero_row(res_num));
            proof {
                let k = (self.inner.allocation@.len() - old_alloc.len()) as nat;
                assert(self.inner.alloc_rows() =~= a0.push(zeros(res_num as int)));
                assert(self.inner.need_rows() =~= n0.push(zeros(res_num as int)));
                assert(self.inner.alloc_rows() =~= old_alloc + Seq::new(k, |i: int| zeros(res_num as int)));
                assert(self.inner.need_rows() =~= old_need + Seq::new(k, |i: int| zeros(res_num as int)));
            }
        }
        proof {
            if tid < old_alloc.len() {
                assert(self.inner.alloc_rows() =~= old_alloc);
                assert(self.inner.need_rows() =~= old_need);
            }
        }
    }
}


impl DeadlockDetector {
    /// check if the system is in deadlock: repeatedly finish every task
    /// whose needs fit in the free units, returning what it holds, until no
    /// task can go on; deadlock when some task is left. The free units it
    /// adds up must fit in an `isize` at each of these steps.
    pub fn check_deadlock(&self) -> (r: bool)
        requires
            self.inner.wf(),
            self.inner.greedy_sums_fit(),
        ensures
            check_outcome(self.inner, r),
    {
        let inner = &self.inner;
        let task_num = inner.allocation.len();
        let res_num = inner.available.len();
        let mut work: Vec<isize> = Vec::new();
        let mut i: usize = 0;
        while i < res_num
            invariant
                i <= res_num,
                res_num == inner.available@.len(),
                work@ == inner.available@.take(i as int),
            decreases res_num - i,
        {
            work.push(inner.available[i]);
            i = i + 1;
            assert(work@ =~= inner.available@.take(i as int));
        }
        assert(work@ =~= inner.available@);
        let mut finish: Vec<bool> = Vec::new();
        let mut i: usize = 0;
        while i < task_num
            invariant
                i <= task_num,
                finish@ == Seq::new(i as nat, |j: int| false),
            decreases task_num - i,
        {
            finish.push(false);
            i = i + 1;
            assert(finish@ =~= Seq::new(i as nat, |j: int| false));
        }
        let ghost mut order: Seq<int> = Seq::empty();
        proof {
            assert(inner.greedy_from(order) == inner.greedy_order());
            assert forall|r: int| 0 <= r < res_num implies work@[r] == #[trigger] inner.work_after(order, r) by {
            }
            assert(inner.is_safe_order(order)) by {
                assert(order.no_duplicates());
            }
        }
        loop
            invariant
                inner.wf(),
                inner.greedy_sums_fit(),
                task_num == inner.task_count(),
                res_num == inner.res_count(),
                work@.len() == res_num,
                forall|r: int| 0 <= r < res_num ==> work@[r] == #[trigger] inner.work_after(order, r),
                finish@.len() == task_num,
                forall|t: int| 0 <= t < task_num ==> finish@[t] == #[trigger] order.contains(t),
                inner.is_safe_order(order),
                inner.greedy_from(order) == inner.greedy_order(),
            ensures
                inner.greedy_order() == order,
                work@.len() == res_num,
                forall|r: int| 0 <= r < res_num ==> work@[r] == #[trigger] inner.work_after(order, r),
                finish@.len() == task_num,
                forall|t: int| 0 <= t < task_num ==> finish@[t] == #[trigger] order.contains(t),
                inner.is_safe_order(order),
                forall|t: int| 0 <= t < task_num && !order.contains(t) ==> !#[trigger] inner.can_finish(t, order),
            decreases task_num - order.len(),
        {
            proof {
                lemma_distinct_ids_len(order, task_num as int);
            }
            let ghost order0 = order;
            let mut found = false;
            let mut tid: usize = 0;
            while tid < task_num
                invariant
                    inner.wf(),
                    inner.greedy_sums_fit(),
                    task_num == inner.task_count(),
                    res_num == inner.res_count(),
                    tid <= task_num,
                    work@.len() == res_num,
                    forall|r: int| 0 <= r < res_num ==> work@[r] == #[trigger] inner.work_after(order, r),
                    finish@.len() == task_num,
                    forall|t: int| 0 <= t < task_num ==> finish@[t] == #[trigger] order.contains(t),
                    inner.is_safe_order(order),
                    found ==> order.len() > order0.len(),
                    !found ==> order == order0,
                    !found ==> forall|t: int| 0 <= t < tid && !order.contains(t) ==> !#[trigger] inner.can_finish(t, order),
                    inner.safety_pass(order, tid as int) == inner.safety_pass(order0, 0),
                    inner.greedy_from(order0) == inner.greedy_order(),
                decreases task_num - tid,
            {
                let can = !finish[tid] && fits_within(&inner.need[tid], &work);
                proof {
                    if !finish[tid as int] {
                        assert(inner.need@[tid as int]@.len() == res_num);
                        if can {
                            assert forall|r: int| 0 <= r < inner.res_count() implies inner.needs(tid as int, r) <= #[trigger] inner.work_after(order, r) by {
                                assert(inner.need@[tid as int]@[r] <= work@[r]);
                            }
                        } else {
                            assert(!inner.can_finish(tid as int, order)) by {
                                let r = choose|r: int| 0 <= r < work@.len() && !(inner.need@[tid as int]@[r] <= work@[r]);
                                assert(work@[r] == inner.work_after(order, r));
                            }
                        }
                    }
                }
                if can {
                    let ghost next = order.push(tid as int);
                    proof {
                        assert(!order.contains(tid as int));
                        lemma_safe_push(inner, order, tid as int);
                        let pass = inner.safety_pass(order0, 0);
                        let g = inner.greedy_order();
                        assert(inner.safety_pass(next, tid + 1) == pass);
                        lemma_pass_extends(inner, next, tid + 1);
                        lemma_distinct_ids_len(pass, task_num as int);
                        assert(g == inner.greedy_from(pass));
                        lemma_greedy_extends(inner, pass);
                        assert(next =~= g.take(next.len() as int));
                        assert forall|r: int| 0 <= r < res_num implies isize::MIN <= #[trigger] inner.work_after(next, r) <= isize::MAX
                            && inner.work_after(next, r) == inner.work_after(order, r) + inner.held(tid as int, r) by {
                            assert(inner.work_after(g.take(next.len() as int), r) == inner.work_after(next, r));
                            lemma_sum_push(order, tid as int, inner.alloc_column(r));
                        }
                        assert(inner.allocation@[tid as int]@.len() == res_num);
                    }
                    let mut rid: usize = 0;
                    while rid < res_num
                        invariant
                            inner.wf(),
                            res_num == inner.res_count(),
                            tid < task_num,
                            task_num == inner.task_count(),
                            rid <= res_num,
                            work@.len() == res_num,
                            forall|r: int| 0 <= r < rid ==> work@[r] == #[trigger] inner.work_after(next, r),
                            forall|r: int| rid <= r < res_num ==> work@[r] == #[trigger] inner.work_after(order, r),
                            forall|r: int| 0 <= r < res_num ==> isize::MIN <= #[trigger] inner.work_after(next, r) <= isize::MAX
                                && inner.work_after(next, r) == inner.work_after(order, r) + inner.held(tid as int, r),
                        decreases res_num - rid,
                    {
                        assert(work@[rid as int] == inner.work_after(order, rid as int));
                        assert(isize::MIN <= inner.work_after(next, rid as int) <= isize::MAX);
                        let v = work[rid] + inner.allocation[tid][rid];
                        work.set(rid, v);
                        rid = rid + 1;
                    }
                    finish.set(tid, true);
                    found = true;
                    proof {
                        assert forall|t: int| 0 <= t < task_num implies finish@[t] == #[trigger] next.contains(t) by {
                            if t == tid {
                                assert(next[next.len() - 1] == t);
                            } else {
                                if order.contains(t) {
                                    let j = choose|j: int| 0 <= j < order.len() && order[j] == t;
                                    assert(next[j] == t);
                                }
                                if next.contains(t) {
                                    let j = choose|j: int| 0 <= j < next.len() && next[j] == t;
                                    assert(j < order.len());
                                    assert(order[j] == t);
                                }
                            }
                        }
                        order = next;
                    }
                }
                tid = tid + 1;
            }
            if !found {
                proof {
                    assert(inner.safety_pass(order0, 0) == order0);
                    assert(inner.greedy_from(order0) == order0);
                }
                break;
            }
            proof {
                lemma_distinct_ids_len(order, task_num as int);
                assert(inner.safety_pass(order0, 0) == order);
                assert(inner.greedy_from(order0) == inner.greedy_from(order));
            }
        }
        let mut all_finished = true;
        let mut i: usize = 0;
        while i < task_num
            invariant
                i <= task_num,
                finish@.len() == task_num,
                all_finished == forall|t: int| 0 <= t < i ==> finish@[t],
            decreases task_num - i,
        {
            if !finish[i] {
                all_finished = false;
            }
            i = i + 1;
        }
        proof {
            assert(all_finished == inner.covers_all(order)) by {
                if inner.covers_all(order) {
                    assert forall|t: int| 0 <= t < task_num implies finish@[t] by {
                        assert(order.contains(t));
                    }
                }
            }
            if all_finished {
                assert(inner.covers_all(order)) by {
                    assert forall|t: int| 0 <= t < task_num implies #[trigger] order.contains(t) by {
                        assert(finish@[t]);
                    }
                }
            } else {
                let t = choose|t: int| 0 <= t < task_num && !finish@[t];
                assert(!order.contains(t));
                assert(inner.is_stuck_after(order));
                if inner.allocations_nonnegative() {
                    lemma_stuck_excludes_safe_sequence(inner, order);
                }
            }
        }
        !all_finished
    }
}


/// `rows` with `x` appended to every row.
pub open spec fn push_each(rows: Seq<Seq<isize>>, x: isize) -> Seq<Seq<isize>> {
    rows.map_values(|row: Seq<isize>| row.push(x))
}

/// `rows` with the entry `r` of every row set to `x`.
pub open spec fn set_each(rows: Seq<Seq<isize>>, r: int, x: isize) -> Seq<Seq<isize>> {
    rows.map_values(|row: Seq<isize>| row.update(r, x))
}

/// Appends `x` to every row of `rows`.
fn push_to_rows(rows: &mut Vec<Vec<isize>>, x: isize)
    ensures
        row_views(final(rows)@) == push_each(row_views(old(rows)@), x),
{
    let ghost start = row_views(rows@);
    let mut i: usize = 0;
    while i < rows.len()
        invariant
            i <= rows@.len(),
            rows@.len() == start.len(),
            forall|j: int| 0 <= j < i ==> (#[trigger] rows@[j])@ == start[j].push(x),
            forall|j: int| i <= j < rows@.len() ==> (#[trigger] rows@[j])@ == start[j],
        decreases rows@.len() - i,
    {
        rows[i].push(x);
        i = i + 1;
    }
    assert(row_views(rows@) =~= push_each(start, x));
}

/// Sets entry `r` of every row of `rows` to `x`.
fn set_in_rows(rows: &mut Vec<Vec<isize>>, r: usize, x: isize)
    requires
        forall|j: int| 0 <= j < old(rows)@.len() ==> r < (#[trigger] old(rows)@[j])@.len(),
    ensures
        row_views(final(rows)@) == set_each(row_views(old(rows)@), r as int, x),
{
    let ghost start = row_views(rows@);
    let mut i: usize = 0;
    while i < rows.len()
        invariant
            i <= rows@.len(),
            rows@.len() == start.len(),
            forall|j: int| 0 <= j < start.len() ==> r < (#[trigger] start[j]).len(),
            forall|j: int| 0 <= j < i ==> (#[trigger] rows@[j])@ == start[j].update(r as int, x),
            forall|j: int| i <= j < rows@.len() ==> (#[trigger] rows@[j])@ == start[j],
        decreases rows@.len() - i,
    {
        assert(r < start[i as int].len());
        rows[i][r] = x;
        i = i + 1;
    }
    assert(row_views(rows@) =~= set_each(start, r as int, x));
}

impl DeadlockDetector {
    /// add resource `rid` with `res_count` free units. An id at or past the
    /// current count adds one resource at the end; an existing id is reset,
    /// with nothing held or needed of it.
    pub fn add_res(&mut self, rid: usize, res_count: usize)
        requires
            old(self).inner.wf(),
        ensures
            final(self).inner.wf(),
            rid >= old(self).inner.res_count() ==> {
                &&& final(self).inner.available@ == old(self).inner.available@.push(res_count as isize)
                &&& final(self).inner.alloc_rows() == push_each(old(self).inner.alloc_rows(), 0)
                &&& final(self).inner.need_rows() == push_each(old(self).inner.need_rows(), 0)
            },
            rid < old(self).inner.res_count() ==> {
                &&& final(self).inner.available@ == old(self).inner.available@.update(rid as int, res_count as isize)
                &&& final(self).inner.alloc_rows() == set_each(old(self).inner.alloc_rows(), rid as int, 0)
                &&& final(self).inner.need_rows() == set_each(old(self).inner.need_rows(), rid as int, 0)
            },
    {
        let res_num = self.inner.available.len();
        let count: isize = #[verifier::truncate] (res_count as isize);
        if rid >= res_num {
            self.inner.available.push(count);
            push_to_rows(&mut self.inner.allocation, 0);
            push_to_rows(&mut self.inner.need, 0);
            proof {
                lemma_row_views(self.inner.allocation@);
                lemma_row_views(old(self).inner.allocation@);
                lemma_row_views(self.inner.need@);
                lemma_row_views(old(self).inner.need@);
                assert forall|t: int| 0 <= t < self.inner.task_count() implies (#[trigger] self.inner.allocation@[t])@.len() == self.inner.res_count() by {
                    assert(self.inner.alloc_rows()[t] == old(self).inner.alloc_rows()[t].push(0));
                }
                assert forall|t: int| 0 <= t < self.inner.task_count() implies (#[trigger] self.inner.need@[t])@.len() == self.inner.res_count() by {
                    assert(self.inner.need_rows()[t] == old(self).inner.need_rows()[t].push(0));
                }
            }
        } else {
            self.inner.available.set(rid, count);
            set_in_rows(&mut self.inner.allocation, rid, 0);
            set_in_rows(&mut self.inner.need, rid, 0);
            proof {
                lemma_row_views(self.inner.allocation@);
                lemma_row_views(old(self).inner.allocation@);
                lemma_row_views(self.inner.need@);
                lemma_row_views(old(self).inner.need@);
                assert forall|t: int| 0 <= t < self.inner.task_count() implies (#[trigger] self.inner.allocation@[t])@.len() == self.inner.res_count() by {
                    assert(self.inner.alloc_rows()[t] == old(self).inner.alloc_rows()[t].update(rid as int, 0));
                }
                assert forall|t: int| 0 <= t < self.inner.task_count() implies (#[trigger] self.inner.need@[t])@.len() == self.inner.res_count() by {
                    assert(self.inner.need_rows()[t] == old(self).inner.need_rows()[t].update(rid as int, 0));
                }
            }
        }
    }


    /// need resource for a task: one more unit of `rid` wanted by `tid`.
    pub fn need(&mut self, tid: usize, rid: usize)
        requires
            can_change_need(old(self).inner, tid as int, rid as int, 1),
        ensures
            need_changed(old(self).inner, final(self).inner, tid as int, rid as int, 1),
    {
        self.add_task(tid);
        proof { lemma_grown_len(old(self).inner.alloc_rows(), tid as int, old(self).inner.res_count()); self.lemma_row_lens(tid as int); }
        let ghost g = self.inner.need_rows();
        let v = self.inner.need[tid][rid] + 1;
        self.inner.need[tid][rid] = v;
        proof { assert(self.inner.need_rows() =~= set_entry(g, tid as int, rid as int, v as int)); }
    }

    /// noneed resource for a task: one unit of `rid` less wanted by `tid`.
    pub fn noneed(&mut self, tid: usize, rid: usize)
        requires
            can_change_need(old(self).inner, tid as int, rid as int, -1),
        ensures
            need_changed(old(self).inner, final(self).inner, tid as int, rid as int, -1),
    {
        self.add_task(tid);
        proof { lemma_grown_len(old(self).inner.alloc_rows(), tid as int, old(self).inner.res_count()); self.lemma_row_lens(tid as int); }
        let ghost g = self.inner.need_rows();
        let v = self.inner.need[tid][rid] - 1;
        self.inner.need[tid][rid] = v;
        proof { assert(self.inner.need_rows() =~= set_entry(g, tid as int, rid as int, v as int)); }
    }

    /// lock resource for a task: `tid` gets one unit of `rid`, which it
    /// needed, out of the free units.
    pub fn lock(&mut self, tid: usize, rid: usize)
        requires
            can_lock(old(self).inner, tid as int, rid as int),
        ensures
            locked(old(self).inner, final(self).inner, tid as int, rid as int),
    {
        self.add_task(tid);
        proof { lemma_grown_len(old(self).inner.alloc_rows(), tid as int, old(self).inner.res_count()); self.lemma_row_lens(tid as int); }
        let ghost g = self.inner.alloc_rows();
        let a = self.inner.allocation[tid][rid] + 1;
        self.inner.allocation[tid][rid] = a;
        proof { assert(self.inner.alloc_rows() =~= set_entry(g, tid as int, rid as int, a as int)); }
        let ghost mid = self.inner.alloc_rows();
        let ghost g2 = self.inner.need_rows();
        let n = self.inner.need[tid][rid] - 1;
        self.inner.need[tid][rid] = n;
        proof {
            assert(self.inner.need_rows() =~= set_entry(g2, tid as int, rid as int, n as int));
            assert(self.inner.alloc_rows() =~= mid);
        }
        let f = self.inner.available[rid] - 1;
        self.inner.available.set(rid, f);
    }

    /// unlock resource for a task: `tid` returns one unit of `rid`.
    pub fn unlock(&mut self, tid: usize, rid: usize)
        requires
            can_unlock(old(self).inner, tid as int, rid as int),
        ensures
            unlocked(old(self).inner, final(self).inner, tid as int, rid as int),
    {
        self.add_task(tid);
        proof { lemma_grown_len(old(self).inner.alloc_rows(), tid as int, old(self).inner.res_count()); self.lemma_row_lens(tid as int); }
        let ghost g = self.inner.alloc_rows();
        let a = self.inner.allocation[tid][rid] - 1;
        self.inner.allocation[tid][rid] = a;
        proof { assert(self.inner.alloc_rows() =~= set_entry(g, tid as int, rid as int, a as int)); }
        let f = self.inner.available[rid] + 1;
        self.inner.available.set(rid, f);
    }

    proof fn lemma_row_lens(&self, tid: int)
        requires
            self.inner.wf(),
            self.inner.alloc_rows().len() > tid >= 0,
        ensures
            0 <= tid < self.inner.task_count(),
            self.inner.allocation@[tid]@.len() == self.inner.res_count(),
            self.inner.need@[tid]@.len() == self.inner.res_count(),
            self.inner.alloc_rows()[tid] == self.inner.allocation@[tid]@,
            self.inner.need_rows()[tid] == self.inner.need@[tid]@,
    {
    }

}


/// Resource type enum
#[derive(PartialEq, Eq, Structural, Clone, Copy, Debug)]
pub enum ResourceType {
    /// Mutex resource type
    Mutex,
    /// Semaphore resource type
    Semaphore,
}

/// The deadlock-detection state of a process: whether detection is on, and
/// one detector for its mutexes and one for its semaphores.
pub struct ProcessDeadlockState {
    pub enable_deadlock_detect: bool,
    pub mutex_deadlock_detector: DeadlockDetector,
    pub semaphore_deadlock_detector: DeadlockDetector,
}

impl ProcessDeadlockState {
    /// A process state with detection off and empty detectors.
    pub fn new() -> (r: Self)
        ensures
            !r.enable_deadlock_detect,
            r.mutex_deadlock_detector.inner.wf(),
            r.mutex_deadlock_detector.inner.res_count() == 0,
            r.mutex_deadlock_detector.inner.task_count() == 0,
            r.semaphore_deadlock_detector.inner.wf(),
            r.semaphore_deadlock_detector.inner.res_count() == 0,
            r.semaphore_deadlock_detector.inner.task_count() == 0,
    {
        ProcessDeadlockState {
            enable_deadlock_detect: false,
            mutex_deadlock_detector: DeadlockDetector::new(),
            semaphore_deadlock_detector: DeadlockDetector::new(),
        }
    }

    /// The detector for resources of type `ty`.
    pub open spec fn detector(&self, ty: ResourceType) -> DeadlockDetectorInner {
        match ty {
            ResourceType::Mutex => self.mutex_deadlock_detector.inner,
            ResourceType::Semaphore => self.semaphore_deadlock_detector.inner,
        }
    }
}

/// The other resource type.
pub open spec fn other_type(ty: ResourceType) -> ResourceType {
    match ty {
        ResourceType::Mutex => ResourceType::Semaphore,
        ResourceType::Semaphore => ResourceType::Mutex,
    }
}

/// `e` differs from `d` at most in the detector for `ty`.
pub open spec fn only_detector_changed(d: ProcessDeadlockState, e: ProcessDeadlockState, ty: ResourceType) -> bool {
    &&& e.enable_deadlock_detect == d.enable_deadlock_detect
    &&& e.detector(other_type(ty)) == d.detector(other_type(ty))
}

/// Routes the resource operations of the running task to the detector of
/// the resource type last chosen.
pub struct DeadlockDetectorManager {
    pub res_type: ResourceType,
}

impl DeadlockDetectorManager {
    /// create a new DeadlockDetectorManager
    pub fn new() -> (r: Self)
        ensures
            r.res_type == ResourceType::Mutex,
    {
        DeadlockDetectorManager { res_type: ResourceType::Mutex }
    }

    /// set resource type for deadlock detector manager
    pub fn set_res_type(&mut self, res_type: ResourceType)
        ensures
            final(self).res_type == res_type,
    {
        self.res_type = res_type;
    }

    /// need resource for a task
    pub fn need(&self, st: &mut ProcessDeadlockState, tid: usize, rid: usize)
        requires
            can_change_need(old(st).detector(self.res_type), tid as int, rid as int, 1),
        ensures
            only_detector_changed(*old(st), *final(st), self.res_type),
            need_changed(old(st).detector(self.res_type), final(st).detector(self.res_type), tid as int, rid as int, 1),
    {
        match self.res_type {
            ResourceType::Mutex => st.mutex_deadlock_detector.need(tid, rid),
            ResourceType::Semaphore => st.semaphore_deadlock_detector.need(tid, rid),
        }
    }

    /// noneed resource for a task
    pub fn noneed(&self, st: &mut ProcessDeadlockState, tid: usize, rid: usize)
        requires
            can_change_need(old(st).detector(self.res_type), tid as int, rid as int, -1),
        ensures
            only_detector_changed(*old(st), *final(st), self.res_type),
            need_changed(old(st).detector(self.res_type), final(st).detector(self.res_type), tid as int, rid as int, -1),
    {
        match self.res_type {
            ResourceType::Mutex => st.mutex_deadlock_detector.noneed(tid, rid),
            ResourceType::Semaphore => st.semaphore_deadlock_detector.noneed(tid, rid),
        }
    }

    /// lock resource for a task
    pub fn lock(&self, st: &mut ProcessDeadlockState, tid: usize, rid: usize)
        requires
            can_lock(old(st).detector(self.res_type), tid as int, rid as int),
        ensures
            only_detector_changed(*old(st), *final(st), self.res_type),
            locked(old(st).detector(self.res_type), final(st).detector(self.res_type), tid as int, rid as int),
    {
        match self.res_type {
            ResourceType::Mutex => st.mutex_deadlock_detector.lock(tid, rid),
            ResourceType::Semaphore => st.semaphore_deadlock_detector.lock(tid, rid),
        }
    }

    /// unlock resource for a task
    pub fn unlock(&self, st: &mut ProcessDeadlockState, tid: usize, rid: usize)
        requires
            can_unlock(old(st).detector(self.res_type), tid as int, rid as int),
        ensures
            only_detector_changed(*old(st), *final(st), self.res_type),
            unlocked(old(st).detector(self.res_type), final(st).detector(self.res_type), tid as int, rid as int),
    {
        match self.res_type {
            ResourceType::Mutex => st.mutex_deadlock_detector.unlock(tid, rid),
            ResourceType::Semaphore => st.semaphore_deadlock_detector.unlock(tid, rid),
        }
    }

    /// check if the system is in deadlock; never while detection is off
    pub fn check_deadlock(&self, st: &ProcessDeadlockState) -> (r: bool)
        requires
            st.enable_deadlock_detect ==> st.detector(self.res_type).wf(),
            st.enable_deadlock_detect ==> st.detector(self.res_type).sums_fit(),
        ensures
            !st.enable_deadlock_detect ==> !r,
            st.enable_deadlock_detect ==> check_outcome(st.detector(self.res_type), r),
    {
        if st.enable_deadlock_detect {
            proof {
                lemma_sums_fit_covers_greedy(&st.detector(self.res_type));
            }
            match self.res_type {
                ResourceType::Mutex => st.mutex_deadlock_detector.check_deadlock(),
                ResourceType::Semaphore => st.semaphore_deadlock_detector.check_deadlock(),
            }
        } else {
            false
        }
    }
}


/// What asking for one more unit of `rid` leads to: `e` is `d` with the need
/// raised by one, kept when no deadlock shows (`ok`), taken back when the
/// check finds one.
pub open spec fn need_outcome(d: DeadlockDetectorInner, e: DeadlockDetectorInner, tid: int, rid: int, enabled: bool, ok: bool) -> bool {
    exists|m: DeadlockDetectorInner| {
        &&& #[trigger] need_changed(d, m, tid, rid, 1)
        &&& ok ==> e == m && (enabled ==> check_outcome(m, false))
        &&& !ok ==> enabled && check_outcome(m, true) && need_changed(m, e, tid, rid, -1)
    }
}

/// What taking one unit of `rid` leads to: `e` is `d` with the unit taken,
/// kept when no deadlock shows (`ok`), given back when the check finds one.
pub open spec fn acquire_outcome(d: DeadlockDetectorInner, e: DeadlockDetectorInner, tid: int, rid: int, enabled: bool, ok: bool) -> bool {
    exists|m: DeadlockDetectorInner| {
        &&& #[trigger] locked(d, m, tid, rid)
        &&& ok ==> e == m && (enabled ==> check_outcome(m, false))
        &&& !ok ==> enabled && check_outcome(m, true) && unlocked(m, e, tid, rid)
    }
}

/// Room to ask for one more unit of `rid`, and then to take it.
pub open spec fn can_request(d: DeadlockDetectorInner, tid: int, rid: int) -> bool {
    &&& can_change_need(d, tid, rid, 1)
    &&& d.held_after_grow(tid, rid) < isize::MAX
    &&& d.avail(rid) > isize::MIN
    &&& d.sums_fit_with_slack(2)
}

/// Room to take one unit of `rid` and to check for deadlock after.
pub open spec fn can_acquire(d: DeadlockDetectorInner, tid: int, rid: int) -> bool {
    &&& can_lock(d, tid, rid)
    &&& d.sums_fit_with_slack(2)
}

/// Records that the running task `tid` wants one more unit of `rid`, and
/// takes the wish back if that makes a deadlock.
pub fn need_unless_deadlock(mgr: &DeadlockDetectorManager, st: &mut ProcessDeadlockState, tid: usize, rid: usize) -> (ok: bool)
    requires
        can_request(old(st).detector(mgr.res_type), tid as int, rid as int),
    ensures
        only_detector_changed(*old(st), *final(st), mgr.res_type),
        need_outcome(old(st).detector(mgr.res_type), final(st).detector(mgr.res_type), tid as int, rid as int,
            old(st).enable_deadlock_detect, ok),
        ok ==> can_acquire(final(st).detector(mgr.res_type), tid as int, rid as int),
{
    let ghost d0 = st.detector(mgr.res_type);
    mgr.need(st, tid, rid);
    let ghost d1 = st.detector(mgr.res_type);
    proof {
        lemma_need_change_keeps_sums(d0, d1, tid as int, rid as int, 1, 2);
        lemma_grown_len(d0.alloc_rows(), tid as int, d0.res_count());
        lemma_grown_len(d0.need_rows(), tid as int, d0.res_count());
        lemma_row_views(d1.allocation@);
        lemma_row_views(d1.need@);
        assert(d1.grown_alloc(tid as int) == d1.alloc_rows());
        assert(d1.grown_need(tid as int) == d1.need_rows());
    }
    if mgr.check_deadlock(st) {
        mgr.noneed(st, tid, rid);
        assert(need_changed(d0, d1, tid as int, rid as int, 1));
        false
    } else {
        assert(need_changed(d0, d1, tid as int, rid as int, 1));
        true
    }
}

/// Gives the running task `tid` one unit of `rid`, and gives it back if
/// that makes a deadlock.
pub fn lock_unless_deadlock(mgr: &DeadlockDetectorManager, st: &mut ProcessDeadlockState, tid: usize, rid: usize) -> (ok: bool)
    requires
        can_acquire(old(st).detector(mgr.res_type), tid as int, rid as int),
    ensures
        only_detector_changed(*old(st), *final(st), mgr.res_type),
        acquire_outcome(old(st).detector(mgr.res_type), final(st).detector(mgr.res_type), tid as int, rid as int,
            old(st).enable_deadlock_detect, ok),
{
    let ghost d0 = st.detector(mgr.res_type);
    mgr.lock(st, tid, rid);
    let ghost d1 = st.detector(mgr.res_type);
    proof {
        lemma_lock_keeps_sums(d0, d1, tid as int, rid as int, 0);
        lemma_grown_len(d0.alloc_rows(), tid as int, d0.res_count());
        lemma_row_views(d1.allocation@);
        assert(d1.grown_alloc(tid as int) == d1.alloc_rows());
    }
    if mgr.check_deadlock(st) {
        mgr.unlock(st, tid, rid);
        assert(locked(d0, d1, tid as int, rid as int));
        false
    } else {
        assert(locked(d0, d1, tid as int, rid as int));
        true
    }
}

} // verus!
