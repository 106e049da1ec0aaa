//! Stride scheduling: the pass value of a task and its wrap-aware order.
use core::cmp::Ordering;
use vstd::prelude::*;

verus! {

/// The big stride: a task of priority `p` advances its pass by `BIG_STRIDE / p`.
pub const BIG_STRIDE: u64 = 0x8000_0000;

/// Number of distinct `u64` values, the modulus under which passes wrap.
pub open spec fn pass_modulus() -> int {
    0x1_0000_0000_0000_0000
}

/// The order of two stored passes. Two passes closer than half the big
/// stride compare as their values do; farther apart, one of them has
/// wrapped around, and the order is reversed.
pub open spec fn pass_order(a: u64, b: u64) -> Ordering {
    if a < b {
        if b - a <= BIG_STRIDE / 2 {
            Ordering::Less
        } else {
            Ordering::Greater
        }
    } else if a > b {
        if a - b <= BIG_STRIDE / 2 {
            Ordering::Greater
        } else {
            Ordering::Less
        }
    } else {
        Ordering::Equal
    }
}

/// The order of two unbounded integers.
pub open spec fn int_order(x: int, y: int) -> Ordering {
    if x < y {
        Ordering::Less
    } else if x > y {
        Ordering::Greater
    } else {
        Ordering::Equal
    }
}

/// The stride a task of the given priority advances by.
pub open spec fn stride_of(priority: int) -> int {
    BIG_STRIDE as int / priority
}

/// Pass measures the total stride a process has passed. The process with the
/// smallest pass will be scheduled first.
#[derive(Debug, Clone, Copy)]
pub struct Pass(pub u64);

impl Pass {
    /// Create a new Pass with the given initial value.
    pub fn new(pass: u64) -> (r: Self)
        ensures
            r.0 == pass,
    {
        Pass(pass)
    }

    /// Add stride to the pass according to the priority of the process. The
    /// higher the priority, the smaller the stride. The pass wraps around on
    /// overflow; the order of passes is built to cope with that.
    pub fn add_stride(&mut self, priority: isize)
        requires
            priority != 0,
        ensures
            final(self).0 == (old(self).0 as int + BIG_STRIDE as int / (#[verifier::truncate] (priority as u64)) as int)
                % pass_modulus(),
    {
        let divisor: u64 = #[verifier::truncate] (priority as u64);
        assert(divisor != 0) by (bit_vector)
            requires priority != 0, divisor == #[verifier::truncate] (priority as u64);
        let stride = BIG_STRIDE / divisor;
        self.0 = self.0.wrapping_add(stride);
    }

    /// Three-way comparison of two passes, the order a scheduler's heap uses.
    pub fn cmp(&self, other: &Self) -> (r: Ordering)
        ensures
            r == pass_order(self.0, other.0),
    {
        compare_passes(self.0, other.0)
    }
}

/// Wrap-aware comparison of two stored pass values.
fn compare_passes(a: u64, b: u64) -> (r: Ordering)
    ensures
        r == pass_order(a, b),
{
    if a < b {
        if b - a <= BIG_STRIDE / 2 {
            Ordering::Less
        } else {
            Ordering::Greater
        }
    } else if a > b {
        if a - b <= BIG_STRIDE / 2 {
            Ordering::Greater
        } else {
            Ordering::Less
        }
    } else {
        Ordering::Equal
    }
}

impl PartialOrd for Pass {
    fn partial_cmp(&self, other: &Self) -> (r: Option<Ordering>) {
        Some(compare_passes(self.0, other.0))
    }
}

impl vstd::std_specs::cmp::PartialOrdSpecImpl for Pass {
    open spec fn obeys_partial_cmp_spec() -> bool {
        true
    }

    open spec fn partial_cmp_spec(&self, other: &Self) -> Option<Ordering> {
        Some(pass_order(self.0, other.0))
    }
}

impl PartialEq for Pass {
    fn eq(&self, other: &Self) -> (r: bool) {
        self.0 == other.0
    }
}

impl vstd::std_specs::cmp::PartialEqSpecImpl for Pass {
    open spec fn obeys_eq_spec() -> bool {
        true
    }

    open spec fn eq_spec(&self, other: &Self) -> bool {
        self.0 == other.0
    }
}

impl Eq for Pass {
}

/// Two unbounded passes at most half a big stride apart compare, once stored
/// modulo 2^64, as the unbounded values do: the scheduler picks the truly
/// smallest pass even after wrap-around.
pub proof fn lemma_pass_order_is_true_order(x: int, y: int, a: u64, b: u64)
    requires
        0 <= x,
        0 <= y,
        x - y <= BIG_STRIDE / 2,
        y - x <= BIG_STRIDE / 2,
        a == x % pass_modulus(),
        b == y % pass_modulus(),
    ensures
        pass_order(a, b) == int_order(x, y),
{
    let m = pass_modulus();
    let qx = x / m;
    let qy = y / m;
    assert(x == qx * m + x % m && 0 <= x % m < m) by (nonlinear_arith)
        requires m > 0, qx == x / m;
    assert(y == qy * m + y % m && 0 <= y % m < m) by (nonlinear_arith)
        requires m > 0, qy == y / m;
    assert(qx >= 0 && qy >= 0) by (nonlinear_arith)
        requires x >= 0, y >= 0, m > 0, qx == x / m, qy == y / m;
    // The quotients differ by at most one.
    if qx > qy + 1 {
        assert(qx * m >= (qy + 2) * m) by (nonlinear_arith)
            requires qx >= qy + 2, m > 0;
        assert(false);
    }
    if qy > qx + 1 {
        assert(qy * m >= (qx + 2) * m) by (nonlinear_arith)
            requires qy >= qx + 2, m > 0;
        assert(false);
    }
    if qx == qy + 1 {
        assert(qx * m == qy * m + m) by (nonlinear_arith)
            requires qx == qy + 1;
    }
    if qy == qx + 1 {
        assert(qy * m == qx * m + m) by (nonlinear_arith)
            requires qy == qx + 1;
    }
}

/// The pass spread stays within half a big stride: the tasks' unbounded
/// passes differ by at most `BIG_STRIDE / 2`.
pub open spec fn spread_within_half(passes: Seq<int>) -> bool {
    forall|i: int, j: int|
        0 <= i < passes.len() && 0 <= j < passes.len() ==> #[trigger] passes[i] - #[trigger] passes[j]
            <= BIG_STRIDE / 2
}

/// With every priority at least 2, advancing the task with the smallest pass
/// by its stride keeps the spread of all passes within half a big stride.
pub proof fn lemma_stride_step_keeps_spread(passes: Seq<int>, k: int, priority: int)
    requires
        spread_within_half(passes),
        0 <= k < passes.len(),
        forall|j: int| 0 <= j < passes.len() ==> passes[k] <= #[trigger] passes[j],
        priority >= 2,
    ensures
        spread_within_half(passes.update(k, passes[k] + stride_of(priority))),
{
    let s = stride_of(priority);
    assert(0 <= s <= BIG_STRIDE / 2) by (nonlinear_arith)
        requires s == BIG_STRIDE as int / priority, priority >= 2;
    let q = passes.update(k, passes[k] + s);
    assert forall|i: int, j: int|
        0 <= i < q.len() && 0 <= j < q.len() implies #[trigger] q[i] - #[trigger] q[j] <= BIG_STRIDE / 2 by {
        assert(passes[i] - passes[j] <= BIG_STRIDE / 2);
        assert(passes[k] <= passes[j]);
        assert(passes[k] <= passes[i]);
        assert(passes[i] - passes[k] <= BIG_STRIDE / 2);
    }
}

} // verus!
