//! Sums of an integer function over sequences of distinct task ids.
use vstd::prelude::*;

verus! {

/// `f` summed over the elements of `s`.
pub open spec fn sum_over(s: Seq<int>, f: spec_fn(int) -> int) -> int
    decreases s.len(),
{
    if s.len() == 0 {
        0
    } else {
        sum_over(s.drop_last(), f) + f(s.last())
    }
}

/// The sequence `0, 1, ..., n - 1`.
pub open spec fn id_range(n: int) -> Seq<int> {
    Seq::new(n as nat, |i: int| i)
}

/// The function that is one everywhere.
pub open spec fn one() -> spec_fn(int) -> int {
    |x: int| 1int
}

pub proof fn lemma_sum_push(s: Seq<int>, x: int, f: spec_fn(int) -> int)
    ensures
        sum_over(s.push(x), f) == sum_over(s, f) + f(x),
{
    assert(s.push(x).drop_last() =~= s);
}

pub proof fn lemma_sum_remove(s: Seq<int>, i: int, f: spec_fn(int) -> int)
    requires
        0 <= i < s.len(),
    ensures
        sum_over(s, f) == sum_over(s.remove(i), f) + f(s[i]),
    decreases s.len(),
{
    if i == s.len() - 1 {
        assert(s.remove(i) =~= s.drop_last());
    } else {
        let d = s.drop_last();
        lemma_sum_remove(d, i, f);
        assert(d.remove(i) =~= s.remove(i).drop_last());
        assert(s.remove(i).last() == s.last());
    }
}

pub proof fn lemma_sum_nonneg(s: Seq<int>, f: spec_fn(int) -> int)
    requires
        forall|x: int| s.contains(x) ==> f(x) >= 0,
    ensures
        sum_over(s, f) >= 0,
    decreases s.len(),
{
    if s.len() > 0 {
        let d = s.drop_last();
        assert forall|x: int| d.contains(x) implies f(x) >= 0 by {
            let j = choose|j: int| 0 <= j < d.len() && d[j] == x;
            assert(s[j] == x);
            assert(s.contains(x));
        }
        lemma_sum_nonneg(d, f);
        assert(s.contains(s.last())) by {
            assert(s[s.len() - 1] == s.last());
        }
    }
}

/// Bounding `f` by `g` pointwise bounds the sums: `|sum f| <= sum g` when `|f| <= g`.
pub proof fn lemma_sum_abs_bound(s: Seq<int>, f: spec_fn(int) -> int, g: spec_fn(int) -> int)
    requires
        forall|x: int| s.contains(x) ==> -g(x) <= f(x) <= g(x),
    ensures
        -sum_over(s, g) <= sum_over(s, f) <= sum_over(s, g),
    decreases s.len(),
{
    if s.len() > 0 {
        let d = s.drop_last();
        assert forall|x: int| d.contains(x) implies -g(x) <= f(x) <= g(x) by {
            let j = choose|j: int| 0 <= j < d.len() && d[j] == x;
            assert(s[j] == x);
            assert(s.contains(x));
        }
        lemma_sum_abs_bound(d, f, g);
        assert(s.contains(s.last())) by {
            assert(s[s.len() - 1] == s.last());
        }
    }
}

/// Summing a nonnegative function over a duplicate-free subsequence gives at
/// most its sum over the duplicate-free sequence that holds it.
pub proof fn lemma_sum_subset(s1: Seq<int>, s2: Seq<int>, f: spec_fn(int) -> int)
    requires
        s1.no_duplicates(),
        s2.no_duplicates(),
        forall|x: int| s1.contains(x) ==> s2.contains(x),
        forall|x: int| s2.contains(x) ==> f(x) >= 0,
    ensures
        sum_over(s1, f) <= sum_over(s2, f),
    decreases s1.len(),
{
    if s1.len() == 0 {
        lemma_sum_nonneg(s2, f);
    } else {
        let x = s1.last();
        let d1 = s1.drop_last();
        assert(s1.contains(x)) by {
            assert(s1[s1.len() - 1] == x);
        }
        let i = choose|i: int| 0 <= i < s2.len() && s2[i] == x;
        let d2 = s2.remove(i);
        assert forall|a: int, b: int| 0 <= a < d2.len() && 0 <= b < d2.len() && a != b implies d2[a]
            != d2[b] by {
            let a2 = if a < i { a } else { a + 1 };
            let b2 = if b < i { b } else { b + 1 };
            assert(d2[a] == s2[a2]);
            assert(d2[b] == s2[b2]);
        }
        assert(d1.no_duplicates()) by {
            assert forall|a: int, b: int| 0 <= a < d1.len() && 0 <= b < d1.len() && a != b implies d1[a]
                != d1[b] by {
                assert(d1[a] == s1[a]);
                assert(d1[b] == s1[b]);
            }
        }
        assert forall|y: int| d1.contains(y) implies d2.contains(y) by {
            let j = choose|j: int| 0 <= j < d1.len() && d1[j] == y;
            assert(s1[j] == y);
            assert(s1.contains(y));
            assert(y != x) by {
                assert(s1[s1.len() - 1] == x);
            }
            let k = choose|k: int| 0 <= k < s2.len() && s2[k] == y;
            assert(k != i);
            if k < i {
                assert(d2[k] == y);
            } else {
                assert(d2[k - 1] == y);
            }
        }
        assert forall|y: int| d2.contains(y) implies f(y) >= 0 by {
            let j = choose|j: int| 0 <= j < d2.len() && d2[j] == y;
            if j < i {
                assert(s2[j] == y);
            } else {
                assert(s2[j + 1] == y);
            }
            assert(s2.contains(y));
        }
        lemma_sum_subset(d1, d2, f);
        lemma_sum_remove(s2, i, f);
    }
}

pub proof fn lemma_sum_one_is_len(s: Seq<int>)
    ensures
        sum_over(s, one()) == s.len(),
    decreases s.len(),
{
    if s.len() > 0 {
        lemma_sum_one_is_len(s.drop_last());
    }
}

/// A duplicate-free sequence of ids below `n` has at most `n` elements.
pub proof fn lemma_distinct_ids_len(s: Seq<int>, n: int)
    requires
        0 <= n,
        s.no_duplicates(),
        forall|i: int| 0 <= i < s.len() ==> 0 <= #[trigger] s[i] < n,
    ensures
        s.len() <= n,
{
    let r = id_range(n);
    assert forall|x: int| s.contains(x) implies r.contains(x) by {
        let j = choose|j: int| 0 <= j < s.len() && s[j] == x;
        assert(r[x] == x);
    }
    assert forall|x: int| r.contains(x) implies one()(x) >= 0 by {
    }
    lemma_sum_subset(s, r, one());
    lemma_sum_one_is_len(s);
    lemma_sum_one_is_len(r);
}


/// Sums over `0..m` of a function that agrees with `f` below `n` and is
/// zero from `n` on equal the sum of `f` over `0..n`.
pub proof fn lemma_sum_range_extend(n: int, m: int, f: spec_fn(int) -> int, g: spec_fn(int) -> int)
    requires
        0 <= n <= m,
        forall|t: int| 0 <= t < n ==> #[trigger] f(t) == g(t),
        forall|t: int| n <= t < m ==> #[trigger] g(t) == 0,
    ensures
        sum_over(id_range(m), g) == sum_over(id_range(n), f),
    decreases m,
{
    if m > 0 {
        assert(id_range(m).drop_last() =~= id_range(m - 1));
        assert(id_range(m).last() == m - 1);
        if m > n {
            lemma_sum_range_extend(n, m - 1, f, g);
        } else {
            assert(id_range(n).drop_last() =~= id_range(n - 1));
            lemma_sum_range_extend(n - 1, m - 1, f, g);
        }
    }
}

/// Changing a function at one id `x` of `0..n` changes its sum over `0..n`
/// by the change at `x`.
pub proof fn lemma_sum_range_point_change(n: int, x: int, f: spec_fn(int) -> int, g: spec_fn(int) -> int)
    requires
        0 <= x < n,
        forall|t: int| 0 <= t < n && t != x ==> #[trigger] f(t) == g(t),
    ensures
        sum_over(id_range(n), g) == sum_over(id_range(n), f) - f(x) + g(x),
    decreases n,
{
    assert(id_range(n).drop_last() =~= id_range(n - 1));
    assert(id_range(n).last() == n - 1);
    if x < n - 1 {
        lemma_sum_range_point_change(n - 1, x, f, g);
    } else {
        lemma_sum_range_extend(n - 1, n - 1, f, g);
    }
}

} // verus!
