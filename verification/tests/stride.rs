use os_kernel::task::stride::{Pass, BIG_STRIDE};
use std::cmp::Ordering;

#[test]
fn pass_new_keeps_value() {
    assert_eq!(Pass::new(42).0, 42);
}

#[test]
fn big_stride_is_two_to_the_31() {
    assert_eq!(BIG_STRIDE, 1u64 << 31);
}

#[test]
fn add_stride_divides_big_stride_by_priority() {
    let mut p = Pass::new(100);
    p.add_stride(2);
    assert_eq!(p.0, 100 + (1u64 << 30));
    let mut q = Pass::new(0);
    q.add_stride(16);
    assert_eq!(q.0, (1u64 << 31) / 16);
}

#[test]
fn add_stride_wraps_around() {
    let mut p = Pass::new(u64::MAX - 5);
    p.add_stride(2);
    assert_eq!(p.0, (1u64 << 30) - 6);
}

#[test]
fn add_stride_negative_priority_gives_zero_stride() {
    let mut p = Pass::new(7);
    p.add_stride(-1);
    assert_eq!(p.0, 7);
}

#[test]
fn pass_order_without_wrap() {
    assert_eq!(Pass::new(10).cmp(&Pass::new(20)), Ordering::Less);
    assert_eq!(Pass::new(20).cmp(&Pass::new(10)), Ordering::Greater);
    assert_eq!(Pass::new(10).cmp(&Pass::new(10)), Ordering::Equal);
    assert_eq!(Pass::new(10).partial_cmp(&Pass::new(20)), Some(Ordering::Less));
    assert!(Pass::new(10) < Pass::new(20));
    assert!(Pass::new(10) == Pass::new(10));
}

#[test]
fn pass_order_after_wrap() {
    // `b` is 16 past `a` in true order, but has wrapped below it.
    let a = Pass::new(u64::MAX - 10);
    let mut b = a;
    b.0 = b.0.wrapping_add(16);
    assert_eq!(b.0, 5);
    assert_eq!(a.cmp(&b), Ordering::Less);
    assert_eq!(b.cmp(&a), Ordering::Greater);
}

#[test]
fn pass_order_at_half_big_stride() {
    let half = BIG_STRIDE / 2;
    assert_eq!(Pass::new(0).cmp(&Pass::new(half)), Ordering::Less);
    assert_eq!(Pass::new(0).cmp(&Pass::new(half + 1)), Ordering::Greater);
    assert_eq!(Pass::new(half + 1).cmp(&Pass::new(0)), Ordering::Less);
}

#[test]
fn smallest_pass_advanced_stays_within_half() {
    // Three tasks of priority 2, 4 and 8: always advancing the smallest pass
    // keeps the spread within half a big stride.
    let prios: [isize; 3] = [2, 4, 8];
    let mut passes = [Pass::new(0), Pass::new(0), Pass::new(0)];
    let mut truth: [u128; 3] = [0, 0, 0];
    for _ in 0..1000 {
        let mut k = 0;
        for i in 1..3 {
            if passes[i].cmp(&passes[k]) == Ordering::Less {
                k = i;
            }
        }
        let min_truth = *truth.iter().min().unwrap();
        assert_eq!(truth[k], min_truth);
        passes[k].add_stride(prios[k]);
        truth[k] += (BIG_STRIDE / prios[k] as u64) as u128;
        let max = *truth.iter().max().unwrap();
        let min = *truth.iter().min().unwrap();
        assert!(max - min <= (BIG_STRIDE / 2) as u128);
    }
}
