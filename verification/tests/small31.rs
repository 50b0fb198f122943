//! The 31-bit field kernel of the F4 engine.

use sylvester::compute::small31::{Small31, applications_before_sweep, mulhi};

const BENCH_P: u32 = 1073741827;

#[test]
fn mulhi_matches_the_u128_product() {
    let cases = [
        (0u64, 0u64),
        (1, u64::MAX),
        (u64::MAX, u64::MAX),
        (1 << 63, 3),
        (0x0123_4567_89ab_cdef, 0xfedc_ba98_7654_3210),
    ];
    for (a, b) in cases {
        let want = ((a as u128 * b as u128) >> 64) as u64;
        assert_eq!(mulhi(a, b), want, "a = {a}, b = {b}");
    }
}

#[test]
fn barrett_multiplier_is_the_floor_of_two_to_the_64() {
    for p in [2u32, 3, 7, 65521, 1 << 30, BENCH_P, (1 << 31) - 1] {
        let ctx = Small31::new(p);
        assert_eq!(ctx.mu(), ((1u128 << 64) / p as u128) as u64, "p = {p}");
    }
}

#[test]
fn shoup_precomputation_is_the_floor_of_the_scaled_quotient() {
    let ctx = Small31::new(BENCH_P);
    for w in [0u32, 1, 2, BENCH_P / 2, BENCH_P - 2, BENCH_P - 1] {
        let want = ((w as u128) << 32) / BENCH_P as u128;
        assert_eq!(ctx.shoup_of(w), want as u64, "w = {w}");
    }
}

#[test]
fn reduce_acc_covers_the_boundary_values() {
    for p in [2u32, 3, 97, 65521, BENCH_P, (1 << 31) - 1] {
        let ctx = Small31::new(p);
        let p64 = p as u64;
        for x in [0, 1, p64 - 1, p64, p64 + 1, 2 * p64 - 1, 1 << 32, u64::MAX] {
            assert_eq!(ctx.reduce_acc(x) as u64, x % p64, "p = {p}, x = {x}");
        }
    }
}

#[test]
fn the_sweep_bound_is_above_two_to_the_thirty_two() {
    assert!(Small31::new(BENCH_P).applications_between_sweeps() > 1 << 32);
}

#[test]
fn the_shoup_product_stays_below_two_p() {
    let ctx = Small31::new(BENCH_P);
    let mut acc = vec![0u64; 1];
    for w in [1u32, 2, BENCH_P / 3, BENCH_P - 1] {
        for f in [1u32, 7, BENCH_P / 2, BENCH_P - 1] {
            let mut shoup = Vec::new();
            ctx.precompute(&[w], &mut shoup);
            acc[0] = 0;
            ctx.axpy(&mut acc, &[0], &[w], &shoup, f);
            assert!(acc[0] < 2 * BENCH_P as u64, "w = {w}, f = {f}");
            assert_eq!(ctx.reduce_acc(acc[0]) as u64, (w as u64 * f as u64) % BENCH_P as u64, "w = {w}, f = {f}");
        }
    }
}

#[test]
fn the_sweep_bound_is_exact() {
    for (capacity, start, addend) in [(u16::MAX as u64, 6, 7), (255, 10, 1), (1000, 999, 1000)] {
        let n = applications_before_sweep(capacity, start, addend);
        assert!(start + n * addend <= capacity);
        assert!(start + (n + 1) * addend > capacity);
    }
}
