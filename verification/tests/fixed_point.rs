use minimax::strategies::fixed::{isqrt, log2, UNIT};

#[test]
fn log2_of_zero_and_one_is_zero() {
    assert_eq!(log2(0), 0);
    assert_eq!(log2(1), 0);
}

#[test]
fn log2_of_powers_of_two_is_whole() {
    assert_eq!(log2(2), UNIT);
    assert_eq!(log2(4), 2 * UNIT);
    assert_eq!(log2(1024), 10 * UNIT);
    assert_eq!(log2(2147483648), 31 * UNIT);
}

#[test]
fn log2_between_powers_of_two_is_a_straight_line() {
    assert_eq!(log2(3), 98304);
    assert_eq!(log2(5), 147456);
    assert_eq!(log2(6), 163840);
    assert_eq!(log2(100), 430080);
}

#[test]
fn log2_of_the_largest_number_stays_below_32() {
    assert_eq!(log2(u32::MAX), 2097151);
    assert!(log2(u32::MAX) < 32 * UNIT);
}

#[test]
fn log2_never_falls() {
    let mut n: u32 = 0;
    let mut last: u32 = 0;
    while n < 5000 {
        let l: u32 = log2(n);
        assert!(l >= last);
        last = l;
        n += 1;
    }
}

#[test]
fn isqrt_of_small_numbers() {
    assert_eq!(isqrt(0), 0);
    assert_eq!(isqrt(1), 1);
    assert_eq!(isqrt(2), 1);
    assert_eq!(isqrt(3), 1);
    assert_eq!(isqrt(4), 2);
    assert_eq!(isqrt(99), 9);
    assert_eq!(isqrt(100), 10);
    assert_eq!(isqrt(101), 10);
}

#[test]
fn isqrt_of_large_numbers() {
    assert_eq!(isqrt(8589934592), 92681);
    assert_eq!(isqrt(18446744065119617025), 4294967295);
    assert_eq!(isqrt(18446744065119617024), 4294967294);
    assert_eq!(isqrt(u64::MAX), 4294967295);
}

#[test]
fn isqrt_is_the_rounded_down_root() {
    let mut x: u64 = 0;
    while x < 3000 {
        let r: u64 = isqrt(x);
        assert!(r * r <= x);
        assert!((r + 1) * (r + 1) > x);
        x += 1;
    }
}
