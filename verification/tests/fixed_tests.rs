use selara::fixed::{isqrt, log2fix_u64};

#[test]
fn isqrt_exact_values() {
    assert_eq!(isqrt(0), 0);
    assert_eq!(isqrt(1), 1);
    assert_eq!(isqrt(2), 1);
    assert_eq!(isqrt(3), 1);
    assert_eq!(isqrt(4), 2);
    assert_eq!(isqrt(15), 3);
    assert_eq!(isqrt(16), 4);
    assert_eq!(isqrt(536870912), 23170);
    assert_eq!(isqrt(u64::MAX), 4294967295);
}

#[test]
fn isqrt_brackets_its_argument() {
    for x in [5u64, 99, 1000, 65535, 65536, 65537, 123456789] {
        let r = isqrt(x);
        assert!(r * r <= x);
        assert!((r + 1) * (r + 1) > x);
    }
}

#[test]
fn log2fix_exact_on_powers_of_two() {
    assert_eq!(log2fix_u64(1), 0);
    assert_eq!(log2fix_u64(2), 65536);
    assert_eq!(log2fix_u64(4), 2 * 65536);
    assert_eq!(log2fix_u64(65536), 16 * 65536);
    assert_eq!(log2fix_u64(1 << 40), 40 * 65536);
    assert_eq!(log2fix_u64(1 << 63), 63 * 65536);
}

#[test]
fn log2fix_tracks_the_real_logarithm() {
    // the fixed-point value approximates 65536*log2(x) from below,
    // within a few units
    for x in [3u64, 5, 7, 10, 100, 20480, 20480000, 48000] {
        let expect = (x as f64).log2() * 65536.0;
        let got = log2fix_u64(x) as f64;
        assert!(got <= expect + 1e-6, "x={x}: {got} > {expect}");
        assert!(got >= expect - 4.0, "x={x}: {got} << {expect}");
    }
}

#[test]
fn log2fix_is_monotone() {
    let mut prev = log2fix_u64(1);
    for x in 2u64..2000 {
        let cur = log2fix_u64(x);
        assert!(cur >= prev);
        prev = cur;
    }
}
