use vitoa::u128_div::{div_rem_1e16, D};

#[test]
fn matches_naive_divide() {
    let test_values: &[u128] = &[
        0,
        1,
        D - 1,
        D,
        D + 1,
        D * 2,
        D * 9_999_999_999_999_999,
        u128::MAX,
        (D - 1) * D,
        10u128.pow(32),
        10u128.pow(38),
    ];
    for &n in test_values {
        let (q, r) = div_rem_1e16(n);
        assert_eq!(q, n / D, "quotient mismatch at n = {n}");
        assert_eq!(r as u128, n % D, "remainder mismatch at n = {n}");
    }
    let mut s: u64 = 0xdead_beef_cafe_f00d;
    for _ in 0..200_000 {
        s = s
            .wrapping_mul(6_364_136_223_846_793_005)
            .wrapping_add(1_442_695_040_888_963_407);
        let s2 = s
            .wrapping_mul(6_364_136_223_846_793_005)
            .wrapping_add(1_442_695_040_888_963_407);
        let n = ((s as u128) << 64) | s2 as u128;
        let (q, r) = div_rem_1e16(n);
        assert_eq!(q, n / D, "quotient mismatch at n = {n}");
        assert_eq!(r as u128, n % D, "remainder mismatch at n = {n}");
    }
}
