use vitoa::error::Error;
use vitoa::{fmt, fmt_bounded_inner};

fn check(n: u64) {
    let mut buf = [0u8; 20];
    let len = fmt(n, &mut buf).unwrap();
    let expected = n.to_string();
    assert_eq!(
        std::str::from_utf8(&buf[..len]).unwrap(),
        expected,
        "wrong for n={n}"
    );
}

#[test]
fn edges() {
    let vals = [
        0u64,
        1,
        9,
        10,
        99,
        100,
        999,
        1_000,
        9_999,
        10_000,
        99_999_999,
        100_000_000,
        9_999_999_999_999_999,
        10_000_000_000_000_000,
        99_999_999_999_999_999,
        100_000_000_000_000_000,
        1_000_000_000_000_000_000,
        9_999_999_999_999_999_999,
        10_000_000_000_000_000_000,
        u64::MAX,
    ];
    for n in vals {
        check(n);
    }
}

#[test]
fn fuzz_lcg() {
    let mut s: u64 = 0xdeadbeef_cafef00d;
    for _ in 0..200_000 {
        s = s
            .wrapping_mul(6_364_136_223_846_793_005)
            .wrapping_add(1_442_695_040_888_963_407);
        check(s);
    }
}

#[test]
fn fuzz_all_lengths() {
    let mut p: u64 = 1;
    for _ in 0..19 {
        check(p);
        check(p.saturating_mul(10).saturating_sub(1));
        p = p.saturating_mul(10);
    }
    check(u64::MAX);
}

#[test]
fn u128_edges_and_fuzz() {
    let edges: &[u128] = &[
        0,
        1,
        9,
        10,
        99,
        100,
        (1u128 << 63) - 1,
        1u128 << 63,
        u64::MAX as u128,
        (u64::MAX as u128) + 1,
        10u128.pow(15),
        10u128.pow(16) - 1,
        10u128.pow(16),
        10u128.pow(16) + 1,
        10u128.pow(31),
        10u128.pow(32) - 1,
        10u128.pow(32),
        10u128.pow(32) + 1,
        10u128.pow(38),
        u128::MAX,
    ];
    let mut buf = [0u8; 40];
    for &v in edges {
        let n = fmt(v, &mut buf).unwrap();
        let expected = v.to_string();
        assert_eq!(
            std::str::from_utf8(&buf[..n]).unwrap(),
            expected,
            "fmt({v}) mismatch"
        );
    }
    let mut s: u64 = 0xdead_beef_cafe_f00d;
    for _ in 0..50_000 {
        s = s
            .wrapping_mul(6_364_136_223_846_793_005)
            .wrapping_add(1_442_695_040_888_963_407);
        let s2 = s
            .wrapping_mul(6_364_136_223_846_793_005)
            .wrapping_add(1_442_695_040_888_963_407);
        let v = ((s as u128) << 64) | s2 as u128;
        let n = fmt(v, &mut buf).unwrap();
        let expected = v.to_string();
        assert_eq!(
            std::str::from_utf8(&buf[..n]).unwrap(),
            expected,
            "fmt({v}) mismatch"
        );
    }
}

#[test]
fn buffer_too_small_returns_err() {
    let mut buf = [0u8; 1];
    let result = fmt(12345u64, &mut buf);
    assert!(matches!(
        result,
        Err(Error::BufferTooSmall { need: 5, have: 1 })
    ));
}

#[test]
fn u8_u16_u32() {
    let mut buf = [0u8; 20];
    for v in 0u8..=u8::MAX {
        let len = fmt(v, &mut buf).unwrap();
        let expected = v.to_string();
        assert_eq!(
            std::str::from_utf8(&buf[..len]).unwrap(),
            expected,
            "fmt({v})"
        );
    }
    for v in 0u16..=u16::MAX {
        let len = fmt(v, &mut buf).unwrap();
        let expected = v.to_string();
        assert_eq!(
            std::str::from_utf8(&buf[..len]).unwrap(),
            expected,
            "fmt({v})"
        );
    }
    let mut lcg: u64 = 0xdead_cafe;
    for _ in 0..100_000u32 {
        lcg = lcg
            .wrapping_mul(6_364_136_223_846_793_005)
            .wrapping_add(1_442_695_040_888_963_407);
        let v = lcg as u32;
        let len = fmt(v, &mut buf).unwrap();
        let expected = v.to_string();
        assert_eq!(
            std::str::from_utf8(&buf[..len]).unwrap(),
            expected,
            "fmt({v})"
        );
    }
}

#[test]
fn const_bound_8() {
    let mut buf = [0u8; 20];
    let mut lcg: u64 = 0xabcd_1234_5678_9abc;
    for _ in 0..100_000u32 {
        lcg = lcg
            .wrapping_mul(6_364_136_223_846_793_005)
            .wrapping_add(1_442_695_040_888_963_407);
        let v = lcg % 100_000_000;
        let len = fmt_bounded_inner::<8>(v, &mut buf).unwrap();
        let expected = v.to_string();
        assert_eq!(
            std::str::from_utf8(&buf[..len]).unwrap(),
            expected,
            "fmt_bounded_inner::<8>({v})"
        );
    }
}
