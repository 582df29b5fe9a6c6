use vitoa::digit_count;
use vitoa::error::Error;
use vitoa::selector::{select_default, Variant};
use vitoa::{fmt_batch, fmt_batch_joined};

#[test]
fn offsets_consistency() {
    let mut lcg: u64 = 0xdeadbeef_cafef00d;
    let n = 1000usize;
    let mut values = Vec::with_capacity(n);
    for _ in 0..n {
        lcg = lcg
            .wrapping_mul(6_364_136_223_846_793_005)
            .wrapping_add(1_442_695_040_888_963_407);
        values.push(lcg);
    }

    let mut offsets = vec![0u32; n + 1];
    let mut out = vec![0u8; 20 * n];
    fmt_batch(&values, &mut out, &mut offsets).unwrap();

    for (i, &v) in values.iter().enumerate() {
        let got = offsets[i + 1] - offsets[i];
        let expected = digit_count(v);
        assert_eq!(
            got, expected,
            "offsets mismatch for values[{i}] = {v}: got {got}, expected {expected}"
        );
    }
}

#[test]
fn content_matches_std() {
    let mut lcg: u64 = 0xcafe_f00d_dead_beef;
    let n = 1000usize;
    let mut values = Vec::with_capacity(n);
    for _ in 0..n {
        lcg = lcg
            .wrapping_mul(6_364_136_223_846_793_005)
            .wrapping_add(1_442_695_040_888_963_407);
        values.push(lcg);
    }

    let mut offsets = vec![0u32; n + 1];
    let mut out = vec![0u8; 20 * n];
    fmt_batch(&values, &mut out, &mut offsets).unwrap();

    for (i, &v) in values.iter().enumerate() {
        let s = offsets[i] as usize;
        let e = offsets[i + 1] as usize;
        let got = std::str::from_utf8(&out[s..e]).unwrap();
        let expected = v.to_string();
        assert_eq!(got, expected, "content mismatch at index {i}: value {v}");
    }
}

#[test]
fn homogeneous_path() {
    let base: u64 = 10_000_000_000_000_000;
    let count = 10_000usize;
    let mut values = Vec::with_capacity(count);
    let mut lcg: u64 = 0xabcd_1234;
    for _ in 0..count {
        lcg = lcg
            .wrapping_mul(6_364_136_223_846_793_005)
            .wrapping_add(1_442_695_040_888_963_407);
        let v = base + (lcg % (base * 10 - base));
        values.push(v);
    }

    for &v in &values {
        assert_eq!(digit_count(v), 17, "expected 17-digit value, got {v}");
    }

    let lengths: Vec<u8> = values.iter().map(|&v| digit_count(v) as u8).collect();
    let variant = select_default(&lengths);
    assert_eq!(
        variant,
        Variant::Homogeneous17_20,
        "expected Homogeneous17_20 variant"
    );

    let mut offsets = vec![0u32; count + 1];
    let mut out = vec![0u8; 20 * count];
    fmt_batch(&values, &mut out, &mut offsets).unwrap();

    for (i, &v) in values.iter().enumerate() {
        let s = offsets[i] as usize;
        let e = offsets[i + 1] as usize;
        let got = std::str::from_utf8(&out[s..e]).unwrap();
        let expected = v.to_string();
        assert_eq!(got, expected, "homogeneous path: mismatch at index {i}");
    }
}

#[test]
fn joined() {
    let values: &[u64] = &[1, 22, 333, 4444];
    let mut out = [0u8; 64];
    let len = fmt_batch_joined(values, b',', &mut out).unwrap();
    let got = std::str::from_utf8(&out[..len]).unwrap();
    assert_eq!(got, "1,22,333,4444");
}

#[test]
fn batch_err_offsets_mismatch() {
    let values = [1u64, 2, 3];
    let mut out = [0u8; 64];
    let mut offsets = [0u32; 2];
    let result = fmt_batch(&values, &mut out, &mut offsets);
    assert!(matches!(
        result,
        Err(Error::OffsetsLengthMismatch {
            expected: 4,
            got: 2
        })
    ));
}

#[test]
fn batch_err_buf_too_small() {
    let values = [12345u64, 67890];
    let mut out = [0u8; 1];
    let mut offsets = [0u32; 3];
    let result = fmt_batch(&values, &mut out, &mut offsets);
    assert!(matches!(result, Err(Error::BufferTooSmall { .. })));
}
