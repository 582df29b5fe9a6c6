use vitoa::digits::{write_four_digits_10000, write_one_two_three_or_four_digits_10000};
use vitoa::error::{u64_to_decimal, Error};
use vitoa::kernels::{heterogeneous, homogeneous_17_20};
use vitoa::reference::{parse_decimal, parse_decimal_u128, reference_digit_count};
use vitoa::ifma::{
    ifma_coefficient, ifma_lane, store_last, to_string_16digits, to_string_8digits, u32_le_1e8,
    write_16_digits_unmasked,
};
use vitoa::scalar::{scalar_to_chars, scalar_to_chars_at, scalar_u128_to_chars};
use vitoa::selector::{
    choose_variant, default_sample_size_of, sample_lengths, select_default, Sample, Selector,
    Variant,
};
use vitoa::u128_div::{div_rem_1e16, mulhi, M_HIGH};
use vitoa::{
    count_digits, digit_count, fmt, fmt_batch, fmt_batch_joined, fmt_batch_using,
    fmt_bounded_simd_inner,
};

struct AlwaysHomogeneous;

impl Selector for AlwaysHomogeneous {
    fn select(&self, _lengths: &[u8]) -> Variant {
        Variant::Homogeneous17_20
    }
}

#[test]
fn digit_counts_agree_with_reference() {
    let vals = [
        0u64,
        9,
        10,
        99,
        100,
        12_345,
        99_999_999,
        100_000_000,
        9_999_999_999_999_999_999,
        10_000_000_000_000_000_000,
        u64::MAX,
    ];
    let expected = [1u32, 1, 2, 2, 3, 5, 8, 9, 19, 20, 20];
    for (i, &v) in vals.iter().enumerate() {
        assert_eq!(count_digits(v), expected[i]);
        assert_eq!(digit_count(v), expected[i]);
        assert_eq!(reference_digit_count(v), expected[i]);
    }
}

#[test]
fn roundtrip_through_parse() {
    let mut buf = [0u8; 40];
    for v in [0u64, 7, 10, 4_294_967_296, u64::MAX] {
        let n = fmt(v, &mut buf).unwrap();
        assert_eq!(parse_decimal(&buf[..n]), v);
    }
    let n = fmt(u128::MAX, &mut buf).unwrap();
    assert_eq!(n, 39);
    assert_eq!(parse_decimal_u128(&buf[..n]), u128::MAX);
    assert_eq!(&buf[..n], b"340282366920938463463374607431768211455");
}

#[test]
fn fmt_leaves_rest_of_buffer() {
    let mut buf = [b'x'; 8];
    let n = fmt(4096u32, &mut buf).unwrap();
    assert_eq!(n, 4);
    assert_eq!(&buf, b"4096xxxx");
    let mut small = [b'x'; 38];
    let r = fmt(u128::MAX, &mut small);
    assert_eq!(r, Err(Error::BufferTooSmall { need: 39, have: 38 }));
    assert!(small.iter().all(|&b| b == b'x'));
}

#[test]
fn exact_room_is_enough() {
    let mut buf = [0u8; 20];
    assert_eq!(fmt(u64::MAX, &mut buf), Ok(20));
    let mut buf = [0u8; 1];
    assert_eq!(fmt(0u8, &mut buf), Ok(1));
    assert_eq!(&buf, b"0");
    let mut empty: [u8; 0] = [];
    assert_eq!(
        fmt(0u16, &mut empty),
        Err(Error::BufferTooSmall { need: 1, have: 0 })
    );
}

#[test]
fn error_messages() {
    assert_eq!(
        Error::BufferTooSmall { need: 5, have: 1 }.message(),
        "vitoa: buffer too small: need 5 bytes, have 1 bytes"
    );
    assert_eq!(
        Error::OffsetsLengthMismatch {
            expected: 4,
            got: 2
        }
        .message(),
        "vitoa: offsets length mismatch: expected 4, got 2"
    );
    assert_eq!(
        Error::TotalLengthOverflow.message(),
        "vitoa: batch total byte length exceeds u32::MAX; split the batch"
    );
}

#[test]
fn small_decimal_writer() {
    let mut buf = [0u8; 20];
    let n = u64_to_decimal(0, &mut buf);
    assert_eq!(&buf[..n], b"0");
    let n = u64_to_decimal(u64::MAX, &mut buf);
    assert_eq!(&buf[..n], b"18446744073709551615");
    let n = u64_to_decimal(1_000_007, &mut buf);
    assert_eq!(&buf[..n], b"1000007");
}

#[test]
fn four_digit_writers() {
    let mut buf = [b'.'; 6];
    write_four_digits_10000(&mut buf, 1, 7);
    assert_eq!(&buf, b".0007.");
    write_four_digits_10000(&mut buf, 2, 9999);
    assert_eq!(&buf, b".09999");
    for (q, text) in [(0u32, "0"), (5, "5"), (42, "42"), (999, "999"), (1844, "1844")] {
        let mut buf = [b'.'; 6];
        let n = write_one_two_three_or_four_digits_10000(&mut buf, 1, q);
        assert_eq!(n, text.len());
        assert_eq!(&buf[1..1 + n], text.as_bytes());
        assert_eq!(buf[0], b'.');
        assert!(buf[1 + n..].iter().all(|&b| b == b'.'));
    }
}

#[test]
fn fixed_sixteen_digits() {
    let mut buf = [b'.'; 18];
    write_16_digits_unmasked(42, &mut buf, 1);
    assert_eq!(&buf, b".0000000000000042.");
    write_16_digits_unmasked(9_999_999_999_999_999, &mut buf, 2);
    assert_eq!(&buf, b".09999999999999999");
}

#[test]
fn conversion_shapes() {
    for v in [0u64, 5, 123, 9_999_999_999_999_999, 10_000_000_000_000_000, 12_345_678_901_234_567_890, u64::MAX] {
        let n = digit_count(v) as usize;
        let mut buf = [b'.'; 22];
        let k = heterogeneous(v, n, &mut buf, 1);
        assert_eq!(k, n);
        assert_eq!(std::str::from_utf8(&buf[1..1 + n]).unwrap(), v.to_string());
        assert_eq!(buf[0], b'.');
        let mut plain = [b'.'; 20];
        scalar_to_chars(v, n, &mut plain);
        assert_eq!(&plain[..n], &buf[1..1 + n]);
    }
    for v in [10_000_000_000_000_000u64, 18_446_744_073_709_551_615, 100_000_000_000_000_001] {
        let n = digit_count(v) as usize;
        let mut buf = [b'.'; 22];
        let k = homogeneous_17_20(v, n, &mut buf, 1);
        assert_eq!(k, n);
        assert_eq!(std::str::from_utf8(&buf[1..1 + n]).unwrap(), v.to_string());
        assert_eq!(buf[1 + n], b'.');
    }
}

#[test]
fn high_product_and_division() {
    assert_eq!(mulhi(u128::MAX, u128::MAX), u128::MAX - 1);
    assert_eq!(mulhi(1u128 << 64, 1u128 << 64), 1);
    assert_eq!(mulhi(1u128 << 127, 4), 2);
    assert_eq!(mulhi(12345, 67890), 0);
    assert_eq!(mulhi(M_HIGH, 1u128 << 64), M_HIGH >> 64);
    assert_eq!(div_rem_1e16(10_000_000_000_000_000), (1, 0));
    assert_eq!(div_rem_1e16(123), (0, 123));
    assert_eq!(
        div_rem_1e16(123_456_789_012_345_678_901_234_567_890),
        (12_345_678_901_234, 5_678_901_234_567_890)
    );
}

#[test]
fn sampling_and_choice() {
    let s = sample_lengths(&[1, 2, 2, 3], 4);
    assert_eq!(s, Sample { dom_len: 2, dom_count: 2, taken: 4 });
    let s = sample_lengths(&[1, 1, 2, 2], 4);
    assert_eq!(s, Sample { dom_len: 1, dom_count: 2, taken: 4 });
    let s = sample_lengths(&[5, 9, 5, 9, 5, 9], 3);
    assert_eq!(s, Sample { dom_len: 5, dom_count: 3, taken: 3 });
    let s = sample_lengths(&[30, 25], 2);
    assert_eq!(s, Sample { dom_len: 20, dom_count: 2, taken: 2 });
    let homo = Sample { dom_len: 18, dom_count: 10, taken: 10 };
    assert_eq!(choose_variant(&homo, true), Variant::Homogeneous17_20);
    assert_eq!(choose_variant(&homo, false), Variant::Heterogeneous);
    let short = Sample { dom_len: 16, dom_count: 10, taken: 10 };
    assert_eq!(choose_variant(&short, true), Variant::Heterogeneous);
    assert_eq!(default_sample_size_of(1), 1);
    assert_eq!(default_sample_size_of(100), 1);
    assert_eq!(default_sample_size_of(101), 2);
    assert_eq!(default_sample_size_of(10_000), 100);
    assert_eq!(select_default(&[]), Variant::Heterogeneous);
    assert_eq!(select_default(&[3, 17, 17]), Variant::Heterogeneous);
    assert_eq!(select_default(&[20, 3, 3]), Variant::Homogeneous17_20);
    let mut lengths = vec![18u8; 2000];
    lengths[0] = 5;
    assert_eq!(select_default(&lengths), Variant::Homogeneous17_20);
    let mut lengths = vec![18u8; 2000];
    lengths[0] = 5;
    lengths[100] = 5;
    assert_eq!(select_default(&lengths), Variant::Heterogeneous);
}

#[test]
fn shape_does_not_change_output() {
    let values = [0u64, 7, 123_456, 10_000_000_000_000_000, u64::MAX, 42];
    let mut out_a = vec![b'.'; 80];
    let mut off_a = vec![9u32; values.len() + 1];
    let mut out_b = vec![b'.'; 80];
    let mut off_b = vec![9u32; values.len() + 1];
    let ra = fmt_batch(&values, &mut out_a, &mut off_a);
    let rb = fmt_batch_using(&values, &mut out_b, &mut off_b, &AlwaysHomogeneous);
    assert_eq!(ra, rb);
    assert_eq!(out_a, out_b);
    assert_eq!(off_a, off_b);
    let text = "0".to_string() + "7" + "123456" + "10000000000000000" + "18446744073709551615" + "42";
    assert_eq!(ra, Ok(text.len()));
    assert_eq!(&out_a[..text.len()], text.as_bytes());
    assert_eq!(off_a, vec![0, 1, 2, 8, 25, 45, 47]);
    assert_eq!(text.len(), 47);
    assert!(out_a[text.len()..].iter().all(|&b| b == b'.'));
}

#[test]
fn batch_edge_cases() {
    let mut out = [b'.'; 4];
    let mut offsets = [7u32; 1];
    assert_eq!(fmt_batch(&[], &mut out, &mut offsets), Ok(0));
    assert_eq!(offsets, [0]);
    assert_eq!(&out, b"....");
    let mut out = [b'.'; 9];
    let mut offsets = [7u32; 3];
    assert_eq!(
        fmt_batch(&[12345, 67890], &mut out, &mut offsets),
        Err(Error::BufferTooSmall { need: 10, have: 9 })
    );
    assert_eq!(offsets, [0, 5, 10]);
    assert_eq!(&out, b".........");
    let mut offsets = [7u32; 5];
    assert_eq!(
        fmt_batch(&[1, 2], &mut out, &mut offsets),
        Err(Error::OffsetsLengthMismatch { expected: 3, got: 5 })
    );
    assert_eq!(offsets, [7u32; 5]);
}

#[test]
fn joined_errors_and_partial_writes() {
    let mut out = [b'.'; 1];
    assert_eq!(
        fmt_batch_joined(&[1, 2], b',', &mut out),
        Err(Error::BufferTooSmall { need: 3, have: 1 })
    );
    assert_eq!(&out, b"1");
    let mut out = [b'.'; 2];
    assert_eq!(
        fmt_batch_joined(&[123], b',', &mut out),
        Err(Error::BufferTooSmall { need: 3, have: 2 })
    );
    assert_eq!(&out, b"..");
    let mut out = [b'.'; 3];
    assert_eq!(
        fmt_batch_joined(&[1, 22], b',', &mut out),
        Err(Error::BufferTooSmall { need: 4, have: 3 })
    );
    assert_eq!(&out, b"1,.");
    let mut out = [0u8; 2];
    assert_eq!(
        fmt_batch_joined(&[1, 22, 333], b',', &mut out),
        Err(Error::BufferTooSmall { need: 8, have: 2 })
    );
    assert_eq!(&out, b"1,");
    let mut out = [b'.'; 4];
    assert_eq!(fmt_batch_joined(&[1, 22], b';', &mut out), Ok(4));
    assert_eq!(&out, b"1;22");
    assert_eq!(fmt_batch_joined(&[], b';', &mut out), Ok(0));
    assert_eq!(fmt_batch_joined(&[u64::MAX], b';', &mut [0u8; 20]), Ok(20));
}

#[test]
fn multiply_add_kernels() {
    assert_eq!(ifma_coefficient(0), 45_035_996);
    assert_eq!(ifma_coefficient(7), 450_359_962_737_049);
    assert_eq!(ifma_lane(ifma_coefficient(7), 12_345_678), b'8');
    assert_eq!(ifma_lane(ifma_coefficient(0), 12_345_678), b'1');
    assert_eq!(ifma_lane(ifma_coefficient(3), 99_999_999), b'9');
    assert_eq!(ifma_lane(ifma_coefficient(3), 10_000_000), b'0');
    assert_eq!(&to_string_8digits(0), b"00000000");
    assert_eq!(&to_string_8digits(12_345_678), b"12345678");
    assert_eq!(&to_string_8digits(99_999_999), b"99999999");
    assert_eq!(&to_string_8digits(40_960), b"00040960");
    let mut lcg: u64 = 0x1234_5678;
    for _ in 0..100_000 {
        lcg = lcg
            .wrapping_mul(6_364_136_223_846_793_005)
            .wrapping_add(1_442_695_040_888_963_407);
        let v = lcg % 100_000_000;
        assert_eq!(std::str::from_utf8(&to_string_8digits(v)).unwrap(), format!("{v:08}"));
    }
    assert_eq!(&to_string_16digits(1, 2), b"0000000100000002");
    assert_eq!(&to_string_16digits(99_999_999, 0), b"9999999900000000");
    let mut buf = [b'.'; 6];
    u32_le_1e8(4096, 4, &mut buf, 1);
    assert_eq!(&buf, b".4096.");
    let mut buf = [b'.'; 5];
    store_last(b"abcdef", 3, &mut buf, 2);
    assert_eq!(&buf, b"..def");
}

#[test]
fn kernel_paths_match_portable_writers() {
    let mut lcg: u64 = 0x0bad_f00d;
    let mut a = [0u8; 40];
    let mut b = [0u8; 40];
    for _ in 0..100_000 {
        lcg = lcg
            .wrapping_mul(6_364_136_223_846_793_005)
            .wrapping_add(1_442_695_040_888_963_407);
        let v = lcg >> (lcg % 64);
        let n = fmt(v, &mut a).unwrap();
        scalar_to_chars(v, n, &mut b);
        assert_eq!(&a[..n], &b[..n], "u64 {v}");
        let w = ((lcg as u128) << 64 | (lcg.rotate_left(17) as u128)) >> (lcg % 128);
        let n = fmt(w, &mut a).unwrap();
        scalar_u128_to_chars(w, n, &mut b);
        assert_eq!(&a[..n], &b[..n], "u128 {w}");
    }
    let mut buf = [b'.'; 7];
    scalar_to_chars_at(12345, 5, &mut buf, 1);
    assert_eq!(&buf, b".12345.");
}

#[test]
fn bounded_kernel_widths() {
    let mut buf = [b'.'; 21];
    assert_eq!(fmt_bounded_simd_inner::<16>(1_234_567_890_123_456, 16, &mut buf), 16);
    assert_eq!(&buf[..17], b"1234567890123456.");
    assert_eq!(fmt_bounded_simd_inner::<20>(u64::MAX, 20, &mut buf), 20);
    assert_eq!(&buf[..21], b"18446744073709551615.");
    assert_eq!(fmt_bounded_simd_inner::<8>(7, 1, &mut buf), 1);
    assert_eq!(&buf[..2], b"78");
}
