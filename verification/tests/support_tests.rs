use vitoa::support::{write_joined, FastIntArg, FastIntWrite};

#[test]
fn exhaustive_u8_matches_core() {
    let mut fast = String::new();
    let mut core_s = String::new();
    for v in 0u8..=u8::MAX {
        fast.clear();
        core_s.clear();
        v.write_into(&mut fast).unwrap();
        core_s.push_str(&format!("{}", v));
        assert_eq!(fast, core_s, "mismatch at u8 {v}");
    }
}

#[test]
fn exhaustive_u16_matches_core() {
    let mut fast = String::new();
    let mut core_s = String::new();
    for v in 0u16..=u16::MAX {
        fast.clear();
        core_s.clear();
        v.write_into(&mut fast).unwrap();
        core_s.push_str(&format!("{}", v));
        assert_eq!(fast, core_s, "mismatch at u16 {v}");
    }
}

#[test]
fn lcg_sweep_u32_matches_core() {
    let mut fast = String::new();
    let mut core_s = String::new();
    let mut s: u64 = 0xdead_beef_cafe_f00d;
    for _ in 0..1_000_000 {
        s = s
            .wrapping_mul(6_364_136_223_846_793_005)
            .wrapping_add(1_442_695_040_888_963_407);
        let v = s as u32;
        fast.clear();
        core_s.clear();
        v.write_into(&mut fast).unwrap();
        core_s.push_str(&format!("{}", v));
        assert_eq!(fast, core_s, "mismatch at u32 {v}");
    }
}

#[test]
fn lcg_sweep_u64_matches_core() {
    let mut fast = String::new();
    let mut core_s = String::new();
    let mut s: u64 = 0xfeed_face_dead_beef;
    for _ in 0..1_000_000 {
        s = s
            .wrapping_mul(6_364_136_223_846_793_005)
            .wrapping_add(1_442_695_040_888_963_407);
        fast.clear();
        core_s.clear();
        s.write_into(&mut fast).unwrap();
        core_s.push_str(&format!("{}", s));
        assert_eq!(fast, core_s, "mismatch at u64 {s}");
    }
}

#[test]
fn lcg_sweep_u128_matches_core() {
    let mut fast = String::new();
    let mut core_s = String::new();
    let edges: &[u128] = &[
        0,
        1,
        u8::MAX as u128,
        u16::MAX as u128,
        u32::MAX as u128,
        u64::MAX as u128,
        (u64::MAX as u128) + 1,
        10u128.pow(16) - 1,
        10u128.pow(16),
        10u128.pow(16) + 1,
        10u128.pow(32) - 1,
        10u128.pow(32),
        10u128.pow(32) + 1,
        10u128.pow(38),
        u128::MAX,
    ];
    for &v in edges {
        fast.clear();
        core_s.clear();
        v.write_into(&mut fast).unwrap();
        core_s.push_str(&format!("{}", v));
        assert_eq!(fast, core_s, "u128 edge mismatch at {v}");
    }
    let mut s: u64 = 0xcafe_f00d_dead_beef;
    for _ in 0..1_000_000 {
        s = s
            .wrapping_mul(6_364_136_223_846_793_005)
            .wrapping_add(1_442_695_040_888_963_407);
        let s2 = s
            .wrapping_mul(6_364_136_223_846_793_005)
            .wrapping_add(1_442_695_040_888_963_407);
        let v = ((s as u128) << 64) | s2 as u128;
        fast.clear();
        core_s.clear();
        v.write_into(&mut fast).unwrap();
        core_s.push_str(&format!("{}", v));
        assert_eq!(fast, core_s, "u128 sweep mismatch at {v}");
    }
}

#[test]
fn fast_int_arg_matches_to_string() {
    let mut s = String::new();
    for v in 0u8..=u8::MAX {
        s.clear();
        v.write_into(&mut s).unwrap();
        assert_eq!(s, v.to_string(), "FastIntArg u8 at {v}");
    }
    for v in 0u16..=u16::MAX {
        s.clear();
        v.write_into(&mut s).unwrap();
        assert_eq!(s, v.to_string(), "FastIntArg u16 at {v}");
    }
    let mut lcg: u64 = 0xabcd;
    for _ in 0..200_000 {
        lcg = lcg
            .wrapping_mul(6_364_136_223_846_793_005)
            .wrapping_add(1_442_695_040_888_963_407);
        let v32 = lcg as u32;
        s.clear();
        v32.write_into(&mut s).unwrap();
        assert_eq!(s, v32.to_string(), "FastIntArg u32 at {v32}");
        s.clear();
        lcg.write_into(&mut s).unwrap();
        assert_eq!(s, lcg.to_string(), "FastIntArg u64 at {lcg}");
        let lcg2 = lcg
            .wrapping_mul(6_364_136_223_846_793_005)
            .wrapping_add(1_442_695_040_888_963_407);
        let v128 = ((lcg as u128) << 64) | lcg2 as u128;
        s.clear();
        v128.write_into(&mut s).unwrap();
        assert_eq!(s, v128.to_string(), "FastIntArg u128 at {v128}");
    }
}

#[test]
fn write_string_fast_path() {

    let cases: &[(u64, u64, u64, u64)] = &[
        (0, 1, 22, 333),
        (u64::MAX, 0, 42, 1_234_567_890_123_456_789),
    ];

    for &(a, b, c, d) in cases {
        let mut core_s = String::new();
        core_s.push_str(&format!("{}{}{}{}", a, b, c, d));

        let mut fast_s = String::new();
        a.write_into(&mut fast_s).unwrap();
        b.write_into(&mut fast_s).unwrap();
        c.write_into(&mut fast_s).unwrap();
        d.write_into(&mut fast_s).unwrap();

        assert_eq!(
            fast_s, core_s,
            "write! mismatch: fast={fast_s:?} core={core_s:?}"
        );
    }
}

#[test]
fn writeln_string_fast_path() {

    let mut core_s = String::new();
    core_s.push_str(&format!("{}\n", 99u64));

    let mut fast_s = String::new();
    99u64.write_into(&mut fast_s).unwrap();
    fast_s.write_u64_fast_newline().unwrap();

    assert_eq!(fast_s, core_s);
}


#[test]
fn write_vec_fast_path() {
    let mut v: Vec<u8> = Vec::new();
    1u64.write_into(&mut v).unwrap();
    2u64.write_into(&mut v).unwrap();
    assert_eq!(v, b"12");
}

#[test]
fn write_joined_result() {
    let mut buf = [0u8; 64];
    let len = write_joined(&mut buf, b',', &[1u64, 22u64, 333u64]).unwrap();
    assert_eq!(&buf[..len], b"1,22,333");
}

#[test]
fn write_joined_buffer_too_small() {
    let mut buf = [0u8; 2];
    let result = write_joined(&mut buf, b',', &[1u64, 22u64, 333u64]);
    assert!(result.is_err());
    assert_eq!(result, Err(vitoa::Error::BufferTooSmall { need: 8, have: 2 }));
}

#[test]
fn return_value_semantics() {
    let mut buf = [0u8; 64];
    let len: usize = write_joined(&mut buf, b'-', &[1u64, 2u64, 3u64]).unwrap();
    assert_eq!(len, 5);
}
