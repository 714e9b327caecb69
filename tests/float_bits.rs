use gitpow_graph::float_bits::{f32_bits, f64_bits};

#[test]
fn every_lane_matches_single_precision() {
    for v in 0..=u16::MAX {
        assert_eq!(f32_bits(v), (v as f32).to_bits(), "lane {}", v);
    }
}

#[test]
fn timestamps_match_double_precision() {
    let cases: Vec<i64> = vec![
        0,
        1,
        -1,
        2,
        3,
        1_700_000_000,
        -1_700_000_000,
        (1 << 53) - 1,
        1 << 53,
        (1 << 53) + 1,
        (1 << 53) + 2,
        (1 << 53) + 3,
        (1 << 54) + 2,
        (1 << 54) + 6,
        i64::MAX,
        i64::MIN,
        i64::MIN + 1,
        0x7FFF_FFFF_FFFF_FC00,
        0x7FFF_FFFF_FFFF_FE00,
        0x1234_5678_9ABC_DEF1,
    ];
    for t in cases {
        assert_eq!(f64_bits(t), (t as f64).to_bits(), "timestamp {}", t);
    }
}

#[test]
fn timestamp_two_is_exact() {
    assert_eq!(f64_bits(2), 0x4000_0000_0000_0000);
}
