use node_detect::binary32::{
    classify_nan, greater_than, less_than, place_of, rank_of, INFINITY, NEG_INFINITY, SIGN_BIT,
};

fn samples() -> Vec<f32> {
    vec![
        f32::NEG_INFINITY,
        f32::MIN,
        -1.0e10,
        -2.5,
        -1.0,
        -f32::MIN_POSITIVE,
        -1.0e-45,
        -0.0,
        0.0,
        1.0e-45,
        f32::MIN_POSITIVE,
        0.25,
        0.5,
        1.0,
        1.0000001,
        3.0,
        1.0e10,
        f32::MAX,
        f32::INFINITY,
        f32::NAN,
        -f32::NAN,
    ]
}

#[test]
fn constants_are_the_bit_patterns_of_the_values() {
    assert_eq!(NEG_INFINITY, f32::NEG_INFINITY.to_bits());
    assert_eq!(INFINITY, f32::INFINITY.to_bits());
    assert_eq!(SIGN_BIT, (-0.0f32).to_bits());
}

#[test]
fn less_than_agrees_with_the_comparison_of_the_values() {
    for a in samples() {
        for b in samples() {
            assert_eq!(less_than(a.to_bits(), b.to_bits()), a < b, "{a} < {b}");
            assert_eq!(greater_than(a.to_bits(), b.to_bits()), a > b, "{a} > {b}");
        }
    }
}

#[test]
fn nan_is_told_from_numbers() {
    for a in samples() {
        assert_eq!(classify_nan(a.to_bits()), a.is_nan());
    }
    assert!(classify_nan(0x7F80_0001));
    assert!(classify_nan(0xFFFF_FFFF));
    assert!(!classify_nan(0x7F80_0000));
    assert!(!classify_nan(0xFF80_0000));
}

#[test]
fn both_zeros_share_a_place() {
    assert_eq!(place_of(0.0f32.to_bits()), 0);
    assert_eq!(place_of((-0.0f32).to_bits()), 0);
    assert_eq!(place_of(1.0f32.to_bits()), 0x3F80_0000);
    assert_eq!(place_of((-1.0f32).to_bits()), -0x3F80_0000);
}

#[test]
fn rank_puts_what_is_not_a_number_below_negative_infinity() {
    assert_eq!(rank_of(f32::NEG_INFINITY.to_bits()), -0x7F80_0000);
    assert_eq!(rank_of(f32::NAN.to_bits()), -0x7F80_0001);
    assert_eq!(rank_of(0.5f32.to_bits()), 0x3F00_0000);
    for a in samples() {
        for b in samples() {
            if !a.is_nan() && !b.is_nan() {
                assert_eq!(rank_of(a.to_bits()) < rank_of(b.to_bits()), a < b);
                assert_eq!(rank_of(a.to_bits()) == rank_of(b.to_bits()), a == b);
            }
        }
    }
}

#[test]
fn nothing_is_less_than_negative_infinity() {
    for a in samples() {
        assert!(!less_than(a.to_bits(), NEG_INFINITY));
    }
}
