use hierseg::scale::{decode_bits, encode_bits, ZERO_SCALE};

fn code(x: f64) -> u64 {
    encode_bits(x.to_bits())
}

#[test]
fn zero_has_the_code_of_scale_zero() {
    assert_eq!(code(0.0), ZERO_SCALE);
    assert_eq!(encode_bits(0), 0x8000_0000_0000_0000);
    assert_eq!(encode_bits(1), 0x8000_0000_0000_0001);
    assert_eq!(encode_bits(0x8000_0000_0000_0001), 0x7fff_ffff_ffff_fffe);
    assert_eq!(encode_bits(u64::MAX), 0);
}

#[test]
fn codes_are_ordered_as_the_scales() {
    let scales = [
        f64::NEG_INFINITY,
        -1.0e300,
        -2.5,
        -1.0,
        -1.0e-300,
        0.0,
        1.0e-300,
        0.8,
        1.0,
        2.5,
        1.0e300,
        f64::INFINITY,
    ];
    for pair in scales.windows(2) {
        assert!(code(pair[0]) < code(pair[1]), "{} and {}", pair[0], pair[1]);
    }
}

#[test]
fn codes_stand_for_their_patterns() {
    for x in [0.0f64, -0.0, 0.8, -3.75, 1.0e100, f64::INFINITY, f64::NEG_INFINITY] {
        assert_eq!(decode_bits(code(x)), x.to_bits());
        assert_eq!(f64::from_bits(decode_bits(code(x))), x);
    }
    for bits in [0u64, 1, 0x7fff_ffff_ffff_ffff, 0x8000_0000_0000_0000, u64::MAX] {
        assert_eq!(decode_bits(encode_bits(bits)), bits);
        assert_eq!(encode_bits(decode_bits(bits)), bits);
    }
}
