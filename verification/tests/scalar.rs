use planet::scalar::{Scalar, INFINITY, SIGN};

fn s(x: f32) -> Scalar {
    Scalar::from_bits(x.to_bits())
}

fn samples() -> Vec<f32> {
    vec![
        0.0,
        -0.0,
        1.0,
        -1.0,
        0.03,
        -0.01,
        -0.02,
        0.5,
        -0.5,
        1.0e-40,
        -1.0e-40,
        f32::MIN_POSITIVE,
        f32::MAX,
        f32::MIN,
        f32::INFINITY,
        f32::NEG_INFINITY,
        f32::NAN,
        -f32::NAN,
        f32::from_bits(0x7f80_0001),
        f32::from_bits(0xffff_ffff),
    ]
}

#[test]
fn bits_go_in_and_out_unchanged() {
    for x in samples() {
        assert_eq!(s(x).to_bits(), x.to_bits());
        assert_eq!(s(x).bits, x.to_bits());
    }
    assert_eq!(Scalar::from_bits(0x3f80_0000).to_bits(), 1.0f32.to_bits());
}

#[test]
fn constants_are_the_sign_bit_and_infinity() {
    assert_eq!(SIGN, (-0.0f32).to_bits());
    assert_eq!(INFINITY, f32::INFINITY.to_bits());
}

#[test]
fn nan_is_recognised() {
    for x in samples() {
        assert_eq!(s(x).nan(), x.is_nan(), "{x}");
    }
}

#[test]
fn less_than_agrees_with_the_machine() {
    for a in samples() {
        for b in samples() {
            assert_eq!(s(a).lt(s(b)), a < b, "{a} < {b}");
        }
    }
}

#[test]
fn greater_than_agrees_with_the_machine() {
    for a in samples() {
        for b in samples() {
            assert_eq!(s(a).gt(s(b)), a > b, "{a} > {b}");
        }
    }
}

#[test]
fn zeros_are_equal_and_nan_is_unordered() {
    assert!(!s(0.0).lt(s(-0.0)));
    assert!(!s(-0.0).lt(s(0.0)));
    assert!(!s(f32::NAN).lt(s(1.0)));
    assert!(!s(1.0).lt(s(f32::NAN)));
    assert!(!s(f32::NAN).gt(s(f32::NAN)));
    assert!(s(-1.0).lt(s(-0.5)));
    assert!(s(-0.5).gt(s(-1.0)));
}

#[test]
fn total_order_agrees_with_the_machine() {
    for a in samples() {
        for b in samples() {
            let before = a.total_cmp(&b) == std::cmp::Ordering::Less;
            assert_eq!(s(a).before(s(b)), before, "{a} before {b}");
        }
    }
}

#[test]
fn total_order_tells_the_zeros_apart() {
    assert!(s(-0.0).before(s(0.0)));
    assert!(!s(0.0).before(s(-0.0)));
    assert!(s(f32::INFINITY).before(s(f32::NAN)));
    assert!(s(-f32::NAN).before(s(f32::NEG_INFINITY)));
}
