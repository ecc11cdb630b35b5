use soundforge::sample::{abs, lt, max, sign, INFINITY, NEG_INFINITY, ONE, SIGN_BIT};

/// Patterns of every sort of number, and of what is none.
fn patterns() -> Vec<u32> {
    let mut v: Vec<u32> = [
        0.0f32,
        1.0,
        0.5,
        1.5,
        f32::MIN_POSITIVE,
        f32::MAX,
        f32::EPSILON,
        f32::INFINITY,
        f32::NAN,
        f32::from_bits(1),
        f32::from_bits(0x007f_ffff),
        f32::from_bits(0x7f80_0001),
        3.0e-20,
        7.25e12,
    ]
    .iter()
    .map(|x| x.to_bits())
    .collect();
    let negated: Vec<u32> = v.iter().map(|b| b | SIGN_BIT).collect();
    v.extend(negated);
    v
}

#[test]
fn patterns_order_as_the_numbers_do() {
    for &a in &patterns() {
        for &b in &patterns() {
            assert_eq!(lt(a, b), f32::from_bits(a) < f32::from_bits(b), "{a:#x} {b:#x}");
        }
    }
}

#[test]
fn magnitudes_and_signs_are_those_of_the_numbers() {
    for &a in &patterns() {
        let x = f32::from_bits(a);
        assert_eq!(abs(a), x.abs().to_bits(), "{a:#x}");
        let want = if x > 0.0 {
            1
        } else if x < 0.0 {
            -1
        } else {
            0
        };
        assert_eq!(sign(a), want, "{a:#x}");
    }
}

#[test]
fn the_larger_of_two_is_a_number_where_one_is() {
    for &a in &patterns() {
        for &b in &patterns() {
            let want = f32::from_bits(a).max(f32::from_bits(b));
            let got = f32::from_bits(max(a, b));
            assert!(got == want || (got.is_nan() && want.is_nan()), "{a:#x} {b:#x}");
        }
    }
}

#[test]
fn the_constants_are_the_patterns_of_their_numbers() {
    assert_eq!(ONE, 1.0f32.to_bits());
    assert_eq!(INFINITY, f32::INFINITY.to_bits());
    assert_eq!(NEG_INFINITY, f32::NEG_INFINITY.to_bits());
    assert_eq!(SIGN_BIT, (-0.0f32).to_bits());
}
