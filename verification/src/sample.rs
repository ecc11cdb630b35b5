//! Audio samples as single-precision bit patterns.
//!
//! A sample is held as the 32 bits of its IEEE-754 single-precision encoding. Moving, splitting
//! and comparing samples needs no arithmetic on them: the encoding is sign and magnitude, and the
//! magnitudes order as the numbers do. [`value`] gives the number that a pattern stands for and
//! [`law_order_is_numeric`] ties the order of the patterns to the order of the numbers.

use vstd::prelude::*;
use vstd::arithmetic::power2::{lemma_pow2_adds, lemma_pow2_pos, lemma_pow2_strictly_increases, lemma_pow2_unfold, lemma2_to64, pow2};

verus! {

/// The pattern of negative zero: the sign bit alone.
pub const SIGN_BIT: u32 = 0x8000_0000;

/// The pattern of positive infinity. A larger magnitude is not a number.
pub const INFINITY: u32 = 0x7f80_0000;

/// The pattern of negative infinity.
pub const NEG_INFINITY: u32 = 0xff80_0000;

/// The pattern of one, which is digital full scale.
pub const ONE: u32 = 0x3f80_0000;

/// The magnitude bits of `v`: the pattern of its absolute value.
pub open spec fn magnitude(v: u32) -> int {
    if v < SIGN_BIT {
        v as int
    } else {
        v - SIGN_BIT
    }
}

/// `v` does not encode a number.
pub open spec fn is_nan(v: u32) -> bool {
    magnitude(v) > INFINITY
}

/// `v` encodes a number other than the infinities.
pub open spec fn finite(v: u32) -> bool {
    magnitude(v) < INFINITY
}

/// The signed magnitude of `v`; both zeros have rank zero.
pub open spec fn rank(v: u32) -> int {
    if v < SIGN_BIT {
        v as int
    } else {
        SIGN_BIT - v
    }
}

/// `a` is less than `b` as numbers; false where either is not a number.
pub open spec fn less(a: u32, b: u32) -> bool {
    !is_nan(a) && !is_nan(b) && rank(a) < rank(b)
}

/// The sign of the number that `v` encodes: -1, 0 or 1. Zeros have none, nor has what is no number.
pub open spec fn sign_of(v: u32) -> int {
    if is_nan(v) || rank(v) == 0 {
        0
    } else if rank(v) > 0 {
        1
    } else {
        -1
    }
}

/// The number with magnitude bits `m`, as a multiple of the smallest positive number. The exponent
/// stands above bit 23; a zero exponent has no implied leading bit. The pattern of infinity is
/// given the power of two that would follow the largest finite number.
pub open spec fn magnitude_value(m: nat) -> nat {
    let exponent = m / 0x80_0000;
    let fraction = m % 0x80_0000;
    if exponent == 0 {
        fraction
    } else {
        (0x80_0000 + fraction) * pow2((exponent - 1) as nat)
    }
}

/// The number that `v` encodes, as a multiple of the smallest positive number.
pub open spec fn value(v: u32) -> int {
    if v < SIGN_BIT {
        magnitude_value(v as nat) as int
    } else {
        -(magnitude_value((v - SIGN_BIT) as nat) as int)
    }
}

proof fn lemma_magnitude_value_increases(a: nat, b: nat)
    requires
        a < b,
    ensures
        magnitude_value(a) < magnitude_value(b),
{
    let ea = a / 0x80_0000;
    let eb = b / 0x80_0000;
    let fa = a % 0x80_0000;
    let fb = b % 0x80_0000;
    assert(ea <= eb);
    if eb > 0 {
        lemma_pow2_pos((eb - 1) as nat);
        let top = pow2((eb - 1) as nat);
        assert((0x80_0000 + fb) * top >= 0x80_0000 * top && 0x80_0000 * top >= 0x80_0000) by (nonlinear_arith)
            requires
                top >= 1,
                fb >= 0,
        ;
        if ea > 0 {
            let low = pow2((ea - 1) as nat);
            lemma_pow2_pos((ea - 1) as nat);
            if ea == eb {
                assert((0x80_0000 + fa) * low < (0x80_0000 + fb) * low) by (nonlinear_arith)
                    requires
                        fa < fb,
                        low >= 1,
                ;
            } else {
                lemma2_to64();
                lemma_pow2_adds((ea - 1) as nat, 1);
                if ea < eb - 1 {
                    lemma_pow2_strictly_increases(ea, (eb - 1) as nat);
                }
                assert(top >= low * 2);
                assert((0x80_0000 + fa) * low < 0x80_0000 * top) by (nonlinear_arith)
                    requires
                        fa < 0x80_0000,
                        low >= 1,
                        top >= low * 2,
                ;
            }
        }
    }
}

/// The order of samples is the order of the numbers that they encode, and a sample has no sign
/// exactly where its number is zero.
pub proof fn law_order_is_numeric(a: u32, b: u32)
    requires
        !is_nan(a),
        !is_nan(b),
    ensures
        less(a, b) <==> value(a) < value(b),
        sign_of(a) == 1 <==> value(a) > 0,
        sign_of(a) == -1 <==> value(a) < 0,
{
    let ma = magnitude(a) as nat;
    let mb = magnitude(b) as nat;
    if ma < mb {
        lemma_magnitude_value_increases(ma, mb);
    }
    if mb < ma {
        lemma_magnitude_value_increases(mb, ma);
    }
    assert(magnitude_value(0) == 0);
    if ma > 0 {
        lemma_magnitude_value_increases(0, ma);
    }
    if mb > 0 {
        lemma_magnitude_value_increases(0, mb);
    }
}

/// Patterns encode numbers as single precision does. What lies above the pattern of infinity, the sign
/// aside, is no number. The sign bit negates. Up to two to the power of 24 a pattern is its own
/// multiple of the smallest positive number, and from the first exponent on the next one doubles.
pub proof fn law_patterns_are_single_precision(v: u32)
    ensures
        is_nan(v) <==> v % 0x8000_0000 > 0x7f80_0000,
        finite(v) <==> v % 0x8000_0000 < 0x7f80_0000,
        v < 0x8000_0000 ==> value((v + 0x8000_0000) as u32) == -value(v),
        v <= 0x100_0000 ==> value(v) == v,
        0x80_0000 <= v < 0x7f80_0000 ==> value((v + 0x80_0000) as u32) == 2 * value(v),
{
    lemma2_to64();
    if 0x80_0000 <= v < 0x7f80_0000 {
        let e = v as nat / 0x80_0000;
        let next = v as nat + 0x80_0000;
        assert(next / 0x80_0000 == e + 1);
        assert(next % 0x80_0000 == v as nat % 0x80_0000);
        lemma_pow2_unfold(e);
        let f = 0x80_0000 + v as nat % 0x80_0000;
        let p = pow2((e - 1) as nat);
        assert(f * (2 * p) == 2 * (f * p)) by (nonlinear_arith);
    }
    if v <= 0x100_0000 {
        let e = v as nat / 0x80_0000;
        let f = v as nat % 0x80_0000;
        assert(e <= 2);
        assert(v == 0x80_0000 * e + f);
        if e == 1 {
            assert((0x80_0000 + f) * pow2(0) == 0x80_0000 + f);
        } else if e == 2 {
            assert(f == 0);
            assert((0x80_0000 + f) * pow2(1) == 0x100_0000);
        }
    }
}

/// What is no number has no sign and is neither less nor greater than anything.
pub proof fn law_what_is_no_number_has_no_order(a: u32, b: u32)
    requires
        a % 0x8000_0000 > 0x7f80_0000,
    ensures
        sign_of(a) == 0,
        !less(a, b),
        !less(b, a),
{
}

/// The larger of two samples is one of them that encodes the larger number. What is no number loses
/// against a number.
pub proof fn law_the_larger_encodes_the_larger(a: u32, b: u32)
    ensures
        larger(a, b) == a || larger(a, b) == b,
        !is_nan(a) && !is_nan(b) ==> value(larger(a, b)) >= value(a) && value(larger(a, b)) >= value(b),
        !is_nan(a) || !is_nan(b) ==> !is_nan(larger(a, b)),
{
    if !is_nan(a) && !is_nan(b) {
        law_order_is_numeric(a, b);
    }
}

/// Dropping the sign gives the absolute value of the number.
pub proof fn law_the_magnitude_is_the_absolute_value(v: u32)
    ensures
        0 <= magnitude(v) < 0x8000_0000,
        value(magnitude(v) as u32) == (if value(v) < 0 {
            -value(v)
        } else {
            value(v)
        }),
        is_nan(magnitude(v) as u32) <==> is_nan(v),
{
}

/// Whether `a` is less than `b`.
pub fn lt(a: u32, b: u32) -> (r: bool)
    ensures
        r == less(a, b),
{
    let ma: u32 = abs(a);
    let mb: u32 = abs(b);
    if ma > INFINITY || mb > INFINITY {
        false
    } else if a < SIGN_BIT {
        b < SIGN_BIT && a < b
    } else if b < SIGN_BIT {
        ma > 0 || mb > 0
    } else {
        mb < ma
    }
}

/// Whether `v` is not a number.
pub fn nan(v: u32) -> (r: bool)
    ensures
        r == is_nan(v),
{
    abs(v) > INFINITY
}

/// The absolute value of `v`: the sign is dropped.
pub fn abs(v: u32) -> (r: u32)
    ensures
        r == magnitude(v),
        magnitude(r) == r,
{
    if v < SIGN_BIT {
        v
    } else {
        v - SIGN_BIT
    }
}

/// The sign of `v`: -1, 0 or 1.
pub fn sign(v: u32) -> (r: i8)
    ensures
        r == sign_of(v),
{
    let m: u32 = abs(v);
    if m > INFINITY || m == 0 {
        0
    } else if v < SIGN_BIT {
        1
    } else {
        -1
    }
}

/// The larger of two samples; where one is not a number, the other.
pub open spec fn larger(a: u32, b: u32) -> u32 {
    if less(a, b) || is_nan(a) {
        b
    } else {
        a
    }
}

/// The larger of `a` and `b`; where one is not a number, the other.
pub fn max(a: u32, b: u32) -> (r: u32)
    ensures
        r == larger(a, b),
{
    if lt(a, b) || nan(a) {
        b
    } else {
        a
    }
}

} // verus!
