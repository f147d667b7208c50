//! Real-valued quantities, held by their bit patterns.
//!
//! Heights, temperatures, precipitation and latitudes are single-precision
//! IEEE 754 numbers. This library never does arithmetic on them: it only
//! compares them, and every comparison is decided exactly on the bit pattern.
//! A caller obtains a `Scalar` from the bits of a machine number and turns it
//! back the same way, so nothing is rounded on the way in or out.

use vstd::prelude::*;
use vstd::arithmetic::mul::{lemma_mul_inequality, lemma_mul_strict_inequality};
use vstd::arithmetic::power2::{
    lemma_pow2_pos, lemma_pow2_strictly_increases, lemma_pow2_unfold, pow2,
};

verus! {

/// The sign bit of a single-precision number.
pub const SIGN: u32 = 0x8000_0000;

/// The bit pattern of positive infinity; every larger magnitude is a NaN.
pub const INFINITY: u32 = 0x7f80_0000;

/// The number of values that the fraction field can take.
pub const FRACTIONS: u32 = 0x80_0000;

/// What a magnitude stands for, counted in units of the least positive
/// number, `2^-149`: the fraction alone where the exponent field is zero, and
/// else the fraction with its leading one, doubled once for every step of the
/// exponent above one. Infinity stands for the power of two that follows the
/// greatest number.
pub open spec fn size(magnitude: int) -> int {
    let exponent = magnitude / (FRACTIONS as int);
    let fraction = magnitude % (FRACTIONS as int);
    if exponent == 0 {
        fraction
    } else {
        (FRACTIONS + fraction) * pow2((exponent - 1) as nat)
    }
}

/// A single-precision IEEE 754 number, held by its bit pattern.
///
/// `==` compares bit patterns, so it tells the two zeros apart and finds a
/// NaN equal to itself; [`Scalar::lt`] and [`Scalar::gt`] compare numbers.
#[derive(Clone, Copy, Debug, PartialEq, Eq, Structural)]
pub struct Scalar {
    pub bits: u32,
}

impl Scalar {
    /// Positive zero.
    pub open spec fn zero() -> Scalar {
        Scalar { bits: 0 }
    }

    /// Whether the sign bit is set.
    pub open spec fn negative(self) -> bool {
        self.bits >= SIGN
    }

    /// The bit pattern without its sign bit.
    pub open spec fn magnitude(self) -> int {
        if self.bits >= SIGN {
            self.bits - SIGN
        } else {
            self.bits as int
        }
    }

    /// Whether the pattern encodes no number at all.
    pub open spec fn is_nan(self) -> bool {
        self.magnitude() > INFINITY
    }

    /// An integer that orders the numbers as their values do: two numbers that
    /// are not NaN compare as their keys compare. Both zeros have key 0.
    pub open spec fn key(self) -> int {
        if self.negative() {
            -self.magnitude()
        } else {
            self.magnitude()
        }
    }

    /// The value of a number that is not NaN, in units of `2^-149`.
    pub open spec fn value(self) -> int {
        if self.negative() {
            -size(self.magnitude())
        } else {
            size(self.magnitude())
        }
    }

    /// `self < other` as IEEE 754 defines it: false whenever either is NaN.
    pub open spec fn less(self, other: Scalar) -> bool {
        !self.is_nan() && !other.is_nan() && self.key() < other.key()
    }

    /// An integer that orders all bit patterns as the IEEE 754 `totalOrder`
    /// predicate does: negative NaNs, negative numbers, `-0`, `+0`, positive
    /// numbers, positive NaNs.
    pub open spec fn total_key(self) -> int {
        if self.negative() {
            -self.magnitude() - 1
        } else {
            self.magnitude()
        }
    }

    /// `self` strictly before `other` in the total order.
    pub open spec fn precedes(self, other: Scalar) -> bool {
        self.total_key() < other.total_key()
    }

    /// The number with the given bit pattern.
    pub fn from_bits(bits: u32) -> (s: Scalar)
        ensures
            s.bits == bits,
    {
        Scalar { bits }
    }

    /// The bit pattern of the number.
    pub fn to_bits(self) -> (bits: u32)
        ensures
            bits == self.bits,
    {
        self.bits
    }

    fn abs_bits(self) -> (m: u32)
        ensures
            m == self.magnitude(),
    {
        if self.bits >= SIGN {
            self.bits - SIGN
        } else {
            self.bits
        }
    }

    /// Whether the number is a NaN.
    pub fn nan(self) -> (r: bool)
        ensures
            r == self.is_nan(),
    {
        self.abs_bits() > INFINITY
    }

    fn order(self) -> (k: i64)
        ensures
            k == self.key(),
    {
        let m: i64 = self.abs_bits() as i64;
        if self.bits >= SIGN {
            -m
        } else {
            m
        }
    }

    /// `self < other`, as the machine compares the two numbers.
    pub fn lt(self, other: Scalar) -> (r: bool)
        ensures
            r == self.less(other),
    {
        !self.nan() && !other.nan() && self.order() < other.order()
    }

    /// `self > other`, as the machine compares the two numbers.
    pub fn gt(self, other: Scalar) -> (r: bool)
        ensures
            r == other.less(self),
    {
        other.lt(self)
    }

    /// Whether `self` comes strictly before `other` in the total order.
    pub fn before(self, other: Scalar) -> (r: bool)
        ensures
            r == self.precedes(other),
    {
        let a: i64 = if self.bits >= SIGN {
            -(self.abs_bits() as i64) - 1
        } else {
            self.bits as i64
        };
        let b: i64 = if other.bits >= SIGN {
            -(other.abs_bits() as i64) - 1
        } else {
            other.bits as i64
        };
        a < b
    }
}

/// A greater magnitude stands for a greater size, and the least for zero.
pub proof fn lemma_size_increases(x: int, y: int)
    requires
        0 <= x < y,
    ensures
        0 <= size(x) < size(y),
        size(0) == 0,
{
    let b = FRACTIONS as int;
    let (ex, fx) = (x / b, x % b);
    let (ey, fy) = (y / b, y % b);
    assert(x == b * ex + fx && y == b * ey + fy);
    assert(ex <= ey) by {
        if ex > ey {
            assert(b * ex >= b * (ey + 1)) by (nonlinear_arith)
                requires
                    ex >= ey + 1,
                    b > 0,
            ;
        }
    }
    if ex > 0 {
        lemma_pow2_pos((ex - 1) as nat);
        assert(0 <= (b + fx) * pow2((ex - 1) as nat)) by (nonlinear_arith)
            requires
                b + fx >= 0,
                pow2((ex - 1) as nat) > 0,
        ;
    }
    if ex == ey {
        if ex > 0 {
            lemma_mul_strict_inequality(b + fx, b + fy, pow2((ex - 1) as nat) as int);
        }
    } else {
        let top = pow2((ey - 1) as nat) as int;
        lemma_pow2_pos((ey - 1) as nat);
        lemma_mul_inequality(b, b + fy, top);
        assert(b <= b * top) by (nonlinear_arith)
            requires
                b > 0,
                top >= 1,
        ;
        if ex > 0 {
            let low = pow2((ex - 1) as nat) as int;
            lemma_pow2_unfold(ex as nat);
            if ex < ey - 1 {
                lemma_pow2_strictly_increases(ex as nat, (ey - 1) as nat);
            }
            lemma_mul_strict_inequality(b + fx, 2 * b, low);
            assert(2 * b * low == b * (2 * low)) by (nonlinear_arith);
            lemma_mul_inequality(2 * low, top, b);
            assert(b * (2 * low) == (2 * low) * b && b * top == top * b) by (nonlinear_arith);
        }
    }
}

/// Numbers compare as their values do: of two numbers that are not NaN, one
/// is below the other exactly if its value is the lesser.
pub proof fn lemma_less_is_by_value(a: Scalar, b: Scalar)
    requires
        !a.is_nan(),
        !b.is_nan(),
    ensures
        a.less(b) <==> a.value() < b.value(),
{
    let (x, y) = (a.magnitude(), b.magnitude());
    if x < y {
        lemma_size_increases(x, y);
    } else if y < x {
        lemma_size_increases(y, x);
    }
    if x > 0 {
        lemma_size_increases(0, x);
    }
    if y > 0 {
        lemma_size_increases(0, y);
    }
}

/// `<` on numbers is irreflexive and transitive, and no two numbers are each
/// below the other.
pub proof fn lemma_less_is_strict_order(a: Scalar, b: Scalar, c: Scalar)
    ensures
        !a.less(a),
        a.less(b) ==> !b.less(a),
        a.less(b) && b.less(c) ==> a.less(c),
{
}

/// On numbers that are not negative and not NaN, the total order and `<` agree.
pub proof fn lemma_orders_agree(a: Scalar, b: Scalar)
    requires
        !a.negative(),
        !b.negative(),
        !a.is_nan(),
        !b.is_nan(),
    ensures
        a.precedes(b) == a.less(b),
{
}

} // verus!
