//! Double-precision values, carried and ordered by their bit patterns.

use vstd::arithmetic::power2::{
    lemma_pow2_pos, lemma_pow2_strictly_increases, lemma_pow2_unfold, pow2,
};
use vstd::prelude::*;

verus! {

/// The weight of the sign bit.
pub const SIGN: u64 = 0x8000_0000_0000_0000;

/// The bit pattern of positive infinity; larger magnitudes are NaNs.
pub const INFINITY: u64 = 0x7ff0_0000_0000_0000;

/// The bit pattern of the usual NaN.
pub const NAN: u64 = 0x7ff8_0000_0000_0000;

/// A double-precision floating-point value, held as its IEEE 754 bit pattern.
///
/// Arithmetic on these values is left to the caller. What the library decides
/// about them needs only their order.
#[derive(Clone, Copy, Debug, PartialEq, Eq, Structural)]
pub struct Binary64 {
    pub bits: u64,
}

impl Binary64 {
    /// The bit pattern without its sign bit.
    pub open spec fn magnitude(self) -> int {
        if self.bits >= SIGN {
            self.bits - SIGN
        } else {
            self.bits as int
        }
    }

    pub open spec fn is_nan(self) -> bool {
        self.magnitude() > INFINITY
    }

    /// A number that orders the values other than NaN as the values themselves
    /// are ordered; both zeros get 0.
    pub open spec fn rank(self) -> int {
        if self.bits >= SIGN {
            -self.magnitude()
        } else {
            self.magnitude()
        }
    }

    /// `self < other` as IEEE 754 compares: false where either is a NaN.
    pub open spec fn below(self, other: Self) -> bool {
        !self.is_nan() && !other.is_nan() && self.rank() < other.rank()
    }

    /// The value with its sign flipped.
    pub open spec fn negated(self) -> Self {
        if self.bits >= SIGN {
            Binary64 { bits: (self.bits - SIGN) as u64 }
        } else {
            Binary64 { bits: (self.bits + SIGN) as u64 }
        }
    }

    pub open spec fn zero() -> Self {
        Binary64 { bits: 0 }
    }

    /// The usual NaN.
    pub open spec fn nan() -> Self {
        Binary64 { bits: NAN }
    }

    /// Whether `self < other`; false where either is a NaN.
    pub fn less(self, other: Self) -> (r: bool)
        ensures
            r == self.below(other),
    {
        let a: u64 = if self.bits >= SIGN { self.bits - SIGN } else { self.bits };
        let b: u64 = if other.bits >= SIGN { other.bits - SIGN } else { other.bits };
        if a > INFINITY || b > INFINITY {
            false
        } else if self.bits >= SIGN {
            if other.bits >= SIGN {
                b < a
            } else {
                a > 0 || b > 0
            }
        } else {
            other.bits < SIGN && a < b
        }
    }

    /// The value with its sign flipped.
    pub fn negate(self) -> (r: Self)
        ensures
            r == self.negated(),
    {
        if self.bits >= SIGN {
            Binary64 { bits: self.bits - SIGN }
        } else {
            Binary64 { bits: self.bits + SIGN }
        }
    }
}

/// The order of double-precision values is irreflexive and transitive, and
/// flipping both signs reverses it.
pub proof fn law_order(a: Binary64, b: Binary64, c: Binary64)
    ensures
        !a.below(a),
        a.below(b) && b.below(c) ==> a.below(c),
        a.below(b) == b.negated().below(a.negated()),
        a.negated().negated() == a,
{
}

/// The number that a finite bit pattern stands for, in units of the smallest
/// positive one. The upper eleven bits behind the sign are the exponent, the others
/// the fraction; patterns without an exponent have no hidden leading bit.
pub open spec fn number(bits: u64) -> int {
    let size = bits as int % 0x8000_0000_0000_0000;
    let exponent = size / 0x10_0000_0000_0000;
    let fraction = size % 0x10_0000_0000_0000;
    let abs = if exponent == 0 {
        fraction
    } else {
        (fraction + 0x10_0000_0000_0000) * pow2((exponent - 1) as nat)
    };
    if bits as int >= 0x8000_0000_0000_0000 {
        -abs
    } else {
        abs
    }
}

proof fn lemma_number_grows(a: u64, b: u64)
    requires
        a < b <= INFINITY,
    ensures
        0 <= number(a) < number(b),
{
    let m: int = 0x10_0000_0000_0000;
    let (ea, fa) = (a as int / m, a as int % m);
    let (eb, fb) = (b as int / m, b as int % m);
    if ea > 0 {
        lemma_pow2_pos((ea - 1) as nat);
    }
    if eb > 0 {
        lemma_pow2_pos((eb - 1) as nat);
    }
    if ea == eb {
        if ea > 0 {
            let p = pow2((ea - 1) as nat);
            assert(0 <= (fa + m) * p < (fb + m) * p) by (nonlinear_arith)
                requires
                    0 <= fa < fb,
                    m > 0,
                    p > 0,
            ;
        }
    } else if ea == 0 {
        let p = pow2((eb - 1) as nat);
        assert(m <= (fb + m) * p) by (nonlinear_arith)
            requires
                0 <= fb,
                m > 0,
                p >= 1,
        ;
    } else {
        let p = pow2((ea - 1) as nat);
        let q = pow2((eb - 1) as nat);
        lemma_pow2_unfold(ea as nat);
        if ea < eb - 1 {
            lemma_pow2_strictly_increases(ea as nat, (eb - 1) as nat);
        }
        assert(q >= 2 * p);
        assert(0 <= (fa + m) * p < (fb + m) * q) by (nonlinear_arith)
            requires
                0 <= fa < m,
                0 <= fb,
                p > 0,
                q >= 2 * p,
        ;
    }
}

/// Values are ordered as the numbers that they stand for, with the infinities at
/// either end: the finite ones are those with an exponent that is not all ones, and
/// of the others those with a fraction are NaNs, which are not ordered at all.
/// Flipping the sign gives the opposite number.
pub proof fn law_order_is_that_of_numbers(a: Binary64, b: Binary64)
    ensures
        a.is_nan() <==> a.bits as int % 0x8000_0000_0000_0000 > 0x7ff0_0000_0000_0000,
        a.is_nan() || b.is_nan() ==> !a.below(b),
        !a.is_nan() && !b.is_nan() ==> (a.below(b) <==> number(a.bits) < number(b.bits)),
        number(a.negated().bits) == -number(a.bits),
        a.negated().bits as int % 0x8000_0000_0000_0000 == a.bits as int % 0x8000_0000_0000_0000,
        a.bits <= b.bits <= 0x7ff0_0000_0000_0000 ==> !b.below(a) && (a.below(b) <==> a.bits
            != b.bits),
        0x8000_0000_0000_0000 <= a.bits <= b.bits <= 0xfff0_0000_0000_0000 ==> !a.below(b) && (
        b.below(a) <==> a.bits != b.bits),
        a.bits <= 0x7ff0_0000_0000_0000 && 0x8000_0000_0000_0000 < b.bits <= 0xfff0_0000_0000_0000
            ==> b.below(a) && !a.below(b),
        a.negated().is_nan() == a.is_nan(),
        !a.is_nan() ==> (a.rank() == 0 <==> number(a.bits) == 0),
        number(Binary64::zero().bits) == 0,
        Binary64::nan().is_nan(),
{
    let x = a.magnitude() as u64;
    let y = b.magnitude() as u64;
    assert(a.bits as int % 0x8000_0000_0000_0000 == x && b.bits as int % 0x8000_0000_0000_0000
        == y);
    assert(number(0) == 0);
    assert(number(a.bits) == if a.bits >= SIGN {
        -number(x)
    } else {
        number(x)
    });
    assert(number(b.bits) == if b.bits >= SIGN {
        -number(y)
    } else {
        number(y)
    });
    if !a.is_nan() && !b.is_nan() {
        if x < y {
            lemma_number_grows(x, y);
        }
        if y < x {
            lemma_number_grows(y, x);
        }
        if 0 < x {
            lemma_number_grows(0, x);
        }
        if 0 < y {
            lemma_number_grows(0, y);
        }
    }
    if !a.is_nan() && 0 < x {
        lemma_number_grows(0, x);
    }
}

} // verus!
