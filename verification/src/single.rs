//! Single-precision numbers by their bit patterns.

use vstd::prelude::*;

verus! {

/// Bit pattern of one.
pub const ONE: u32 = 0x3f80_0000;

/// Bit pattern of minus one.
pub const MINUS_ONE: u32 = 0xbf80_0000;

/// Bit pattern of one hundred.
pub const HUNDRED: u32 = 0x42c8_0000;

/// Bit pattern of positive infinity.
pub const INFINITY: u32 = 0x7f80_0000;

/// Bit pattern of the lowest finite number.
pub const LOWEST: u32 = 0xff7f_ffff;

/// Patterns from here on have their sign bit set.
pub const SIGN: u32 = 0x8000_0000;

/// An IEEE 754 single-precision number, held as its bit pattern.
///
/// The type orders numbers; arithmetic on them is left to [`Arithmetic`](crate::engine::Arithmetic).
#[derive(Clone, Copy, PartialEq, Eq, Structural, Debug, Hash)]
pub struct Single {
    pub bits: u32,
}

impl Single {
    /// The pattern without its sign bit.
    pub open spec fn magnitude(self) -> int {
        if self.bits < SIGN {
            self.bits as int
        } else {
            self.bits - SIGN
        }
    }

    /// The pattern stands for no number.
    pub open spec fn is_nan(self) -> bool {
        self.magnitude() > INFINITY
    }

    /// Position of the number among all numbers; both zeros are at position zero.
    pub open spec fn rank(self) -> int {
        if self.bits < SIGN {
            self.magnitude()
        } else {
            -self.magnitude()
        }
    }

    /// Position of the pattern among all patterns, in the total order of IEEE 754: negative zero
    /// comes before positive zero, and the patterns that stand for no number come at the ends.
    pub open spec fn total_rank(self) -> int {
        if self.bits < SIGN {
            self.magnitude()
        } else {
            -1 - self.magnitude()
        }
    }

    /// Both are numbers, and this one is greater.
    pub open spec fn is_greater(self, other: Single) -> bool {
        !self.is_nan() && !other.is_nan() && self.rank() > other.rank()
    }

    /// Both are numbers, and this one is not less.
    pub open spec fn is_at_least(self, other: Single) -> bool {
        !self.is_nan() && !other.is_nan() && self.rank() >= other.rank()
    }

    /// Both are numbers, and they are equal.
    pub open spec fn is_equal(self, other: Single) -> bool {
        !self.is_nan() && !other.is_nan() && self.rank() == other.rank()
    }

    /// The number, or zero where it is negative or no number.
    pub open spec fn or_zero(self) -> Single {
        if self.is_greater(Single { bits: 0 }) {
            self
        } else {
            Single { bits: 0 }
        }
    }

    /// The total order puts numbers in the order of their values.
    pub proof fn total_order_agrees(self, other: Single)
        ensures
            self.is_greater(other) ==> self.total_rank() > other.total_rank(),
            self.total_rank() == other.total_rank() ==> self == other,
    {
    }

    /// What a number without its sign amounts to, in units of the least positive number: below the
    /// 24th binary place as it stands, and from there on with a leading one that is not written, as
    /// often doubled as the exponent says. Infinity amounts to what the number after the greatest
    /// would.
    pub open spec fn amount(magnitude: int) -> int {
        let (exponent, fraction) = (magnitude / 0x80_0000, magnitude % 0x80_0000);
        if exponent == 0 {
            fraction
        } else {
            (0x80_0000 + fraction) * vstd::arithmetic::power2::pow2((exponent - 1) as nat)
        }
    }

    /// What a number amounts to, in units of the least positive number.
    pub open spec fn value(self) -> int {
        if self.bits < 0x8000_0000 {
            Self::amount(self.bits as int)
        } else {
            -Self::amount(self.bits - 0x8000_0000)
        }
    }

    /// Greater patterns amount to more.
    proof fn amounts_ascend(x: int, y: int)
        requires
            0 <= x < y,
        ensures
            0 <= Self::amount(x) < Self::amount(y),
    {
        let (e, m) = (x / 0x80_0000, x % 0x80_0000);
        let (f, n) = (y / 0x80_0000, y % 0x80_0000);
        assert(e <= f);
        if f > 0 {
            let b = vstd::arithmetic::power2::pow2((f - 1) as nat) as int;
            vstd::arithmetic::power2::lemma_pow2_pos((f - 1) as nat);
            assert((0x80_0000 + n) * b >= 0x80_0000 + n) by (nonlinear_arith)
                requires
                    1 <= b,
                    0 <= n,
            ;
            if e > 0 {
                let a = vstd::arithmetic::power2::pow2((e - 1) as nat) as int;
                vstd::arithmetic::power2::lemma_pow2_pos((e - 1) as nat);
                assert((0x80_0000 + m) * a >= 0) by (nonlinear_arith)
                    requires
                        1 <= a,
                        0 <= m,
                ;
                if e == f {
                    assert((0x80_0000 + m) * a < (0x80_0000 + n) * a) by (nonlinear_arith)
                        requires
                            1 <= a,
                            m < n,
                    ;
                } else {
                    vstd::arithmetic::power2::lemma_pow2_unfold(e as nat);
                    if e < f - 1 {
                        vstd::arithmetic::power2::lemma_pow2_strictly_increases(
                            e as nat,
                            (f - 1) as nat,
                        );
                    }
                    assert(2 * a <= b);
                    assert((0x80_0000 + m) * a < (0x80_0000 + n) * b) by (nonlinear_arith)
                        requires
                            1 <= a,
                            2 * a <= b,
                            0 <= m < 0x80_0000,
                            0 <= n,
                    ;
                }
            }
        }
    }

    /// A pattern stands for no number where its exponent is greatest and its fraction is not zero.
    /// All others are compared by what they amount to; both zeros are equal.
    pub proof fn numbers_compare_by_value(self, other: Single)
        ensures
            self.is_nan() <==> (self.bits % 0x8000_0000) / 0x80_0000 == 255 && self.bits % 0x80_0000
                != 0,
            self.is_greater(other) <==> !self.is_nan() && !other.is_nan() && self.value()
                > other.value(),
            self.is_at_least(other) <==> !self.is_nan() && !other.is_nan() && self.value()
                >= other.value(),
            self.is_equal(other) <==> !self.is_nan() && !other.is_nan() && self.value()
                == other.value(),
            self.or_zero().value() == (if !self.is_nan() && self.value() > 0 {
                self.value()
            } else {
                0
            }),
    {
        let zero = Single { bits: 0 };
        let (x, y) = (self.magnitude(), other.magnitude());
        assert(Self::amount(0) == 0);
        if x < y {
            Self::amounts_ascend(x, y);
        } else if y < x {
            Self::amounts_ascend(y, x);
        }
        if 0 < x {
            Self::amounts_ascend(0, x);
        }
        if 0 < y {
            Self::amounts_ascend(0, y);
        }
    }

    /// Whether both are numbers and this one is greater.
    pub fn greater(self, other: Single) -> (r: bool)
        ensures
            r == self.is_greater(other),
    {
        let (a, b) = (self.position(), other.position());
        match (a, b) {
            (Some(x), Some(y)) => x > y,
            _ => false,
        }
    }

    /// Whether both are numbers and this one is not less.
    pub fn at_least(self, other: Single) -> (r: bool)
        ensures
            r == self.is_at_least(other),
    {
        let (a, b) = (self.position(), other.position());
        match (a, b) {
            (Some(x), Some(y)) => x >= y,
            _ => false,
        }
    }

    /// Whether both are numbers and they are equal.
    pub fn equals(self, other: Single) -> (r: bool)
        ensures
            r == self.is_equal(other),
    {
        let (a, b) = (self.position(), other.position());
        match (a, b) {
            (Some(x), Some(y)) => x == y,
            _ => false,
        }
    }

    /// The number, or zero where it is negative or no number.
    pub fn clamped(self) -> (r: Single)
        ensures
            r == self.or_zero(),
    {
        if self.greater(Single { bits: 0 }) {
            self
        } else {
            Single { bits: 0 }
        }
    }

    /// Position among all numbers.
    fn position(self) -> (r: Option<i64>)
        ensures
            r is Some <==> !self.is_nan(),
            r matches Some(p) ==> p == self.rank(),
    {
        let magnitude: u32 = if self.bits < SIGN {
            self.bits
        } else {
            self.bits - SIGN
        };
        if magnitude > INFINITY {
            None
        } else if self.bits < SIGN {
            Some(magnitude as i64)
        } else {
            Some(-(magnitude as i64))
        }
    }

    /// Position in the total order of IEEE 754.
    pub fn total_position(self) -> (r: i64)
        ensures
            r == self.total_rank(),
    {
        if self.bits < SIGN {
            self.bits as i64
        } else {
            -1 - (self.bits - SIGN) as i64
        }
    }
}

} // verus!
