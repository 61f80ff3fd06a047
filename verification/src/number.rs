//! Floating-point numbers as the reports hold them: by their bits, with the
//! order and the tests that decisions need. Arithmetic on them is the caller's.

use crate::order::Ranked;
use vstd::prelude::*;

verus! {

/// The bits of positive infinity in binary64.
pub const INFINITY: u64 = 0x7ff0_0000_0000_0000;

/// The sign bit of binary64.
pub const SIGN: u64 = 0x8000_0000_0000_0000;

/// A binary64 number, by its bits.
#[derive(Clone, Copy, Debug, PartialEq, Eq, Structural)]
pub struct Real {
    pub bits: u64,
}

/// The number zero.
#[verifier::allow_in_spec]
pub fn zero() -> Real
    returns
        (Real { bits: 0 }),
{
    Real { bits: 0 }
}

impl Real {
    /// The number without its sign.
    pub open spec fn magnitude(self) -> int {
        if self.bits >= SIGN {
            self.bits - SIGN
        } else {
            self.bits as int
        }
    }

    /// The place of the number in the total order of binary64: the negative
    /// ones by falling magnitude, then the others by rising magnitude.
    pub open spec fn place(self) -> int {
        if self.bits >= SIGN {
            -1 - self.magnitude()
        } else {
            self.magnitude()
        }
    }

    /// Whether the number is above zero; one that is not a number is not.
    pub open spec fn is_positive(self) -> bool {
        0 < self.bits <= INFINITY
    }

    /// Whether the number is neither infinite nor not a number.
    pub open spec fn is_finite(self) -> bool {
        self.magnitude() < INFINITY
    }

    /// `is_positive`, computed.
    pub fn positive(self) -> (r: bool)
        ensures
            r == self.is_positive(),
    {
        0 < self.bits && self.bits <= INFINITY
    }

    /// `is_finite`, computed.
    pub fn finite(self) -> (r: bool)
        ensures
            r == self.is_finite(),
    {
        let m: u64 = if self.bits >= SIGN {
            self.bits - SIGN
        } else {
            self.bits
        };
        m < INFINITY
    }
}

impl Ranked for Real {
    open spec fn precedes(&self, other: &Self) -> bool {
        self.place() <= other.place()
    }

    proof fn total(a: &Self, b: &Self) {
    }

    proof fn transitive(a: &Self, b: &Self, c: &Self) {
    }

    fn at_most(&self, other: &Self) -> (r: bool) {
        if self.bits >= SIGN {
            other.bits < SIGN || other.bits <= self.bits
        } else {
            other.bits < SIGN && self.bits <= other.bits
        }
    }
}

/// Two numbers in the same place are the same number.
pub proof fn law_places_are_distinct(a: Real, b: Real)
    requires
        a.place() == b.place(),
    ensures
        a == b,
{
}

/// A number is finite exactly where its exponent is not the largest there is, and
/// positive exactly where it has no sign, is not zero, and is a number: where the
/// exponent is the largest, only infinity is.
pub proof fn law_bits_of_a_number(a: Real, positive: bool, finite: bool)
    requires
        call_ensures(Real::positive, (a,), positive),
        call_ensures(Real::finite, (a,), finite),
    ensures
        ({
            let negative = a.bits >> 63 == 1;
            let exponent = (a.bits >> 52) & 0x7ff;
            let fraction = a.bits & 0xf_ffff_ffff_ffff;
            &&& finite <==> exponent != 0x7ff
            &&& positive <==> !negative && a.bits != 0 && (exponent != 0x7ff || fraction == 0)
        }),
{
    let b = a.bits;
    assert((b & 0x7fff_ffff_ffff_ffff < 0x7ff0_0000_0000_0000) == ((b >> 52) & 0x7ff != 0x7ff))
        by (bit_vector);
    assert(b >= 0x8000_0000_0000_0000 ==> b & 0x7fff_ffff_ffff_ffff == b - 0x8000_0000_0000_0000)
        by (bit_vector);
    assert(b < 0x8000_0000_0000_0000 ==> b & 0x7fff_ffff_ffff_ffff == b) by (bit_vector);
    assert((b <= 0x7ff0_0000_0000_0000) == (b >> 63 != 1 && ((b >> 52) & 0x7ff != 0x7ff || b
        & 0xf_ffff_ffff_ffff == 0))) by (bit_vector);
}

/// Numbers without a sign are ordered as their bits are, those with one the other way
/// round, and each of those stands before each of the others.
pub proof fn law_order_of_numbers(a: Real, b: Real, r: bool)
    requires
        call_ensures(<Real as Ranked>::at_most, (&a, &b), r),
    ensures
        a.bits >> 63 == 0 && b.bits >> 63 == 0 ==> (r <==> a.bits <= b.bits),
        a.bits >> 63 == 1 && b.bits >> 63 == 1 ==> (r <==> b.bits <= a.bits),
        a.bits >> 63 == 1 && b.bits >> 63 == 0 ==> r,
        a.bits >> 63 == 0 && b.bits >> 63 == 1 ==> !r,
{
    let (x, y) = (a.bits, b.bits);
    assert((x >> 63 == 1) == (x >= 0x8000_0000_0000_0000)) by (bit_vector);
    assert((y >> 63 == 1) == (y >= 0x8000_0000_0000_0000)) by (bit_vector);
    assert((x >> 63 == 0) == (x < 0x8000_0000_0000_0000)) by (bit_vector);
    assert((y >> 63 == 0) == (y < 0x8000_0000_0000_0000)) by (bit_vector);
}

}
