//! Floating-point numbers carried as their bit patterns.
//!
//! Scores, boxes and normalization constants pass through the library; what it
//! decides about them is their order and their rounding to pixels.

use crate::precision;
use crate::precision::{denom, numer};
use crate::rounding;
use crate::rounding::{Bin, Binary, SINGLE};
use vstd::arithmetic::power2::*;
use vstd::prelude::*;

verus! {

/// A single-precision number, by its IEEE 754 bit pattern.
#[derive(Clone, Copy, Debug, PartialEq, Eq, Structural)]
pub struct F32 {
    pub bits: u32,
}

impl F32 {
    pub open spec fn is_negative(self) -> bool {
        self.bits >= 0x8000_0000
    }

    /// Bits below the sign bit.
    pub open spec fn magnitude(self) -> u32 {
        if self.is_negative() {
            (self.bits - 0x8000_0000) as u32
        } else {
            self.bits
        }
    }

    /// Whether the pattern is a number or an infinity.
    pub open spec fn is_number(self) -> bool {
        self.magnitude() <= 0x7f80_0000
    }

    /// An integer that orders numbers as their values do; both zeros are 0.
    pub open spec fn rank(self) -> int {
        if self.is_negative() {
            -(self.magnitude() as int)
        } else {
            self.magnitude() as int
        }
    }

    /// `self < other` as numbers compare: never where either is not a number.
    pub open spec fn below(self, other: F32) -> bool {
        self.is_number() && other.is_number() && self.rank() < other.rank()
    }

    /// Absolute value as a significand and a power of two. An infinity is
    /// `2^128`, beyond every number.
    pub open spec fn size(self) -> Bin {
        let field = self.magnitude() / 0x80_0000;
        let fraction = self.magnitude() % 0x80_0000;
        if field == 0 {
            Bin { m: fraction as nat, e: -149 }
        } else {
            Bin { m: (fraction + 0x80_0000) as nat, e: field - 150 }
        }
    }

    pub(crate) fn rank_of(self) -> (rank: i64)
        ensures
            rank == self.rank(),
    {
        if self.bits < 0x8000_0000 {
            self.bits as i64
        } else {
            0x8000_0000i64 - self.bits as i64
        }
    }

    pub fn number(self) -> (number: bool)
        ensures
            number == self.is_number(),
    {
        if self.bits < 0x8000_0000 {
            self.bits <= 0x7f80_0000
        } else {
            self.bits - 0x8000_0000 <= 0x7f80_0000
        }
    }

    /// Whether `self < other`.
    pub fn is_below(self, other: F32) -> (below: bool)
        ensures
            below == self.below(other),
    {
        self.number() && other.number() && self.rank_of() < other.rank_of()
    }

    fn size_of(self) -> (size: Binary)
        ensures
            size@ == self.size(),
            rounding::moderate(size),
    {
        let magnitude: u32 = if self.bits < 0x8000_0000 {
            self.bits
        } else {
            self.bits - 0x8000_0000
        };
        let field: u32 = magnitude / 0x80_0000;
        let fraction: u32 = magnitude % 0x80_0000;
        if field == 0 {
            Binary { significand: fraction as u64, exponent: -149 }
        } else {
            Binary { significand: (fraction + 0x80_0000) as u64, exponent: field as i32 - 150 }
        }
    }

    /// Integer part of the absolute value; 0 for what is not a number.
    pub open spec fn whole(self) -> nat {
        if self.is_number() {
            rounding::floor(self.size())
        } else {
            0
        }
    }

    /// The integer that the number is cut to, as far as 32 bits hold it.
    pub open spec fn truncated(self) -> i32 {
        let whole = rounding::capped(self.whole());
        if self.is_negative() {
            if whole <= 0x8000_0000 {
                (-(whole as int)) as i32
            } else {
                i32::MIN
            }
        } else if whole <= 0x7fff_ffff {
            whole as i32
        } else {
            i32::MAX
        }
    }

    pub fn truncate(self) -> (n: i32)
        ensures
            n == self.truncated(),
    {
        if !self.number() {
            return 0;
        }
        let whole: u64 = rounding::floor_of(self.size_of());
        if self.bits >= 0x8000_0000 {
            if whole <= 0x8000_0000 {
                (-(whole as i64)) as i32
            } else {
                i32::MIN
            }
        } else if whole <= 0x7fff_ffff {
            whole as i32
        } else {
            i32::MAX
        }
    }

    /// Greatest integer not above a non-negative number; 0 for every other
    /// pattern.
    pub open spec fn floor(self) -> nat {
        if self.is_number() && !self.is_negative() {
            rounding::floor(self.size())
        } else {
            0
        }
    }

    /// Least integer not below a non-negative number; 0 for every other pattern.
    pub open spec fn ceiling(self) -> nat {
        if self.is_number() && !self.is_negative() {
            rounding::ceiling(self.size())
        } else {
            0
        }
    }

    /// Integer nearest to a non-negative number, halves up; 0 for every other
    /// pattern.
    pub open spec fn nearest_integer(self) -> nat {
        if self.is_number() && !self.is_negative() {
            rounding::half_up(self.size())
        } else {
            0
        }
    }

    pub(crate) fn floor_of(self) -> (n: u64)
        ensures
            n == rounding::capped(self.floor()),
    {
        if self.number() && self.bits < 0x8000_0000 {
            rounding::floor_of(self.size_of())
        } else {
            0
        }
    }

    pub(crate) fn ceiling_of(self) -> (n: u64)
        ensures
            n == rounding::capped(self.ceiling()),
    {
        if self.number() && self.bits < 0x8000_0000 {
            rounding::ceiling_of(self.size_of())
        } else {
            0
        }
    }

    pub(crate) fn nearest_of(self) -> (n: u64)
        ensures
            n == rounding::capped(self.nearest_integer()),
    {
        if self.number() && self.bits < 0x8000_0000 {
            rounding::half_up_of(self.size_of())
        } else {
            0
        }
    }

    /// The number of a significand of at most 24 bits and its exponent.
    pub open spec fn packed(x: Bin) -> F32 {
        if x.m == 0 {
            F32 { bits: 0 }
        } else {
            F32 { bits: ((x.e + 149) * 0x80_0000 + x.m) as u32 }
        }
    }

    fn from_binary(x: Binary) -> (n: F32)
        requires
            x.significand == 0 || (rounding::is_single(x@.m) && -149 <= x.exponent <= 100),
        ensures
            n == F32::packed(x@),
            n.is_number(),
            !n.is_negative(),
    {
        if x.significand == 0 {
            return F32 { bits: 0 };
        }
        F32 { bits: (x.exponent + 149) as u32 * 0x80_0000 + x.significand as u32 }
    }

    /// The single-precision number nearest to an integer.
    pub open spec fn of_integer(n: u32) -> F32 {
        F32::packed(rounding::nearest(n as nat, 1, 24))
    }

    pub fn from_integer(n: u32) -> (x: F32)
        ensures
            x == F32::of_integer(n),
            x.is_number(),
            !x.is_negative(),
    {
        let x = rounding::from_integer(n as u64, SINGLE);
        proof {
            if n > 0 {
                rounding::lemma_single_exponent(n as nat);
            }
        }
        F32::from_binary(x)
    }

    /// `value / 1000 * extent`, each step rounded to single precision.
    pub open spec fn thousandths(value: u32, extent: u32) -> F32 {
        if value == 0 || extent == 0 {
            F32 { bits: 0 }
        } else {
            let part = rounding::quotient(
                rounding::nearest(value as nat, 1, 24),
                rounding::nearest(1000, 1, 24),
                24,
            );
            F32::packed(rounding::product(part, rounding::nearest(extent as nat, 1, 24), 24))
        }
    }

    /// `self` is `2 * other`.
    pub open spec fn is_double_of(self, other: F32) -> bool {
        &&& self.is_negative() == other.is_negative()
        &&& self.magnitude() < 0x7f80_0000
        &&& self.size().m == other.size().m
        &&& self.size().m == 0 || self.size().e == other.size().e + 1
    }

    /// A fraction of a doubled extent is the double of that fraction.
    pub proof fn law_thousandths_double(value: u32, extent: u32)
        requires
            2 * extent <= u32::MAX,
        ensures
            F32::thousandths(value, (2 * extent) as u32).is_double_of(
                F32::thousandths(value, extent),
            ),
    {
        if value != 0 && extent != 0 {
            let whole = rounding::nearest(1000, 1, 24);
            let top = rounding::nearest(value as nat, 1, 24);
            let part = rounding::quotient(top, whole, 24);
            let length = rounding::nearest(extent as nat, 1, 24);
            rounding::lemma_single_exponent(1000);
            rounding::lemma_single_exponent(value as nat);
            rounding::lemma_single_exponent(extent as nat);
            rounding::lemma_single_quotient(top, whole);
            rounding::lemma_single_product(part, length);
            rounding::lemma_product_doubles(part, extent as nat, 24);
            let x = rounding::product(part, length, 24);
            let y = rounding::shifted(x, 1);
            assert(F32::thousandths(value, extent) == F32::packed(x));
            assert(F32::thousandths(value, (2 * extent) as u32) == F32::packed(y));
            F32::lemma_packed_size(x);
            F32::lemma_packed_size(y);
        }
    }

    proof fn lemma_packed_size(x: Bin)
        requires
            rounding::is_single(x.m),
            -149 <= x.e <= 100,
        ensures
            !F32::packed(x).is_negative(),
            F32::packed(x).magnitude() < 0x7f80_0000,
            F32::packed(x).size() == if x.m == 0x100_0000 {
                (Bin { m: 0x80_0000, e: x.e + 1 })
            } else {
                x
            },
    {
        let bits = (x.e + 149) * 0x80_0000 + x.m;
        assert(F32::packed(x).bits == bits);
        if x.m == 0x100_0000 {
            assert(bits == (x.e + 151) * 0x80_0000);
        } else {
            assert(bits == (x.e + 150) * 0x80_0000 + (x.m - 0x80_0000));
        }
    }

    /// The floor of a number that is not negative is not above it and the next integer is,
    /// its ceiling is not below it and the integer before is, and the integer nearest to it
    /// is within half of it, the greater one of two.
    pub proof fn law_numbers_lie_between_integers(self)
        requires
            self.is_number(),
            !self.is_negative(),
        ensures
            self.floor() * denom(self.size()) <= numer(self.size()) < (self.floor() + 1) * denom(
                self.size(),
            ),
            (self.ceiling() - 1) * denom(self.size()) < numer(self.size()) <= self.ceiling()
                * denom(self.size()),
            (2 * self.nearest_integer() - 1) * denom(self.size()) <= 2 * numer(self.size()) < (2
                * self.nearest_integer() + 1) * denom(self.size()),
    {
        rounding::law_floors_are_below(self.size());
        rounding::law_ceilings_are_above(self.size());
        rounding::law_halves_go_up(self.size());
    }

    /// A number is cut towards zero, to the whole part of its size under its sign, as far as
    /// 32 bits hold it; what is not a number is cut to zero.
    pub proof fn law_numbers_are_cut_towards_zero(self)
        ensures
            !self.is_number() ==> self.truncated() == 0,
            self.is_number() ==> self.whole() * denom(self.size()) <= numer(self.size()) < (
            self.whole() + 1) * denom(self.size()),
            !self.is_negative() && self.whole() <= i32::MAX ==> self.truncated() == self.whole(),
            !self.is_negative() && self.whole() > i32::MAX ==> self.truncated() == i32::MAX,
            self.is_negative() && self.whole() <= i32::MAX ==> self.truncated() == -self.whole(),
            self.is_negative() && self.whole() > i32::MAX ==> self.truncated() == i32::MIN,
    {
        rounding::law_floors_are_below(self.size());
    }

    /// Numbers compare as their sizes do: of two that are not negative the one below has
    /// the smaller size, negative ones are below all others but zero, and nothing that is
    /// not a number is below or above anything.
    pub proof fn law_negative_numbers_are_below(self, other: F32)
        ensures
            self.below(other) ==> self.is_number() && other.is_number() && !other.below(self),
            self.is_number() && other.is_number() && self.is_negative() && !other.is_negative()
                && self.magnitude() > 0 ==> self.below(other),
            self.is_number() && other.is_number() && !self.is_negative() && !other.is_negative()
                ==> (self.below(other) <==> self.bits < other.bits),
            self.is_number() && other.is_number() && self.is_negative() && other.is_negative()
                ==> (self.below(other) <==> self.bits > other.bits),
            !self.is_number() || !other.is_number() ==> !self.below(other),
    {
    }

    /// A number of thousandths of an extent is that part of it, exact but for one part in
    /// two million; nothing of an extent is zero.
    pub proof fn law_thousandths_are_parts_of_a_thousand(value: u32, extent: u32)
        ensures
            value == 0 || extent == 0 ==> F32::thousandths(value, extent).bits == 0,
            value > 0 && extent > 0 ==> {
                let x = F32::thousandths(value, extent);
                &&& !x.is_negative()
                &&& x.magnitude() < 0x7f80_0000
                &&& 0x1f_ffff * (value * extent * denom(x.size())) <= 0x20_0000 * (1000 * numer(
                    x.size(),
                ))
                &&& 0x20_0000 * (1000 * numer(x.size())) <= 0x20_0001 * (value * extent * denom(
                    x.size(),
                ))
            },
    {
        if value > 0 && extent > 0 {
            let whole = rounding::nearest(1000, 1, 24);
            let top = rounding::nearest(value as nat, 1, 24);
            let part = rounding::quotient(top, whole, 24);
            let length = rounding::nearest(extent as nat, 1, 24);
            rounding::lemma_single_exponent(1000);
            rounding::lemma_single_exponent(value as nat);
            rounding::lemma_single_exponent(extent as nat);
            rounding::lemma_single_quotient(top, whole);
            rounding::lemma_single_product(part, length);
            let z = rounding::product(part, length, 24);
            assert(F32::thousandths(value, extent) == F32::packed(z));
            F32::lemma_packed_size(z);
            precision::lemma_single_fraction(value as nat, 1000, extent as nat);
            let x = F32::packed(z).size();
            if z.m == 0x100_0000 {
                F32::lemma_halved(z, x);
                let d = denom(x);
                let product = value * extent;
                if z.e < 0 {
                    assert(value * extent * (2 * d) == 2 * (value * extent * d))
                        by (nonlinear_arith);
                }
            }
        }
    }

    /// An integer becomes a number that is exact but for one part in `2^24`.
    #[verifier::rlimit(40)]
    pub proof fn law_integers_keep_their_size(n: u32)
        ensures
            n == 0 ==> F32::of_integer(n).bits == 0,
            n > 0 ==> {
                let x = F32::of_integer(n);
                &&& !x.is_negative()
                &&& x.magnitude() < 0x7f80_0000
                &&& 0xff_ffff * (n * denom(x.size())) <= 0x100_0000 * numer(x.size())
                &&& 0x100_0000 * numer(x.size()) <= 0x100_0001 * (n * denom(x.size()))
            },
    {
        lemma2_to64();
        if n > 0 {
            let z = rounding::nearest(n as nat, 1, 24);
            rounding::lemma_single_exponent(n as nat);
            F32::lemma_packed_size(z);
            precision::lemma_integer_error(n as nat, 24);
            let x = F32::packed(z).size();
            let k: int = 0x100_0000;
            let dz = denom(z);
            assert((k - 1) * n * dz == (k - 1) * (n * dz) && (k + 1) * n * dz == (k + 1) * (n * dz))
                by (nonlinear_arith);
            if z.m == 0x100_0000 {
                F32::lemma_halved(z, x);
                if z.e < 0 {
                    let d = denom(x);
                    assert(n * (2 * d) == 2 * (n * d)) by (nonlinear_arith);
                }
            }
        }
    }

    proof fn lemma_halved(z: Bin, x: Bin)
        requires
            z.m == 0x100_0000,
            x.m == 0x80_0000,
            x.e == z.e + 1,
        ensures
            z.e >= 0 ==> numer(z) == numer(x) && denom(z) == denom(x),
            z.e < 0 ==> numer(z) == 2 * numer(x) && denom(z) == 2 * denom(x),
    {
        if z.e >= 0 {
            lemma_pow2_unfold((z.e + 1) as nat);
            assert(rounding::up(x.e) == (z.e + 1) as nat && rounding::up(z.e) == z.e as nat);
        } else {
            lemma_pow2_unfold((-z.e) as nat);
            lemma2_to64();
            assert(rounding::down(x.e) == (-z.e - 1) as nat && rounding::down(z.e)
                == (-z.e) as nat);
            assert(rounding::up(x.e) == 0 && rounding::up(z.e) == 0);
        }
    }

    /// `value` thousandths of `extent`.
    pub fn of_thousandths(value: u32, extent: u32) -> (x: F32)
        ensures
            x == F32::thousandths(value, extent),
    {
        if value == 0 || extent == 0 {
            return F32 { bits: 0 };
        }
        let whole = rounding::from_integer(1000, SINGLE);
        let part = rounding::from_integer(value as u64, SINGLE);
        let length = rounding::from_integer(extent as u64, SINGLE);
        proof {
            rounding::lemma_single_exponent(1000);
            rounding::lemma_single_exponent(value as nat);
            rounding::lemma_single_exponent(extent as nat);
            rounding::lemma_single_quotient(part@, whole@);
        }
        let ratio = rounding::divide(part, whole, SINGLE);
        proof {
            rounding::lemma_single_product(ratio@, length@);
        }
        F32::from_binary(rounding::multiply(ratio, length, SINGLE))
    }
}

/// A double-precision number, by its IEEE 754 bit pattern.
#[derive(Clone, Copy, Debug, PartialEq, Eq, Structural)]
pub struct F64 {
    pub bits: u64,
}

impl F64 {
    pub open spec fn magnitude(self) -> u64 {
        if self.bits >= 0x8000_0000_0000_0000 {
            (self.bits - 0x8000_0000_0000_0000) as u64
        } else {
            self.bits
        }
    }

    /// Whether the pattern is a number or an infinity.
    pub open spec fn is_number(self) -> bool {
        self.magnitude() <= 0x7ff0_0000_0000_0000
    }

    /// An integer that orders numbers as their values do; both zeros are 0.
    pub open spec fn rank(self) -> int {
        if self.bits >= 0x8000_0000_0000_0000 {
            -(self.magnitude() as int)
        } else {
            self.magnitude() as int
        }
    }

    pub(crate) fn rank_of(self) -> (rank: i64)
        ensures
            rank == self.rank(),
    {
        if self.bits < 0x8000_0000_0000_0000 {
            self.bits as i64
        } else {
            -((self.bits - 0x8000_0000_0000_0000) as i64)
        }
    }
}

} // verus!
