//! The two number types, by their bits, with the operations that the rest of the library needs.
use crate::ieee;
use crate::ieee::{
    add_numbers, divide_numbers, multiply_numbers, nearest_whole_number, negated, whole_number,
    Number,
};
use vstd::arithmetic::power2;
use vstd::prelude::*;

verus! {

fn rank_of(a: Number) -> (r: i128)
    ensures
        r == ieee::rank(a),
{
    if a.negative {
        -(a.code as i128)
    } else {
        a.code as i128
    }
}

/// A binary32 number, held by its bits.
#[derive(Clone, Copy, Debug, PartialEq, Eq, Structural)]
pub struct Binary32 {
    pub bits: u32,
}

impl Binary32 {
    /// The sign and the code.
    pub open spec fn number(self) -> Number {
        if self.bits >= 0x8000_0000 {
            Number { negative: true, code: (self.bits - 0x8000_0000) as u64 }
        } else {
            Number { negative: false, code: self.bits as u64 }
        }
    }

    pub open spec fn of(a: Number) -> Binary32 {
        if a.negative {
            Binary32 { bits: (a.code + 0x8000_0000) as u32 }
        } else {
            Binary32 { bits: a.code as u32 }
        }
    }

    fn split(self) -> (a: Number)
        ensures
            a == self.number(),
            a.code < 0x8000_0000,
    {
        if self.bits >= 0x8000_0000 {
            Number { negative: true, code: (self.bits - 0x8000_0000) as u64 }
        } else {
            Number { negative: false, code: self.bits as u64 }
        }
    }

    fn join(a: Number) -> (r: Binary32)
        requires
            a.code < 0x8000_0000,
        ensures
            r == Binary32::of(a),
            r.number() == a,
    {
        if a.negative {
            Binary32 { bits: a.code as u32 + 0x8000_0000 }
        } else {
            Binary32 { bits: a.code as u32 }
        }
    }

    pub open spec fn spec_times(self, other: Binary32) -> Binary32 {
        Binary32::of(ieee::product(23, self.number(), other.number()))
    }

    pub fn times(self, other: Binary32) -> (r: Binary32)
        ensures
            r == self.spec_times(other),
            r.number() == ieee::product(23, self.number(), other.number()),
    {
        proof {
            let a = self.number();
            let b = other.number();
            ieee::lemma_nearest_bounded(
                23,
                ieee::magnitude(23, a.code as nat) * ieee::magnitude(23, b.code as nat),
                power2::pow2(ieee::unit_exponent(23)),
            );
        }
        Binary32::join(multiply_numbers(23, self.split(), other.split()))
    }

    pub open spec fn spec_over(self, other: Binary32) -> Binary32 {
        Binary32::of(ieee::quotient(23, self.number(), other.number()))
    }

    pub fn over(self, other: Binary32) -> (r: Binary32)
        ensures
            r == self.spec_over(other),
            r.number() == ieee::quotient(23, self.number(), other.number()),
    {
        proof {
            let a = self.number();
            let b = other.number();
            ieee::lemma_nearest_bounded(
                23,
                ieee::magnitude(23, a.code as nat) * power2::pow2(ieee::unit_exponent(23)),
                ieee::magnitude(23, b.code as nat),
            );
        }
        Binary32::join(divide_numbers(23, self.split(), other.split()))
    }

    /// Strictly less; never so of what is not a number.
    pub open spec fn spec_less(self, other: Binary32) -> bool {
        ieee::less(23, self.number(), other.number())
    }

    pub fn less(self, other: Binary32) -> (r: bool)
        ensures
            r == self.spec_less(other),
    {
        proof {
            ieee::lemma_nearest_bounded(23, 0, 1);
        }
        let a = self.split();
        let b = other.split();
        a.code <= 0x7f80_0000 && b.code <= 0x7f80_0000 && rank_of(a) < rank_of(b)
    }

    /// The number nearest to a whole number.
    pub open spec fn spec_from_whole(n: nat) -> Binary32 {
        Binary32::of(ieee::from_whole(23, n))
    }

    pub fn from_whole(n: u64) -> (r: Binary32)
        ensures
            r == Binary32::spec_from_whole(n as nat),
            r.number() == ieee::from_whole(23, n as nat),
    {
        proof {
            ieee::lemma_nearest_bounded(23, n as nat * power2::pow2(ieee::unit_exponent(23)), 1);
        }
        Binary32::join(whole_number(23, n))
    }

    pub open spec fn spec_plus(self, other: Binary32) -> Binary32 {
        Binary32::of(ieee::sum(23, self.number(), other.number()))
    }

    pub fn plus(self, other: Binary32) -> (r: Binary32)
        ensures
            r == self.spec_plus(other),
            r.number() == ieee::sum(23, self.number(), other.number()),
    {
        proof {
            let v = ieee::value(23, self.number()) + ieee::value(23, other.number());
            ieee::lemma_nearest_bounded(23, v as nat, 1);
            ieee::lemma_nearest_bounded(23, (-v) as nat, 1);
        }
        Binary32::join(add_numbers(23, self.split(), other.split()))
    }

    pub open spec fn spec_minus(self, other: Binary32) -> Binary32 {
        Binary32::of(ieee::sum(23, self.number(), ieee::opposite(other.number())))
    }

    pub fn minus(self, other: Binary32) -> (r: Binary32)
        ensures
            r == self.spec_minus(other),
            r.number() == ieee::sum(23, self.number(), ieee::opposite(other.number())),
    {
        proof {
            let v = ieee::value(23, self.number()) + ieee::value(23, ieee::opposite(other.number()));
            ieee::lemma_nearest_bounded(23, v as nat, 1);
            ieee::lemma_nearest_bounded(23, (-v) as nat, 1);
        }
        Binary32::join(add_numbers(23, self.split(), negated(other.split())))
    }

    /// At most; never so of what is not a number.
    pub open spec fn spec_at_most(self, other: Binary32) -> bool {
        ieee::at_most(23, self.number(), other.number())
    }

    pub fn at_most(self, other: Binary32) -> (r: bool)
        ensures
            r == self.spec_at_most(other),
    {
        proof {
            ieee::lemma_nearest_bounded(23, 0, 1);
        }
        let a = self.split();
        let b = other.split();
        a.code <= 0x7f80_0000 && b.code <= 0x7f80_0000 && rank_of(a) <= rank_of(b)
    }

    /// The larger of two, or the one that is a number.
    pub open spec fn spec_max(self, other: Binary32) -> Binary32 {
        if ieee::is_nan(23, self.number()) || (!ieee::is_nan(23, other.number()) && ieee::rank(
            self.number(),
        ) < ieee::rank(other.number())) {
            other
        } else {
            self
        }
    }

    pub fn max(self, other: Binary32) -> (r: Binary32)
        ensures
            r == self.spec_max(other),
    {
        proof {
            ieee::lemma_nearest_bounded(23, 0, 1);
        }
        let a = self.split();
        let b = other.split();
        if a.code > 0x7f80_0000 || (b.code <= 0x7f80_0000 && rank_of(a) < rank_of(b)) {
            other
        } else {
            self
        }
    }

    /// The smaller of two, or the one that is a number.
    pub open spec fn spec_min(self, other: Binary32) -> Binary32 {
        if ieee::is_nan(23, self.number()) || (!ieee::is_nan(23, other.number()) && ieee::rank(
            other.number(),
        ) < ieee::rank(self.number())) {
            other
        } else {
            self
        }
    }

    pub fn min(self, other: Binary32) -> (r: Binary32)
        ensures
            r == self.spec_min(other),
    {
        proof {
            ieee::lemma_nearest_bounded(23, 0, 1);
        }
        let a = self.split();
        let b = other.split();
        if a.code > 0x7f80_0000 || (b.code <= 0x7f80_0000 && rank_of(b) < rank_of(a)) {
            other
        } else {
            self
        }
    }

    /// The number without its sign.
    pub open spec fn spec_abs(self) -> Binary32 {
        Binary32::of(Number { negative: false, code: self.number().code })
    }

    pub fn abs(self) -> (r: Binary32)
        ensures
            r == self.spec_abs(),
    {
        let a = self.split();
        Binary32::join(Number { negative: false, code: a.code })
    }

    pub open spec fn spec_is_finite(self) -> bool {
        ieee::is_finite(23, self.number())
    }

    pub fn is_finite(self) -> (r: bool)
        ensures
            r == self.spec_is_finite(),
    {
        proof {
            ieee::lemma_nearest_bounded(23, 0, 1);
        }
        self.split().code < 0x7f80_0000
    }

    /// The place in the total order of all bit patterns.
    pub open spec fn spec_order(self) -> int {
        ieee::total_rank(self.number())
    }

    pub fn order(self) -> (r: i64)
        ensures
            r == self.spec_order(),
            -0x8000_0000 <= r < 0x8000_0000,
    {
        let a = self.split();
        if a.negative {
            -1 - a.code as i64
        } else {
            a.code as i64
        }
    }

    /// The nearest whole number, halves away from zero, kept within the range of an index.
    pub open spec fn spec_to_index(self) -> int {
        if self.number().negative || ieee::is_nan(23, self.number()) {
            0
        } else if ieee::is_infinite(23, self.number()) || ieee::nearest_whole(23, self.number().code as nat)
            > usize::MAX {
            usize::MAX as int
        } else {
            ieee::nearest_whole(23, self.number().code as nat) as int
        }
    }

    pub fn to_index(self) -> (r: usize)
        ensures
            r == self.spec_to_index(),
    {
        proof {
            ieee::lemma_nearest_bounded(23, 0, 1);
        }
        let a = self.split();
        if a.negative || a.code > 0x7f80_0000 {
            return 0;
        }
        if a.code == 0x7f80_0000 {
            return usize::MAX;
        }
        let n: u64 = nearest_whole_number(23, a.code);
        if n > usize::MAX as u64 {
            usize::MAX
        } else {
            n as usize
        }
    }
}

/// A binary64 number, held by its bits.
#[derive(Clone, Copy, Debug, PartialEq, Eq, Structural)]
pub struct Binary64 {
    pub bits: u64,
}

impl Binary64 {
    /// The sign and the code.
    pub open spec fn number(self) -> Number {
        if self.bits >= 0x8000_0000_0000_0000 {
            Number { negative: true, code: (self.bits - 0x8000_0000_0000_0000) as u64 }
        } else {
            Number { negative: false, code: self.bits as u64 }
        }
    }

    pub open spec fn of(a: Number) -> Binary64 {
        if a.negative {
            Binary64 { bits: (a.code + 0x8000_0000_0000_0000) as u64 }
        } else {
            Binary64 { bits: a.code as u64 }
        }
    }

    fn split(self) -> (a: Number)
        ensures
            a == self.number(),
            a.code < 0x8000_0000_0000_0000,
    {
        if self.bits >= 0x8000_0000_0000_0000 {
            Number { negative: true, code: (self.bits - 0x8000_0000_0000_0000) as u64 }
        } else {
            Number { negative: false, code: self.bits as u64 }
        }
    }

    fn join(a: Number) -> (r: Binary64)
        requires
            a.code < 0x8000_0000_0000_0000,
        ensures
            r == Binary64::of(a),
            r.number() == a,
    {
        if a.negative {
            Binary64 { bits: a.code as u64 + 0x8000_0000_0000_0000 }
        } else {
            Binary64 { bits: a.code as u64 }
        }
    }

    pub open spec fn spec_times(self, other: Binary64) -> Binary64 {
        Binary64::of(ieee::product(52, self.number(), other.number()))
    }

    pub fn times(self, other: Binary64) -> (r: Binary64)
        ensures
            r == self.spec_times(other),
            r.number() == ieee::product(52, self.number(), other.number()),
    {
        proof {
            let a = self.number();
            let b = other.number();
            ieee::lemma_nearest_bounded(
                52,
                ieee::magnitude(52, a.code as nat) * ieee::magnitude(52, b.code as nat),
                power2::pow2(ieee::unit_exponent(52)),
            );
        }
        Binary64::join(multiply_numbers(52, self.split(), other.split()))
    }

    pub open spec fn spec_over(self, other: Binary64) -> Binary64 {
        Binary64::of(ieee::quotient(52, self.number(), other.number()))
    }

    pub fn over(self, other: Binary64) -> (r: Binary64)
        ensures
            r == self.spec_over(other),
            r.number() == ieee::quotient(52, self.number(), other.number()),
    {
        proof {
            let a = self.number();
            let b = other.number();
            ieee::lemma_nearest_bounded(
                52,
                ieee::magnitude(52, a.code as nat) * power2::pow2(ieee::unit_exponent(52)),
                ieee::magnitude(52, b.code as nat),
            );
        }
        Binary64::join(divide_numbers(52, self.split(), other.split()))
    }

    /// Strictly less; never so of what is not a number.
    pub open spec fn spec_less(self, other: Binary64) -> bool {
        ieee::less(52, self.number(), other.number())
    }

    pub fn less(self, other: Binary64) -> (r: bool)
        ensures
            r == self.spec_less(other),
    {
        proof {
            ieee::lemma_nearest_bounded(52, 0, 1);
        }
        let a = self.split();
        let b = other.split();
        a.code <= 0x7ff0_0000_0000_0000 && b.code <= 0x7ff0_0000_0000_0000 && rank_of(a) < rank_of(b)
    }

    /// At most; never so of what is not a number.
    pub open spec fn spec_at_most(self, other: Binary64) -> bool {
        ieee::at_most(52, self.number(), other.number())
    }

    pub fn at_most(self, other: Binary64) -> (r: bool)
        ensures
            r == self.spec_at_most(other),
    {
        proof {
            ieee::lemma_nearest_bounded(52, 0, 1);
        }
        let a = self.split();
        let b = other.split();
        a.code <= 0x7ff0_0000_0000_0000 && b.code <= 0x7ff0_0000_0000_0000 && rank_of(a) <= rank_of(
            b,
        )
    }

    /// The larger of two, or the one that is a number.
    pub open spec fn spec_max(self, other: Binary64) -> Binary64 {
        if ieee::is_nan(52, self.number()) || (!ieee::is_nan(52, other.number()) && ieee::rank(
            self.number(),
        ) < ieee::rank(other.number())) {
            other
        } else {
            self
        }
    }

    pub fn max(self, other: Binary64) -> (r: Binary64)
        ensures
            r == self.spec_max(other),
    {
        proof {
            ieee::lemma_nearest_bounded(52, 0, 1);
        }
        let a = self.split();
        let b = other.split();
        if a.code > 0x7ff0_0000_0000_0000 || (b.code <= 0x7ff0_0000_0000_0000 && rank_of(a)
            < rank_of(b)) {
            other
        } else {
            self
        }
    }

    /// The number nearest to a whole number.
    pub open spec fn spec_from_whole(n: nat) -> Binary64 {
        Binary64::of(ieee::from_whole(52, n))
    }

    pub fn from_whole(n: u64) -> (r: Binary64)
        ensures
            r == Binary64::spec_from_whole(n as nat),
            r.number() == ieee::from_whole(52, n as nat),
    {
        proof {
            ieee::lemma_nearest_bounded(52, n as nat * power2::pow2(ieee::unit_exponent(52)), 1);
        }
        Binary64::join(whole_number(52, n))
    }

    /// The nearest whole number, halves away from zero, kept within the range of an `i32`.
    pub open spec fn spec_to_i32(self) -> int {
        let a = self.number();
        let n = ieee::nearest_whole(52, a.code as nat);
        if ieee::is_nan(52, a) {
            0
        } else if a.negative {
            if ieee::is_infinite(52, a) || n > 0x8000_0000 {
                -0x8000_0000
            } else {
                -(n as int)
            }
        } else if ieee::is_infinite(52, a) || n > 0x7fff_ffff {
            0x7fff_ffff
        } else {
            n as int
        }
    }

    pub fn to_i32(self) -> (r: i32)
        ensures
            r == self.spec_to_i32(),
    {
        proof {
            ieee::lemma_nearest_bounded(52, 0, 1);
        }
        let a = self.split();
        if a.code > 0x7ff0_0000_0000_0000 {
            return 0;
        }
        let n: u64 = if a.code == 0x7ff0_0000_0000_0000 {
            u64::MAX
        } else {
            nearest_whole_number(52, a.code)
        };
        if a.negative {
            if n > 0x7fff_ffff {
                i32::MIN
            } else {
                -(n as i32)
            }
        } else if n > 0x7fff_ffff {
            i32::MAX
        } else {
            n as i32
        }
    }
}

/// A number is held by its bits alone: sign and code give them back.
pub proof fn bits_are_sign_and_code(a: Binary32, b: Binary64)
    ensures
        Binary32::of(a.number()) == a,
        Binary64::of(b.number()) == b,
        a.number().negative <==> a.bits >= 0x8000_0000,
        b.number().negative <==> b.bits >= 0x8000_0000_0000_0000,
{
}

/// Of two numbers the larger one is one of them and no less than either, and the smaller one is one
/// of them and no more than either; where one of two is no number, the other one is taken.
pub proof fn larger_and_smaller_are_bounds(a: Binary32, b: Binary32)
    ensures
        a.spec_max(b) == a || a.spec_max(b) == b,
        a.spec_min(b) == a || a.spec_min(b) == b,
        !ieee::is_nan(23, a.number()) && !ieee::is_nan(23, b.number()) ==> {
            &&& a.spec_at_most(a.spec_max(b)) && b.spec_at_most(a.spec_max(b))
            &&& a.spec_min(b).spec_at_most(a) && a.spec_min(b).spec_at_most(b)
        },
        ieee::is_nan(23, a.number()) ==> a.spec_max(b) == b && a.spec_min(b) == b,
        ieee::is_nan(23, b.number()) && !ieee::is_nan(23, a.number()) ==> a.spec_max(b) == a
            && a.spec_min(b) == a,
{
}

/// The same of the larger one of two longer numbers.
pub proof fn larger_is_a_bound(a: Binary64, b: Binary64)
    ensures
        a.spec_max(b) == a || a.spec_max(b) == b,
        !ieee::is_nan(52, a.number()) && !ieee::is_nan(52, b.number()) ==> a.spec_at_most(
            a.spec_max(b),
        ) && b.spec_at_most(a.spec_max(b)),
        ieee::is_nan(52, a.number()) ==> a.spec_max(b) == b,
        ieee::is_nan(52, b.number()) && !ieee::is_nan(52, a.number()) ==> a.spec_max(b) == a,
{
}

/// A number without its sign is never negative, and is the number itself where that is not.
pub proof fn signs_are_taken_away(a: Binary32)
    ensures
        !a.spec_abs().number().negative,
        a.spec_abs().number().code == a.number().code,
        !a.number().negative ==> a.spec_abs() == a,
{
}

/// Adding, taking away, multiplying and dividing are those of the format with 24 significant bits,
/// and with 53 for longer numbers.
pub proof fn operations_are_those_of_the_format(
    a: Binary32,
    b: Binary32,
    c: Binary64,
    d: Binary64,
    n: nat,
)
    ensures
        a.spec_plus(b) == Binary32::of(ieee::sum(23, a.number(), b.number())),
        a.spec_minus(b) == Binary32::of(ieee::sum(23, a.number(), ieee::opposite(b.number()))),
        a.spec_times(b) == Binary32::of(ieee::product(23, a.number(), b.number())),
        a.spec_over(b) == Binary32::of(ieee::quotient(23, a.number(), b.number())),
        a.spec_less(b) == ieee::less(23, a.number(), b.number()),
        a.spec_at_most(b) == ieee::at_most(23, a.number(), b.number()),
        Binary32::spec_from_whole(n) == Binary32::of(ieee::from_whole(23, n)),
        c.spec_times(d) == Binary64::of(ieee::product(52, c.number(), d.number())),
        c.spec_over(d) == Binary64::of(ieee::quotient(52, c.number(), d.number())),
        c.spec_less(d) == ieee::less(52, c.number(), d.number()),
        c.spec_at_most(d) == ieee::at_most(52, c.number(), d.number()),
        Binary64::spec_from_whole(n) == Binary64::of(ieee::from_whole(52, n)),
{
}

} // verus!
