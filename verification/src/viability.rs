//! Viability scores.
//!
//! A viability is a single-precision number. It is held by its IEEE 754 bit pattern: that is
//! what travels on the wire, and it is enough to compare two scores exactly as numbers.

use vstd::prelude::*;

verus! {

/// The bit that holds the sign of a single-precision number.
pub const SIGN_BIT: u32 = 0x8000_0000;

/// The bit pattern of positive infinity; a larger magnitude is not a number.
pub const INFINITY_BITS: u32 = 0x7f80_0000;

/// The score of an entry, by the bit pattern of the single-precision number that it is.
#[derive(Clone, Copy, Debug)]
pub struct Viability {
    pub bits: u32,
}

impl Viability {
    /// The bits below the sign.
    pub open spec fn magnitude(self) -> int {
        (self.bits % SIGN_BIT) as int
    }

    /// Whether the pattern stands for no number at all.
    pub open spec fn nan(self) -> bool {
        self.magnitude() > INFINITY_BITS
    }

    /// The position of a number among all numbers: patterns compare as numbers exactly when
    /// their ranks compare as integers. Both zeros have rank 0.
    pub open spec fn rank(self) -> int {
        if self.bits >= SIGN_BIT {
            -self.magnitude()
        } else {
            self.magnitude()
        }
    }

    /// `self < other` as numbers; false where either is not a number.
    pub open spec fn below(self, other: Viability) -> bool {
        !self.nan() && !other.nan() && self.rank() < other.rank()
    }

    /// `self == other` as numbers; false where either is not a number.
    pub open spec fn same(self, other: Viability) -> bool {
        !self.nan() && !other.nan() && self.rank() == other.rank()
    }

    /// The largest finite score.
    pub open spec fn spec_max() -> Viability {
        Viability { bits: 0x7f7f_ffff }
    }

    /// The score 0.5, which a newly minted entry gets.
    pub open spec fn spec_half() -> Viability {
        Viability { bits: 0x3f00_0000 }
    }

    /// The score that the bit pattern stands for.
    pub fn from_bits(bits: u32) -> (r: Viability)
        ensures
            r.bits == bits,
    {
        Viability { bits }
    }

    /// The bit pattern of the score.
    pub fn to_bits(&self) -> (r: u32)
        ensures
            r == self.bits,
    {
        self.bits
    }

    /// The largest finite score.
    pub fn max_finite() -> (r: Viability)
        ensures
            r == Viability::spec_max(),
    {
        Viability { bits: 0x7f7f_ffff }
    }

    /// The score 0.5.
    pub fn half() -> (r: Viability)
        ensures
            r == Viability::spec_half(),
    {
        Viability { bits: 0x3f00_0000 }
    }

    /// Whether the pattern stands for no number.
    pub fn is_nan(&self) -> (r: bool)
        ensures
            r == self.nan(),
    {
        self.bits % SIGN_BIT > INFINITY_BITS
    }

    /// Whether this score is lower than the other. A pattern that is not a number is neither
    /// lower nor higher than anything.
    pub fn less_than(&self, other: &Viability) -> (r: bool)
        ensures
            r == self.below(*other),
    {
        if self.is_nan() || other.is_nan() {
            return false;
        }
        let mine: u32 = self.bits % SIGN_BIT;
        let theirs: u32 = other.bits % SIGN_BIT;
        if self.bits >= SIGN_BIT {
            if other.bits >= SIGN_BIT {
                mine > theirs
            } else {
                mine > 0 || theirs > 0
            }
        } else if other.bits >= SIGN_BIT {
            false
        } else {
            mine < theirs
        }
    }
}

/// Equality of numbers: the two zeros are equal, and what is not a number equals nothing.
impl PartialEq for Viability {
    fn eq(&self, other: &Viability) -> (r: bool) {
        let mine: u32 = self.bits % SIGN_BIT;
        let theirs: u32 = other.bits % SIGN_BIT;
        !self.is_nan() && !other.is_nan() && mine == theirs && ((self.bits >= SIGN_BIT) == (
        other.bits >= SIGN_BIT) || mine == 0)
    }
}

impl vstd::std_specs::cmp::PartialEqSpecImpl for Viability {
    open spec fn obeys_eq_spec() -> bool {
        true
    }

    open spec fn eq_spec(&self, other: &Viability) -> bool {
        self.same(*other)
    }
}

/// Scores are ordered: nothing is below itself, and being below is transitive. Any two
/// patterns that are numbers are below, equal to, or above one another.
pub proof fn viability_is_ordered(a: Viability, b: Viability, c: Viability)
    ensures
        !a.below(a),
        a.below(b) && b.below(c) ==> a.below(c),
        !a.nan() && !b.nan() ==> a.below(b) || a.same(b) || b.below(a),
        a.same(b) ==> !a.below(b) && !b.below(a),
{
}

/// The order of scores is the order of the IEEE 754 numbers, read off the bit patterns. What
/// lies above the pattern of infinity, sign aside, is no number, and neither below nor above
/// anything. Without sign bits the larger pattern is the larger number, with both sign bits the
/// smaller one is, and a negative number other than zero is below all that have no sign bit.
pub proof fn order_is_numeric(a: Viability, b: Viability)
    ensures
        a.below(b) <==> {
            let a_nan = 0x7f80_0000 < a.bits < 0x8000_0000 || a.bits > 0xff80_0000;
            let b_nan = 0x7f80_0000 < b.bits < 0x8000_0000 || b.bits > 0xff80_0000;
            &&& !a_nan
            &&& !b_nan
            &&& a.bits < 0x8000_0000 ==> b.bits < 0x8000_0000 && a.bits < b.bits
            &&& a.bits >= 0x8000_0000 && b.bits >= 0x8000_0000 ==> a.bits > b.bits
            &&& a.bits >= 0x8000_0000 && b.bits < 0x8000_0000 ==> a.bits != 0x8000_0000 || b.bits
                != 0
        },
{
}

/// Scores are equal as IEEE 754 numbers are: by their bit patterns, except that both zeros are
/// one number, and that what is no number equals nothing.
pub proof fn equality_is_numeric(a: Viability, b: Viability)
    ensures
        a.same(b) <==> {
            let a_nan = 0x7f80_0000 < a.bits < 0x8000_0000 || a.bits > 0xff80_0000;
            let a_zero = a.bits == 0 || a.bits == 0x8000_0000;
            let b_zero = b.bits == 0 || b.bits == 0x8000_0000;
            !a_nan && (a.bits == b.bits || a_zero && b_zero)
        },
        a.nan() <==> 0x7f80_0000 < a.bits < 0x8000_0000 || a.bits > 0xff80_0000,
{
}

/// The only numbers not below the largest finite score are it itself and infinity. The score of
/// a new entry has the pattern of one half.
pub proof fn constants_are_numeric(a: Viability)
    ensures
        a.below(Viability::spec_max()) <==> (a.bits < 0x7f7f_ffff || 0x8000_0000 <= a.bits
            <= 0xff80_0000),
        Viability::spec_half().bits == 0x3f00_0000,
{
}

} // verus!
