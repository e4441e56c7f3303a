//! The numbers that positions and sizes are made of.
//!
//! Layout and drawing never look inside a number: they add, scale, compare and
//! round. `Scalar` names these operations, so every result of the library is
//! stated as the exact expression that produces it, whatever the number type
//! rounds to. `Px` is the type of whole pixels, `Fixed` that of millionths of
//! them, for places without floating point.

use vstd::prelude::*;

verus! {

/// A number type. Each operation returns the value of the spec function of the
/// same name; of these only `spec_bits` is asked to tell numbers apart.
pub trait Scalar: Copy {
    /// The number that stands for a whole number.
    spec fn spec_from_u64(i: u64) -> Self;

    /// The number that stands for a whole number.
    spec fn spec_from_i64(i: i64) -> Self;

    spec fn spec_plus(self, other: Self) -> Self;

    spec fn spec_minus(self, other: Self) -> Self;

    spec fn spec_times(self, other: Self) -> Self;

    spec fn spec_over(self, other: Self) -> Self;

    /// The lesser of two numbers.
    spec fn spec_lesser(self, other: Self) -> Self;

    /// The greater of two numbers.
    spec fn spec_greater(self, other: Self) -> Self;

    /// Whether `self < other`.
    spec fn spec_below(self, other: Self) -> bool;

    /// Whether `self <= other`.
    spec fn spec_up_to(self, other: Self) -> bool;

    spec fn spec_ceil(self) -> Self;

    spec fn spec_round(self) -> Self;

    /// The whole part, kept within the range of `u32`.
    spec fn spec_to_u32(self) -> u32;

    /// Whether the number is neither infinite nor undefined.
    spec fn spec_is_finite(self) -> bool;

    /// The bit pattern that tells the number from every other one.
    spec fn spec_bits(self) -> u64;

    /// Numbers with the same bit pattern are the same.
    proof fn bits_tell_apart(a: Self, b: Self)
        requires
            a.spec_bits() == b.spec_bits(),
        ensures
            a == b,
    ;

    fn from_u64(i: u64) -> (r: Self)
        ensures
            r == Self::spec_from_u64(i),
    ;

    fn from_i64(i: i64) -> (r: Self)
        ensures
            r == Self::spec_from_i64(i),
    ;

    fn plus(self, other: Self) -> (r: Self)
        ensures
            r == self.spec_plus(other),
    ;

    fn minus(self, other: Self) -> (r: Self)
        ensures
            r == self.spec_minus(other),
    ;

    fn times(self, other: Self) -> (r: Self)
        ensures
            r == self.spec_times(other),
    ;

    fn over(self, other: Self) -> (r: Self)
        ensures
            r == self.spec_over(other),
    ;

    fn lesser(self, other: Self) -> (r: Self)
        ensures
            r == self.spec_lesser(other),
    ;

    fn greater(self, other: Self) -> (r: Self)
        ensures
            r == self.spec_greater(other),
    ;

    fn below(self, other: Self) -> (r: bool)
        ensures
            r == self.spec_below(other),
    ;

    fn up_to(self, other: Self) -> (r: bool)
        ensures
            r == self.spec_up_to(other),
    ;

    fn ceil(self) -> (r: Self)
        ensures
            r == self.spec_ceil(),
    ;

    fn round(self) -> (r: Self)
        ensures
            r == self.spec_round(),
    ;

    fn to_u32(self) -> (r: u32)
        ensures
            r == self.spec_to_u32(),
    ;

    fn is_finite(self) -> (r: bool)
        ensures
            r == self.spec_is_finite(),
    ;

    fn bits(self) -> (r: u64)
        ensures
            r == self.spec_bits(),
    ;
}

/// A number type for layout, with the one that it is drawn in.
pub trait Wide: Scalar {
    type Narrow: Scalar;

    spec fn spec_narrow(self) -> Self::Narrow;

    /// The nearest number of the drawing type.
    fn narrow(self) -> (r: Self::Narrow)
        ensures
            r == self.spec_narrow(),
    ;
}

/// `num / den`, such as seven tenths.
pub open spec fn ratio<N: Scalar>(num: u64, den: u64) -> N {
    N::spec_from_u64(num).spec_over(N::spec_from_u64(den))
}

/// `x` kept between `lo` and `hi`.
pub open spec fn clamped<N: Scalar>(x: N, lo: N, hi: N) -> N {
    if x.spec_below(lo) {
        lo
    } else if hi.spec_below(x) {
        hi
    } else {
        x
    }
}

/// `num / den`.
pub fn fraction<N: Scalar>(num: u64, den: u64) -> (r: N)
    ensures
        r == ratio::<N>(num, den),
{
    N::from_u64(num).over(N::from_u64(den))
}

/// `x` kept between `lo` and `hi`.
pub fn clamp<N: Scalar>(x: N, lo: N, hi: N) -> (r: N)
    ensures
        r == clamped(x, lo, hi),
{
    if x.below(lo) {
        lo
    } else if hi.below(x) {
        hi
    } else {
        x
    }
}

/// A whole number of pixels. Results that leave the range stop at its ends.
#[derive(Clone, Copy, Debug, PartialEq, Eq, Structural)]
pub struct Px(pub u64);

/// `i` brought into the range of `u64`.
pub open spec fn saturate(i: int) -> u64 {
    if i < 0 {
        0
    } else if i > u64::MAX {
        u64::MAX
    } else {
        i as u64
    }
}

impl Scalar for Px {
    open spec fn spec_from_u64(i: u64) -> Self {
        Px(i)
    }

    open spec fn spec_from_i64(i: i64) -> Self {
        Px(saturate(i as int))
    }

    open spec fn spec_plus(self, other: Self) -> Self {
        Px(saturate(self.0 + other.0))
    }

    open spec fn spec_minus(self, other: Self) -> Self {
        Px(saturate(self.0 - other.0))
    }

    open spec fn spec_times(self, other: Self) -> Self {
        Px(saturate(self.0 * other.0))
    }

    open spec fn spec_over(self, other: Self) -> Self {
        if other.0 == 0 {
            Px(0)
        } else {
            Px(self.0 / other.0)
        }
    }

    open spec fn spec_lesser(self, other: Self) -> Self {
        if self.0 <= other.0 {
            self
        } else {
            other
        }
    }

    open spec fn spec_greater(self, other: Self) -> Self {
        if self.0 >= other.0 {
            self
        } else {
            other
        }
    }

    open spec fn spec_below(self, other: Self) -> bool {
        self.0 < other.0
    }

    open spec fn spec_up_to(self, other: Self) -> bool {
        self.0 <= other.0
    }

    open spec fn spec_ceil(self) -> Self {
        self
    }

    open spec fn spec_round(self) -> Self {
        self
    }

    open spec fn spec_to_u32(self) -> u32 {
        if self.0 > u32::MAX {
            u32::MAX
        } else {
            self.0 as u32
        }
    }

    open spec fn spec_is_finite(self) -> bool {
        true
    }

    open spec fn spec_bits(self) -> u64 {
        self.0
    }

    proof fn bits_tell_apart(a: Self, b: Self) {
    }

    fn from_u64(i: u64) -> (r: Self) {
        Px(i)
    }

    fn from_i64(i: i64) -> (r: Self) {
        if i < 0 {
            Px(0)
        } else {
            Px(i as u64)
        }
    }

    fn plus(self, other: Self) -> (r: Self) {
        if self.0 > u64::MAX - other.0 {
            Px(u64::MAX)
        } else {
            Px(self.0 + other.0)
        }
    }

    fn minus(self, other: Self) -> (r: Self) {
        if self.0 < other.0 {
            Px(0)
        } else {
            Px(self.0 - other.0)
        }
    }

    fn times(self, other: Self) -> (r: Self) {
        match self.0.checked_mul(other.0) {
            Some(product) => Px(product),
            None => Px(u64::MAX),
        }
    }

    fn over(self, other: Self) -> (r: Self) {
        if other.0 == 0 {
            Px(0)
        } else {
            Px(self.0 / other.0)
        }
    }

    fn lesser(self, other: Self) -> (r: Self) {
        if self.0 <= other.0 {
            self
        } else {
            other
        }
    }

    fn greater(self, other: Self) -> (r: Self) {
        if self.0 >= other.0 {
            self
        } else {
            other
        }
    }

    fn below(self, other: Self) -> (r: bool) {
        self.0 < other.0
    }

    fn up_to(self, other: Self) -> (r: bool) {
        self.0 <= other.0
    }

    fn ceil(self) -> (r: Self) {
        self
    }

    fn round(self) -> (r: Self) {
        self
    }

    fn to_u32(self) -> (r: u32) {
        if self.0 > u32::MAX as u64 {
            u32::MAX
        } else {
            self.0 as u32
        }
    }

    fn is_finite(self) -> (r: bool) {
        true
    }

    fn bits(self) -> (r: u64) {
        self.0
    }
}

impl Wide for Px {
    type Narrow = Px;

    open spec fn spec_narrow(self) -> Px {
        self
    }

    fn narrow(self) -> (r: Px) {
        self
    }
}

/// The parts that `Fixed` counts in one whole.
pub const PARTS: u64 = 1_000_000;

/// A number of millionths. Results that leave the range stop at its ends, and
/// what is less than a millionth is left out.
#[derive(Clone, Copy, Debug, PartialEq, Eq, Structural)]
pub struct Fixed(pub u64);

/// `i` brought into the range of `u64`.
fn saturated(i: u128) -> (r: u64)
    ensures
        r == saturate(i as int),
{
    if i > u64::MAX as u128 {
        u64::MAX
    } else {
        i as u64
    }
}

/// The product of two numbers, which fits.
fn product(a: u64, b: u64) -> (r: u128)
    ensures
        r == a * b,
{
    assert(0 <= a * b <= u64::MAX * u64::MAX) by (nonlinear_arith)
        requires
            0 <= a <= u64::MAX,
            0 <= b <= u64::MAX,
    ;
    a as u128 * b as u128
}

impl Scalar for Fixed {
    open spec fn spec_from_u64(i: u64) -> Self {
        Fixed(saturate(i * PARTS))
    }

    open spec fn spec_from_i64(i: i64) -> Self {
        Fixed(saturate(i * PARTS))
    }

    open spec fn spec_plus(self, other: Self) -> Self {
        Fixed(saturate(self.0 + other.0))
    }

    open spec fn spec_minus(self, other: Self) -> Self {
        Fixed(saturate(self.0 - other.0))
    }

    open spec fn spec_times(self, other: Self) -> Self {
        Fixed(saturate(self.0 * other.0 / PARTS as int))
    }

    open spec fn spec_over(self, other: Self) -> Self {
        if other.0 == 0 {
            Fixed(0)
        } else {
            Fixed(saturate(self.0 * PARTS / other.0 as int))
        }
    }

    open spec fn spec_lesser(self, other: Self) -> Self {
        if self.0 <= other.0 {
            self
        } else {
            other
        }
    }

    open spec fn spec_greater(self, other: Self) -> Self {
        if self.0 >= other.0 {
            self
        } else {
            other
        }
    }

    open spec fn spec_below(self, other: Self) -> bool {
        self.0 < other.0
    }

    open spec fn spec_up_to(self, other: Self) -> bool {
        self.0 <= other.0
    }

    open spec fn spec_ceil(self) -> Self {
        Fixed(saturate((self.0 + (PARTS - 1)) / PARTS as int * PARTS))
    }

    open spec fn spec_round(self) -> Self {
        Fixed(saturate((self.0 + PARTS / 2) / PARTS as int * PARTS))
    }

    open spec fn spec_to_u32(self) -> u32 {
        if self.0 / PARTS > u32::MAX {
            u32::MAX
        } else {
            (self.0 / PARTS) as u32
        }
    }

    open spec fn spec_is_finite(self) -> bool {
        true
    }

    open spec fn spec_bits(self) -> u64 {
        self.0
    }

    proof fn bits_tell_apart(a: Self, b: Self) {
    }

    fn from_u64(i: u64) -> (r: Self) {
        Fixed(saturated(product(i, PARTS)))
    }

    fn from_i64(i: i64) -> (r: Self) {
        if i < 0 {
            Fixed(0)
        } else {
            Fixed(saturated(product(i as u64, PARTS)))
        }
    }

    fn plus(self, other: Self) -> (r: Self) {
        Fixed(saturated(self.0 as u128 + other.0 as u128))
    }

    fn minus(self, other: Self) -> (r: Self) {
        if self.0 < other.0 {
            Fixed(0)
        } else {
            Fixed(self.0 - other.0)
        }
    }

    fn times(self, other: Self) -> (r: Self) {
        Fixed(saturated(product(self.0, other.0) / PARTS as u128))
    }

    fn over(self, other: Self) -> (r: Self) {
        if other.0 == 0 {
            Fixed(0)
        } else {
            Fixed(saturated(product(self.0, PARTS) / other.0 as u128))
        }
    }

    fn lesser(self, other: Self) -> (r: Self) {
        if self.0 <= other.0 {
            self
        } else {
            other
        }
    }

    fn greater(self, other: Self) -> (r: Self) {
        if self.0 >= other.0 {
            self
        } else {
            other
        }
    }

    fn below(self, other: Self) -> (r: bool) {
        self.0 < other.0
    }

    fn up_to(self, other: Self) -> (r: bool) {
        self.0 <= other.0
    }

    fn ceil(self) -> (r: Self) {
        let parts: u128 = PARTS as u128;
        Fixed(saturated((self.0 as u128 + (parts - 1)) / parts * parts))
    }

    fn round(self) -> (r: Self) {
        let parts: u128 = PARTS as u128;
        Fixed(saturated((self.0 as u128 + parts / 2) / parts * parts))
    }

    fn to_u32(self) -> (r: u32) {
        if self.0 / PARTS > u32::MAX as u64 {
            u32::MAX
        } else {
            (self.0 / PARTS) as u32
        }
    }

    fn is_finite(self) -> (r: bool) {
        true
    }

    fn bits(self) -> (r: u64) {
        self.0
    }
}

impl Wide for Fixed {
    type Narrow = Fixed;

    open spec fn spec_narrow(self) -> Fixed {
        self
    }

    fn narrow(self) -> (r: Fixed) {
        self
    }
}

} // verus!
