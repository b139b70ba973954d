//! Floating-point values as plain integers, and the arithmetic on them as a
//! parameter.
//!
//! A [`Single`] or a [`Double`] holds the bit pattern of a binary32 or binary64
//! value. What depends on the pattern alone (order, sign, limits) is computed
//! and proved here. What rounds is an operation of an [`Arithmetic`], which the
//! caller of the library chooses.

use vstd::prelude::*;

verus! {

/// A binary32 value, by its bit pattern.
#[derive(Clone, Copy, PartialEq, Eq, Structural, Debug)]
pub struct Single {
    pub bits: u32,
}

/// A binary64 value, by its bit pattern.
#[derive(Clone, Copy, PartialEq, Eq, Structural, Debug)]
pub struct Double {
    pub bits: u64,
}

/// Bit pattern of 0.0.
pub const ZERO: u32 = 0x0000_0000;

/// Bit pattern of 1.0.
pub const ONE: u32 = 0x3f80_0000;

/// Bit pattern of positive infinity.
pub const INFINITY: u32 = 0x7f80_0000;

/// Bit pattern of negative infinity.
pub const NEG_INFINITY: u32 = 0xff80_0000;

/// Bit pattern of 0.0 in binary64.
pub const WIDE_ZERO: u64 = 0x0000_0000_0000_0000;

/// Bit pattern of 1.0 in binary64.
pub const WIDE_ONE: u64 = 0x3ff0_0000_0000_0000;

impl Single {
    /// The value with bit pattern `bits`.
    #[verifier::allow_in_spec]
    pub fn of(bits: u32) -> Single
        returns
            (Single { bits }),
    {
        Single { bits }
    }

    /// The bit pattern without the sign.
    pub open spec fn magnitude(self) -> int {
        if self.bits < 0x8000_0000 {
            self.bits as int
        } else {
            self.bits - 0x8000_0000
        }
    }

    /// An integer that orders all values which are numbers; both zeros have 0.
    pub open spec fn rank(self) -> int {
        if self.bits < 0x8000_0000 {
            self.magnitude()
        } else {
            -self.magnitude()
        }
    }

    /// Not a number.
    pub open spec fn spec_is_nan(self) -> bool {
        self.magnitude() > 0x7f80_0000
    }

    /// Whether the value is not a number.
    #[verifier::when_used_as_spec(spec_is_nan)]
    pub fn is_nan(self) -> (r: bool)
        ensures
            r == self.spec_is_nan(),
    {
        let magnitude: u32 = if self.bits < 0x8000_0000 {
            self.bits
        } else {
            self.bits - 0x8000_0000
        };
        magnitude > 0x7f80_0000
    }

    /// `self < other`, false if one of them is not a number.
    pub open spec fn spec_less(self, other: Single) -> bool {
        !self.is_nan() && !other.is_nan() && self.rank() < other.rank()
    }

    /// `self <= other`, false if one of them is not a number.
    pub open spec fn spec_at_most(self, other: Single) -> bool {
        !self.is_nan() && !other.is_nan() && self.rank() <= other.rank()
    }

    /// `self == other`, false if one of them is not a number; both zeros are
    /// equal.
    pub open spec fn spec_equals(self, other: Single) -> bool {
        !self.is_nan() && !other.is_nan() && self.rank() == other.rank()
    }

    /// Whether `self < other`.
    #[verifier::when_used_as_spec(spec_less)]
    pub fn less(self, other: Single) -> (r: bool)
        ensures
            r == self.spec_less(other),
    {
        if self.is_nan() || other.is_nan() {
            return false;
        }
        if self.bits < 0x8000_0000 {
            other.bits < 0x8000_0000 && self.bits < other.bits
        } else if other.bits < 0x8000_0000 {
            self.bits - 0x8000_0000 > 0 || other.bits > 0
        } else {
            other.bits < self.bits
        }
    }

    /// Whether `self <= other`.
    #[verifier::when_used_as_spec(spec_at_most)]
    pub fn at_most(self, other: Single) -> (r: bool)
        ensures
            r == self.spec_at_most(other),
    {
        !self.is_nan() && !other.is_nan() && !other.less(self)
    }

    /// Whether `self == other`.
    #[verifier::when_used_as_spec(spec_equals)]
    pub fn equals(self, other: Single) -> (r: bool)
        ensures
            r == self.spec_equals(other),
    {
        self.at_most(other) && other.at_most(self)
    }

    /// The value without its sign.
    pub open spec fn spec_abs(self) -> Single {
        Single { bits: self.magnitude() as u32 }
    }

    /// The absolute value.
    #[verifier::when_used_as_spec(spec_abs)]
    pub fn abs(self) -> (r: Single)
        ensures
            r == self.spec_abs(),
    {
        if self.bits < 0x8000_0000 {
            self
        } else {
            Single { bits: self.bits - 0x8000_0000 }
        }
    }

    /// `self` held between `low` and `high`; what is not a number stays so.
    pub open spec fn spec_clamp(self, low: Single, high: Single) -> Single {
        if self.less(low) {
            low
        } else if high.less(self) {
            high
        } else {
            self
        }
    }

    /// Restricts the value to the interval from `low` to `high`.
    #[verifier::when_used_as_spec(spec_clamp)]
    pub fn clamp(self, low: Single, high: Single) -> (r: Single)
        ensures
            r == self.spec_clamp(low, high),
    {
        if self.less(low) {
            low
        } else if high.less(self) {
            high
        } else {
            self
        }
    }

    /// The larger of two values; what is not a number loses.
    pub open spec fn spec_larger(self, other: Single) -> Single {
        if self.is_nan() || self.less(other) {
            other
        } else {
            self
        }
    }

    /// The larger of two values.
    #[verifier::when_used_as_spec(spec_larger)]
    pub fn larger(self, other: Single) -> (r: Single)
        ensures
            r == self.spec_larger(other),
    {
        if self.is_nan() || self.less(other) {
            other
        } else {
            self
        }
    }

    /// The smaller of two values; what is not a number loses.
    pub open spec fn spec_smaller(self, other: Single) -> Single {
        if self.is_nan() || other.less(self) {
            other
        } else {
            self
        }
    }

    /// The smaller of two values.
    #[verifier::when_used_as_spec(spec_smaller)]
    pub fn smaller(self, other: Single) -> (r: Single)
        ensures
            r == self.spec_smaller(other),
    {
        if self.is_nan() || other.less(self) {
            other
        } else {
            self
        }
    }
}

impl Double {
    /// The value with bit pattern `bits`.
    #[verifier::allow_in_spec]
    pub fn of(bits: u64) -> Double
        returns
            (Double { bits }),
    {
        Double { bits }
    }

    /// The bit pattern without the sign.
    pub open spec fn magnitude(self) -> int {
        if self.bits < 0x8000_0000_0000_0000 {
            self.bits as int
        } else {
            self.bits - 0x8000_0000_0000_0000
        }
    }

    /// An integer that orders all values which are numbers; both zeros have 0.
    pub open spec fn rank(self) -> int {
        if self.bits < 0x8000_0000_0000_0000 {
            self.magnitude()
        } else {
            -self.magnitude()
        }
    }

    /// Not a number.
    pub open spec fn spec_is_nan(self) -> bool {
        self.magnitude() > 0x7ff0_0000_0000_0000
    }

    /// Whether the value is not a number.
    #[verifier::when_used_as_spec(spec_is_nan)]
    pub fn is_nan(self) -> (r: bool)
        ensures
            r == self.spec_is_nan(),
    {
        let magnitude: u64 = if self.bits < 0x8000_0000_0000_0000 {
            self.bits
        } else {
            self.bits - 0x8000_0000_0000_0000
        };
        magnitude > 0x7ff0_0000_0000_0000
    }

    /// `self < other`, false if one of them is not a number.
    pub open spec fn spec_less(self, other: Double) -> bool {
        !self.is_nan() && !other.is_nan() && self.rank() < other.rank()
    }

    /// `self <= other`, false if one of them is not a number.
    pub open spec fn spec_at_most(self, other: Double) -> bool {
        !self.is_nan() && !other.is_nan() && self.rank() <= other.rank()
    }

    /// `self == other`, false if one of them is not a number; both zeros are
    /// equal.
    pub open spec fn spec_equals(self, other: Double) -> bool {
        !self.is_nan() && !other.is_nan() && self.rank() == other.rank()
    }

    /// Whether `self < other`.
    #[verifier::when_used_as_spec(spec_less)]
    pub fn less(self, other: Double) -> (r: bool)
        ensures
            r == self.spec_less(other),
    {
        if self.is_nan() || other.is_nan() {
            return false;
        }
        if self.bits < 0x8000_0000_0000_0000 {
            other.bits < 0x8000_0000_0000_0000 && self.bits < other.bits
        } else if other.bits < 0x8000_0000_0000_0000 {
            self.bits - 0x8000_0000_0000_0000 > 0 || other.bits > 0
        } else {
            other.bits < self.bits
        }
    }

    /// Whether `self <= other`.
    #[verifier::when_used_as_spec(spec_at_most)]
    pub fn at_most(self, other: Double) -> (r: bool)
        ensures
            r == self.spec_at_most(other),
    {
        !self.is_nan() && !other.is_nan() && !other.less(self)
    }

    /// Whether `self == other`.
    #[verifier::when_used_as_spec(spec_equals)]
    pub fn equals(self, other: Double) -> (r: bool)
        ensures
            r == self.spec_equals(other),
    {
        self.at_most(other) && other.at_most(self)
    }

    /// The value without its sign.
    pub open spec fn spec_abs(self) -> Double {
        Double { bits: self.magnitude() as u64 }
    }

    /// The absolute value.
    #[verifier::when_used_as_spec(spec_abs)]
    pub fn abs(self) -> (r: Double)
        ensures
            r == self.spec_abs(),
    {
        if self.bits < 0x8000_0000_0000_0000 {
            self
        } else {
            Double { bits: self.bits - 0x8000_0000_0000_0000 }
        }
    }

    /// The value with the opposite sign.
    pub open spec fn spec_negated(self) -> Double {
        if self.bits < 0x8000_0000_0000_0000 {
            Double { bits: (self.bits + 0x8000_0000_0000_0000) as u64 }
        } else {
            Double { bits: (self.bits - 0x8000_0000_0000_0000) as u64 }
        }
    }

    /// Changes the sign.
    #[verifier::when_used_as_spec(spec_negated)]
    pub fn negated(self) -> (r: Double)
        ensures
            r == self.spec_negated(),
    {
        if self.bits < 0x8000_0000_0000_0000 {
            Double { bits: self.bits + 0x8000_0000_0000_0000 }
        } else {
            Double { bits: self.bits - 0x8000_0000_0000_0000 }
        }
    }
}

/// The operations that round, and the conversions from and to integers.
///
/// Nothing is assumed of an implementation: what the library states about a
/// computed value it states for each arithmetic that is [`faithful`]. An
/// implementation by the floating-point unit of the machine meets the
/// description of each operation.
pub trait Arithmetic {
    /// What [`Arithmetic::sum`] computes.
    open spec fn sum_of(a: Single, b: Single) -> Single {
        choose|r: Single| call_ensures(Self::sum, (a, b), r)
    }

    /// `a + b`.
    fn sum(a: Single, b: Single) -> Single;

    /// What [`Arithmetic::diff`] computes.
    open spec fn diff_of(a: Single, b: Single) -> Single {
        choose|r: Single| call_ensures(Self::diff, (a, b), r)
    }

    /// `a - b`.
    fn diff(a: Single, b: Single) -> Single;

    /// What [`Arithmetic::prod`] computes.
    open spec fn prod_of(a: Single, b: Single) -> Single {
        choose|r: Single| call_ensures(Self::prod, (a, b), r)
    }

    /// `a * b`.
    fn prod(a: Single, b: Single) -> Single;

    /// What [`Arithmetic::quot`] computes.
    open spec fn quot_of(a: Single, b: Single) -> Single {
        choose|r: Single| call_ensures(Self::quot, (a, b), r)
    }

    /// `a / b`.
    fn quot(a: Single, b: Single) -> Single;

    /// What [`Arithmetic::rem`] computes.
    open spec fn rem_of(a: Single, b: Single) -> Single {
        choose|r: Single| call_ensures(Self::rem, (a, b), r)
    }

    /// Remainder of `a / b` with the sign of `a`.
    fn rem(a: Single, b: Single) -> Single;

    /// What [`Arithmetic::sqrt`] computes.
    open spec fn sqrt_of(a: Single) -> Single {
        choose|r: Single| call_ensures(Self::sqrt, (a,), r)
    }

    /// Square root.
    fn sqrt(a: Single) -> Single;

    /// What [`Arithmetic::atan2`] computes.
    open spec fn atan2_of(a: Single, b: Single) -> Single {
        choose|r: Single| call_ensures(Self::atan2, (a, b), r)
    }

    /// Angle in radians of the vector with y part `a` and x part `b`.
    fn atan2(a: Single, b: Single) -> Single;

    /// What [`Arithmetic::acos`] computes.
    open spec fn acos_of(a: Single) -> Single {
        choose|r: Single| call_ensures(Self::acos, (a,), r)
    }

    /// Arc cosine in radians.
    fn acos(a: Single) -> Single;

    /// What [`Arithmetic::degrees`] computes.
    open spec fn degrees_of(a: Single) -> Single {
        choose|r: Single| call_ensures(Self::degrees, (a,), r)
    }

    /// Radians to degrees.
    fn degrees(a: Single) -> Single;

    /// What [`Arithmetic::floor`] computes.
    open spec fn floor_of(a: Single) -> Single {
        choose|r: Single| call_ensures(Self::floor, (a,), r)
    }

    /// Largest whole value that is not above `a`.
    fn floor(a: Single) -> Single;

    /// What [`Arithmetic::round`] computes.
    open spec fn round_of(a: Single) -> Single {
        choose|r: Single| call_ensures(Self::round, (a,), r)
    }

    /// Nearest whole value, halves away from zero.
    fn round(a: Single) -> Single;

    /// What [`Arithmetic::from_usize`] computes.
    open spec fn from_usize_of(a: usize) -> Single {
        choose|r: Single| call_ensures(Self::from_usize, (a,), r)
    }

    /// The value nearest to an integer.
    fn from_usize(a: usize) -> Single;

    /// What [`Arithmetic::from_i32`] computes.
    open spec fn from_i32_of(a: i32) -> Single {
        choose|r: Single| call_ensures(Self::from_i32, (a,), r)
    }

    /// The value nearest to an integer.
    fn from_i32(a: i32) -> Single;

    /// What [`Arithmetic::to_usize`] computes.
    open spec fn to_usize_of(a: Single) -> usize {
        choose|r: usize| call_ensures(Self::to_usize, (a,), r)
    }

    /// Whole part, held to the range of the result; 0 for what is not a number.
    fn to_usize(a: Single) -> usize;

    /// What [`Arithmetic::to_u8`] computes.
    open spec fn to_u8_of(a: Single) -> u8 {
        choose|r: u8| call_ensures(Self::to_u8, (a,), r)
    }

    /// Whole part, held to the range of the result; 0 for what is not a number.
    fn to_u8(a: Single) -> u8;

    /// What [`Arithmetic::widen`] computes.
    open spec fn widen_of(a: Single) -> Double {
        choose|r: Double| call_ensures(Self::widen, (a,), r)
    }

    /// The same value in binary64.
    fn widen(a: Single) -> Double;

    /// What [`Arithmetic::narrow`] computes.
    open spec fn narrow_of(a: Double) -> Single {
        choose|r: Single| call_ensures(Self::narrow, (a,), r)
    }

    /// The nearest value in binary32.
    fn narrow(a: Double) -> Single;

    /// What [`Arithmetic::wide_from_usize`] computes.
    open spec fn wide_from_usize_of(a: usize) -> Double {
        choose|r: Double| call_ensures(Self::wide_from_usize, (a,), r)
    }

    /// The binary64 value nearest to an integer.
    fn wide_from_usize(a: usize) -> Double;

    /// What [`Arithmetic::wide_sum`] computes.
    open spec fn wide_sum_of(a: Double, b: Double) -> Double {
        choose|r: Double| call_ensures(Self::wide_sum, (a, b), r)
    }

    /// `a + b` in binary64.
    fn wide_sum(a: Double, b: Double) -> Double;

    /// What [`Arithmetic::wide_diff`] computes.
    open spec fn wide_diff_of(a: Double, b: Double) -> Double {
        choose|r: Double| call_ensures(Self::wide_diff, (a, b), r)
    }

    /// `a - b` in binary64.
    fn wide_diff(a: Double, b: Double) -> Double;

    /// What [`Arithmetic::wide_prod`] computes.
    open spec fn wide_prod_of(a: Double, b: Double) -> Double {
        choose|r: Double| call_ensures(Self::wide_prod, (a, b), r)
    }

    /// `a * b` in binary64.
    fn wide_prod(a: Double, b: Double) -> Double;

    /// What [`Arithmetic::wide_quot`] computes.
    open spec fn wide_quot_of(a: Double, b: Double) -> Double {
        choose|r: Double| call_ensures(Self::wide_quot, (a, b), r)
    }

    /// `a / b` in binary64.
    fn wide_quot(a: Double, b: Double) -> Double;
}

/// Every operation computes its value from its operands: the same operands
/// always give the same result.
#[verifier::opaque]
pub open spec fn faithful<A: Arithmetic>() -> bool {
    &&& forall|a: Single, b: Single, r: Single| #[trigger]
        call_ensures(A::sum, (a, b), r) ==> r == A::sum_of(a, b)
    &&& forall|a: Single, b: Single, r: Single| #[trigger]
        call_ensures(A::diff, (a, b), r) ==> r == A::diff_of(a, b)
    &&& forall|a: Single, b: Single, r: Single| #[trigger]
        call_ensures(A::prod, (a, b), r) ==> r == A::prod_of(a, b)
    &&& forall|a: Single, b: Single, r: Single| #[trigger]
        call_ensures(A::quot, (a, b), r) ==> r == A::quot_of(a, b)
    &&& forall|a: Single, b: Single, r: Single| #[trigger]
        call_ensures(A::rem, (a, b), r) ==> r == A::rem_of(a, b)
    &&& forall|a: Single, r: Single| #[trigger]
        call_ensures(A::sqrt, (a,), r) ==> r == A::sqrt_of(a)
    &&& forall|a: Single, b: Single, r: Single| #[trigger]
        call_ensures(A::atan2, (a, b), r) ==> r == A::atan2_of(a, b)
    &&& forall|a: Single, r: Single| #[trigger]
        call_ensures(A::acos, (a,), r) ==> r == A::acos_of(a)
    &&& forall|a: Single, r: Single| #[trigger]
        call_ensures(A::degrees, (a,), r) ==> r == A::degrees_of(a)
    &&& forall|a: Single, r: Single| #[trigger]
        call_ensures(A::floor, (a,), r) ==> r == A::floor_of(a)
    &&& forall|a: Single, r: Single| #[trigger]
        call_ensures(A::round, (a,), r) ==> r == A::round_of(a)
    &&& forall|a: usize, r: Single| #[trigger]
        call_ensures(A::from_usize, (a,), r) ==> r == A::from_usize_of(a)
    &&& forall|a: i32, r: Single| #[trigger]
        call_ensures(A::from_i32, (a,), r) ==> r == A::from_i32_of(a)
    &&& forall|a: Single, r: usize| #[trigger]
        call_ensures(A::to_usize, (a,), r) ==> r == A::to_usize_of(a)
    &&& forall|a: Single, r: u8| #[trigger]
        call_ensures(A::to_u8, (a,), r) ==> r == A::to_u8_of(a)
    &&& forall|a: Single, r: Double| #[trigger]
        call_ensures(A::widen, (a,), r) ==> r == A::widen_of(a)
    &&& forall|a: Double, r: Single| #[trigger]
        call_ensures(A::narrow, (a,), r) ==> r == A::narrow_of(a)
    &&& forall|a: usize, r: Double| #[trigger]
        call_ensures(A::wide_from_usize, (a,), r) ==> r == A::wide_from_usize_of(a)
    &&& forall|a: Double, b: Double, r: Double| #[trigger]
        call_ensures(A::wide_sum, (a, b), r) ==> r == A::wide_sum_of(a, b)
    &&& forall|a: Double, b: Double, r: Double| #[trigger]
        call_ensures(A::wide_diff, (a, b), r) ==> r == A::wide_diff_of(a, b)
    &&& forall|a: Double, b: Double, r: Double| #[trigger]
        call_ensures(A::wide_prod, (a, b), r) ==> r == A::wide_prod_of(a, b)
    &&& forall|a: Double, b: Double, r: Double| #[trigger]
        call_ensures(A::wide_quot, (a, b), r) ==> r == A::wide_quot_of(a, b)
}

/// [`Arithmetic::sum`], with what is known of its result.
pub(crate) fn sum<A: Arithmetic>(a: Single, b: Single) -> (r: Single)
    ensures
        faithful::<A>() ==> r == A::sum_of(a, b),
{
    let r: Single = A::sum(a, b);
    proof {
        reveal(faithful);
        assert(call_ensures(A::sum, (a, b), r));
    }
    r
}

/// [`Arithmetic::diff`], with what is known of its result.
pub(crate) fn diff<A: Arithmetic>(a: Single, b: Single) -> (r: Single)
    ensures
        faithful::<A>() ==> r == A::diff_of(a, b),
{
    let r: Single = A::diff(a, b);
    proof {
        reveal(faithful);
        assert(call_ensures(A::diff, (a, b), r));
    }
    r
}

/// [`Arithmetic::prod`], with what is known of its result.
pub(crate) fn prod<A: Arithmetic>(a: Single, b: Single) -> (r: Single)
    ensures
        faithful::<A>() ==> r == A::prod_of(a, b),
{
    let r: Single = A::prod(a, b);
    proof {
        reveal(faithful);
        assert(call_ensures(A::prod, (a, b), r));
    }
    r
}

/// [`Arithmetic::quot`], with what is known of its result.
pub(crate) fn quot<A: Arithmetic>(a: Single, b: Single) -> (r: Single)
    ensures
        faithful::<A>() ==> r == A::quot_of(a, b),
{
    let r: Single = A::quot(a, b);
    proof {
        reveal(faithful);
        assert(call_ensures(A::quot, (a, b), r));
    }
    r
}

/// [`Arithmetic::rem`], with what is known of its result.
pub(crate) fn rem<A: Arithmetic>(a: Single, b: Single) -> (r: Single)
    ensures
        faithful::<A>() ==> r == A::rem_of(a, b),
{
    let r: Single = A::rem(a, b);
    proof {
        reveal(faithful);
        assert(call_ensures(A::rem, (a, b), r));
    }
    r
}

/// [`Arithmetic::sqrt`], with what is known of its result.
pub(crate) fn sqrt<A: Arithmetic>(a: Single) -> (r: Single)
    ensures
        faithful::<A>() ==> r == A::sqrt_of(a),
{
    let r: Single = A::sqrt(a);
    proof {
        reveal(faithful);
        assert(call_ensures(A::sqrt, (a,), r));
    }
    r
}

/// [`Arithmetic::atan2`], with what is known of its result.
pub(crate) fn atan2<A: Arithmetic>(a: Single, b: Single) -> (r: Single)
    ensures
        faithful::<A>() ==> r == A::atan2_of(a, b),
{
    let r: Single = A::atan2(a, b);
    proof {
        reveal(faithful);
        assert(call_ensures(A::atan2, (a, b), r));
    }
    r
}

/// [`Arithmetic::acos`], with what is known of its result.
pub(crate) fn acos<A: Arithmetic>(a: Single) -> (r: Single)
    ensures
        faithful::<A>() ==> r == A::acos_of(a),
{
    let r: Single = A::acos(a);
    proof {
        reveal(faithful);
        assert(call_ensures(A::acos, (a,), r));
    }
    r
}

/// [`Arithmetic::degrees`], with what is known of its result.
pub(crate) fn degrees<A: Arithmetic>(a: Single) -> (r: Single)
    ensures
        faithful::<A>() ==> r == A::degrees_of(a),
{
    let r: Single = A::degrees(a);
    proof {
        reveal(faithful);
        assert(call_ensures(A::degrees, (a,), r));
    }
    r
}

/// [`Arithmetic::floor`], with what is known of its result.
pub(crate) fn floor<A: Arithmetic>(a: Single) -> (r: Single)
    ensures
        faithful::<A>() ==> r == A::floor_of(a),
{
    let r: Single = A::floor(a);
    proof {
        reveal(faithful);
        assert(call_ensures(A::floor, (a,), r));
    }
    r
}

/// [`Arithmetic::round`], with what is known of its result.
pub(crate) fn round<A: Arithmetic>(a: Single) -> (r: Single)
    ensures
        faithful::<A>() ==> r == A::round_of(a),
{
    let r: Single = A::round(a);
    proof {
        reveal(faithful);
        assert(call_ensures(A::round, (a,), r));
    }
    r
}

/// [`Arithmetic::from_usize`], with what is known of its result.
pub(crate) fn from_usize<A: Arithmetic>(a: usize) -> (r: Single)
    ensures
        faithful::<A>() ==> r == A::from_usize_of(a),
{
    let r: Single = A::from_usize(a);
    proof {
        reveal(faithful);
        assert(call_ensures(A::from_usize, (a,), r));
    }
    r
}

/// [`Arithmetic::from_i32`], with what is known of its result.
pub(crate) fn from_i32<A: Arithmetic>(a: i32) -> (r: Single)
    ensures
        faithful::<A>() ==> r == A::from_i32_of(a),
{
    let r: Single = A::from_i32(a);
    proof {
        reveal(faithful);
        assert(call_ensures(A::from_i32, (a,), r));
    }
    r
}

/// [`Arithmetic::to_usize`], with what is known of its result.
pub(crate) fn to_usize<A: Arithmetic>(a: Single) -> (r: usize)
    ensures
        faithful::<A>() ==> r == A::to_usize_of(a),
{
    let r: usize = A::to_usize(a);
    proof {
        reveal(faithful);
        assert(call_ensures(A::to_usize, (a,), r));
    }
    r
}

/// [`Arithmetic::to_u8`], with what is known of its result.
pub(crate) fn to_u8<A: Arithmetic>(a: Single) -> (r: u8)
    ensures
        faithful::<A>() ==> r == A::to_u8_of(a),
{
    let r: u8 = A::to_u8(a);
    proof {
        reveal(faithful);
        assert(call_ensures(A::to_u8, (a,), r));
    }
    r
}

/// [`Arithmetic::widen`], with what is known of its result.
pub(crate) fn widen<A: Arithmetic>(a: Single) -> (r: Double)
    ensures
        faithful::<A>() ==> r == A::widen_of(a),
{
    let r: Double = A::widen(a);
    proof {
        reveal(faithful);
        assert(call_ensures(A::widen, (a,), r));
    }
    r
}

/// [`Arithmetic::narrow`], with what is known of its result.
pub(crate) fn narrow<A: Arithmetic>(a: Double) -> (r: Single)
    ensures
        faithful::<A>() ==> r == A::narrow_of(a),
{
    let r: Single = A::narrow(a);
    proof {
        reveal(faithful);
        assert(call_ensures(A::narrow, (a,), r));
    }
    r
}

/// [`Arithmetic::wide_from_usize`], with what is known of its result.
pub(crate) fn wide_from_usize<A: Arithmetic>(a: usize) -> (r: Double)
    ensures
        faithful::<A>() ==> r == A::wide_from_usize_of(a),
{
    let r: Double = A::wide_from_usize(a);
    proof {
        reveal(faithful);
        assert(call_ensures(A::wide_from_usize, (a,), r));
    }
    r
}

/// [`Arithmetic::wide_sum`], with what is known of its result.
pub(crate) fn wide_sum<A: Arithmetic>(a: Double, b: Double) -> (r: Double)
    ensures
        faithful::<A>() ==> r == A::wide_sum_of(a, b),
{
    let r: Double = A::wide_sum(a, b);
    proof {
        reveal(faithful);
        assert(call_ensures(A::wide_sum, (a, b), r));
    }
    r
}

/// [`Arithmetic::wide_diff`], with what is known of its result.
pub(crate) fn wide_diff<A: Arithmetic>(a: Double, b: Double) -> (r: Double)
    ensures
        faithful::<A>() ==> r == A::wide_diff_of(a, b),
{
    let r: Double = A::wide_diff(a, b);
    proof {
        reveal(faithful);
        assert(call_ensures(A::wide_diff, (a, b), r));
    }
    r
}

/// [`Arithmetic::wide_prod`], with what is known of its result.
pub(crate) fn wide_prod<A: Arithmetic>(a: Double, b: Double) -> (r: Double)
    ensures
        faithful::<A>() ==> r == A::wide_prod_of(a, b),
{
    let r: Double = A::wide_prod(a, b);
    proof {
        reveal(faithful);
        assert(call_ensures(A::wide_prod, (a, b), r));
    }
    r
}

/// [`Arithmetic::wide_quot`], with what is known of its result.
pub(crate) fn wide_quot<A: Arithmetic>(a: Double, b: Double) -> (r: Double)
    ensures
        faithful::<A>() ==> r == A::wide_quot_of(a, b),
{
    let r: Double = A::wide_quot(a, b);
    proof {
        reveal(faithful);
        assert(call_ensures(A::wide_quot, (a, b), r));
    }
    r
}

/// `less` is a strict order on the numbers: irreflexive, transitive, and any two
/// of them are in order one way or equal.
pub proof fn singles_are_ordered(a: Single, b: Single, c: Single)
    ensures
        !a.less(a),
        a.less(b) && b.less(c) ==> a.less(c),
        a.less(b) ==> !b.less(a) && !a.equals(b),
        !a.is_nan() && !b.is_nan() ==> a.less(b) || b.less(a) || a.equals(b),
        a.at_most(b) <==> a.less(b) || a.equals(b),
        a.is_nan() || b.is_nan() ==> !a.less(b) && !a.equals(b),
{
}

/// Clamping keeps a number that lies within, and moves any other to the nearer
/// limit.
pub proof fn clamp_is_within(x: Single, low: Single, high: Single)
    requires
        low.at_most(high),
        !x.is_nan(),
    ensures
        low.at_most(x.clamp(low, high)),
        x.clamp(low, high).at_most(high),
        low.at_most(x) && x.at_most(high) ==> x.clamp(low, high) == x,
{
}

/// `less` is a strict order on the wide numbers as well.
pub proof fn doubles_are_ordered(a: Double, b: Double, c: Double)
    ensures
        !a.less(a),
        a.less(b) && b.less(c) ==> a.less(c),
        a.less(b) ==> !b.less(a) && !a.equals(b),
        !a.is_nan() && !b.is_nan() ==> a.less(b) || b.less(a) || a.equals(b),
        a.is_nan() || b.is_nan() ==> !a.less(b) && !a.equals(b),
        !a.is_nan() ==> !a.abs().less(Double::of(0)),
        !a.is_nan() ==> a.abs().equals(a) || a.abs().equals(a.negated()),
{
}

} // verus!
