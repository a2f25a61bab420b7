use vstd::prelude::*;

verus! {

/// Bit of a binary64 pattern that holds the sign.
pub const SIGN_MASK: u64 = 0x8000_0000_0000_0000;

/// Bits of a binary64 pattern that hold exponent and mantissa.
pub const MAGNITUDE_MASK: u64 = 0x7fff_ffff_ffff_ffff;

/// Bits of a binary64 pattern that hold the exponent.
pub const EXPONENT_MASK: u64 = 0x7ff0_0000_0000_0000;

/// Bits of a binary64 pattern that hold the mantissa.
pub const MANTISSA_MASK: u64 = 0x000f_ffff_ffff_ffff;

/// A binary64 floating-point value, held as its IEEE-754 bit pattern.
#[derive(Clone, Copy, Debug, PartialEq, Eq, Structural)]
pub struct Num {
    pub bits: u64,
}

/// The pattern of `n` with its sign flipped.
pub open spec fn negated_bits(n: u64) -> u64 {
    n ^ SIGN_MASK
}

/// The value is positive or negative zero.
pub open spec fn is_zero_bits(n: u64) -> bool {
    n & MAGNITUDE_MASK == 0
}

/// The value is not a number.
pub open spec fn is_nan_bits(n: u64) -> bool {
    n & EXPONENT_MASK == EXPONENT_MASK && n & MANTISSA_MASK != 0
}

/// IEEE-754 equality: zeros of either sign are equal, a NaN equals nothing,
/// other values are equal exactly when their patterns are.
pub open spec fn float_eq_bits(a: u64, b: u64) -> bool {
    if is_nan_bits(a) || is_nan_bits(b) {
        false
    } else {
        (is_zero_bits(a) && is_zero_bits(b)) || a == b
    }
}

impl Num {
    pub fn from_bits(bits: u64) -> (r: Num)
        ensures
            r.bits == bits,
    {
        Num { bits }
    }

    /// The same value with the opposite sign.
    pub fn negate(self) -> (r: Num)
        ensures
            r.bits == negated_bits(self.bits),
    {
        Num { bits: self.bits ^ SIGN_MASK }
    }

    pub fn is_zero(self) -> (r: bool)
        ensures
            r == is_zero_bits(self.bits),
    {
        self.bits & MAGNITUDE_MASK == 0
    }

    pub fn is_nan(self) -> (r: bool)
        ensures
            r == is_nan_bits(self.bits),
    {
        self.bits & EXPONENT_MASK == EXPONENT_MASK && self.bits & MANTISSA_MASK != 0
    }

    /// Floating-point equality of two values.
    pub fn float_eq(self, other: Num) -> (r: bool)
        ensures
            r == float_eq_bits(self.bits, other.bits),
    {
        if self.is_nan() || other.is_nan() {
            false
        } else {
            (self.is_zero() && other.is_zero()) || self.bits == other.bits
        }
    }
}

/// The floating-point operations that evaluation delegates to its caller:
/// reading a literal, the five binary operations, and writing a value out.
/// The result of each operation and of writing a value out is named by a
/// spec function of the arguments: the same arguments give the same result.
/// Nothing is assumed of reading a literal.
pub trait Arithmetic {
    spec fn add_spec(&self, a: Num, b: Num) -> Num;

    spec fn sub_spec(&self, a: Num, b: Num) -> Num;

    spec fn mul_spec(&self, a: Num, b: Num) -> Num;

    spec fn div_spec(&self, a: Num, b: Num) -> Num;

    spec fn pow_spec(&self, a: Num, b: Num) -> Num;

    /// The decimal text of a value, as it is shown to a user.
    spec fn render_spec(&self, a: Num) -> String;

    /// Reads a numeric literal, or gives the reason it is not one.
    fn parse_number(&self, text: &str) -> Result<Num, String>;

    fn add(&self, a: Num, b: Num) -> (r: Num)
        ensures
            r == self.add_spec(a, b),
    ;

    fn sub(&self, a: Num, b: Num) -> (r: Num)
        ensures
            r == self.sub_spec(a, b),
    ;

    fn mul(&self, a: Num, b: Num) -> (r: Num)
        ensures
            r == self.mul_spec(a, b),
    ;

    fn div(&self, a: Num, b: Num) -> (r: Num)
        ensures
            r == self.div_spec(a, b),
    ;

    fn pow(&self, a: Num, b: Num) -> (r: Num)
        ensures
            r == self.pow_spec(a, b),
    ;

    /// Writes the value in decimal, as it is shown to a user.
    fn render(&self, a: Num) -> (r: String)
        ensures
            r == self.render_spec(a),
    ;
}

} // verus!
