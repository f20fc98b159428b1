//! Single-precision values as their 32-bit patterns.
use crate::ieee::{
    difference,
    difference_spec,
    equal,
    equal_spec,
    from_nat_spec,
    from_u128,
    less,
    less_spec,
    magnitude,
    negated,
    product,
    product_spec,
    quotient,
    quotient_spec,
    sum,
    sum_spec,
    truncate,
    truncate_i64,
    truncated,
    truncated_signed,
    Format,
    Unpacked,
    Value,
};
use crate::root::{root, root_spec};
use vstd::arithmetic::power2::lemma2_to64;
use vstd::prelude::*;

verus! {

/// What a 32-bit pattern stands for: one sign bit, eight bits of exponent,
/// twenty-three bits of fraction.
pub open spec fn value_of_bits(bits: u32) -> Value {
    let neg = bits >= 0x8000_0000;
    let field = (bits as int / 0x80_0000) % 0x100;
    let frac = bits as int % 0x80_0000;
    if field == 0xff {
        if frac == 0 {
            Value::Inf { neg }
        } else {
            Value::Nan
        }
    } else if field == 0 {
        Value::Fin { neg, mant: frac as nat, exp: -149 }
    } else {
        Value::Fin { neg, mant: (frac + 0x80_0000) as nat, exp: field - 150 }
    }
}

/// Every pattern stands for a value of the format.
pub proof fn lemma_value_in_format(bits: u32)
    ensures
        value_of_bits(bits).in_format(Format::Single),
{
    lemma2_to64();
}

/// Two patterns of one value are the same pattern, unless the value is a
/// NaN.
pub proof fn lemma_pattern_is_unique(a: u32, b: u32)
    requires
        value_of_bits(a) == value_of_bits(b),
        !value_of_bits(a).is_nan(),
    ensures
        a == b,
{
}

/// A single-precision value.
#[derive(Clone, Copy, Debug)]
pub struct Single {
    pub bits: u32,
}

/// The pattern that `pack` gives a NaN.
pub const NAN_BITS: u32 = 0x7fc0_0000;

impl View for Single {
    type V = Value;

    open spec fn view(&self) -> Value {
        value_of_bits(self.bits)
    }
}

impl Single {
    /// The value with the given pattern.
    pub fn from_bits(bits: u32) -> (r: Single)
        ensures
            r.bits == bits,
    {
        Single { bits }
    }

    /// The pattern of the value.
    pub fn to_bits(self) -> (bits: u32)
        ensures
            bits == self.bits,
    {
        self.bits
    }

    /// Takes the pattern apart.
    pub fn unpack(self) -> (u: Unpacked)
        ensures
            u@ == self@,
            u@.in_format(Format::Single),
    {
        proof {
            lemma2_to64();
        }
        let neg: bool = self.bits >= 0x8000_0000;
        let field: u32 = (self.bits / 0x80_0000) % 0x100;
        let frac: u32 = self.bits % 0x80_0000;
        if field == 0xff {
            if frac == 0 {
                Unpacked::Inf { neg }
            } else {
                Unpacked::Nan
            }
        } else if field == 0 {
            Unpacked::Fin { neg, mant: frac as u64, exp: -149 }
        } else {
            Unpacked::Fin { neg, mant: (frac + 0x80_0000) as u64, exp: field as i32 - 150 }
        }
    }

    /// Puts a value of the format together. A NaN gets the pattern `NAN_BITS`.
    pub fn pack(u: Unpacked) -> (r: Single)
        requires
            u@.in_format(Format::Single),
        ensures
            r@ == u@,
            u@.is_nan() ==> r.bits == NAN_BITS,
    {
        proof {
            lemma2_to64();
        }
        match u {
            Unpacked::Nan => Single { bits: NAN_BITS },
            Unpacked::Inf { neg } => {
                if neg {
                    Single { bits: 0xff80_0000 }
                } else {
                    Single { bits: 0x7f80_0000 }
                }
            },
            Unpacked::Fin { neg, mant, exp } => {
                let sign: u32 = if neg {
                    0x8000_0000
                } else {
                    0
                };
                if mant < 0x80_0000 {
                    Single { bits: sign + mant as u32 }
                } else {
                    let field: u32 = (exp + 150) as u32;
                    Single { bits: sign + field * 0x80_0000 + (mant as u32 - 0x80_0000) }
                }
            },
        }
    }

    /// The product, rounded to nearest.
    pub fn mul(self, rhs: Single) -> (r: Single)
        ensures
            r@ == product_spec(Format::Single, self@, rhs@),
    {
        Single::pack(product(Format::Single, self.unpack(), rhs.unpack()))
    }

    /// The quotient, rounded to nearest.
    pub fn div(self, rhs: Single) -> (r: Single)
        ensures
            r@ == quotient_spec(Format::Single, self@, rhs@),
    {
        Single::pack(quotient(Format::Single, self.unpack(), rhs.unpack()))
    }

    /// The sum, rounded to nearest.
    pub fn add(self, rhs: Single) -> (r: Single)
        ensures
            r@ == sum_spec(Format::Single, self@, rhs@),
    {
        Single::pack(sum(Format::Single, self.unpack(), rhs.unpack()))
    }

    /// The difference, rounded to nearest.
    pub fn sub(self, rhs: Single) -> (r: Single)
        ensures
            r@ == difference_spec(Format::Single, self@, rhs@),
    {
        Single::pack(difference(Format::Single, self.unpack(), rhs.unpack()))
    }

    /// The value nearest to a natural number.
    pub fn from_u64(n: u64) -> (r: Single)
        ensures
            r@ == from_nat_spec(Format::Single, n as nat),
    {
        Single::pack(from_u128(Format::Single, n as u128))
    }

    /// Whether the value is below `rhs`.
    pub fn lt(self, rhs: Single) -> (r: bool)
        ensures
            r == less_spec(self@, rhs@),
    {
        less(Format::Single, self.unpack(), rhs.unpack())
    }

    /// Whether the value is above `rhs`.
    pub fn gt(self, rhs: Single) -> (r: bool)
        ensures
            r == less_spec(rhs@, self@),
    {
        less(Format::Single, rhs.unpack(), self.unpack())
    }

    /// Whether the value is below `rhs` or equal to it.
    pub fn le(self, rhs: Single) -> (r: bool)
        ensures
            r == (less_spec(self@, rhs@) || equal_spec(self@, rhs@)),
    {
        less(Format::Single, self.unpack(), rhs.unpack()) || equal(
            Format::Single,
            self.unpack(),
            rhs.unpack(),
        )
    }

    /// Whether the value is above `rhs` or equal to it.
    pub fn ge(self, rhs: Single) -> (r: bool)
        ensures
            r == (less_spec(rhs@, self@) || equal_spec(self@, rhs@)),
    {
        less(Format::Single, rhs.unpack(), self.unpack()) || equal(
            Format::Single,
            self.unpack(),
            rhs.unpack(),
        )
    }

    /// Whether the value is neither an infinity nor a NaN.
    pub fn is_finite(self) -> (r: bool)
        ensures
            r == self@.is_finite(),
    {
        (self.bits / 0x80_0000) % 0x100 != 0xff
    }

    /// Whether the value is a NaN.
    pub fn is_nan(self) -> (r: bool)
        ensures
            r == self@.is_nan(),
    {
        (self.bits / 0x80_0000) % 0x100 == 0xff && self.bits % 0x80_0000 != 0
    }

    /// The whole part as a `u32`: 0 for a NaN and for what is negative, the
    /// greatest `u32` for what is greater.
    pub fn to_u32(self) -> (r: u32)
        ensures
            r == truncated(self@, u32::MAX as nat),
    {
        truncate(self.unpack(), 0xffff_ffff) as u32
    }

    /// The whole part as an `i64`: 0 for a NaN, the nearest `i64` for what
    /// is beyond the range.
    pub fn to_i64(self) -> (r: i64)
        ensures
            r == truncated_signed(self@, i64::MAX as nat),
    {
        truncate_i64(self.unpack())
    }

    /// The whole part as a byte: 0 for a NaN and for what is negative, 255
    /// for what is greater.
    pub fn to_u8(self) -> (r: u8)
        ensures
            r == truncated(self@, 255),
    {
        truncate(self.unpack(), 255) as u8
    }

    /// The square root, rounded to nearest.
    pub fn sqrt(self) -> (r: Single)
        ensures
            r@ == root_spec(Format::Single, self@),
    {
        Single::pack(root(Format::Single, self.unpack()))
    }

    /// The value without its sign: the pattern with its first bit cleared.
    pub fn abs(self) -> (r: Single)
        ensures
            r@ == magnitude(self@),
            r.bits == self.bits % 0x8000_0000,
    {
        Single { bits: self.bits % 0x8000_0000 }
    }

    /// The value with the other sign: the pattern with its first bit turned.
    pub fn neg(self) -> (r: Single)
        ensures
            r@ == negated(self@),
            r.bits == (if self.bits >= 0x8000_0000 {
                self.bits - 0x8000_0000
            } else {
                self.bits + 0x8000_0000
            }),
    {
        if self.bits >= 0x8000_0000 {
            Single { bits: self.bits - 0x8000_0000 }
        } else {
            Single { bits: self.bits + 0x8000_0000 }
        }
    }

    /// Zero.
    pub fn zero() -> (r: Single)
        ensures
            r@ == Value::zero(Format::Single, false),
    {
        Single { bits: 0 }
    }

    /// Infinity.
    pub fn infinity() -> (r: Single)
        ensures
            r@ == (Value::Inf { neg: false }),
    {
        Single { bits: 0x7f80_0000 }
    }

    /// Negative infinity.
    pub fn neg_infinity() -> (r: Single)
        ensures
            r@ == (Value::Inf { neg: true }),
    {
        Single { bits: 0xff80_0000 }
    }
}

} // verus!
