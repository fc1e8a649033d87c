//! The integer types that bit fields can be read into and written from.
//!
//! A [`Numeric`] type has a fixed bit width of at most 64 and a bit pattern
//! that fits in a `u64` register; the engine moves fields through that
//! register. A [`SignedNumeric`] type additionally interprets its pattern
//! as a two's-complement value.

use vstd::prelude::*;

verus! {

use vstd::arithmetic::power2::pow2;
use vstd::arithmetic::power2::lemma2_to64;
use vstd::arithmetic::power2::lemma2_to64_rest;

/// The signed value denoted by an `n`-bit two's-complement pattern `u`.
pub open spec fn twos_complement(u: nat, n: nat) -> int
    recommends
        n >= 1,
{
    if u >= pow2((n - 1) as nat) {
        u - pow2(n)
    } else {
        u as int
    }
}

/// The `n`-bit two's-complement pattern of a signed value.
pub open spec fn signed_field(value: int, n: nat) -> nat
    recommends
        -(pow2((n - 1) as nat) as int) <= value < pow2((n - 1) as nat),
{
    if value < 0 {
        (value + pow2(n)) as nat
    } else {
        value as nat
    }
}

/// An integer type of known bit width, carried as a `u64` bit pattern.
pub trait Numeric: Copy + Sized {
    /// The type's width in bits.
    spec fn width() -> u32;

    /// The value's bit pattern, zero-extended into 64 bits.
    spec fn as_pattern(self) -> u64;

    /// The value as the mathematical integer the type denotes: the pattern
    /// itself for unsigned types, the two's-complement reading for signed
    /// ones.
    spec fn as_int(self) -> int;

    /// The width is between 1 and 64 bits.
    proof fn lemma_width()
        ensures
            1 <= Self::width() <= 64,
    ;

    /// The pattern uses only the type's own bits.
    proof fn lemma_pattern(self)
        ensures
            (self.as_pattern() as nat) < pow2(Self::width() as nat),
    ;

    /// The width, at run time.
    fn bits_size() -> (r: u32)
        ensures
            r == Self::width(),
    ;

    /// The value with the given bit pattern.
    fn from_pattern(v: u64) -> (r: Self)
        requires
            (v as nat) < pow2(Self::width() as nat),
        ensures
            r.as_pattern() == v,
    ;

    /// The value's bit pattern.
    fn to_pattern(self) -> (r: u64)
        ensures
            r == self.as_pattern(),
    ;

    /// Whether the value fits a field of `bits` bits, read as the type
    /// itself compares: a negative value always wraps into the field, a
    /// non-negative one must lie below `2^bits`.
    fn fits_field(self, bits: u32) -> (r: bool)
        requires
            bits < Self::width(),
        ensures
            r == (self.as_int() < pow2(bits as nat)),
    ;

    /// The value boxed for recording, remembering its type's width.
    fn unsigned_value(self) -> (r: crate::write::UnsignedValue)
        ensures
            r.spec_width() == Self::width(),
            r.spec_pattern() == self.as_pattern(),
            r.spec_int() == self.as_int(),
    ;
}

/// A signed integer type whose bit pattern is its two's-complement form.
pub trait SignedNumeric: Numeric {
    /// The value as a mathematical integer.
    spec fn as_signed(self) -> int;

    /// How the signed value and the bit pattern determine each other.
    proof fn lemma_signed(self)
        ensures
            Self::width() >= 1,
            -(pow2((Self::width() - 1) as nat) as int) <= self.as_signed() < pow2(
                (Self::width() - 1) as nat,
            ),
            self.as_pattern() as int == if self.as_signed() < 0 {
                self.as_signed() + pow2(Self::width() as nat)
            } else {
                self.as_signed()
            },
    ;

    /// The value boxed for recording, remembering its type's width.
    fn signed_value(self) -> (r: crate::write::SignedValue)
        ensures
            r.spec_width() == Self::width(),
            r.spec_signed() == self.as_signed(),
    ;
}

impl Numeric for u8 {
    open spec fn width() -> u32 {
        8
    }

    open spec fn as_pattern(self) -> u64 {
        self as u64
    }

    open spec fn as_int(self) -> int {
        self as int
    }

    proof fn lemma_width() {
    }

    proof fn lemma_pattern(self) {
        lemma2_to64();
    }

    fn bits_size() -> u32 {
        8
    }

    fn from_pattern(v: u64) -> Self {
        proof {
            lemma2_to64();
        }
        v as u8
    }

    fn to_pattern(self) -> u64 {
        self as u64
    }

    fn fits_field(self, bits: u32) -> bool {
        proof {
            crate::bitqueue::lemma_u64_shl1(bits);
        }
        (self as u64) < (1u64 << bits)
    }

    fn unsigned_value(self) -> crate::write::UnsignedValue {
        crate::write::UnsignedValue(crate::write::InnerUnsignedValue::U8(self))
    }
}

impl Numeric for u16 {
    open spec fn width() -> u32 {
        16
    }

    open spec fn as_pattern(self) -> u64 {
        self as u64
    }

    open spec fn as_int(self) -> int {
        self as int
    }

    proof fn lemma_width() {
    }

    proof fn lemma_pattern(self) {
        lemma2_to64();
    }

    fn bits_size() -> u32 {
        16
    }

    fn from_pattern(v: u64) -> Self {
        proof {
            lemma2_to64();
        }
        v as u16
    }

    fn to_pattern(self) -> u64 {
        self as u64
    }

    fn fits_field(self, bits: u32) -> bool {
        proof {
            crate::bitqueue::lemma_u64_shl1(bits);
        }
        (self as u64) < (1u64 << bits)
    }

    fn unsigned_value(self) -> crate::write::UnsignedValue {
        crate::write::UnsignedValue(crate::write::InnerUnsignedValue::U16(self))
    }
}

impl Numeric for u32 {
    open spec fn width() -> u32 {
        32
    }

    open spec fn as_pattern(self) -> u64 {
        self as u64
    }

    open spec fn as_int(self) -> int {
        self as int
    }

    proof fn lemma_width() {
    }

    proof fn lemma_pattern(self) {
        lemma2_to64();
        lemma2_to64_rest();
    }

    fn bits_size() -> u32 {
        32
    }

    fn from_pattern(v: u64) -> Self {
        proof {
            lemma2_to64();
            lemma2_to64_rest();
        }
        v as u32
    }

    fn to_pattern(self) -> u64 {
        self as u64
    }

    fn fits_field(self, bits: u32) -> bool {
        proof {
            crate::bitqueue::lemma_u64_shl1(bits);
        }
        (self as u64) < (1u64 << bits)
    }

    fn unsigned_value(self) -> crate::write::UnsignedValue {
        crate::write::UnsignedValue(crate::write::InnerUnsignedValue::U32(self))
    }
}

impl Numeric for u64 {
    open spec fn width() -> u32 {
        64
    }

    open spec fn as_pattern(self) -> u64 {
        self
    }

    open spec fn as_int(self) -> int {
        self as int
    }

    proof fn lemma_width() {
    }

    proof fn lemma_pattern(self) {
        lemma2_to64_rest();
    }

    fn bits_size() -> u32 {
        64
    }

    fn from_pattern(v: u64) -> Self {
        v
    }

    fn to_pattern(self) -> u64 {
        self
    }

    fn fits_field(self, bits: u32) -> bool {
        proof {
            crate::bitqueue::lemma_u64_shl1(bits);
        }
        (self as u64) < (1u64 << bits)
    }

    fn unsigned_value(self) -> crate::write::UnsignedValue {
        crate::write::UnsignedValue(crate::write::InnerUnsignedValue::U64(self))
    }
}

impl Numeric for i8 {
    open spec fn width() -> u32 {
        8
    }

    open spec fn as_pattern(self) -> u64 {
        if self < 0 {
            (self + 0x100) as u64
        } else {
            self as u64
        }
    }

    open spec fn as_int(self) -> int {
        self as int
    }

    proof fn lemma_width() {
    }

    proof fn lemma_pattern(self) {
        lemma2_to64();
    }

    fn bits_size() -> u32 {
        8
    }

    fn from_pattern(v: u64) -> Self {
        proof {
            lemma2_to64();
        }
        if v >= 0x80 {
            ((v as i64) - 0x100) as i8
        } else {
            v as i8
        }
    }

    fn to_pattern(self) -> u64 {
        if self < 0 {
            ((self as i64) + 0x100) as u64
        } else {
            self as u64
        }
    }

    fn fits_field(self, bits: u32) -> bool {
        proof {
            crate::bitqueue::lemma_u64_shl1(bits);
        }
        if self < 0 {
            true
        } else {
            (self as u64) < (1u64 << bits)
        }
    }

    fn unsigned_value(self) -> crate::write::UnsignedValue {
        crate::write::UnsignedValue(crate::write::InnerUnsignedValue::I8(self))
    }
}

impl SignedNumeric for i8 {
    open spec fn as_signed(self) -> int {
        self as int
    }

    proof fn lemma_signed(self) {
        lemma2_to64();
    }

    fn signed_value(self) -> crate::write::SignedValue {
        crate::write::SignedValue(crate::write::InnerSignedValue::I8(self))
    }
}

impl Numeric for i16 {
    open spec fn width() -> u32 {
        16
    }

    open spec fn as_pattern(self) -> u64 {
        if self < 0 {
            (self + 0x1_0000) as u64
        } else {
            self as u64
        }
    }

    open spec fn as_int(self) -> int {
        self as int
    }

    proof fn lemma_width() {
    }

    proof fn lemma_pattern(self) {
        lemma2_to64();
    }

    fn bits_size() -> u32 {
        16
    }

    fn from_pattern(v: u64) -> Self {
        proof {
            lemma2_to64();
        }
        if v >= 0x8000 {
            ((v as i64) - 0x1_0000) as i16
        } else {
            v as i16
        }
    }

    fn to_pattern(self) -> u64 {
        if self < 0 {
            ((self as i64) + 0x1_0000) as u64
        } else {
            self as u64
        }
    }

    fn fits_field(self, bits: u32) -> bool {
        proof {
            crate::bitqueue::lemma_u64_shl1(bits);
        }
        if self < 0 {
            true
        } else {
            (self as u64) < (1u64 << bits)
        }
    }

    fn unsigned_value(self) -> crate::write::UnsignedValue {
        crate::write::UnsignedValue(crate::write::InnerUnsignedValue::I16(self))
    }
}

impl SignedNumeric for i16 {
    open spec fn as_signed(self) -> int {
        self as int
    }

    proof fn lemma_signed(self) {
        lemma2_to64();
    }

    fn signed_value(self) -> crate::write::SignedValue {
        crate::write::SignedValue(crate::write::InnerSignedValue::I16(self))
    }
}

impl Numeric for i32 {
    open spec fn width() -> u32 {
        32
    }

    open spec fn as_pattern(self) -> u64 {
        if self < 0 {
            (self + 0x1_0000_0000) as u64
        } else {
            self as u64
        }
    }

    open spec fn as_int(self) -> int {
        self as int
    }

    proof fn lemma_width() {
    }

    proof fn lemma_pattern(self) {
        lemma2_to64();
        lemma2_to64_rest();
    }

    fn bits_size() -> u32 {
        32
    }

    fn from_pattern(v: u64) -> Self {
        proof {
            lemma2_to64();
            lemma2_to64_rest();
        }
        if v >= 0x8000_0000 {
            ((v as i64) - 0x1_0000_0000) as i32
        } else {
            v as i32
        }
    }

    fn to_pattern(self) -> u64 {
        if self < 0 {
            ((self as i64) + 0x1_0000_0000) as u64
        } else {
            self as u64
        }
    }

    fn fits_field(self, bits: u32) -> bool {
        proof {
            crate::bitqueue::lemma_u64_shl1(bits);
        }
        if self < 0 {
            true
        } else {
            (self as u64) < (1u64 << bits)
        }
    }

    fn unsigned_value(self) -> crate::write::UnsignedValue {
        crate::write::UnsignedValue(crate::write::InnerUnsignedValue::I32(self))
    }
}

impl SignedNumeric for i32 {
    open spec fn as_signed(self) -> int {
        self as int
    }

    proof fn lemma_signed(self) {
        lemma2_to64();
        lemma2_to64_rest();
    }

    fn signed_value(self) -> crate::write::SignedValue {
        crate::write::SignedValue(crate::write::InnerSignedValue::I32(self))
    }
}

impl Numeric for i64 {
    open spec fn width() -> u32 {
        64
    }

    open spec fn as_pattern(self) -> u64 {
        if self < 0 {
            (self + 0x1_0000_0000_0000_0000) as u64
        } else {
            self as u64
        }
    }

    open spec fn as_int(self) -> int {
        self as int
    }

    proof fn lemma_width() {
    }

    proof fn lemma_pattern(self) {
        lemma2_to64_rest();
    }

    fn bits_size() -> u32 {
        64
    }

    fn from_pattern(v: u64) -> Self {
        proof {
            lemma2_to64_rest();
        }
        if v >= 0x8000_0000_0000_0000 {
            // bring the pattern down into the negative range, in steps that
            // stay inside the types
            ((v - 0x8000_0000_0000_0000) as i64) - 0x4000_0000_0000_0000i64
                - 0x4000_0000_0000_0000i64
        } else {
            v as i64
        }
    }

    fn to_pattern(self) -> u64 {
        if self < 0 {
            // add 2^63 twice, staying in range at every step
            ((self + 0x4000_0000_0000_0000i64 + 0x4000_0000_0000_0000i64) as u64)
                + 0x8000_0000_0000_0000u64
        } else {
            self as u64
        }
    }

    fn fits_field(self, bits: u32) -> bool {
        proof {
            crate::bitqueue::lemma_u64_shl1(bits);
        }
        if self < 0 {
            true
        } else {
            (self as u64) < (1u64 << bits)
        }
    }

    fn unsigned_value(self) -> crate::write::UnsignedValue {
        crate::write::UnsignedValue(crate::write::InnerUnsignedValue::I64(self))
    }
}

impl SignedNumeric for i64 {
    open spec fn as_signed(self) -> int {
        self as int
    }

    proof fn lemma_signed(self) {
        lemma2_to64_rest();
    }

    fn signed_value(self) -> crate::write::SignedValue {
        crate::write::SignedValue(crate::write::InnerSignedValue::I64(self))
    }
}

} // verus!
