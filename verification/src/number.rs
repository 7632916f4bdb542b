//! The numeric types that expressions compute with.
use vstd::prelude::*;

verus! {

/// The integer types an [`Expression`](crate::expression::Expression) can be
/// applied to. Every operation follows Rust's release-mode semantics: `*`,
/// `+`, `-`, unary `-`, `<<` and `>>` wrap, while `/` and `%` report (with
/// `None`) the cases in which Rust would panic even in release mode.
///
/// The trait is implemented for every primitive integer type.
pub trait Number: Copy + Sized {
    /// The value of a constant of the expression.
    spec fn spec_from_u8(v: u8) -> Self;

    /// Whether the type is signed.
    spec fn spec_is_signed() -> bool;

    /// The type's maximum value.
    spec fn spec_max_as_u128() -> u128;

    /// The value with the semantics of `self as u32`.
    spec fn spec_as_u32(a: Self) -> u32;

    /// `!a`.
    spec fn spec_not(a: Self) -> Self;

    /// `0 - a`, wrapping.
    spec fn spec_neg(a: Self) -> Self;

    /// `a * b`, wrapping.
    spec fn spec_mul(a: Self, b: Self) -> Self;

    /// `a / b`, or `None` where Rust panics.
    spec fn spec_div(a: Self, b: Self) -> Option<Self>;

    /// `a % b`, or `None` where Rust panics.
    spec fn spec_rem(a: Self, b: Self) -> Option<Self>;

    /// `a + b`, wrapping.
    spec fn spec_add(a: Self, b: Self) -> Self;

    /// `a - b`, wrapping.
    spec fn spec_sub(a: Self, b: Self) -> Self;

    /// `a << b`, with the shift taken modulo the bit width.
    spec fn spec_shl(a: Self, b: u32) -> Self;

    /// `a >> b`, with the shift taken modulo the bit width.
    spec fn spec_shr(a: Self, b: u32) -> Self;

    /// `a & b`.
    spec fn spec_and(a: Self, b: Self) -> Self;

    /// `a ^ b`.
    spec fn spec_xor(a: Self, b: Self) -> Self;

    /// `a | b`.
    spec fn spec_or(a: Self, b: Self) -> Self;

    /// Convert a `u8` into a `Self` (constants are stored as `u8`s).
    fn from_u8(from: u8) -> (r: Self)
        ensures
            r == Self::spec_from_u8(from),
    ;

    /// Return `true` if the type is signed and `false` if it's unsigned.
    fn is_signed() -> (r: bool)
        ensures
            r == Self::spec_is_signed(),
    ;

    /// The maximum value of the type as a `u128`.
    fn max_as_u128() -> (r: u128)
        ensures
            r == Self::spec_max_as_u128(),
    ;

    /// Convert a `Self` into a `u32` the way `as` does (the right-hand side
    /// of a shift).
    fn as_u32(self) -> (r: u32)
        ensures
            r == Self::spec_as_u32(self),
    ;

    /// Bitwise not.
    fn op_not(self) -> (r: Self)
        ensures
            r == Self::spec_not(self),
    ;

    /// Wrapping negation.
    fn op_neg(self) -> (r: Self)
        ensures
            r == Self::spec_neg(self),
    ;

    /// Wrapping multiplication.
    fn op_mul(self, other: Self) -> (r: Self)
        ensures
            r == Self::spec_mul(self, other),
    ;

    /// Checked division.
    fn op_div(self, other: Self) -> (r: Option<Self>)
        ensures
            r == Self::spec_div(self, other),
    ;

    /// Checked remainder.
    fn op_rem(self, other: Self) -> (r: Option<Self>)
        ensures
            r == Self::spec_rem(self, other),
    ;

    /// Wrapping addition.
    fn op_add(self, other: Self) -> (r: Self)
        ensures
            r == Self::spec_add(self, other),
    ;

    /// Wrapping subtraction.
    fn op_sub(self, other: Self) -> (r: Self)
        ensures
            r == Self::spec_sub(self, other),
    ;

    /// Wrapping left shift.
    fn op_shl(self, other: u32) -> (r: Self)
        ensures
            r == Self::spec_shl(self, other),
    ;

    /// Wrapping right shift.
    fn op_shr(self, other: u32) -> (r: Self)
        ensures
            r == Self::spec_shr(self, other),
    ;

    /// Bitwise and.
    fn op_and(self, other: Self) -> (r: Self)
        ensures
            r == Self::spec_and(self, other),
    ;

    /// Bitwise exclusive or.
    fn op_xor(self, other: Self) -> (r: Self)
        ensures
            r == Self::spec_xor(self, other),
    ;

    /// Bitwise or.
    fn op_or(self, other: Self) -> (r: Self)
        ensures
            r == Self::spec_or(self, other),
    ;
}

impl Number for u8 {
    open spec fn spec_from_u8(v: u8) -> Self {
        v as u8
    }

    open spec fn spec_is_signed() -> bool {
        false
    }

    open spec fn spec_max_as_u128() -> u128 {
        u8::MAX as u128
    }

    open spec fn spec_as_u32(a: Self) -> u32 {
        a as u32
    }

    open spec fn spec_not(a: Self) -> Self {
        !a
    }

    open spec fn spec_neg(a: Self) -> Self {
        vstd::wrapping::u8_specs::wrapping_sub(0, a)
    }

    open spec fn spec_mul(a: Self, b: Self) -> Self {
        vstd::wrapping::u8_specs::wrapping_mul(a, b)
    }

    open spec fn spec_div(a: Self, b: Self) -> Option<Self> {
        a.checked_div(b)
    }

    open spec fn spec_rem(a: Self, b: Self) -> Option<Self> {
        a.checked_rem(b)
    }

    open spec fn spec_add(a: Self, b: Self) -> Self {
        vstd::wrapping::u8_specs::wrapping_add(a, b)
    }

    open spec fn spec_sub(a: Self, b: Self) -> Self {
        vstd::wrapping::u8_specs::wrapping_sub(a, b)
    }

    open spec fn spec_shl(a: Self, b: u32) -> Self {
        vstd::wrapping::u8_specs::wrapping_shl(a, b)
    }

    open spec fn spec_shr(a: Self, b: u32) -> Self {
        vstd::wrapping::u8_specs::wrapping_shr(a, b)
    }

    open spec fn spec_and(a: Self, b: Self) -> Self {
        a & b
    }

    open spec fn spec_xor(a: Self, b: Self) -> Self {
        a ^ b
    }

    open spec fn spec_or(a: Self, b: Self) -> Self {
        a | b
    }

    fn from_u8(from: u8) -> (r: Self) {
        from as u8
    }

    fn is_signed() -> (r: bool) {
        false
    }

    fn max_as_u128() -> (r: u128) {
        u8::MAX as u128
    }

    fn as_u32(self) -> (r: u32) {
        self as u32
    }

    fn op_not(self) -> (r: Self) {
        !self
    }

    fn op_neg(self) -> (r: Self) {
        (0 as u8).wrapping_sub(self)
    }

    fn op_mul(self, other: Self) -> (r: Self) {
        self.wrapping_mul(other)
    }

    fn op_div(self, other: Self) -> (r: Option<Self>) {
        self.checked_div(other)
    }

    fn op_rem(self, other: Self) -> (r: Option<Self>) {
        self.checked_rem(other)
    }

    fn op_add(self, other: Self) -> (r: Self) {
        self.wrapping_add(other)
    }

    fn op_sub(self, other: Self) -> (r: Self) {
        self.wrapping_sub(other)
    }

    fn op_shl(self, other: u32) -> (r: Self) {
        self.wrapping_shl(other)
    }

    fn op_shr(self, other: u32) -> (r: Self) {
        self.wrapping_shr(other)
    }

    fn op_and(self, other: Self) -> (r: Self) {
        self & other
    }

    fn op_xor(self, other: Self) -> (r: Self) {
        self ^ other
    }

    fn op_or(self, other: Self) -> (r: Self) {
        self | other
    }
}

impl Number for u16 {
    open spec fn spec_from_u8(v: u8) -> Self {
        v as u16
    }

    open spec fn spec_is_signed() -> bool {
        false
    }

    open spec fn spec_max_as_u128() -> u128 {
        u16::MAX as u128
    }

    open spec fn spec_as_u32(a: Self) -> u32 {
        a as u32
    }

    open spec fn spec_not(a: Self) -> Self {
        !a
    }

    open spec fn spec_neg(a: Self) -> Self {
        vstd::wrapping::u16_specs::wrapping_sub(0, a)
    }

    open spec fn spec_mul(a: Self, b: Self) -> Self {
        vstd::wrapping::u16_specs::wrapping_mul(a, b)
    }

    open spec fn spec_div(a: Self, b: Self) -> Option<Self> {
        a.checked_div(b)
    }

    open spec fn spec_rem(a: Self, b: Self) -> Option<Self> {
        a.checked_rem(b)
    }

    open spec fn spec_add(a: Self, b: Self) -> Self {
        vstd::wrapping::u16_specs::wrapping_add(a, b)
    }

    open spec fn spec_sub(a: Self, b: Self) -> Self {
        vstd::wrapping::u16_specs::wrapping_sub(a, b)
    }

    open spec fn spec_shl(a: Self, b: u32) -> Self {
        vstd::wrapping::u16_specs::wrapping_shl(a, b)
    }

    open spec fn spec_shr(a: Self, b: u32) -> Self {
        vstd::wrapping::u16_specs::wrapping_shr(a, b)
    }

    open spec fn spec_and(a: Self, b: Self) -> Self {
        a & b
    }

    open spec fn spec_xor(a: Self, b: Self) -> Self {
        a ^ b
    }

    open spec fn spec_or(a: Self, b: Self) -> Self {
        a | b
    }

    fn from_u8(from: u8) -> (r: Self) {
        from as u16
    }

    fn is_signed() -> (r: bool) {
        false
    }

    fn max_as_u128() -> (r: u128) {
        u16::MAX as u128
    }

    fn as_u32(self) -> (r: u32) {
        self as u32
    }

    fn op_not(self) -> (r: Self) {
        !self
    }

    fn op_neg(self) -> (r: Self) {
        (0 as u16).wrapping_sub(self)
    }

    fn op_mul(self, other: Self) -> (r: Self) {
        self.wrapping_mul(other)
    }

    fn op_div(self, other: Self) -> (r: Option<Self>) {
        self.checked_div(other)
    }

    fn op_rem(self, other: Self) -> (r: Option<Self>) {
        self.checked_rem(other)
    }

    fn op_add(self, other: Self) -> (r: Self) {
        self.wrapping_add(other)
    }

    fn op_sub(self, other: Self) -> (r: Self) {
        self.wrapping_sub(other)
    }

    fn op_shl(self, other: u32) -> (r: Self) {
        self.wrapping_shl(other)
    }

    fn op_shr(self, other: u32) -> (r: Self) {
        self.wrapping_shr(other)
    }

    fn op_and(self, other: Self) -> (r: Self) {
        self & other
    }

    fn op_xor(self, other: Self) -> (r: Self) {
        self ^ other
    }

    fn op_or(self, other: Self) -> (r: Self) {
        self | other
    }
}

impl Number for u32 {
    open spec fn spec_from_u8(v: u8) -> Self {
        v as u32
    }

    open spec fn spec_is_signed() -> bool {
        false
    }

    open spec fn spec_max_as_u128() -> u128 {
        u32::MAX as u128
    }

    open spec fn spec_as_u32(a: Self) -> u32 {
        a as u32
    }

    open spec fn spec_not(a: Self) -> Self {
        !a
    }

    open spec fn spec_neg(a: Self) -> Self {
        vstd::wrapping::u32_specs::wrapping_sub(0, a)
    }

    open spec fn spec_mul(a: Self, b: Self) -> Self {
        vstd::wrapping::u32_specs::wrapping_mul(a, b)
    }

    open spec fn spec_div(a: Self, b: Self) -> Option<Self> {
        a.checked_div(b)
    }

    open spec fn spec_rem(a: Self, b: Self) -> Option<Self> {
        a.checked_rem(b)
    }

    open spec fn spec_add(a: Self, b: Self) -> Self {
        vstd::wrapping::u32_specs::wrapping_add(a, b)
    }

    open spec fn spec_sub(a: Self, b: Self) -> Self {
        vstd::wrapping::u32_specs::wrapping_sub(a, b)
    }

    open spec fn spec_shl(a: Self, b: u32) -> Self {
        vstd::wrapping::u32_specs::wrapping_shl(a, b)
    }

    open spec fn spec_shr(a: Self, b: u32) -> Self {
        vstd::wrapping::u32_specs::wrapping_shr(a, b)
    }

    open spec fn spec_and(a: Self, b: Self) -> Self {
        a & b
    }

    open spec fn spec_xor(a: Self, b: Self) -> Self {
        a ^ b
    }

    open spec fn spec_or(a: Self, b: Self) -> Self {
        a | b
    }

    fn from_u8(from: u8) -> (r: Self) {
        from as u32
    }

    fn is_signed() -> (r: bool) {
        false
    }

    fn max_as_u128() -> (r: u128) {
        u32::MAX as u128
    }

    fn as_u32(self) -> (r: u32) {
        self as u32
    }

    fn op_not(self) -> (r: Self) {
        !self
    }

    fn op_neg(self) -> (r: Self) {
        (0 as u32).wrapping_sub(self)
    }

    fn op_mul(self, other: Self) -> (r: Self) {
        self.wrapping_mul(other)
    }

    fn op_div(self, other: Self) -> (r: Option<Self>) {
        self.checked_div(other)
    }

    fn op_rem(self, other: Self) -> (r: Option<Self>) {
        self.checked_rem(other)
    }

    fn op_add(self, other: Self) -> (r: Self) {
        self.wrapping_add(other)
    }

    fn op_sub(self, other: Self) -> (r: Self) {
        self.wrapping_sub(other)
    }

    fn op_shl(self, other: u32) -> (r: Self) {
        self.wrapping_shl(other)
    }

    fn op_shr(self, other: u32) -> (r: Self) {
        self.wrapping_shr(other)
    }

    fn op_and(self, other: Self) -> (r: Self) {
        self & other
    }

    fn op_xor(self, other: Self) -> (r: Self) {
        self ^ other
    }

    fn op_or(self, other: Self) -> (r: Self) {
        self | other
    }
}

impl Number for u64 {
    open spec fn spec_from_u8(v: u8) -> Self {
        v as u64
    }

    open spec fn spec_is_signed() -> bool {
        false
    }

    open spec fn spec_max_as_u128() -> u128 {
        u64::MAX as u128
    }

    open spec fn spec_as_u32(a: Self) -> u32 {
        a as u32
    }

    open spec fn spec_not(a: Self) -> Self {
        !a
    }

    open spec fn spec_neg(a: Self) -> Self {
        vstd::wrapping::u64_specs::wrapping_sub(0, a)
    }

    open spec fn spec_mul(a: Self, b: Self) -> Self {
        vstd::wrapping::u64_specs::wrapping_mul(a, b)
    }

    open spec fn spec_div(a: Self, b: Self) -> Option<Self> {
        a.checked_div(b)
    }

    open spec fn spec_rem(a: Self, b: Self) -> Option<Self> {
        a.checked_rem(b)
    }

    open spec fn spec_add(a: Self, b: Self) -> Self {
        vstd::wrapping::u64_specs::wrapping_add(a, b)
    }

    open spec fn spec_sub(a: Self, b: Self) -> Self {
        vstd::wrapping::u64_specs::wrapping_sub(a, b)
    }

    open spec fn spec_shl(a: Self, b: u32) -> Self {
        vstd::wrapping::u64_specs::wrapping_shl(a, b)
    }

    open spec fn spec_shr(a: Self, b: u32) -> Self {
        vstd::wrapping::u64_specs::wrapping_shr(a, b)
    }

    open spec fn spec_and(a: Self, b: Self) -> Self {
        a & b
    }

    open spec fn spec_xor(a: Self, b: Self) -> Self {
        a ^ b
    }

    open spec fn spec_or(a: Self, b: Self) -> Self {
        a | b
    }

    fn from_u8(from: u8) -> (r: Self) {
        from as u64
    }

    fn is_signed() -> (r: bool) {
        false
    }

    fn max_as_u128() -> (r: u128) {
        u64::MAX as u128
    }

    fn as_u32(self) -> (r: u32) {
        self as u32
    }

    fn op_not(self) -> (r: Self) {
        !self
    }

    fn op_neg(self) -> (r: Self) {
        (0 as u64).wrapping_sub(self)
    }

    fn op_mul(self, other: Self) -> (r: Self) {
        self.wrapping_mul(other)
    }

    fn op_div(self, other: Self) -> (r: Option<Self>) {
        self.checked_div(other)
    }

    fn op_rem(self, other: Self) -> (r: Option<Self>) {
        self.checked_rem(other)
    }

    fn op_add(self, other: Self) -> (r: Self) {
        self.wrapping_add(other)
    }

    fn op_sub(self, other: Self) -> (r: Self) {
        self.wrapping_sub(other)
    }

    fn op_shl(self, other: u32) -> (r: Self) {
        self.wrapping_shl(other)
    }

    fn op_shr(self, other: u32) -> (r: Self) {
        self.wrapping_shr(other)
    }

    fn op_and(self, other: Self) -> (r: Self) {
        self & other
    }

    fn op_xor(self, other: Self) -> (r: Self) {
        self ^ other
    }

    fn op_or(self, other: Self) -> (r: Self) {
        self | other
    }
}

impl Number for u128 {
    open spec fn spec_from_u8(v: u8) -> Self {
        v as u128
    }

    open spec fn spec_is_signed() -> bool {
        false
    }

    open spec fn spec_max_as_u128() -> u128 {
        u128::MAX as u128
    }

    open spec fn spec_as_u32(a: Self) -> u32 {
        a as u32
    }

    open spec fn spec_not(a: Self) -> Self {
        !a
    }

    open spec fn spec_neg(a: Self) -> Self {
        vstd::wrapping::u128_specs::wrapping_sub(0, a)
    }

    open spec fn spec_mul(a: Self, b: Self) -> Self {
        vstd::wrapping::u128_specs::wrapping_mul(a, b)
    }

    open spec fn spec_div(a: Self, b: Self) -> Option<Self> {
        a.checked_div(b)
    }

    open spec fn spec_rem(a: Self, b: Self) -> Option<Self> {
        a.checked_rem(b)
    }

    open spec fn spec_add(a: Self, b: Self) -> Self {
        vstd::wrapping::u128_specs::wrapping_add(a, b)
    }

    open spec fn spec_sub(a: Self, b: Self) -> Self {
        vstd::wrapping::u128_specs::wrapping_sub(a, b)
    }

    open spec fn spec_shl(a: Self, b: u32) -> Self {
        vstd::wrapping::u128_specs::wrapping_shl(a, b)
    }

    open spec fn spec_shr(a: Self, b: u32) -> Self {
        vstd::wrapping::u128_specs::wrapping_shr(a, b)
    }

    open spec fn spec_and(a: Self, b: Self) -> Self {
        a & b
    }

    open spec fn spec_xor(a: Self, b: Self) -> Self {
        a ^ b
    }

    open spec fn spec_or(a: Self, b: Self) -> Self {
        a | b
    }

    fn from_u8(from: u8) -> (r: Self) {
        from as u128
    }

    fn is_signed() -> (r: bool) {
        false
    }

    fn max_as_u128() -> (r: u128) {
        u128::MAX as u128
    }

    fn as_u32(self) -> (r: u32) {
        self as u32
    }

    fn op_not(self) -> (r: Self) {
        !self
    }

    fn op_neg(self) -> (r: Self) {
        (0 as u128).wrapping_sub(self)
    }

    fn op_mul(self, other: Self) -> (r: Self) {
        self.wrapping_mul(other)
    }

    fn op_div(self, other: Self) -> (r: Option<Self>) {
        self.checked_div(other)
    }

    fn op_rem(self, other: Self) -> (r: Option<Self>) {
        self.checked_rem(other)
    }

    fn op_add(self, other: Self) -> (r: Self) {
        self.wrapping_add(other)
    }

    fn op_sub(self, other: Self) -> (r: Self) {
        self.wrapping_sub(other)
    }

    fn op_shl(self, other: u32) -> (r: Self) {
        self.wrapping_shl(other)
    }

    fn op_shr(self, other: u32) -> (r: Self) {
        self.wrapping_shr(other)
    }

    fn op_and(self, other: Self) -> (r: Self) {
        self & other
    }

    fn op_xor(self, other: Self) -> (r: Self) {
        self ^ other
    }

    fn op_or(self, other: Self) -> (r: Self) {
        self | other
    }
}

impl Number for usize {
    open spec fn spec_from_u8(v: u8) -> Self {
        v as usize
    }

    open spec fn spec_is_signed() -> bool {
        false
    }

    open spec fn spec_max_as_u128() -> u128 {
        usize::MAX as u128
    }

    open spec fn spec_as_u32(a: Self) -> u32 {
        a as u32
    }

    open spec fn spec_not(a: Self) -> Self {
        !a
    }

    open spec fn spec_neg(a: Self) -> Self {
        vstd::wrapping::usize_specs::wrapping_sub(0, a)
    }

    open spec fn spec_mul(a: Self, b: Self) -> Self {
        vstd::wrapping::usize_specs::wrapping_mul(a, b)
    }

    open spec fn spec_div(a: Self, b: Self) -> Option<Self> {
        a.checked_div(b)
    }

    open spec fn spec_rem(a: Self, b: Self) -> Option<Self> {
        a.checked_rem(b)
    }

    open spec fn spec_add(a: Self, b: Self) -> Self {
        vstd::wrapping::usize_specs::wrapping_add(a, b)
    }

    open spec fn spec_sub(a: Self, b: Self) -> Self {
        vstd::wrapping::usize_specs::wrapping_sub(a, b)
    }

    open spec fn spec_shl(a: Self, b: u32) -> Self {
        vstd::wrapping::usize_specs::wrapping_shl(a, b)
    }

    open spec fn spec_shr(a: Self, b: u32) -> Self {
        vstd::wrapping::usize_specs::wrapping_shr(a, b)
    }

    open spec fn spec_and(a: Self, b: Self) -> Self {
        a & b
    }

    open spec fn spec_xor(a: Self, b: Self) -> Self {
        a ^ b
    }

    open spec fn spec_or(a: Self, b: Self) -> Self {
        a | b
    }

    fn from_u8(from: u8) -> (r: Self) {
        from as usize
    }

    fn is_signed() -> (r: bool) {
        false
    }

    fn max_as_u128() -> (r: u128) {
        usize::MAX as u128
    }

    fn as_u32(self) -> (r: u32) {
        self as u32
    }

    fn op_not(self) -> (r: Self) {
        !self
    }

    fn op_neg(self) -> (r: Self) {
        (0 as usize).wrapping_sub(self)
    }

    fn op_mul(self, other: Self) -> (r: Self) {
        self.wrapping_mul(other)
    }

    fn op_div(self, other: Self) -> (r: Option<Self>) {
        self.checked_div(other)
    }

    fn op_rem(self, other: Self) -> (r: Option<Self>) {
        self.checked_rem(other)
    }

    fn op_add(self, other: Self) -> (r: Self) {
        self.wrapping_add(other)
    }

    fn op_sub(self, other: Self) -> (r: Self) {
        self.wrapping_sub(other)
    }

    fn op_shl(self, other: u32) -> (r: Self) {
        self.wrapping_shl(other)
    }

    fn op_shr(self, other: u32) -> (r: Self) {
        self.wrapping_shr(other)
    }

    fn op_and(self, other: Self) -> (r: Self) {
        self & other
    }

    fn op_xor(self, other: Self) -> (r: Self) {
        self ^ other
    }

    fn op_or(self, other: Self) -> (r: Self) {
        self | other
    }
}

impl Number for i8 {
    open spec fn spec_from_u8(v: u8) -> Self {
        v as i8
    }

    open spec fn spec_is_signed() -> bool {
        true
    }

    open spec fn spec_max_as_u128() -> u128 {
        i8::MAX as u128
    }

    open spec fn spec_as_u32(a: Self) -> u32 {
        a as u32
    }

    open spec fn spec_not(a: Self) -> Self {
        !a
    }

    open spec fn spec_neg(a: Self) -> Self {
        vstd::wrapping::i8_specs::wrapping_sub(0, a)
    }

    open spec fn spec_mul(a: Self, b: Self) -> Self {
        vstd::wrapping::i8_specs::wrapping_mul(a, b)
    }

    open spec fn spec_div(a: Self, b: Self) -> Option<Self> {
        a.checked_div(b)
    }

    open spec fn spec_rem(a: Self, b: Self) -> Option<Self> {
        a.checked_rem(b)
    }

    open spec fn spec_add(a: Self, b: Self) -> Self {
        vstd::wrapping::i8_specs::wrapping_add(a, b)
    }

    open spec fn spec_sub(a: Self, b: Self) -> Self {
        vstd::wrapping::i8_specs::wrapping_sub(a, b)
    }

    open spec fn spec_shl(a: Self, b: u32) -> Self {
        vstd::wrapping::i8_specs::wrapping_shl(a, b)
    }

    open spec fn spec_shr(a: Self, b: u32) -> Self {
        vstd::wrapping::i8_specs::wrapping_shr(a, b)
    }

    open spec fn spec_and(a: Self, b: Self) -> Self {
        a & b
    }

    open spec fn spec_xor(a: Self, b: Self) -> Self {
        a ^ b
    }

    open spec fn spec_or(a: Self, b: Self) -> Self {
        a | b
    }

    fn from_u8(from: u8) -> (r: Self) {
        from as i8
    }

    fn is_signed() -> (r: bool) {
        true
    }

    fn max_as_u128() -> (r: u128) {
        i8::MAX as u128
    }

    fn as_u32(self) -> (r: u32) {
        self as u32
    }

    fn op_not(self) -> (r: Self) {
        !self
    }

    fn op_neg(self) -> (r: Self) {
        (0 as i8).wrapping_sub(self)
    }

    fn op_mul(self, other: Self) -> (r: Self) {
        self.wrapping_mul(other)
    }

    fn op_div(self, other: Self) -> (r: Option<Self>) {
        self.checked_div(other)
    }

    fn op_rem(self, other: Self) -> (r: Option<Self>) {
        self.checked_rem(other)
    }

    fn op_add(self, other: Self) -> (r: Self) {
        self.wrapping_add(other)
    }

    fn op_sub(self, other: Self) -> (r: Self) {
        self.wrapping_sub(other)
    }

    fn op_shl(self, other: u32) -> (r: Self) {
        self.wrapping_shl(other)
    }

    fn op_shr(self, other: u32) -> (r: Self) {
        self.wrapping_shr(other)
    }

    fn op_and(self, other: Self) -> (r: Self) {
        self & other
    }

    fn op_xor(self, other: Self) -> (r: Self) {
        self ^ other
    }

    fn op_or(self, other: Self) -> (r: Self) {
        self | other
    }
}

impl Number for i16 {
    open spec fn spec_from_u8(v: u8) -> Self {
        v as i16
    }

    open spec fn spec_is_signed() -> bool {
        true
    }

    open spec fn spec_max_as_u128() -> u128 {
        i16::MAX as u128
    }

    open spec fn spec_as_u32(a: Self) -> u32 {
        a as u32
    }

    open spec fn spec_not(a: Self) -> Self {
        !a
    }

    open spec fn spec_neg(a: Self) -> Self {
        vstd::wrapping::i16_specs::wrapping_sub(0, a)
    }

    open spec fn spec_mul(a: Self, b: Self) -> Self {
        vstd::wrapping::i16_specs::wrapping_mul(a, b)
    }

    open spec fn spec_div(a: Self, b: Self) -> Option<Self> {
        a.checked_div(b)
    }

    open spec fn spec_rem(a: Self, b: Self) -> Option<Self> {
        a.checked_rem(b)
    }

    open spec fn spec_add(a: Self, b: Self) -> Self {
        vstd::wrapping::i16_specs::wrapping_add(a, b)
    }

    open spec fn spec_sub(a: Self, b: Self) -> Self {
        vstd::wrapping::i16_specs::wrapping_sub(a, b)
    }

    open spec fn spec_shl(a: Self, b: u32) -> Self {
        vstd::wrapping::i16_specs::wrapping_shl(a, b)
    }

    open spec fn spec_shr(a: Self, b: u32) -> Self {
        vstd::wrapping::i16_specs::wrapping_shr(a, b)
    }

    open spec fn spec_and(a: Self, b: Self) -> Self {
        a & b
    }

    open spec fn spec_xor(a: Self, b: Self) -> Self {
        a ^ b
    }

    open spec fn spec_or(a: Self, b: Self) -> Self {
        a | b
    }

    fn from_u8(from: u8) -> (r: Self) {
        from as i16
    }

    fn is_signed() -> (r: bool) {
        true
    }

    fn max_as_u128() -> (r: u128) {
        i16::MAX as u128
    }

    fn as_u32(self) -> (r: u32) {
        self as u32
    }

    fn op_not(self) -> (r: Self) {
        !self
    }

    fn op_neg(self) -> (r: Self) {
        (0 as i16).wrapping_sub(self)
    }

    fn op_mul(self, other: Self) -> (r: Self) {
        self.wrapping_mul(other)
    }

    fn op_div(self, other: Self) -> (r: Option<Self>) {
        self.checked_div(other)
    }

    fn op_rem(self, other: Self) -> (r: Option<Self>) {
        self.checked_rem(other)
    }

    fn op_add(self, other: Self) -> (r: Self) {
        self.wrapping_add(other)
    }

    fn op_sub(self, other: Self) -> (r: Self) {
        self.wrapping_sub(other)
    }

    fn op_shl(self, other: u32) -> (r: Self) {
        self.wrapping_shl(other)
    }

    fn op_shr(self, other: u32) -> (r: Self) {
        self.wrapping_shr(other)
    }

    fn op_and(self, other: Self) -> (r: Self) {
        self & other
    }

    fn op_xor(self, other: Self) -> (r: Self) {
        self ^ other
    }

    fn op_or(self, other: Self) -> (r: Self) {
        self | other
    }
}

impl Number for i32 {
    open spec fn spec_from_u8(v: u8) -> Self {
        v as i32
    }

    open spec fn spec_is_signed() -> bool {
        true
    }

    open spec fn spec_max_as_u128() -> u128 {
        i32::MAX as u128
    }

    open spec fn spec_as_u32(a: Self) -> u32 {
        a as u32
    }

    open spec fn spec_not(a: Self) -> Self {
        !a
    }

    open spec fn spec_neg(a: Self) -> Self {
        vstd::wrapping::i32_specs::wrapping_sub(0, a)
    }

    open spec fn spec_mul(a: Self, b: Self) -> Self {
        vstd::wrapping::i32_specs::wrapping_mul(a, b)
    }

    open spec fn spec_div(a: Self, b: Self) -> Option<Self> {
        a.checked_div(b)
    }

    open spec fn spec_rem(a: Self, b: Self) -> Option<Self> {
        a.checked_rem(b)
    }

    open spec fn spec_add(a: Self, b: Self) -> Self {
        vstd::wrapping::i32_specs::wrapping_add(a, b)
    }

    open spec fn spec_sub(a: Self, b: Self) -> Self {
        vstd::wrapping::i32_specs::wrapping_sub(a, b)
    }

    open spec fn spec_shl(a: Self, b: u32) -> Self {
        vstd::wrapping::i32_specs::wrapping_shl(a, b)
    }

    open spec fn spec_shr(a: Self, b: u32) -> Self {
        vstd::wrapping::i32_specs::wrapping_shr(a, b)
    }

    open spec fn spec_and(a: Self, b: Self) -> Self {
        a & b
    }

    open spec fn spec_xor(a: Self, b: Self) -> Self {
        a ^ b
    }

    open spec fn spec_or(a: Self, b: Self) -> Self {
        a | b
    }

    fn from_u8(from: u8) -> (r: Self) {
        from as i32
    }

    fn is_signed() -> (r: bool) {
        true
    }

    fn max_as_u128() -> (r: u128) {
        i32::MAX as u128
    }

    fn as_u32(self) -> (r: u32) {
        self as u32
    }

    fn op_not(self) -> (r: Self) {
        !self
    }

    fn op_neg(self) -> (r: Self) {
        (0 as i32).wrapping_sub(self)
    }

    fn op_mul(self, other: Self) -> (r: Self) {
        self.wrapping_mul(other)
    }

    fn op_div(self, other: Self) -> (r: Option<Self>) {
        self.checked_div(other)
    }

    fn op_rem(self, other: Self) -> (r: Option<Self>) {
        self.checked_rem(other)
    }

    fn op_add(self, other: Self) -> (r: Self) {
        self.wrapping_add(other)
    }

    fn op_sub(self, other: Self) -> (r: Self) {
        self.wrapping_sub(other)
    }

    fn op_shl(self, other: u32) -> (r: Self) {
        self.wrapping_shl(other)
    }

    fn op_shr(self, other: u32) -> (r: Self) {
        self.wrapping_shr(other)
    }

    fn op_and(self, other: Self) -> (r: Self) {
        self & other
    }

    fn op_xor(self, other: Self) -> (r: Self) {
        self ^ other
    }

    fn op_or(self, other: Self) -> (r: Self) {
        self | other
    }
}

impl Number for i64 {
    open spec fn spec_from_u8(v: u8) -> Self {
        v as i64
    }

    open spec fn spec_is_signed() -> bool {
        true
    }

    open spec fn spec_max_as_u128() -> u128 {
        i64::MAX as u128
    }

    open spec fn spec_as_u32(a: Self) -> u32 {
        a as u32
    }

    open spec fn spec_not(a: Self) -> Self {
        !a
    }

    open spec fn spec_neg(a: Self) -> Self {
        vstd::wrapping::i64_specs::wrapping_sub(0, a)
    }

    open spec fn spec_mul(a: Self, b: Self) -> Self {
        vstd::wrapping::i64_specs::wrapping_mul(a, b)
    }

    open spec fn spec_div(a: Self, b: Self) -> Option<Self> {
        a.checked_div(b)
    }

    open spec fn spec_rem(a: Self, b: Self) -> Option<Self> {
        a.checked_rem(b)
    }

    open spec fn spec_add(a: Self, b: Self) -> Self {
        vstd::wrapping::i64_specs::wrapping_add(a, b)
    }

    open spec fn spec_sub(a: Self, b: Self) -> Self {
        vstd::wrapping::i64_specs::wrapping_sub(a, b)
    }

    open spec fn spec_shl(a: Self, b: u32) -> Self {
        vstd::wrapping::i64_specs::wrapping_shl(a, b)
    }

    open spec fn spec_shr(a: Self, b: u32) -> Self {
        vstd::wrapping::i64_specs::wrapping_shr(a, b)
    }

    open spec fn spec_and(a: Self, b: Self) -> Self {
        a & b
    }

    open spec fn spec_xor(a: Self, b: Self) -> Self {
        a ^ b
    }

    open spec fn spec_or(a: Self, b: Self) -> Self {
        a | b
    }

    fn from_u8(from: u8) -> (r: Self) {
        from as i64
    }

    fn is_signed() -> (r: bool) {
        true
    }

    fn max_as_u128() -> (r: u128) {
        i64::MAX as u128
    }

    fn as_u32(self) -> (r: u32) {
        self as u32
    }

    fn op_not(self) -> (r: Self) {
        !self
    }

    fn op_neg(self) -> (r: Self) {
        (0 as i64).wrapping_sub(self)
    }

    fn op_mul(self, other: Self) -> (r: Self) {
        self.wrapping_mul(other)
    }

    fn op_div(self, other: Self) -> (r: Option<Self>) {
        self.checked_div(other)
    }

    fn op_rem(self, other: Self) -> (r: Option<Self>) {
        self.checked_rem(other)
    }

    fn op_add(self, other: Self) -> (r: Self) {
        self.wrapping_add(other)
    }

    fn op_sub(self, other: Self) -> (r: Self) {
        self.wrapping_sub(other)
    }

    fn op_shl(self, other: u32) -> (r: Self) {
        self.wrapping_shl(other)
    }

    fn op_shr(self, other: u32) -> (r: Self) {
        self.wrapping_shr(other)
    }

    fn op_and(self, other: Self) -> (r: Self) {
        self & other
    }

    fn op_xor(self, other: Self) -> (r: Self) {
        self ^ other
    }

    fn op_or(self, other: Self) -> (r: Self) {
        self | other
    }
}

impl Number for i128 {
    open spec fn spec_from_u8(v: u8) -> Self {
        v as i128
    }

    open spec fn spec_is_signed() -> bool {
        true
    }

    open spec fn spec_max_as_u128() -> u128 {
        i128::MAX as u128
    }

    open spec fn spec_as_u32(a: Self) -> u32 {
        a as u32
    }

    open spec fn spec_not(a: Self) -> Self {
        !a
    }

    open spec fn spec_neg(a: Self) -> Self {
        vstd::wrapping::i128_specs::wrapping_sub(0, a)
    }

    open spec fn spec_mul(a: Self, b: Self) -> Self {
        vstd::wrapping::i128_specs::wrapping_mul(a, b)
    }

    open spec fn spec_div(a: Self, b: Self) -> Option<Self> {
        a.checked_div(b)
    }

    open spec fn spec_rem(a: Self, b: Self) -> Option<Self> {
        a.checked_rem(b)
    }

    open spec fn spec_add(a: Self, b: Self) -> Self {
        vstd::wrapping::i128_specs::wrapping_add(a, b)
    }

    open spec fn spec_sub(a: Self, b: Self) -> Self {
        vstd::wrapping::i128_specs::wrapping_sub(a, b)
    }

    open spec fn spec_shl(a: Self, b: u32) -> Self {
        vstd::wrapping::i128_specs::wrapping_shl(a, b)
    }

    open spec fn spec_shr(a: Self, b: u32) -> Self {
        vstd::wrapping::i128_specs::wrapping_shr(a, b)
    }

    open spec fn spec_and(a: Self, b: Self) -> Self {
        a & b
    }

    open spec fn spec_xor(a: Self, b: Self) -> Self {
        a ^ b
    }

    open spec fn spec_or(a: Self, b: Self) -> Self {
        a | b
    }

    fn from_u8(from: u8) -> (r: Self) {
        from as i128
    }

    fn is_signed() -> (r: bool) {
        true
    }

    fn max_as_u128() -> (r: u128) {
        i128::MAX as u128
    }

    fn as_u32(self) -> (r: u32) {
        self as u32
    }

    fn op_not(self) -> (r: Self) {
        !self
    }

    fn op_neg(self) -> (r: Self) {
        (0 as i128).wrapping_sub(self)
    }

    fn op_mul(self, other: Self) -> (r: Self) {
        self.wrapping_mul(other)
    }

    fn op_div(self, other: Self) -> (r: Option<Self>) {
        self.checked_div(other)
    }

    fn op_rem(self, other: Self) -> (r: Option<Self>) {
        self.checked_rem(other)
    }

    fn op_add(self, other: Self) -> (r: Self) {
        self.wrapping_add(other)
    }

    fn op_sub(self, other: Self) -> (r: Self) {
        self.wrapping_sub(other)
    }

    fn op_shl(self, other: u32) -> (r: Self) {
        self.wrapping_shl(other)
    }

    fn op_shr(self, other: u32) -> (r: Self) {
        self.wrapping_shr(other)
    }

    fn op_and(self, other: Self) -> (r: Self) {
        self & other
    }

    fn op_xor(self, other: Self) -> (r: Self) {
        self ^ other
    }

    fn op_or(self, other: Self) -> (r: Self) {
        self | other
    }
}

impl Number for isize {
    open spec fn spec_from_u8(v: u8) -> Self {
        v as isize
    }

    open spec fn spec_is_signed() -> bool {
        true
    }

    open spec fn spec_max_as_u128() -> u128 {
        isize::MAX as u128
    }

    open spec fn spec_as_u32(a: Self) -> u32 {
        a as u32
    }

    open spec fn spec_not(a: Self) -> Self {
        !a
    }

    open spec fn spec_neg(a: Self) -> Self {
        vstd::wrapping::isize_specs::wrapping_sub(0, a)
    }

    open spec fn spec_mul(a: Self, b: Self) -> Self {
        vstd::wrapping::isize_specs::wrapping_mul(a, b)
    }

    open spec fn spec_div(a: Self, b: Self) -> Option<Self> {
        a.checked_div(b)
    }

    open spec fn spec_rem(a: Self, b: Self) -> Option<Self> {
        a.checked_rem(b)
    }

    open spec fn spec_add(a: Self, b: Self) -> Self {
        vstd::wrapping::isize_specs::wrapping_add(a, b)
    }

    open spec fn spec_sub(a: Self, b: Self) -> Self {
        vstd::wrapping::isize_specs::wrapping_sub(a, b)
    }

    open spec fn spec_shl(a: Self, b: u32) -> Self {
        vstd::wrapping::isize_specs::wrapping_shl(a, b)
    }

    open spec fn spec_shr(a: Self, b: u32) -> Self {
        vstd::wrapping::isize_specs::wrapping_shr(a, b)
    }

    open spec fn spec_and(a: Self, b: Self) -> Self {
        a & b
    }

    open spec fn spec_xor(a: Self, b: Self) -> Self {
        a ^ b
    }

    open spec fn spec_or(a: Self, b: Self) -> Self {
        a | b
    }

    fn from_u8(from: u8) -> (r: Self) {
        from as isize
    }

    fn is_signed() -> (r: bool) {
        true
    }

    fn max_as_u128() -> (r: u128) {
        isize::MAX as u128
    }

    fn as_u32(self) -> (r: u32) {
        self as u32
    }

    fn op_not(self) -> (r: Self) {
        !self
    }

    fn op_neg(self) -> (r: Self) {
        (0 as isize).wrapping_sub(self)
    }

    fn op_mul(self, other: Self) -> (r: Self) {
        self.wrapping_mul(other)
    }

    fn op_div(self, other: Self) -> (r: Option<Self>) {
        self.checked_div(other)
    }

    fn op_rem(self, other: Self) -> (r: Option<Self>) {
        self.checked_rem(other)
    }

    fn op_add(self, other: Self) -> (r: Self) {
        self.wrapping_add(other)
    }

    fn op_sub(self, other: Self) -> (r: Self) {
        self.wrapping_sub(other)
    }

    fn op_shl(self, other: u32) -> (r: Self) {
        self.wrapping_shl(other)
    }

    fn op_shr(self, other: u32) -> (r: Self) {
        self.wrapping_shr(other)
    }

    fn op_and(self, other: Self) -> (r: Self) {
        self & other
    }

    fn op_xor(self, other: Self) -> (r: Self) {
        self ^ other
    }

    fn op_or(self, other: Self) -> (r: Self) {
        self | other
    }
}

/// `d` is a multiple of `m`.
proof fn lemma_multiple(d: int, k: int, m: int)
    requires
        m > 0,
        d == k * m,
    ensures
        d % m == 0,
{
    vstd::arithmetic::div_mod::lemma_mod_multiples_basic(k, m);
}

/// A value within one period of `s`, and in `[0, m)`, is `s` modulo `m`.
proof fn lemma_wrap_unsigned(s: int, m: int, r: int)
    requires
        m > 0,
        0 <= r < m,
        r == s || r == s - m || r == s + m,
    ensures
        r == s % m,
{
    if r == s - m {
        vstd::arithmetic::div_mod::lemma_mod_add_multiples_vanish(s - m, m);
    } else if r == s + m {
        vstd::arithmetic::div_mod::lemma_mod_add_multiples_vanish(s, m);
    }
    vstd::arithmetic::div_mod::lemma_small_mod(r as nat, m as nat);
}

/// A value that differs from `s` by at most one period is congruent to it.
proof fn lemma_near(r: int, s: int, m: int)
    requires
        m > 0,
        r == s || r == s - m || r == s + m,
    ensures
        (r - s) % m == 0,
{
    if r == s - m {
        lemma_multiple(r - s, -1, m);
    } else if r == s + m {
        lemma_multiple(r - s, 1, m);
    } else {
        lemma_multiple(r - s, 0, m);
    }
}

/// `x` modulo `m`, possibly moved down by one period, is congruent to `x`.
proof fn lemma_crop(x: int, m: int, r: int)
    requires
        m > 0,
        r == x % m || r == x % m - m,
    ensures
        (r - x) % m == 0,
{
    vstd::arithmetic::div_mod::lemma_fundamental_div_mod(x, m);
    let q = x / m;
    assert((-q) * m == -(m * q) && (-q - 1) * m == -(m * q) - m) by (nonlinear_arith);
    if r == x % m {
        lemma_multiple(r - x, -q, m);
    } else {
        lemma_multiple(r - x, -q - 1, m);
    }
}

/// `u8` computes as Rust does in release mode: a constant is the number it
/// reads, and `+`, `-`, unary `-` and `*` give the exact result reduced
/// modulo 2 to the power of the bit width.
pub proof fn lemma_u8_arithmetic(a: u8, b: u8, v: u8)
    ensures
        <u8 as Number>::spec_from_u8(v) as int == v as int,
        <u8 as Number>::spec_add(a, b) as int == (a as int + b as int) % (256),
        <u8 as Number>::spec_sub(a, b) as int == (a as int - b as int) % (256),
        <u8 as Number>::spec_neg(a) as int == (0 - a as int) % (256),
        <u8 as Number>::spec_mul(a, b) as int == (a as int * b as int) % (256),
{
    let m: int = 256;
    lemma_wrap_unsigned(a as int + b as int, m, <u8 as Number>::spec_add(a, b) as int);
    lemma_wrap_unsigned(a as int - b as int, m, <u8 as Number>::spec_sub(a, b) as int);
    lemma_wrap_unsigned(0 - a as int, m, <u8 as Number>::spec_neg(a) as int);
}

/// `u16` computes as Rust does in release mode: a constant is the number it
/// reads, and `+`, `-`, unary `-` and `*` give the exact result reduced
/// modulo 2 to the power of the bit width.
pub proof fn lemma_u16_arithmetic(a: u16, b: u16, v: u8)
    ensures
        <u16 as Number>::spec_from_u8(v) as int == v as int,
        <u16 as Number>::spec_add(a, b) as int == (a as int + b as int) % (0x1_0000),
        <u16 as Number>::spec_sub(a, b) as int == (a as int - b as int) % (0x1_0000),
        <u16 as Number>::spec_neg(a) as int == (0 - a as int) % (0x1_0000),
        <u16 as Number>::spec_mul(a, b) as int == (a as int * b as int) % (0x1_0000),
{
    let m: int = 0x1_0000;
    lemma_wrap_unsigned(a as int + b as int, m, <u16 as Number>::spec_add(a, b) as int);
    lemma_wrap_unsigned(a as int - b as int, m, <u16 as Number>::spec_sub(a, b) as int);
    lemma_wrap_unsigned(0 - a as int, m, <u16 as Number>::spec_neg(a) as int);
}

/// `u32` computes as Rust does in release mode: a constant is the number it
/// reads, and `+`, `-`, unary `-` and `*` give the exact result reduced
/// modulo 2 to the power of the bit width.
pub proof fn lemma_u32_arithmetic(a: u32, b: u32, v: u8)
    ensures
        <u32 as Number>::spec_from_u8(v) as int == v as int,
        <u32 as Number>::spec_add(a, b) as int == (a as int + b as int) % (0x1_0000_0000),
        <u32 as Number>::spec_sub(a, b) as int == (a as int - b as int) % (0x1_0000_0000),
        <u32 as Number>::spec_neg(a) as int == (0 - a as int) % (0x1_0000_0000),
        <u32 as Number>::spec_mul(a, b) as int == (a as int * b as int) % (0x1_0000_0000),
{
    let m: int = 0x1_0000_0000;
    lemma_wrap_unsigned(a as int + b as int, m, <u32 as Number>::spec_add(a, b) as int);
    lemma_wrap_unsigned(a as int - b as int, m, <u32 as Number>::spec_sub(a, b) as int);
    lemma_wrap_unsigned(0 - a as int, m, <u32 as Number>::spec_neg(a) as int);
}

/// `u64` computes as Rust does in release mode: a constant is the number it
/// reads, and `+`, `-`, unary `-` and `*` give the exact result reduced
/// modulo 2 to the power of the bit width.
pub proof fn lemma_u64_arithmetic(a: u64, b: u64, v: u8)
    ensures
        <u64 as Number>::spec_from_u8(v) as int == v as int,
        <u64 as Number>::spec_add(a, b) as int == (a as int + b as int) % (0x1_0000_0000_0000_0000),
        <u64 as Number>::spec_sub(a, b) as int == (a as int - b as int) % (0x1_0000_0000_0000_0000),
        <u64 as Number>::spec_neg(a) as int == (0 - a as int) % (0x1_0000_0000_0000_0000),
        <u64 as Number>::spec_mul(a, b) as int == (a as int * b as int) % (0x1_0000_0000_0000_0000),
{
    let m: int = 0x1_0000_0000_0000_0000;
    lemma_wrap_unsigned(a as int + b as int, m, <u64 as Number>::spec_add(a, b) as int);
    lemma_wrap_unsigned(a as int - b as int, m, <u64 as Number>::spec_sub(a, b) as int);
    lemma_wrap_unsigned(0 - a as int, m, <u64 as Number>::spec_neg(a) as int);
}

/// `u128` computes as Rust does in release mode: a constant is the number it
/// reads, and `+`, `-`, unary `-` and `*` give the exact result reduced
/// modulo 2 to the power of the bit width.
pub proof fn lemma_u128_arithmetic(a: u128, b: u128, v: u8)
    ensures
        <u128 as Number>::spec_from_u8(v) as int == v as int,
        <u128 as Number>::spec_add(a, b) as int == (a as int + b as int) % (0x1_0000_0000_0000_0000_0000_0000_0000_0000int),
        <u128 as Number>::spec_sub(a, b) as int == (a as int - b as int) % (0x1_0000_0000_0000_0000_0000_0000_0000_0000int),
        <u128 as Number>::spec_neg(a) as int == (0 - a as int) % (0x1_0000_0000_0000_0000_0000_0000_0000_0000int),
        <u128 as Number>::spec_mul(a, b) as int == (a as int * b as int) % (0x1_0000_0000_0000_0000_0000_0000_0000_0000int),
{
    let m: int = 0x1_0000_0000_0000_0000_0000_0000_0000_0000int;
    lemma_wrap_unsigned(a as int + b as int, m, <u128 as Number>::spec_add(a, b) as int);
    lemma_wrap_unsigned(a as int - b as int, m, <u128 as Number>::spec_sub(a, b) as int);
    lemma_wrap_unsigned(0 - a as int, m, <u128 as Number>::spec_neg(a) as int);
}

/// `usize` computes as Rust does in release mode: a constant is the number it
/// reads, and `+`, `-`, unary `-` and `*` give the exact result reduced
/// modulo 2 to the power of the bit width.
pub proof fn lemma_usize_arithmetic(a: usize, b: usize, v: u8)
    ensures
        <usize as Number>::spec_from_u8(v) as int == v as int,
        <usize as Number>::spec_add(a, b) as int == (a as int + b as int) % (usize::MAX as int + 1),
        <usize as Number>::spec_sub(a, b) as int == (a as int - b as int) % (usize::MAX as int + 1),
        <usize as Number>::spec_neg(a) as int == (0 - a as int) % (usize::MAX as int + 1),
        <usize as Number>::spec_mul(a, b) as int == (a as int * b as int) % (usize::MAX as int + 1),
{
    let m: int = usize::MAX as int + 1;
    lemma_wrap_unsigned(a as int + b as int, m, <usize as Number>::spec_add(a, b) as int);
    lemma_wrap_unsigned(a as int - b as int, m, <usize as Number>::spec_sub(a, b) as int);
    lemma_wrap_unsigned(0 - a as int, m, <usize as Number>::spec_neg(a) as int);
}

/// `i8` computes as Rust does in release mode: a constant is the number it
/// reads (modulo 2 to the power of the bit width), and `+`, `-`, unary `-`
/// and `*` give a result congruent to the exact one modulo 2 to the power
/// of the bit width, which the type's range then fixes.
pub proof fn lemma_i8_arithmetic(a: i8, b: i8, v: u8)
    ensures
        (<i8 as Number>::spec_from_u8(v) as int - v as int) % (256) == 0,
        (<i8 as Number>::spec_add(a, b) as int - (a as int + b as int)) % (256) == 0,
        (<i8 as Number>::spec_sub(a, b) as int - (a as int - b as int)) % (256) == 0,
        (<i8 as Number>::spec_neg(a) as int - (0 - a as int)) % (256) == 0,
        (<i8 as Number>::spec_mul(a, b) as int - (a as int * b as int)) % (256) == 0,
{
    let m: int = 256;
    let w = v as i8;
    assert((v < 128 ==> w as i16 == v as i16) && (v >= 128 ==> w as i16 == v as i16 - 256)) by (
    bit_vector)
        requires
            w == v as i8,
    ;
    lemma_near(w as int, v as int, m);
    lemma_near(<i8 as Number>::spec_add(a, b) as int, a as int + b as int, m);
    lemma_near(<i8 as Number>::spec_sub(a, b) as int, a as int - b as int, m);
    lemma_near(<i8 as Number>::spec_neg(a) as int, 0 - a as int, m);
    lemma_crop(a as int * b as int, m, <i8 as Number>::spec_mul(a, b) as int);
}

/// `i16` computes as Rust does in release mode: a constant is the number it
/// reads (modulo 2 to the power of the bit width), and `+`, `-`, unary `-`
/// and `*` give a result congruent to the exact one modulo 2 to the power
/// of the bit width, which the type's range then fixes.
pub proof fn lemma_i16_arithmetic(a: i16, b: i16, v: u8)
    ensures
        <i16 as Number>::spec_from_u8(v) as int == v as int,
        (<i16 as Number>::spec_add(a, b) as int - (a as int + b as int)) % (0x1_0000) == 0,
        (<i16 as Number>::spec_sub(a, b) as int - (a as int - b as int)) % (0x1_0000) == 0,
        (<i16 as Number>::spec_neg(a) as int - (0 - a as int)) % (0x1_0000) == 0,
        (<i16 as Number>::spec_mul(a, b) as int - (a as int * b as int)) % (0x1_0000) == 0,
{
    let m: int = 0x1_0000;
    lemma_near(<i16 as Number>::spec_add(a, b) as int, a as int + b as int, m);
    lemma_near(<i16 as Number>::spec_sub(a, b) as int, a as int - b as int, m);
    lemma_near(<i16 as Number>::spec_neg(a) as int, 0 - a as int, m);
    lemma_crop(a as int * b as int, m, <i16 as Number>::spec_mul(a, b) as int);
}

/// `i32` computes as Rust does in release mode: a constant is the number it
/// reads (modulo 2 to the power of the bit width), and `+`, `-`, unary `-`
/// and `*` give a result congruent to the exact one modulo 2 to the power
/// of the bit width, which the type's range then fixes.
pub proof fn lemma_i32_arithmetic(a: i32, b: i32, v: u8)
    ensures
        <i32 as Number>::spec_from_u8(v) as int == v as int,
        (<i32 as Number>::spec_add(a, b) as int - (a as int + b as int)) % (0x1_0000_0000) == 0,
        (<i32 as Number>::spec_sub(a, b) as int - (a as int - b as int)) % (0x1_0000_0000) == 0,
        (<i32 as Number>::spec_neg(a) as int - (0 - a as int)) % (0x1_0000_0000) == 0,
        (<i32 as Number>::spec_mul(a, b) as int - (a as int * b as int)) % (0x1_0000_0000) == 0,
{
    let m: int = 0x1_0000_0000;
    lemma_near(<i32 as Number>::spec_add(a, b) as int, a as int + b as int, m);
    lemma_near(<i32 as Number>::spec_sub(a, b) as int, a as int - b as int, m);
    lemma_near(<i32 as Number>::spec_neg(a) as int, 0 - a as int, m);
    lemma_crop(a as int * b as int, m, <i32 as Number>::spec_mul(a, b) as int);
}

/// `i64` computes as Rust does in release mode: a constant is the number it
/// reads (modulo 2 to the power of the bit width), and `+`, `-`, unary `-`
/// and `*` give a result congruent to the exact one modulo 2 to the power
/// of the bit width, which the type's range then fixes.
pub proof fn lemma_i64_arithmetic(a: i64, b: i64, v: u8)
    ensures
        <i64 as Number>::spec_from_u8(v) as int == v as int,
        (<i64 as Number>::spec_add(a, b) as int - (a as int + b as int)) % (0x1_0000_0000_0000_0000) == 0,
        (<i64 as Number>::spec_sub(a, b) as int - (a as int - b as int)) % (0x1_0000_0000_0000_0000) == 0,
        (<i64 as Number>::spec_neg(a) as int - (0 - a as int)) % (0x1_0000_0000_0000_0000) == 0,
        (<i64 as Number>::spec_mul(a, b) as int - (a as int * b as int)) % (0x1_0000_0000_0000_0000) == 0,
{
    let m: int = 0x1_0000_0000_0000_0000;
    lemma_near(<i64 as Number>::spec_add(a, b) as int, a as int + b as int, m);
    lemma_near(<i64 as Number>::spec_sub(a, b) as int, a as int - b as int, m);
    lemma_near(<i64 as Number>::spec_neg(a) as int, 0 - a as int, m);
    lemma_crop(a as int * b as int, m, <i64 as Number>::spec_mul(a, b) as int);
}

/// `i128` computes as Rust does in release mode: a constant is the number it
/// reads (modulo 2 to the power of the bit width), and `+`, `-`, unary `-`
/// and `*` give a result congruent to the exact one modulo 2 to the power
/// of the bit width, which the type's range then fixes.
pub proof fn lemma_i128_arithmetic(a: i128, b: i128, v: u8)
    ensures
        <i128 as Number>::spec_from_u8(v) as int == v as int,
        (<i128 as Number>::spec_add(a, b) as int - (a as int + b as int)) % (0x1_0000_0000_0000_0000_0000_0000_0000_0000int) == 0,
        (<i128 as Number>::spec_sub(a, b) as int - (a as int - b as int)) % (0x1_0000_0000_0000_0000_0000_0000_0000_0000int) == 0,
        (<i128 as Number>::spec_neg(a) as int - (0 - a as int)) % (0x1_0000_0000_0000_0000_0000_0000_0000_0000int) == 0,
        (<i128 as Number>::spec_mul(a, b) as int - (a as int * b as int)) % (0x1_0000_0000_0000_0000_0000_0000_0000_0000int) == 0,
{
    let m: int = 0x1_0000_0000_0000_0000_0000_0000_0000_0000int;
    lemma_near(<i128 as Number>::spec_add(a, b) as int, a as int + b as int, m);
    lemma_near(<i128 as Number>::spec_sub(a, b) as int, a as int - b as int, m);
    lemma_near(<i128 as Number>::spec_neg(a) as int, 0 - a as int, m);
    lemma_crop(a as int * b as int, m, <i128 as Number>::spec_mul(a, b) as int);
}

/// `isize` computes as Rust does in release mode: a constant is the number it
/// reads (modulo 2 to the power of the bit width), and `+`, `-`, unary `-`
/// and `*` give a result congruent to the exact one modulo 2 to the power
/// of the bit width, which the type's range then fixes.
pub proof fn lemma_isize_arithmetic(a: isize, b: isize, v: u8)
    ensures
        <isize as Number>::spec_from_u8(v) as int == v as int,
        (<isize as Number>::spec_add(a, b) as int - (a as int + b as int)) % (usize::MAX as int + 1) == 0,
        (<isize as Number>::spec_sub(a, b) as int - (a as int - b as int)) % (usize::MAX as int + 1) == 0,
        (<isize as Number>::spec_neg(a) as int - (0 - a as int)) % (usize::MAX as int + 1) == 0,
        (<isize as Number>::spec_mul(a, b) as int - (a as int * b as int)) % (usize::MAX as int + 1) == 0,
{
    let m: int = usize::MAX as int + 1;
    lemma_near(<isize as Number>::spec_add(a, b) as int, a as int + b as int, m);
    lemma_near(<isize as Number>::spec_sub(a, b) as int, a as int - b as int, m);
    lemma_near(<isize as Number>::spec_neg(a) as int, 0 - a as int, m);
    lemma_crop(a as int * b as int, m, <isize as Number>::spec_mul(a, b) as int);
}


/// The absolute value.
pub open spec fn abs(x: int) -> int {
    if x < 0 {
        -x
    } else {
        x
    }
}

/// The quotient of `x` by `d` rounded toward zero, in the form Rust's
/// checked division on signed numbers is specified.
spec fn trunc_div(x: int, d: int) -> int {
    if x == 0 {
        0
    } else if x > 0 && d > 0 {
        x / d
    } else if x < 0 && d < 0 {
        ((x * -1) / (d * -1))
    } else if x < 0 {
        ((x * -1) / d) * -1
    } else {
        (x / (d * -1)) * -1
    }
}

/// The remainder that goes with `trunc_div`.
spec fn trunc_rem(x: int, d: int) -> int {
    if x == 0 {
        0
    } else if x > 0 && d > 0 {
        x % d
    } else if x < 0 && d < 0 {
        ((x * -1) % (d * -1)) * -1
    } else if x < 0 {
        ((x * -1) % d) * -1
    } else {
        x % (d * -1)
    }
}

/// Division rounded toward zero: the quotient times the divisor plus the
/// remainder gives the dividend, the remainder is smaller than the divisor
/// and has the dividend's sign, and the quotient is no larger than the
/// dividend (at most half of it for a divisor of 2 or more).
proof fn lemma_trunc(x: int, d: int)
    requires
        d != 0,
    ensures
        trunc_div(x, d) * d + trunc_rem(x, d) == x,
        abs(trunc_rem(x, d)) < abs(d),
        trunc_rem(x, d) == 0 || (trunc_rem(x, d) < 0) == (x < 0),
        abs(trunc_div(x, d)) <= abs(x),
        abs(d) >= 2 ==> 2 * abs(trunc_div(x, d)) <= abs(x),
        trunc_div(x, d) == 0 || (trunc_div(x, d) > 0) == ((x > 0) == (d > 0)),
{
    let ax = abs(x);
    let ad = abs(d);
    vstd::arithmetic::div_mod::lemma_fundamental_div_mod(ax, ad);
    vstd::arithmetic::div_mod::lemma_mod_bound(ax, ad);
    let q = ax / ad;
    let r = ax % ad;
    assert(q >= 0) by {
        vstd::arithmetic::div_mod::lemma_div_pos_is_pos(ax, ad);
    }
    assert(q <= ax && (ad >= 2 ==> 2 * q <= ax)) by (nonlinear_arith)
        requires
            ax == ad * q + r,
            0 <= r < ad,
            q >= 0,
            ad >= 1,
    ;
    if x == 0 {
        assert(trunc_div(x, d) == 0 && trunc_rem(x, d) == 0);
        assert(0 * d == 0) by (nonlinear_arith);
    } else if x > 0 && d > 0 {
        assert(trunc_div(x, d) == q && trunc_rem(x, d) == r);
        assert(q * d == ad * q) by (nonlinear_arith)
            requires
                d == ad,
        ;
    } else if x < 0 && d < 0 {
        assert(trunc_div(x, d) == q && trunc_rem(x, d) == -r);
        assert(q * d == -(ad * q)) by (nonlinear_arith)
            requires
                d == -ad,
        ;
    } else if x < 0 {
        assert(trunc_div(x, d) == -q && trunc_rem(x, d) == -r);
        assert((-q) * d == -(ad * q)) by (nonlinear_arith)
            requires
                d == ad,
        ;
    } else {
        assert(trunc_div(x, d) == -q && trunc_rem(x, d) == r);
        assert((-q) * d == ad * q) by (nonlinear_arith)
            requires
                d == -ad,
        ;
    }
}

/// `u8` divides as Rust does: by zero there is no result; else the
/// quotient times the divisor plus the remainder gives the dividend, with
/// the remainder below the divisor.
pub proof fn lemma_u8_division(a: u8, b: u8)
    ensures
        b == 0 ==> <u8 as Number>::spec_div(a, b) is None && <u8 as Number>::spec_rem(a, b) is None,
        b != 0 ==> <u8 as Number>::spec_div(a, b) is Some && <u8 as Number>::spec_rem(a, b) is Some
            && <u8 as Number>::spec_div(a, b).unwrap() as int * b as int
            + <u8 as Number>::spec_rem(a, b).unwrap() as int == a as int
            && <u8 as Number>::spec_rem(a, b).unwrap() < b,
{
    if b != 0 {
        let x = a as int;
        let d = b as int;
        vstd::arithmetic::div_mod::lemma_fundamental_div_mod(x, d);
        vstd::arithmetic::div_mod::lemma_mod_bound(x, d);
        assert(<u8 as Number>::spec_div(a, b).unwrap() as int == x / d);
        assert(<u8 as Number>::spec_rem(a, b).unwrap() as int == x % d);
        assert((x / d) * d == d * (x / d)) by (nonlinear_arith);
    }
}

/// `u16` divides as Rust does: by zero there is no result; else the
/// quotient times the divisor plus the remainder gives the dividend, with
/// the remainder below the divisor.
pub proof fn lemma_u16_division(a: u16, b: u16)
    ensures
        b == 0 ==> <u16 as Number>::spec_div(a, b) is None && <u16 as Number>::spec_rem(a, b) is None,
        b != 0 ==> <u16 as Number>::spec_div(a, b) is Some && <u16 as Number>::spec_rem(a, b) is Some
            && <u16 as Number>::spec_div(a, b).unwrap() as int * b as int
            + <u16 as Number>::spec_rem(a, b).unwrap() as int == a as int
            && <u16 as Number>::spec_rem(a, b).unwrap() < b,
{
    if b != 0 {
        let x = a as int;
        let d = b as int;
        vstd::arithmetic::div_mod::lemma_fundamental_div_mod(x, d);
        vstd::arithmetic::div_mod::lemma_mod_bound(x, d);
        assert(<u16 as Number>::spec_div(a, b).unwrap() as int == x / d);
        assert(<u16 as Number>::spec_rem(a, b).unwrap() as int == x % d);
        assert((x / d) * d == d * (x / d)) by (nonlinear_arith);
    }
}

/// `u32` divides as Rust does: by zero there is no result; else the
/// quotient times the divisor plus the remainder gives the dividend, with
/// the remainder below the divisor.
pub proof fn lemma_u32_division(a: u32, b: u32)
    ensures
        b == 0 ==> <u32 as Number>::spec_div(a, b) is None && <u32 as Number>::spec_rem(a, b) is None,
        b != 0 ==> <u32 as Number>::spec_div(a, b) is Some && <u32 as Number>::spec_rem(a, b) is Some
            && <u32 as Number>::spec_div(a, b).unwrap() as int * b as int
            + <u32 as Number>::spec_rem(a, b).unwrap() as int == a as int
            && <u32 as Number>::spec_rem(a, b).unwrap() < b,
{
    if b != 0 {
        let x = a as int;
        let d = b as int;
        vstd::arithmetic::div_mod::lemma_fundamental_div_mod(x, d);
        vstd::arithmetic::div_mod::lemma_mod_bound(x, d);
        assert(<u32 as Number>::spec_div(a, b).unwrap() as int == x / d);
        assert(<u32 as Number>::spec_rem(a, b).unwrap() as int == x % d);
        assert((x / d) * d == d * (x / d)) by (nonlinear_arith);
    }
}

/// `u64` divides as Rust does: by zero there is no result; else the
/// quotient times the divisor plus the remainder gives the dividend, with
/// the remainder below the divisor.
pub proof fn lemma_u64_division(a: u64, b: u64)
    ensures
        b == 0 ==> <u64 as Number>::spec_div(a, b) is None && <u64 as Number>::spec_rem(a, b) is None,
        b != 0 ==> <u64 as Number>::spec_div(a, b) is Some && <u64 as Number>::spec_rem(a, b) is Some
            && <u64 as Number>::spec_div(a, b).unwrap() as int * b as int
            + <u64 as Number>::spec_rem(a, b).unwrap() as int == a as int
            && <u64 as Number>::spec_rem(a, b).unwrap() < b,
{
    if b != 0 {
        let x = a as int;
        let d = b as int;
        vstd::arithmetic::div_mod::lemma_fundamental_div_mod(x, d);
        vstd::arithmetic::div_mod::lemma_mod_bound(x, d);
        assert(<u64 as Number>::spec_div(a, b).unwrap() as int == x / d);
        assert(<u64 as Number>::spec_rem(a, b).unwrap() as int == x % d);
        assert((x / d) * d == d * (x / d)) by (nonlinear_arith);
    }
}

/// `u128` divides as Rust does: by zero there is no result; else the
/// quotient times the divisor plus the remainder gives the dividend, with
/// the remainder below the divisor.
pub proof fn lemma_u128_division(a: u128, b: u128)
    ensures
        b == 0 ==> <u128 as Number>::spec_div(a, b) is None && <u128 as Number>::spec_rem(a, b) is None,
        b != 0 ==> <u128 as Number>::spec_div(a, b) is Some && <u128 as Number>::spec_rem(a, b) is Some
            && <u128 as Number>::spec_div(a, b).unwrap() as int * b as int
            + <u128 as Number>::spec_rem(a, b).unwrap() as int == a as int
            && <u128 as Number>::spec_rem(a, b).unwrap() < b,
{
    if b != 0 {
        let x = a as int;
        let d = b as int;
        vstd::arithmetic::div_mod::lemma_fundamental_div_mod(x, d);
        vstd::arithmetic::div_mod::lemma_mod_bound(x, d);
        assert(<u128 as Number>::spec_div(a, b).unwrap() as int == x / d);
        assert(<u128 as Number>::spec_rem(a, b).unwrap() as int == x % d);
        assert((x / d) * d == d * (x / d)) by (nonlinear_arith);
    }
}

/// `usize` divides as Rust does: by zero there is no result; else the
/// quotient times the divisor plus the remainder gives the dividend, with
/// the remainder below the divisor.
pub proof fn lemma_usize_division(a: usize, b: usize)
    ensures
        b == 0 ==> <usize as Number>::spec_div(a, b) is None && <usize as Number>::spec_rem(a, b) is None,
        b != 0 ==> <usize as Number>::spec_div(a, b) is Some && <usize as Number>::spec_rem(a, b) is Some
            && <usize as Number>::spec_div(a, b).unwrap() as int * b as int
            + <usize as Number>::spec_rem(a, b).unwrap() as int == a as int
            && <usize as Number>::spec_rem(a, b).unwrap() < b,
{
    if b != 0 {
        let x = a as int;
        let d = b as int;
        vstd::arithmetic::div_mod::lemma_fundamental_div_mod(x, d);
        vstd::arithmetic::div_mod::lemma_mod_bound(x, d);
        assert(<usize as Number>::spec_div(a, b).unwrap() as int == x / d);
        assert(<usize as Number>::spec_rem(a, b).unwrap() as int == x % d);
        assert((x / d) * d == d * (x / d)) by (nonlinear_arith);
    }
}

/// `i8` divides as Rust does, rounding toward zero: by zero, and for the
/// minimum divided by -1, there is no result; else the quotient times the
/// divisor plus the remainder gives the dividend, the remainder is smaller
/// than the divisor and has the dividend's sign.
pub proof fn lemma_i8_division(a: i8, b: i8)
    ensures
        b == 0 || (a == i8::MIN && b == -1) ==> <i8 as Number>::spec_div(a, b) is None
            && <i8 as Number>::spec_rem(a, b) is None,
        b != 0 && !(a == i8::MIN && b == -1) ==> <i8 as Number>::spec_div(a, b) is Some
            && <i8 as Number>::spec_rem(a, b) is Some
            && <i8 as Number>::spec_div(a, b).unwrap() as int * b as int
            + <i8 as Number>::spec_rem(a, b).unwrap() as int == a as int
            && abs(<i8 as Number>::spec_rem(a, b).unwrap() as int) < abs(b as int)
            && (<i8 as Number>::spec_rem(a, b).unwrap() == 0 || (<i8 as Number>::spec_rem(
            a,
            b,
        ).unwrap() < 0) == (a < 0)),
{
    if b != 0 {
        lemma_trunc(a as int, b as int);
    }
    if a == i8::MIN && b == -1 {
        let x = a as int * -1;
        assert(x / 1 == x);
        assert((a as int * -1) / (b as int * -1) == x);
    }
}

/// `i16` divides as Rust does, rounding toward zero: by zero, and for the
/// minimum divided by -1, there is no result; else the quotient times the
/// divisor plus the remainder gives the dividend, the remainder is smaller
/// than the divisor and has the dividend's sign.
pub proof fn lemma_i16_division(a: i16, b: i16)
    ensures
        b == 0 || (a == i16::MIN && b == -1) ==> <i16 as Number>::spec_div(a, b) is None
            && <i16 as Number>::spec_rem(a, b) is None,
        b != 0 && !(a == i16::MIN && b == -1) ==> <i16 as Number>::spec_div(a, b) is Some
            && <i16 as Number>::spec_rem(a, b) is Some
            && <i16 as Number>::spec_div(a, b).unwrap() as int * b as int
            + <i16 as Number>::spec_rem(a, b).unwrap() as int == a as int
            && abs(<i16 as Number>::spec_rem(a, b).unwrap() as int) < abs(b as int)
            && (<i16 as Number>::spec_rem(a, b).unwrap() == 0 || (<i16 as Number>::spec_rem(
            a,
            b,
        ).unwrap() < 0) == (a < 0)),
{
    if b != 0 {
        lemma_trunc(a as int, b as int);
    }
    if a == i16::MIN && b == -1 {
        let x = a as int * -1;
        assert(x / 1 == x);
        assert((a as int * -1) / (b as int * -1) == x);
    }
}

/// `i32` divides as Rust does, rounding toward zero: by zero, and for the
/// minimum divided by -1, there is no result; else the quotient times the
/// divisor plus the remainder gives the dividend, the remainder is smaller
/// than the divisor and has the dividend's sign.
pub proof fn lemma_i32_division(a: i32, b: i32)
    ensures
        b == 0 || (a == i32::MIN && b == -1) ==> <i32 as Number>::spec_div(a, b) is None
            && <i32 as Number>::spec_rem(a, b) is None,
        b != 0 && !(a == i32::MIN && b == -1) ==> <i32 as Number>::spec_div(a, b) is Some
            && <i32 as Number>::spec_rem(a, b) is Some
            && <i32 as Number>::spec_div(a, b).unwrap() as int * b as int
            + <i32 as Number>::spec_rem(a, b).unwrap() as int == a as int
            && abs(<i32 as Number>::spec_rem(a, b).unwrap() as int) < abs(b as int)
            && (<i32 as Number>::spec_rem(a, b).unwrap() == 0 || (<i32 as Number>::spec_rem(
            a,
            b,
        ).unwrap() < 0) == (a < 0)),
{
    if b != 0 {
        lemma_trunc(a as int, b as int);
    }
    if a == i32::MIN && b == -1 {
        let x = a as int * -1;
        assert(x / 1 == x);
        assert((a as int * -1) / (b as int * -1) == x);
    }
}

/// `i64` divides as Rust does, rounding toward zero: by zero, and for the
/// minimum divided by -1, there is no result; else the quotient times the
/// divisor plus the remainder gives the dividend, the remainder is smaller
/// than the divisor and has the dividend's sign.
pub proof fn lemma_i64_division(a: i64, b: i64)
    ensures
        b == 0 || (a == i64::MIN && b == -1) ==> <i64 as Number>::spec_div(a, b) is None
            && <i64 as Number>::spec_rem(a, b) is None,
        b != 0 && !(a == i64::MIN && b == -1) ==> <i64 as Number>::spec_div(a, b) is Some
            && <i64 as Number>::spec_rem(a, b) is Some
            && <i64 as Number>::spec_div(a, b).unwrap() as int * b as int
            + <i64 as Number>::spec_rem(a, b).unwrap() as int == a as int
            && abs(<i64 as Number>::spec_rem(a, b).unwrap() as int) < abs(b as int)
            && (<i64 as Number>::spec_rem(a, b).unwrap() == 0 || (<i64 as Number>::spec_rem(
            a,
            b,
        ).unwrap() < 0) == (a < 0)),
{
    if b != 0 {
        lemma_trunc(a as int, b as int);
    }
    if a == i64::MIN && b == -1 {
        let x = a as int * -1;
        assert(x / 1 == x);
        assert((a as int * -1) / (b as int * -1) == x);
    }
}

/// `i128` divides as Rust does, rounding toward zero: by zero, and for the
/// minimum divided by -1, there is no result; else the quotient times the
/// divisor plus the remainder gives the dividend, the remainder is smaller
/// than the divisor and has the dividend's sign.
pub proof fn lemma_i128_division(a: i128, b: i128)
    ensures
        b == 0 || (a == i128::MIN && b == -1) ==> <i128 as Number>::spec_div(a, b) is None
            && <i128 as Number>::spec_rem(a, b) is None,
        b != 0 && !(a == i128::MIN && b == -1) ==> <i128 as Number>::spec_div(a, b) is Some
            && <i128 as Number>::spec_rem(a, b) is Some
            && <i128 as Number>::spec_div(a, b).unwrap() as int * b as int
            + <i128 as Number>::spec_rem(a, b).unwrap() as int == a as int
            && abs(<i128 as Number>::spec_rem(a, b).unwrap() as int) < abs(b as int)
            && (<i128 as Number>::spec_rem(a, b).unwrap() == 0 || (<i128 as Number>::spec_rem(
            a,
            b,
        ).unwrap() < 0) == (a < 0)),
{
    if b != 0 {
        lemma_trunc(a as int, b as int);
    }
    if a == i128::MIN && b == -1 {
        let x = a as int * -1;
        assert(x / 1 == x);
        assert((a as int * -1) / (b as int * -1) == x);
    }
}

/// `isize` divides as Rust does, rounding toward zero: by zero, and for the
/// minimum divided by -1, there is no result; else the quotient times the
/// divisor plus the remainder gives the dividend, the remainder is smaller
/// than the divisor and has the dividend's sign.
pub proof fn lemma_isize_division(a: isize, b: isize)
    ensures
        b == 0 || (a == isize::MIN && b == -1) ==> <isize as Number>::spec_div(a, b) is None
            && <isize as Number>::spec_rem(a, b) is None,
        b != 0 && !(a == isize::MIN && b == -1) ==> <isize as Number>::spec_div(a, b) is Some
            && <isize as Number>::spec_rem(a, b) is Some
            && <isize as Number>::spec_div(a, b).unwrap() as int * b as int
            + <isize as Number>::spec_rem(a, b).unwrap() as int == a as int
            && abs(<isize as Number>::spec_rem(a, b).unwrap() as int) < abs(b as int)
            && (<isize as Number>::spec_rem(a, b).unwrap() == 0 || (<isize as Number>::spec_rem(
            a,
            b,
        ).unwrap() < 0) == (a < 0)),
{
    if b != 0 {
        lemma_trunc(a as int, b as int);
    }
    if a == isize::MIN && b == -1 {
        let x = a as int * -1;
        assert(x / 1 == x);
        assert((a as int * -1) / (b as int * -1) == x);
    }
}



/// Facts of the bits of u8 and i8 words.
proof fn lemma_bits_8()
    by (bit_vector)
    ensures
        forall|a: u8| #[trigger] (!a) + a == u8::MAX,
        forall|a: i8| #[trigger] (!a) + a == -1,
        forall|a: u8, b: u8, i: u32| i < 8 ==> ((#[trigger] ((a & b) >> i)) & 1 == 1) == ((a >> i) & 1 == 1 && (b >> i) & 1 == 1),
        forall|a: u8, b: u8, i: u32| i < 8 ==> ((#[trigger] ((a | b) >> i)) & 1 == 1) == ((a >> i) & 1 == 1 || (b >> i) & 1 == 1),
        forall|a: u8, b: u8, i: u32| i < 8 ==> ((#[trigger] ((a ^ b) >> i)) & 1 == 1) == (((a >> i) & 1 == 1) != ((b >> i) & 1 == 1)),
        forall|a: u8, k: u32, i: u32| k < 8 && i < 8 ==> ((#[trigger] ((a << k) >> i)) & 1 == 1) == (i >= k && (a >> ((i - k) as u32)) & 1 == 1),
        forall|a: u8, i: u32| i < 32 && i < 8 ==> ((#[trigger] ((a as u32) >> i)) & 1 == 1) == ((a >> i) & 1 == 1),
        forall|a: i8, b: i8, i: u32| i < 8 ==> ((#[trigger] ((a & b) >> i)) & 1 == 1) == ((a >> i) & 1 == 1 && (b >> i) & 1 == 1),
        forall|a: i8, b: i8, i: u32| i < 8 ==> ((#[trigger] ((a | b) >> i)) & 1 == 1) == ((a >> i) & 1 == 1 || (b >> i) & 1 == 1),
        forall|a: i8, b: i8, i: u32| i < 8 ==> ((#[trigger] ((a ^ b) >> i)) & 1 == 1) == (((a >> i) & 1 == 1) != ((b >> i) & 1 == 1)),
        forall|a: i8, k: u32, i: u32| k < 8 && i < 8 ==> ((#[trigger] ((a << k) >> i)) & 1 == 1) == (i >= k && (a >> ((i - k) as u32)) & 1 == 1),
        forall|a: i8, i: u32| i < 32 && i < 8 ==> ((#[trigger] ((a as u32) >> i)) & 1 == 1) == ((a >> i) & 1 == 1),
        forall|a: u8, k: u32, i: u32| k < 8 && i < 8 ==> ((#[trigger] ((a >> k) >> i)) & 1 == 1) == (i + k < 8 && (a >> ((i + k) as u32)) & 1 == 1),
        forall|a: i8, k: u32, i: u32| k < 8 && i < 8 ==> ((#[trigger] ((a >> k) >> i)) & 1 == 1) == (if i + k < 8 { (a >> ((i + k) as u32)) & 1 == 1 } else { a < 0 }),
{
}

/// The bits of `u8` words behave as Rust's operators make them: `!` flips
/// every bit, `&`, `|` and `^` combine the bits of the same place, `<<` and
/// `>>` move them by the shift amount modulo the bit width (`>>` repeating
/// the sign bit, filling with zeros), and `as u32` keeps
/// the lowest 32 bits. The type is unsigned and its maximum is
/// 255.
pub proof fn lemma_u8_bits(a: u8, b: u8, c: u32, i: u32)
    requires
        i < 8,
    ensures
        <u8 as Number>::spec_not(a) as int == u8::MAX as int - a as int,
        ((<u8 as Number>::spec_and(a, b) >> i) & 1 == 1) == (((a >> i) & 1 == 1) && ((b >> i) & 1 == 1)),
        ((<u8 as Number>::spec_or(a, b) >> i) & 1 == 1) == (((a >> i) & 1 == 1) || ((b >> i) & 1 == 1)),
        ((<u8 as Number>::spec_xor(a, b) >> i) & 1 == 1) == (((a >> i) & 1 == 1) != ((b >> i) & 1 == 1)),
        ((<u8 as Number>::spec_shl(a, c) >> i) & 1 == 1) == (i >= c % 8 && ((a >> ((i - c % 8) as u32)) & 1 == 1)),
        ((<u8 as Number>::spec_shr(a, c) >> i) & 1 == 1) == (i + c % 8 < 8 && ((a >> ((i + c % 8) as u32)) & 1 == 1)),
        i < 32 ==> ((<u8 as Number>::spec_as_u32(a) >> i) & 1 == 1) == ((a >> i) & 1 == 1),
        <u8 as Number>::spec_is_signed() == false,
        <u8 as Number>::spec_max_as_u128() == 255,
{
    lemma_bits_8();
    let k = c % 8;
    assert(((a & b) >> i) & 1 == 1 <==> (((a >> i) & 1 == 1) && ((b >> i) & 1 == 1)));
    assert(((a | b) >> i) & 1 == 1 <==> (((a >> i) & 1 == 1) || ((b >> i) & 1 == 1)));
    assert(((a ^ b) >> i) & 1 == 1 <==> (((a >> i) & 1 == 1) != ((b >> i) & 1 == 1)));
    assert(((a << k) >> i) & 1 == 1 <==> (i >= k && ((a >> ((i - k) as u32)) & 1 == 1)));
    if i < 32 {
        assert(((a as u32) >> i) & 1 == 1 <==> ((a >> i) & 1 == 1));
    }
    assert((!a) + a == u8::MAX);
}

/// The bits of `i8` words behave as Rust's operators make them: `!` flips
/// every bit, `&`, `|` and `^` combine the bits of the same place, `<<` and
/// `>>` move them by the shift amount modulo the bit width (`>>` repeating
/// the sign bit for this signed type), and `as u32` keeps
/// the lowest 32 bits. The type is signed and its maximum is
/// 0x7f.
pub proof fn lemma_i8_bits(a: i8, b: i8, c: u32, i: u32)
    requires
        i < 8,
    ensures
        <i8 as Number>::spec_not(a) as int == -1 - a as int,
        ((<i8 as Number>::spec_and(a, b) >> i) & 1 == 1) == (((a >> i) & 1 == 1) && ((b >> i) & 1 == 1)),
        ((<i8 as Number>::spec_or(a, b) >> i) & 1 == 1) == (((a >> i) & 1 == 1) || ((b >> i) & 1 == 1)),
        ((<i8 as Number>::spec_xor(a, b) >> i) & 1 == 1) == (((a >> i) & 1 == 1) != ((b >> i) & 1 == 1)),
        ((<i8 as Number>::spec_shl(a, c) >> i) & 1 == 1) == (i >= c % 8 && ((a >> ((i - c % 8) as u32)) & 1 == 1)),
        ((<i8 as Number>::spec_shr(a, c) >> i) & 1 == 1) == (if i + c % 8 < 8 { ((a >> ((i + c % 8) as u32)) & 1 == 1) } else { a < 0 }),
        i < 32 ==> ((<i8 as Number>::spec_as_u32(a) >> i) & 1 == 1) == ((a >> i) & 1 == 1),
        <i8 as Number>::spec_is_signed() == true,
        <i8 as Number>::spec_max_as_u128() == 0x7f,
{
    lemma_bits_8();
    let k = c % 8;
    assert(((a & b) >> i) & 1 == 1 <==> (((a >> i) & 1 == 1) && ((b >> i) & 1 == 1)));
    assert(((a | b) >> i) & 1 == 1 <==> (((a >> i) & 1 == 1) || ((b >> i) & 1 == 1)));
    assert(((a ^ b) >> i) & 1 == 1 <==> (((a >> i) & 1 == 1) != ((b >> i) & 1 == 1)));
    assert(((a << k) >> i) & 1 == 1 <==> (i >= k && ((a >> ((i - k) as u32)) & 1 == 1)));
    if i < 32 {
        assert(((a as u32) >> i) & 1 == 1 <==> ((a >> i) & 1 == 1));
    }
    assert((!a) + a == -1);
}

/// Facts of the bits of u16 and i16 words.
proof fn lemma_bits_16()
    by (bit_vector)
    ensures
        forall|a: u16| #[trigger] (!a) + a == u16::MAX,
        forall|a: i16| #[trigger] (!a) + a == -1,
        forall|a: u16, b: u16, i: u32| i < 16 ==> ((#[trigger] ((a & b) >> i)) & 1 == 1) == ((a >> i) & 1 == 1 && (b >> i) & 1 == 1),
        forall|a: u16, b: u16, i: u32| i < 16 ==> ((#[trigger] ((a | b) >> i)) & 1 == 1) == ((a >> i) & 1 == 1 || (b >> i) & 1 == 1),
        forall|a: u16, b: u16, i: u32| i < 16 ==> ((#[trigger] ((a ^ b) >> i)) & 1 == 1) == (((a >> i) & 1 == 1) != ((b >> i) & 1 == 1)),
        forall|a: u16, k: u32, i: u32| k < 16 && i < 16 ==> ((#[trigger] ((a << k) >> i)) & 1 == 1) == (i >= k && (a >> ((i - k) as u32)) & 1 == 1),
        forall|a: u16, i: u32| i < 32 && i < 16 ==> ((#[trigger] ((a as u32) >> i)) & 1 == 1) == ((a >> i) & 1 == 1),
        forall|a: i16, b: i16, i: u32| i < 16 ==> ((#[trigger] ((a & b) >> i)) & 1 == 1) == ((a >> i) & 1 == 1 && (b >> i) & 1 == 1),
        forall|a: i16, b: i16, i: u32| i < 16 ==> ((#[trigger] ((a | b) >> i)) & 1 == 1) == ((a >> i) & 1 == 1 || (b >> i) & 1 == 1),
        forall|a: i16, b: i16, i: u32| i < 16 ==> ((#[trigger] ((a ^ b) >> i)) & 1 == 1) == (((a >> i) & 1 == 1) != ((b >> i) & 1 == 1)),
        forall|a: i16, k: u32, i: u32| k < 16 && i < 16 ==> ((#[trigger] ((a << k) >> i)) & 1 == 1) == (i >= k && (a >> ((i - k) as u32)) & 1 == 1),
        forall|a: i16, i: u32| i < 32 && i < 16 ==> ((#[trigger] ((a as u32) >> i)) & 1 == 1) == ((a >> i) & 1 == 1),
        forall|a: u16, k: u32, i: u32| k < 16 && i < 16 ==> ((#[trigger] ((a >> k) >> i)) & 1 == 1) == (i + k < 16 && (a >> ((i + k) as u32)) & 1 == 1),
        forall|a: i16, k: u32, i: u32| k < 16 && i < 16 ==> ((#[trigger] ((a >> k) >> i)) & 1 == 1) == (if i + k < 16 { (a >> ((i + k) as u32)) & 1 == 1 } else { a < 0 }),
{
}

/// The bits of `u16` words behave as Rust's operators make them: `!` flips
/// every bit, `&`, `|` and `^` combine the bits of the same place, `<<` and
/// `>>` move them by the shift amount modulo the bit width (`>>` repeating
/// the sign bit, filling with zeros), and `as u32` keeps
/// the lowest 32 bits. The type is unsigned and its maximum is
/// 0xffff.
pub proof fn lemma_u16_bits(a: u16, b: u16, c: u32, i: u32)
    requires
        i < 16,
    ensures
        <u16 as Number>::spec_not(a) as int == u16::MAX as int - a as int,
        ((<u16 as Number>::spec_and(a, b) >> i) & 1 == 1) == (((a >> i) & 1 == 1) && ((b >> i) & 1 == 1)),
        ((<u16 as Number>::spec_or(a, b) >> i) & 1 == 1) == (((a >> i) & 1 == 1) || ((b >> i) & 1 == 1)),
        ((<u16 as Number>::spec_xor(a, b) >> i) & 1 == 1) == (((a >> i) & 1 == 1) != ((b >> i) & 1 == 1)),
        ((<u16 as Number>::spec_shl(a, c) >> i) & 1 == 1) == (i >= c % 16 && ((a >> ((i - c % 16) as u32)) & 1 == 1)),
        ((<u16 as Number>::spec_shr(a, c) >> i) & 1 == 1) == (i + c % 16 < 16 && ((a >> ((i + c % 16) as u32)) & 1 == 1)),
        i < 32 ==> ((<u16 as Number>::spec_as_u32(a) >> i) & 1 == 1) == ((a >> i) & 1 == 1),
        <u16 as Number>::spec_is_signed() == false,
        <u16 as Number>::spec_max_as_u128() == 0xffff,
{
    lemma_bits_16();
    let k = c % 16;
    assert(((a & b) >> i) & 1 == 1 <==> (((a >> i) & 1 == 1) && ((b >> i) & 1 == 1)));
    assert(((a | b) >> i) & 1 == 1 <==> (((a >> i) & 1 == 1) || ((b >> i) & 1 == 1)));
    assert(((a ^ b) >> i) & 1 == 1 <==> (((a >> i) & 1 == 1) != ((b >> i) & 1 == 1)));
    assert(((a << k) >> i) & 1 == 1 <==> (i >= k && ((a >> ((i - k) as u32)) & 1 == 1)));
    if i < 32 {
        assert(((a as u32) >> i) & 1 == 1 <==> ((a >> i) & 1 == 1));
    }
    assert((!a) + a == u16::MAX);
}

/// The bits of `i16` words behave as Rust's operators make them: `!` flips
/// every bit, `&`, `|` and `^` combine the bits of the same place, `<<` and
/// `>>` move them by the shift amount modulo the bit width (`>>` repeating
/// the sign bit for this signed type), and `as u32` keeps
/// the lowest 32 bits. The type is signed and its maximum is
/// 0x7fff.
pub proof fn lemma_i16_bits(a: i16, b: i16, c: u32, i: u32)
    requires
        i < 16,
    ensures
        <i16 as Number>::spec_not(a) as int == -1 - a as int,
        ((<i16 as Number>::spec_and(a, b) >> i) & 1 == 1) == (((a >> i) & 1 == 1) && ((b >> i) & 1 == 1)),
        ((<i16 as Number>::spec_or(a, b) >> i) & 1 == 1) == (((a >> i) & 1 == 1) || ((b >> i) & 1 == 1)),
        ((<i16 as Number>::spec_xor(a, b) >> i) & 1 == 1) == (((a >> i) & 1 == 1) != ((b >> i) & 1 == 1)),
        ((<i16 as Number>::spec_shl(a, c) >> i) & 1 == 1) == (i >= c % 16 && ((a >> ((i - c % 16) as u32)) & 1 == 1)),
        ((<i16 as Number>::spec_shr(a, c) >> i) & 1 == 1) == (if i + c % 16 < 16 { ((a >> ((i + c % 16) as u32)) & 1 == 1) } else { a < 0 }),
        i < 32 ==> ((<i16 as Number>::spec_as_u32(a) >> i) & 1 == 1) == ((a >> i) & 1 == 1),
        <i16 as Number>::spec_is_signed() == true,
        <i16 as Number>::spec_max_as_u128() == 0x7fff,
{
    lemma_bits_16();
    let k = c % 16;
    assert(((a & b) >> i) & 1 == 1 <==> (((a >> i) & 1 == 1) && ((b >> i) & 1 == 1)));
    assert(((a | b) >> i) & 1 == 1 <==> (((a >> i) & 1 == 1) || ((b >> i) & 1 == 1)));
    assert(((a ^ b) >> i) & 1 == 1 <==> (((a >> i) & 1 == 1) != ((b >> i) & 1 == 1)));
    assert(((a << k) >> i) & 1 == 1 <==> (i >= k && ((a >> ((i - k) as u32)) & 1 == 1)));
    if i < 32 {
        assert(((a as u32) >> i) & 1 == 1 <==> ((a >> i) & 1 == 1));
    }
    assert((!a) + a == -1);
}

/// Facts of the bits of u32 and i32 words.
proof fn lemma_bits_32()
    by (bit_vector)
    ensures
        forall|a: u32| #[trigger] (!a) + a == u32::MAX,
        forall|a: i32| #[trigger] (!a) + a == -1,
        forall|a: u32, b: u32, i: u32| i < 32 ==> ((#[trigger] ((a & b) >> i)) & 1 == 1) == ((a >> i) & 1 == 1 && (b >> i) & 1 == 1),
        forall|a: u32, b: u32, i: u32| i < 32 ==> ((#[trigger] ((a | b) >> i)) & 1 == 1) == ((a >> i) & 1 == 1 || (b >> i) & 1 == 1),
        forall|a: u32, b: u32, i: u32| i < 32 ==> ((#[trigger] ((a ^ b) >> i)) & 1 == 1) == (((a >> i) & 1 == 1) != ((b >> i) & 1 == 1)),
        forall|a: u32, k: u32, i: u32| k < 32 && i < 32 ==> ((#[trigger] ((a << k) >> i)) & 1 == 1) == (i >= k && (a >> ((i - k) as u32)) & 1 == 1),
        forall|a: u32, i: u32| i < 32 && i < 32 ==> ((#[trigger] ((a as u32) >> i)) & 1 == 1) == ((a >> i) & 1 == 1),
        forall|a: i32, b: i32, i: u32| i < 32 ==> ((#[trigger] ((a & b) >> i)) & 1 == 1) == ((a >> i) & 1 == 1 && (b >> i) & 1 == 1),
        forall|a: i32, b: i32, i: u32| i < 32 ==> ((#[trigger] ((a | b) >> i)) & 1 == 1) == ((a >> i) & 1 == 1 || (b >> i) & 1 == 1),
        forall|a: i32, b: i32, i: u32| i < 32 ==> ((#[trigger] ((a ^ b) >> i)) & 1 == 1) == (((a >> i) & 1 == 1) != ((b >> i) & 1 == 1)),
        forall|a: i32, k: u32, i: u32| k < 32 && i < 32 ==> ((#[trigger] ((a << k) >> i)) & 1 == 1) == (i >= k && (a >> ((i - k) as u32)) & 1 == 1),
        forall|a: i32, i: u32| i < 32 && i < 32 ==> ((#[trigger] ((a as u32) >> i)) & 1 == 1) == ((a >> i) & 1 == 1),
        forall|a: u32, k: u32, i: u32| k < 32 && i < 32 ==> ((#[trigger] ((a >> k) >> i)) & 1 == 1) == (i + k < 32 && (a >> ((i + k) as u32)) & 1 == 1),
        forall|a: i32, k: u32, i: u32| k < 32 && i < 32 ==> ((#[trigger] ((a >> k) >> i)) & 1 == 1) == (if i + k < 32 { (a >> ((i + k) as u32)) & 1 == 1 } else { a < 0 }),
{
}

/// The bits of `u32` words behave as Rust's operators make them: `!` flips
/// every bit, `&`, `|` and `^` combine the bits of the same place, `<<` and
/// `>>` move them by the shift amount modulo the bit width (`>>` repeating
/// the sign bit, filling with zeros), and `as u32` keeps
/// the lowest 32 bits. The type is unsigned and its maximum is
/// 0xffff_ffff.
pub proof fn lemma_u32_bits(a: u32, b: u32, c: u32, i: u32)
    requires
        i < 32,
    ensures
        <u32 as Number>::spec_not(a) as int == u32::MAX as int - a as int,
        ((<u32 as Number>::spec_and(a, b) >> i) & 1 == 1) == (((a >> i) & 1 == 1) && ((b >> i) & 1 == 1)),
        ((<u32 as Number>::spec_or(a, b) >> i) & 1 == 1) == (((a >> i) & 1 == 1) || ((b >> i) & 1 == 1)),
        ((<u32 as Number>::spec_xor(a, b) >> i) & 1 == 1) == (((a >> i) & 1 == 1) != ((b >> i) & 1 == 1)),
        ((<u32 as Number>::spec_shl(a, c) >> i) & 1 == 1) == (i >= c % 32 && ((a >> ((i - c % 32) as u32)) & 1 == 1)),
        ((<u32 as Number>::spec_shr(a, c) >> i) & 1 == 1) == (i + c % 32 < 32 && ((a >> ((i + c % 32) as u32)) & 1 == 1)),
        i < 32 ==> ((<u32 as Number>::spec_as_u32(a) >> i) & 1 == 1) == ((a >> i) & 1 == 1),
        <u32 as Number>::spec_is_signed() == false,
        <u32 as Number>::spec_max_as_u128() == 0xffff_ffff,
{
    lemma_bits_32();
    let k = c % 32;
    assert(((a & b) >> i) & 1 == 1 <==> (((a >> i) & 1 == 1) && ((b >> i) & 1 == 1)));
    assert(((a | b) >> i) & 1 == 1 <==> (((a >> i) & 1 == 1) || ((b >> i) & 1 == 1)));
    assert(((a ^ b) >> i) & 1 == 1 <==> (((a >> i) & 1 == 1) != ((b >> i) & 1 == 1)));
    assert(((a << k) >> i) & 1 == 1 <==> (i >= k && ((a >> ((i - k) as u32)) & 1 == 1)));
    if i < 32 {
        assert(((a as u32) >> i) & 1 == 1 <==> ((a >> i) & 1 == 1));
    }
    assert((!a) + a == u32::MAX);
}

/// The bits of `i32` words behave as Rust's operators make them: `!` flips
/// every bit, `&`, `|` and `^` combine the bits of the same place, `<<` and
/// `>>` move them by the shift amount modulo the bit width (`>>` repeating
/// the sign bit for this signed type), and `as u32` keeps
/// the lowest 32 bits. The type is signed and its maximum is
/// 0x7fff_ffff.
pub proof fn lemma_i32_bits(a: i32, b: i32, c: u32, i: u32)
    requires
        i < 32,
    ensures
        <i32 as Number>::spec_not(a) as int == -1 - a as int,
        ((<i32 as Number>::spec_and(a, b) >> i) & 1 == 1) == (((a >> i) & 1 == 1) && ((b >> i) & 1 == 1)),
        ((<i32 as Number>::spec_or(a, b) >> i) & 1 == 1) == (((a >> i) & 1 == 1) || ((b >> i) & 1 == 1)),
        ((<i32 as Number>::spec_xor(a, b) >> i) & 1 == 1) == (((a >> i) & 1 == 1) != ((b >> i) & 1 == 1)),
        ((<i32 as Number>::spec_shl(a, c) >> i) & 1 == 1) == (i >= c % 32 && ((a >> ((i - c % 32) as u32)) & 1 == 1)),
        ((<i32 as Number>::spec_shr(a, c) >> i) & 1 == 1) == (if i + c % 32 < 32 { ((a >> ((i + c % 32) as u32)) & 1 == 1) } else { a < 0 }),
        i < 32 ==> ((<i32 as Number>::spec_as_u32(a) >> i) & 1 == 1) == ((a >> i) & 1 == 1),
        <i32 as Number>::spec_is_signed() == true,
        <i32 as Number>::spec_max_as_u128() == 0x7fff_ffff,
{
    lemma_bits_32();
    let k = c % 32;
    assert(((a & b) >> i) & 1 == 1 <==> (((a >> i) & 1 == 1) && ((b >> i) & 1 == 1)));
    assert(((a | b) >> i) & 1 == 1 <==> (((a >> i) & 1 == 1) || ((b >> i) & 1 == 1)));
    assert(((a ^ b) >> i) & 1 == 1 <==> (((a >> i) & 1 == 1) != ((b >> i) & 1 == 1)));
    assert(((a << k) >> i) & 1 == 1 <==> (i >= k && ((a >> ((i - k) as u32)) & 1 == 1)));
    if i < 32 {
        assert(((a as u32) >> i) & 1 == 1 <==> ((a >> i) & 1 == 1));
    }
    assert((!a) + a == -1);
}

/// Facts of the bits of u64 and i64 words.
proof fn lemma_bits_64()
    by (bit_vector)
    ensures
        forall|a: u64| #[trigger] (!a) + a == u64::MAX,
        forall|a: i64| #[trigger] (!a) + a == -1,
        forall|a: u64, b: u64, i: u32| i < 64 ==> ((#[trigger] ((a & b) >> i)) & 1 == 1) == ((a >> i) & 1 == 1 && (b >> i) & 1 == 1),
        forall|a: u64, b: u64, i: u32| i < 64 ==> ((#[trigger] ((a | b) >> i)) & 1 == 1) == ((a >> i) & 1 == 1 || (b >> i) & 1 == 1),
        forall|a: u64, b: u64, i: u32| i < 64 ==> ((#[trigger] ((a ^ b) >> i)) & 1 == 1) == (((a >> i) & 1 == 1) != ((b >> i) & 1 == 1)),
        forall|a: u64, k: u32, i: u32| k < 64 && i < 64 ==> ((#[trigger] ((a << k) >> i)) & 1 == 1) == (i >= k && (a >> ((i - k) as u32)) & 1 == 1),
        forall|a: u64, i: u32| i < 32 && i < 64 ==> ((#[trigger] ((a as u32) >> i)) & 1 == 1) == ((a >> i) & 1 == 1),
        forall|a: i64, b: i64, i: u32| i < 64 ==> ((#[trigger] ((a & b) >> i)) & 1 == 1) == ((a >> i) & 1 == 1 && (b >> i) & 1 == 1),
        forall|a: i64, b: i64, i: u32| i < 64 ==> ((#[trigger] ((a | b) >> i)) & 1 == 1) == ((a >> i) & 1 == 1 || (b >> i) & 1 == 1),
        forall|a: i64, b: i64, i: u32| i < 64 ==> ((#[trigger] ((a ^ b) >> i)) & 1 == 1) == (((a >> i) & 1 == 1) != ((b >> i) & 1 == 1)),
        forall|a: i64, k: u32, i: u32| k < 64 && i < 64 ==> ((#[trigger] ((a << k) >> i)) & 1 == 1) == (i >= k && (a >> ((i - k) as u32)) & 1 == 1),
        forall|a: i64, i: u32| i < 32 && i < 64 ==> ((#[trigger] ((a as u32) >> i)) & 1 == 1) == ((a >> i) & 1 == 1),
        forall|a: u64, k: u32, i: u32| k < 64 && i < 64 ==> ((#[trigger] ((a >> k) >> i)) & 1 == 1) == (i + k < 64 && (a >> ((i + k) as u32)) & 1 == 1),
        forall|a: i64, k: u32, i: u32| k < 64 && i < 64 ==> ((#[trigger] ((a >> k) >> i)) & 1 == 1) == (if i + k < 64 { (a >> ((i + k) as u32)) & 1 == 1 } else { a < 0 }),
{
}

/// The bits of `u64` words behave as Rust's operators make them: `!` flips
/// every bit, `&`, `|` and `^` combine the bits of the same place, `<<` and
/// `>>` move them by the shift amount modulo the bit width (`>>` repeating
/// the sign bit, filling with zeros), and `as u32` keeps
/// the lowest 32 bits. The type is unsigned and its maximum is
/// 0xffff_ffff_ffff_ffff.
pub proof fn lemma_u64_bits(a: u64, b: u64, c: u32, i: u32)
    requires
        i < 64,
    ensures
        <u64 as Number>::spec_not(a) as int == u64::MAX as int - a as int,
        ((<u64 as Number>::spec_and(a, b) >> i) & 1 == 1) == (((a >> i) & 1 == 1) && ((b >> i) & 1 == 1)),
        ((<u64 as Number>::spec_or(a, b) >> i) & 1 == 1) == (((a >> i) & 1 == 1) || ((b >> i) & 1 == 1)),
        ((<u64 as Number>::spec_xor(a, b) >> i) & 1 == 1) == (((a >> i) & 1 == 1) != ((b >> i) & 1 == 1)),
        ((<u64 as Number>::spec_shl(a, c) >> i) & 1 == 1) == (i >= c % 64 && ((a >> ((i - c % 64) as u32)) & 1 == 1)),
        ((<u64 as Number>::spec_shr(a, c) >> i) & 1 == 1) == (i + c % 64 < 64 && ((a >> ((i + c % 64) as u32)) & 1 == 1)),
        i < 32 ==> ((<u64 as Number>::spec_as_u32(a) >> i) & 1 == 1) == ((a >> i) & 1 == 1),
        <u64 as Number>::spec_is_signed() == false,
        <u64 as Number>::spec_max_as_u128() == 0xffff_ffff_ffff_ffff,
{
    lemma_bits_64();
    let k = c % 64;
    assert(((a & b) >> i) & 1 == 1 <==> (((a >> i) & 1 == 1) && ((b >> i) & 1 == 1)));
    assert(((a | b) >> i) & 1 == 1 <==> (((a >> i) & 1 == 1) || ((b >> i) & 1 == 1)));
    assert(((a ^ b) >> i) & 1 == 1 <==> (((a >> i) & 1 == 1) != ((b >> i) & 1 == 1)));
    assert(((a << k) >> i) & 1 == 1 <==> (i >= k && ((a >> ((i - k) as u32)) & 1 == 1)));
    if i < 32 {
        assert(((a as u32) >> i) & 1 == 1 <==> ((a >> i) & 1 == 1));
    }
    assert((!a) + a == u64::MAX);
}

/// The bits of `i64` words behave as Rust's operators make them: `!` flips
/// every bit, `&`, `|` and `^` combine the bits of the same place, `<<` and
/// `>>` move them by the shift amount modulo the bit width (`>>` repeating
/// the sign bit for this signed type), and `as u32` keeps
/// the lowest 32 bits. The type is signed and its maximum is
/// 0x7fff_ffff_ffff_ffff.
pub proof fn lemma_i64_bits(a: i64, b: i64, c: u32, i: u32)
    requires
        i < 64,
    ensures
        <i64 as Number>::spec_not(a) as int == -1 - a as int,
        ((<i64 as Number>::spec_and(a, b) >> i) & 1 == 1) == (((a >> i) & 1 == 1) && ((b >> i) & 1 == 1)),
        ((<i64 as Number>::spec_or(a, b) >> i) & 1 == 1) == (((a >> i) & 1 == 1) || ((b >> i) & 1 == 1)),
        ((<i64 as Number>::spec_xor(a, b) >> i) & 1 == 1) == (((a >> i) & 1 == 1) != ((b >> i) & 1 == 1)),
        ((<i64 as Number>::spec_shl(a, c) >> i) & 1 == 1) == (i >= c % 64 && ((a >> ((i - c % 64) as u32)) & 1 == 1)),
        ((<i64 as Number>::spec_shr(a, c) >> i) & 1 == 1) == (if i + c % 64 < 64 { ((a >> ((i + c % 64) as u32)) & 1 == 1) } else { a < 0 }),
        i < 32 ==> ((<i64 as Number>::spec_as_u32(a) >> i) & 1 == 1) == ((a >> i) & 1 == 1),
        <i64 as Number>::spec_is_signed() == true,
        <i64 as Number>::spec_max_as_u128() == 0x7fff_ffff_ffff_ffff,
{
    lemma_bits_64();
    let k = c % 64;
    assert(((a & b) >> i) & 1 == 1 <==> (((a >> i) & 1 == 1) && ((b >> i) & 1 == 1)));
    assert(((a | b) >> i) & 1 == 1 <==> (((a >> i) & 1 == 1) || ((b >> i) & 1 == 1)));
    assert(((a ^ b) >> i) & 1 == 1 <==> (((a >> i) & 1 == 1) != ((b >> i) & 1 == 1)));
    assert(((a << k) >> i) & 1 == 1 <==> (i >= k && ((a >> ((i - k) as u32)) & 1 == 1)));
    if i < 32 {
        assert(((a as u32) >> i) & 1 == 1 <==> ((a >> i) & 1 == 1));
    }
    assert((!a) + a == -1);
}

/// Facts of the bits of u128 and i128 words.
#[verifier::rlimit(100)]
#[verifier::spinoff_prover]
proof fn lemma_bits_128()
    by (bit_vector)
    ensures
        forall|a: u128| #[trigger] (!a) + a == u128::MAX,
        forall|a: i128| #[trigger] (!a) + a == -1,
        forall|a: u128, b: u128, i: u32| i < 128 ==> ((#[trigger] ((a & b) >> i)) & 1 == 1) == ((a >> i) & 1 == 1 && (b >> i) & 1 == 1),
        forall|a: u128, b: u128, i: u32| i < 128 ==> ((#[trigger] ((a | b) >> i)) & 1 == 1) == ((a >> i) & 1 == 1 || (b >> i) & 1 == 1),
        forall|a: u128, b: u128, i: u32| i < 128 ==> ((#[trigger] ((a ^ b) >> i)) & 1 == 1) == (((a >> i) & 1 == 1) != ((b >> i) & 1 == 1)),
        forall|a: u128, k: u32, i: u32| k < 128 && i < 128 ==> ((#[trigger] ((a << k) >> i)) & 1 == 1) == (i >= k && (a >> ((i - k) as u32)) & 1 == 1),
        forall|a: u128, i: u32| i < 32 && i < 128 ==> ((#[trigger] ((a as u32) >> i)) & 1 == 1) == ((a >> i) & 1 == 1),
        forall|a: i128, b: i128, i: u32| i < 128 ==> ((#[trigger] ((a & b) >> i)) & 1 == 1) == ((a >> i) & 1 == 1 && (b >> i) & 1 == 1),
        forall|a: i128, b: i128, i: u32| i < 128 ==> ((#[trigger] ((a | b) >> i)) & 1 == 1) == ((a >> i) & 1 == 1 || (b >> i) & 1 == 1),
        forall|a: i128, b: i128, i: u32| i < 128 ==> ((#[trigger] ((a ^ b) >> i)) & 1 == 1) == (((a >> i) & 1 == 1) != ((b >> i) & 1 == 1)),
        forall|a: i128, k: u32, i: u32| k < 128 && i < 128 ==> ((#[trigger] ((a << k) >> i)) & 1 == 1) == (i >= k && (a >> ((i - k) as u32)) & 1 == 1),
        forall|a: i128, i: u32| i < 32 && i < 128 ==> ((#[trigger] ((a as u32) >> i)) & 1 == 1) == ((a >> i) & 1 == 1),
        forall|a: u128, k: u32, i: u32| k < 128 && i < 128 ==> ((#[trigger] ((a >> k) >> i)) & 1 == 1) == (i + k < 128 && (a >> ((i + k) as u32)) & 1 == 1),
        forall|a: i128, k: u32, i: u32| k < 128 && i < 128 ==> ((#[trigger] ((a >> k) >> i)) & 1 == 1) == (if i + k < 128 { (a >> ((i + k) as u32)) & 1 == 1 } else { a < 0 }),
{
}

/// The bits of `u128` words behave as Rust's operators make them: `!` flips
/// every bit, `&`, `|` and `^` combine the bits of the same place, `<<` and
/// `>>` move them by the shift amount modulo the bit width (`>>` repeating
/// the sign bit, filling with zeros), and `as u32` keeps
/// the lowest 32 bits. The type is unsigned and its maximum is
/// 0xffff_ffff_ffff_ffff_ffff_ffff_ffff_ffff.
pub proof fn lemma_u128_bits(a: u128, b: u128, c: u32, i: u32)
    requires
        i < 128,
    ensures
        <u128 as Number>::spec_not(a) as int == u128::MAX as int - a as int,
        ((<u128 as Number>::spec_and(a, b) >> i) & 1 == 1) == (((a >> i) & 1 == 1) && ((b >> i) & 1 == 1)),
        ((<u128 as Number>::spec_or(a, b) >> i) & 1 == 1) == (((a >> i) & 1 == 1) || ((b >> i) & 1 == 1)),
        ((<u128 as Number>::spec_xor(a, b) >> i) & 1 == 1) == (((a >> i) & 1 == 1) != ((b >> i) & 1 == 1)),
        ((<u128 as Number>::spec_shl(a, c) >> i) & 1 == 1) == (i >= c % 128 && ((a >> ((i - c % 128) as u32)) & 1 == 1)),
        ((<u128 as Number>::spec_shr(a, c) >> i) & 1 == 1) == (i + c % 128 < 128 && ((a >> ((i + c % 128) as u32)) & 1 == 1)),
        i < 32 ==> ((<u128 as Number>::spec_as_u32(a) >> i) & 1 == 1) == ((a >> i) & 1 == 1),
        <u128 as Number>::spec_is_signed() == false,
        <u128 as Number>::spec_max_as_u128() == 0xffff_ffff_ffff_ffff_ffff_ffff_ffff_ffff,
{
    lemma_bits_128();
    let k = c % 128;
    assert(((a & b) >> i) & 1 == 1 <==> (((a >> i) & 1 == 1) && ((b >> i) & 1 == 1)));
    assert(((a | b) >> i) & 1 == 1 <==> (((a >> i) & 1 == 1) || ((b >> i) & 1 == 1)));
    assert(((a ^ b) >> i) & 1 == 1 <==> (((a >> i) & 1 == 1) != ((b >> i) & 1 == 1)));
    assert(((a << k) >> i) & 1 == 1 <==> (i >= k && ((a >> ((i - k) as u32)) & 1 == 1)));
    if i < 32 {
        assert(((a as u32) >> i) & 1 == 1 <==> ((a >> i) & 1 == 1));
    }
    assert((!a) + a == u128::MAX);
}

/// The bits of `i128` words behave as Rust's operators make them: `!` flips
/// every bit, `&`, `|` and `^` combine the bits of the same place, `<<` and
/// `>>` move them by the shift amount modulo the bit width (`>>` repeating
/// the sign bit for this signed type), and `as u32` keeps
/// the lowest 32 bits. The type is signed and its maximum is
/// 0x7fff_ffff_ffff_ffff_ffff_ffff_ffff_ffff.
pub proof fn lemma_i128_bits(a: i128, b: i128, c: u32, i: u32)
    requires
        i < 128,
    ensures
        <i128 as Number>::spec_not(a) as int == -1 - a as int,
        ((<i128 as Number>::spec_and(a, b) >> i) & 1 == 1) == (((a >> i) & 1 == 1) && ((b >> i) & 1 == 1)),
        ((<i128 as Number>::spec_or(a, b) >> i) & 1 == 1) == (((a >> i) & 1 == 1) || ((b >> i) & 1 == 1)),
        ((<i128 as Number>::spec_xor(a, b) >> i) & 1 == 1) == (((a >> i) & 1 == 1) != ((b >> i) & 1 == 1)),
        ((<i128 as Number>::spec_shl(a, c) >> i) & 1 == 1) == (i >= c % 128 && ((a >> ((i - c % 128) as u32)) & 1 == 1)),
        ((<i128 as Number>::spec_shr(a, c) >> i) & 1 == 1) == (if i + c % 128 < 128 { ((a >> ((i + c % 128) as u32)) & 1 == 1) } else { a < 0 }),
        i < 32 ==> ((<i128 as Number>::spec_as_u32(a) >> i) & 1 == 1) == ((a >> i) & 1 == 1),
        <i128 as Number>::spec_is_signed() == true,
        <i128 as Number>::spec_max_as_u128() == 0x7fff_ffff_ffff_ffff_ffff_ffff_ffff_ffff,
{
    lemma_bits_128();
    let k = c % 128;
    assert(((a & b) >> i) & 1 == 1 <==> (((a >> i) & 1 == 1) && ((b >> i) & 1 == 1)));
    assert(((a | b) >> i) & 1 == 1 <==> (((a >> i) & 1 == 1) || ((b >> i) & 1 == 1)));
    assert(((a ^ b) >> i) & 1 == 1 <==> (((a >> i) & 1 == 1) != ((b >> i) & 1 == 1)));
    assert(((a << k) >> i) & 1 == 1 <==> (i >= k && ((a >> ((i - k) as u32)) & 1 == 1)));
    if i < 32 {
        assert(((a as u32) >> i) & 1 == 1 <==> ((a >> i) & 1 == 1));
    }
    assert((!a) + a == -1);
}

/// Facts of the bits of usize and isize words.
proof fn lemma_bits_size()
    by (bit_vector)
    ensures
        forall|a: usize, i: u32| i < usize::BITS ==> ((#[trigger] ((!a) >> i)) & 1 == 1) == !((a >> i) & 1 == 1),
        forall|a: isize, i: u32| i < usize::BITS ==> ((#[trigger] ((!a) >> i)) & 1 == 1) == !((a >> i) & 1 == 1),
        forall|a: usize, b: usize, i: u32| i < usize::BITS ==> ((#[trigger] ((a & b) >> i)) & 1 == 1) == ((a >> i) & 1 == 1 && (b >> i) & 1 == 1),
        forall|a: usize, b: usize, i: u32| i < usize::BITS ==> ((#[trigger] ((a | b) >> i)) & 1 == 1) == ((a >> i) & 1 == 1 || (b >> i) & 1 == 1),
        forall|a: usize, b: usize, i: u32| i < usize::BITS ==> ((#[trigger] ((a ^ b) >> i)) & 1 == 1) == (((a >> i) & 1 == 1) != ((b >> i) & 1 == 1)),
        forall|a: usize, k: u32, i: u32| k < usize::BITS && i < usize::BITS ==> ((#[trigger] ((a << k) >> i)) & 1 == 1) == (i >= k && (a >> ((i - k) as u32)) & 1 == 1),
        forall|a: usize, i: u32| i < 32 && i < usize::BITS ==> ((#[trigger] ((a as u32) >> i)) & 1 == 1) == ((a >> i) & 1 == 1),
        forall|a: isize, b: isize, i: u32| i < usize::BITS ==> ((#[trigger] ((a & b) >> i)) & 1 == 1) == ((a >> i) & 1 == 1 && (b >> i) & 1 == 1),
        forall|a: isize, b: isize, i: u32| i < usize::BITS ==> ((#[trigger] ((a | b) >> i)) & 1 == 1) == ((a >> i) & 1 == 1 || (b >> i) & 1 == 1),
        forall|a: isize, b: isize, i: u32| i < usize::BITS ==> ((#[trigger] ((a ^ b) >> i)) & 1 == 1) == (((a >> i) & 1 == 1) != ((b >> i) & 1 == 1)),
        forall|a: isize, k: u32, i: u32| k < usize::BITS && i < usize::BITS ==> ((#[trigger] ((a << k) >> i)) & 1 == 1) == (i >= k && (a >> ((i - k) as u32)) & 1 == 1),
        forall|a: isize, i: u32| i < 32 && i < usize::BITS ==> ((#[trigger] ((a as u32) >> i)) & 1 == 1) == ((a >> i) & 1 == 1),
        forall|a: usize, k: u32, i: u32| k < usize::BITS && i < usize::BITS ==> ((#[trigger] ((a >> k) >> i)) & 1 == 1) == (i + k < usize::BITS && (a >> ((i + k) as u32)) & 1 == 1),
        forall|a: isize, k: u32, i: u32| k < usize::BITS && i < usize::BITS ==> ((#[trigger] ((a >> k) >> i)) & 1 == 1) == (if i + k < usize::BITS { (a >> ((i + k) as u32)) & 1 == 1 } else { a < 0 }),
{
}

/// The bits of `usize` words behave as Rust's operators make them: `!` flips
/// every bit, `&`, `|` and `^` combine the bits of the same place, `<<` and
/// `>>` move them by the shift amount modulo the bit width (`>>` repeating
/// the sign bit, filling with zeros), and `as u32` keeps
/// the lowest 32 bits. The type is unsigned and its maximum is
/// usize::MAX as u128.
pub proof fn lemma_usize_bits(a: usize, b: usize, c: u32, i: u32)
    requires
        i < usize::BITS,
    ensures
        ((<usize as Number>::spec_not(a) >> i) & 1 == 1) == !((a >> i) & 1 == 1),
        ((<usize as Number>::spec_and(a, b) >> i) & 1 == 1) == (((a >> i) & 1 == 1) && ((b >> i) & 1 == 1)),
        ((<usize as Number>::spec_or(a, b) >> i) & 1 == 1) == (((a >> i) & 1 == 1) || ((b >> i) & 1 == 1)),
        ((<usize as Number>::spec_xor(a, b) >> i) & 1 == 1) == (((a >> i) & 1 == 1) != ((b >> i) & 1 == 1)),
        ((<usize as Number>::spec_shl(a, c) >> i) & 1 == 1) == (i >= c % usize::BITS && ((a >> ((i - c % usize::BITS) as u32)) & 1 == 1)),
        ((<usize as Number>::spec_shr(a, c) >> i) & 1 == 1) == (i + c % usize::BITS < usize::BITS && ((a >> ((i + c % usize::BITS) as u32)) & 1 == 1)),
        i < 32 ==> ((<usize as Number>::spec_as_u32(a) >> i) & 1 == 1) == ((a >> i) & 1 == 1),
        <usize as Number>::spec_is_signed() == false,
        <usize as Number>::spec_max_as_u128() == usize::MAX as u128,
{
    lemma_bits_size();
    let k = c % usize::BITS;
    assert(((a & b) >> i) & 1 == 1 <==> (((a >> i) & 1 == 1) && ((b >> i) & 1 == 1)));
    assert(((a | b) >> i) & 1 == 1 <==> (((a >> i) & 1 == 1) || ((b >> i) & 1 == 1)));
    assert(((a ^ b) >> i) & 1 == 1 <==> (((a >> i) & 1 == 1) != ((b >> i) & 1 == 1)));
    assert(((a << k) >> i) & 1 == 1 <==> (i >= k && ((a >> ((i - k) as u32)) & 1 == 1)));
    if i < 32 {
        assert(((a as u32) >> i) & 1 == 1 <==> ((a >> i) & 1 == 1));
    }
    assert(((!a) >> i) & 1 == 1 <==> !((a >> i) & 1 == 1));
}

/// The bits of `isize` words behave as Rust's operators make them: `!` flips
/// every bit, `&`, `|` and `^` combine the bits of the same place, `<<` and
/// `>>` move them by the shift amount modulo the bit width (`>>` repeating
/// the sign bit for this signed type), and `as u32` keeps
/// the lowest 32 bits. The type is signed and its maximum is
/// isize::MAX as u128.
pub proof fn lemma_isize_bits(a: isize, b: isize, c: u32, i: u32)
    requires
        i < usize::BITS,
    ensures
        ((<isize as Number>::spec_not(a) >> i) & 1 == 1) == !((a >> i) & 1 == 1),
        ((<isize as Number>::spec_and(a, b) >> i) & 1 == 1) == (((a >> i) & 1 == 1) && ((b >> i) & 1 == 1)),
        ((<isize as Number>::spec_or(a, b) >> i) & 1 == 1) == (((a >> i) & 1 == 1) || ((b >> i) & 1 == 1)),
        ((<isize as Number>::spec_xor(a, b) >> i) & 1 == 1) == (((a >> i) & 1 == 1) != ((b >> i) & 1 == 1)),
        ((<isize as Number>::spec_shl(a, c) >> i) & 1 == 1) == (i >= c % usize::BITS && ((a >> ((i - c % usize::BITS) as u32)) & 1 == 1)),
        ((<isize as Number>::spec_shr(a, c) >> i) & 1 == 1) == (if i + c % usize::BITS < usize::BITS { ((a >> ((i + c % usize::BITS) as u32)) & 1 == 1) } else { a < 0 }),
        i < 32 ==> ((<isize as Number>::spec_as_u32(a) >> i) & 1 == 1) == ((a >> i) & 1 == 1),
        <isize as Number>::spec_is_signed() == true,
        <isize as Number>::spec_max_as_u128() == isize::MAX as u128,
{
    lemma_bits_size();
    let k = c % usize::BITS;
    assert(((a & b) >> i) & 1 == 1 <==> (((a >> i) & 1 == 1) && ((b >> i) & 1 == 1)));
    assert(((a | b) >> i) & 1 == 1 <==> (((a >> i) & 1 == 1) || ((b >> i) & 1 == 1)));
    assert(((a ^ b) >> i) & 1 == 1 <==> (((a >> i) & 1 == 1) != ((b >> i) & 1 == 1)));
    assert(((a << k) >> i) & 1 == 1 <==> (i >= k && ((a >> ((i - k) as u32)) & 1 == 1)));
    if i < 32 {
        assert(((a as u32) >> i) & 1 == 1 <==> ((a >> i) & 1 == 1));
    }
    assert(((!a) >> i) & 1 == 1 <==> !((a >> i) & 1 == 1));
}

} // verus!
