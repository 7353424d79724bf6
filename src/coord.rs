//! The coordinate types that the indices accept.
use vstd::prelude::*;

verus! {

/// A coordinate type: a primitive integer of at most 32 bits. Every value
/// stands for a mathematical integer (`value`), and all of the indices'
/// comparisons and arithmetic are carried out on those integers, so that no
/// sum, difference or square computed by the indices can overflow.
pub trait AllowedNumber: Copy + Sized {
    /// The integer that this value stands for.
    spec fn value(self) -> int;

    /// The least value of the type.
    spec fn lowest() -> int;

    /// The greatest value of the type.
    spec fn highest() -> int;

    proof fn lemma_range(self)
        ensures
            Self::lowest() <= self.value() <= Self::highest(),
    ;

    proof fn lemma_limits()
        ensures
            -0x8000_0000 <= Self::lowest() <= 0,
            0 < Self::highest() <= 0xffff_ffff,
    ;

    /// The value as a 64-bit integer.
    fn to_i64(self) -> (r: i64)
        ensures
            r == self.value(),
    ;

    /// The greatest value of the type.
    fn max_value() -> (r: Self)
        ensures
            r.value() == Self::highest(),
    ;

    /// The least value of the type.
    fn min_value() -> (r: Self)
        ensures
            r.value() == Self::lowest(),
    ;
}

impl AllowedNumber for u8 {
    open spec fn value(self) -> int { self as int }
    open spec fn lowest() -> int { 0 }
    open spec fn highest() -> int { u8::MAX as int }
    proof fn lemma_range(self) {}
    proof fn lemma_limits() {}
    fn to_i64(self) -> (r: i64) { self as i64 }
    fn max_value() -> (r: Self) { u8::MAX }
    fn min_value() -> (r: Self) { 0 }
}

impl AllowedNumber for u16 {
    open spec fn value(self) -> int { self as int }
    open spec fn lowest() -> int { 0 }
    open spec fn highest() -> int { u16::MAX as int }
    proof fn lemma_range(self) {}
    proof fn lemma_limits() {}
    fn to_i64(self) -> (r: i64) { self as i64 }
    fn max_value() -> (r: Self) { u16::MAX }
    fn min_value() -> (r: Self) { 0 }
}

impl AllowedNumber for u32 {
    open spec fn value(self) -> int { self as int }
    open spec fn lowest() -> int { 0 }
    open spec fn highest() -> int { u32::MAX as int }
    proof fn lemma_range(self) {}
    proof fn lemma_limits() {}
    fn to_i64(self) -> (r: i64) { self as i64 }
    fn max_value() -> (r: Self) { u32::MAX }
    fn min_value() -> (r: Self) { 0 }
}

impl AllowedNumber for i8 {
    open spec fn value(self) -> int { self as int }
    open spec fn lowest() -> int { i8::MIN as int }
    open spec fn highest() -> int { i8::MAX as int }
    proof fn lemma_range(self) {}
    proof fn lemma_limits() {}
    fn to_i64(self) -> (r: i64) { self as i64 }
    fn max_value() -> (r: Self) { i8::MAX }
    fn min_value() -> (r: Self) { i8::MIN }
}

impl AllowedNumber for i16 {
    open spec fn value(self) -> int { self as int }
    open spec fn lowest() -> int { i16::MIN as int }
    open spec fn highest() -> int { i16::MAX as int }
    proof fn lemma_range(self) {}
    proof fn lemma_limits() {}
    fn to_i64(self) -> (r: i64) { self as i64 }
    fn max_value() -> (r: Self) { i16::MAX }
    fn min_value() -> (r: Self) { i16::MIN }
}

impl AllowedNumber for i32 {
    open spec fn value(self) -> int { self as int }
    open spec fn lowest() -> int { i32::MIN as int }
    open spec fn highest() -> int { i32::MAX as int }
    proof fn lemma_range(self) {}
    proof fn lemma_limits() {}
    fn to_i64(self) -> (r: i64) { self as i64 }
    fn max_value() -> (r: Self) { i32::MAX }
    fn min_value() -> (r: Self) { i32::MIN }
}

} // verus!
