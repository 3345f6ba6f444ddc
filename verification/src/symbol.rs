//! What can be counted: values that name a `u64` code for themselves.

use vstd::multiset::Multiset;
use vstd::prelude::*;

verus! {

/// A value that can stand as a symbol. The table counts it under its code, so
/// two values are the same symbol exactly if their codes are equal.
pub trait Symbol: Sized {
    /// The code under which the value is counted.
    spec fn code_of(&self) -> u64;

    /// Different values have different codes.
    proof fn lemma_code_tells_apart(&self, other: &Self)
        requires
            self.code_of() == other.code_of(),
        ensures
            self == other,
    ;

    /// Computes the code.
    fn code(&self) -> (c: u64)
        ensures
            c == self.code_of(),
    ;
}

impl Symbol for u8 {
    open spec fn code_of(&self) -> u64 {
        *self as u64
    }

    proof fn lemma_code_tells_apart(&self, other: &Self) {
    }

    fn code(&self) -> (c: u64) {
        *self as u64
    }
}

impl Symbol for u16 {
    open spec fn code_of(&self) -> u64 {
        *self as u64
    }

    proof fn lemma_code_tells_apart(&self, other: &Self) {
    }

    fn code(&self) -> (c: u64) {
        *self as u64
    }
}

impl Symbol for u32 {
    open spec fn code_of(&self) -> u64 {
        *self as u64
    }

    proof fn lemma_code_tells_apart(&self, other: &Self) {
    }

    fn code(&self) -> (c: u64) {
        *self as u64
    }
}

impl Symbol for u64 {
    open spec fn code_of(&self) -> u64 {
        *self
    }

    proof fn lemma_code_tells_apart(&self, other: &Self) {
    }

    fn code(&self) -> (c: u64) {
        *self
    }
}

/// A signed number is counted under its distance from `i32::MIN`.
impl Symbol for i32 {
    open spec fn code_of(&self) -> u64 {
        (*self - i32::MIN) as u64
    }

    proof fn lemma_code_tells_apart(&self, other: &Self) {
    }

    fn code(&self) -> (c: u64) {
        (*self as i64 - i32::MIN as i64) as u64
    }
}

/// A signed number is counted under its distance from `i64::MIN`.
impl Symbol for i64 {
    open spec fn code_of(&self) -> u64 {
        (*self - i64::MIN) as u64
    }

    proof fn lemma_code_tells_apart(&self, other: &Self) {
    }

    fn code(&self) -> (c: u64) {
        (*self as i128 - i64::MIN as i128) as u64
    }
}

/// Characters with the same code point are the same character.
proof fn lemma_code_points_tell_apart(a: char, b: char)
    requires
        a as u64 == b as u64,
    ensures
        a == b,
{
    vstd::utf8::char_u32_cast(a, a as u32);
    vstd::utf8::char_u32_cast(b, b as u32);
}

/// A character is counted under its code point.
impl Symbol for char {
    open spec fn code_of(&self) -> u64 {
        *self as u64
    }

    proof fn lemma_code_tells_apart(&self, other: &Self) {
        lemma_code_points_tell_apart(*self, *other);
    }

    fn code(&self) -> (c: u64) {
        *self as u64
    }
}

/// The codes of a sequence of symbols, in order.
pub open spec fn codes<T: Symbol>(symbols: Seq<T>) -> Seq<u64> {
    symbols.map_values(|x: T| x.code_of())
}

/// A code is its own code.
pub proof fn lemma_codes_of_codes(symbols: Seq<u64>)
    ensures
        codes(symbols) == symbols,
{
    assert(codes(symbols) =~= symbols);
}

/// Counting codes counts symbols: a symbol's code occurs among the codes of
/// a sequence exactly as often as the symbol occurs in the sequence.
pub proof fn lemma_codes_count_symbols<T: Symbol>(symbols: Seq<T>, x: T)
    ensures
        codes(symbols).to_multiset().count(x.code_of()) == symbols.to_multiset().count(x),
    decreases symbols.len(),
{
    broadcast use vstd::multiset::group_multiset_axioms;

    if symbols.len() == 0 {
        symbols.to_multiset_ensures();
        codes(symbols).to_multiset_ensures();
        assert(symbols.to_multiset() =~= Multiset::<T>::empty());
        assert(codes(symbols).to_multiset() =~= Multiset::<u64>::empty());
    } else {
        let shorter = symbols.drop_last();
        let last = symbols.last();
        lemma_codes_count_symbols(shorter, x);
        shorter.to_multiset_ensures();
        codes(shorter).to_multiset_ensures();
        assert(symbols =~= shorter.push(last));
        assert(codes(symbols) =~= codes(shorter).push(last.code_of()));
        if last.code_of() == x.code_of() {
            last.lemma_code_tells_apart(&x);
        }
    }
}

} // verus!
