//! Symbol frequency tables: the counting half of a Shannon entropy
//! computation.
//!
//! A [`Symbol`] is a value that is counted under a `u64` code of its own: a
//! byte under its value, a character under its code point. A
//! [`FrequencyTable`] is the multiset of the codes it was fed, and hands out
//! each distinct code with its count; a relative frequency is the exact
//! fraction `count / total`.
//!
//! The empty input has the empty table: it lists no counts, so nothing is
//! ever divided by a total of zero, and a sum over its entries is zero.
//!
//! The entropy itself is a floating-point number and is formed outside this
//! library. What is proved here about it is stated in exact arithmetic: for a
//! table of `n` symbols with counts `c`, two to the power `n` times the
//! entropy is the quotient of `n^n` and the product of all `c^c`.

pub mod bound;
pub mod laws;
pub mod symbol;
pub mod table;

pub use symbol::Symbol;
pub use table::FrequencyTable;
