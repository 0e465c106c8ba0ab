//! An arbitrary-precision, sign-and-magnitude decimal number type.
//!
//! Values are parsed from text into a sign plus two sequences of ASCII
//! digit characters (integer part and fractional part), formatted back to
//! text, ordered, and combined with exact textual-digit addition,
//! subtraction and multiplication.  The representation grows as needed;
//! there is no rounding and no division.

pub mod arith;
pub mod buffer;
pub mod decimal;
pub mod digits;
pub mod laws;
pub mod ordering;

pub use decimal::Decimal;
pub use decimal::ParseDecimalError;
