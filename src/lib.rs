//! A fixed-precision decimal number: a 96-bit unsigned mantissa, a sign and a
//! scale between 0 and 28, with every routine proved against a model over
//! mathematical integers.

pub mod arith;
pub mod conv;
pub mod decimal;
pub mod float;
pub mod fmt;
pub mod limbs;
pub mod parse;
pub mod wide;
