//! Laws of the scanner, the grammar and the diagnostics, each proved for
//! all inputs.

pub mod order;
pub mod positions;
pub mod precedence;
pub mod round_trip;
