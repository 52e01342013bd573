//! A range check by decomposition: a value is shown to lie below a bound by
//! splitting it into base-`LOOKUP_RANGE` digits, constraining each digit to a
//! small lookup table and constraining the weighted digits to sum back to the
//! value over the Pallas scalar field.

pub mod field;
pub mod table;
pub mod config;
pub mod witness;
pub mod relation;
