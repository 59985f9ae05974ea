//! Range checks: a value is shown to lie in `[0, RANGE)` by a gate whose
//! polynomial vanishes exactly there, or, for large ranges, by a lookup in
//! a table of the values of the range.

pub mod gate;
pub mod lookup;
pub mod table;
