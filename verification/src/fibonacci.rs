//! The Fibonacci recurrence `a + b - c = 0`, laid out in two ways: three
//! columns read on one row, and one column read on three rows.

pub mod agreement;
pub mod columns;
pub mod recurrence;
pub mod rotations;
