//! Puzzle solutions whose core is an online classifier of numeric reports:
//! a report is safe when it moves in one direction by steps of a bounded
//! size, possibly after discarding a single out-of-place value.
pub mod ascii;
pub mod step;
pub mod report;
pub mod classifier;
pub mod day2;
pub mod day1;
