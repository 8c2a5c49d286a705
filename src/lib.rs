//! Converts the rows of a statement-coverage text report into `lcov` records.
//!
//! [`FileCov::parse`] reads one row of the report, and [`FileCov::to_string`]
//! writes a record as an `lcov` block. Both are verified against the models in
//! [`filecov`]: `parse_line` for what a row means, `lcov_block` for the text a
//! record is written as.
pub mod filecov;
pub mod text;

pub use filecov::FileCov;
