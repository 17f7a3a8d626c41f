//! Parsing and formatting for Roman numerals.
//!
//! A [`Roman`] value holds an integer in `1..=4999` and can be rendered as an
//! upper- or lowercase numeral built from the seven symbols `M D C L X V I`,
//! or parsed back from such a numeral, case-insensitively.

pub mod error;
pub mod laws;
pub mod roman;
pub mod unit;

pub use error::Error;
pub use roman::{Roman, RomanFormatter, Style, MAX};
pub use unit::{to_digit, RomanUnitIterator};
