use vstd::prelude::*;

verus! {

/// An error in parsing a Roman numeral.
#[derive(Copy, Clone, Debug, Eq, PartialEq, Hash)]
pub enum Error {
    /// Encountered a byte that is not one of the seven Roman digits.
    InvalidDigit(u8),
    /// The numeral summed to a well-formed value outside the valid range.
    OutOfRange(u16),
    /// The running sum left the width of a `u16` during accumulation.
    Overflow,
}

} // verus!
