use vstd::prelude::*;

verus! {

/// The closed set of failure kinds the codec can report.
#[derive(Debug, Clone, Copy, PartialEq, Eq, Structural)]
pub enum SlipError {
    /// No `END` delimiter byte was present where one was required to
    /// identify a frame boundary.
    NoEndDelimiter,
    /// An escape byte was followed by a byte other than the two recognized
    /// escaped substitutes, or was the last byte of the scanned range.
    InvalidEncoding,
}

impl SlipError {
    /// A short description of the error.
    pub fn message(&self) -> (r: &'static str)
        ensures
            *self == SlipError::NoEndDelimiter ==> r@ == "no 'END' (0xC0) delimiter byte found in buffer"@,
            *self == SlipError::InvalidEncoding ==> r@ == "buffer not encoded to SLIP protocol"@,
    {
        match *self {
            SlipError::NoEndDelimiter => "no 'END' (0xC0) delimiter byte found in buffer",
            SlipError::InvalidEncoding => "buffer not encoded to SLIP protocol",
        }
    }
}

} // verus!
