//! The errors that the parsers and the engine report.

use vstd::prelude::*;

verus! {

/// Why an input was refused.
#[derive(Clone, Copy, Debug, PartialEq, Eq, Structural)]
pub enum ScanError {
    /// The input does not have the shape of a CIDR or of a port
    /// specification.
    InvalidFormat,
    /// The input has the right shape, but a part of it lies outside its
    /// bounds: an address that is no IP literal, a prefix that is too long,
    /// a port range that starts above its end.
    InvalidRange,
    /// The request is well formed, but the library does not carry it out:
    /// IPv6 ranges are not expanded.
    Unsupported,
}

impl ScanError {
    /// The words that describe the error.
    pub open spec fn message_of(self) -> Seq<char> {
        match self {
            ScanError::InvalidFormat => "invalid format"@,
            ScanError::InvalidRange => "value out of range"@,
            ScanError::Unsupported => "IPv6 ranges are not supported"@,
        }
    }

    /// A description of the error for the user.
    pub fn message(&self) -> (text: String)
        ensures
            text@ == self.message_of(),
    {
        let words = match self {
            ScanError::InvalidFormat => "invalid format",
            ScanError::InvalidRange => "value out of range",
            ScanError::Unsupported => "IPv6 ranges are not supported",
        };
        words.to_owned()
    }
}

} // verus!
