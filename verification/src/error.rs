use vstd::prelude::*;

verus! {

/// The closed set of failure kinds shared by the whole crate.
///
/// Every fallible operation reports one of these; none is fatal and a caller
/// may retry with relaxed validation or reject the input.
#[derive(Clone, Copy, Debug, PartialEq, Eq, Structural)]
pub enum Error {
    /// The letter casing of a checksummed address text does not match the
    /// canonical EIP-55 casing of its own bytes.
    InvalidEip55,
    /// A hexadecimal digit group is not valid UTF-8 text; carries the byte
    /// offset of the group within the digit portion of the input.
    InvalidUtf8(usize),
    /// A hexadecimal digit group fails base-16 parsing; carries the byte
    /// offset of the group within the digit portion of the input.
    InvalidHex(usize),
    /// The decoded byte count differs from the fixed address length.
    InvalidAddressLength { got: usize, expected: usize },
}

impl Error {
    /// A short human-readable description of the failure.
    pub fn message(&self) -> (r: String)
        ensures
            self is InvalidEip55 ==> r@ == "Invalid EIP-55 Address encoding"@,
            self is InvalidUtf8 ==> r@ == "Failed to parse bytes as utf8"@,
            self is InvalidHex ==> r@ == "Invalid hex character"@,
            self is InvalidAddressLength ==> r@ == "Invalid address length"@,
    {
        match self {
            Error::InvalidEip55 => "Invalid EIP-55 Address encoding".to_owned(),
            Error::InvalidUtf8(_) => "Failed to parse bytes as utf8".to_owned(),
            Error::InvalidHex(_) => "Invalid hex character".to_owned(),
            Error::InvalidAddressLength { .. } => "Invalid address length".to_owned(),
        }
    }
}

} // verus!
