//! A validated, checksum-aware representation of an Ethereum-style 20-byte
//! address: parsing from hexadecimal text, validating EIP-55 mixed-case
//! checksums, and rendering back to the canonical checksummed string form.

pub mod address;
pub mod error;
pub mod utils;

pub use address::Address;
pub use error::Error;
