//! The failures that configuring, encoding and decoding report.

use vstd::prelude::*;

verus! {

/// Why a configuration was refused, or why a call on a codec failed.
#[derive(Debug, PartialEq, Eq, Structural, Clone, Copy)]
#[non_exhaustive]
pub enum Error {
    /// No salt was given, or the salt is empty.
    MissingSalt,
    /// The salt holds a character outside ASCII.
    NonAsciiSalt,
    /// Fewer than sixteen distinct characters are left of the alphabet, or an
    /// empty sequence was handed to the shuffle.
    InvalidAlphabetLength,
    /// The alphabet holds a character outside ASCII.
    NonAsciiAlphabet,
    /// The number to encode is negative or too large.
    InvalidInputId,
    /// The text is not a hexadecimal number.
    NonHexString,
    /// The string to decode is empty.
    EmptyHash,
    /// The string to decode is not what the codec produces for any numbers.
    InvalidHash,
}

} // verus!
