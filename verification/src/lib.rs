//! Hashids: short, salt-keyed, reversible string ids for sequences of
//! non-negative integers.
//!
//! A [`HashidBuilder`] validates a salt, an alphabet and a minimum length and
//! derives a [`HashidCodec`] from them; the codec encodes integers into
//! strings and decodes such strings back, rejecting whatever it would not
//! have produced itself.

pub mod alphabet;
pub mod builder;
pub mod codec;
pub mod config;
pub mod decoding;
pub mod encoding;
pub mod error;
pub mod hex;
pub mod ids;
pub mod laws;
pub mod numeral;
pub mod pools;
pub mod roundtrip;
pub mod salt;
pub mod shuffle;
pub mod split;
pub mod text;

pub use alphabet::{get_non_duplicated_string, get_unique_alphabet};
pub use builder::HashidBuilder;
pub use codec::HashidCodec;
pub use error::Error;
pub use hex::hex_to_vec;
pub use ids::PositiveInteger;
pub use numeral::{hash, unhash};
pub use salt::HashidSalt;
pub use shuffle::hashids_shuffle;
