//! The integers that can be encoded.

use vstd::prelude::*;
use crate::error::Error;

verus! {

/// The largest number that can be handed to a codec: 2 to the power of 53.
pub const MAX_ID: u64 = 9_007_199_254_740_992;

/// An integer type whose values can be handed to a codec.
///
/// One number at a time, a codec takes the numbers from 0 to [`MAX_ID`], as
/// machine words. Each type says which word a value of it stands for, or
/// that it stands for none.
pub trait PositiveInteger: Sized {
    /// The word that the value stands for, or the reason why it stands for
    /// none.
    spec fn converted(self) -> Result<usize, Error>;

    /// The value as a word, if it is one that can be encoded. No word that
    /// comes back is over the largest number.
    fn to_usize(self) -> (r: Result<usize, Error>)
        ensures
            r == self.converted(),
            r is Ok ==> r->Ok_0 <= MAX_ID,
    ;
}

impl PositiveInteger for u32 {
    /// Every value stands for a word: none is negative, and none is over
    /// the largest number.
    open spec fn converted(self) -> Result<usize, Error> {
        Ok(self as usize)
    }

    fn to_usize(self) -> (r: Result<usize, Error>) {
        Ok(self as usize)
    }
}

impl PositiveInteger for u64 {
    /// Values over the largest number are refused, and values that the
    /// machine's word cannot hold.
    open spec fn converted(self) -> Result<usize, Error> {
        if self > MAX_ID || self > usize::MAX {
            Err(Error::InvalidInputId)
        } else {
            Ok(self as usize)
        }
    }

    fn to_usize(self) -> (r: Result<usize, Error>) {
        if self > MAX_ID || self > usize::MAX as u64 {
            return Err(Error::InvalidInputId);
        }
        Ok(self as usize)
    }
}

impl PositiveInteger for i32 {
    /// Negative values are refused.
    open spec fn converted(self) -> Result<usize, Error> {
        if self < 0 {
            Err(Error::InvalidInputId)
        } else {
            Ok(self as usize)
        }
    }

    fn to_usize(self) -> (r: Result<usize, Error>) {
        if self < 0 {
            Err(Error::InvalidInputId)
        } else {
            Ok(self as usize)
        }
    }
}

impl PositiveInteger for i64 {
    /// Negative values are refused, values over the largest number, and
    /// values that the machine's word cannot hold.
    open spec fn converted(self) -> Result<usize, Error> {
        if self < 0 || self > MAX_ID || self > usize::MAX {
            Err(Error::InvalidInputId)
        } else {
            Ok(self as usize)
        }
    }

    fn to_usize(self) -> (r: Result<usize, Error>) {
        if self < 0 || self as u64 > MAX_ID || self as u64 > usize::MAX as u64 {
            Err(Error::InvalidInputId)
        } else {
            Ok(self as usize)
        }
    }
}

} // verus!
