//! What a codec reads out of a string, stated over sequences of characters.

use vstd::prelude::*;
use crate::config::Config;
use crate::encoding::{encoded, working};
use crate::error::Error;
use crate::numeral::from_symbols;
use crate::split::{blanked, fields};

verus! {

/// The part of `hash` that holds the lottery character and the digits: with
/// the guards blanked out, the second word where there are two or three
/// words, else the first, and nothing where there is no word.
pub open spec fn payload(c: Config, hash: Seq<char>) -> Seq<char> {
    let parts = fields(blanked(hash, c.guards));
    if parts.len() == 0 {
        Seq::empty()
    } else if parts.len() == 2 || parts.len() == 3 {
        parts[1]
    } else {
        parts[0]
    }
}

/// The groups of digits in `hash`: the words of its payload behind the
/// lottery character, with the separators blanked out.
pub open spec fn groups_of(c: Config, hash: Seq<char>) -> Seq<Seq<char>> {
    fields(blanked(payload(c, hash).skip(1), c.separators))
}

/// The numbers that `hash` spells: each group of digits read over the
/// working alphabet of its turn, under the lottery character that opens the
/// payload. Nothing where there is no payload.
pub open spec fn candidate(c: Config, hash: Seq<char>) -> Seq<nat> {
    let core = payload(c, hash);
    if core.len() == 0 {
        Seq::empty()
    } else {
        let groups = groups_of(c, hash);
        Seq::new(
            groups.len(),
            |i: int| from_symbols(groups[i], working(c, core[0], (i + 1) as nat)),
        )
    }
}

/// Whether each of `numbers` fits the machine's word.
pub open spec fn all_fit(numbers: Seq<nat>) -> bool {
    forall|i: int| 0 <= i < numbers.len() ==> #[trigger] numbers[i] <= usize::MAX
}

/// `numbers` as machine words.
pub open spec fn as_words(numbers: Seq<nat>) -> Seq<usize> {
    Seq::new(numbers.len(), |i: int| numbers[i] as usize)
}

/// What decoding `hash` gives.
///
/// An empty string is refused as empty. Any other string is valid where it
/// spells one number or more, each fitting the machine's word, and the codec
/// encodes exactly these numbers to exactly this string; then they are the
/// result. Every other string is refused as invalid.
pub open spec fn decoded(c: Config, hash: Seq<char>) -> Result<Seq<usize>, Error> {
    if hash.len() == 0 {
        Err(Error::EmptyHash)
    } else {
        let found = candidate(c, hash);
        if found.len() > 0 && all_fit(found) && encoded(c, as_words(found)) == hash {
            Ok(as_words(found))
        } else {
            Err(Error::InvalidHash)
        }
    }
}

} // verus!
