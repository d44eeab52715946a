//! Configuring a codec.

use vstd::prelude::*;
use vstd::utf8::is_ascii_chars;
use crate::alphabet::{unique_chars, without_repeats};
use crate::codec::HashidCodec;
use crate::config::{
    derive_pools, derived, lemma_derived_well_formed, lemma_within_ascii, well_formed, Config,
    DEFAULT_ALPHABET, DEFAULT_MIN_LENGTH, MIN_ALPHABET_LENGTH,
};
use crate::error::Error;
use crate::pools::lemma_without_repeats_props;
use crate::roundtrip::{blank_free, lemma_derived_readable, lemma_within_blank_free, readable};
use crate::salt::HashidSalt;
use crate::text::chars_of;

verus! {

/// What a builder has been told so far.
pub struct Settings {
    /// The salt, if one was given.
    pub salt: Option<Seq<char>>,
    /// The alphabet, if one was given.
    pub alphabet: Option<Seq<char>>,
    /// The least length of what the codec is to produce, if one was given.
    pub min_length: Option<usize>,
}

/// Collects the settings of a codec and builds it.
///
/// Only the salt has to be given. The alphabet defaults to the letters of
/// both cases and the digits, the least length to four.
pub struct HashidBuilder {
    salt: Option<HashidSalt>,
    alphabet: Option<String>,
    min_length: Option<usize>,
}

impl View for HashidBuilder {
    type V = Settings;

    closed spec fn view(&self) -> Settings {
        Settings {
            salt: match self.salt {
                Some(s) => Some(s@),
                None => None,
            },
            alphabet: match self.alphabet {
                Some(a) => Some(a@),
                None => None,
            },
            min_length: self.min_length,
        }
    }
}

/// The alphabet that the settings name, as it was given.
pub open spec fn raw_alphabet(s: Settings) -> Seq<char> {
    match s.alphabet {
        Some(a) => a,
        None => DEFAULT_ALPHABET@,
    }
}

/// The least length that the settings name.
pub open spec fn least_length(s: Settings) -> nat {
    match s.min_length {
        Some(n) => n as nat,
        None => DEFAULT_MIN_LENGTH as nat,
    }
}

/// What building from the settings gives.
///
/// The alphabet is judged first: it is refused where it holds a character
/// outside ASCII, and then where fewer than sixteen characters are left of
/// it without the repeated ones. The salt is judged next: it may not be
/// missing, hold a character outside ASCII, or be empty. What passes gives
/// the pools derived from the alphabet without its repeated characters.
pub open spec fn built(s: Settings) -> Result<Config, Error> {
    let raw = raw_alphabet(s);
    if !is_ascii_chars(raw) {
        Err(Error::NonAsciiAlphabet)
    } else if without_repeats(raw).len() < MIN_ALPHABET_LENGTH {
        Err(Error::InvalidAlphabetLength)
    } else {
        match s.salt {
            None => Err(Error::MissingSalt),
            Some(salt) => if !is_ascii_chars(salt) {
                Err(Error::NonAsciiSalt)
            } else if salt.len() == 0 {
                Err(Error::MissingSalt)
            } else {
                Ok(derived(without_repeats(raw), salt, least_length(s)))
            },
        }
    }
}

impl HashidBuilder {
    /// A builder that has been told nothing yet.
    pub fn new() -> (b: HashidBuilder)
        ensures
            b@ == (Settings { salt: None, alphabet: None, min_length: None }),
    {
        HashidBuilder { salt: None, alphabet: None, min_length: None }
    }

    /// Whether a salt has been set.
    pub fn has_salt(&self) -> (b: bool)
        ensures
            b == self@.salt is Some,
    {
        self.salt.is_some()
    }

    /// Sets the salt.
    pub fn with_hashid_salt(self, salt: HashidSalt) -> (b: HashidBuilder)
        ensures
            b@ == (Settings { salt: Some(salt@), ..self@ }),
    {
        HashidBuilder { salt: Some(salt), alphabet: self.alphabet, min_length: self.min_length }
    }

    /// Sets the salt to the text `salt`.
    pub fn with_salt(self, salt: &str) -> (b: HashidBuilder)
        ensures
            b@ == (Settings { salt: Some(salt@), ..self@ }),
    {
        let hashid_salt = HashidSalt::from(salt);
        self.with_hashid_salt(hashid_salt)
    }

    /// Sets the salt to the text `salt`.
    pub fn with_string_salt(self, salt: String) -> (b: HashidBuilder)
        ensures
            b@ == (Settings { salt: Some(salt@), ..self@ }),
    {
        let hashid_salt = HashidSalt::from(salt);
        self.with_hashid_salt(hashid_salt)
    }

    /// Sets the alphabet.
    pub fn with_alphabet(self, alphabet: String) -> (b: HashidBuilder)
        ensures
            b@ == (Settings { alphabet: Some(alphabet@), ..self@ }),
    {
        HashidBuilder { salt: self.salt, alphabet: Some(alphabet), min_length: self.min_length }
    }

    /// Sets the least length of what the codec is to produce.
    pub fn with_length(self, length: usize) -> (b: HashidBuilder)
        ensures
            b@ == (Settings { min_length: Some(length), ..self@ }),
    {
        HashidBuilder { salt: self.salt, alphabet: self.alphabet, min_length: Some(length) }
    }

    /// Builds the codec, or says what is wrong with the settings.
    ///
    /// The codec is what [`built`] says of the settings. It is well formed,
    /// and readable where the alphabet holds no blank.
    pub fn ok(self) -> (r: Result<HashidCodec, Error>)
        ensures
            match r {
                Ok(codec) => {
                    &&& built(self@) == Ok::<Config, Error>(codec@)
                    &&& well_formed(codec@)
                    &&& blank_free(raw_alphabet(self@)) ==> readable(codec@)
                },
                Err(e) => built(self@) == Err::<Config, Error>(e),
            },
    {
        let HashidBuilder { salt, alphabet, min_length } = self;
        let raw: String = match alphabet {
            Some(a) => a,
            None => DEFAULT_ALPHABET.to_owned(),
        };
        if !raw.as_str().is_ascii() {
            return Err(Error::NonAsciiAlphabet);
        }
        let letters = unique_chars(&chars_of(raw.as_str()));
        if letters.len() < MIN_ALPHABET_LENGTH {
            return Err(Error::InvalidAlphabetLength);
        }
        let salt: HashidSalt = match salt {
            Some(s) => s,
            None => {
                return Err(Error::MissingSalt);
            },
        };
        if !salt.is_ascii() {
            return Err(Error::NonAsciiSalt);
        }
        let key = salt.chars();
        if key.len() == 0 {
            return Err(Error::MissingSalt);
        }
        let min_hash_length: usize = match min_length {
            Some(n) => n,
            None => DEFAULT_MIN_LENGTH,
        };
        proof {
            lemma_without_repeats_props(raw@);
            lemma_within_ascii(letters@, raw@);
            lemma_derived_well_formed(letters@, key@, min_hash_length as nat);
            if blank_free(raw@) {
                lemma_within_blank_free(letters@, raw@);
                lemma_derived_readable(letters@, key@, min_hash_length as nat);
            }
        }
        let pools = derive_pools(&letters, &key);
        Ok(HashidCodec::from_pools(key, pools.0, pools.1, pools.2, min_hash_length))
    }
}

} // verus!
