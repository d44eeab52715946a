//! The secret that keys every permutation.

use vstd::prelude::*;

verus! {

/// The salt of a codec: the text that decides how alphabets are shuffled.
///
/// Any text can be wrapped; whether it is fit for a codec (not empty, ASCII
/// only) is decided when the codec is built.
#[derive(Debug, PartialEq)]
pub struct HashidSalt(String);

impl View for HashidSalt {
    type V = Seq<char>;

    closed spec fn view(&self) -> Seq<char> {
        self.0@
    }
}

impl HashidSalt {
    /// Whether every character of the salt is an ASCII character.
    pub fn is_ascii(&self) -> (b: bool)
        ensures
            b == vstd::utf8::is_ascii_chars(self@),
    {
        self.0.as_str().is_ascii()
    }

    /// The characters of the salt.
    pub fn chars(&self) -> (v: Vec<char>)
        ensures
            v@ == self@,
    {
        crate::text::chars_of(self.0.as_str())
    }
}

/// What `from` returns is stated on `from` itself, over the salt's
/// characters.
impl vstd::std_specs::convert::FromSpecImpl<&str> for HashidSalt {
    open spec fn obeys_from_spec() -> bool {
        false
    }

    open spec fn from_spec(s: &str) -> Self {
        arbitrary()
    }
}

/// What `from` returns is stated on `from` itself, over the salt's
/// characters.
impl vstd::std_specs::convert::FromSpecImpl<String> for HashidSalt {
    open spec fn obeys_from_spec() -> bool {
        false
    }

    open spec fn from_spec(s: String) -> Self {
        arbitrary()
    }
}

impl From<&str> for HashidSalt {
    /// The salt that holds the characters of `s`.
    fn from(s: &str) -> (salt: HashidSalt)
        ensures
            salt@ == s@,
    {
        HashidSalt(s.to_owned())
    }
}

impl From<String> for HashidSalt {
    /// The salt that holds the characters of `s`.
    fn from(s: String) -> (salt: HashidSalt)
        ensures
            salt@ == s@,
    {
        HashidSalt(s)
    }
}

} // verus!
