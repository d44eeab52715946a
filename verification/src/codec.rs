//! The codec: numbers to strings and back.

use vstd::prelude::*;
use vstd::arithmetic::div_mod::lemma_add_mod_noop_right;
use crate::config::{well_formed, Config};
use crate::decoding::{all_fit, as_words, candidate, decoded, groups_of, payload};
use crate::encoding::{
    body_upto, cropped, digits_at, encoded, group_at, guard_place, guarded, padded,
    remainder, reshuffle, seed_of, seed_residue, separator_at, separator_place, working, wrapped,
};
use crate::error::Error;
use crate::ids::{PositiveInteger, MAX_ID};
use crate::numeral::{from_symbols, lemma_to_symbols_shape, symbols_of, value_of};
use crate::shuffle::{code, ordinal, shuffle_chars, shuffled};
use crate::split::{blank_out, split_fields, views_of};
use crate::text::{chars_of, copy_of, string_of};

verus! {

/// Encodes and decodes under one configuration.
///
/// A codec comes out of [`HashidBuilder::ok`](crate::HashidBuilder::ok) and
/// never changes afterwards.
#[derive(Debug, PartialEq)]
pub struct HashidCodec {
    salt: Vec<char>,
    alphabet: Vec<char>,
    separators: Vec<char>,
    min_hash_length: usize,
    guards: Vec<char>,
}

impl View for HashidCodec {
    type V = Config;

    closed spec fn view(&self) -> Config {
        Config {
            salt: self.salt@,
            alphabet: self.alphabet@,
            separators: self.separators@,
            guards: self.guards@,
            min_length: self.min_hash_length as nat,
        }
    }
}

/// `text` wrapped in `alphabet` shuffled under itself, which `alphabet` then
/// holds.
pub fn wrap(alphabet: &mut Vec<char>, text: &Vec<char>) -> (out: Vec<char>)
    requires
        old(alphabet)@.len() > 0,
    ensures
        out@ == wrapped(old(alphabet)@, text@),
        final(alphabet)@ == shuffled(old(alphabet)@, old(alphabet)@),
        final(alphabet)@.len() == old(alphabet)@.len(),
        out@.len() == text@.len() + old(alphabet)@.len(),
{
    let key = copy_of(alphabet);
    shuffle_chars(alphabet, &key);
    let n: usize = alphabet.len();
    let half: usize = n / 2;
    let mut out: Vec<char> = Vec::new();
    let mut i: usize = half;
    while i < n
        invariant
            half <= i <= n,
            n == alphabet@.len(),
            out@ == alphabet@.subrange(half as int, i as int),
        decreases n - i,
    {
        out.push(alphabet[i]);
        i = i + 1;
    }
    let mut j: usize = 0;
    while j < text.len()
        invariant
            j <= text.len(),
            out@ == alphabet@.skip(half as int) + text@.take(j as int),
        decreases text.len() - j,
    {
        out.push(text[j]);
        j = j + 1;
    }
    let mut k: usize = 0;
    while k < half
        invariant
            k <= half,
            half <= alphabet@.len(),
            out@ == alphabet@.skip(half as int) + text@ + alphabet@.take(k as int),
        decreases half - k,
    {
        out.push(alphabet[k]);
        k = k + 1;
    }
    out
}

/// The middle `length` characters of `text`.
pub fn crop(text: Vec<char>, length: usize) -> (out: Vec<char>)
    ensures
        out@ == cropped(text@, length as nat),
{
    if text.len() > length {
        let start: usize = (text.len() - length) / 2;
        let mut out: Vec<char> = Vec::new();
        let mut i: usize = 0;
        while i < length
            invariant
                i <= length,
                start + length <= text.len(),
                out@ == text@.subrange(start as int, start + i),
            decreases length - i,
        {
            out.push(text[start + i]);
            i = i + 1;
        }
        out
    } else {
        text
    }
}

/// Pads `text` to `min_length` with the help of `alphabet`.
pub fn pad(min_length: usize, alphabet: Vec<char>, text: Vec<char>) -> (out: Vec<char>)
    requires
        alphabet@.len() > 0,
    ensures
        out@ == padded(min_length as nat, alphabet@, text@),
        out@.len() >= min_length,
{
    let ghost goal = padded(min_length as nat, alphabet@, text@);
    let mut around = alphabet;
    let mut out = text;
    while out.len() < min_length
        invariant
            around@.len() > 0,
            padded(min_length as nat, around@, out@) == goal,
        decreases min_length - out.len(),
    {
        let wide = wrap(&mut around, &out);
        out = crop(wide, min_length);
    }
    out
}

/// `v` without its first character.
pub fn tail_of(v: &Vec<char>) -> (out: Vec<char>)
    requires
        v@.len() > 0,
    ensures
        out@ == v@.skip(1),
{
    let mut out: Vec<char> = Vec::new();
    let mut i: usize = 1;
    while i < v.len()
        invariant
            1 <= i <= v.len(),
            out@ == v@.subrange(1, i as int),
        decreases v.len() - i,
    {
        out.push(v[i]);
        i = i + 1;
    }
    out
}

/// Whether `a` and `b` hold the same characters in the same order.
pub fn same(a: &Vec<char>, b: &Vec<char>) -> (equal: bool)
    ensures
        equal == (a@ == b@),
{
    if a.len() != b.len() {
        return false;
    }
    let mut i: usize = 0;
    while i < a.len()
        invariant
            i <= a.len(),
            a.len() == b.len(),
            a@.take(i as int) == b@.take(i as int),
        decreases a.len() - i,
    {
        if a[i] != b[i] {
            assert(a@[i as int] != b@[i as int]);
            return false;
        }
        proof {
            assert(a@.take(i + 1) =~= a@.take(i as int).push(a@[i as int]));
            assert(b@.take(i + 1) =~= b@.take(i as int).push(b@[i as int]));
        }
        i = i + 1;
    }
    proof {
        assert(a@.take(i as int) =~= a@);
        assert(b@.take(i as int) =~= b@);
    }
    true
}

impl HashidCodec {
    /// Every codec is well formed.
    #[verifier::type_invariant]
    spec fn inv(&self) -> bool {
        well_formed(self@)
    }

    /// The codec of the given pools.
    pub(crate) fn from_pools(
        salt: Vec<char>,
        alphabet: Vec<char>,
        separators: Vec<char>,
        guards: Vec<char>,
        min_hash_length: usize,
    ) -> (codec: HashidCodec)
        requires
            well_formed(
                Config {
                    salt: salt@,
                    alphabet: alphabet@,
                    separators: separators@,
                    guards: guards@,
                    min_length: min_hash_length as nat,
                },
            ),
        ensures
            codec@ == (Config {
                salt: salt@,
                alphabet: alphabet@,
                separators: separators@,
                guards: guards@,
                min_length: min_hash_length as nat,
            }),
    {
        HashidCodec { salt, alphabet, separators, min_hash_length, guards }
    }

    /// The working alphabet.
    pub fn alphabet(&self) -> (s: String)
        ensures
            s@ == self@.alphabet,
    {
        string_of(&self.alphabet)
    }

    /// The separators.
    pub fn separators(&self) -> (s: String)
        ensures
            s@ == self@.separators,
    {
        string_of(&self.separators)
    }

    /// The guards.
    pub fn guards(&self) -> (s: String)
        ensures
            s@ == self@.guards,
    {
        string_of(&self.guards)
    }

    /// The least length of what the codec produces.
    pub fn min_hash_length(&self) -> (n: usize)
        ensures
            n == self@.min_length,
    {
        self.min_hash_length
    }

    /// The lottery character and the groups of all of `numbers`, and the
    /// working alphabet after the last of them.
    fn body(&self, numbers: &Vec<usize>, lottery: char) -> (r: (Vec<char>, Vec<char>))
        ensures
            r.0@ == body_upto(self@, lottery, numbers@, numbers@.len()),
            r.1@ == working(self@, lottery, numbers@.len()),
            r.1@.len() == self@.alphabet.len(),
            r.0@.len() > numbers@.len(),
    {
        proof {
            use_type_invariant(self);
        }
        let mut out: Vec<char> = Vec::new();
        out.push(lottery);
        let mut alphabet = copy_of(&self.alphabet);
        let count: usize = self.separators.len();
        let mut i: usize = 0;
        while i < numbers.len()
            invariant
                i <= numbers.len(),
                count == self.separators@.len(),
                count > 0,
                self@.separators == self.separators@,
                self@.salt == self.salt@,
                alphabet@ == working(self@, lottery, i as nat),
                alphabet@.len() == self@.alphabet.len(),
                alphabet@.len() >= 2,
                out@ == body_upto(self@, lottery, numbers@, i as nat),
                out@.len() > i,
            decreases numbers.len() - i,
        {
            reshuffle(&mut alphabet, lottery, &self.salt);
            let n: usize = numbers[i];
            let digits = symbols_of(n, &alphabet);
            proof {
                lemma_to_symbols_shape(n as nat, alphabet@);
                assert(digits@ == digits_at(self@, lottery, numbers@, i as int));
            }
            let first: u128 = ordinal(digits[0]) as u128 + i as u128;
            let mut j: usize = 0;
            while j < digits.len()
                invariant
                    j <= digits.len(),
                    out@ == body_upto(self@, lottery, numbers@, i as nat) + digits@.take(j as int),
                decreases digits.len() - j,
            {
                out.push(digits[j]);
                j = j + 1;
            }
            proof {
                assert(digits@.take(j as int) =~= digits@);
            }
            if i + 1 < numbers.len() {
                let rest: u128 = if first == 0 {
                    n as u128
                } else {
                    (n as u128) % first
                };
                let place: usize = (rest % (count as u128)) as usize;
                proof {
                    assert(rest == remainder(n as nat, (code(digits@[0]) + i) as nat));
                    assert(place == separator_place(n as nat, digits@[0], i as int, count as nat));
                    assert(self.separators@[place as int] == separator_at(
                        self@,
                        lottery,
                        numbers@,
                        i as int,
                    ));
                    assert(group_at(self@, lottery, numbers@, i as int) == digits@.push(
                        self.separators@[place as int],
                    ));
                    assert(out@.push(self.separators@[place as int]) =~= body_upto(
                        self@,
                        lottery,
                        numbers@,
                        i as nat,
                    ) + digits@.push(self.separators@[place as int]));
                }
                out.push(self.separators[place]);
            }
            i = i + 1;
        }
        (out, alphabet)
    }

    /// `body` between guards, as far as it is too short.
    fn guard(&self, numbers: &Vec<usize>, body: Vec<char>) -> (out: Vec<char>)
        requires
            body@.len() >= 2,
        ensures
            out@ == guarded(self@, seed_of(numbers@), body@),
    {
        proof {
            use_type_invariant(self);
        }
        let mut out = body;
        let count: usize = self.guards.len();
        let ghost seed = seed_of(numbers@);
        if out.len() < self.min_hash_length {
            let residue: usize = seed_residue(numbers, count);
            let place: usize = ((ordinal(out[0]) as u128 + residue as u128) % (
            count as u128)) as usize;
            proof {
                lemma_add_mod_noop_right(code(out@[0]), seed as int, count as int);
                assert(place == guard_place(seed, out@[0], count as nat));
                assert(out@.insert(0, self.guards@[place as int]) =~= seq![
                    self.guards@[place as int],
                ] + out@);
            }
            out.insert(0, self.guards[place]);
            if out.len() < self.min_hash_length {
                let place: usize = ((ordinal(out[2]) as u128 + residue as u128) % (
                count as u128)) as usize;
                proof {
                    lemma_add_mod_noop_right(code(out@[2]), seed as int, count as int);
                    assert(place == guard_place(seed, out@[2], count as nat));
                }
                out.push(self.guards[place]);
            }
        }
        out
    }

    /// Encodes one number.
    ///
    /// A value that stands for no word, as a negative one or one over the
    /// largest number, is refused with the reason that its type gives; any
    /// other is encoded as the sequence of that one word.
    pub fn encode<T: PositiveInteger>(&self, id: T) -> (r: Result<String, Error>)
        ensures
            match r {
                Ok(hash) => {
                    &&& id.converted() is Ok
                    &&& id.converted()->Ok_0 <= MAX_ID
                    &&& hash@ == encoded(self@, seq![id.converted()->Ok_0])
                    &&& hash@.len() >= self@.min_length
                },
                Err(e) => id.converted() == Err::<usize, Error>(e),
            },
    {
        match id.to_usize() {
            Ok(n) => {
                let mut numbers: Vec<usize> = Vec::new();
                numbers.push(n);
                assert(numbers@ =~= seq![n]);
                Ok(self.encode_vec(&numbers))
            },
            Err(e) => Err(e),
        }
    }

    /// Encodes `numbers`, one or more of them, into one string.
    ///
    /// The string is what [`encoded`] says of the codec and the numbers, so
    /// that equal numbers always give the same string, and it is never
    /// shorter than the codec's least length.
    pub fn encode_vec(&self, numbers: &Vec<usize>) -> (hash: String)
        requires
            numbers@.len() > 0,
        ensures
            hash@ == encoded(self@, numbers@),
            hash@.len() >= self@.min_length,
    {
        let out = self.encode_chars(numbers);
        string_of(&out)
    }

    /// Decodes `hash` into the numbers that it was made of.
    ///
    /// The result is what [`decoded`] says of the codec and the string: the
    /// numbers read out of it are returned only where encoding them gives
    /// the string back, character for character.
    pub fn decode(&self, hash: String) -> (r: Result<Vec<usize>, Error>)
        ensures
            match r {
                Ok(numbers) => decoded(self@, hash@) == Ok::<Seq<usize>, Error>(numbers@),
                Err(e) => decoded(self@, hash@) == Err::<Seq<usize>, Error>(e),
            },
    {
        proof {
            use_type_invariant(self);
        }
        let text = chars_of(hash.as_str());
        if text.len() == 0 {
            return Err(Error::EmptyHash);
        }
        let parts = split_fields(&blank_out(&text, &self.guards));
        if parts.len() == 0 {
            return Err(Error::InvalidHash);
        }
        let at: usize = if parts.len() == 2 || parts.len() == 3 {
            1
        } else {
            0
        };
        let core: &Vec<char> = &parts[at];
        proof {
            assert(views_of(parts@)[at as int] == core@);
            assert(core@ == payload(self@, hash@));
        }
        if core.len() == 0 {
            return Err(Error::InvalidHash);
        }
        let lottery: char = core[0];
        let rest = tail_of(core);
        let groups = split_fields(&blank_out(&rest, &self.separators));
        assert(views_of(groups@) == groups_of(self@, hash@));
        let mut alphabet = copy_of(&self.alphabet);
        let mut numbers: Vec<usize> = Vec::new();
        let mut i: usize = 0;
        let ghost found = candidate(self@, hash@);
        while i < groups.len()
            invariant
                i <= groups.len(),
                self@.salt == self.salt@,
                views_of(groups@) == groups_of(self@, hash@),
                found == candidate(self@, hash@),
                found.len() == groups@.len(),
                payload(self@, hash@).len() > 0,
                lottery == payload(self@, hash@)[0],
                alphabet@ == working(self@, lottery, i as nat),
                numbers@.len() == i,
                forall|k: int| 0 <= k < i ==> found[k] == #[trigger] numbers@[k],
            decreases groups.len() - i,
        {
            reshuffle(&mut alphabet, lottery, &self.salt);
            proof {
                assert(views_of(groups@)[i as int] == groups@[i as int]@);
                assert(found[i as int] == from_symbols(groups@[i as int]@, alphabet@));
            }
            match value_of(&groups[i], &alphabet) {
                Some(n) => {
                    numbers.push(n);
                },
                None => {
                    proof {
                        assert(!all_fit(found));
                    }
                    return Err(Error::InvalidHash);
                },
            }
            i = i + 1;
        }
        if numbers.len() == 0 {
            return Err(Error::InvalidHash);
        }
        proof {
            assert forall|k: int| 0 <= k < found.len() implies #[trigger] found[k]
                <= usize::MAX by {
                assert(found[k] == numbers@[k]);
            }
            assert(numbers@ =~= as_words(found));
        }
        let check = self.encode_chars(&numbers);
        if same(&check, &text) {
            Ok(numbers)
        } else {
            Err(Error::InvalidHash)
        }
    }

    /// The characters of what `numbers` encode to.
    pub fn encode_chars(&self, numbers: &Vec<usize>) -> (out: Vec<char>)
        requires
            numbers@.len() > 0,
        ensures
            out@ == encoded(self@, numbers@),
            out@.len() >= self@.min_length,
    {
        proof {
            use_type_invariant(self);
        }
        let place: usize = seed_residue(numbers, self.alphabet.len());
        let lottery: char = self.alphabet[place];
        let (body, alphabet) = self.body(numbers, lottery);
        let between = self.guard(numbers, body);
        pad(self.min_hash_length, alphabet, between)
    }
}

} // verus!
