//! What holds of every configuration, every sequence of numbers and every
//! string.

use vstd::prelude::*;
use vstd::arithmetic::div_mod::lemma_mod_bound;
use vstd::utf8::is_ascii_chars;
use crate::alphabet::without_repeats;
use crate::builder::{built, least_length, raw_alphabet, Settings};
use crate::config::{
    derived, lemma_default_alphabet, lemma_within_ascii, lemma_within_trans, well_formed, Config,
    DEFAULT_ALPHABET, MIN_ALPHABET_LENGTH,
};
use crate::decoding::{as_words, candidate, decoded};
use crate::encoding::{
    body_upto, cropped, encoded, guard_place, guarded, lottery_of, padded, seed_of, working,
    wrapped,
};
use crate::error::Error;
use crate::pools::{
    lemma_shuffled_props, lemma_within_concat, lemma_within_parts, lemma_within_subrange,
    lemma_without_repeats_same, within,
};
use crate::roundtrip::{
    blank_free, lemma_body_shape, lemma_derived_readable, lemma_working_props, readable,
};
use crate::shuffle::{code, shuffled};

verus! {

/// Padding makes long enough: with an alphabet that is not empty, what comes
/// out is never shorter than the least length, nor than what went in.
pub proof fn lemma_padded_length(min_length: nat, alphabet: Seq<char>, text: Seq<char>)
    requires
        alphabet.len() > 0,
    ensures
        padded(min_length, alphabet, text).len() >= min_length,
        padded(min_length, alphabet, text).len() >= text.len(),
    decreases min_length - text.len(),
{
    if text.len() < min_length {
        lemma_shuffled_props(alphabet, alphabet);
        lemma_padded_length(
            min_length,
            shuffled(alphabet, alphabet),
            cropped(wrapped(alphabet, text), min_length),
        );
    }
}

/// No string that a codec produces is shorter than the codec's least length,
/// and none is empty.
pub proof fn lemma_encoded_length(c: Config, numbers: Seq<usize>)
    requires
        well_formed(c),
    ensures
        encoded(c, numbers).len() >= c.min_length,
        encoded(c, numbers).len() >= 1,
{
    let lottery = lottery_of(c, numbers);
    let body = body_upto(c, lottery, numbers, numbers.len());
    lemma_working_props(c, lottery, numbers.len());
    lemma_body_grows(c, lottery, numbers, numbers.len());
    lemma_padded_length(
        c.min_length,
        working(c, lottery, numbers.len()),
        guarded(c, seed_of(numbers), body),
    );
}

/// The body is never empty.
pub proof fn lemma_body_grows(c: Config, lottery: char, numbers: Seq<usize>, k: nat)
    ensures
        body_upto(c, lottery, numbers, k).len() >= 1,
    decreases k,
{
    if k > 0 {
        lemma_body_grows(c, lottery, numbers, (k - 1) as nat);
    }
}

/// The alphabet decides first: settings whose alphabet is ASCII but leaves
/// fewer than sixteen distinct characters are refused for the alphabet's
/// length, whatever the salt; settings whose alphabet is ASCII and leaves
/// sixteen or more give a codec as soon as the salt is ASCII and not empty.
pub proof fn lemma_alphabet_gate(s: Settings)
    requires
        is_ascii_chars(raw_alphabet(s)),
    ensures
        without_repeats(raw_alphabet(s)).len() < MIN_ALPHABET_LENGTH ==> built(s) == Err::<
            Config,
            Error,
        >(Error::InvalidAlphabetLength),
        without_repeats(raw_alphabet(s)).len() >= MIN_ALPHABET_LENGTH && s.salt is Some
            && is_ascii_chars(s.salt->Some_0) && s.salt->Some_0.len() > 0 ==> built(s) is Ok,
{
}

/// A string is decoded only to numbers that encode to it: whatever decoding
/// accepts, encoding gives back.
pub proof fn lemma_decoded_sound(c: Config, hash: Seq<char>)
    ensures
        match decoded(c, hash) {
            Ok(numbers) => numbers.len() > 0 && encoded(c, numbers) == hash,
            Err(e) => e == Error::EmptyHash || e == Error::InvalidHash,
        },
{
}

/// A string that a configuration would not produce for any numbers is
/// refused as invalid when decoded under it, wherever it came from: also
/// where another configuration, with another salt, has produced it.
pub proof fn lemma_foreign_refused(c: Config, other: Config, numbers: Seq<usize>)
    requires
        well_formed(other),
        forall|any: Seq<usize>| any.len() > 0 ==> #[trigger] encoded(c, any) != encoded(
            other,
            numbers,
        ),
    ensures
        decoded(c, encoded(other, numbers)) == Err::<Seq<usize>, Error>(Error::InvalidHash),
{
    let hash = encoded(other, numbers);
    lemma_encoded_length(other, numbers);
    let found = as_words(candidate(c, hash));
    if found.len() > 0 {
        assert(encoded(c, found) != hash);
    }
}

/// Settings that name no alphabet give a codec as soon as the salt is ASCII
/// and not empty: the codec of the default alphabet, which is readable.
pub proof fn lemma_default_alphabet_builds(s: Settings)
    requires
        s.alphabet is None,
        s.salt is Some,
        is_ascii_chars(s.salt->Some_0),
        s.salt->Some_0.len() > 0,
    ensures
        built(s) == Ok::<Config, Error>(
            derived(DEFAULT_ALPHABET@, s.salt->Some_0, least_length(s)),
        ),
        readable(derived(DEFAULT_ALPHABET@, s.salt->Some_0, least_length(s))),
{
    lemma_default_alphabet();
    lemma_without_repeats_same(DEFAULT_ALPHABET@);
    assert(blank_free(DEFAULT_ALPHABET@));
    lemma_derived_readable(DEFAULT_ALPHABET@, s.salt->Some_0, least_length(s));
}

/// All the characters of a configuration: alphabet, separators and guards.
pub open spec fn all_pools(c: Config) -> Seq<char> {
    c.alphabet + c.separators + c.guards
}

/// Padding adds characters of the alphabet only.
pub proof fn lemma_padded_within(
    min_length: nat,
    alphabet: Seq<char>,
    text: Seq<char>,
    whole: Seq<char>,
)
    requires
        within(alphabet, whole),
        within(text, whole),
    ensures
        within(padded(min_length, alphabet, text), whole),
    decreases min_length - text.len(),
{
    if text.len() < min_length && alphabet.len() > 0 {
        let around = shuffled(alphabet, alphabet);
        let half = (alphabet.len() / 2) as int;
        let wide = wrapped(alphabet, text);
        lemma_shuffled_props(alphabet, alphabet);
        lemma_within_trans(around, alphabet, whole);
        lemma_within_subrange(around, half, around.len() as int, whole);
        lemma_within_subrange(around, 0, half, whole);
        lemma_within_concat(around.skip(half), text, whole);
        lemma_within_concat(around.skip(half) + text, around.take(half), whole);
        if wide.len() > min_length {
            let start = (wide.len() - min_length) / 2;
            lemma_within_subrange(wide, start, start + min_length, whole);
        }
        lemma_padded_within(min_length, around, cropped(wide, min_length), whole);
    }
}

/// What a codec produces is made of its own characters: every character of
/// the string is one of the alphabet, of the separators or of the guards,
/// and so the string is ASCII.
pub proof fn lemma_encoded_within(c: Config, numbers: Seq<usize>)
    requires
        well_formed(c),
        numbers.len() > 0,
    ensures
        within(encoded(c, numbers), all_pools(c)),
        is_ascii_chars(encoded(c, numbers)),
{
    let whole = all_pools(c);
    let seed = seed_of(numbers);
    let lottery = lottery_of(c, numbers);
    let body = body_upto(c, lottery, numbers, numbers.len());
    let between = guarded(c, seed, body);
    assert(c.alphabet.contains(lottery)) by {
        lemma_mod_bound(seed as int, c.alphabet.len() as int);
    }
    lemma_body_shape(c, lottery, numbers, numbers.len());
    lemma_within_parts(c.alphabet + c.separators, c.guards);
    lemma_within_parts(c.alphabet, c.separators);
    lemma_within_trans(c.alphabet, c.alphabet + c.separators, whole);
    lemma_within_trans(body, c.alphabet + c.separators, whole);
    assert(within(between, whole)) by {
        let count = c.guards.len();
        lemma_mod_bound(seed + code(body[0]), count as int);
        let first = c.guards[guard_place(seed, body[0], count) as int];
        let front = seq![first] + body;
        lemma_mod_bound(seed + code(front[2]), count as int);
        let second = c.guards[guard_place(seed, front[2], count) as int];
        assert(within(seq![first], c.guards)) by {
            assert forall|i: int| 0 <= i < 1 implies c.guards.contains(
                #[trigger] seq![first][i],
            ) by {}
        }
        assert(within(seq![second], c.guards)) by {
            assert forall|i: int| 0 <= i < 1 implies c.guards.contains(
                #[trigger] seq![second][i],
            ) by {}
        }
        lemma_within_trans(seq![first], c.guards, whole);
        lemma_within_trans(seq![second], c.guards, whole);
        lemma_within_concat(seq![first], body, whole);
        lemma_within_concat(front, seq![second], whole);
        assert(front.push(second) =~= front + seq![second]);
    }
    lemma_working_props(c, lottery, numbers.len());
    lemma_within_trans(working(c, lottery, numbers.len()), c.alphabet, whole);
    lemma_padded_within(c.min_length, working(c, lottery, numbers.len()), between, whole);
    assert(is_ascii_chars(whole)) by {
        assert forall|i: int| 0 <= i < whole.len() implies '\0' <= #[trigger] whole[i]
            <= '\u{7f}' by {
            if i < c.alphabet.len() {
                assert(whole[i] == c.alphabet[i]);
            } else if i < c.alphabet.len() + c.separators.len() {
                assert(whole[i] == c.separators[i - c.alphabet.len()]);
            } else {
                assert(whole[i] == c.guards[i - c.alphabet.len() - c.separators.len()]);
            }
        }
    }
    lemma_within_ascii(encoded(c, numbers), whole);
}

} // verus!
