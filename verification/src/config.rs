//! From an alphabet and a salt to the three pools of a codec: the working
//! alphabet, the separators and the guards.

use vstd::prelude::*;
use vstd::utf8::is_ascii_chars;
use crate::alphabet::{sift, sifted};
use crate::pools::{
    apart, lemma_distinct_within_len, lemma_shuffled_props, lemma_sifted_props,
    lemma_sifted_split, within,
};
use crate::shuffle::{shuffle_chars, shuffled};
use crate::text::chars_of;

verus! {

/// The alphabet of a codec that was given none.
pub const DEFAULT_ALPHABET: &'static str =
    "abcdefghijklmnopqrstuvwxyzABCDEFGHIJKLMNOPQRSTUVWXYZ1234567890";

/// The characters that serve as separators wherever the alphabet holds them.
pub const DEFAULT_SEPARATORS: &'static str = "cfhistuCFHISTU";

/// The least length of what a codec produces, where none was asked for.
pub const DEFAULT_MIN_LENGTH: usize = 4;

/// The fewest distinct characters that make an alphabet.
pub const MIN_ALPHABET_LENGTH: usize = 16;

/// There is one guard for every twelve letters or part of twelve.
pub const GUARD_DIV: usize = 12;

/// What a codec works with.
pub struct Config {
    /// The salt.
    pub salt: Seq<char>,
    /// The working alphabet, from which the digits are taken.
    pub alphabet: Seq<char>,
    /// The characters that part one number's digits from the next one's.
    pub separators: Seq<char>,
    /// The characters that only ever pad.
    pub guards: Seq<char>,
    /// The least length of what is produced.
    pub min_length: nat,
}

/// How many separators an alphabet of `n` characters calls for: `n / 3.5`,
/// rounded down, and two at the least.
pub open spec fn separator_target(n: nat) -> nat {
    if 2 * n / 7 < 2 {
        2
    } else {
        2 * n / 7
    }
}

/// How many guards an alphabet of `n` characters calls for: `n / 12`, rounded
/// up.
pub open spec fn guard_count(n: nat) -> nat {
    (n + GUARD_DIV - 1) as nat / GUARD_DIV as nat
}

/// Separators and alphabet after the separators were brought to size.
///
/// Nothing changes where there are separators and the alphabet is at most
/// three and a half times as long as they are. Otherwise the separators are
/// brought to their target: those that are missing come from the front of
/// the alphabet, and those that are too many are dropped from the end.
pub open spec fn resized(separators: Seq<char>, alphabet: Seq<char>) -> (Seq<char>, Seq<char>) {
    let n = alphabet.len();
    if separators.len() == 0 || 2 * n > 7 * separators.len() {
        let target = separator_target(n);
        if target > separators.len() {
            let missing = target - separators.len();
            (separators + alphabet.take(missing), alphabet.skip(missing))
        } else {
            (separators.take(target as int), alphabet)
        }
    } else {
        (separators, alphabet)
    }
}

/// The pools that `alphabet`, a sequence of distinct characters, and `salt`
/// give, with the least length `min_length`.
///
/// The separators are the default separators that the alphabet holds, in
/// their own order, shuffled; the letters are the characters of the alphabet
/// that are no default separators. The separators are brought to size, and
/// what is left of the letters is shuffled. One guard for every twelve
/// letters or part of twelve, counted before the separators were brought to
/// size, is then taken from the front of the shuffled letters, or from the
/// front of the separators where there were fewer than three letters. What
/// is left of the shuffled letters is the working alphabet.
pub open spec fn derived(alphabet: Seq<char>, salt: Seq<char>, min_length: nat) -> Config {
    let marks = shuffled(sifted(DEFAULT_SEPARATORS@, alphabet, true), salt);
    let letters = sifted(alphabet, DEFAULT_SEPARATORS@, false);
    let n = letters.len();
    let (separators, rest) = resized(marks, letters);
    let working = shuffled(rest, salt);
    let count = guard_count(n) as int;
    if n < 3 {
        Config {
            salt,
            alphabet: working,
            separators: separators.skip(count),
            guards: separators.take(count),
            min_length,
        }
    } else {
        Config {
            salt,
            alphabet: working.skip(count),
            separators,
            guards: working.take(count),
            min_length,
        }
    }
}

/// What every codec's pools satisfy: a salt, two or more digits, a separator
/// and a guard at the least, ASCII throughout, no digit twice, and no
/// character in two pools.
pub open spec fn well_formed(c: Config) -> bool {
    &&& c.salt.len() > 0
    &&& c.alphabet.len() >= 2
    &&& c.separators.len() >= 1
    &&& c.guards.len() >= 1
    &&& c.alphabet.no_duplicates()
    &&& apart(c.alphabet, c.separators)
    &&& apart(c.alphabet, c.guards)
    &&& apart(c.separators, c.guards)
    &&& is_ascii_chars(c.salt)
    &&& is_ascii_chars(c.alphabet)
    &&& is_ascii_chars(c.separators)
    &&& is_ascii_chars(c.guards)
}

/// The default separators are fourteen characters, each once.
pub proof fn lemma_default_separators()
    ensures
        DEFAULT_SEPARATORS@.len() == 14,
        DEFAULT_SEPARATORS@.no_duplicates(),
{
    reveal_strlit("cfhistuCFHISTU");
    let d = DEFAULT_SEPARATORS@;
    assert(d =~= seq!['c', 'f', 'h', 'i', 's', 't', 'u', 'C', 'F', 'H', 'I', 'S', 'T', 'U']);
}

/// The default alphabet is sixty-two ASCII characters, each once, and all of
/// them digits or letters.
pub proof fn lemma_default_alphabet()
    ensures
        DEFAULT_ALPHABET@.len() == 62,
        DEFAULT_ALPHABET@.no_duplicates(),
        is_ascii_chars(DEFAULT_ALPHABET@),
        forall|i: int| 0 <= i < 62 ==> '0' <= #[trigger] DEFAULT_ALPHABET@[i] <= 'z',
{
    reveal_strlit("abcdefghijklmnopqrstuvwxyzABCDEFGHIJKLMNOPQRSTUVWXYZ1234567890");
    let d = DEFAULT_ALPHABET@;
    let place = |i: int|
        if i < 26 {
            'a' as int + i
        } else if i < 52 {
            'A' as int + i - 26
        } else if i < 61 {
            '1' as int + i - 52
        } else {
            '0' as int
        };
    assert forall|i: int| 0 <= i < 62 implies #[trigger] d[i] as int == place(i) by {
        assert(d =~= seq![
            'a', 'b', 'c', 'd', 'e', 'f', 'g', 'h', 'i', 'j', 'k', 'l', 'm', 'n', 'o', 'p', 'q',
            'r', 's', 't', 'u', 'v', 'w', 'x', 'y', 'z', 'A', 'B', 'C', 'D', 'E', 'F', 'G', 'H',
            'I', 'J', 'K', 'L', 'M', 'N', 'O', 'P', 'Q', 'R', 'S', 'T', 'U', 'V', 'W', 'X', 'Y',
            'Z', '1', '2', '3', '4', '5', '6', '7', '8', '9', '0',
        ]);
    }
    assert forall|i: int, j: int| 0 <= i < 62 && 0 <= j < 62 && i != j implies d[i] != d[j] by {
        assert(d[i] as int == place(i));
        assert(d[j] as int == place(j));
    }
    assert forall|i: int| 0 <= i < d.len() implies '0' <= #[trigger] d[i] <= 'z' by {
        assert(d[i] as int == place(i));
    }
}

/// Characters that all belong to an ASCII sequence are ASCII.
pub proof fn lemma_within_ascii(a: Seq<char>, b: Seq<char>)
    requires
        within(a, b),
        is_ascii_chars(b),
    ensures
        is_ascii_chars(a),
{
    assert forall|i: int| 0 <= i < a.len() implies '\0' <= #[trigger] a[i] <= '\u{7f}' by {
        assert(b.contains(a[i]));
        let k = choose|k: int| 0 <= k < b.len() && b[k] == a[i];
        assert('\0' <= b[k] <= '\u{7f}');
    }
}

/// Membership carries over: what lies within a part lies within the whole.
pub proof fn lemma_within_trans(a: Seq<char>, b: Seq<char>, c: Seq<char>)
    requires
        within(a, b),
        within(b, c),
    ensures
        within(a, c),
{
    assert forall|i: int| 0 <= i < a.len() implies c.contains(#[trigger] a[i]) by {
        assert(b.contains(a[i]));
        let k = choose|k: int| 0 <= k < b.len() && b[k] == a[i];
        assert(c.contains(b[k]));
    }
}

/// Sequences that lie within sequences apart are apart.
pub proof fn lemma_apart_within(a: Seq<char>, b: Seq<char>, x: Seq<char>, y: Seq<char>)
    requires
        apart(x, y),
        within(a, x),
        within(b, y),
    ensures
        apart(a, b),
{
    assert forall|i: int, j: int| 0 <= i < a.len() && 0 <= j < b.len() implies a[i] != b[j] by {
        assert(x.contains(a[i]));
        assert(y.contains(b[j]));
        let k = choose|k: int| 0 <= k < x.len() && x[k] == a[i];
        let m = choose|m: int| 0 <= m < y.len() && y[m] == b[j];
        assert(x[k] != y[m]);
    }
}

/// The front and the rest of a sequence lie within it; where it holds no
/// character twice, neither do they, and they are apart.
pub proof fn lemma_cut(s: Seq<char>, k: int)
    requires
        0 <= k <= s.len(),
    ensures
        within(s.take(k), s),
        within(s.skip(k), s),
        s.no_duplicates() ==> s.take(k).no_duplicates() && s.skip(k).no_duplicates() && apart(
            s.take(k),
            s.skip(k),
        ),
{
    assert forall|i: int| 0 <= i < s.take(k).len() implies s.contains(#[trigger] s.take(k)[i]) by {
        assert(s[i] == s.take(k)[i]);
    }
    assert forall|i: int| 0 <= i < s.skip(k).len() implies s.contains(#[trigger] s.skip(k)[i]) by {
        assert(s[i + k] == s.skip(k)[i]);
    }
}

/// What parting the default separators from an alphabet of sixteen or more
/// distinct characters leaves: two letters at the least, sixteen characters
/// in all, none twice, and none on both sides.
pub proof fn lemma_parted(alphabet: Seq<char>)
    requires
        alphabet.no_duplicates(),
        alphabet.len() >= 16,
    ensures
        ({
            let marks = sifted(DEFAULT_SEPARATORS@, alphabet, true);
            let letters = sifted(alphabet, DEFAULT_SEPARATORS@, false);
            &&& letters.len() >= 2
            &&& marks.len() + letters.len() >= 16
            &&& marks.no_duplicates()
            &&& letters.no_duplicates()
            &&& apart(marks, letters)
            &&& within(marks, alphabet)
            &&& within(letters, alphabet)
        }),
{
    let d = DEFAULT_SEPARATORS@;
    let marks = sifted(d, alphabet, true);
    let letters = sifted(alphabet, d, false);
    let shared = sifted(alphabet, d, true);
    lemma_default_separators();
    lemma_sifted_props(d, alphabet, true);
    lemma_sifted_props(alphabet, d, false);
    lemma_sifted_props(alphabet, d, true);
    lemma_sifted_split(alphabet, d);
    assert(within(shared, marks)) by {
        assert forall|i: int| 0 <= i < shared.len() implies marks.contains(#[trigger] shared[i]) by {
            assert(d.contains(shared[i]));
            assert(alphabet.contains(shared[i]));
            let k = choose|k: int| 0 <= k < d.len() && d[k] == shared[i];
            assert(marks.contains(d[k]));
        }
    }
    lemma_distinct_within_len(shared, marks);
    assert(apart(marks, letters)) by {
        assert forall|i: int, j: int|
            0 <= i < marks.len() && 0 <= j < letters.len() implies marks[i] != letters[j] by {
            assert(d.contains(marks[i]));
            assert(!d.contains(letters[j]));
        }
    }
}

/// What bringing the separators to size leaves, under the conditions that
/// parting establishes: enough of both, none twice, none on both sides.
pub proof fn lemma_resized(marks: Seq<char>, letters: Seq<char>)
    requires
        letters.len() >= 2,
        marks.len() + letters.len() >= 16,
        marks.no_duplicates(),
        letters.no_duplicates(),
        apart(marks, letters),
    ensures
        ({
            let (separators, rest) = resized(marks, letters);
            let n = letters.len();
            &&& separators.no_duplicates()
            &&& rest.no_duplicates()
            &&& apart(separators, rest)
            &&& within(separators, marks + letters)
            &&& within(rest, letters)
            &&& n < 3 ==> separators.len() >= 2 && rest.len() >= 2
            &&& n >= 3 ==> separators.len() >= 1 && rest.len() >= 2 + guard_count(n)
            &&& (marks.len() == 0 || 2 * n > 7 * marks.len()) ==> separator_target(n) <= n
        }),
{
    let n = letters.len();
    let m = marks.len();
    let (separators, rest) = resized(marks, letters);
    let whole = marks + letters;
    assert(within(marks, whole)) by {
        assert forall|i: int| 0 <= i < marks.len() implies whole.contains(#[trigger] marks[i]) by {
            assert(whole[i] == marks[i]);
        }
    }
    assert(within(letters, whole)) by {
        assert forall|i: int| 0 <= i < letters.len() implies whole.contains(
            #[trigger] letters[i],
        ) by {
            assert(whole[m + i] == letters[i]);
        }
    }
    assert(within(letters, letters)) by {
        assert forall|i: int| 0 <= i < letters.len() implies letters.contains(
            #[trigger] letters[i],
        ) by {}
    }
    if m == 0 || 2 * n > 7 * m {
        assert(n >= 13);
        let target = separator_target(n);
        if target > m {
            let missing = target - m;
            lemma_cut(letters, missing);
            lemma_apart_within(marks, letters.take(missing), marks, letters);
            vstd::seq_lib::lemma_no_dup_in_concat(marks, letters.take(missing));
            assert(apart(separators, rest)) by {
                lemma_apart_within(marks, rest, marks, letters);
                assert forall|i: int, j: int|
                    0 <= i < separators.len() && 0 <= j < rest.len() implies separators[i]
                    != rest[j] by {
                    if i < m {
                        assert(separators[i] == marks[i]);
                    } else {
                        assert(separators[i] == letters.take(missing)[i - m]);
                    }
                }
            }
            assert(within(separators, whole)) by {
                assert forall|i: int| 0 <= i < separators.len() implies whole.contains(
                    #[trigger] separators[i],
                ) by {
                    assert(whole[i] == separators[i]);
                }
            }
        } else {
            lemma_cut(marks, target as int);
            lemma_within_trans(separators, marks, whole);
            lemma_apart_within(separators, letters, marks, letters);
        }
    } else {
        assert(m >= 1);
        if n < 3 {
            assert(m >= 14);
        }
    }
}

/// The pools derived from sixteen or more distinct ASCII characters and a
/// salt of ASCII characters, not empty, are well formed.
pub proof fn lemma_derived_well_formed(alphabet: Seq<char>, salt: Seq<char>, min_length: nat)
    requires
        alphabet.no_duplicates(),
        alphabet.len() >= 16,
        is_ascii_chars(alphabet),
        salt.len() > 0,
        is_ascii_chars(salt),
    ensures
        well_formed(derived(alphabet, salt, min_length)),
{
    let c = derived(alphabet, salt, min_length);
    lemma_derived_apart(alphabet, salt, min_length);
    lemma_derived_within(alphabet, salt, min_length);
    lemma_within_ascii(c.alphabet, alphabet);
    lemma_within_ascii(c.separators, alphabet);
    lemma_within_ascii(c.guards, alphabet);
}

/// Every character of the derived pools is one of the alphabet that they
/// were derived from.
pub proof fn lemma_derived_within(alphabet: Seq<char>, salt: Seq<char>, min_length: nat)
    requires
        alphabet.no_duplicates(),
        alphabet.len() >= 16,
    ensures
        within(derived(alphabet, salt, min_length).alphabet, alphabet),
        within(derived(alphabet, salt, min_length).separators, alphabet),
        within(derived(alphabet, salt, min_length).guards, alphabet),
{
    lemma_derived_apart(alphabet, salt, min_length);
}

/// The derived pools are large enough, share no character, and the alphabet
/// among them holds none twice; all their characters come from the alphabet
/// that they were derived from.
pub proof fn lemma_derived_apart(alphabet: Seq<char>, salt: Seq<char>, min_length: nat)
    requires
        alphabet.no_duplicates(),
        alphabet.len() >= 16,
    ensures
        ({
            let c = derived(alphabet, salt, min_length);
            &&& c.alphabet.len() >= 2
            &&& c.separators.len() >= 1
            &&& c.guards.len() >= 1
            &&& c.alphabet.no_duplicates()
            &&& apart(c.alphabet, c.separators)
            &&& apart(c.alphabet, c.guards)
            &&& apart(c.separators, c.guards)
            &&& within(c.alphabet, alphabet)
            &&& within(c.separators, alphabet)
            &&& within(c.guards, alphabet)
        }),
{
    let marks0 = sifted(DEFAULT_SEPARATORS@, alphabet, true);
    let marks = shuffled(marks0, salt);
    let letters = sifted(alphabet, DEFAULT_SEPARATORS@, false);
    let n = letters.len();
    let (separators, rest) = resized(marks, letters);
    let working = shuffled(rest, salt);
    let count = guard_count(n) as int;
    let c = derived(alphabet, salt, min_length);
    lemma_parted(alphabet);
    lemma_shuffled_props(marks0, salt);
    lemma_apart_within(marks, letters, marks0, letters);
    lemma_resized(marks, letters);
    lemma_shuffled_props(rest, salt);
    lemma_apart_within(separators, working, separators, rest);
    lemma_within_trans(marks, marks0, alphabet);
    let whole = marks + letters;
    assert(within(whole, alphabet)) by {
        assert forall|i: int| 0 <= i < whole.len() implies alphabet.contains(#[trigger] whole[i]) by {
            if i < marks.len() {
                assert(whole[i] == marks[i]);
            } else {
                assert(whole[i] == letters[i - marks.len()]);
            }
        }
    }
    lemma_within_trans(separators, whole, alphabet);
    lemma_within_trans(working, rest, letters);
    lemma_within_trans(working, letters, alphabet);
    if n < 3 {
        lemma_cut(separators, count);
        lemma_within_trans(c.separators, separators, alphabet);
        lemma_within_trans(c.guards, separators, alphabet);
        lemma_apart_within(working, c.separators, working, separators);
        lemma_apart_within(working, c.guards, working, separators);
        assert(apart(c.alphabet, c.separators));
        assert(apart(c.separators, c.guards)) by {
            assert forall|i: int, j: int|
                0 <= i < c.separators.len() && 0 <= j < c.guards.len() implies c.separators[i]
                != c.guards[j] by {
                assert(c.guards[j] != c.separators[i]);
            }
        }
    } else {
        lemma_cut(working, count);
        lemma_within_trans(c.alphabet, working, alphabet);
        lemma_within_trans(c.guards, working, alphabet);
        lemma_apart_within(c.alphabet, separators, working, separators);
        lemma_apart_within(separators, c.guards, separators, working);
        assert(apart(c.alphabet, c.guards)) by {
            assert forall|i: int, j: int|
                0 <= i < c.alphabet.len() && 0 <= j < c.guards.len() implies c.alphabet[i]
                != c.guards[j] by {
                assert(c.guards[j] != c.alphabet[i]);
            }
        }
    }
}

/// The target number of separators for `n` letters.
pub fn separators_wanted(n: usize) -> (target: usize)
    ensures
        target == separator_target(n as nat),
{
    let target: usize = (n / 7) * 2 + ((n % 7) * 2) / 7;
    if target < 2 {
        2
    } else {
        target
    }
}

/// The number of guards for `n` letters.
pub fn guards_wanted(n: usize) -> (count: usize)
    ensures
        count == guard_count(n as nat),
{
    if n % GUARD_DIV == 0 {
        n / GUARD_DIV
    } else {
        n / GUARD_DIV + 1
    }
}

/// Derives the working alphabet, the separators and the guards, in this
/// order, from an alphabet of distinct characters and a salt.
pub fn derive_pools(alphabet: &Vec<char>, salt: &Vec<char>) -> (pools: (
    Vec<char>,
    Vec<char>,
    Vec<char>,
))
    requires
        alphabet@.no_duplicates(),
        alphabet@.len() >= 16,
        salt@.len() > 0,
    ensures
        pools.0@ == derived(alphabet@, salt@, 0).alphabet,
        pools.1@ == derived(alphabet@, salt@, 0).separators,
        pools.2@ == derived(alphabet@, salt@, 0).guards,
{
    let defaults = chars_of(DEFAULT_SEPARATORS);
    let mut marks = sift(&defaults, alphabet, true);
    let mut letters = sift(alphabet, &defaults, false);
    shuffle_chars(&mut marks, salt);
    let n: usize = letters.len();
    proof {
        lemma_parted(alphabet@);
        lemma_shuffled_props(sifted(DEFAULT_SEPARATORS@, alphabet@, true), salt@);
        lemma_apart_within(
            marks@,
            letters@,
            sifted(DEFAULT_SEPARATORS@, alphabet@, true),
            letters@,
        );
        lemma_resized(marks@, letters@);
    }
    if marks.len() == 0 || 2 * (n as u128) > 7 * (marks.len() as u128) {
        let target: usize = separators_wanted(n);
        if target > marks.len() {
            let missing: usize = target - marks.len();
            let rest = letters.split_off(missing);
            marks.append(&mut letters);
            letters = rest;
        } else {
            marks.truncate(target);
        }
    }
    proof {
        lemma_shuffled_props(letters@, salt@);
    }
    shuffle_chars(&mut letters, salt);
    let count: usize = guards_wanted(n);
    if n < 3 {
        let separators = marks.split_off(count);
        (letters, separators, marks)
    } else {
        let working = letters.split_off(count);
        (working, marks, letters)
    }
}

} // verus!
