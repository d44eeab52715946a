//! What a codec makes of a sequence of numbers, stated over sequences of
//! characters, and the steps that do not depend on a codec's state.

use vstd::prelude::*;
use vstd::arithmetic::div_mod::{lemma_add_mod_noop_right, lemma_mod_bound};
use crate::config::Config;
use crate::numeral::to_symbols;
use crate::shuffle::{code, lemma_shuffled_is_permutation, shuffle_chars, shuffled};

verus! {

/// The first counter of the seed: the first number is taken modulo 100, the
/// next modulo 101, and so on.
pub const SEED_BASE: usize = 100;

/// The seed of a sequence of numbers: the sum of each number modulo its
/// counter.
pub open spec fn seed_of(numbers: Seq<usize>) -> nat
    decreases numbers.len(),
{
    if numbers.len() == 0 {
        0
    } else {
        seed_of(numbers.drop_last()) + (numbers.last() as nat) % ((SEED_BASE + numbers.len()
            - 1) as nat)
    }
}

/// The lottery character of a sequence of numbers: the character of the
/// codec's alphabet at the place that the seed picks. It opens what is
/// produced and keys every shuffle on the way.
pub open spec fn lottery_of(c: Config, numbers: Seq<usize>) -> char {
    c.alphabet[(seed_of(numbers) % c.alphabet.len()) as int]
}

/// The key under which `alphabet` is shuffled anew: the lottery character,
/// the salt and the alphabet itself in a row, cut to the alphabet's length.
pub open spec fn shuffle_key(lottery: char, salt: Seq<char>, alphabet: Seq<char>) -> Seq<char> {
    (seq![lottery] + salt + alphabet).take(alphabet.len() as int)
}

/// `alphabet` shuffled anew, under its key.
pub open spec fn reshuffled(lottery: char, salt: Seq<char>, alphabet: Seq<char>) -> Seq<char> {
    shuffled(alphabet, shuffle_key(lottery, salt, alphabet))
}

/// The working alphabet after `k` numbers: the codec's alphabet, shuffled
/// anew once for each of them.
pub open spec fn working(c: Config, lottery: char, k: nat) -> Seq<char>
    decreases k,
{
    if k == 0 {
        c.alphabet
    } else {
        reshuffled(lottery, c.salt, working(c, lottery, (k - 1) as nat))
    }
}

/// The digits of the number at `i`, over the working alphabet of its turn.
pub open spec fn digits_at(c: Config, lottery: char, numbers: Seq<usize>, i: int) -> Seq<char> {
    to_symbols(numbers[i] as nat, working(c, lottery, (i + 1) as nat))
}

/// `n` modulo `d`, and `n` itself where `d` is zero.
pub open spec fn remainder(n: nat, d: nat) -> nat {
    if d == 0 {
        n
    } else {
        n % d
    }
}

/// The place among the separators of the one that follows a number `n` at
/// `i` whose first digit is `first`: `n` modulo the sum of that digit's
/// ordinal and `i`, modulo the number of separators.
pub open spec fn separator_place(n: nat, first: char, i: int, count: nat) -> nat {
    remainder(n, (code(first) + i) as nat) % count
}

/// The separator that follows the number at `i`.
pub open spec fn separator_at(c: Config, lottery: char, numbers: Seq<usize>, i: int) -> char {
    c.separators[separator_place(
        numbers[i] as nat,
        digits_at(c, lottery, numbers, i)[0],
        i,
        c.separators.len(),
    ) as int]
}

/// What the number at `i` adds: its digits, and a separator unless it is the
/// last number.
pub open spec fn group_at(c: Config, lottery: char, numbers: Seq<usize>, i: int) -> Seq<char> {
    if i + 1 < numbers.len() {
        digits_at(c, lottery, numbers, i).push(separator_at(c, lottery, numbers, i))
    } else {
        digits_at(c, lottery, numbers, i)
    }
}

/// The lottery character and what the first `k` numbers add.
pub open spec fn body_upto(c: Config, lottery: char, numbers: Seq<usize>, k: nat) -> Seq<char>
    decreases k,
{
    if k == 0 {
        seq![lottery]
    } else {
        body_upto(c, lottery, numbers, (k - 1) as nat) + group_at(c, lottery, numbers, k - 1)
    }
}

/// The place among `count` guards that a seed and a character pick.
pub open spec fn guard_place(seed: nat, at: char, count: nat) -> nat {
    ((seed + code(at)) as nat) % count
}

/// `body` between guards, as far as it is shorter than `c.min_length`: first
/// a guard in front, picked by the seed and the first character; then, if
/// that is still too short, a guard behind, picked by the seed and the third
/// character of what there is by then.
pub open spec fn guarded(c: Config, seed: nat, body: Seq<char>) -> Seq<char> {
    if body.len() >= c.min_length {
        body
    } else {
        let front = seq![c.guards[guard_place(seed, body[0], c.guards.len()) as int]] + body;
        if front.len() >= c.min_length {
            front
        } else {
            front.push(c.guards[guard_place(seed, front[2], c.guards.len()) as int])
        }
    }
}

/// `text` between the two halves of `alphabet` shuffled under itself, second
/// half in front.
pub open spec fn wrapped(alphabet: Seq<char>, text: Seq<char>) -> Seq<char> {
    let around = shuffled(alphabet, alphabet);
    let half = alphabet.len() / 2;
    around.skip(half as int) + text + around.take(half as int)
}

/// The middle `length` characters of `text`: of what is too much, half is
/// dropped in front, rounded down, and the rest behind.
pub open spec fn cropped(text: Seq<char>, length: nat) -> Seq<char> {
    if text.len() > length {
        let start = (text.len() - length) / 2;
        text.subrange(start, start + length)
    } else {
        text
    }
}

/// `text` padded to `min_length`: as long as it is too short it is wrapped in
/// the alphabet, shuffled under itself each time, and cropped to `min_length`
/// as soon as that is exceeded.
pub open spec fn padded(min_length: nat, alphabet: Seq<char>, text: Seq<char>) -> Seq<char>
    decreases min_length - text.len(),
    via padded_terminates
{
    if text.len() >= min_length || alphabet.len() == 0 {
        text
    } else {
        padded(
            min_length,
            shuffled(alphabet, alphabet),
            cropped(wrapped(alphabet, text), min_length),
        )
    }
}

/// Wrapping makes longer, since shuffling keeps the length.
#[via_fn]
proof fn padded_terminates(min_length: nat, alphabet: Seq<char>, text: Seq<char>) {
    lemma_shuffled_is_permutation(alphabet, alphabet);
}

/// What the codec makes of `numbers`: the lottery character and the groups
/// of all numbers, between guards and padded where that is too short.
pub open spec fn encoded(c: Config, numbers: Seq<usize>) -> Seq<char> {
    let lottery = lottery_of(c, numbers);
    padded(
        c.min_length,
        working(c, lottery, numbers.len()),
        guarded(c, seed_of(numbers), body_upto(c, lottery, numbers, numbers.len())),
    )
}

/// The seed of `numbers` modulo `modulus`.
pub fn seed_residue(numbers: &Vec<usize>, modulus: usize) -> (r: usize)
    requires
        modulus > 0,
    ensures
        r == seed_of(numbers@) % (modulus as nat),
{
    let mut r: usize = 0;
    let mut i: usize = 0;
    proof {
        assert(numbers@.take(0) =~= Seq::<usize>::empty());
        assert(0nat % (modulus as nat) == 0) by (nonlinear_arith)
            requires
                modulus > 0,
        ;
    }
    while i < numbers.len()
        invariant
            i <= numbers.len(),
            modulus > 0,
            r < modulus,
            r == seed_of(numbers@.take(i as int)) % (modulus as nat),
        decreases numbers.len() - i,
    {
        let counter: u128 = SEED_BASE as u128 + i as u128;
        let term: u128 = (numbers[i] as u128) % counter;
        let sum: u128 = r as u128 + term;
        proof {
            let before = numbers@.take(i as int);
            let now = numbers@.take(i + 1);
            assert(now.drop_last() =~= before);
            assert(now.last() == numbers@[i as int]);
            assert(seed_of(now) == seed_of(before) + term);
            lemma_add_mod_noop_right(term as int, seed_of(before) as int, modulus as int);
            lemma_mod_bound(sum as int, modulus as int);
        }
        r = (sum % (modulus as u128)) as usize;
        i = i + 1;
    }
    proof {
        assert(numbers@.take(i as int) =~= numbers@);
    }
    r
}

/// The key under which `alphabet` is shuffled anew.
pub fn key_for(lottery: char, salt: &Vec<char>, alphabet: &Vec<char>) -> (key: Vec<char>)
    ensures
        key@ == shuffle_key(lottery, salt@, alphabet@),
{
    let n: usize = alphabet.len();
    let m: usize = salt.len();
    let ghost row = seq![lottery] + salt@ + alphabet@;
    let mut key: Vec<char> = Vec::new();
    let mut k: usize = 0;
    while k < n
        invariant
            k <= n,
            n == alphabet@.len(),
            m == salt@.len(),
            row == seq![lottery] + salt@ + alphabet@,
            key@ == row.take(k as int),
        decreases n - k,
    {
        let c: char = if k == 0 {
            lottery
        } else if k - 1 < m {
            salt[k - 1]
        } else {
            alphabet[k - 1 - m]
        };
        proof {
            assert(row[k as int] == c);
            assert(row.take(k as int).push(c) =~= row.take(k + 1));
        }
        key.push(c);
        k = k + 1;
    }
    key
}

/// Shuffles `alphabet` anew, under its key.
pub fn reshuffle(alphabet: &mut Vec<char>, lottery: char, salt: &Vec<char>)
    ensures
        final(alphabet)@ == reshuffled(lottery, salt@, old(alphabet)@),
        final(alphabet)@.len() == old(alphabet)@.len(),
{
    proof {
        lemma_shuffled_is_permutation(
            alphabet@,
            shuffle_key(lottery, salt@, alphabet@),
        );
    }
    if alphabet.len() > 0 {
        let key = key_for(lottery, salt, alphabet);
        shuffle_chars(alphabet, &key);
    }
}

} // verus!
