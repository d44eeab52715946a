//! Numbers as digit strings over an alphabet: the positional numeral system
//! whose base is the alphabet's length and whose digits are its characters.

use vstd::prelude::*;
use crate::text::{chars_of, string_of};

verus! {

/// The digits of `n` over `alphabet`, most significant first. Zero is the
/// single digit `alphabet[0]`.
pub open spec fn to_symbols(n: nat, alphabet: Seq<char>) -> Seq<char>
    decreases n,
    via to_symbols_terminates
{
    let base = alphabet.len();
    if n < base {
        seq![alphabet[n as int]]
    } else if base < 2 {
        Seq::empty()
    } else {
        to_symbols(n / base, alphabet).push(alphabet[(n % base) as int])
    }
}

/// The quotient that is written next is smaller than the number.
#[via_fn]
proof fn to_symbols_terminates(n: nat, alphabet: Seq<char>) {
    let base = alphabet.len();
    if n >= base && base >= 2 {
        lemma_quotient_smaller(n, base);
    }
}

/// Dividing a positive number by two or more makes it smaller.
pub proof fn lemma_quotient_smaller(n: nat, base: nat)
    requires
        base >= 2,
        n >= 1,
    ensures
        n / base < n,
{
    assert(n / base < n) by (nonlinear_arith)
        requires
            base >= 2,
            n >= 1,
    ;
}

/// The digit that `c` stands for: the first place at which `alphabet` holds
/// it, and 0 where it holds it nowhere.
pub open spec fn digit_of(alphabet: Seq<char>, c: char) -> nat {
    match alphabet.index_of_first(c) {
        Some(k) => k as nat,
        None => 0,
    }
}

/// The number that the digits `s` spell over `alphabet`: each digit is worth
/// the alphabet's length times as much as its right neighbour. A character
/// that the alphabet lacks counts as the digit 0.
pub open spec fn from_symbols(s: Seq<char>, alphabet: Seq<char>) -> nat
    decreases s.len(),
{
    if s.len() == 0 {
        0
    } else {
        from_symbols(s.drop_last(), alphabet) * alphabet.len() + digit_of(alphabet, s.last())
    }
}

/// A digit is a place in the alphabet, or 0 in an empty one.
pub proof fn lemma_digit_of_bound(alphabet: Seq<char>, c: char)
    ensures
        alphabet.len() > 0 ==> digit_of(alphabet, c) < alphabet.len(),
        alphabet.len() == 0 ==> digit_of(alphabet, c) == 0,
        alphabet.contains(c) ==> alphabet[digit_of(alphabet, c) as int] == c,
{
    alphabet.index_of_first_ensures(c);
}

/// In an alphabet without repetition each character is its own place's
/// digit.
pub proof fn lemma_digit_of_place(alphabet: Seq<char>, k: int)
    requires
        alphabet.no_duplicates(),
        0 <= k < alphabet.len(),
    ensures
        digit_of(alphabet, alphabet[k]) == k,
{
    alphabet.index_of_first_ensures(alphabet[k]);
    assert(alphabet.contains(alphabet[k]));
}

/// Reading more digits never gives less: a prefix spells at most what the
/// whole spells.
pub proof fn lemma_from_symbols_grows(s: Seq<char>, alphabet: Seq<char>, k: int)
    requires
        0 <= k <= s.len(),
        alphabet.len() > 0,
    ensures
        from_symbols(s.take(k), alphabet) <= from_symbols(s, alphabet),
    decreases s.len() - k,
{
    if k == s.len() {
        assert(s.take(k) =~= s);
    } else {
        lemma_from_symbols_grows(s, alphabet, k + 1);
        let longer = s.take(k + 1);
        assert(longer.drop_last() =~= s.take(k));
        let low = from_symbols(s.take(k), alphabet);
        assert(low * alphabet.len() >= low) by (nonlinear_arith)
            requires
                alphabet.len() >= 1,
                low >= 0,
        ;
    }
}

/// Digits are never empty, and each is a character of the alphabet.
pub proof fn lemma_to_symbols_shape(n: nat, alphabet: Seq<char>)
    requires
        alphabet.len() >= 2,
    ensures
        to_symbols(n, alphabet).len() >= 1,
        forall|i: int|
            0 <= i < to_symbols(n, alphabet).len() ==> alphabet.contains(
                #[trigger] to_symbols(n, alphabet)[i],
            ),
    decreases n,
{
    let base = alphabet.len();
    if n >= base {
        lemma_quotient_smaller(n, base);
        lemma_to_symbols_shape(n / base, alphabet);
        assert(alphabet.contains(alphabet[(n % base) as int]));
    } else {
        assert(alphabet.contains(alphabet[n as int]));
    }
}

/// Reading the digits of a number gives the number back, over any alphabet of
/// two or more characters none of which occurs twice.
pub proof fn lemma_from_to_symbols(n: nat, alphabet: Seq<char>)
    requires
        alphabet.len() >= 2,
        alphabet.no_duplicates(),
    ensures
        from_symbols(to_symbols(n, alphabet), alphabet) == n,
    decreases n,
{
    let base = alphabet.len();
    if n < base {
        let s = to_symbols(n, alphabet);
        assert(s.len() == 1);
        assert(s.last() == alphabet[n as int]);
        assert(s.drop_last() =~= Seq::<char>::empty());
        assert(from_symbols(s.drop_last(), alphabet) == 0);
        lemma_digit_of_place(alphabet, n as int);
        assert(from_symbols(s, alphabet) == 0 * base + n);
    } else {
        lemma_quotient_smaller(n, base);
        let head = to_symbols(n / base, alphabet);
        let s = head.push(alphabet[(n % base) as int]);
        assert(to_symbols(n, alphabet) == s);
        assert(s.last() == alphabet[(n % base) as int]);
        assert(s.drop_last() =~= head);
        lemma_from_to_symbols(n / base, alphabet);
        lemma_digit_of_place(alphabet, (n % base) as int);
        assert(from_symbols(s, alphabet) == (n / base) * base + n % base);
        assert((n / base) * base + n % base == n) by (nonlinear_arith)
            requires
                base > 0,
        ;
    }
}

/// The place of the first `c` in `alphabet`, or 0 if there is none.
pub fn digit(alphabet: &Vec<char>, c: char) -> (k: usize)
    ensures
        k == digit_of(alphabet@, c),
{
    let mut i: usize = 0;
    while i < alphabet.len()
        invariant
            i <= alphabet.len(),
            forall|m: int| 0 <= m < i ==> alphabet@[m] != c,
        decreases alphabet.len() - i,
    {
        if alphabet[i] == c {
            proof {
                alphabet@.index_of_first_ensures(c);
                assert(alphabet@[i as int] == c);
                assert(alphabet@.contains(c));
                let first = alphabet@.index_of_first(c).unwrap();
                assert(alphabet@[first] == c);
                assert(first >= i);
                assert(first <= i);
            }
            return i;
        }
        i = i + 1;
    }
    proof {
        alphabet@.index_of_first_ensures(c);
        assert(!alphabet@.contains(c));
    }
    0
}

/// The digits of `n` over `alphabet`.
pub fn symbols_of(n: usize, alphabet: &Vec<char>) -> (out: Vec<char>)
    requires
        alphabet@.len() >= 2 || n < alphabet@.len(),
    ensures
        out@ == to_symbols(n as nat, alphabet@),
{
    let base: usize = alphabet.len();
    let mut out: Vec<char> = Vec::new();
    let mut m: usize = n;
    while m >= base
        invariant
            base == alphabet@.len(),
            base >= 2 || m < base,
            to_symbols(n as nat, alphabet@) == to_symbols(m as nat, alphabet@) + out@,
        decreases m,
    {
        let c: char = alphabet[m % base];
        proof {
            let rest = to_symbols((m / base) as nat, alphabet@);
            assert(to_symbols(m as nat, alphabet@) == rest.push(c));
            assert(rest.push(c) + out@ =~= rest + out@.insert(0, c));
        }
        out.insert(0, c);
        m = m / base;
    }
    let c: char = alphabet[m];
    proof {
        assert(seq![c] + out@ =~= out@.insert(0, c));
    }
    out.insert(0, c);
    out
}

/// The number that `s` spells over `alphabet`, where it fits the machine's
/// word.
pub fn value_of(s: &Vec<char>, alphabet: &Vec<char>) -> (r: Option<usize>)
    ensures
        r == if from_symbols(s@, alphabet@) <= usize::MAX {
            Some(from_symbols(s@, alphabet@) as usize)
        } else {
            None
        },
{
    let base: usize = alphabet.len();
    let mut acc: usize = 0;
    let mut i: usize = 0;
    while i < s.len()
        invariant
            i <= s.len(),
            base == alphabet@.len(),
            acc == from_symbols(s@.take(i as int), alphabet@),
        decreases s.len() - i,
    {
        let d: usize = digit(alphabet, s[i]);
        proof {
            lemma_digit_of_bound(alphabet@, s@[i as int]);
            assert(s@.take(i + 1).drop_last() =~= s@.take(i as int));
            assert(acc * base <= usize::MAX * usize::MAX) by (nonlinear_arith)
                requires
                    acc <= usize::MAX,
                    base <= usize::MAX,
            ;
        }
        let wide: u128 = (acc as u128) * (base as u128) + (d as u128);
        if wide > usize::MAX as u128 {
            proof {
                assert(base > 0) by {
                    if base == 0 {
                        assert((acc as u128) * (base as u128) == 0) by (nonlinear_arith)
                            requires
                                base == 0,
                        ;
                    }
                }
                lemma_from_symbols_grows(s@, alphabet@, i + 1);
            }
            return None;
        }
        acc = wide as usize;
        i = i + 1;
    }
    proof {
        assert(s@.take(i as int) =~= s@);
    }
    Some(acc)
}

/// Writes `input` in the numeral system of `alphabet`: the remainders of
/// repeated division by the alphabet's length, each as the character at that
/// place, the last remainder first.
pub fn hash(input: usize, alphabet: &str) -> (digits: String)
    requires
        alphabet@.len() >= 2 || input < alphabet@.len(),
    ensures
        digits@ == to_symbols(input as nat, alphabet@),
{
    let letters = chars_of(alphabet);
    let out = symbols_of(input, &letters);
    string_of(&out)
}

/// Reads `input` as a number in the numeral system of `alphabet`.
pub fn unhash(input: String, alphabet: &String) -> (n: usize)
    requires
        from_symbols(input@, alphabet@) <= usize::MAX,
    ensures
        n == from_symbols(input@, alphabet@),
{
    let digits = chars_of(input.as_str());
    let letters = chars_of(alphabet.as_str());
    match value_of(&digits, &letters) {
        Some(n) => n,
        None => 0,
    }
}

} // verus!
