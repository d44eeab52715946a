//! The salt-keyed shuffle.

use vstd::prelude::*;
use crate::error::Error;
use crate::salt::HashidSalt;
use crate::text::{chars_of, string_of};

verus! {

/// The number of a character: its Unicode scalar value.
pub open spec fn code(c: char) -> int {
    c as u32 as int
}

/// The number of `c`.
pub fn ordinal(c: char) -> (t: u32)
    ensures
        t == code(c),
        t <= 0x10_ffff,
{
    c as u32
}

/// `s` with the elements at `i` and `j` exchanged.
pub open spec fn swapped(s: Seq<char>, i: int, j: int) -> Seq<char>
    recommends
        0 <= i < s.len(),
        0 <= j < s.len(),
{
    s.update(i, s[j]).update(j, s[i])
}

/// The rest of the walk: positions `i` down to 1 are still to be handled, the
/// salt cursor has come to `v` and the ordinals read so far add up to `p`.
///
/// At each position the cursor wraps round to the start of the salt where it
/// has run off its end, the ordinal of the salt character under it is added
/// to the sum, the element at `i` changes places with the one at
/// `(ordinal + cursor + sum) mod i`, and the cursor moves on by one.
pub open spec fn shuffle_from(s: Seq<char>, salt: Seq<char>, i: int, v: int, p: int) -> Seq<char>
    decreases i,
{
    if i <= 0 || salt.len() == 0 {
        s
    } else {
        let cursor = v % (salt.len() as int);
        let ordinal = code(salt[cursor]);
        let sum = p + ordinal;
        let j = (ordinal + cursor + sum) % i;
        shuffle_from(swapped(s, i, j), salt, i - 1, cursor + 1, sum)
    }
}

/// `s` shuffled with `salt`: the walk from the last position down to 1.
pub open spec fn shuffled(s: Seq<char>, salt: Seq<char>) -> Seq<char> {
    shuffle_from(s, salt, s.len() - 1, 0, 0)
}

/// Exchanging two elements keeps the length and the elements.
pub proof fn lemma_swapped_keeps_elements(s: Seq<char>, i: int, j: int)
    requires
        0 <= i < s.len(),
        0 <= j < s.len(),
    ensures
        swapped(s, i, j).len() == s.len(),
        swapped(s, i, j).to_multiset() == s.to_multiset(),
{
    broadcast use vstd::multiset::group_multiset_axioms;

    let mid = s.update(i, s[j]);
    vstd::seq_lib::to_multiset_update(s, i, s[j]);
    vstd::seq_lib::to_multiset_update(mid, j, s[i]);
    vstd::seq_lib::to_multiset_contains(s, s[i]);
    vstd::seq_lib::to_multiset_contains(s, s[j]);
    assert(s.contains(s[i]));
    assert(s.contains(s[j]));
    assert(mid[j] == s[j]);
    assert(swapped(s, i, j).to_multiset() =~= s.to_multiset());
}

/// Every stage of the walk keeps the length and the elements.
pub proof fn lemma_shuffle_from_keeps_elements(s: Seq<char>, salt: Seq<char>, i: int, v: int, p: int)
    requires
        i < s.len(),
    ensures
        shuffle_from(s, salt, i, v, p).len() == s.len(),
        shuffle_from(s, salt, i, v, p).to_multiset() == s.to_multiset(),
    decreases i,
{
    if i > 0 && salt.len() > 0 {
        let cursor = v % (salt.len() as int);
        let t = code(salt[cursor]);
        let j = (t + cursor + p + t) % i;
        lemma_swapped_keeps_elements(s, i, j);
        lemma_shuffle_from_keeps_elements(swapped(s, i, j), salt, i - 1, cursor + 1, p + t);
    }
}

/// The shuffle rearranges: what comes out has the length of what went in and
/// holds each character as often.
pub proof fn lemma_shuffled_is_permutation(s: Seq<char>, salt: Seq<char>)
    ensures
        shuffled(s, salt).len() == s.len(),
        shuffled(s, salt).to_multiset() == s.to_multiset(),
{
    lemma_shuffle_from_keeps_elements(s, salt, s.len() - 1, 0, 0);
}

/// Shuffles `seq` in place with `salt`.
pub fn shuffle_chars(seq: &mut Vec<char>, salt: &Vec<char>)
    requires
        salt@.len() > 0,
    ensures
        final(seq)@ == shuffled(old(seq)@, salt@),
        final(seq)@.len() == old(seq)@.len(),
        final(seq)@.to_multiset() == old(seq)@.to_multiset(),
{
    proof {
        lemma_shuffled_is_permutation(seq@, salt@);
    }
    if seq.len() == 0 {
        return ;
    }
    let n: usize = seq.len();
    let salt_len: usize = salt.len();
    let mut i: usize = n - 1;
    let mut v: usize = 0;
    let mut p: u128 = 0;
    while i > 0
        invariant
            n == seq@.len(),
            n == old(seq)@.len(),
            salt_len == salt@.len(),
            salt_len > 0,
            i < n,
            v <= salt_len,
            p <= (n - 1 - i) * 0x11_0000,
            shuffle_from(seq@, salt@, i as int, v as int, p as int) == shuffled(old(seq)@, salt@),
        decreases i,
    {
        let cursor: usize = v % salt_len;
        let t: u32 = ordinal(salt[cursor]);
        assert((n - 1 - i) * 0x11_0000 <= 0xffff_ffff_ffff_ffff * 0x11_0000) by (nonlinear_arith)
            requires
                n - 1 - i <= 0xffff_ffff_ffff_ffff,
                n - 1 - i >= 0,
        ;
        assert((n - 1 - (i - 1)) * 0x11_0000 == (n - 1 - i) * 0x11_0000 + 0x11_0000) by (nonlinear_arith);
        p = p + t as u128;
        let j: usize = ((t as u128 + cursor as u128 + p) % (i as u128)) as usize;
        let a: char = seq[i];
        let b: char = seq[j];
        seq.set(i, b);
        seq.set(j, a);
        i = i - 1;
        v = cursor + 1;
    }
}

/// Shuffles `alphabet` with `salt`.
///
/// An empty salt is refused as missing, and an empty `alphabet`, under a salt
/// that is not empty, as of invalid length; anything else comes back
/// rearranged.
pub fn hashids_shuffle(alphabet: String, salt: &HashidSalt) -> (r: Result<String, Error>)
    ensures
        match r {
            Ok(s) => {
                &&& salt@.len() > 0
                &&& alphabet@.len() > 0
                &&& s@ == shuffled(alphabet@, salt@)
                &&& s@.len() == alphabet@.len()
                &&& s@.to_multiset() == alphabet@.to_multiset()
            },
            Err(e) => {
                &&& salt@.len() == 0 || alphabet@.len() == 0
                &&& e == if salt@.len() == 0 {
                    Error::MissingSalt
                } else {
                    Error::InvalidAlphabetLength
                }
            },
        },
{
    let salt_chars = salt.chars();
    if salt_chars.len() == 0 {
        return Err(Error::MissingSalt);
    }
    let mut seq = chars_of(alphabet.as_str());
    if seq.len() == 0 {
        return Err(Error::InvalidAlphabetLength);
    }
    shuffle_chars(&mut seq, &salt_chars);
    Ok(string_of(&seq))
}

} // verus!
