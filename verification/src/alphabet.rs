//! Preparing an alphabet: dropping repeated characters, and parting an
//! alphabet from the separators.

use vstd::prelude::*;
use crate::text::{chars_of, string_of};

verus! {

/// `s` without the characters that it has already held further left: of each
/// character the first occurrence stays, in its place among the others.
pub open spec fn without_repeats(s: Seq<char>) -> Seq<char>
    decreases s.len(),
{
    if s.len() == 0 {
        Seq::empty()
    } else {
        let head = without_repeats(s.drop_last());
        if head.contains(s.last()) {
            head
        } else {
            head.push(s.last())
        }
    }
}

/// The characters of `s`, in order, that `other` holds (`wanted`) or lacks
/// (not `wanted`).
pub open spec fn sifted(s: Seq<char>, other: Seq<char>, wanted: bool) -> Seq<char> {
    s.filter(|c: char| other.contains(c) == wanted)
}

/// Sifting a sequence that grew by one character.
pub proof fn lemma_sifted_push(s: Seq<char>, c: char, other: Seq<char>, wanted: bool)
    ensures
        sifted(s.push(c), other, wanted) == if other.contains(c) == wanted {
            sifted(s, other, wanted).push(c)
        } else {
            sifted(s, other, wanted)
        },
{
    reveal(Seq::filter);
    assert(s.push(c).drop_last() =~= s);
}

/// Whether `v` holds `c`.
pub fn holds(v: &Vec<char>, c: char) -> (found: bool)
    ensures
        found == v@.contains(c),
{
    let mut i: usize = 0;
    while i < v.len()
        invariant
            i <= v.len(),
            forall|m: int| 0 <= m < i ==> v@[m] != c,
        decreases v.len() - i,
    {
        if v[i] == c {
            assert(v@[i as int] == c);
            return true;
        }
        i = i + 1;
    }
    false
}

/// The characters of `v` without repetition.
pub fn unique_chars(v: &Vec<char>) -> (out: Vec<char>)
    ensures
        out@ == without_repeats(v@),
{
    let mut out: Vec<char> = Vec::new();
    let mut i: usize = 0;
    while i < v.len()
        invariant
            i <= v.len(),
            out@ == without_repeats(v@.take(i as int)),
        decreases v.len() - i,
    {
        proof {
            assert(v@.take(i + 1).drop_last() =~= v@.take(i as int));
        }
        if !holds(&out, v[i]) {
            out.push(v[i]);
        }
        i = i + 1;
    }
    proof {
        assert(v@.take(i as int) =~= v@);
    }
    out
}

/// The characters of `v` that `other` holds, or those that it lacks.
pub fn sift(v: &Vec<char>, other: &Vec<char>, wanted: bool) -> (out: Vec<char>)
    ensures
        out@ == sifted(v@, other@, wanted),
{
    let mut out: Vec<char> = Vec::new();
    let mut i: usize = 0;
    proof {
        reveal(Seq::filter);
        assert(v@.take(0) =~= Seq::<char>::empty());
    }
    while i < v.len()
        invariant
            i <= v.len(),
            out@ == sifted(v@.take(i as int), other@, wanted),
        decreases v.len() - i,
    {
        proof {
            lemma_sifted_push(v@.take(i as int), v@[i as int], other@, wanted);
            assert(v@.take(i as int).push(v@[i as int]) =~= v@.take(i + 1));
        }
        if holds(other, v[i]) == wanted {
            out.push(v[i]);
        }
        i = i + 1;
    }
    proof {
        assert(v@.take(i as int) =~= v@);
    }
    out
}

/// Drops from `alphabet` every character that already stands further left.
pub fn get_unique_alphabet(alphabet: String) -> (unique: String)
    ensures
        unique@ == without_repeats(alphabet@),
{
    let letters = chars_of(alphabet.as_str());
    let out = unique_chars(&letters);
    string_of(&out)
}

/// Parts separators and alphabet: of `separators` the characters stay that
/// `alphabet` holds, of `alphabet` those that `separators` lacks, each in its
/// old order. The two results share no character.
pub fn get_non_duplicated_string(separators: String, alphabet: String) -> (parted: (String, String))
    ensures
        parted.0@ == sifted(separators@, alphabet@, true),
        parted.1@ == sifted(alphabet@, separators@, false),
{
    let marks = chars_of(separators.as_str());
    let letters = chars_of(alphabet.as_str());
    let kept_marks = sift(&marks, &letters, true);
    let kept_letters = sift(&letters, &marks, false);
    (string_of(&kept_marks), string_of(&kept_letters))
}

} // verus!
