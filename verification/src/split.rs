//! Taking a string apart: blanking out the characters of a class, and
//! splitting at blanks.

use vstd::prelude::*;
use vstd::utf8::is_ascii_chars;
use crate::shuffle::{code, ordinal};

verus! {

/// `text` with a space in place of each character that `class` holds.
pub open spec fn blanked(text: Seq<char>, class: Seq<char>) -> Seq<char> {
    Seq::new(
        text.len(),
        |i: int|
            if class.contains(text[i]) {
                ' '
            } else {
                text[i]
            },
    )
}

/// Whether `c` is white space, as Unicode defines it.
pub open spec fn is_blank(c: char) -> bool {
    let n = code(c);
    ||| 0x09 <= n <= 0x0d
    ||| n == 0x20
    ||| n == 0x85
    ||| n == 0xa0
    ||| n == 0x1680
    ||| 0x2000 <= n <= 0x200a
    ||| n == 0x2028
    ||| n == 0x2029
    ||| n == 0x202f
    ||| n == 0x205f
    ||| n == 0x3000
}

/// Reading `s` from the left: the words that have ended, and the word that
/// has begun and not ended yet. A word is a run of characters that are not
/// blank, as long as it can be.
pub open spec fn runs(s: Seq<char>) -> (Seq<Seq<char>>, Seq<char>)
    decreases s.len(),
{
    if s.len() == 0 {
        (Seq::empty(), Seq::empty())
    } else {
        let (done, word) = runs(s.drop_last());
        if !is_blank(s.last()) {
            (done, word.push(s.last()))
        } else if word.len() > 0 {
            (done.push(word), Seq::empty())
        } else {
            (done, word)
        }
    }
}

/// The words of `s`, in order: what is left of it between its blanks.
pub open spec fn fields(s: Seq<char>) -> Seq<Seq<char>> {
    let (done, word) = runs(s);
    if word.len() > 0 {
        done.push(word)
    } else {
        done
    }
}

/// The sequences that the vectors of `v` hold.
pub open spec fn views_of(v: Seq<Vec<char>>) -> Seq<Seq<char>> {
    Seq::new(v.len(), |i: int| v[i]@)
}

/// Puts a space in place of each character of `text` that `class` holds.
///
/// This is `regex::Regex::replace_all` with the replacement `" "`, on the
/// pattern that `regex::Regex::new` compiles from the characters of `class`,
/// escaped by `regex::escape`, between square brackets. Such a pattern
/// matches one character, any of those listed and no other, so that each
/// listed character becomes a space and the others stay as they are.
#[verifier::external_body]
pub(crate) fn blank_out(text: &Vec<char>, class: &Vec<char>) -> (out: Vec<char>)
    requires
        class@.len() > 0,
        is_ascii_chars(class@),
    ensures
        out@ == blanked(text@, class@),
{
    let listed: String = class.iter().collect();
    let haystack: String = text.iter().collect();
    let pattern = format!("[{}]", regex::escape(&listed));
    let re = regex::Regex::new(&pattern).unwrap();
    re.replace_all(&haystack, " ").chars().collect()
}

/// Whether `c` is white space.
pub fn blank(c: char) -> (b: bool)
    ensures
        b == is_blank(c),
{
    let n: u32 = ordinal(c);
    (0x09 <= n && n <= 0x0d) || n == 0x20 || n == 0x85 || n == 0xa0 || n == 0x1680 || (0x2000 <= n
        && n <= 0x200a) || n == 0x2028 || n == 0x2029 || n == 0x202f || n == 0x205f || n == 0x3000
}

/// The words of `text`.
pub fn split_fields(text: &Vec<char>) -> (words: Vec<Vec<char>>)
    ensures
        views_of(words@) == fields(text@),
{
    let mut words: Vec<Vec<char>> = Vec::new();
    let mut word: Vec<char> = Vec::new();
    let mut i: usize = 0;
    proof {
        assert(text@.take(0) =~= Seq::<char>::empty());
        assert(views_of(words@) =~= Seq::<Seq<char>>::empty());
    }
    while i < text.len()
        invariant
            i <= text.len(),
            runs(text@.take(i as int)) == (views_of(words@), word@),
        decreases text.len() - i,
    {
        let c: char = text[i];
        proof {
            assert(text@.take(i + 1).drop_last() =~= text@.take(i as int));
            assert(text@.take(i + 1).last() == c);
        }
        if !blank(c) {
            word.push(c);
        } else if word.len() > 0 {
            let ghost before = views_of(words@);
            let ghost ended = word@;
            words.push(word);
            word = Vec::new();
            proof {
                assert(views_of(words@) =~= before.push(ended));
            }
        }
        i = i + 1;
    }
    proof {
        assert(text@.take(i as int) =~= text@);
    }
    if word.len() > 0 {
        let ghost before = views_of(words@);
        let ghost ended = word@;
        words.push(word);
        proof {
            assert(views_of(words@) =~= before.push(ended));
        }
    }
    words
}

} // verus!
