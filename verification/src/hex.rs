//! Hexadecimal text as numbers: a long hexadecimal number cut into groups
//! that each fit a number a codec can take.

use vstd::prelude::*;
use crate::error::Error;
use crate::shuffle::{code, ordinal};
use crate::split::views_of;
use crate::text::chars_of;

verus! {

/// How many hexadecimal digits go into one number.
pub const HEX_GROUP: usize = 12;

/// The largest number that hexadecimal text as a whole may spell.
pub const HEX_LIMIT: u64 = 0x7fff_ffff_ffff_ffff;

/// The value of `c` as a hexadecimal digit, of either case, if it is one.
pub open spec fn hex_digit(c: char) -> Option<nat> {
    if '0' <= c <= '9' {
        Some((code(c) - code('0')) as nat)
    } else if 'a' <= c <= 'f' {
        Some((code(c) - code('a') + 10) as nat)
    } else if 'A' <= c <= 'F' {
        Some((code(c) - code('A') + 10) as nat)
    } else {
        None
    }
}

/// Whether `s` is one hexadecimal digit or more, and nothing else.
pub open spec fn is_hex(s: Seq<char>) -> bool {
    &&& s.len() > 0
    &&& forall|i: int| 0 <= i < s.len() ==> hex_digit(#[trigger] s[i]) is Some
}

/// The number that the hexadecimal digits `s` spell behind digits that spell
/// `start`. What is no digit counts as 0.
pub open spec fn hex_from(start: nat, s: Seq<char>) -> nat
    decreases s.len(),
{
    if s.len() == 0 {
        start
    } else {
        hex_from(start, s.drop_last()) * 16 + match hex_digit(s.last()) {
            Some(d) => d,
            None => 0,
        }
    }
}

/// `s` cut into pieces of `size` characters, the last of which may be
/// shorter.
pub open spec fn chunked(s: Seq<char>, size: nat) -> Seq<Seq<char>>
    decreases s.len(),
{
    if s.len() == 0 || size == 0 {
        Seq::empty()
    } else if s.len() <= size {
        seq![s]
    } else {
        seq![s.take(size as int)] + chunked(s.skip(size as int), size)
    }
}

/// Whether the number of each group, behind a leading 1, fits the machine's
/// word.
pub open spec fn groups_fit(groups: Seq<Seq<char>>) -> bool {
    forall|i: int| 0 <= i < groups.len() ==> hex_from(1, #[trigger] groups[i]) <= usize::MAX
}

/// The numbers that hexadecimal text stands for.
///
/// The text has to be hexadecimal digits only, one at the least, and spell
/// no more than the largest signed 64-bit number. It is cut into groups of
/// twelve digits, and each group gives the number that it spells behind a
/// leading 1, which keeps the zeros that a group opens with.
pub open spec fn hex_numbers(hex: Seq<char>) -> Result<Seq<usize>, Error> {
    let groups = chunked(hex, HEX_GROUP as nat);
    if is_hex(hex) && hex_from(0, hex) <= HEX_LIMIT && groups_fit(groups) {
        Ok(Seq::new(groups.len(), |i: int| hex_from(1, groups[i]) as usize))
    } else {
        Err(Error::NonHexString)
    }
}

/// More digits never spell less.
pub proof fn lemma_hex_from_grows(start: nat, s: Seq<char>, k: int)
    requires
        0 <= k <= s.len(),
    ensures
        hex_from(start, s.take(k)) <= hex_from(start, s),
    decreases s.len() - k,
{
    if k == s.len() {
        assert(s.take(k) =~= s);
    } else {
        lemma_hex_from_grows(start, s, k + 1);
        assert(s.take(k + 1).drop_last() =~= s.take(k));
    }
}

/// Cuts `text` into pieces of `size` characters.
///
/// This is `regex::Regex::find_iter` on the pattern that `regex::Regex::new`
/// compiles from `[\w\W]{1,size}`: one up to `size` characters of any kind,
/// as many as there are. The matches follow one another without a gap, so
/// that each but the last is `size` characters long.
#[verifier::external_body]
fn pieces(text: &Vec<char>, size: usize) -> (out: Vec<Vec<char>>)
    requires
        1 <= size <= 12,
    ensures
        views_of(out@) == chunked(text@, size as nat),
{
    let haystack: String = text.iter().collect();
    let re = regex::Regex::new(&format!(r"[\w\W]{{1,{}}}", size)).unwrap();
    re.find_iter(&haystack).map(|m| m.as_str().chars().collect()).collect()
}

/// The value of `c` as a hexadecimal digit.
pub fn digit_value(c: char) -> (d: Option<u8>)
    ensures
        match d {
            Some(v) => hex_digit(c) == Some(v as nat) && v < 16,
            None => hex_digit(c) is None,
        },
{
    let n: u32 = ordinal(c);
    if 48 <= n && n <= 57 {
        Some((n - 48) as u8)
    } else if 97 <= n && n <= 102 {
        Some((n - 87) as u8)
    } else if 65 <= n && n <= 70 {
        Some((n - 55) as u8)
    } else {
        None
    }
}

/// The number that `s` spells behind digits that spell `start`, where it is
/// no more than `limit`.
pub fn hex_within(start: u64, s: &Vec<char>, limit: u64) -> (r: Option<u64>)
    requires
        start <= limit,
    ensures
        r == if hex_from(start as nat, s@) <= limit {
            Some(hex_from(start as nat, s@) as u64)
        } else {
            None
        },
{
    let mut acc: u64 = start;
    let mut i: usize = 0;
    proof {
        assert(s@.take(0) =~= Seq::<char>::empty());
    }
    while i < s.len()
        invariant
            i <= s.len(),
            acc <= limit,
            acc == hex_from(start as nat, s@.take(i as int)),
        decreases s.len() - i,
    {
        let d: u8 = match digit_value(s[i]) {
            Some(v) => v,
            None => 0,
        };
        proof {
            assert(s@.take(i + 1).drop_last() =~= s@.take(i as int));
            assert(s@.take(i + 1).last() == s@[i as int]);
        }
        let wide: u128 = (acc as u128) * 16 + (d as u128);
        if wide > limit as u128 {
            proof {
                lemma_hex_from_grows(start as nat, s@, i + 1);
            }
            return None;
        }
        acc = wide as u64;
        i = i + 1;
    }
    proof {
        assert(s@.take(i as int) =~= s@);
    }
    Some(acc)
}

/// Whether `s` is one hexadecimal digit or more, and nothing else.
pub fn all_hex(s: &Vec<char>) -> (b: bool)
    ensures
        b == is_hex(s@),
{
    if s.len() == 0 {
        return false;
    }
    let mut i: usize = 0;
    while i < s.len()
        invariant
            i <= s.len(),
            forall|k: int| 0 <= k < i ==> hex_digit(#[trigger] s@[k]) is Some,
        decreases s.len() - i,
    {
        if digit_value(s[i]).is_none() {
            assert(hex_digit(s@[i as int]) is None);
            return false;
        }
        i = i + 1;
    }
    true
}

/// Turns hexadecimal text into numbers that a codec can take.
///
/// Whatever is not a hexadecimal number, or is too large a one, is refused
/// as no hexadecimal text.
pub fn hex_to_vec(hex: String) -> (r: Result<Vec<usize>, Error>)
    ensures
        match r {
            Ok(numbers) => hex_numbers(hex@) == Ok::<Seq<usize>, Error>(numbers@),
            Err(e) => hex_numbers(hex@) == Err::<Seq<usize>, Error>(e),
        },
{
    let text = chars_of(hex.as_str());
    if !all_hex(&text) {
        return Err(Error::NonHexString);
    }
    if hex_within(0, &text, HEX_LIMIT).is_none() {
        return Err(Error::NonHexString);
    }
    let groups = pieces(&text, HEX_GROUP);
    let ghost cut = chunked(hex@, HEX_GROUP as nat);
    let mut numbers: Vec<usize> = Vec::new();
    let mut i: usize = 0;
    while i < groups.len()
        invariant
            i <= groups.len(),
            views_of(groups@) == cut,
            cut == chunked(hex@, HEX_GROUP as nat),
            is_hex(hex@),
            hex_from(0, hex@) <= HEX_LIMIT,
            numbers@.len() == i,
            forall|k: int| 0 <= k < i ==> hex_from(1, #[trigger] cut[k]) == numbers@[k],
        decreases groups.len() - i,
    {
        proof {
            assert(views_of(groups@)[i as int] == groups@[i as int]@);
        }
        match hex_within(1, &groups[i], usize::MAX as u64) {
            Some(n) => {
                numbers.push(n as usize);
            },
            None => {
                proof {
                    assert(hex_from(1, cut[i as int]) > usize::MAX);
                    assert(!groups_fit(cut));
                }
                return Err(Error::NonHexString);
            },
        }
        i = i + 1;
    }
    proof {
        assert forall|k: int| 0 <= k < cut.len() implies hex_from(1, #[trigger] cut[k])
            <= usize::MAX by {
            assert(hex_from(1, cut[k]) == numbers@[k]);
        }
        assert(numbers@ =~= Seq::new(cut.len(), |k: int| hex_from(1, cut[k]) as usize));
    }
    Ok(numbers)
}

} // verus!
