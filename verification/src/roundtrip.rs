//! Why decoding gives back what was encoded.

use vstd::prelude::*;
use vstd::utf8::is_ascii_chars;
use crate::config::{
    derived, lemma_derived_well_formed, lemma_derived_within, lemma_within_trans, well_formed,
    Config,
};
use crate::decoding::{all_fit, as_words, candidate, decoded, groups_of, payload};
use crate::error::Error;
use crate::encoding::{
    body_upto, cropped, digits_at, encoded, group_at, guarded, lottery_of, padded,
    seed_of, separator_at, shuffle_key, working, wrapped,
};
use crate::numeral::{from_symbols, lemma_from_to_symbols, lemma_to_symbols_shape};
use crate::pools::{apart, lemma_shuffled_props, within};
use crate::shuffle::shuffled;
use crate::split::{blanked, fields, is_blank, runs};

verus! {

/// No character of `s` is a blank.
pub open spec fn blank_free(s: Seq<char>) -> bool {
    forall|i: int| 0 <= i < s.len() ==> !is_blank(#[trigger] s[i])
}

/// No character of `s` is a blank or a guard of `c`.
pub open spec fn plain(c: Config, s: Seq<char>) -> bool {
    forall|i: int| 0 <= i < s.len() ==> !is_blank(#[trigger] s[i]) && !c.guards.contains(s[i])
}

/// A configuration whose strings can be taken apart again: it is well
/// formed, and neither its alphabet nor its separators hold a blank.
pub open spec fn readable(c: Config) -> bool {
    &&& well_formed(c)
    &&& blank_free(c.alphabet)
    &&& blank_free(c.separators)
}

/// Characters of the alphabet or of the separators of a readable
/// configuration are plain.
pub proof fn lemma_pools_plain(c: Config, s: Seq<char>)
    requires
        readable(c),
        within(s, c.alphabet + c.separators),
    ensures
        plain(c, s),
{
    let both = c.alphabet + c.separators;
    assert forall|i: int| 0 <= i < s.len() implies !is_blank(#[trigger] s[i])
        && !c.guards.contains(s[i]) by {
        assert(both.contains(s[i]));
        let k = choose|k: int| 0 <= k < both.len() && both[k] == s[i];
        if k < c.alphabet.len() {
            assert(both[k] == c.alphabet[k]);
        } else {
            assert(both[k] == c.separators[k - c.alphabet.len()]);
        }
        if c.guards.contains(s[i]) {
            let g = choose|g: int| 0 <= g < c.guards.len() && c.guards[g] == s[i];
            assert(false);
        }
    }
}

/// What lies within the alphabet lies within alphabet and separators.
pub proof fn lemma_within_pools(c: Config, s: Seq<char>)
    requires
        within(s, c.alphabet),
    ensures
        within(s, c.alphabet + c.separators),
{
    let both = c.alphabet + c.separators;
    assert forall|i: int| 0 <= i < s.len() implies both.contains(#[trigger] s[i]) by {
        assert(c.alphabet.contains(s[i]));
        let k = choose|k: int| 0 <= k < c.alphabet.len() && c.alphabet[k] == s[i];
        assert(both[k] == s[i]);
    }
}

/// Every working alphabet is the codec's alphabet rearranged.
pub proof fn lemma_working_props(c: Config, lottery: char, k: nat)
    requires
        c.alphabet.no_duplicates(),
    ensures
        working(c, lottery, k).len() == c.alphabet.len(),
        working(c, lottery, k).no_duplicates(),
        within(working(c, lottery, k), c.alphabet),
        within(c.alphabet, working(c, lottery, k)),
    decreases k,
{
    if k == 0 {
        assert forall|i: int| 0 <= i < c.alphabet.len() implies c.alphabet.contains(
            #[trigger] c.alphabet[i],
        ) by {}
    } else {
        let before = working(c, lottery, (k - 1) as nat);
        lemma_working_props(c, lottery, (k - 1) as nat);
        lemma_shuffled_props(before, shuffle_key(lottery, c.salt, before));
        lemma_within_trans(working(c, lottery, k), before, c.alphabet);
        lemma_within_trans(c.alphabet, before, working(c, lottery, k));
    }
}

/// The digits of each number are one or more characters of the alphabet, and
/// read over the working alphabet of their turn they give the number.
pub proof fn lemma_digits_props(c: Config, lottery: char, numbers: Seq<usize>, i: int)
    requires
        well_formed(c),
        0 <= i < numbers.len(),
    ensures
        digits_at(c, lottery, numbers, i).len() >= 1,
        within(digits_at(c, lottery, numbers, i), c.alphabet),
        from_symbols(digits_at(c, lottery, numbers, i), working(c, lottery, (i + 1) as nat))
            == numbers[i],
{
    let w = working(c, lottery, (i + 1) as nat);
    lemma_working_props(c, lottery, (i + 1) as nat);
    lemma_to_symbols_shape(numbers[i] as nat, w);
    lemma_from_to_symbols(numbers[i] as nat, w);
    lemma_within_trans(digits_at(c, lottery, numbers, i), w, c.alphabet);
}

/// Blanking out goes part by part.
pub proof fn lemma_blanked_concat(a: Seq<char>, b: Seq<char>, class: Seq<char>)
    ensures
        blanked(a + b, class) == blanked(a, class) + blanked(b, class),
{
    assert(blanked(a + b, class) =~= blanked(a, class) + blanked(b, class));
}

/// Blanking out a class leaves what holds none of its characters.
pub proof fn lemma_blanked_same(s: Seq<char>, class: Seq<char>)
    requires
        forall|i: int| 0 <= i < s.len() ==> !class.contains(#[trigger] s[i]),
    ensures
        blanked(s, class) == s,
{
    assert(blanked(s, class) =~= s);
}

/// Reading on through characters that are not blank lengthens the word that
/// has begun.
pub proof fn lemma_runs_word(s: Seq<char>, w: Seq<char>)
    requires
        blank_free(w),
    ensures
        runs(s + w) == (runs(s).0, runs(s).1 + w),
    decreases w.len(),
{
    if w.len() == 0 {
        assert(s + w =~= s);
        assert(runs(s).1 + w =~= runs(s).1);
    } else {
        let head = w.drop_last();
        lemma_runs_word(s, head);
        assert((s + w).drop_last() =~= s + head);
        assert((s + w).last() == w.last());
        assert(!is_blank(w[w.len() - 1]));
        assert((runs(s).1 + head).push(w.last()) =~= runs(s).1 + w);
    }
}

/// Reading a blank ends the word that has begun, if one has.
pub proof fn lemma_runs_blank(s: Seq<char>, b: char)
    requires
        is_blank(b),
    ensures
        runs(s.push(b)) == if runs(s).1.len() > 0 {
            (runs(s).0.push(runs(s).1), Seq::<char>::empty())
        } else {
            runs(s)
        },
{
    assert(s.push(b).drop_last() =~= s);
}

/// The digits of the first `j` numbers, number by number.
pub open spec fn digit_groups(c: Config, lottery: char, numbers: Seq<usize>, j: nat) -> Seq<
    Seq<char>,
> {
    Seq::new(j, |i: int| digits_at(c, lottery, numbers, i))
}

/// What lies within a sequence free of blanks is free of blanks.
pub proof fn lemma_within_blank_free(a: Seq<char>, b: Seq<char>)
    requires
        within(a, b),
        blank_free(b),
    ensures
        blank_free(a),
{
    assert forall|i: int| 0 <= i < a.len() implies !is_blank(#[trigger] a[i]) by {
        assert(b.contains(a[i]));
        let k = choose|k: int| 0 <= k < b.len() && b[k] == a[i];
        assert(!is_blank(b[k]));
    }
}

/// The body opens with the lottery character, holds a character more for
/// each number, and is made of characters of the alphabet and separators.
pub proof fn lemma_body_shape(c: Config, lottery: char, numbers: Seq<usize>, j: nat)
    requires
        well_formed(c),
        c.alphabet.contains(lottery),
        j <= numbers.len(),
    ensures
        body_upto(c, lottery, numbers, j).len() > j,
        body_upto(c, lottery, numbers, j)[0] == lottery,
        within(body_upto(c, lottery, numbers, j), c.alphabet + c.separators),
    decreases j,
{
    let both = c.alphabet + c.separators;
    let body = body_upto(c, lottery, numbers, j);
    if j == 0 {
        let k = choose|k: int| 0 <= k < c.alphabet.len() && c.alphabet[k] == lottery;
        assert(both[k] == lottery);
        assert forall|i: int| 0 <= i < body.len() implies both.contains(#[trigger] body[i]) by {
            assert(body[i] == lottery);
        }
    } else {
        let before = body_upto(c, lottery, numbers, (j - 1) as nat);
        let digits = digits_at(c, lottery, numbers, j - 1);
        let group = group_at(c, lottery, numbers, j - 1);
        lemma_body_shape(c, lottery, numbers, (j - 1) as nat);
        lemma_digits_props(c, lottery, numbers, j - 1);
        lemma_within_pools(c, digits);
        assert forall|i: int| 0 <= i < body.len() implies both.contains(#[trigger] body[i]) by {
            if i < before.len() {
                assert(body[i] == before[i]);
            } else if i - before.len() < digits.len() {
                assert(body[i] == digits[i - before.len()]);
            } else {
                let mark = separator_at(c, lottery, numbers, j - 1);
                assert(body[i] == mark);
                let place = choose|p: int| 0 <= p < c.separators.len() && c.separators[p] == mark;
                assert(both[c.alphabet.len() + place] == mark);
            }
        }
    }
}

/// Reading the body behind the lottery character, with the separators
/// blanked out: after the last number its digits are the word that has
/// begun, and the digits of the numbers before it are the words that have
/// ended; after any other number all digits so far have ended.
pub proof fn lemma_groups_read(c: Config, lottery: char, numbers: Seq<usize>, j: nat)
    requires
        readable(c),
        c.alphabet.contains(lottery),
        j <= numbers.len(),
    ensures
        runs(blanked(body_upto(c, lottery, numbers, j).skip(1), c.separators)) == if j == 0 || j
            < numbers.len() {
            (digit_groups(c, lottery, numbers, j), Seq::<char>::empty())
        } else {
            (
                digit_groups(c, lottery, numbers, (j - 1) as nat),
                digits_at(c, lottery, numbers, j - 1),
            )
        },
    decreases j,
{
    let body = body_upto(c, lottery, numbers, j);
    if j == 0 {
        assert(body.skip(1) =~= Seq::<char>::empty());
        assert(blanked(body.skip(1), c.separators) =~= Seq::<char>::empty());
        assert(digit_groups(c, lottery, numbers, 0) =~= Seq::<Seq<char>>::empty());
    } else {
        let before = body_upto(c, lottery, numbers, (j - 1) as nat);
        let digits = digits_at(c, lottery, numbers, j - 1);
        let group = group_at(c, lottery, numbers, j - 1);
        let read = blanked(before.skip(1), c.separators);
        let ended = digit_groups(c, lottery, numbers, (j - 1) as nat);
        lemma_groups_read(c, lottery, numbers, (j - 1) as nat);
        lemma_body_shape(c, lottery, numbers, (j - 1) as nat);
        lemma_digits_props(c, lottery, numbers, j - 1);
        lemma_within_blank_free(digits, c.alphabet);
        assert(body.skip(1) =~= before.skip(1) + group);
        lemma_blanked_concat(before.skip(1), group, c.separators);
        assert forall|i: int| 0 <= i < digits.len() implies !c.separators.contains(
            #[trigger] digits[i],
        ) by {
            assert(c.alphabet.contains(digits[i]));
            let k = choose|k: int| 0 <= k < c.alphabet.len() && c.alphabet[k] == digits[i];
            if c.separators.contains(digits[i]) {
                let m = choose|m: int| 0 <= m < c.separators.len() && c.separators[m] == digits[i];
                assert(c.alphabet[k] != c.separators[m]);
            }
        }
        lemma_blanked_same(digits, c.separators);
        lemma_runs_word(read, digits);
        assert(runs(read).1 + digits =~= digits);
        assert(runs(read + digits) == (ended, digits));
        if j < numbers.len() {
            let mark = separator_at(c, lottery, numbers, j - 1);
            assert(c.separators.contains(mark));
            assert(blanked(group, c.separators) =~= digits.push(' '));
            assert(read + digits.push(' ') =~= (read + digits).push(' '));
            lemma_runs_blank(read + digits, ' ');
            assert(ended.push(digits) =~= digit_groups(c, lottery, numbers, j));
        } else {
            assert(blanked(group, c.separators) == digits);
        }
    }
}

/// A guard behind plain characters: what may stand in front of the body.
pub open spec fn left_side(c: Config, left: Seq<char>) -> bool {
    &&& left.len() >= 1
    &&& c.guards.contains(left.last())
    &&& plain(c, left.drop_last())
}

/// A guard in front of plain characters: what may stand behind the body.
pub open spec fn right_side(c: Config, right: Seq<char>) -> bool {
    &&& right.len() >= 1
    &&& c.guards.contains(right[0])
    &&& plain(c, right.skip(1))
}

/// What guards and padding put round a body: nothing; or a left side alone;
/// or a left and a right side, where the right side is a guard alone if the
/// left side is.
pub open spec fn framed(c: Config, left: Seq<char>, right: Seq<char>) -> bool {
    ||| left.len() == 0 && right.len() == 0
    ||| left_side(c, left) && right.len() == 0
    ||| left_side(c, left) && right_side(c, right) && (left.len() == 1 ==> right.len() == 1)
}

/// Guards frame the body, and where the result is still too short there is
/// one at each end.
pub proof fn lemma_guarded_frame(c: Config, seed: nat, body: Seq<char>) -> (sides: (
    Seq<char>,
    Seq<char>,
))
    requires
        well_formed(c),
        body.len() >= 2,
    ensures
        guarded(c, seed, body) == sides.0 + body + sides.1,
        framed(c, sides.0, sides.1),
        guarded(c, seed, body).len() < c.min_length ==> left_side(c, sides.0) && right_side(
            c,
            sides.1,
        ),
{
    let none = Seq::<char>::empty();
    if body.len() >= c.min_length {
        assert(none + body + none =~= body);
        (none, none)
    } else {
        let first = c.guards[crate::encoding::guard_place(seed, body[0], c.guards.len()) as int];
        let front = seq![first] + body;
        assert(c.guards.contains(first));
        assert(seq![first].drop_last() =~= none);
        if front.len() >= c.min_length {
            assert(seq![first] + body + none =~= front);
            (seq![first], none)
        } else {
            let second = c.guards[crate::encoding::guard_place(
                seed,
                front[2],
                c.guards.len(),
            ) as int];
            assert(c.guards.contains(second));
            assert(seq![second].skip(1) =~= none);
            assert(seq![first] + body + seq![second] =~= front.push(second));
            (seq![first], seq![second])
        }
    }
}

/// Plain characters in a row with plain characters are plain.
pub proof fn lemma_plain_concat(c: Config, a: Seq<char>, b: Seq<char>)
    requires
        plain(c, a),
        plain(c, b),
    ensures
        plain(c, a + b),
{
    assert forall|i: int| 0 <= i < (a + b).len() implies !is_blank(#[trigger] (a + b)[i])
        && !c.guards.contains((a + b)[i]) by {
        if i < a.len() {
            assert((a + b)[i] == a[i]);
        } else {
            assert((a + b)[i] == b[i - a.len()]);
        }
    }
}

/// A stretch of plain characters is plain.
pub proof fn lemma_plain_subrange(c: Config, a: Seq<char>, from: int, to: int)
    requires
        plain(c, a),
        0 <= from <= to <= a.len(),
    ensures
        plain(c, a.subrange(from, to)),
{
    assert forall|i: int| 0 <= i < to - from implies !is_blank(#[trigger] a.subrange(from, to)[i])
        && !c.guards.contains(a.subrange(from, to)[i]) by {
        assert(a.subrange(from, to)[i] == a[from + i]);
    }
}

/// Padding keeps the body framed.
pub proof fn lemma_padded_frame(
    c: Config,
    alphabet: Seq<char>,
    left: Seq<char>,
    body: Seq<char>,
    right: Seq<char>,
) -> (sides: (Seq<char>, Seq<char>))
    requires
        readable(c),
        alphabet.len() >= 1,
        within(alphabet, c.alphabet),
        framed(c, left, right),
        (left + body + right).len() < c.min_length ==> left_side(c, left) && right_side(c, right),
    ensures
        padded(c.min_length, alphabet, left + body + right) == sides.0 + body + sides.1,
        framed(c, sides.0, sides.1),
    decreases c.min_length - (left + body + right).len(),
{
    let text = left + body + right;
    if text.len() >= c.min_length {
        (left, right)
    } else {
        let around = shuffled(alphabet, alphabet);
        lemma_shuffled_props(alphabet, alphabet);
        lemma_within_trans(around, alphabet, c.alphabet);
        lemma_within_pools(c, around);
        lemma_pools_plain(c, around);
        let n = alphabet.len() as int;
        let half = n / 2;
        let wide = wrapped(alphabet, text);
        assert(wide == around.skip(half) + text + around.take(half));
        let excess = wide.len() - c.min_length;
        let (cut, kept) = if excess > 0 {
            (excess / 2, half - (excess - excess / 2))
        } else {
            (0int, half)
        };
        let more_left = around.subrange(half + cut, n);
        let more_right = around.subrange(0, kept);
        let new_left = more_left + left;
        let new_right = right + more_right;
        lemma_plain_subrange(c, around, half + cut, n);
        lemma_plain_subrange(c, around, 0, kept);
        assert(cropped(wide, c.min_length) =~= new_left + body + new_right);
        assert(left_side(c, new_left)) by {
            assert(new_left.last() == left.last());
            assert(new_left.drop_last() =~= more_left + left.drop_last());
            lemma_plain_concat(c, more_left, left.drop_last());
        }
        assert(right_side(c, new_right)) by {
            assert(new_right[0] == right[0]);
            assert(new_right.skip(1) =~= right.skip(1) + more_right);
            lemma_plain_concat(c, right.skip(1), more_right);
        }
        assert(new_left.len() >= 2);
        lemma_padded_frame(c, around, new_left, body, new_right)
    }
}

/// The payload of a framed body is the body.
pub proof fn lemma_payload_of_framed(c: Config, left: Seq<char>, body: Seq<char>, right: Seq<char>)
    requires
        framed(c, left, right),
        plain(c, body),
        body.len() >= 1,
    ensures
        payload(c, left + body + right) == body,
{
    let none = Seq::<char>::empty();
    let text = left + body + right;
    let read = blanked(text, c.guards);
    lemma_blanked_concat(left + body, right, c.guards);
    lemma_blanked_concat(left, body, c.guards);
    lemma_blanked_same(body, c.guards);
    assert(read == blanked(left, c.guards) + body + blanked(right, c.guards));
    assert(blank_free(body));
    if left.len() == 0 {
        assert(blanked(left, c.guards) =~= none);
        assert(blanked(right, c.guards) =~= none);
        assert(read =~= none + body);
        lemma_runs_word(none, body);
        assert(runs(none).1 + body =~= body);
        assert(fields(read) =~= seq![body]);
    } else {
        let before = left.drop_last();
        assert(left =~= before.push(left.last()));
        assert(blanked(left, c.guards) =~= before.push(' ')) by {
            assert forall|i: int| 0 <= i < before.len() implies !c.guards.contains(
                #[trigger] before[i],
            ) by {}
            lemma_blanked_same(before, c.guards);
            lemma_blanked_concat(before, seq![left.last()], c.guards);
            assert(blanked(seq![left.last()], c.guards) =~= seq![' ']);
            assert(before + seq![' '] =~= before.push(' '));
            assert(before + seq![left.last()] =~= left);
        }
        assert(blank_free(before));
        lemma_runs_word(none, before);
        assert(none + before =~= before);
        assert(runs(none).1 + before =~= before);
        assert(runs(before) == (Seq::<Seq<char>>::empty(), before));
        lemma_runs_blank(before, ' ');
        let opened = before.push(' ');
        let ended = runs(opened).0;
        assert(runs(opened).1 =~= none);
        lemma_runs_word(opened, body);
        assert(runs(opened).1 + body =~= body);
        assert(runs(opened + body) == (ended, body));
        if right.len() == 0 {
            assert(blanked(right, c.guards) =~= none);
            assert(read =~= opened + body);
            if before.len() > 0 {
                assert(fields(read) =~= seq![before, body]);
            } else {
                assert(fields(read) =~= seq![body]);
            }
        } else {
            let after = right.skip(1);
            assert(right =~= seq![right[0]] + after);
            assert(blanked(right, c.guards) =~= seq![' '] + after) by {
                assert forall|i: int| 0 <= i < after.len() implies !c.guards.contains(
                    #[trigger] after[i],
                ) by {}
                lemma_blanked_same(after, c.guards);
                lemma_blanked_concat(seq![right[0]], after, c.guards);
                assert(blanked(seq![right[0]], c.guards) =~= seq![' ']);
            }
            assert(blank_free(after));
            let closed = (opened + body).push(' ');
            lemma_runs_blank(opened + body, ' ');
            assert(runs(closed) == (ended.push(body), none));
            lemma_runs_word(closed, after);
            assert(runs(closed).1 + after =~= after);
            assert(read =~= closed + after);
            assert(runs(read) == (ended.push(body), after));
            if before.len() > 0 {
                if after.len() > 0 {
                    assert(fields(read) =~= seq![before, body, after]);
                } else {
                    assert(fields(read) =~= seq![before, body]);
                }
            } else {
                assert(left.len() == 1);
                assert(after.len() == 0);
                assert(fields(read) =~= seq![body]);
            }
        }
    }
}

/// The pools derived from an alphabet without blanks are readable: strings
/// encoded under them decode to what was encoded.
pub proof fn lemma_derived_readable(alphabet: Seq<char>, salt: Seq<char>, min_length: nat)
    requires
        alphabet.no_duplicates(),
        alphabet.len() >= 16,
        is_ascii_chars(alphabet),
        blank_free(alphabet),
        salt.len() > 0,
        is_ascii_chars(salt),
    ensures
        readable(derived(alphabet, salt, min_length)),
{
    let c = derived(alphabet, salt, min_length);
    lemma_derived_well_formed(alphabet, salt, min_length);
    lemma_derived_within(alphabet, salt, min_length);
    lemma_within_blank_free(c.alphabet, alphabet);
    lemma_within_blank_free(c.separators, alphabet);
}

/// Decoding what was encoded gives the numbers back: for every readable
/// configuration and every sequence of one or more numbers, the string that
/// the numbers encode to decodes to exactly these numbers.
pub proof fn lemma_round_trip(c: Config, numbers: Seq<usize>)
    requires
        readable(c),
        numbers.len() > 0,
    ensures
        decoded(c, encoded(c, numbers)) == Ok::<Seq<usize>, Error>(numbers),
{
    let count = numbers.len();
    let seed = seed_of(numbers);
    let lottery = lottery_of(c, numbers);
    let body = body_upto(c, lottery, numbers, count);
    let hash = encoded(c, numbers);
    assert(c.alphabet.contains(lottery)) by {
        vstd::arithmetic::div_mod::lemma_mod_bound(seed as int, c.alphabet.len() as int);
    }
    lemma_body_shape(c, lottery, numbers, count);
    lemma_pools_plain(c, body);
    let between = lemma_guarded_frame(c, seed, body);
    lemma_working_props(c, lottery, count);
    let sides = lemma_padded_frame(
        c,
        working(c, lottery, count),
        between.0,
        body,
        between.1,
    );
    assert(hash == sides.0 + body + sides.1);
    lemma_payload_of_framed(c, sides.0, body, sides.1);
    lemma_groups_read(c, lottery, numbers, count);
    lemma_digits_props(c, lottery, numbers, count - 1);
    let groups = groups_of(c, hash);
    assert(groups =~= digit_groups(c, lottery, numbers, count));
    let found = candidate(c, hash);
    assert(found.len() == count);
    assert forall|i: int| 0 <= i < count implies #[trigger] found[i] == numbers[i] by {
        lemma_digits_props(c, lottery, numbers, i);
    }
    assert(all_fit(found));
    assert(as_words(found) =~= numbers);
}

} // verus!
