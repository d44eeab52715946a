//! Facts about pools of characters: which characters a sequence holds, and
//! whether it holds one twice, under the operations that derive a codec's
//! pools.

use vstd::prelude::*;
use crate::alphabet::{lemma_sifted_push, sifted, without_repeats};
use crate::shuffle::{lemma_shuffled_is_permutation, shuffled};

verus! {

/// No character of `a` is one of `b`.
pub open spec fn apart(a: Seq<char>, b: Seq<char>) -> bool {
    forall|i: int, j: int| 0 <= i < a.len() && 0 <= j < b.len() ==> a[i] != b[j]
}

/// Every character of `a` is one of `b`.
pub open spec fn within(a: Seq<char>, b: Seq<char>) -> bool {
    forall|i: int| 0 <= i < a.len() ==> b.contains(#[trigger] a[i])
}

/// What sifting keeps: characters of the sequence that pass the test, all of
/// those, and none twice that did not stand twice before.
pub proof fn lemma_sifted_props(s: Seq<char>, other: Seq<char>, wanted: bool)
    ensures
        within(sifted(s, other, wanted), s),
        sifted(s, other, wanted).len() <= s.len(),
        forall|i: int|
            0 <= i < sifted(s, other, wanted).len() ==> other.contains(
                #[trigger] sifted(s, other, wanted)[i],
            ) == wanted,
        forall|i: int|
            0 <= i < s.len() && other.contains(s[i]) == wanted ==> sifted(
                s,
                other,
                wanted,
            ).contains(#[trigger] s[i]),
        s.no_duplicates() ==> sifted(s, other, wanted).no_duplicates(),
    decreases s.len(),
{
    reveal(Seq::filter);
    if s.len() > 0 {
        let head = s.drop_last();
        let c = s.last();
        lemma_sifted_props(head, other, wanted);
        lemma_sifted_push(head, c, other, wanted);
        assert(head.push(c) =~= s);
        let kept = sifted(head, other, wanted);
        let all = sifted(s, other, wanted);
        assert forall|i: int| 0 <= i < all.len() implies s.contains(#[trigger] all[i]) by {
            if i < kept.len() {
                assert(head.contains(kept[i]));
                let k = choose|k: int| 0 <= k < head.len() && head[k] == kept[i];
                assert(s[k] == all[i]);
            } else {
                assert(s[s.len() - 1] == all[i]);
            }
        }
        assert forall|i: int|
            0 <= i < s.len() && other.contains(s[i]) == wanted implies all.contains(
            #[trigger] s[i],
        ) by {
            if i < head.len() {
                assert(kept.contains(head[i]));
                let k = choose|k: int| 0 <= k < kept.len() && kept[k] == head[i];
                assert(all[k] == s[i]);
            } else {
                assert(all[all.len() - 1] == s[i]);
            }
        }
        if s.no_duplicates() {
            assert(head.no_duplicates());
            if other.contains(c) == wanted {
                assert forall|i: int, j: int|
                    0 <= i < all.len() && 0 <= j < all.len() && i != j implies all[i] != all[j] by {
                    if i < kept.len() && j < kept.len() {
                    } else if i < kept.len() {
                        assert(head.contains(kept[i]));
                        let k = choose|k: int| 0 <= k < head.len() && head[k] == kept[i];
                        assert(s[k] != s[s.len() - 1]);
                    } else {
                        assert(head.contains(kept[j]));
                        let k = choose|k: int| 0 <= k < head.len() && head[k] == kept[j];
                        assert(s[k] != s[s.len() - 1]);
                    }
                }
            }
        }
    }
}

/// Sifting for and sifting against part a sequence in two.
pub proof fn lemma_sifted_split(s: Seq<char>, other: Seq<char>)
    ensures
        sifted(s, other, true).len() + sifted(s, other, false).len() == s.len(),
    decreases s.len(),
{
    reveal(Seq::filter);
    if s.len() > 0 {
        let head = s.drop_last();
        lemma_sifted_split(head, other);
        lemma_sifted_push(head, s.last(), other, true);
        lemma_sifted_push(head, s.last(), other, false);
        assert(head.push(s.last()) =~= s);
    }
}

/// Distinct characters that all belong to `b` are no more than `b` is long.
pub proof fn lemma_distinct_within_len(a: Seq<char>, b: Seq<char>)
    requires
        a.no_duplicates(),
        within(a, b),
    ensures
        a.len() <= b.len(),
{
    a.unique_seq_to_set();
    b.lemma_cardinality_of_set();
    assert(a.to_set().subset_of(b.to_set())) by {
        assert forall|c: char| a.to_set().contains(c) implies b.to_set().contains(c) by {
            assert(a.contains(c));
            let k = choose|k: int| 0 <= k < a.len() && a[k] == c;
            assert(b.contains(a[k]));
        }
    }
    vstd::seq_lib::seq_to_set_is_finite(b);
    vstd::set_lib::lemma_len_subset(a.to_set(), b.to_set());
}

/// Dropping repeated characters leaves every character, and none twice.
pub proof fn lemma_without_repeats_props(s: Seq<char>)
    ensures
        without_repeats(s).no_duplicates(),
        within(without_repeats(s), s),
        within(s, without_repeats(s)),
        without_repeats(s).len() <= s.len(),
    decreases s.len(),
{
    if s.len() > 0 {
        let head = s.drop_last();
        let c = s.last();
        lemma_without_repeats_props(head);
        let kept = without_repeats(head);
        let all = without_repeats(s);
        assert forall|i: int| 0 <= i < all.len() implies s.contains(#[trigger] all[i]) by {
            if i < kept.len() {
                assert(head.contains(kept[i]));
                let k = choose|k: int| 0 <= k < head.len() && head[k] == kept[i];
                assert(s[k] == all[i]);
            } else {
                assert(s[s.len() - 1] == all[i]);
            }
        }
        assert forall|i: int| 0 <= i < s.len() implies all.contains(#[trigger] s[i]) by {
            if i < head.len() {
                assert(kept.contains(head[i]));
                let k = choose|k: int| 0 <= k < kept.len() && kept[k] == head[i];
                assert(all[k] == s[i]);
            } else if kept.contains(c) {
                let k = choose|k: int| 0 <= k < kept.len() && kept[k] == c;
                assert(all[k] == s[i]);
            } else {
                assert(all[all.len() - 1] == s[i]);
            }
        }
    }
}

/// Where no character stands twice there is nothing to drop.
pub proof fn lemma_without_repeats_same(s: Seq<char>)
    requires
        s.no_duplicates(),
    ensures
        without_repeats(s) == s,
    decreases s.len(),
{
    if s.len() > 0 {
        let head = s.drop_last();
        lemma_without_repeats_same(head);
        if head.contains(s.last()) {
            let k = choose|k: int| 0 <= k < head.len() && head[k] == s.last();
            assert(s[k] == s[s.len() - 1]);
        }
        assert(head.push(s.last()) =~= s);
    }
}

/// Two sequences in a row lie within what both lie within.
pub proof fn lemma_within_concat(a: Seq<char>, b: Seq<char>, whole: Seq<char>)
    requires
        within(a, whole),
        within(b, whole),
    ensures
        within(a + b, whole),
{
    assert forall|i: int| 0 <= i < (a + b).len() implies whole.contains(#[trigger] (a + b)[i]) by {
        if i < a.len() {
            assert((a + b)[i] == a[i]);
        } else {
            assert((a + b)[i] == b[i - a.len()]);
        }
    }
}

/// A stretch of a sequence lies within what the sequence lies within.
pub proof fn lemma_within_subrange(a: Seq<char>, from: int, to: int, whole: Seq<char>)
    requires
        within(a, whole),
        0 <= from <= to <= a.len(),
    ensures
        within(a.subrange(from, to), whole),
{
    assert forall|i: int| 0 <= i < to - from implies whole.contains(
        #[trigger] a.subrange(from, to)[i],
    ) by {
        assert(a.subrange(from, to)[i] == a[from + i]);
    }
}

/// Each of two sequences lies within the two in a row.
pub proof fn lemma_within_parts(a: Seq<char>, b: Seq<char>)
    ensures
        within(a, a + b),
        within(b, a + b),
{
    assert forall|i: int| 0 <= i < a.len() implies (a + b).contains(#[trigger] a[i]) by {
        assert((a + b)[i] == a[i]);
    }
    assert forall|i: int| 0 <= i < b.len() implies (a + b).contains(#[trigger] b[i]) by {
        assert((a + b)[a.len() + i] == b[i]);
    }
}

/// Shuffling leaves every character, and none twice that did not stand twice
/// before.
pub proof fn lemma_shuffled_props(s: Seq<char>, salt: Seq<char>)
    ensures
        shuffled(s, salt).len() == s.len(),
        within(shuffled(s, salt), s),
        within(s, shuffled(s, salt)),
        s.no_duplicates() ==> shuffled(s, salt).no_duplicates(),
{
    broadcast use vstd::seq_lib::group_to_multiset_ensures;

    let t = shuffled(s, salt);
    lemma_shuffled_is_permutation(s, salt);
    assert forall|i: int| 0 <= i < t.len() implies s.contains(#[trigger] t[i]) by {
        assert(t.contains(t[i]));
        assert(t.to_multiset().count(t[i]) > 0);
    }
    assert forall|i: int| 0 <= i < s.len() implies t.contains(#[trigger] s[i]) by {
        assert(s.contains(s[i]));
        assert(s.to_multiset().count(s[i]) > 0);
    }
    if s.no_duplicates() {
        s.lemma_multiset_has_no_duplicates();
        t.lemma_multiset_has_no_duplicates_conv();
    }
}

} // verus!
