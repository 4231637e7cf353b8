//! Sorting by a key that is a number, and choosing the items of one key.

use crate::lemmas::{
    lemma_filter_count, lemma_filter_has, lemma_filter_last, lemma_filter_snoc,
};
use crate::types::words_value;
use itertools::Itertools;
use vstd::prelude::*;

verus! {

/// A value that sorts by a number.
pub trait Ranked {
    /// The number that the value sorts by.
    spec fn rank(&self) -> nat;

    /// The rank in two words, the more significant one first. Pairs are ordered by their first
    /// component and then by their second, which is the order of the numbers that they write.
    fn key(&self) -> (key: (u128, u128))
        ensures
            words_value(key.0, key.1) == self.rank(),
    ;
}

/// The test for the given rank.
pub open spec fn has_rank<T: Ranked>(rank: nat) -> spec_fn(T) -> bool {
    |item: T| item.rank() == rank
}

/// The items of `s` that have the given rank, in their order in `s`.
pub open spec fn of_rank<T: Ranked>(s: Seq<T>, rank: nat) -> Seq<T> {
    s.filter(has_rank(rank))
}

/// The ranks never decrease along `s`.
pub open spec fn ascending<T: Ranked>(s: Seq<T>) -> bool {
    forall|i: int, j: int| 0 <= i <= j < s.len() ==> s[i].rank() <= s[j].rank()
}

/// The ranks never increase along `s`.
pub open spec fn descending<T: Ranked>(s: Seq<T>) -> bool {
    forall|i: int, j: int| 0 <= i <= j < s.len() ==> s[i].rank() >= s[j].rank()
}

/// `after` holds the items of `before` by ascending rank, and items of equal rank follow each
/// other as they do in `before`.
pub open spec fn stable_sort<T: Ranked>(before: Seq<T>, after: Seq<T>) -> bool {
    &&& ascending(after)
    &&& forall|rank: nat| #[trigger] of_rank(after, rank) == of_rank(before, rank)
}

/// Sorts `items` in place by ascending rank with the standard library's `slice::sort_by_key`.
///
/// Believed of it, as its documentation says: the slice ends up sorted by the key, and the sort
/// is stable, so that the items of each key are the same as before and in the same order.
#[verifier::external_body]
pub(crate) fn sort_by_key<T: Ranked>(items: &mut Vec<T>)
    ensures
        stable_sort(old(items)@, final(items)@),
{
    items.sort_by_key(|item| item.key())
}

/// Refers to `items` by ascending rank, with `Itertools::sorted_by_key`.
///
/// Believed of it, as its source shows: it collects the iterator's items and sorts them with
/// `slice::sort_by_key`, which is stable.
#[verifier::external_body]
pub(crate) fn sorted_by_key<T: Ranked>(items: &Vec<T>) -> (sorted: Vec<&T>)
    ensures
        stable_sort(items@, sorted@.unref()),
{
    items.iter().sorted_by_key(|item| item.key()).collect()
}

/// Reverses the order of the items.
pub(crate) fn reverse<T: Copy>(items: &mut Vec<T>)
    ensures
        final(items)@ == old(items)@.reverse(),
{
    let ghost s = items@;
    let len: usize = items.len();
    let mut i: usize = 0;
    while i < len / 2
        invariant
            i <= len / 2,
            len == s.len(),
            items@.len() == len,
            forall|j: int| 0 <= j < i ==> items@[j] == s[len - 1 - j],
            forall|j: int| i <= j < len - i ==> items@[j] == s[j],
            forall|j: int| len - i <= j < len ==> items@[j] == s[len - 1 - j],
        decreases len / 2 - i,
    {
        let a = items[i];
        let b = items[len - 1 - i];
        items.set(i, b);
        items.set(len - 1 - i, a);
        i += 1;
    }
    assert(items@ =~= s.reverse());
}

/// The items of one rank when one more item stands in front.
pub proof fn lemma_of_rank_prepend<T: Ranked>(x: T, rest: Seq<T>, rank: nat)
    ensures
        of_rank(seq![x] + rest, rank) == if x.rank() == rank {
            seq![x] + of_rank(rest, rank)
        } else {
            of_rank(rest, rank)
        },
{
    let pred = has_rank::<T>(rank);
    rest.lemma_filter_prepend(x, pred);
    assert(Seq::<T>::empty() + rest.filter(pred) =~= rest.filter(pred));
}

/// Sorting keeps every item: it neither adds, drops nor repeats one.
pub proof fn lemma_stable_sort_permutes<T: Ranked>(before: Seq<T>, after: Seq<T>)
    requires
        stable_sort(before, after),
    ensures
        after.to_multiset() == before.to_multiset(),
        after.len() == before.len(),
        forall|x: T| after.contains(x) <==> #[trigger] before.contains(x),
{
    broadcast use vstd::seq_lib::group_to_multiset_ensures;

    assert forall|x: T| after.to_multiset().count(x) == before.to_multiset().count(x) by {
        let pred = has_rank::<T>(x.rank());
        lemma_filter_count(after, pred, x);
        lemma_filter_count(before, pred, x);
        assert(of_rank(after, x.rank()) == of_rank(before, x.rank()));
    }
    assert(after.to_multiset() =~= before.to_multiset());
    after.to_multiset_ensures();
    before.to_multiset_ensures();
    assert forall|x: T| after.contains(x) <==> #[trigger] before.contains(x) by {
        let pred = has_rank::<T>(x.rank());
        lemma_filter_has(after, pred, x);
        lemma_filter_has(before, pred, x);
        assert(of_rank(after, x.rank()) == of_rank(before, x.rank()));
    }
}

/// The item at the end of a sorted sequence is the last of those with the greatest rank.
pub proof fn lemma_sorted_last<T: Ranked>(before: Seq<T>, after: Seq<T>) -> (l: int)
    requires
        stable_sort(before, after),
        before.len() > 0,
    ensures
        after.len() == before.len(),
        0 <= l < before.len(),
        after.last() == before[l],
        forall|i: int| 0 <= i < before.len() ==> (#[trigger] before[i]).rank() <= before[l].rank(),
        forall|i: int|
            l < i < before.len() ==> (#[trigger] before[i]).rank() < before[l].rank(),
{
    lemma_stable_sort_permutes(before, after);
    let x = after.last();
    let pred = has_rank::<T>(x.rank());
    lemma_filter_snoc(after, pred);
    assert(of_rank(after, x.rank()) == of_rank(before, x.rank()));
    let l = lemma_filter_last(before, pred);
    assert forall|i: int| 0 <= i < before.len() implies (#[trigger] before[i]).rank()
        <= before[l].rank() by {
        assert(before.contains(before[i]));
        let j = choose|j: int| 0 <= j < after.len() && after[j] == before[i];
        assert(after[j].rank() <= after[after.len() - 1].rank());
    }
    assert forall|i: int| l < i < before.len() implies (#[trigger] before[i]).rank()
        < before[l].rank() by {
        assert(!pred(before[i]));
    }
    l
}

/// There is one way only to sort a sequence: two outcomes of sorting it are equal.
pub proof fn law_stable_sort_is_unique<T: Ranked>(before: Seq<T>, one: Seq<T>, other: Seq<T>)
    requires
        stable_sort(before, one),
        stable_sort(before, other),
    ensures
        one == other,
{
    lemma_stable_sort_permutes(before, one);
    lemma_stable_sort_permutes(before, other);
    assert forall|rank: nat| #[trigger] of_rank(one, rank) == of_rank(other, rank) by {
        assert(of_rank(one, rank) == of_rank(before, rank));
    }
    lemma_same_groups_same_order(one, other);
}

/// Two ascending sequences with the same items of each rank are equal.
proof fn lemma_same_groups_same_order<T: Ranked>(one: Seq<T>, other: Seq<T>)
    requires
        ascending(one),
        ascending(other),
        one.len() == other.len(),
        forall|rank: nat| #[trigger] of_rank(one, rank) == of_rank(other, rank),
    ensures
        one == other,
    decreases one.len(),
{
    if one.len() == 0 {
        assert(one =~= other);
    } else {
        let a = one.last();
        let b = other.last();
        lemma_last_has_greatest_rank(one, other);
        lemma_last_has_greatest_rank(other, one);
        let group = has_rank::<T>(a.rank());
        lemma_filter_snoc(one, group);
        lemma_filter_snoc(other, group);
        assert(of_rank(one, a.rank()) == of_rank(other, a.rank()));
        assert(of_rank(one, a.rank()).last() == a);
        assert(of_rank(other, a.rank()).last() == b);
        let one2 = one.drop_last();
        let other2 = other.drop_last();
        assert forall|rank: nat| #[trigger] of_rank(one2, rank) == of_rank(other2, rank) by {
            let pred = has_rank::<T>(rank);
            lemma_filter_snoc(one, pred);
            lemma_filter_snoc(other, pred);
            assert(of_rank(one, rank) == of_rank(other, rank));
            if rank == a.rank() {
                assert(of_rank(one, rank).drop_last() =~= of_rank(one2, rank));
                assert(of_rank(other, rank).drop_last() =~= of_rank(other2, rank));
            }
        }
        lemma_same_groups_same_order(one2, other2);
        assert(one =~= one2.push(a));
        assert(other =~= other2.push(b));
    }
}

/// The rank at the end of an ascending sequence reaches every rank of a sequence with the same
/// items.
proof fn lemma_last_has_greatest_rank<T: Ranked>(one: Seq<T>, other: Seq<T>)
    requires
        one.len() > 0,
        ascending(one),
        other.len() > 0,
        forall|rank: nat| #[trigger] of_rank(one, rank) == of_rank(other, rank),
    ensures
        other.last().rank() <= one.last().rank(),
{
    let x = other.last();
    let pred = has_rank::<T>(x.rank());
    assert(other[other.len() - 1] == x);
    lemma_filter_has(other, pred, x);
    lemma_filter_has(one, pred, x);
    assert(of_rank(one, x.rank()) == of_rank(other, x.rank()));
    let i = choose|i: int| 0 <= i < one.len() && one[i] == x;
    assert(one[i].rank() <= one[one.len() - 1].rank());
}

/// `after` holds the items of `before` by descending rank, and items of equal rank in the reverse
/// of their order in `before`.
pub open spec fn descending_order<T: Ranked>(before: Seq<T>, after: Seq<T>) -> bool {
    stable_sort(before, after.reverse())
}

/// Putting items in descending order keeps every item, and the ranks never increase along them.
pub proof fn lemma_descending_order_permutes<T: Ranked>(before: Seq<T>, after: Seq<T>)
    requires
        descending_order(before, after),
    ensures
        descending(after),
        after.len() == before.len(),
        forall|x: T| after.contains(x) <==> #[trigger] before.contains(x),
{
    let t = after.reverse();
    lemma_stable_sort_permutes(before, t);
    assert forall|i: int, j: int| 0 <= i <= j < after.len() implies after[i].rank()
        >= after[j].rank() by {
        let n = after.len() as int;
        assert(t[n - 1 - j].rank() <= t[n - 1 - i].rank());
    }
    assert forall|x: T| after.contains(x) <==> #[trigger] before.contains(x) by {
        let n = after.len() as int;
        if after.contains(x) {
            let i = choose|i: int| 0 <= i < n && after[i] == x;
            assert(t[n - 1 - i] == x);
        }
        if t.contains(x) {
            let i = choose|i: int| 0 <= i < n && t[i] == x;
            assert(after[n - 1 - i] == x);
        }
    }
}

/// A sequence without items is sorted.
pub proof fn lemma_empty_is_sorted<T: Ranked>(s: Seq<T>)
    requires
        s.len() == 0,
    ensures
        stable_sort(s, s),
{
}

} // verus!
