//! Facts about sequences.

use vstd::prelude::*;

verus! {

/// Filtering one more item.
pub proof fn lemma_filter_snoc<A>(s: Seq<A>, pred: spec_fn(A) -> bool)
    requires
        s.len() > 0,
    ensures
        s.filter(pred) == if pred(s.last()) {
            s.drop_last().filter(pred).push(s.last())
        } else {
            s.drop_last().filter(pred)
        },
{
    reveal(Seq::filter);
}

/// An item is in a filtered sequence if it is in the sequence and passes the filter.
pub proof fn lemma_filter_has<A>(s: Seq<A>, pred: spec_fn(A) -> bool, x: A)
    ensures
        s.filter(pred).contains(x) <==> s.contains(x) && pred(x),
    decreases s.len(),
{
    if s.len() > 0 {
        lemma_filter_snoc(s, pred);
        lemma_filter_has(s.drop_last(), pred, x);
        let t = s.drop_last().filter(pred);
        assert(s.contains(x) <==> s.drop_last().contains(x) || x == s.last()) by {
            if s.drop_last().contains(x) {
                let i = choose|i: int| 0 <= i < s.drop_last().len() && s.drop_last()[i] == x;
                assert(s[i] == x);
            }
            if s.contains(x) && x != s.last() {
                let i = choose|i: int| 0 <= i < s.len() && s[i] == x;
                assert(s.drop_last()[i] == x);
            }
            assert(s[s.len() - 1] == s.last());
        }
        if pred(s.last()) {
            let u = t.push(s.last());
            assert(u.contains(x) <==> t.contains(x) || x == s.last()) by {
                if t.contains(x) {
                    let i = choose|i: int| 0 <= i < t.len() && t[i] == x;
                    assert(u[i] == x);
                }
                assert(u[u.len() - 1] == s.last());
                if u.contains(x) && x != s.last() {
                    let i = choose|i: int| 0 <= i < u.len() && u[i] == x;
                    assert(t[i] == x);
                }
            }
        }
    } else {
        reveal(Seq::filter);
    }
}

/// A filter keeps each occurrence of an item that passes it.
pub proof fn lemma_filter_count<A>(s: Seq<A>, pred: spec_fn(A) -> bool, x: A)
    ensures
        s.filter(pred).to_multiset().count(x) == if pred(x) {
            s.to_multiset().count(x)
        } else {
            0
        },
    decreases s.len(),
{
    broadcast use vstd::seq_lib::group_to_multiset_ensures;

    if s.len() > 0 {
        lemma_filter_snoc(s, pred);
        lemma_filter_count(s.drop_last(), pred, x);
        assert(s =~= s.drop_last().push(s.last()));
    } else {
        reveal(Seq::filter);
        assert(s.filter(pred) =~= Seq::<A>::empty());
        assert(s =~= Seq::<A>::empty());
    }
}

/// The last item that passes a filter: it stands somewhere in the sequence, and no item after it
/// passes.
pub proof fn lemma_filter_last<A>(s: Seq<A>, pred: spec_fn(A) -> bool) -> (l: int)
    requires
        s.filter(pred).len() > 0,
    ensures
        0 <= l < s.len(),
        s[l] == s.filter(pred).last(),
        pred(s[l]),
        forall|i: int| l < i < s.len() ==> !pred(#[trigger] s[i]),
    decreases s.len(),
{
    reveal(Seq::filter);
    if pred(s.last()) {
        s.len() - 1
    } else {
        let t = s.drop_last();
        let l = lemma_filter_last(t, pred);
        assert forall|i: int| l < i < s.len() implies !pred(#[trigger] s[i]) by {
            if i < t.len() {
                assert(t[i] == s[i]);
            }
        }
        l
    }
}

/// The place of an item that passes a filter: as many items stand before it afterwards as pass
/// before it.
pub proof fn lemma_filter_place<A>(s: Seq<A>, pred: spec_fn(A) -> bool, i: int)
    requires
        0 <= i < s.len(),
        pred(s[i]),
    ensures
        s.take(i).filter(pred).len() < s.filter(pred).len(),
        s.filter(pred)[s.take(i).filter(pred).len() as int] == s[i],
    decreases s.len(),
{
    lemma_filter_snoc(s, pred);
    let t = s.drop_last();
    if i == s.len() - 1 {
        assert(s.take(i) =~= t);
    } else {
        assert(t.take(i) =~= s.take(i));
        assert(t[i] == s[i]);
        lemma_filter_place(t, pred, i);
    }
}

/// Tests that agree on the items of a sequence filter it alike.
pub proof fn lemma_filter_agrees<A>(s: Seq<A>, one: spec_fn(A) -> bool, other: spec_fn(A) -> bool)
    requires
        forall|i: int| 0 <= i < s.len() ==> one(#[trigger] s[i]) == other(s[i]),
    ensures
        s.filter(one) == s.filter(other),
    decreases s.len(),
{
    reveal(Seq::filter);
    if s.len() > 0 {
        let t = s.drop_last();
        assert forall|i: int| 0 <= i < t.len() implies one(#[trigger] t[i]) == other(t[i]) by {
            assert(t[i] == s[i]);
        }
        lemma_filter_agrees(t, one, other);
        assert(one(s[s.len() - 1]) == other(s[s.len() - 1]));
    }
}

/// What passes a filter of a reversed sequence is what passes, reversed.
pub proof fn lemma_filter_reverse<A>(s: Seq<A>, pred: spec_fn(A) -> bool)
    ensures
        s.reverse().filter(pred) == s.filter(pred).reverse(),
    decreases s.len(),
{
    if s.len() == 0 {
        reveal(Seq::filter);
        assert(s.reverse().filter(pred) =~= s.filter(pred).reverse());
    } else {
        let t = s.drop_last();
        let x = s.last();
        lemma_filter_reverse(t, pred);
        lemma_filter_snoc(s, pred);
        assert(s.reverse() =~= seq![x] + t.reverse());
        t.reverse().lemma_filter_prepend(x, pred);
        if pred(x) {
            assert(t.filter(pred).push(x).reverse() =~= seq![x] + t.filter(pred).reverse());
        } else {
            assert(Seq::<A>::empty() + t.reverse().filter(pred) =~= t.reverse().filter(pred));
        }
    }
}

} // verus!
