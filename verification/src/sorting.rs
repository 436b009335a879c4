//! A stable insertion sort at the specification level, with the lemmas the
//! executable sorts are proved against. An element arriving later is placed
//! after every element already ordered weakly before it, so equal elements
//! keep their original order.

use vstd::prelude::*;
use vstd::multiset::Multiset;
use vstd::seq_lib::lemma_multiset_commutative;

verus! {

/// Every pair of positions is weakly ordered by `le`.
pub open spec fn sorted_by_le<T>(le: spec_fn(T, T) -> bool, s: Seq<T>) -> bool {
    forall|i: int, j: int| 0 <= i < j < s.len() ==> #[trigger] le(s[i], s[j])
}

/// `le` relates every pair, in at least one direction, and is transitive.
pub open spec fn total_preorder<T>(le: spec_fn(T, T) -> bool) -> bool {
    &&& forall|a: T, b: T| #[trigger] le(a, b) || #[trigger] le(b, a)
    &&& forall|a: T, b: T, c: T| #[trigger] le(a, b) && #[trigger] le(b, c) ==> le(a, c)
}

/// Inserts `x` after every leading element ordered weakly before it.
pub open spec fn insert_by<T>(le: spec_fn(T, T) -> bool, s: Seq<T>, x: T) -> Seq<T>
    decreases s.len(),
{
    if s.len() == 0 {
        seq![x]
    } else if le(s[0], x) {
        seq![s[0]] + insert_by(le, s.drop_first(), x)
    } else {
        seq![x] + s
    }
}

/// Stable insertion sort of `s`, processing elements left to right.
pub open spec fn sort_by_ins<T>(le: spec_fn(T, T) -> bool, s: Seq<T>) -> Seq<T>
    decreases s.len(),
{
    if s.len() == 0 {
        Seq::empty()
    } else {
        insert_by(le, sort_by_ins(le, s.drop_last()), s.last())
    }
}

/// Insertion adds exactly the new element.
pub proof fn lemma_insert_by_multiset<T>(le: spec_fn(T, T) -> bool, s: Seq<T>, x: T)
    ensures
        insert_by(le, s, x).to_multiset() =~= s.to_multiset().insert(x),
        insert_by(le, s, x).len() == s.len() + 1,
    decreases s.len(),
{
    broadcast use vstd::seq_lib::group_to_multiset_ensures;

    if s.len() == 0 {
        assert(insert_by(le, s, x) =~= Seq::empty().push(x));
        assert(Seq::<T>::empty().push(x).to_multiset() =~= Seq::<T>::empty().to_multiset().insert(
            x,
        ));
    } else if le(s[0], x) {
        lemma_insert_by_multiset(le, s.drop_first(), x);
        lemma_multiset_commutative(seq![s[0]], insert_by(le, s.drop_first(), x));
        lemma_multiset_commutative(seq![s[0]], s.drop_first());
        assert(seq![s[0]] + s.drop_first() =~= s);
    } else {
        lemma_multiset_commutative(seq![x], s);
        assert(seq![x].to_multiset() =~= Multiset::<T>::empty().insert(x));
    }
}

proof fn lemma_insert_by_elems<T>(le: spec_fn(T, T) -> bool, s: Seq<T>, x: T, i: int)
    requires
        0 <= i < insert_by(le, s, x).len(),
    ensures
        insert_by(le, s, x)[i] == x || s.contains(insert_by(le, s, x)[i]),
    decreases s.len(),
{
    if s.len() == 0 {
    } else if le(s[0], x) {
        if i > 0 {
            lemma_insert_by_elems(le, s.drop_first(), x, i - 1);
        }
    }
}

/// Insertion into an ordered run keeps it ordered.
pub proof fn lemma_insert_by_sorted<T>(le: spec_fn(T, T) -> bool, s: Seq<T>, x: T)
    requires
        total_preorder(le),
        sorted_by_le(le, s),
    ensures
        sorted_by_le(le, insert_by(le, s, x)),
    decreases s.len(),
{
    let r = insert_by(le, s, x);
    if s.len() == 0 {
    } else if le(s[0], x) {
        let rd = insert_by(le, s.drop_first(), x);
        assert(sorted_by_le(le, s.drop_first()));
        lemma_insert_by_sorted(le, s.drop_first(), x);
        assert forall|i: int, j: int| 0 <= i < j < r.len() implies #[trigger] le(r[i], r[j]) by {
            if i == 0 {
                lemma_insert_by_elems(le, s.drop_first(), x, j - 1);
                if rd[j - 1] == x {
                } else {
                    let k = choose|k: int|
                        0 <= k < s.drop_first().len() && s.drop_first()[k] == rd[j - 1];
                    assert(le(s[0], s[k + 1]));
                }
            } else {
                assert(le(rd[i - 1], rd[j - 1]));
            }
        }
    } else {
        assert(le(x, s[0]));
        assert forall|i: int, j: int| 0 <= i < j < r.len() implies #[trigger] le(r[i], r[j]) by {
            if i == 0 {
                if j > 1 {
                    assert(le(s[0], s[j - 1]));
                }
            } else {
                assert(le(s[i - 1], s[j - 1]));
            }
        }
    }
}

/// Sorting permutes: the result holds exactly the input's elements.
pub proof fn lemma_sort_by_ins_multiset<T>(le: spec_fn(T, T) -> bool, s: Seq<T>)
    ensures
        sort_by_ins(le, s).to_multiset() =~= s.to_multiset(),
        sort_by_ins(le, s).len() == s.len(),
    decreases s.len(),
{
    broadcast use vstd::seq_lib::group_to_multiset_ensures;

    if s.len() > 0 {
        lemma_sort_by_ins_multiset(le, s.drop_last());
        lemma_insert_by_multiset(le, sort_by_ins(le, s.drop_last()), s.last());
        assert(s.drop_last().push(s.last()) =~= s);
        assert(s.drop_last().push(s.last()).to_multiset() =~= s.drop_last().to_multiset().insert(
            s.last(),
        ));
    }
}

/// Sorting by a total preorder orders every pair of positions.
pub proof fn lemma_sort_by_ins_sorted<T>(le: spec_fn(T, T) -> bool, s: Seq<T>)
    requires
        total_preorder(le),
    ensures
        sorted_by_le(le, sort_by_ins(le, s)),
    decreases s.len(),
{
    if s.len() > 0 {
        lemma_sort_by_ins_sorted(le, s.drop_last());
        lemma_insert_by_sorted(le, sort_by_ins(le, s.drop_last()), s.last());
    }
}

/// The elements of the sorted sequence are the elements of the input.
pub proof fn lemma_sort_by_ins_contains<T>(le: spec_fn(T, T) -> bool, s: Seq<T>)
    ensures
        forall|x: T| s.contains(x) <==> #[trigger] sort_by_ins(le, s).contains(x),
{
    broadcast use vstd::seq_lib::group_to_multiset_ensures;

    lemma_sort_by_ins_multiset(le, s);
    assert forall|x: T| s.contains(x) <==> #[trigger] sort_by_ins(le, s).contains(x) by {
        assert(s.contains(x) <==> s.to_multiset().count(x) > 0);
        assert(sort_by_ins(le, s).contains(x) <==> sort_by_ins(le, s).to_multiset().count(x) > 0);
    }
}

/// Characterizes insertion at a known position: `x` goes at the first index
/// whose element is not ordered weakly before it.
pub proof fn lemma_insert_by_at<T>(le: spec_fn(T, T) -> bool, s: Seq<T>, x: T, k: int)
    requires
        0 <= k <= s.len(),
        forall|j: int| 0 <= j < k ==> le(#[trigger] s[j], x),
        k < s.len() ==> !le(s[k], x),
    ensures
        insert_by(le, s, x) =~= s.take(k) + seq![x] + s.skip(k),
    decreases k,
{
    if k == 0 {
        if s.len() == 0 {
            assert(insert_by(le, s, x) =~= s.take(0) + seq![x] + s.skip(0));
        }
    } else {
        assert(le(s[0], x));
        lemma_insert_by_at(le, s.drop_first(), x, k - 1);
        assert(s.drop_first().take(k - 1) =~= s.take(k).drop_first());
        assert(s.drop_first().skip(k - 1) =~= s.skip(k));
        assert(seq![s[0]] + (s.drop_first().take(k - 1) + seq![x] + s.drop_first().skip(k - 1))
            =~= s.take(k) + seq![x] + s.skip(k));
    }
}

/// One sorting step: sorting a prefix extended by one element is inserting
/// that element into the sorted prefix.
pub proof fn lemma_sort_by_ins_step<T>(le: spec_fn(T, T) -> bool, s: Seq<T>, i: int)
    requires
        0 <= i < s.len(),
    ensures
        sort_by_ins(le, s.take(i + 1)) == insert_by(le, sort_by_ins(le, s.take(i)), s[i]),
{
    assert(s.take(i + 1).drop_last() =~= s.take(i));
    assert(s.take(i + 1).last() == s[i]);
}

} // verus!
