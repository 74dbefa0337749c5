//! Sorting of owned values by a key with a total order.

use vstd::multiset::Multiset;
use vstd::prelude::*;
use vstd::relations::{sorted_by, total_ordering};

verus! {

/// A value that listings put in a fixed order, decided by its key alone.
pub trait Ranked: Sized {
    /// The part of the value that the order looks at.
    type Key;

    /// The key of this value.
    spec fn rank_key(&self) -> Self::Key;

    /// `a` is listed no later than `b`.
    spec fn key_le(a: Self::Key, b: Self::Key) -> bool;

    /// The order on keys is reflexive, antisymmetric, transitive and connected.
    proof fn lemma_key_le_total(a: Self::Key, b: Self::Key, c: Self::Key)
        ensures
            Self::key_le(a, a),
            Self::key_le(a, b) && Self::key_le(b, a) ==> a == b,
            Self::key_le(a, b) && Self::key_le(b, c) ==> Self::key_le(a, c),
            Self::key_le(a, b) || Self::key_le(b, a),
    ;

    /// Decides whether this value is listed no later than `other`.
    fn not_after(&self, other: &Self) -> (r: bool)
        ensures
            r == Self::key_le(self.rank_key(), other.rank_key()),
    ;
}

/// The order on the keys of `T`, in the form that `Seq::sort_by` takes.
pub open spec fn key_order<T: Ranked>() -> spec_fn(T::Key, T::Key) -> bool {
    |a: T::Key, b: T::Key| T::key_le(a, b)
}

/// The order on the keys of `T` is a total order.
pub proof fn lemma_key_order_total<T: Ranked>()
    ensures
        total_ordering(key_order::<T>()),
{
    let r = key_order::<T>();
    assert forall|a: T::Key| #[trigger] r(a, a) by {
        T::lemma_key_le_total(a, a, a);
    }
    assert forall|a: T::Key, b: T::Key| #[trigger] r(a, b) && #[trigger] r(b, a) implies a
        == b by {
        T::lemma_key_le_total(a, b, a);
    }
    assert forall|a: T::Key, b: T::Key, c: T::Key|
        #[trigger] r(a, b) && #[trigger] r(b, c) implies r(a, c) by {
        T::lemma_key_le_total(a, b, c);
    }
    assert forall|a: T::Key, b: T::Key| #[trigger] r(a, b) || #[trigger] r(b, a) by {
        T::lemma_key_le_total(a, b, a);
    }
}

/// The keys of a sequence of values, in the same positions.
pub open spec fn keys_of<T: Ranked>(items: Seq<T>) -> Seq<T::Key> {
    items.map_values(|x: T| x.rank_key())
}

/// What sorting by a total order keeps and what it brings: the elements are
/// the same, each as often as before, and they stand in order.
pub proof fn lemma_sort_by_listing<A>(s: Seq<A>, leq: spec_fn(A, A) -> bool)
    requires
        total_ordering(leq),
    ensures
        sorted_by(s.sort_by(leq), leq),
        s.sort_by(leq).len() == s.len(),
        s.sort_by(leq).to_multiset() == s.to_multiset(),
        forall|x: A| s.sort_by(leq).contains(x) <==> s.contains(x),
        s.no_duplicates() ==> s.sort_by(leq).no_duplicates(),
{
    broadcast use vstd::seq_lib::group_to_multiset_ensures;

    let sorted = s.sort_by(leq);
    s.lemma_sort_by_ensures(leq);
    assert(sorted.len() == s.len()) by {
        vstd::seq_lib::to_multiset_len(sorted);
        vstd::seq_lib::to_multiset_len(s);
    }
    assert forall|x: A| sorted.contains(x) <==> s.contains(x) by {
        assert(sorted.to_multiset().count(x) == s.to_multiset().count(x));
    }
    if s.no_duplicates() {
        s.lemma_multiset_has_no_duplicates();
        sorted.lemma_multiset_has_no_duplicates_conv();
    }
}

/// Puts `item` into the sorted vector `sorted`, after every value that is
/// listed no later than it.
fn insert_ranked<T: Ranked>(sorted: &mut Vec<T>, item: T)
    requires
        sorted_by(keys_of(old(sorted)@), key_order::<T>()),
    ensures
        sorted_by(keys_of(final(sorted)@), key_order::<T>()),
        exists|p: int|
            0 <= p <= old(sorted)@.len() && final(sorted)@ == #[trigger] old(sorted)@.insert(
                p,
                item,
            ),
{
    let ghost order = key_order::<T>();
    let ghost before = sorted@;
    proof {
        lemma_key_order_total::<T>();
    }
    let mut p: usize = 0;
    while p < sorted.len() && sorted[p].not_after(&item)
        invariant
            sorted@ == before,
            order == key_order::<T>(),
            0 <= p <= sorted.len(),
            forall|j: int| 0 <= j < p ==> #[trigger] order(keys_of(before)[j], item.rank_key()),
        decreases sorted.len() - p,
    {
        assert(order(keys_of(before)[p as int], item.rank_key()));
        p = p + 1;
    }
    sorted.insert(p, item);
    proof {
        let after = sorted@;
        assert(after == before.insert(p as int, item));
        let keys = keys_of(after);
        assert forall|i: int, j: int| 0 <= i < j < keys.len() implies #[trigger] order(
            keys[i],
            keys[j],
        ) by {
            let x = item.rank_key();
            if j < p {
                assert(order(keys_of(before)[i], keys_of(before)[j]));
            } else if j == p {
                assert(order(keys_of(before)[i], x));
            } else if i < p {
                assert(order(keys_of(before)[i], keys_of(before)[j - 1]));
            } else if i == p {
                // the item stopped the scan at the value now behind it
                let y = keys_of(before)[p as int];
                assert(!order(y, x));
                assert(order(x, y) || order(y, x));
                if j - 1 > p {
                    assert(order(y, keys_of(before)[j - 1]));
                    assert(order(x, y) && order(y, keys_of(before)[j - 1]));
                }
            } else {
                assert(order(keys_of(before)[i - 1], keys_of(before)[j - 1]));
            }
        }
    }
}

/// A sequence without elements holds nothing as a multiset either.
proof fn lemma_empty_to_multiset<A>(s: Seq<A>)
    requires
        s.len() == 0,
    ensures
        s.to_multiset() == Multiset::<A>::empty(),
{
    vstd::seq_lib::to_multiset_len(s);
    vstd::multiset::lemma_multiset_empty_len(s.to_multiset());
}

/// Sorts `items` by their keys.
///
/// The keys come out as `Seq::sort_by` orders them, and the values are the
/// ones that went in, each as often as it came. Values with the same key
/// come out in no stated order.
pub fn sort_ranked<T: Ranked>(items: Vec<T>) -> (out: Vec<T>)
    ensures
        keys_of(out@) == keys_of(items@).sort_by(key_order::<T>()),
        out@.to_multiset() == items@.to_multiset(),
{
    broadcast use vstd::multiset::group_multiset_axioms;

    let ghost order = key_order::<T>();
    let mut rest = items;
    let mut out: Vec<T> = Vec::new();
    proof {
        lemma_empty_to_multiset(out@);
        lemma_empty_to_multiset(keys_of(out@));
        assert(out@.to_multiset().add(rest@.to_multiset()) =~= items@.to_multiset());
        assert(keys_of(out@).to_multiset().add(keys_of(rest@).to_multiset()) =~= keys_of(
            items@,
        ).to_multiset());
    }
    while rest.len() > 0
        invariant
            sorted_by(keys_of(out@), key_order::<T>()),
            out@.to_multiset().add(rest@.to_multiset()) == items@.to_multiset(),
            keys_of(out@).to_multiset().add(keys_of(rest@).to_multiset()) == keys_of(
                items@,
            ).to_multiset(),
        decreases rest.len(),
    {
        let ghost rest_before = rest@;
        let ghost out_before = out@;
        let item = rest.pop().unwrap();
        let ghost key = item.rank_key();
        insert_ranked(&mut out, item);
        proof {
            let p = choose|p: int|
                0 <= p <= out_before.len() && out@ == #[trigger] out_before.insert(p, item);
            assert(rest_before =~= rest@.push(item));
            assert(keys_of(rest_before) =~= keys_of(rest@).push(key));
            assert(keys_of(out@) =~= keys_of(out_before).insert(p, key));
            vstd::seq_lib::to_multiset_insert(out_before, p, item);
            vstd::seq_lib::to_multiset_insert(keys_of(out_before), p, key);
            vstd::seq_lib::to_multiset_build(rest@, item);
            vstd::seq_lib::to_multiset_build(keys_of(rest@), key);
            assert(out@.to_multiset().add(rest@.to_multiset()) =~= out_before.to_multiset().add(
                rest_before.to_multiset(),
            ));
            assert(keys_of(out@).to_multiset().add(keys_of(rest@).to_multiset()) =~= keys_of(
                out_before,
            ).to_multiset().add(keys_of(rest_before).to_multiset()));
        }
    }
    proof {
        lemma_empty_to_multiset(rest@);
        lemma_empty_to_multiset(keys_of(rest@));
        assert(out@.to_multiset() =~= items@.to_multiset());
        assert(keys_of(out@).to_multiset() =~= keys_of(items@).to_multiset());
        lemma_key_order_total::<T>();
        keys_of(items@).lemma_sort_by_ensures(order);
        vstd::seq_lib::lemma_sorted_unique(keys_of(out@), keys_of(items@).sort_by(order), order);
    }
    out
}

} // verus!
