//! Sorting by key, which keeps the order of items that have the same key.
use crate::sort::{lemma_sorted_by_key_bag, place, sorted_by_key};
use vstd::prelude::*;
use vstd::set_lib::{lemma_int_range, lemma_subset_equality, set_int_range};

verus! {

/// Whether keys only go up.
pub open spec fn keys_sorted<A>(items: Seq<(u64, A)>) -> bool {
    forall|i: int, j: int|
        0 <= i < j < items.len() ==> (#[trigger] items[i]).0 <= (#[trigger] items[j]).0
}

/// The items that have a key, in the order that they stand in.
pub open spec fn with_key<A>(items: Seq<(u64, A)>, key: u64) -> Seq<(u64, A)>
    decreases items.len(),
{
    if items.len() == 0 {
        Seq::empty()
    } else if items.last().0 == key {
        with_key(items.drop_last(), key).push(items.last())
    } else {
        with_key(items.drop_last(), key)
    }
}

proof fn lemma_place_keys<A>(items: Seq<(u64, A)>, item: (u64, A))
    requires
        keys_sorted(items),
    ensures
        keys_sorted(place(items, item)),
        place(items, item).len() == items.len() + 1,
        forall|i: int|
            0 <= i <= items.len() ==> (#[trigger] place(items, item)[i]).0 <= item.0 || (
            items.len() > 0 && place(items, item)[i].0 <= items.last().0),
    decreases items.len(),
{
    if items.len() > 0 {
        let (front, last) = (items.drop_last(), items.last());
        if last.0 > item.0 {
            assert(keys_sorted(front));
            lemma_place_keys(front, item);
            let placed = place(front, item);
            assert(place(items, item) == placed.push(last));
            assert forall|i: int| 0 <= i < placed.len() implies (#[trigger] placed[i]).0
                <= last.0 by {
                if front.len() > 0 {
                    assert(items[front.len() - 1].0 <= items[front.len() as int].0);
                }
            }
        } else {
            assert(last == items[items.len() - 1]);
            assert forall|i: int| 0 <= i < items.len() implies (#[trigger] items[i]).0
                <= item.0 by {
                if i < items.len() - 1 {
                    assert(items[i].0 <= items[items.len() - 1].0);
                }
            }
        }
    }
}

proof fn lemma_place_with_key<A>(items: Seq<(u64, A)>, item: (u64, A), key: u64)
    ensures
        with_key(place(items, item), key) == if item.0 == key {
            with_key(items, key).push(item)
        } else {
            with_key(items, key)
        },
    decreases items.len(),
{
    if items.len() == 0 {
        assert(place(items, item).drop_last() =~= items);
    } else if items.last().0 <= item.0 {
        assert(items.push(item).drop_last() =~= items);
    } else {
        lemma_place_with_key(items.drop_last(), item, key);
        assert(place(items, item).drop_last() =~= place(items.drop_last(), item));
    }
}

/// Sorting by key puts the keys in order, keeps the items, and keeps the order of
/// those that have the same key.
pub proof fn law_sorted_by_key<A>(items: Seq<(u64, A)>)
    ensures
        keys_sorted(sorted_by_key(items)),
        sorted_by_key(items).to_multiset() == items.to_multiset(),
        forall|key: u64| #[trigger]
            with_key(sorted_by_key(items), key) == with_key(items, key),
    decreases items.len(),
{
    lemma_sorted_by_key_bag(items);
    if items.len() > 0 {
        let front = items.drop_last();
        law_sorted_by_key(front);
        lemma_place_keys(sorted_by_key(front), items.last());
        assert forall|key: u64| #[trigger]
            with_key(sorted_by_key(items), key) == with_key(items, key) by {
            lemma_place_with_key(sorted_by_key(front), items.last(), key);
            assert(with_key(sorted_by_key(front), key) == with_key(front, key));
        }
    }
}

proof fn lemma_with_key_absent<A>(items: Seq<(u64, A)>, key: u64)
    requires
        forall|i: int| 0 <= i < items.len() ==> (#[trigger] items[i]).0 != key,
    ensures
        with_key(items, key).len() == 0,
    decreases items.len(),
{
    if items.len() > 0 {
        assert(items[items.len() - 1].0 != key);
        assert forall|i: int| 0 <= i < items.drop_last().len() implies (
        #[trigger] items.drop_last()[i]).0 != key by {
            assert(items[i].0 != key);
        }
        lemma_with_key_absent(items.drop_last(), key);
    }
}

proof fn lemma_last_key<A>(a: Seq<(u64, A)>, b: Seq<(u64, A)>)
    requires
        keys_sorted(b),
        a.len() > 0,
        forall|key: u64| #[trigger] with_key(a, key) == with_key(b, key),
    ensures
        b.len() > 0,
        a.last().0 <= b.last().0,
{
    let key = a.last().0;
    assert(with_key(a, key) == with_key(b, key));
    if b.len() == 0 || b.last().0 < key {
        assert forall|i: int| 0 <= i < b.len() implies (#[trigger] b[i]).0 != key by {
            if i < b.len() - 1 {
                assert(b[i].0 <= b[b.len() - 1].0);
            }
        }
        lemma_with_key_absent(b, key);
    }
}

/// There is only one way to sort by key that keeps the order of items with the same
/// key.
pub proof fn law_stable_order_unique<A>(a: Seq<(u64, A)>, b: Seq<(u64, A)>)
    requires
        keys_sorted(a),
        keys_sorted(b),
        forall|key: u64| #[trigger] with_key(a, key) == with_key(b, key),
    ensures
        a == b,
    decreases a.len(),
{
    if a.len() == 0 {
        if b.len() > 0 {
            lemma_last_key(b, a);
        }
        assert(a =~= b);
    } else {
        lemma_last_key(a, b);
        lemma_last_key(b, a);
        let key = a.last().0;
        assert(with_key(a, key) == with_key(b, key));
        assert(with_key(a, key).last() == a.last());
        assert(with_key(b, key).last() == b.last());
        assert forall|k: u64| #[trigger]
            with_key(a.drop_last(), k) == with_key(b.drop_last(), k) by {
            assert(with_key(a, k) == with_key(b, k));
            if k == key {
                assert(with_key(a.drop_last(), k) =~= with_key(a, k).drop_last());
                assert(with_key(b.drop_last(), k) =~= with_key(b, k).drop_last());
            }
        }
        assert(keys_sorted(a.drop_last()));
        assert(keys_sorted(b.drop_last()));
        law_stable_order_unique(a.drop_last(), b.drop_last());
        assert(a =~= a.drop_last().push(a.last()));
        assert(b =~= b.drop_last().push(b.last()));
    }
}

/// What is in order already stays as it is.
pub proof fn law_sorting_sorted<A>(items: Seq<(u64, A)>)
    requires
        keys_sorted(items),
    ensures
        sorted_by_key(items) == items,
{
    law_sorted_by_key(items);
    law_stable_order_unique(sorted_by_key(items), items);
}

/// Changing items but not their keys changes them in the sorted list too.
pub proof fn lemma_sorted_by_key_map<A, B>(items: Seq<(u64, A)>, f: spec_fn(A) -> B)
    ensures
        sorted_by_key(items.map_values(|item: (u64, A)| (item.0, f(item.1)))) == sorted_by_key(
            items,
        ).map_values(|item: (u64, A)| (item.0, f(item.1))),
    decreases items.len(),
{
    let g = |item: (u64, A)| (item.0, f(item.1));
    let mapped = items.map_values(g);
    if items.len() == 0 {
        assert(sorted_by_key(mapped) =~= sorted_by_key(items).map_values(g));
    } else {
        lemma_sorted_by_key_map(items.drop_last(), f);
        assert(mapped.drop_last() =~= items.drop_last().map_values(g));
        lemma_place_map(sorted_by_key(items.drop_last()), items.last(), f);
    }
}

proof fn lemma_place_map<A, B>(items: Seq<(u64, A)>, item: (u64, A), f: spec_fn(A) -> B)
    ensures
        place(
            items.map_values(|item: (u64, A)| (item.0, f(item.1))),
            (item.0, f(item.1)),
        ) == place(items, item).map_values(|item: (u64, A)| (item.0, f(item.1))),
    decreases items.len(),
{
    let g = |item: (u64, A)| (item.0, f(item.1));
    let mapped = items.map_values(g);
    let placed = place(mapped, g(item));
    if items.len() > 0 && items.last().0 > item.0 {
        lemma_place_map(items.drop_last(), item, f);
        assert(mapped.drop_last() =~= items.drop_last().map_values(g));
    }
    assert(placed =~= place(items, item).map_values(g));
}

/// Whether a list holds every position below its length once: an order in which to
/// take the elements of another list.
pub open spec fn is_order(order: Seq<int>) -> bool {
    &&& order.no_duplicates()
    &&& forall|i: int| 0 <= i < order.len() ==> 0 <= #[trigger] order[i] < order.len()
}

proof fn lemma_order_onto(order: Seq<int>, q: int)
    requires
        is_order(order),
        0 <= q < order.len(),
    ensures
        order.contains(q),
{
    broadcast use vstd::seq_lib::seq_to_set_is_finite;

    let all = set_int_range(0, order.len() as int);
    lemma_int_range(0, order.len() as int);
    order.unique_seq_to_set();
    assert(order.to_set().subset_of(all)) by {
        assert forall|x: int| order.to_set().contains(x) implies all.contains(x) by {
            assert(order.contains(x));
            let i = choose|i: int| 0 <= i < order.len() && order[i] == x;
            assert(0 <= order[i] < order.len());
        }
    }
    lemma_subset_equality(order.to_set(), all);
    assert(all.contains(q));
    assert(order.to_set().contains(q));
}

/// An order without its last entry.
spec fn shorter(order: Seq<int>) -> Seq<int> {
    Seq::new(
        (order.len() - 1) as nat,
        |i: int|
            if order[i] < order.last() {
                order[i]
            } else {
                order[i] - 1
            },
    )
}

proof fn lemma_shorter(order: Seq<int>)
    requires
        is_order(order),
        order.len() > 0,
    ensures
        is_order(shorter(order)),
{
    let (n, short) = (order.len() - 1, shorter(order));
    assert forall|i: int| 0 <= i < short.len() implies 0 <= #[trigger] short[i] < short.len() by {
        assert(order[i] != order[n]);
        assert(0 <= order[i] < order.len());
        assert(0 <= order[n] < order.len());
    }
    assert forall|i: int, j: int| 0 <= i < short.len() && 0 <= j < short.len() && i
        != j implies short[i] != short[j] by {
        assert(order[i] != order[j]);
        assert(order[i] != order[n]);
        assert(order[j] != order[n]);
    }
}

/// The elements of a list in another order are the same bag.
pub proof fn lemma_order_bag<A>(a: Seq<A>, b: Seq<A>, order: Seq<int>)
    requires
        is_order(order),
        a.len() == order.len(),
        b.len() == order.len(),
        forall|i: int| 0 <= i < a.len() ==> #[trigger] a[i] == b[order[i]],
    ensures
        a.to_multiset() == b.to_multiset(),
    decreases a.len(),
{
    broadcast use vstd::seq_lib::group_to_multiset_ensures;

    if a.len() == 0 {
        assert(a =~= b);
    } else {
        let n = a.len() - 1;
        let p = order[n];
        let (a1, b1, short) = (a.drop_last(), b.remove(p), shorter(order));
        lemma_shorter(order);
        assert forall|i: int| 0 <= i < a1.len() implies #[trigger] a1[i] == b1[short[i]] by {
            assert(order[i] != order[n]);
            assert(a[i] == b[order[i]]);
        }
        lemma_order_bag(a1, b1, short);
        assert(a =~= a1.push(a[n]));
        assert(a[n] == b[p]);
        assert(b =~= b1.insert(p, b[p]));
    }
}

/// Taking an item out of the list, where those behind it that have its key are the
/// same as it.
proof fn lemma_with_key_remove<A>(items: Seq<(u64, A)>, p: int, key: u64)
    requires
        0 <= p < items.len(),
        forall|q: int|
            p < q < items.len() && (#[trigger] items[q]).0 == items[p].0 ==> items[q] == items[p],
    ensures
        with_key(items, key) == if items[p].0 == key {
            with_key(items.remove(p), key).push(items[p])
        } else {
            with_key(items.remove(p), key)
        },
    decreases items.len(),
{
    let (front, last) = (items.drop_last(), items.last());
    if p == items.len() - 1 {
        assert(items.remove(p) =~= front);
    } else {
        assert forall|q: int|
            p < q < front.len() && (#[trigger] front[q]).0 == front[p].0 implies front[q]
            == front[p] by {
            assert(items[q].0 == items[p].0);
        }
        lemma_with_key_remove(front, p, key);
        assert(items.remove(p).drop_last() =~= front.remove(p));
        assert(items.remove(p).last() == last);
        assert(last == items[items.len() - 1]);
    }
}

proof fn lemma_with_key_order<A>(
    a: Seq<(u64, A)>,
    b: Seq<(u64, A)>,
    order: Seq<int>,
    key: u64,
)
    requires
        is_order(order),
        a.len() == order.len(),
        b.len() == order.len(),
        forall|i: int| 0 <= i < a.len() ==> #[trigger] a[i] == b[order[i]],
        forall|i: int, j: int|
            0 <= i < j < a.len() && (#[trigger] a[i]).0 == (#[trigger] a[j]).0 ==> order[i]
                < order[j] || a[i] == a[j],
    ensures
        with_key(a, key) == with_key(b, key),
    decreases a.len(),
{
    if a.len() > 0 {
        let n = a.len() - 1;
        let p = order[n];
        assert(a[n] == b[p]);
        let (a1, b1, short) = (a.drop_last(), b.remove(p), shorter(order));
        lemma_shorter(order);
        assert forall|i: int| 0 <= i < a1.len() implies #[trigger] a1[i] == b1[short[i]] by {
            assert(order[i] != order[n]);
            assert(a[i] == b[order[i]]);
        }
        assert forall|i: int, j: int|
            0 <= i < j < a1.len() && (#[trigger] a1[i]).0 == (
            #[trigger] a1[j]).0 implies short[i] < short[j] || a1[i] == a1[j] by {
            assert(a[i].0 == a[j].0);
            assert(order[i] != order[n]);
            assert(order[j] != order[n]);
        }
        lemma_with_key_order(a1, b1, short, key);
        assert forall|q: int| p < q < b.len() && (#[trigger] b[q]).0 == b[p].0 implies b[q]
            == b[p] by {
            lemma_order_onto(order, q);
            let i = choose|i: int| 0 <= i < order.len() && order[i] == q;
            assert(a[i] == b[q]);
            assert(a[i].0 == a[n].0);
        }
        lemma_with_key_remove(b, p, key);
    }
}

/// Lists that hold the same items, and in which those with the same key stand in the
/// same order unless they are the same, are the same once sorted by key.
pub proof fn law_sorted_alike<A>(a: Seq<(u64, A)>, b: Seq<(u64, A)>, order: Seq<int>)
    requires
        is_order(order),
        a.len() == order.len(),
        b.len() == order.len(),
        forall|i: int| 0 <= i < a.len() ==> #[trigger] a[i] == b[order[i]],
        forall|i: int, j: int|
            0 <= i < j < a.len() && (#[trigger] a[i]).0 == (#[trigger] a[j]).0 ==> order[i]
                < order[j] || a[i] == a[j],
    ensures
        sorted_by_key(a) == sorted_by_key(b),
{
    law_sorted_by_key(a);
    law_sorted_by_key(b);
    assert forall|key: u64| #[trigger]
        with_key(sorted_by_key(a), key) == with_key(sorted_by_key(b), key) by {
        lemma_with_key_order(a, b, order, key);
        assert(with_key(sorted_by_key(b), key) == with_key(b, key));
    }
    law_stable_order_unique(sorted_by_key(a), sorted_by_key(b));
}

} // verus!
