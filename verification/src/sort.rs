//! Putting things in order.
use crate::ast::{AstRef, AstView};
use crate::words::{in_order, lemma_word_le_total, lemma_word_order_total, word_le, word_order};
use vstd::prelude::*;
use vstd::relations::{sorted_by, total_ordering};
use vstd::seq_lib::{lemma_multiset_commutative, lemma_sorted_unique};

verus! {

/// The usual order of hashes, as a relation.
pub open spec fn hash_order() -> spec_fn(u64, u64) -> bool {
    |a: u64, b: u64| a <= b
}

/// Hashes in ascending order.
pub open spec fn sorted_hashes(hashes: Seq<u64>) -> Seq<u64> {
    hashes.sort_by(hash_order())
}

/// Spellings in ascending order.
pub open spec fn sorted_words(words: Seq<Seq<u64>>) -> Seq<Seq<u64>> {
    words.sort_by(word_order())
}

/// The spellings that a list of word lists holds.
pub open spec fn spellings(words: Seq<Vec<u64>>) -> Seq<Seq<u64>> {
    Seq::new(words.len(), |i: int| words[i]@)
}

/// Hashes are totally ordered.
pub proof fn lemma_hash_order_total()
    ensures
        total_ordering(hash_order()),
{
}

/// What two lists hold the same number of times each, they hold in the same
/// order once sorted.
pub proof fn lemma_sort_unique<A>(a: Seq<A>, b: Seq<A>, leq: spec_fn(A, A) -> bool)
    requires
        total_ordering(leq),
        a.to_multiset() == b.to_multiset(),
    ensures
        a.sort_by(leq) == b.sort_by(leq),
{
    a.lemma_sort_by_ensures(leq);
    b.lemma_sort_by_ensures(leq);
    lemma_sorted_unique(a.sort_by(leq), b.sort_by(leq), leq);
}

/// A sorted list that holds what another holds is that other one sorted.
pub proof fn lemma_sorted_is_sort<A>(a: Seq<A>, sorted: Seq<A>, leq: spec_fn(A, A) -> bool)
    requires
        total_ordering(leq),
        sorted_by(sorted, leq),
        a.to_multiset() == sorted.to_multiset(),
    ensures
        sorted == a.sort_by(leq),
{
    a.lemma_sort_by_ensures(leq);
    lemma_sorted_unique(a.sort_by(leq), sorted, leq);
}

/// Inserting into a list adds one to what it holds.
pub proof fn lemma_insert_multiset<A>(s: Seq<A>, i: int, x: A)
    requires
        0 <= i <= s.len(),
    ensures
        s.insert(i, x).to_multiset() == s.to_multiset().insert(x),
{
    broadcast use vstd::seq_lib::group_to_multiset_ensures;

}

/// Inserting an element behind those that it follows and before those that
/// follow it keeps a list sorted.
proof fn lemma_insert_sorted<A>(s: Seq<A>, i: int, x: A, leq: spec_fn(A, A) -> bool)
    requires
        sorted_by(s, leq),
        0 <= i <= s.len(),
        forall|j: int| 0 <= j < i ==> leq(#[trigger] s[j], x),
        forall|j: int| i <= j < s.len() ==> leq(x, #[trigger] s[j]),
    ensures
        sorted_by(s.insert(i, x), leq),
{
    let t = s.insert(i, x);
    assert forall|j: int, k: int| 0 <= j < k < t.len() implies #[trigger] leq(t[j], t[k]) by {
        if j < i && k < i {
            assert(leq(s[j], s[k]));
        } else if j < i && k > i {
            assert(leq(s[j], s[k - 1]));
        } else if j > i {
            assert(leq(s[j - 1], s[k - 1]));
        }
    }
}

/// Sorts hashes.
pub fn sort_hashes(hashes: &Vec<u64>) -> (sorted: Vec<u64>)
    ensures
        sorted@ == sorted_hashes(hashes@),
{
    let ghost leq = hash_order();
    let mut sorted: Vec<u64> = Vec::new();
    let mut i: usize = 0;
    assert(hashes@.take(0) =~= Seq::empty());
    while i < hashes.len()
        invariant
            i <= hashes@.len(),
            leq == hash_order(),
            sorted_by(sorted@, leq),
            sorted@.to_multiset() == hashes@.take(i as int).to_multiset(),
        decreases hashes@.len() - i,
    {
        let hash = hashes[i];
        let mut at: usize = sorted.len();
        while at > 0 && sorted[at - 1] > hash
            invariant
                at <= sorted@.len(),
                forall|j: int| at <= j < sorted@.len() ==> hash <= #[trigger] sorted@[j],
            decreases at,
        {
            at = at - 1;
        }
        proof {
            assert forall|j: int| 0 <= j < at implies leq(#[trigger] sorted@[j], hash) by {
                if j < at - 1 {
                    assert(leq(sorted@[j], sorted@[at - 1]));
                }
            }
            lemma_insert_sorted(sorted@, at as int, hash, leq);
            lemma_insert_multiset(sorted@, at as int, hash);
            lemma_insert_multiset(hashes@.take(i as int), i as int, hash);
            assert(hashes@.take(i + 1) =~= hashes@.take(i as int).insert(i as int, hash));
        }
        sorted.insert(at, hash);
        i = i + 1;
    }
    proof {
        assert(hashes@.take(hashes@.len() as int) =~= hashes@);
        lemma_hash_order_total();
        lemma_sorted_is_sort(hashes@, sorted@, leq);
    }
    sorted
}

/// Sorts spellings.
pub fn sort_words(words: Vec<Vec<u64>>) -> (sorted: Vec<Vec<u64>>)
    ensures
        spellings(sorted@) == sorted_words(spellings(words@)),
{
    let ghost leq = word_order();
    let ghost all = spellings(words@);
    let mut sorted: Vec<Vec<u64>> = Vec::new();
    let mut rest = words;
    assert(spellings(sorted@) + spellings(rest@) =~= all);
    while rest.len() > 0
        invariant
            leq == word_order(),
            sorted_by(spellings(sorted@), leq),
            (spellings(sorted@) + spellings(rest@)).to_multiset() == all.to_multiset(),
        decreases rest@.len(),
    {
        let ghost before = rest@;
        let item = match rest.pop() {
            Some(item) => item,
            None => Vec::new(),
        };
        let mut at: usize = sorted.len();
        while at > 0 && !in_order(&sorted[at - 1], &item)
            invariant
                at <= sorted@.len(),
                forall|j: int| at <= j < sorted@.len() ==> word_le(item@, #[trigger] sorted@[j]@),
            decreases at,
        {
            at = at - 1;
            proof {
                lemma_word_le_total(sorted@[at as int]@, item@);
            }
        }
        proof {
            lemma_word_order_total();
            let s = spellings(sorted@);
            assert forall|j: int| 0 <= j < at implies leq(#[trigger] s[j], item@) by {
                if j < at - 1 {
                    assert(leq(s[j], s[at - 1]));
                    assert(leq(s[at - 1], item@));
                }
            }
            assert forall|j: int| at <= j < s.len() implies leq(item@, #[trigger] s[j]) by {
                assert(word_le(item@, sorted@[j]@));
            }
            lemma_insert_sorted(s, at as int, item@, leq);
            lemma_insert_multiset(s, at as int, item@);
            assert(spellings(sorted@.insert(at as int, item)) =~= s.insert(at as int, item@));
            assert(spellings(before) =~= spellings(rest@).insert(rest@.len() as int, item@));
            lemma_insert_multiset(spellings(rest@), rest@.len() as int, item@);
            lemma_multiset_commutative(s, spellings(before));
            lemma_multiset_commutative(s.insert(at as int, item@), spellings(rest@));
            assert(s.to_multiset().add(spellings(rest@).to_multiset().insert(item@))
                =~= s.to_multiset().insert(item@).add(spellings(rest@).to_multiset()));
        }
        sorted.insert(at, item);
    }
    proof {
        assert(spellings(sorted@) + spellings(rest@) =~= spellings(sorted@));
        lemma_word_order_total();
        lemma_sorted_is_sort(all, spellings(sorted@), leq);
    }
    sorted
}

/// Puts a keyed item behind the last one whose key is not greater.
pub open spec fn place<A>(items: Seq<(u64, A)>, item: (u64, A)) -> Seq<(u64, A)>
    decreases items.len(),
{
    if items.len() == 0 {
        seq![item]
    } else if items.last().0 <= item.0 {
        items.push(item)
    } else {
        place(items.drop_last(), item).push(items.last())
    }
}

/// Keyed items in ascending order of their keys, those with the same key in the
/// order that they came in.
pub open spec fn sorted_by_key<A>(items: Seq<(u64, A)>) -> Seq<(u64, A)>
    decreases items.len(),
{
    if items.len() == 0 {
        Seq::empty()
    } else {
        place(sorted_by_key(items.drop_last()), items.last())
    }
}

/// Where [`place`] puts an item.
proof fn lemma_place_at<A>(items: Seq<(u64, A)>, item: (u64, A), at: int)
    requires
        0 <= at <= items.len(),
        forall|j: int| at <= j < items.len() ==> (#[trigger] items[j]).0 > item.0,
        at > 0 ==> items[at - 1].0 <= item.0,
    ensures
        place(items, item) == items.insert(at, item),
    decreases items.len(),
{
    if at < items.len() {
        assert(items.last() == items[items.len() - 1]);
        lemma_place_at(items.drop_last(), item, at);
        assert(items.insert(at, item) =~= items.drop_last().insert(at, item).push(items.last()));
    } else {
        assert(items.insert(at, item) =~= items.push(item));
        if items.len() == 0 {
            assert(items.push(item) =~= seq![item]);
        }
    }
}

/// Placing an item adds it to the items.
proof fn lemma_place_bag<A>(items: Seq<(u64, A)>, item: (u64, A))
    ensures
        place(items, item).to_multiset() == items.to_multiset().insert(item),
    decreases items.len(),
{
    broadcast use vstd::seq_lib::group_to_multiset_ensures;

    if items.len() == 0 {
        assert(seq![item] =~= items.push(item));
    } else if items.last().0 > item.0 {
        lemma_place_bag(items.drop_last(), item);
        assert(items =~= items.drop_last().push(items.last()));
        assert(place(items, item).to_multiset() =~= items.to_multiset().insert(item));
    }
}

/// Sorting by key keeps the items.
pub proof fn lemma_sorted_by_key_bag<A>(items: Seq<(u64, A)>)
    ensures
        sorted_by_key(items).to_multiset() == items.to_multiset(),
    decreases items.len(),
{
    broadcast use vstd::seq_lib::group_to_multiset_ensures;

    if items.len() == 0 {
        assert(sorted_by_key(items) =~= items);
    } else {
        lemma_sorted_by_key_bag(items.drop_last());
        lemma_place_bag(sorted_by_key(items.drop_last()), items.last());
        assert(items =~= items.drop_last().push(items.last()));
    }
}

/// The keyed trees that a list of keyed expressions stands for.
pub open spec fn keyed_views(items: Seq<(u64, AstRef)>) -> Seq<(u64, AstView)> {
    Seq::new(items.len(), |i: int| (items[i].0, items[i].1@))
}

/// Sorts expressions by their keys, keeping the order of those whose keys are the
/// same.
pub fn sort_by_key(items: &Vec<(u64, AstRef)>) -> (sorted: Vec<(u64, AstRef)>)
    ensures
        keyed_views(sorted@) == sorted_by_key(keyed_views(items@)),
{
    let ghost all = keyed_views(items@);
    let mut sorted: Vec<(u64, AstRef)> = Vec::new();
    let mut i: usize = 0;
    assert(keyed_views(sorted@) =~= sorted_by_key(all.take(0)));
    while i < items.len()
        invariant
            i <= items@.len(),
            all == keyed_views(items@),
            keyed_views(sorted@) == sorted_by_key(all.take(i as int)),
        decreases items@.len() - i,
    {
        let key = items[i].0;
        let item = items[i].1.clone();
        let mut at: usize = sorted.len();
        while at > 0 && sorted[at - 1].0 > key
            invariant
                at <= sorted@.len(),
                forall|j: int| at <= j < sorted@.len() ==> (#[trigger] sorted@[j]).0 > key,
            decreases at,
        {
            at = at - 1;
        }
        proof {
            let s = keyed_views(sorted@);
            assert(all.take(i + 1).drop_last() =~= all.take(i as int));
            assert(all.take(i + 1).last() == (key, item@));
            assert forall|j: int| at <= j < s.len() implies (#[trigger] s[j]).0 > key by {
                assert(sorted@[j].0 > key);
            }
            lemma_place_at(s, (key, item@), at as int);
            assert(keyed_views(sorted@.insert(at as int, (key, item))) =~= s.insert(
                at as int,
                (key, item@),
            ));
        }
        sorted.insert(at, (key, item));
        i = i + 1;
    }
    assert(all.take(items@.len() as int) =~= all);
    sorted
}

} // verus!
