//! Lists compared by what they hold, in whatever order.
use vstd::prelude::*;
use vstd::seq_lib::lemma_multiset_commutative;

verus! {

/// The elements of a list without repetitions, in the order first seen.
pub open spec fn distinct<A>(s: Seq<A>) -> Seq<A>
    decreases s.len(),
{
    if s.len() == 0 {
        Seq::empty()
    } else if distinct(s.drop_last()).contains(s.last()) {
        distinct(s.drop_last())
    } else {
        distinct(s.drop_last()).push(s.last())
    }
}

/// How often a list holds an element.
pub open spec fn times<A>(s: Seq<A>, x: A) -> nat {
    s.to_multiset().count(x)
}

pub proof fn lemma_times_empty<A>(s: Seq<A>, x: A)
    requires
        s.len() == 0,
    ensures
        times(s, x) == 0,
{
    broadcast use vstd::seq_lib::group_to_multiset_ensures;

    assert(!s.contains(x));
}

pub proof fn lemma_times_push<A>(s: Seq<A>, y: A, x: A)
    ensures
        times(s.push(y), x) == times(s, x) + if x == y {
            1nat
        } else {
            0nat
        },
{
    broadcast use vstd::seq_lib::group_to_multiset_ensures;

}

pub proof fn lemma_times_add<A>(a: Seq<A>, b: Seq<A>, x: A)
    ensures
        times(a + b, x) == times(a, x) + times(b, x),
{
    lemma_multiset_commutative(a, b);
}

pub proof fn lemma_times_contains<A>(s: Seq<A>, x: A)
    ensures
        s.contains(x) <==> times(s, x) > 0,
        times(s, x) <= s.len(),
{
    broadcast use vstd::seq_lib::group_to_multiset_ensures;
    broadcast use vstd::multiset::group_multiset_axioms;

    assert(s.to_multiset().count(x) <= s.to_multiset().len());
}

/// Lists that hold the same elements the same number of times are the same bag.
pub proof fn lemma_same_times<A>(a: Seq<A>, b: Seq<A>)
    requires
        forall|x: A| #[trigger] times(a, x) == times(b, x),
    ensures
        a.to_multiset() == b.to_multiset(),
{
    assert forall|x: A| a.to_multiset().count(x) == b.to_multiset().count(x) by {
        assert(times(a, x) == times(b, x));
    }
    assert(a.to_multiset() =~= b.to_multiset());
}

pub proof fn lemma_distinct<A>(s: Seq<A>)
    ensures
        distinct(s).no_duplicates(),
        forall|x: A| #[trigger] distinct(s).contains(x) <==> s.contains(x),
    decreases s.len(),
{
    if s.len() > 0 {
        let front = s.drop_last();
        lemma_distinct(front);
        assert(s =~= front.push(s.last()));
        assert forall|x: A| #[trigger] distinct(s).contains(x) <==> s.contains(x) by {
            assert(distinct(front).contains(x) <==> front.contains(x));
            if front.contains(x) {
                let i = choose|i: int| 0 <= i < front.len() && front[i] == x;
                assert(s[i] == x);
                let j = choose|j: int| 0 <= j < distinct(front).len() && distinct(front)[j] == x;
                assert(distinct(s)[j] == x);
            }
            if x == s.last() {
                assert(s[s.len() - 1] == x);
                if !distinct(front).contains(x) {
                    assert(distinct(s)[distinct(front).len() as int] == x);
                }
            }
            if s.contains(x) && x != s.last() {
                let i = choose|i: int| 0 <= i < s.len() && s[i] == x;
                assert(front[i] == x);
            }
            if distinct(s).contains(x) && x != s.last() {
                let j = choose|j: int| 0 <= j < distinct(s).len() && distinct(s)[j] == x;
                assert(distinct(front)[j] == x);
            }
        }
    }
}

/// A list without repetitions stays as it is.
pub proof fn lemma_distinct_same<A>(s: Seq<A>)
    requires
        s.no_duplicates(),
    ensures
        distinct(s) == s,
    decreases s.len(),
{
    if s.len() > 0 {
        let front = s.drop_last();
        lemma_distinct_same(front);
        if front.contains(s.last()) {
            let i = choose|i: int| 0 <= i < front.len() && front[i] == s.last();
            assert(s[i] == s[s.len() - 1]);
        }
        assert(s =~= front.push(s.last()));
    } else {
        assert(distinct(s) =~= s);
    }
}

proof fn lemma_distinct_add_front<A>(a: Seq<A>, b: Seq<A>)
    ensures
        distinct(a + b) == distinct(distinct(a) + b),
    decreases b.len(),
{
    if b.len() == 0 {
        lemma_distinct(a);
        lemma_distinct_same(distinct(a));
        assert(a + b =~= a);
        assert(distinct(a) + b =~= distinct(a));
    } else {
        lemma_distinct_add_front(a, b.drop_last());
        assert((a + b).drop_last() =~= a + b.drop_last());
        assert((distinct(a) + b).drop_last() =~= distinct(a) + b.drop_last());
    }
}

/// Joining two lists and leaving out repetitions is the same where repetitions have
/// been left out of each before.
pub proof fn lemma_distinct_add<A>(a: Seq<A>, b: Seq<A>)
    ensures
        distinct(a + b) == distinct(distinct(a) + distinct(b)),
    decreases b.len(),
{
    let d = distinct(a);
    if b.len() == 0 {
        lemma_distinct_add_front(a, b);
    } else {
        let (front, x) = (b.drop_last(), b.last());
        lemma_distinct_add(a, front);
        assert((a + b).drop_last() =~= a + front);
        assert((a + b).last() == x);
        lemma_distinct(front);
        lemma_distinct(a + front);
        if distinct(front).contains(x) {
            assert(front.contains(x));
            let i = choose|i: int| 0 <= i < front.len() && front[i] == x;
            assert((a + front)[a.len() + i] == x);
            assert(distinct(a + front).contains(x));
        } else {
            assert((d + distinct(b)).drop_last() =~= d + distinct(front));
            assert((d + distinct(b)).last() == x);
        }
    }
}

/// Lists without repetitions that hold the same elements are the same bag.
pub proof fn lemma_same_elements<A>(a: Seq<A>, b: Seq<A>)
    requires
        a.no_duplicates(),
        b.no_duplicates(),
        forall|x: A| #[trigger] a.contains(x) <==> b.contains(x),
    ensures
        a.to_multiset() == b.to_multiset(),
{
    a.lemma_multiset_has_no_duplicates();
    b.lemma_multiset_has_no_duplicates();
    assert forall|x: A| #[trigger] times(a, x) == times(b, x) by {
        lemma_times_contains(a, x);
        lemma_times_contains(b, x);
        assert(a.contains(x) <==> b.contains(x));
        if a.contains(x) {
            assert(a.to_multiset().contains(x));
            assert(b.to_multiset().contains(x));
        }
    }
    lemma_same_times(a, b);
}

/// Applying a function to every element of the same bag gives the same bag.
pub proof fn lemma_map_bag<A, B>(a: Seq<A>, b: Seq<A>, f: spec_fn(A) -> B)
    requires
        a.to_multiset() == b.to_multiset(),
    ensures
        a.map_values(f).to_multiset() == b.map_values(f).to_multiset(),
    decreases a.len(),
{
    broadcast use vstd::seq_lib::group_to_multiset_ensures;

    assert(a.len() == a.to_multiset().len() == b.len());
    if a.len() == 0 {
        assert(a.map_values(f) =~= b.map_values(f));
    } else {
        let x = a.last();
        assert(a[a.len() - 1] == x);
        assert(a.contains(x));
        assert(b.to_multiset().count(x) > 0);
        assert(b.contains(x));
        let i = choose|i: int| 0 <= i < b.len() && b[i] == x;
        let a1 = a.remove(a.len() - 1);
        let b1 = b.remove(i);
        assert(a1.to_multiset() =~= b1.to_multiset());
        lemma_map_bag(a1, b1, f);
        assert(a.map_values(f) =~= a1.map_values(f).insert(a.len() - 1, f(x)));
        assert(b.map_values(f) =~= b1.map_values(f).insert(i, f(x)));
    }
}

/// An element is held as often as its image, where no other element has that image.
pub proof fn lemma_map_times<A, B>(s: Seq<A>, f: spec_fn(A) -> B, x: A)
    requires
        forall|y: A| #[trigger] f(y) == f(x) ==> y == x,
    ensures
        times(s.map_values(f), f(x)) == times(s, x),
    decreases s.len(),
{
    if s.len() == 0 {
        lemma_times_empty(s, x);
        lemma_times_empty(s.map_values(f), f(x));
    } else {
        let front = s.drop_last();
        lemma_map_times(front, f, x);
        assert(s =~= front.push(s.last()));
        assert(s.map_values(f) =~= front.map_values(f).push(f(s.last())));
        lemma_times_push(front, s.last(), x);
        lemma_times_push(front.map_values(f), f(s.last()), f(x));
    }
}

/// The lists of a list put one after the other.
pub open spec fn joined<A>(parts: Seq<Seq<A>>) -> Seq<A>
    decreases parts.len(),
{
    if parts.len() == 0 {
        Seq::empty()
    } else {
        joined(parts.drop_last()) + parts.last()
    }
}

/// Joining lists in two parts.
pub proof fn lemma_joined_add<A>(a: Seq<Seq<A>>, b: Seq<Seq<A>>)
    ensures
        joined(a + b) == joined(a) + joined(b),
    decreases b.len(),
{
    if b.len() == 0 {
        assert(a + b =~= a);
        assert(joined(a) + joined(b) =~= joined(a));
    } else {
        lemma_joined_add(a, b.drop_last());
        assert((a + b).drop_last() =~= a + b.drop_last());
        assert(joined(a + b) =~= joined(a) + joined(b));
    }
}

/// Joining lists that are the same bags one by one gives the same bag.
pub proof fn lemma_joined_bags<A>(a: Seq<Seq<A>>, b: Seq<Seq<A>>)
    requires
        a.len() == b.len(),
        forall|i: int| 0 <= i < a.len() ==> (#[trigger] a[i]).to_multiset() == b[i].to_multiset(),
    ensures
        joined(a).to_multiset() == joined(b).to_multiset(),
    decreases a.len(),
{
    if a.len() > 0 {
        let k = a.len() - 1;
        assert(a[k].to_multiset() == b[k].to_multiset());
        assert forall|i: int| 0 <= i < k implies (#[trigger] a.drop_last()[i]).to_multiset()
            == b.drop_last()[i].to_multiset() by {
            assert(a[i].to_multiset() == b[i].to_multiset());
        }
        lemma_joined_bags(a.drop_last(), b.drop_last());
        lemma_multiset_commutative(joined(a.drop_last()), a.last());
        lemma_multiset_commutative(joined(b.drop_last()), b.last());
    }
}

/// Joining all lists but one, and that one, gives the bag that joining all gives.
proof fn lemma_joined_remove<A>(a: Seq<Seq<A>>, i: int)
    requires
        0 <= i < a.len(),
    ensures
        joined(a).to_multiset() == joined(a.remove(i)).to_multiset().add(a[i].to_multiset()),
    decreases a.len(),
{
    lemma_multiset_commutative(joined(a.drop_last()), a.last());
    if i == a.len() - 1 {
        assert(a.remove(i) =~= a.drop_last());
    } else {
        lemma_joined_remove(a.drop_last(), i);
        let b = a.remove(i);
        assert(b.drop_last() =~= a.drop_last().remove(i));
        assert(b.last() == a.last());
        lemma_multiset_commutative(joined(b.drop_last()), b.last());
        assert(joined(a).to_multiset() =~= joined(b).to_multiset().add(a[i].to_multiset()));
    }
}

/// Joining the same bag of lists gives the same bag.
pub proof fn lemma_joined_bag<A>(a: Seq<Seq<A>>, b: Seq<Seq<A>>)
    requires
        a.to_multiset() == b.to_multiset(),
    ensures
        joined(a).to_multiset() == joined(b).to_multiset(),
    decreases a.len(),
{
    broadcast use vstd::seq_lib::group_to_multiset_ensures;

    assert(a.len() == a.to_multiset().len() == b.len());
    if a.len() > 0 {
        let k = a.len() - 1;
        let x = a[k];
        assert(a.contains(x));
        assert(b.to_multiset().count(x) > 0);
        assert(b.contains(x));
        let i = choose|i: int| 0 <= i < b.len() && b[i] == x;
        assert(a.remove(k).to_multiset() =~= b.remove(i).to_multiset());
        lemma_joined_bag(a.remove(k), b.remove(i));
        lemma_joined_remove(a, k);
        lemma_joined_remove(b, i);
    } else {
        assert(a =~= b);
    }
}

/// What one of the lists holds, joining them holds.
pub proof fn lemma_joined_contains<A>(parts: Seq<Seq<A>>, i: int, k: int)
    requires
        0 <= i < parts.len(),
        0 <= k < parts[i].len(),
    ensures
        joined(parts).contains(parts[i][k]),
    decreases parts.len(),
{
    let front = joined(parts.drop_last());
    if i == parts.len() - 1 {
        assert(joined(parts)[front.len() + k] == parts[i][k]);
    } else {
        lemma_joined_contains(parts.drop_last(), i, k);
        let m = choose|m: int| 0 <= m < front.len() && front[m] == parts[i][k];
        assert(joined(parts)[m] == parts[i][k]);
    }
}

/// The joined list holds an element at least as often as each of the lists.
pub proof fn lemma_joined_times<A>(parts: Seq<Seq<A>>, i: int, x: A)
    requires
        0 <= i < parts.len(),
    ensures
        times(parts[i], x) <= times(joined(parts), x),
    decreases parts.len(),
{
    let front = parts.drop_last();
    lemma_times_add(joined(front), parts.last(), x);
    if i < parts.len() - 1 {
        lemma_joined_times(front, i, x);
    }
}

/// What holds of every element of the lists holds of every element of the joined list.
pub proof fn lemma_joined_all<A>(parts: Seq<Seq<A>>, good: spec_fn(A) -> bool)
    requires
        forall|i: int, k: int|
            0 <= i < parts.len() && 0 <= k < parts[i].len() ==> good(#[trigger] parts[i][k]),
    ensures
        forall|m: int| 0 <= m < joined(parts).len() ==> good(#[trigger] joined(parts)[m]),
    decreases parts.len(),
{
    if parts.len() > 0 {
        let front = parts.drop_last();
        assert forall|i: int, k: int|
            0 <= i < front.len() && 0 <= k < front[i].len() implies good(
            #[trigger] front[i][k],
        ) by {
            assert(good(parts[i][k]));
        }
        lemma_joined_all(front, good);
        let n = joined(front).len();
        assert forall|m: int| 0 <= m < joined(parts).len() implies good(
            #[trigger] joined(parts)[m],
        ) by {
            if m < n {
                assert(joined(parts)[m] == joined(front)[m]);
            } else {
                assert(joined(parts)[m] == parts[parts.len() - 1][m - n]);
            }
        }
    }
}

} // verus!
