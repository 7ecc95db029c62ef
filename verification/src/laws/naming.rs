//! What the uses of variables show once the names are gone.
use crate::bags::{
    distinct, lemma_distinct, lemma_map_bag, lemma_same_elements, lemma_same_times, times,
};
use crate::paths::{
    Use, VarKey, counter_of, counter_spelling, lemma_paths_to_times, nameless, path_counts,
    paths_to, used_vars,
};
use crate::sort::lemma_sort_unique;
use crate::words::{lemma_word_order_total, word_order};
use vstd::prelude::*;

verus! {

/// A use of one variable as a use of another.
pub open spec fn renaming(names: spec_fn(VarKey) -> VarKey) -> spec_fn(Use) -> Use {
    |u: Use| Use { var: names(u.var), path: u.path }
}

/// Whether different variables that are used get different names.
pub open spec fn apart(names: spec_fn(VarKey) -> VarKey, uses: Seq<Use>) -> bool {
    forall|i: int, j: int|
        0 <= i < uses.len() && 0 <= j < uses.len() && names((#[trigger] uses[i]).var) == names(
            (#[trigger] uses[j]).var,
        ) ==> uses[i].var == uses[j].var
}

/// The same paths in any order are counted the same.
pub proof fn lemma_counter_bag(a: Seq<Seq<u64>>, b: Seq<Seq<u64>>)
    requires
        a.to_multiset() == b.to_multiset(),
    ensures
        counter_spelling(a) == counter_spelling(b),
{
    broadcast use vstd::seq_lib::group_to_multiset_ensures;

    lemma_distinct(a);
    lemma_distinct(b);
    assert forall|p: Seq<u64>| #[trigger] distinct(a).contains(p) <==> distinct(b).contains(p) by {
        assert(a.contains(p) <==> a.to_multiset().count(p) > 0);
        assert(b.contains(p) <==> b.to_multiset().count(p) > 0);
    }
    lemma_same_elements(distinct(a), distinct(b));
    lemma_word_order_total();
    lemma_sort_unique(distinct(a), distinct(b), word_order());
    assert(path_counts(a) =~= path_counts(b));
}

/// The order of uses does not show.
pub proof fn lemma_nameless_bag(a: Seq<Use>, b: Seq<Use>)
    requires
        a.to_multiset() == b.to_multiset(),
    ensures
        nameless(a) == nameless(b),
{
    broadcast use vstd::seq_lib::group_to_multiset_ensures;

    let var = |u: Use| u.var;
    lemma_map_bag(a, b, var);
    assert(used_vars(a) =~= a.map_values(var));
    assert(used_vars(b) =~= b.map_values(var));
    let (va, vb) = (distinct(used_vars(a)), distinct(used_vars(b)));
    lemma_distinct(used_vars(a));
    lemma_distinct(used_vars(b));
    assert forall|v: VarKey| #[trigger] va.contains(v) <==> vb.contains(v) by {
        assert(used_vars(a).contains(v) <==> used_vars(a).to_multiset().count(v) > 0);
        assert(used_vars(b).contains(v) <==> used_vars(b).to_multiset().count(v) > 0);
    }
    lemma_same_elements(va, vb);
    assert forall|v: VarKey| #[trigger] counter_of(a)(v) == counter_of(b)(v) by {
        assert forall|p: Seq<u64>| #[trigger] times(paths_to(a, v), p) == times(
            paths_to(b, v),
            p,
        ) by {
            lemma_paths_to_times(a, v, p);
            lemma_paths_to_times(b, v, p);
        }
        lemma_same_times(paths_to(a, v), paths_to(b, v));
        lemma_counter_bag(paths_to(a, v), paths_to(b, v));
    }
    lemma_map_bag(va, vb, counter_of(a));
    assert(vb.map_values(counter_of(a)) =~= vb.map_values(counter_of(b)));
    lemma_word_order_total();
    lemma_sort_unique(va.map_values(counter_of(a)), vb.map_values(counter_of(b)), word_order());
}

proof fn lemma_paths_renamed(uses: Seq<Use>, names: spec_fn(VarKey) -> VarKey, i: int, n: int)
    requires
        apart(names, uses),
        0 <= i < uses.len(),
        0 <= n <= uses.len(),
    ensures
        paths_to(uses.take(n).map_values(renaming(names)), names(uses[i].var)) == paths_to(
            uses.take(n),
            uses[i].var,
        ),
    decreases n,
{
    let front = uses.take(n);
    let renamed = front.map_values(renaming(names));
    if n > 0 {
        lemma_paths_renamed(uses, names, i, n - 1);
        assert(front.drop_last() =~= uses.take(n - 1));
        assert(renamed.drop_last() =~= uses.take(n - 1).map_values(renaming(names)));
        assert(front.last() == uses[n - 1]);
        assert(renamed.last() == renaming(names)(uses[n - 1]));
        assert(names(uses[n - 1].var) == names(uses[i].var) <==> uses[n - 1].var == uses[i].var);
    } else {
        assert(renamed =~= Seq::empty());
        assert(front =~= Seq::empty());
    }
}

proof fn lemma_distinct_renamed(uses: Seq<Use>, names: spec_fn(VarKey) -> VarKey, n: int)
    requires
        apart(names, uses),
        0 <= n <= uses.len(),
    ensures
        distinct(used_vars(uses.take(n).map_values(renaming(names)))) == distinct(
            used_vars(uses.take(n)),
        ).map_values(names),
    decreases n,
{
    let vars = used_vars(uses.take(n));
    let renamed = used_vars(uses.take(n).map_values(renaming(names)));
    if n > 0 {
        lemma_distinct_renamed(uses, names, n - 1);
        let before = used_vars(uses.take(n - 1));
        assert(vars.drop_last() =~= before);
        assert(renamed.drop_last() =~= used_vars(
            uses.take(n - 1).map_values(renaming(names)),
        ));
        let last = uses[n - 1].var;
        assert(vars.last() == last);
        assert(renamed.last() == names(last));
        lemma_distinct(before);
        let d = distinct(before);
        let e = d.map_values(names);
        if d.contains(last) {
            let k = choose|k: int| 0 <= k < d.len() && d[k] == last;
            assert(e[k] == names(last));
        }
        if e.contains(names(last)) {
            let k = choose|k: int| 0 <= k < e.len() && e[k] == names(last);
            assert(d.contains(d[k]));
            assert(before.contains(d[k]));
            let m = choose|m: int| 0 <= m < before.len() && before[m] == d[k];
            assert(before[m] == uses[m].var);
            assert(names(uses[m].var) == names(uses[n - 1].var));
            assert(d.contains(last));
        }
        assert(distinct(renamed) =~= distinct(vars).map_values(names));
    } else {
        assert(vars =~= Seq::empty());
        assert(renamed =~= Seq::empty());
        assert(distinct(renamed) =~= distinct(vars).map_values(names));
    }
}

/// The names of variables do not show, as long as different variables keep
/// different names.
pub proof fn lemma_nameless_renamed(uses: Seq<Use>, names: spec_fn(VarKey) -> VarKey)
    requires
        apart(names, uses),
    ensures
        nameless(uses.map_values(renaming(names))) == nameless(uses),
{
    let renamed = uses.map_values(renaming(names));
    let n = uses.len() as int;
    assert(uses.take(n) =~= uses);
    lemma_distinct_renamed(uses, names, n);
    let d = distinct(used_vars(uses));
    lemma_distinct(used_vars(uses));
    assert forall|k: int| 0 <= k < d.len() implies #[trigger] counter_of(uses)(d[k]) == counter_of(
        renamed,
    )(names(d[k])) by {
        assert(d.contains(d[k]));
        assert(used_vars(uses).contains(d[k]));
        let m = choose|m: int| 0 <= m < uses.len() && used_vars(uses)[m] == d[k];
        lemma_paths_renamed(uses, names, m, n);
    }
    assert(d.map_values(names).map_values(counter_of(renamed)) =~= d.map_values(counter_of(uses)));
}

} // verus!
