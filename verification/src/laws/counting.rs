//! What the counted paths of an expression are.
use crate::ast::AstView;
use crate::bags::{
    distinct, joined, lemma_distinct, lemma_distinct_add, lemma_distinct_same, lemma_same_times,
    lemma_times_add, lemma_times_contains, lemma_times_empty, lemma_times_push, times,
};
use crate::canonical::{Canon, arguments, canon, canons, lemma_canons};
use crate::laws::matching::{law_comparison_swapped, upright};
use crate::laws::numbering::{
    argument_vars, law_all_uses_known, lemma_argument_vars, lemma_joined_vars, variables,
};
use crate::laws::spelling::{law_uses_have_paths, leads_to};
use crate::ops::law_op_classes_apart;
use crate::paths::{
    PathCount, Use, VarKey, VarPaths, counted, counter_items, counter_wf, lemma_counted_present,
    lemma_counter_of_var, lemma_paths_to_times, path_counts, paths_of, paths_to, used_vars,
    var_key, var_keys,
};
use vstd::prelude::*;

verus! {

/// The variables of a list of paths, each with its counted paths.
pub open spec fn listed(paths: Seq<VarPaths>) -> Seq<(VarKey, Seq<Seq<u64>>)> {
    Seq::new(paths.len(), |i: int| (var_key(paths[i].var@), counter_items(paths[i].counter@)))
}

/// The variables that some uses are of, in the order first seen, each with its counted
/// paths.
pub open spec fn listing(uses: Seq<Use>) -> Seq<(VarKey, Seq<Seq<u64>>)> {
    distinct(used_vars(uses)).map_values(
        |var: VarKey| (var, path_counts(paths_to(uses, var))),
    )
}

/// The uses fix the list: which variables it holds, in the order first seen, and of each
/// which paths, in order, and how often.
pub proof fn law_paths_listed(paths: Seq<VarPaths>, uses: Seq<Use>)
    requires
        paths_of(paths, uses),
    ensures
        listed(paths) == listing(uses),
{
    assert(var_keys(paths).len() == paths.len());
    assert forall|i: int| 0 <= i < paths.len() implies listed(paths)[i] == listing(uses)[i] by {
        lemma_counter_of_var(paths, uses, i);
        assert(var_keys(paths)[i] == var_key(paths[i].var@));
    }
    assert(listed(paths) =~= listing(uses));
}

proof fn lemma_distinct_joined(parts: Seq<Seq<VarKey>>)
    ensures
        distinct(joined(parts)) == distinct(
            joined(parts.map_values(|part: Seq<VarKey>| distinct(part))),
        ),
    decreases parts.len(),
{
    let f = |part: Seq<VarKey>| distinct(part);
    let firsts = parts.map_values(f);
    if parts.len() > 0 {
        let (a, b) = (joined(parts.drop_last()), joined(firsts.drop_last()));
        lemma_distinct_joined(parts.drop_last());
        assert(firsts.drop_last() =~= parts.drop_last().map_values(f));
        lemma_distinct_add(a, parts.last());
        lemma_distinct_add(b, distinct(parts.last()));
        lemma_distinct(parts.last());
        lemma_distinct_same(distinct(parts.last()));
    } else {
        assert(joined(parts) =~= joined(firsts));
    }
}

/// In the order first seen, what is first stands first, and what comes later never stands
/// before what came earlier.
pub proof fn law_first_seen_first(a: Seq<VarKey>, b: Seq<VarKey>)
    ensures
        a.len() > 0 ==> distinct(a).len() > 0 && distinct(a)[0] == a[0],
        distinct(a).is_prefix_of(distinct(a + b)),
        distinct(a).no_duplicates(),
        forall|var: VarKey| #[trigger] distinct(a).contains(var) <==> a.contains(var),
    decreases a.len() + b.len(),
{
    lemma_distinct(a);
    if b.len() > 0 {
        law_first_seen_first(a, b.drop_last());
        assert((a + b).drop_last() =~= a + b.drop_last());
    } else {
        assert(a + b =~= a);
        if a.len() > 0 {
            law_first_seen_first(a.drop_last(), b);
            if a.len() == 1 {
                assert(a.drop_last() =~= Seq::empty());
                assert(distinct(a.drop_last()) =~= Seq::empty());
            }
        }
    }
}

/// The variables of an expression in the order first seen.
pub open spec fn first_seen(ast: AstView) -> Seq<VarKey> {
    distinct(used_vars(canon(ast).uses))
}

/// The variables of a node stand in the order first seen going through its operands from
/// left to right, and from right to left for a "less" comparison.
pub proof fn law_order_first_seen(ast: AstView)
    requires
        !ast.is_leaf(),
    ensures
        first_seen(ast) == distinct(
            joined(upright(ast).children.map_values(|child: AstView| first_seen(child))),
        ),
{
    let x = upright(ast);
    let f = |part: Seq<VarKey>| distinct(part);
    law_op_classes_apart(ast.op.opstring());
    law_op_classes_apart(x.op.opstring());
    law_comparison_swapped(ast);
    lemma_canons(x.children);
    let operands = canons(x.children);
    lemma_joined_vars(x.op.opstring(), arguments(x.op, operands));
    lemma_argument_vars(x.op, operands);
    lemma_distinct_joined(argument_vars(operands));
    assert(argument_vars(operands).map_values(f) =~= x.children.map_values(
        |child: AstView| first_seen(child),
    ));
}

/// Whatever is known of an expression is the same each time: the hash, the variables in
/// their order, and the counted paths to each.
pub proof fn law_canon_same(a: &Canon, b: &Canon, ast: AstView)
    requires
        a.stands_for(canon(ast)),
        b.stands_for(canon(ast)),
    ensures
        a.hash == b.hash,
        listed(a.paths@) == listed(b.paths@),
{
    law_paths_listed(a.paths@, canon(ast).uses);
    law_paths_listed(b.paths@, canon(ast).uses);
}

/// All that a counter has counted.
pub open spec fn counts_total(counter: Seq<PathCount>) -> nat
    decreases counter.len(),
{
    if counter.len() == 0 {
        0
    } else {
        counts_total(counter.drop_last()) + counter.last().count as nat
    }
}

/// Each path of a counter, as often as it was counted.
spec fn expanded(counter: Seq<PathCount>) -> Seq<Seq<u64>>
    decreases counter.len(),
{
    if counter.len() == 0 {
        Seq::empty()
    } else {
        expanded(counter.drop_last()) + repeated(
            counter.last().path@,
            counter.last().count as nat,
        )
    }
}

spec fn repeated(path: Seq<u64>, n: nat) -> Seq<Seq<u64>> {
    Seq::new(n, |i: int| path)
}

proof fn lemma_repeated(path: Seq<u64>, n: nat, p: Seq<u64>)
    ensures
        times(repeated(path, n), p) == if p == path {
            n
        } else {
            0
        },
    decreases n,
{
    if n == 0 {
        lemma_times_empty(repeated(path, n), p);
    } else {
        let less = (n - 1) as nat;
        lemma_repeated(path, less, p);
        assert(repeated(path, n) =~= repeated(path, less).push(path));
        lemma_times_push(repeated(path, less), path, p);
    }
}

proof fn lemma_expanded(counter: Seq<PathCount>, p: Seq<u64>)
    ensures
        times(expanded(counter), p) == counted(counter, p),
        expanded(counter).len() == counts_total(counter),
    decreases counter.len(),
{
    if counter.len() == 0 {
        lemma_times_empty(expanded(counter), p);
    } else {
        let (front, last) = (counter.drop_last(), counter.last());
        lemma_expanded(front, p);
        lemma_repeated(last.path@, last.count as nat, p);
        lemma_times_add(expanded(front), repeated(last.path@, last.count as nat), p);
    }
}

proof fn lemma_paths_to_len(uses: Seq<Use>, var: VarKey)
    ensures
        paths_to(uses, var).len() == times(used_vars(uses), var),
    decreases uses.len(),
{
    let vars = used_vars(uses);
    if uses.len() == 0 {
        lemma_times_empty(vars, var);
    } else {
        lemma_paths_to_len(uses.drop_last(), var);
        assert(vars =~= used_vars(uses.drop_last()).push(uses.last().var));
        lemma_times_push(used_vars(uses.drop_last()), uses.last().var, var);
    }
}

/// The counts of the paths to a variable add up to its uses in the expression.
pub proof fn law_counts_add_up(result: &Canon, ast: AstView, i: int)
    requires
        result.stands_for(canon(ast)),
        0 <= i < result.paths@.len(),
    ensures
        counts_total(result.paths@[i].counter@) == times(
            variables(ast),
            var_key(result.paths@[i].var@),
        ),
{
    broadcast use vstd::seq_lib::group_to_multiset_ensures;

    let uses = canon(ast).uses;
    let (counter, var) = (result.paths@[i].counter@, var_key(result.paths@[i].var@));
    let to = paths_to(uses, var);
    lemma_counter_of_var(result.paths@, uses, i);
    assert forall|p: Seq<u64>| #[trigger] times(expanded(counter), p) == times(to, p) by {
        lemma_expanded(counter, p);
        assert(counted(counter, p) == times(to, p));
    }
    lemma_same_times(expanded(counter), to);
    lemma_expanded(counter, Seq::empty());
    assert(expanded(counter).len() == expanded(counter).to_multiset().len());
    assert(to.len() == to.to_multiset().len());
    lemma_paths_to_len(uses, var);
    law_all_uses_known(ast);
}

/// Every path to a variable ends in the variable's own step.
pub proof fn law_paths_end_in_their_variable(result: &Canon, ast: AstView, i: int, j: int)
    requires
        result.stands_for(canon(ast)),
        0 <= i < result.paths@.len(),
        0 <= j < result.paths@[i].counter@.len(),
    ensures
        leads_to(
            result.paths@[i].counter@[j].path@,
            result.paths@[i].var@.op.opstring(),
        ),
{
    let uses = canon(ast).uses;
    let (counter, var) = (result.paths@[i].counter@, var_key(result.paths@[i].var@));
    let path = counter[j].path@;
    assert(counter_wf(result.paths@[i].counter@));
    lemma_counted_present(counter, j);
    assert(counter[j].count > 0);
    lemma_counter_of_var(result.paths@, uses, i);
    assert(counted(counter, path) == times(paths_to(uses, var), path));
    lemma_paths_to_times(uses, var, path);
    lemma_times_contains(uses, Use { var, path });
    let k = choose|k: int| 0 <= k < uses.len() && uses[k] == (Use { var, path });
    law_uses_have_paths(ast);
    assert(leads_to(uses[k].path, uses[k].var.0.opstring()));
}

} // verus!
