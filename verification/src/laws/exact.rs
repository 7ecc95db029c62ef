//! Just which expressions are hashed the same.
use crate::ast::{AstView, OpView};
use crate::bags::{
    distinct, lemma_distinct, lemma_map_bag, lemma_map_times, lemma_same_times,
    lemma_times_contains, lemma_times_empty, lemma_times_push, times,
};
use crate::canonical::{
    argument_hashes, canon, canons, countable, lemma_canons, numbers_after, numbers_before,
};
use crate::laws::hashing::{
    law_numbers_tell_apart, lemma_hashes_below, lemma_written_hashes, written_hashes,
};
use crate::laws::naming::{lemma_counter_bag, lemma_nameless_bag};
use crate::laws::spelling::{
    hash_input, is_path, law_counter_read_back, law_leaf_read_back, law_node_read_back,
    law_path_read_back, path_spelling,
};
use crate::laws::tables::law_op_classes;
use crate::laws::walks::{
    Step, Walk, as_use, law_uses_are_walks, law_walks_told_apart, step_down, walks, walks_below,
    walks_from,
};
use crate::ops::{symbol_op, value_op};
use crate::paths::{Use, VarKey, counter_of, counter_spelling, nameless, paths_to, used_vars};
use crate::sort::{hash_order, lemma_hash_order_total, lemma_sort_unique, sorted_words};
use crate::words::{
    debug_hash, lemma_word_order_total, text_spelling, word_bytes, word_hash, word_order,
};
use std::collections::hash_map::DefaultHasher;
use vstd::multiset::Multiset;
use vstd::prelude::*;
use vstd::seq_lib::lemma_multiset_commutative;
use vstd::std_specs::hash::DefaultHasherAdditionalSpecFns;

verus! {

/// The hash of words: what the default hasher makes of their bytes.
pub open spec fn digest(words: Seq<u64>) -> u64 {
    DefaultHasher::spec_finish(seq![word_bytes(words)])
}

/// The hashes of what an operator has besides operands, as far as a hash looks at it: the
/// amount of an extension, both positions of an extraction, and a rounding mode.
pub open spec fn field_hashes(op: OpView) -> Seq<u64> {
    match op {
        OpView::ZeroExt(amount) => seq![digest(seq![amount as u64])],
        OpView::SignExt(amount) => seq![digest(seq![amount as u64])],
        OpView::Extract(end, start) => seq![digest(seq![end as u64]), digest(seq![start as u64])],
        OpView::FpAdd(rm) => seq![digest(text_spelling(rm))],
        OpView::FpSub(rm) => seq![digest(text_spelling(rm))],
        OpView::FpMul(rm) => seq![digest(text_spelling(rm))],
        OpView::FpDiv(rm) => seq![digest(text_spelling(rm))],
        OpView::FpSqrt(rm) => seq![digest(text_spelling(rm))],
        _ => Seq::empty(),
    }
}

/// The hashes of the operands of a node, and of what else it has.
pub open spec fn told(ast: AstView) -> Seq<u64> {
    field_hashes(ast.op) + ast.children.map_values(|child: AstView| canon(child).hash)
}

/// The numbers of an operator are hashed as they are, each of them.
pub proof fn law_fields_hashed(op: OpView)
    ensures
        numbers_before(op) + numbers_after(op) == field_hashes(op),
{
    assert(numbers_before(op) + numbers_after(op) =~= field_hashes(op));
}

proof fn lemma_told(ast: AstView)
    ensures
        written_hashes(ast).to_multiset() == told(ast).to_multiset(),
{
    let f = |child: AstView| canon(child).hash;
    lemma_written_hashes(ast);
    law_fields_hashed(ast.op);
    lemma_canons(ast.children);
    assert(argument_hashes(canons(ast.children)) =~= ast.children.map_values(f));
    lemma_multiset_commutative(
        field_hashes(ast.op),
        ast.children.map_values(f),
    );
}

/// The variables of some walks, one for each.
pub open spec fn walk_vars(all: Seq<Walk>) -> Seq<VarKey> {
    all.map_values(|walk: Walk| walk.0)
}

/// The steps of the walks to a variable.
pub open spec fn routes_to(all: Seq<Walk>, var: VarKey) -> Seq<Seq<Step>>
    decreases all.len(),
{
    if all.len() == 0 {
        Seq::empty()
    } else if all.last().0 == var {
        routes_to(all.drop_last(), var).push(all.last().1)
    } else {
        routes_to(all.drop_last(), var)
    }
}

/// For each variable of an expression, without its name, which walks lead to it and how
/// often each.
pub open spec fn profiles(ast: AstView) -> Seq<Multiset<Seq<Step>>> {
    distinct(walk_vars(walks(ast))).map_values(
        |var: VarKey| routes_to(walks(ast), var).to_multiset(),
    )
}

/// The spelling of steps, as a function.
spec fn spell() -> spec_fn(Seq<Step>) -> Seq<u64> {
    |steps: Seq<Step>| path_spelling(steps)
}

/// The routes that a bag holds, in some order.
spec fn in_some_order(bag: Multiset<Seq<Step>>) -> Seq<Seq<Step>> {
    choose|routes: Seq<Seq<Step>>| #[trigger] routes.to_multiset() == bag
}

/// The counted routes that a bag holds, spelled.
spec fn spelled() -> spec_fn(Multiset<Seq<Step>>) -> Seq<u64> {
    |bag: Multiset<Seq<Step>>| counter_spelling(in_some_order(bag).map_values(spell()))
}

proof fn lemma_spelled(routes: Seq<Seq<Step>>)
    ensures
        spelled()(routes.to_multiset()) == counter_spelling(routes.map_values(spell())),
{
    let bag = routes.to_multiset();
    let other = in_some_order(bag);
    assert(other.to_multiset() == bag);
    lemma_map_bag(other, routes, spell());
    lemma_counter_bag(other.map_values(spell()), routes.map_values(spell()));
}

proof fn lemma_routes(all: Seq<Walk>, var: VarKey)
    ensures
        paths_to(all.map_values(as_use()), var) == routes_to(all, var).map_values(spell()),
    decreases all.len(),
{
    let uses = all.map_values(as_use());
    if all.len() > 0 {
        lemma_routes(all.drop_last(), var);
        assert(uses.drop_last() =~= all.drop_last().map_values(as_use()));
        assert(uses.last() == as_use()(all.last()));
    }
    assert(paths_to(uses, var) =~= routes_to(all, var).map_values(spell()));
}

/// What is hashed of the variables of an expression is what its profiles spell.
proof fn lemma_nameless_profiles(ast: AstView)
    ensures
        nameless(canon(ast).uses) == sorted_words(profiles(ast).map_values(spelled())),
{
    let all = walks(ast);
    let uses = all.map_values(as_use());
    law_uses_are_walks(ast);
    lemma_nameless_bag(canon(ast).uses, uses);
    assert(used_vars(uses) =~= walk_vars(all));
    let vars = distinct(walk_vars(all));
    assert forall|i: int| 0 <= i < vars.len() implies #[trigger] vars.map_values(
        counter_of(uses),
    )[i] == profiles(ast).map_values(spelled())[i] by {
        lemma_routes(all, vars[i]);
        lemma_spelled(routes_to(all, vars[i]));
    }
    assert(vars.map_values(counter_of(uses)) =~= profiles(ast).map_values(spelled()));
}

proof fn lemma_spell_injective(a: Seq<Step>)
    ensures
        forall|b: Seq<Step>| #[trigger] spell()(b) == spell()(a) ==> b == a,
{
    assert forall|b: Seq<Step>| #[trigger] spell()(b) == spell()(a) implies b == a by {
        let none = Seq::<u64>::empty();
        assert(path_spelling(a) + none =~= path_spelling(b) + none);
        law_path_read_back(a, b, none, none);
    }
}

/// Whether no route is held more often than can be counted.
spec fn routes_fit(routes: Seq<Seq<Step>>) -> bool {
    forall|route: Seq<Step>| #[trigger] times(routes, route) <= u64::MAX
}

proof fn lemma_spelled_routes(routes: Seq<Seq<Step>>)
    requires
        routes_fit(routes),
    ensures
        forall|i: int|
            0 <= i < routes.len() ==> is_path(#[trigger] routes.map_values(spell())[i]),
        forall|p: Seq<u64>| #[trigger] times(routes.map_values(spell()), p) <= u64::MAX,
{
    let paths = routes.map_values(spell());
    assert forall|i: int| 0 <= i < routes.len() implies is_path(#[trigger] paths[i]) by {
        assert(paths[i] == path_spelling(routes[i]));
    }
    assert forall|p: Seq<u64>| #[trigger] times(paths, p) <= u64::MAX by {
        lemma_times_contains(paths, p);
        if paths.contains(p) {
            let i = choose|i: int| 0 <= i < paths.len() && paths[i] == p;
            lemma_spell_injective(routes[i]);
            lemma_map_times(routes, spell(), routes[i]);
            assert(times(routes, routes[i]) <= u64::MAX);
        }
    }
}

/// The spelling tells the routes.
proof fn lemma_spelled_injective(a: Seq<Seq<Step>>, b: Seq<Seq<Step>>)
    requires
        routes_fit(a),
        routes_fit(b),
        spelled()(a.to_multiset()) == spelled()(b.to_multiset()),
    ensures
        a.to_multiset() == b.to_multiset(),
{
    let (x, y) = (a.map_values(spell()), b.map_values(spell()));
    lemma_spelled(a);
    lemma_spelled(b);
    lemma_spelled_routes(a);
    lemma_spelled_routes(b);
    law_counter_read_back(x, y);
    assert forall|route: Seq<Step>| #[trigger] times(a, route) == times(b, route) by {
        lemma_spell_injective(route);
        lemma_map_times(a, spell(), route);
        lemma_map_times(b, spell(), route);
    }
    lemma_same_times(a, b);
}

proof fn lemma_routes_times(all: Seq<Walk>, var: VarKey, route: Seq<Step>)
    ensures
        times(routes_to(all, var), route) == times(all, (var, route)),
    decreases all.len(),
{
    if all.len() == 0 {
        lemma_times_empty(all, (var, route));
        lemma_times_empty(routes_to(all, var), route);
    } else {
        lemma_routes_times(all.drop_last(), var, route);
        assert(all =~= all.drop_last().push(all.last()));
        lemma_times_push(all.drop_last(), all.last(), (var, route));
        lemma_times_push(routes_to(all.drop_last(), var), all.last().1, route);
    }
}

/// An expression can be hashed just when no walk to any variable is there more often than
/// 64 bits can count.
pub proof fn law_countable_walks(ast: AstView)
    ensures
        countable(ast) <==> forall|walk: Walk| #[trigger] times(walks(ast), walk) <= u64::MAX,
{
    let (all, uses) = (walks(ast), canon(ast).uses);
    let mapped = all.map_values(as_use());
    law_uses_are_walks(ast);
    assert forall|walk: Walk| #[trigger] times(all, walk) == times(uses, as_use()(walk)) by {
        assert forall|other: Walk| #[trigger] as_use()(other) == as_use()(walk) implies other
            == walk by {
            law_walks_told_apart(other, walk);
        }
        lemma_map_times(all, as_use(), walk);
    }
    if countable(ast) {
        assert forall|walk: Walk| #[trigger] times(all, walk) <= u64::MAX by {
            assert(times(uses, as_use()(walk)) <= u64::MAX);
        }
    }
    if forall|walk: Walk| #[trigger] times(all, walk) <= u64::MAX {
        assert forall|u: Use| #[trigger] times(uses, u) <= u64::MAX by {
            lemma_times_contains(mapped, u);
            assert(times(mapped, u) == times(uses, u));
            if mapped.contains(u) {
                let i = choose|i: int| 0 <= i < mapped.len() && mapped[i] == u;
                assert(times(all, all[i]) == times(uses, as_use()(all[i])));
            }
        }
    }
}

/// Routes that are spelled so.
spec fn routes_spelled(words: Seq<u64>) -> Seq<Seq<Step>> {
    choose|routes: Seq<Seq<Step>>|
        routes_fit(routes) && words == spelled()(#[trigger] routes.to_multiset())
}

/// The bag of routes that a spelling spells.
spec fn unspelled() -> spec_fn(Seq<u64>) -> Multiset<Seq<Step>> {
    |words: Seq<u64>| routes_spelled(words).to_multiset()
}

proof fn lemma_profiles_unspelled(ast: AstView)
    requires
        countable(ast),
    ensures
        profiles(ast).map_values(spelled()).map_values(unspelled()) == profiles(ast),
{
    let all = walks(ast);
    let vars = distinct(walk_vars(all));
    law_countable_walks(ast);
    assert forall|i: int| 0 <= i < vars.len() implies #[trigger] profiles(ast)[i] == unspelled()(
        spelled()(profiles(ast)[i]),
    ) by {
        let routes = routes_to(all, vars[i]);
        let words = spelled()(routes.to_multiset());
        assert(routes_fit(routes)) by {
            assert forall|route: Seq<Step>| #[trigger] times(routes, route) <= u64::MAX by {
                lemma_routes_times(all, vars[i], route);
                assert(times(all, (vars[i], route)) <= u64::MAX);
            }
        }
        let other = routes_spelled(words);
        assert(routes_fit(other) && words == spelled()(other.to_multiset()));
        lemma_spelled_injective(routes, other);
    }
    assert(profiles(ast).map_values(spelled()).map_values(unspelled()) =~= profiles(ast));
}

/// The same is hashed of two nodes just when they have operands and numbers with the same
/// hashes, in whatever order, and their variables, in whatever order and whatever their
/// names, are reached by the same walks, each as often.
pub proof fn law_node_hash_exact(a: AstView, b: AstView)
    requires
        !a.is_leaf(),
        !b.is_leaf(),
        countable(a),
        countable(b),
    ensures
        hash_input(a) == hash_input(b) <==> told(a).to_multiset() == told(b).to_multiset()
            && profiles(a).to_multiset() == profiles(b).to_multiset(),
{
    let (x, y) = (profiles(a).map_values(spelled()), profiles(b).map_values(spelled()));
    lemma_told(a);
    lemma_told(b);
    lemma_hashes_below(a);
    lemma_hashes_below(b);
    lemma_nameless_profiles(a);
    lemma_nameless_profiles(b);
    lemma_hash_order_total();
    lemma_word_order_total();
    if hash_input(a) == hash_input(b) {
        law_node_read_back(a, b);
        written_hashes(a).lemma_sort_by_ensures(hash_order());
        written_hashes(b).lemma_sort_by_ensures(hash_order());
        x.lemma_sort_by_ensures(word_order());
        y.lemma_sort_by_ensures(word_order());
        lemma_map_bag(x, y, unspelled());
        lemma_profiles_unspelled(a);
        lemma_profiles_unspelled(b);
    }
    if told(a).to_multiset() == told(b).to_multiset() && profiles(a).to_multiset() == profiles(
        b,
    ).to_multiset() {
        lemma_sort_unique(written_hashes(a), written_hashes(b), hash_order());
        lemma_map_bag(profiles(a), profiles(b), spelled());
        lemma_sort_unique(x, y, word_order());
    }
}

proof fn lemma_profile_of(ast: AstView, walk: Walk)
    requires
        walks(ast).contains(walk),
    ensures
        exists|k: int|
            0 <= k < profiles(ast).len() && (#[trigger] profiles(ast)[k]).contains(walk.1),
{
    let all = walks(ast);
    let vars = distinct(walk_vars(all));
    let i = choose|i: int| 0 <= i < all.len() && all[i] == walk;
    assert(walk_vars(all)[i] == walk.0);
    assert(walk_vars(all).contains(walk.0));
    lemma_distinct(walk_vars(all));
    assert(vars.contains(walk.0));
    let k = choose|k: int| 0 <= k < vars.len() && vars[k] == walk.0;
    lemma_routes_times(all, walk.0, walk.1);
    lemma_times_contains(all, walk);
    assert(profiles(ast)[k] == routes_to(all, walk.0).to_multiset());
    assert(profiles(ast)[k].contains(walk.1));
}

proof fn lemma_walk_in_profile(ast: AstView, k: int, route: Seq<Step>)
    requires
        0 <= k < profiles(ast).len(),
        profiles(ast)[k].contains(route),
    ensures
        exists|var: VarKey| #[trigger] walks(ast).contains((var, route)),
{
    let all = walks(ast);
    let var = distinct(walk_vars(all))[k];
    lemma_routes_times(all, var, route);
    lemma_times_contains(all, (var, route));
    assert(times(routes_to(all, var), route) > 0);
    assert(all.contains((var, route)));
}

/// Where the same is hashed of two nodes, a walk that leads to a variable in one leads to
/// a variable in the other.
pub proof fn law_walks_show(a: AstView, b: AstView, walk: Walk)
    requires
        !a.is_leaf(),
        !b.is_leaf(),
        countable(a),
        countable(b),
        hash_input(a) == hash_input(b),
        walks(a).contains(walk),
    ensures
        exists|var: VarKey| #[trigger] walks(b).contains((var, walk.1)),
{
    law_node_hash_exact(a, b);
    lemma_profile_of(a, walk);
    let k = choose|k: int|
        0 <= k < profiles(a).len() && (#[trigger] profiles(a)[k]).contains(walk.1);
    let bag = profiles(a)[k];
    assert(profiles(a).contains(bag));
    lemma_times_contains(profiles(a), bag);
    lemma_times_contains(profiles(b), bag);
    assert(profiles(b).contains(bag));
    let m = choose|m: int| 0 <= m < profiles(b).len() && profiles(b)[m] == bag;
    lemma_walk_in_profile(b, m, walk.1);
}

proof fn lemma_first_step(op: OpView, n: int, asts: Seq<AstView>, walk: Walk)
    requires
        walks_below(op, n, asts).contains(walk),
    ensures
        walk.1.len() > 0,
        exists|k: int|
            0 <= k < asts.len() && (#[trigger] walks(asts[k])).len() > 0 && walk.1[0]
                == step_down(op, n, k),
    decreases asts.len(),
{
    let (front, below) = (walks_below(op, n, asts.drop_last()), walks(asts.last()));
    let i = choose|i: int|
        0 <= i < walks_below(op, n, asts).len() && walks_below(op, n, asts)[i] == walk;
    if i < front.len() {
        assert(front[i] == walk);
        lemma_first_step(op, n, asts.drop_last(), walk);
        let k = choose|k: int|
            0 <= k < asts.drop_last().len() && (#[trigger] walks(asts.drop_last()[k])).len() > 0
                && walk.1[0] == step_down(op, n, k);
        assert(asts[k] == asts.drop_last()[k]);
        assert(walks(asts[k]).len() > 0);
    } else {
        let k = asts.len() - 1;
        assert(walks(asts[k]).len() > 0);
        assert(walk == walks_from(step_down(op, n, k), below)[i - front.len()]);
    }
}

proof fn lemma_walk_through(op: OpView, n: int, asts: Seq<AstView>, k: int)
    requires
        0 <= k < asts.len(),
        walks(asts[k]).len() > 0,
    ensures
        exists|walk: Walk| #[trigger]
            walks_below(op, n, asts).contains(walk) && walk.1.len() > 0 && walk.1[0] == step_down(
                op,
                n,
                k,
            ),
    decreases asts.len(),
{
    let all = walks_below(op, n, asts);
    let front = walks_below(op, n, asts.drop_last());
    if k == asts.len() - 1 {
        let more = walks_from(step_down(op, n, k), walks(asts.last()));
        assert(all[front.len() as int] == more[0]);
        assert(all.contains(more[0]));
    } else {
        assert(asts.drop_last()[k] == asts[k]);
        lemma_walk_through(op, n, asts.drop_last(), k);
        let walk = choose|walk: Walk| #[trigger]
            front.contains(walk) && walk.1.len() > 0 && walk.1[0] == step_down(op, n, k);
        let i = choose|i: int| 0 <= i < front.len() && front[i] == walk;
        assert(all[i] == walk);
        assert(all.contains(walk));
    }
}

/// Where operand order matters, it shows: putting an operand that uses variables in the
/// place of one that uses none changes what is hashed, whatever the other operands are.
pub proof fn law_positions_show(a: AstView, b: AstView, i: int)
    requires
        !a.is_leaf(),
        !(a.op.opstring() == "__and__"@ || a.op.opstring() == "__or__"@ || a.op.opstring()
            == "__xor__"@ || a.op.opstring() == "__add__"@ || a.op.opstring() == "__mul__"@
            || a.op.opstring() == "And"@ || a.op.opstring() == "Or"@ || a.op.opstring() == "Xor"@
            || a.op.opstring() == "__eq__"@ || a.op.opstring() == "__ne__"@),
        countable(a),
        countable(b),
        a.op == b.op,
        a.children.len() == b.children.len(),
        a.children.len() + 2 <= usize::MAX,
        0 <= i < a.children.len(),
        walks(a.children[i]).len() > 0,
        walks(b.children[i]).len() == 0,
    ensures
        hash_input(a) != hash_input(b),
{
    let n = a.children.len() as int;
    law_op_classes(a.op.opstring());
    if hash_input(a) == hash_input(b) {
        lemma_walk_through(a.op, n, a.children, i);
        let walk = choose|walk: Walk| #[trigger]
            walks_below(a.op, n, a.children).contains(walk) && walk.1.len() > 0 && walk.1[0]
                == step_down(a.op, n, i);
        assert(walks(a).contains(walk));
        law_walks_show(a, b, walk);
        let var = choose|var: VarKey| #[trigger] walks(b).contains((var, walk.1));
        lemma_first_step(b.op, n, b.children, (var, walk.1));
        let k = choose|k: int|
            0 <= k < b.children.len() && (#[trigger] walks(b.children[k])).len() > 0 && walk.1[0]
                == step_down(b.op, n, k);
        assert(k != i);
        assert(step_down(a.op, n, i) != step_down(a.op, n, k));
    }
}

/// Whether two leaves are variables of the same type or the same constant. A float's type
/// or value goes by the hash of its debug output.
pub open spec fn same_leaf(a: OpView, b: OpView) -> bool {
    match (a, b) {
        (OpView::BVS(_, m), OpView::BVS(_, n)) => m == n,
        (OpView::BoolS(_), OpView::BoolS(_)) => true,
        (OpView::FPS(_, m), OpView::FPS(_, n)) => digest(text_spelling(m)) == digest(
            text_spelling(n),
        ),
        (OpView::StringS(_), OpView::StringS(_)) => true,
        (OpView::BVV(x, m), OpView::BVV(y, n)) => x == y && m == n,
        (OpView::BoolV(x), OpView::BoolV(y)) => x == y,
        (OpView::FPV(x), OpView::FPV(y)) => digest(text_spelling(x)) == digest(text_spelling(y)),
        (OpView::StringV(x), OpView::StringV(y)) => x == y,
        _ => false,
    }
}

/// The same is hashed of two leaves just when they are variables of the same type, whatever
/// their names, or the same constant.
pub proof fn law_leaf_hash_exact(a: AstView, b: AstView)
    requires
        a.is_leaf() && !(a.op is Apply) && !(a.op is ApplyWith),
        b.is_leaf() && !(b.op is Apply) && !(b.op is ApplyWith),
    ensures
        hash_input(a) == hash_input(b) <==> same_leaf(a.op, b.op),
{
    lemma_leaf_kinds(a.op);
    lemma_leaf_kinds(b.op);
    if hash_input(a) == hash_input(b) {
        law_leaf_read_back(a, b);
    }
}

/// The op strings of leaves tell what they are.
proof fn lemma_leaf_kinds(op: OpView)
    requires
        symbol_op(op.opstring()) || value_op(op.opstring()),
        !(op is Apply) && !(op is ApplyWith),
    ensures
        op is BVS <==> op.opstring() == "BVS"@,
        op is BoolS <==> op.opstring() == "BoolS"@,
        op is FPS <==> op.opstring() == "FPS"@,
        op is StringS <==> op.opstring() == "StringS"@,
        op is BVV <==> op.opstring() == "BVV"@,
        op is BoolV <==> op.opstring() == "BoolV"@,
        op is FPV <==> op.opstring() == "FPV"@,
        op is StringV <==> op.opstring() == "StringV"@,
        op is BVS || op is BoolS || op is FPS || op is StringS || op is BVV || op is BoolV || op
            is FPV || op is StringV,
{
    reveal_strlit("BVS");
    reveal_strlit("BoolS");
    reveal_strlit("FPS");
    reveal_strlit("StringS");
    reveal_strlit("BVV");
    reveal_strlit("BoolV");
    reveal_strlit("FPV");
    reveal_strlit("StringV");
    reveal_strlit("ZeroExt");
    reveal_strlit("SignExt");
    reveal_strlit("Extract");
    reveal_strlit("fpAdd");
    reveal_strlit("fpSub");
    reveal_strlit("fpMul");
    reveal_strlit("fpDiv");
    reveal_strlit("fpSqrt");
    let name = op.opstring();
    assert(name.last() == 'S' || name.last() == 'V');
    assert("ZeroExt"@.last() == 't' && "SignExt"@.last() == 't' && "Extract"@.last() == 't');
    assert("fpAdd"@.last() == 'd' && "fpSub"@.last() == 'b' && "fpMul"@.last() == 'l');
    assert("fpDiv"@.last() == 'v' && "fpSqrt"@.last() == 't');
    assert("BVS"@[0] == 'B' && "FPS"@[0] == 'F' && "BVV"@[0] == 'B' && "FPV"@[0] == 'F');
    assert("BVS"@.last() == 'S' && "FPS"@.last() == 'S' && "BoolS"@.last() == 'S');
    assert("StringS"@.last() == 'S' && "StringV"@.last() == 'V' && "BoolV"@.last() == 'V');
    assert("BVV"@.last() == 'V' && "FPV"@.last() == 'V');
}

/// A hash is what the default hasher makes of the words that it is a hash of, and that of a
/// value that is known by its debug output is that of the text.
pub proof fn law_hashes_are_digests(words: Seq<u64>, text: Seq<char>)
    ensures
        word_hash(words) == digest(words),
        debug_hash(text) == digest(text_spelling(text)),
{
}

/// Two extractions from the same operand of which the same is hashed have the same two
/// positions, as far as the hashes of the positions tell.
pub proof fn law_extractions_told_apart(a: AstView, b: AstView, e: u32, s: u32, f: u32, t: u32)
    requires
        a.op == OpView::Extract(e, s),
        b.op == OpView::Extract(f, t),
        a.children == b.children,
        hash_input(a) == hash_input(b),
    ensures
        seq![digest(seq![e as u64]), digest(seq![s as u64])].to_multiset() == seq![
            digest(seq![f as u64]),
            digest(seq![t as u64]),
        ].to_multiset(),
{
    lemma_extract_no_leaf();
    law_numbers_tell_apart(a, b);
    law_fields_hashed(a.op);
    law_fields_hashed(b.op);
}

proof fn lemma_extract_no_leaf()
    ensures
        !symbol_op("Extract"@),
        !value_op("Extract"@),
{
    reveal_strlit("Extract");
    reveal_strlit("BVS");
    reveal_strlit("BoolS");
    reveal_strlit("FPS");
    reveal_strlit("StringS");
    reveal_strlit("BVV");
    reveal_strlit("BoolV");
    reveal_strlit("FPV");
    reveal_strlit("StringV");
    assert("Extract"@[0] == 'E');
    assert("BVS"@[0] != 'E' && "BoolS"@[0] != 'E' && "FPS"@[0] != 'E' && "StringS"@[0] != 'E');
    assert("BVV"@[0] != 'E' && "BoolV"@[0] != 'E' && "FPV"@[0] != 'E' && "StringV"@[0] != 'E');
}

/// Nodes over the same operands of which the same is hashed have the same amounts and
/// rounding modes, as far as the hashes of those tell, and the same pair of positions.
pub proof fn law_fields_told_apart(a: AstView, b: AstView)
    requires
        !a.is_leaf(),
        !b.is_leaf(),
        a.children == b.children,
        hash_input(a) == hash_input(b),
    ensures
        field_hashes(a.op).to_multiset() == field_hashes(b.op).to_multiset(),
{
    law_numbers_tell_apart(a, b);
    law_fields_hashed(a.op);
    law_fields_hashed(b.op);
}

} // verus!
