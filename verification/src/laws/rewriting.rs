//! Rewriting keeps the hash, and makes matching expressions print the same.
use crate::ast::AstView;
use crate::bags::times;
use crate::canonical::{canon, countable, lemma_countable_operand};
use crate::laws::matching::{
    law_matching_hash, law_matching_itself, lemma_apart_operand, lemma_matching_uses, matching,
    reordered, same_names, upright,
};
use crate::laws::naming::{apart, renaming};
use crate::laws::order::{
    is_order, law_sorted_alike, law_sorted_by_key, law_sorting_sorted, lemma_order_bag,
    lemma_sorted_by_key_map,
};
use crate::ops::{law_op_classes_apart, symbol_op, unordered_op};
use crate::paths::{Use, VarKey};
use crate::rewrite::{
    canonicalized, hashed, in_hash_order, lemma_in_hash_order_bag, lemma_rewritten_all, named,
    named_all, rewritten, rewritten_all, sortable,
};
use crate::sort::sorted_by_key;
use crate::uses::{var_uses, var_uses_all};
use vstd::prelude::*;

verus! {

/// What shows of an expression when it is printed. A leaf has no operands to show.
pub open spec fn printed(ast: AstView) -> AstView
    decreases ast,
{
    AstView {
        op: ast.op,
        annotations: 0,
        origin: 0,
        children: if ast.is_leaf() {
            Seq::empty()
        } else {
            printed_all(ast.children)
        },
    }
}

/// What shows of expressions when they are printed.
pub open spec fn printed_all(asts: Seq<AstView>) -> Seq<AstView>
    decreases asts,
{
    if asts.len() == 0 {
        Seq::empty()
    } else {
        printed_all(asts.drop_last()).push(printed(asts.last()))
    }
}

/// What shows of an expression when it is printed without the names of its variables.
pub open spec fn shape(ast: AstView) -> AstView
    decreases ast,
{
    AstView {
        op: ast.op.renamed(Seq::empty()),
        annotations: 0,
        origin: 0,
        children: if ast.is_leaf() {
            Seq::empty()
        } else {
            shapes(ast.children)
        },
    }
}

/// The shapes of expressions.
pub open spec fn shapes(asts: Seq<AstView>) -> Seq<AstView>
    decreases asts,
{
    if asts.len() == 0 {
        Seq::empty()
    } else {
        shapes(asts.drop_last()).push(shape(asts.last()))
    }
}

proof fn lemma_shapes(asts: Seq<AstView>)
    ensures
        shapes(asts) == asts.map_values(|ast: AstView| shape(ast)),
    decreases asts.len(),
{
    if asts.len() > 0 {
        lemma_shapes(asts.drop_last());
    }
    assert(shapes(asts) =~= asts.map_values(|ast: AstView| shape(ast)));
}

/// Expressions that are the same but for the names of their variables print the same
/// once the variables are numbered: `x + x` the same as `x + y`.
pub proof fn law_named_alike(a: AstView, b: AstView, n: nat)
    requires
        shape(a) == shape(b),
    ensures
        printed(named(a, n)) == printed(named(b, n)),
        var_uses(a) == var_uses(b),
    decreases a,
{
    assert(a.op.renamed(Seq::empty()) == b.op.renamed(Seq::empty()));
    assert(a.op.opstring() == b.op.opstring());
    if symbol_op(a.op.opstring()) {
        assert(a.op.has_name() == b.op.has_name());
    } else if !a.is_leaf() {
        lemma_named_all_alike(a.children, b.children, n);
    }
}

proof fn lemma_named_all_alike(a: Seq<AstView>, b: Seq<AstView>, n: nat)
    requires
        shapes(a) == shapes(b),
    ensures
        printed_all(named_all(a, n)) == printed_all(named_all(b, n)),
        var_uses_all(a) == var_uses_all(b),
    decreases a,
{
    lemma_shapes(a);
    lemma_shapes(b);
    assert(a.len() == shapes(a).len());
    assert(b.len() == shapes(b).len());
    if a.len() > 0 {
        let (a1, b1) = (a.drop_last(), b.drop_last());
        assert(shapes(a1) =~= shapes(a).drop_last());
        assert(shapes(b1) =~= shapes(b).drop_last());
        assert(shape(a.last()) == shapes(a).last());
        assert(shape(b.last()) == shapes(b).last());
        lemma_named_all_alike(a1, b1, n);
        law_named_alike(a.last(), b.last(), n + var_uses_all(a1));
        assert(named_all(a, n).drop_last() =~= named_all(a1, n));
        assert(named_all(b, n).drop_last() =~= named_all(b1, n));
    }
}

/// A rewritten expression matches the one that it was made from.
pub proof fn law_rewritten_matches(ast: AstView)
    ensures
        matching(ast, rewritten(ast), same_names()),
    decreases ast,
{
    law_op_classes_apart(ast.op.opstring());
    law_matching_itself(ast);
    if !ast.is_leaf() {
        if unordered_op(ast.op.opstring()) {
            let ys = rewritten_all(ast.children);
            lemma_rewritten_all(ast.children);
            lemma_in_hash_order_bag(ys);
            assert forall|i: int| 0 <= i < ast.children.len() implies matching(
                ast.children[i],
                #[trigger] ys[i],
                same_names(),
            ) by {
                law_rewritten_matches(ast.children[i]);
            }
            assert(reordered(ast, rewritten(ast), ys));
        } else if let Some(node) = ast.swapped() {
            assert forall|i: int| 0 <= i < ast.children.len() implies matching(
                ast.children[i],
                #[trigger] ast.children[i],
                same_names(),
            ) by {
                law_matching_itself(ast.children[i]);
            }
            law_op_classes_apart(node.op.opstring());
            assert(node.children.reverse() =~= ast.children);
            assert(reordered(ast, node, ast.children));
        }
    }
}

/// Rewriting keeps the uses of variables, and the paths to them.
pub proof fn law_rewriting_keeps_uses(ast: AstView)
    ensures
        canon(rewritten(ast)).uses.to_multiset() == canon(ast).uses.to_multiset(),
        countable(rewritten(ast)) == countable(ast),
{
    law_rewritten_matches(ast);
    lemma_matching_uses(ast, rewritten(ast), same_names());
    let (a, b) = (canon(ast).uses, canon(rewritten(ast)).uses);
    assert(a.map_values(renaming(same_names())) =~= a);
    if countable(ast) {
        assert forall|u: Use| #[trigger] times(b, u) <= u64::MAX by {
            assert(times(a, u) <= u64::MAX);
        }
    }
    if countable(rewritten(ast)) {
        assert forall|u: Use| #[trigger] times(a, u) <= u64::MAX by {
            assert(times(b, u) <= u64::MAX);
        }
    }
}

/// What can be hashed can be rewritten.
pub proof fn law_countable_sortable(ast: AstView)
    requires
        countable(ast),
    ensures
        sortable(ast),
    decreases ast,
{
    law_op_classes_apart(ast.op.opstring());
    if unordered_op(ast.op.opstring()) {
        assert forall|i: int| 0 <= i < ast.children.len() implies countable(
            #[trigger] ast.children[i],
        ) && sortable(ast.children[i]) by {
            lemma_countable_operand(ast, i);
            law_countable_sortable(ast.children[i]);
        }
    }
}

/// Rewriting keeps the hash.
pub proof fn law_rewriting_keeps_hash(ast: AstView)
    ensures
        canon(canonicalized(ast, false)).hash == canon(ast).hash,
{
    law_rewritten_matches(ast);
    law_matching_hash(ast, rewritten(ast), same_names());
}

/// What is rewritten already stays as it is.
pub proof fn law_rewriting_twice(ast: AstView)
    ensures
        canonicalized(canonicalized(ast, false), false) == canonicalized(ast, false),
    decreases ast,
{
    law_op_classes_apart(ast.op.opstring());
    if !ast.is_leaf() {
        if unordered_op(ast.op.opstring()) {
            let ks = rewritten_all(ast.children);
            let items = hashed(ks);
            let sorted = sorted_by_key(items);
            let s = in_hash_order(ks);
            lemma_rewritten_all(ast.children);
            lemma_rewritten_all(s);
            law_sorted_by_key(items);
            assert forall|i: int| 0 <= i < sorted.len() implies (#[trigger] sorted[i]) == (
                canon(s[i]).hash,
                s[i],
            ) && rewritten(s[i]) == s[i] by {
                broadcast use vstd::seq_lib::group_to_multiset_ensures;

                assert(sorted.contains(sorted[i]));
                assert(items.to_multiset().count(sorted[i]) > 0);
                assert(items.contains(sorted[i]));
                let k = choose|k: int| 0 <= k < items.len() && items[k] == sorted[i];
                law_rewriting_twice(ast.children[k]);
            }
            assert(rewritten_all(s) =~= s);
            assert(hashed(s) =~= sorted);
            law_sorting_sorted(sorted);
        } else if let Some(node) = ast.swapped() {
            law_op_classes_apart(node.op.opstring());
        }
    }
}

/// Comparisons come out in their "greater" form.
pub proof fn law_rewritten_upright(ast: AstView)
    ensures
        rewritten(ast).swapped() is None,
{
    law_op_classes_apart(ast.op.opstring());
}

/// A comparison is rewritten to the same expression whichever way it was written.
pub proof fn law_comparison_rewritten(ast: AstView, rename: bool)
    ensures
        canonicalized(upright(ast), rename) == canonicalized(ast, rename),
{
    law_op_classes_apart(ast.op.opstring());
}

/// Unordered operands come out the same in whatever order they were written, as long
/// as those with the same hash keep their order or are rewritten to the same.
pub proof fn law_operands_rewritten(
    ast: AstView,
    children: Seq<AstView>,
    order: Seq<int>,
    rename: bool,
)
    requires
        unordered_op(ast.op.opstring()),
        is_order(order),
        order.len() == ast.children.len(),
        order.len() == children.len(),
        forall|i: int| 0 <= i < order.len() ==> ast.children[i] == children[#[trigger] order[i]],
        forall|i: int, j: int|
            0 <= i < j < order.len() && canon(ast.children[i]).hash == canon(ast.children[j]).hash
                ==> (#[trigger] order[i]) < (#[trigger] order[j]) || rewritten(ast.children[i])
                == rewritten(ast.children[j]),
    ensures
        canonicalized(ast.over(children), rename) == canonicalized(ast, rename),
{
    law_op_classes_apart(ast.op.opstring());
    lemma_rewritten_all(ast.children);
    lemma_rewritten_all(children);
    let (xs, ys) = (hashed(rewritten_all(ast.children)), hashed(rewritten_all(children)));
    assert forall|i: int| 0 <= i < xs.len() implies #[trigger] xs[i] == ys[order[i]] by {
        assert(ast.children[i] == children[order[i]]);
    }
    assert forall|i: int, j: int|
        0 <= i < j < xs.len() && (#[trigger] xs[i]).0 == (#[trigger] xs[j]).0 implies order[i]
        < order[j] || xs[i] == xs[j] by {
        law_rewriting_keeps_hash(ast.children[i]);
        law_rewriting_keeps_hash(ast.children[j]);
        assert(order[i] < order[j] || rewritten(ast.children[i]) == rewritten(ast.children[j]));
    }
    law_sorted_alike(xs, ys, order);
}

/// Whether two matching expressions differ only where rewriting reaches: in the order
/// of unordered operands that are reached from the root through unordered operators
/// alone, and in comparisons there. Operands with the same hash keep their order,
/// unless they are rewritten to the same but for the names of variables.
pub open spec fn within_reach(a: AstView, b: AstView, names: spec_fn(VarKey) -> VarKey) -> bool
    decreases a,
{
    if unordered_op(a.op.opstring()) {
        &&& a.op == b.op
        &&& exists|order: Seq<int>| #[trigger]
            is_order(order) && order.len() == a.children.len() && order.len() == b.children.len()
                && (forall|i: int|
                0 <= i < a.children.len() ==> within_reach(
                    a.children[i],
                    b.children[#[trigger] order[i]],
                    names,
                )) && (forall|i: int, j: int|
                0 <= i < j < a.children.len() && canon(a.children[i]).hash == canon(
                    a.children[j],
                ).hash ==> (#[trigger] order[i]) < (#[trigger] order[j]) || shape(
                    rewritten(a.children[i]),
                ) == shape(rewritten(a.children[j])))
    } else {
        matching(a, b, names) && shape(upright(a)) == shape(upright(b))
    }
}

/// Expressions that differ only where rewriting reaches match.
pub proof fn law_within_reach_matches(a: AstView, b: AstView, names: spec_fn(VarKey) -> VarKey)
    requires
        within_reach(a, b, names),
    ensures
        matching(a, b, names),
    decreases a,
{
    law_op_classes_apart(a.op.opstring());
    if unordered_op(a.op.opstring()) {
        let order = choose|order: Seq<int>| #[trigger]
            is_order(order) && order.len() == a.children.len() && order.len() == b.children.len()
                && (forall|i: int|
                0 <= i < a.children.len() ==> within_reach(
                    a.children[i],
                    b.children[#[trigger] order[i]],
                    names,
                ));
        let ys = Seq::new(order.len(), |i: int| b.children[order[i]]);
        assert forall|i: int| 0 <= i < a.children.len() implies matching(
            a.children[i],
            #[trigger] ys[i],
            names,
        ) by {
            assert(within_reach(a.children[i], b.children[order[i]], names));
            law_within_reach_matches(a.children[i], b.children[order[i]], names);
        }
        lemma_order_bag(ys, b.children, order);
        assert(reordered(a, b, ys));
    }
}

/// Such expressions are rewritten to the same but for the names of variables.
pub proof fn law_rewritten_alike(a: AstView, b: AstView, names: spec_fn(VarKey) -> VarKey)
    requires
        within_reach(a, b, names),
        apart(names, canon(a).uses),
    ensures
        shape(rewritten(a)) == shape(rewritten(b)),
    decreases a,
{
    law_op_classes_apart(a.op.opstring());
    law_op_classes_apart(b.op.opstring());
    if unordered_op(a.op.opstring()) {
        let order = choose|order: Seq<int>| #[trigger]
            is_order(order) && order.len() == a.children.len() && order.len() == b.children.len()
                && (forall|i: int|
                0 <= i < a.children.len() ==> within_reach(
                    a.children[i],
                    b.children[#[trigger] order[i]],
                    names,
                )) && (forall|i: int, j: int|
                0 <= i < j < a.children.len() && canon(a.children[i]).hash == canon(
                    a.children[j],
                ).hash ==> (#[trigger] order[i]) < (#[trigger] order[j]) || shape(
                    rewritten(a.children[i]),
                ) == shape(rewritten(a.children[j])));
        let f = |ast: AstView| shape(ast);
        let g = |item: (u64, AstView)| (item.0, f(item.1));
        let (ks, ms) = (rewritten_all(a.children), rewritten_all(b.children));
        lemma_rewritten_all(a.children);
        lemma_rewritten_all(b.children);
        let (xs, ys) = (hashed(ks).map_values(g), hashed(ms).map_values(g));
        assert forall|i: int| 0 <= i < xs.len() implies #[trigger] xs[i] == ys[order[i]] && xs[i]
            == (canon(a.children[i]).hash, shape(rewritten(a.children[i]))) by {
            let (x, y) = (a.children[i], b.children[order[i]]);
            assert(within_reach(x, y, names));
            lemma_apart_operand(a, names, i);
            law_rewritten_alike(x, y, names);
            law_within_reach_matches(x, y, names);
            law_matching_hash(x, y, names);
            law_rewriting_keeps_hash(x);
            law_rewriting_keeps_hash(y);
        }
        assert forall|i: int, j: int|
            0 <= i < j < xs.len() && (#[trigger] xs[i]).0 == (#[trigger] xs[j]).0 implies order[i]
            < order[j] || xs[i] == xs[j] by {
            assert(xs[i] == ys[order[i]]);
            assert(xs[j] == ys[order[j]]);
        }
        law_sorted_alike(xs, ys, order);
        lemma_sorted_by_key_map(hashed(ks), f);
        lemma_sorted_by_key_map(hashed(ms), f);
        let (s, t) = (sorted_by_key(hashed(ks)), sorted_by_key(hashed(ms)));
        assert(s.map_values(g) == t.map_values(g));
        lemma_shapes(in_hash_order(ks));
        lemma_shapes(in_hash_order(ms));
        assert(s.len() == s.map_values(g).len());
        assert(t.len() == t.map_values(g).len());
        assert forall|i: int| 0 <= i < s.len() implies shape(in_hash_order(ks)[i]) == shape(
            #[trigger] in_hash_order(ms)[i],
        ) by {
            assert(s.map_values(g)[i] == t.map_values(g)[i]);
        }
        assert(shapes(in_hash_order(ks)) =~= shapes(in_hash_order(ms)));
    } else {
        assert(rewritten(a) == upright(a));
        assert(rewritten(b) == upright(b));
    }
}

/// Matching expressions that differ only where rewriting reaches print the same once
/// they are rewritten and their variables numbered.
pub proof fn law_printed_alike(a: AstView, b: AstView, names: spec_fn(VarKey) -> VarKey)
    requires
        within_reach(a, b, names),
        apart(names, canon(a).uses),
    ensures
        printed(canonicalized(a, true)) == printed(canonicalized(b, true)),
{
    law_rewritten_alike(a, b, names);
    law_named_alike(rewritten(a), rewritten(b), 0);
}

} // verus!
