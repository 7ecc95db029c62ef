//! Rewriting an expression so that matching ones print the same.
use crate::ast::{AstRef, AstView, rebuild, rename_leaf, views};
use crate::bags::lemma_map_bag;
use crate::canonical::{Cache, canon, canonical, countable};
use crate::laws::rewriting::law_rewriting_keeps_uses;
use crate::ops::{
    is_commutative, is_symbol_creation, is_value_creation, law_op_classes_apart, reverse,
    symbol_op, unordered_op,
};
use crate::sort::{keyed_views, lemma_sorted_by_key_bag, sort_by_key, sorted_by_key};
use crate::text::{var_name, var_text};
use crate::uses::{lemma_var_uses_bag, lemma_var_uses_next, var_uses, var_uses_all};
use vstd::prelude::*;

verus! {

/// An expression with its variables named `var_n`, `var_n+1`, ... from left to
/// right, a new name for every use.
pub open spec fn named(ast: AstView, n: nat) -> AstView
    decreases ast,
{
    if symbol_op(ast.op.opstring()) {
        ast.renamed(var_name(n))
    } else if ast.is_leaf() {
        ast
    } else {
        ast.over(named_all(ast.children, n))
    }
}

/// Expressions whose variables are named from left to right.
pub open spec fn named_all(asts: Seq<AstView>, n: nat) -> Seq<AstView>
    decreases asts,
{
    if asts.len() == 0 {
        Seq::empty()
    } else {
        let front = asts.drop_last();
        named_all(front, n).push(named(asts.last(), n + var_uses_all(front)))
    }
}

/// Expressions with their hashes.
pub open spec fn hashed(asts: Seq<AstView>) -> Seq<(u64, AstView)> {
    Seq::new(asts.len(), |i: int| (canon(asts[i]).hash, asts[i]))
}

/// The expressions of a list that has their keys too.
pub open spec fn without_keys(items: Seq<(u64, AstView)>) -> Seq<AstView> {
    items.map_values(|item: (u64, AstView)| item.1)
}

/// Expressions in the order of their hashes, those with the same hash in the
/// order that they came in.
pub open spec fn in_hash_order(asts: Seq<AstView>) -> Seq<AstView> {
    without_keys(sorted_by_key(hashed(asts)))
}

/// An expression with its unordered operands sorted and its comparisons turned
/// round. Only unordered operands are rewritten in turn.
pub open spec fn rewritten(ast: AstView) -> AstView
    decreases ast,
{
    if ast.is_leaf() {
        ast
    } else if unordered_op(ast.op.opstring()) {
        ast.over(in_hash_order(rewritten_all(ast.children)))
    } else {
        match ast.swapped() {
            Some(node) => node,
            None => ast,
        }
    }
}

/// Rewritten expressions, one by one.
pub open spec fn rewritten_all(asts: Seq<AstView>) -> Seq<AstView>
    decreases asts,
{
    if asts.len() == 0 {
        Seq::empty()
    } else {
        rewritten_all(asts.drop_last()).push(rewritten(asts.last()))
    }
}

/// What [`canonicalize`] makes of an expression.
pub open spec fn canonicalized(ast: AstView, rename: bool) -> AstView {
    if rename {
        named(rewritten(ast), 0)
    } else {
        rewritten(ast)
    }
}

/// Whether the operands that rewriting sorts can all be hashed.
pub open spec fn sortable(ast: AstView) -> bool
    decreases ast,
{
    unordered_op(ast.op.opstring()) ==> forall|i: int|
        0 <= i < ast.children.len() ==> countable(#[trigger] ast.children[i]) && sortable(
            ast.children[i],
        )
}

pub proof fn lemma_rewritten_all(asts: Seq<AstView>)
    ensures
        rewritten_all(asts) == Seq::new(asts.len(), |i: int| rewritten(asts[i])),
    decreases asts.len(),
{
    if asts.len() > 0 {
        lemma_rewritten_all(asts.drop_last());
    }
    assert(rewritten_all(asts) =~= Seq::new(asts.len(), |i: int| rewritten(asts[i])));
}

/// Putting expressions in order keeps them.
pub proof fn lemma_in_hash_order_bag(asts: Seq<AstView>)
    ensures
        in_hash_order(asts).to_multiset() == asts.to_multiset(),
{
    let f = |item: (u64, AstView)| item.1;
    lemma_sorted_by_key_bag(hashed(asts));
    lemma_map_bag(sorted_by_key(hashed(asts)), hashed(asts), f);
    assert(hashed(asts).map_values(f) =~= asts);
}

/// Rewriting keeps the number of uses.
pub proof fn lemma_rewritten_uses(ast: AstView)
    ensures
        var_uses(rewritten(ast)) == var_uses(ast),
    decreases ast,
{
    law_op_classes_apart(ast.op.opstring());
    if !ast.is_leaf() {
        if unordered_op(ast.op.opstring()) {
            lemma_rewritten_all_uses(ast.children);
            lemma_in_hash_order_bag(rewritten_all(ast.children));
            lemma_var_uses_bag(
                in_hash_order(rewritten_all(ast.children)),
                rewritten_all(ast.children),
            );
        } else if ast.swapped() is Some {
            ast.children.lemma_reverse_to_multiset();
            lemma_var_uses_bag(ast.children.reverse(), ast.children);
        }
    }
}

proof fn lemma_rewritten_all_uses(asts: Seq<AstView>)
    ensures
        var_uses_all(rewritten_all(asts)) == var_uses_all(asts),
    decreases asts,
{
    if asts.len() > 0 {
        lemma_rewritten_all_uses(asts.drop_last());
        lemma_rewritten_uses(asts.last());
        assert(rewritten_all(asts).drop_last() =~= rewritten_all(asts.drop_last()));
    }
}

/// Names the variables of an expression from a number on, a new name for every
/// use, and moves the number past the last one given.
fn name_from(ast: &AstRef, counter: &mut usize) -> (node: AstRef)
    requires
        *old(counter) + var_uses(ast@) <= usize::MAX,
    ensures
        node@ == named(ast@, *old(counter) as nat),
        *final(counter) == *old(counter) + var_uses(ast@),
    decreases ast,
{
    let op = ast.to_opstring();
    if is_symbol_creation(op.as_str()) {
        let name = var_text(*counter);
        *counter = *counter + 1;
        return rename_leaf(ast, name);
    }
    if is_value_creation(op.as_str()) {
        return ast.clone();
    }
    let ghost n = *counter as nat;
    let mut children: Vec<AstRef> = Vec::new();
    let mut i: usize = 0;
    assert(ast@.children.take(0) =~= Seq::empty());
    while i < ast.children.len()
        invariant
            i <= ast.children@.len(),
            !ast@.is_leaf(),
            n + var_uses(ast@) <= usize::MAX,
            *counter == n + var_uses_all(ast@.children.take(i as int)),
            views(children@) == named_all(ast@.children.take(i as int), n),
        decreases ast.children@.len() - i,
    {
        let ghost before = children@;
        proof {
            lemma_var_uses_next(ast@.children, i as int);
        }
        let child = name_from(&ast.children[i], counter);
        children.push(child);
        proof {
            let more = ast@.children.take(i + 1);
            assert(more.drop_last() =~= ast@.children.take(i as int));
            assert(views(children@) =~= views(before).push(child@));
        }
        i = i + 1;
    }
    assert(ast@.children.take(ast.children@.len() as int) =~= ast@.children);
    rebuild(ast, children)
}

/// Renames every variable `var_0`, `var_1`, ... in the order they are reached.
///
/// Numbers each use, not each variable: a shared subexpression is renumbered at
/// each use.
pub fn normalize_names(ast: &AstRef) -> (node: AstRef)
    requires
        var_uses(ast@) <= usize::MAX,
    ensures
        node@ == named(ast@, 0),
{
    let mut counter: usize = 0;
    name_from(ast, &mut counter)
}

/// Rewrites each operand, and puts them in the order of their hashes.
fn sorted_operands(ast: &AstRef, cache: &mut Cache) -> (children: Vec<AstRef>)
    requires
        unordered_op(ast@.op.opstring()),
        sortable(ast@),
        old(cache).wf(),
    ensures
        final(cache).wf(),
        views(children@) == in_hash_order(rewritten_all(ast@.children)),
    decreases ast, 0nat,
{
    let ghost new = Seq::new(ast@.children.len(), |i: int| rewritten(ast@.children[i]));
    let mut keyed: Vec<(u64, AstRef)> = Vec::new();
    let mut i: usize = 0;
    while i < ast.children.len()
        invariant
            i <= ast.children@.len(),
            unordered_op(ast@.op.opstring()),
            sortable(ast@),
            cache.wf(),
            new == Seq::new(ast@.children.len(), |i: int| rewritten(ast@.children[i])),
            keyed@.len() == i,
            forall|k: int|
                0 <= k < i ==> (#[trigger] keyed@[k]).0 == canon(new[k]).hash && keyed@[k].1@
                    == new[k],
        decreases ast.children@.len() - i,
    {
        proof {
            assert(countable(ast@.children[i as int]));
            law_rewriting_keeps_uses(ast@.children[i as int]);
        }
        let child = rewrite(&ast.children[i], cache);
        let hash = canonical(&child, cache).unwrap().hash;
        keyed.push((hash, child));
        i = i + 1;
    }
    proof {
        lemma_rewritten_all(ast@.children);
        assert(keyed_views(keyed@) =~= hashed(new));
    }
    let sorted = sort_by_key(&keyed);
    let mut children: Vec<AstRef> = Vec::new();
    let mut k: usize = 0;
    while k < sorted.len()
        invariant
            k <= sorted@.len(),
            children@.len() == k,
            forall|j: int| 0 <= j < k ==> (#[trigger] children@[j])@ == sorted@[j].1@,
        decreases sorted@.len() - k,
    {
        children.push(sorted[k].1.clone());
        k = k + 1;
    }
    assert(views(children@) =~= without_keys(keyed_views(sorted@)));
    children
}

/// Sorts unordered operands and swaps comparisons.
fn rewrite(ast: &AstRef, cache: &mut Cache) -> (node: AstRef)
    requires
        sortable(ast@),
        old(cache).wf(),
    ensures
        final(cache).wf(),
        node@ == rewritten(ast@),
    decreases ast, 1nat,
{
    let op = ast.to_opstring();
    proof {
        law_op_classes_apart(op@);
    }
    if is_symbol_creation(op.as_str()) || is_value_creation(op.as_str()) {
        return ast.clone();
    }
    if is_commutative(op.as_str()) {
        let children = sorted_operands(ast, cache);
        return rebuild(ast, children);
    }
    match reverse(ast) {
        Some(reversed) => reversed,
        None => ast.clone(),
    }
}

/// Whether the operands that rewriting sorts can all be hashed.
pub fn is_sortable(ast: &AstRef) -> (yes: bool)
    ensures
        yes == sortable(ast@),
{
    let mut cache = Cache::new();
    check_operands(ast, &mut cache)
}

/// Whether the operands that rewriting sorts can all be hashed.
fn check_operands(ast: &AstRef, cache: &mut Cache) -> (yes: bool)
    requires
        old(cache).wf(),
    ensures
        final(cache).wf(),
        yes == sortable(ast@),
    decreases ast,
{
    if !is_commutative(ast.to_opstring().as_str()) {
        return true;
    }
    let mut i: usize = 0;
    while i < ast.children.len()
        invariant
            i <= ast.children@.len(),
            unordered_op(ast@.op.opstring()),
            cache.wf(),
            forall|k: int|
                0 <= k < i ==> countable(#[trigger] ast@.children[k]) && sortable(ast@.children[k]),
        decreases ast.children@.len() - i,
    {
        let child = &ast.children[i];
        assert(child@ == ast@.children[i as int]);
        if canonical(child, cache).is_none() || !check_operands(child, cache) {
            return false;
        }
        i = i + 1;
    }
    true
}

/// Sorts unordered operands, swaps comparisons, and optionally renames variables.
///
/// Only unordered operands are rewritten recursively; everything else is left as
/// written, which is why this is a quick check rather than a decision procedure.
pub fn canonicalize(ast: &AstRef, rename: bool) -> (node: AstRef)
    requires
        sortable(ast@),
        rename ==> var_uses(ast@) <= usize::MAX,
    ensures
        node@ == canonicalized(ast@, rename),
{
    let mut cache = Cache::new();
    let new = rewrite(ast, &mut cache);
    if rename {
        proof {
            lemma_rewritten_uses(ast@);
        }
        return normalize_names(&new);
    }
    new
}

} // verus!
