//! How many times an expression uses a variable.
use crate::ast::{AstRef, AstView};
use crate::ops::{is_symbol_creation, is_value_creation, symbol_op};
use vstd::prelude::*;

verus! {

/// How many times an expression uses a variable, every use counted.
pub open spec fn var_uses(ast: AstView) -> nat
    decreases ast,
{
    if symbol_op(ast.op.opstring()) {
        1
    } else if ast.is_leaf() {
        0
    } else {
        var_uses_all(ast.children)
    }
}

/// How many times some expressions together use a variable.
pub open spec fn var_uses_all(asts: Seq<AstView>) -> nat
    decreases asts,
{
    if asts.len() == 0 {
        0
    } else {
        var_uses_all(asts.drop_last()) + var_uses(asts.last())
    }
}

/// Some of the expressions use no more variables than all of them.
pub proof fn lemma_var_uses_take(asts: Seq<AstView>, n: int)
    requires
        0 <= n <= asts.len(),
    ensures
        var_uses_all(asts.take(n)) <= var_uses_all(asts),
    decreases asts.len(),
{
    if n < asts.len() {
        assert(asts.take(n) =~= asts.drop_last().take(n));
        lemma_var_uses_take(asts.drop_last(), n);
    } else {
        assert(asts.take(n) =~= asts);
    }
}

/// One expression more adds its own uses.
pub proof fn lemma_var_uses_next(asts: Seq<AstView>, i: int)
    requires
        0 <= i < asts.len(),
    ensures
        var_uses_all(asts.take(i + 1)) == var_uses_all(asts.take(i)) + var_uses(asts[i]),
        var_uses_all(asts.take(i)) + var_uses(asts[i]) <= var_uses_all(asts),
{
    assert(asts.take(i + 1).drop_last() =~= asts.take(i));
    lemma_var_uses_take(asts, i + 1);
}

proof fn lemma_var_uses_remove(asts: Seq<AstView>, i: int)
    requires
        0 <= i < asts.len(),
    ensures
        var_uses_all(asts) == var_uses_all(asts.remove(i)) + var_uses(asts[i]),
    decreases asts.len(),
{
    if i == asts.len() - 1 {
        assert(asts.remove(i) =~= asts.drop_last());
    } else {
        lemma_var_uses_remove(asts.drop_last(), i);
        assert(asts.remove(i).drop_last() =~= asts.drop_last().remove(i));
        assert(asts.remove(i).last() == asts.last());
    }
}

/// The order of expressions does not change how many variables they use.
pub proof fn lemma_var_uses_bag(a: Seq<AstView>, b: Seq<AstView>)
    requires
        a.to_multiset() == b.to_multiset(),
    ensures
        var_uses_all(a) == var_uses_all(b),
    decreases a.len(),
{
    broadcast use vstd::seq_lib::group_to_multiset_ensures;

    assert(a.len() == a.to_multiset().len() == b.len());
    if a.len() > 0 {
        let k = a.len() - 1;
        let x = a[k];
        assert(a.contains(x));
        assert(b.to_multiset().count(x) > 0);
        assert(b.contains(x));
        let i = choose|i: int| 0 <= i < b.len() && b[i] == x;
        assert(a.remove(k).to_multiset() =~= b.remove(i).to_multiset());
        lemma_var_uses_bag(a.remove(k), b.remove(i));
        lemma_var_uses_remove(a, k);
        lemma_var_uses_remove(b, i);
    }
}

/// How many times an expression uses a variable, where that fits 64 bits.
pub open spec fn use_count(ast: AstView) -> Option<u64> {
    if var_uses(ast) <= u64::MAX {
        Some(var_uses(ast) as u64)
    } else {
        None
    }
}

/// How many times an expression uses a variable, where that fits 64 bits.
pub fn count_uses(ast: &AstRef) -> (uses: Option<u64>)
    ensures
        uses == use_count(ast@),
    decreases ast,
{
    let op = ast.to_opstring();
    if is_symbol_creation(op.as_str()) {
        return Some(1);
    }
    if is_value_creation(op.as_str()) {
        return Some(0);
    }
    let mut total: u64 = 0;
    let mut i: usize = 0;
    assert(ast@.children.take(0) =~= Seq::empty());
    while i < ast.children.len()
        invariant
            i <= ast.children@.len(),
            !ast@.is_leaf(),
            total == var_uses_all(ast@.children.take(i as int)),
        decreases ast.children@.len() - i,
    {
        proof {
            lemma_var_uses_next(ast@.children, i as int);
        }
        let more = match count_uses(&ast.children[i]) {
            Some(more) => more,
            None => return None,
        };
        total = match total.checked_add(more) {
            Some(sum) => sum,
            None => return None,
        };
        i = i + 1;
    }
    assert(ast@.children.take(ast.children@.len() as int) =~= ast@.children);
    Some(total)
}

} // verus!
