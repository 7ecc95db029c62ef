//! Rewriting keeps what an expression means.
use crate::ast::{AstView, OpView};
use crate::bags::lemma_map_bag;
use crate::laws::tables::{law_op_classes, law_swapped_node};
use crate::ops::{law_op_classes_apart, symbol_op, unordered_op};
use crate::paths::VarKey;
use crate::rewrite::{
    canonicalized, in_hash_order, lemma_in_hash_order_bag, lemma_rewritten_all, rewritten,
    rewritten_all,
};
use vstd::prelude::*;

verus! {

/// What an expression comes to, where `vars` gives the values of variables and `apply`
/// what each operator makes of the values of its operands, a constant of none.
pub open spec fn value<V>(
    ast: AstView,
    vars: spec_fn(VarKey) -> V,
    apply: spec_fn(OpView, Seq<V>) -> V,
) -> V
    decreases ast,
{
    if ast.op.has_name() {
        vars((ast.op, ast.annotations))
    } else {
        apply(ast.op, values(ast.children, vars, apply))
    }
}

/// What expressions come to, one by one.
pub open spec fn values<V>(
    asts: Seq<AstView>,
    vars: spec_fn(VarKey) -> V,
    apply: spec_fn(OpView, Seq<V>) -> V,
) -> Seq<V>
    decreases asts,
{
    if asts.len() == 0 {
        Seq::empty()
    } else {
        values(asts.drop_last(), vars, apply).push(value(asts.last(), vars, apply))
    }
}

/// Whether `and`, `or`, `xor`, sums, products, equality and inequality make the same of
/// their operands in any order.
pub open spec fn order_free<V>(apply: spec_fn(OpView, Seq<V>) -> V) -> bool {
    forall|op: OpView, xs: Seq<V>, ys: Seq<V>|
        #![trigger apply(op, xs), apply(op, ys)]
        xs.to_multiset() == ys.to_multiset() && (op.opstring() == "__and__"@ || op.opstring()
            == "__or__"@ || op.opstring() == "__xor__"@ || op.opstring() == "__add__"@
            || op.opstring() == "__mul__"@ || op.opstring() == "And"@ || op.opstring() == "Or"@
            || op.opstring() == "Xor"@ || op.opstring() == "__eq__"@ || op.opstring()
            == "__ne__"@) ==> apply(op, xs) == apply(op, ys)
}

/// Whether `a < b` comes to what `b > a` does, signed and unsigned, strict and not.
pub open spec fn turns_round<V>(apply: spec_fn(OpView, Seq<V>) -> V) -> bool {
    forall|op: OpView, xs: Seq<V>| #[trigger]
        apply(op, xs) == if op.opstring() == "ULT"@ {
            apply(OpView::Apply("UGT"@), xs.reverse())
        } else if op.opstring() == "ULE"@ {
            apply(OpView::Apply("UGE"@), xs.reverse())
        } else if op.opstring() == "SLT"@ {
            apply(OpView::Apply("SGT"@), xs.reverse())
        } else if op.opstring() == "SLE"@ {
            apply(OpView::Apply("SGE"@), xs.reverse())
        } else {
            apply(op, xs)
        }
}

proof fn lemma_values<V>(
    asts: Seq<AstView>,
    vars: spec_fn(VarKey) -> V,
    apply: spec_fn(OpView, Seq<V>) -> V,
)
    ensures
        values(asts, vars, apply) == asts.map_values(|ast: AstView| value(ast, vars, apply)),
    decreases asts.len(),
{
    if asts.len() > 0 {
        lemma_values(asts.drop_last(), vars, apply);
    }
    assert(values(asts, vars, apply) =~= asts.map_values(
        |ast: AstView| value(ast, vars, apply),
    ));
}

/// Rewriting keeps what an expression comes to, whatever the variables stand for and
/// whatever the operators do, as long as those whose operands are sorted do the same in
/// any order, and a swapped comparison is the same as the one it was made from. So no
/// operand of any other operator is moved, and no other operator is changed.
pub proof fn law_rewriting_keeps_meaning<V>(
    ast: AstView,
    vars: spec_fn(VarKey) -> V,
    apply: spec_fn(OpView, Seq<V>) -> V,
)
    requires
        order_free(apply),
        turns_round(apply),
    ensures
        value(canonicalized(ast, false), vars, apply) == value(ast, vars, apply),
    decreases ast,
{
    let f = |child: AstView| value(child, vars, apply);
    let new = rewritten(ast);
    law_op_classes(ast.op.opstring());
    law_op_classes_apart(ast.op.opstring());
    law_swapped_node(ast);
    if ast.is_leaf() {
    } else if ast.swapped() is Some {
        lemma_values(ast.children, vars, apply);
        lemma_values(new.children, vars, apply);
        let (xs, ys) = (
            values(ast.children, vars, apply),
            values(new.children, vars, apply),
        );
        assert(new == ast.swapped()->0);
        assert(ys =~= xs.reverse());
        lemma_no_name(ast.op);
        assert(value(ast, vars, apply) == apply(ast.op, xs));
        assert(value(new, vars, apply) == apply(new.op, xs.reverse()));
    } else if unordered_op(ast.op.opstring()) {
        let ks = rewritten_all(ast.children);
        lemma_rewritten_all(ast.children);
        lemma_in_hash_order_bag(ks);
        lemma_map_bag(in_hash_order(ks), ks, f);
        lemma_values(ast.children, vars, apply);
        lemma_values(new.children, vars, apply);
        assert forall|i: int| 0 <= i < ks.len() implies #[trigger] f(ks[i]) == f(
            ast.children[i],
        ) by {
            law_rewriting_keeps_meaning(ast.children[i], vars, apply);
        }
        assert(ks.map_values(f) =~= ast.children.map_values(f));
        lemma_no_name(ast.op);
        let (xs, ys) = (ast.children.map_values(f), new.children.map_values(f));
        assert(value(ast, vars, apply) == apply(ast.op, xs));
        assert(value(new, vars, apply) == apply(ast.op, ys));
    }
}

/// A node that is no leaf has no name.
proof fn lemma_no_name(op: OpView)
    requires
        !symbol_op(op.opstring()),
    ensures
        !op.has_name(),
{
}

} // verus!
