//! What a node is made into on request, and what keys do.
use crate::ast::{AstView, OpView};
use crate::cache_key::ASTCacheKey;
use crate::canonical::{canon, leaf_spelling};
use crate::laws::tables::{law_op_classes, law_swapped_ops};
use crate::make_like::{ArgView, expressions, made_like};
use crate::ops::{greater_op, law_op_classes_apart, symbol_op};
use vstd::prelude::*;

verus! {

/// Expressions handed over as arguments.
pub open spec fn as_args(asts: Seq<AstView>) -> Seq<ArgView> {
    asts.map_values(|ast: AstView| ArgView::Expr(ast))
}

/// Expressions that are handed over are all picked, in their order.
pub proof fn law_expressions_picked(asts: Seq<AstView>)
    ensures
        expressions(as_args(asts)) == asts,
    decreases asts.len(),
{
    if asts.len() > 0 {
        law_expressions_picked(asts.drop_last());
        assert(as_args(asts).drop_last() =~= as_args(asts.drop_last()));
        assert(asts =~= asts.drop_last().push(asts.last()));
    } else {
        assert(asts =~= Seq::empty());
    }
}

/// What is picked of arguments in a row is what is picked of the first and then of the
/// rest, of an expression the expression, and of anything else nothing.
pub proof fn law_picked_one_by_one(
    a: Seq<ArgView>,
    b: Seq<ArgView>,
    ast: AstView,
    text: Seq<char>,
)
    ensures
        expressions(a + b) == expressions(a) + expressions(b),
        expressions(seq![ArgView::Expr(ast)]) == seq![ast],
        expressions(seq![ArgView::Text(text)]) == Seq::<AstView>::empty(),
        expressions(seq![ArgView::Other]) == Seq::<AstView>::empty(),
    decreases b.len(),
{
    reveal_with_fuel(expressions, 2);
    assert(seq![ArgView::Expr(ast)].drop_last() =~= Seq::empty());
    assert(seq![ArgView::Text(text)].drop_last() =~= Seq::empty());
    assert(seq![ArgView::Other].drop_last() =~= Seq::empty());
    assert(expressions(seq![ArgView::Expr(ast)]) =~= seq![ast]);
    if b.len() == 0 {
        assert(a + b =~= a);
        assert(expressions(a) + expressions(b) =~= expressions(a));
    } else {
        law_picked_one_by_one(a, b.drop_last(), ast, text);
        assert((a + b).drop_last() =~= a + b.drop_last());
        assert((a + b).last() == b.last());
        assert(expressions(a + b) =~= expressions(a) + expressions(b));
    }
}

/// Asked for its own op string over any expressions, a node that is no variable is made
/// with just those operands, in their order, and keeps all else that it has.
pub proof fn law_rebuilt_over(ast: AstView, operands: Seq<AstView>)
    requires
        ast.op.opstring() != "BVS"@,
        ast.op.opstring() != "BoolS"@,
        ast.op.opstring() != "FPS"@,
        ast.op.opstring() != "StringS"@,
    ensures
        made_like(ast, ast.op.opstring(), as_args(operands)) matches Ok(node) && {
            &&& node.op == ast.op
            &&& node.annotations == ast.annotations
            &&& node.origin == ast.origin
            &&& node.children == operands
        },
{
    law_op_classes(ast.op.opstring());
    law_expressions_picked(operands);
}

/// Asked for the "greater" form of a "less" comparison over two expressions, a node of that
/// form is made over them, in the order that they were handed over.
pub proof fn law_turned_round_over(ast: AstView, a: AstView, b: AstView, op: Seq<char>)
    requires
        ast.op.opstring() == "ULT"@ && op == "UGT"@ || ast.op.opstring() == "ULE"@ && op
            == "UGE"@ || ast.op.opstring() == "SLT"@ && op == "SGT"@ || ast.op.opstring()
            == "SLE"@ && op == "SGE"@,
    ensures
        made_like(ast, op, as_args(seq![a, b])) matches Ok(node) && {
            &&& node.op == OpView::Apply(op)
            &&& node.annotations == 0
            &&& node.origin == ast.origin
            &&& node.children == seq![a, b]
        },
{
    law_op_classes_apart(ast.op.opstring());
    law_swapped_ops(ast.op.opstring());
    law_op_classes_apart(op);
    law_expressions_picked(seq![a, b]);
}

/// Asked for its own op string and handed a name first, a variable is made with that name
/// and the type that it had, whatever else is handed over.
pub proof fn law_renamed_on_request(ast: AstView, name: Seq<char>, rest: Seq<ArgView>)
    requires
        ast.op is BVS || ast.op is BoolS || ast.op is FPS || ast.op is StringS,
    ensures
        made_like(ast, ast.op.opstring(), seq![ArgView::Text(name)] + rest) matches Ok(leaf) && {
            &&& ast.op matches OpView::BVS(_, size) ==> leaf.op == OpView::BVS(name, size)
            &&& ast.op is BoolS ==> leaf.op == OpView::BoolS(name)
            &&& ast.op matches OpView::FPS(_, sort) ==> leaf.op == OpView::FPS(name, sort)
            &&& ast.op is StringS ==> leaf.op == OpView::StringS(name)
            &&& leaf.annotations == 0
            &&& leaf.origin == ast.origin
            &&& leaf.children.len() == 0
        },
{
    assert((seq![ArgView::Text(name)] + rest)[0] == ArgView::Text(name));
}

/// What is refused, and in which words: another op string for a variable, a variable
/// without a name, a swapped comparison without two operands, and any other op string for
/// any other node.
pub proof fn law_refusals(ast: AstView, op: Seq<char>, args: Seq<ArgView>)
    ensures
        ({
            let own = ast.op.opstring();
            let leaf = own == "BVS"@ || own == "BoolS"@ || own == "FPS"@ || own == "StringS"@;
            let turned = own == "ULT"@ && op == "UGT"@ || own == "ULE"@ && op == "UGE"@ || own
                == "SLT"@ && op == "SGT"@ || own == "SLE"@ && op == "SGE"@;
            let made = made_like(ast, op, args);
            &&& leaf && op != own ==> made == Err::<AstView, Seq<char>>(
                "make_like cannot turn a "@ + own + " leaf into "@ + op,
            )
            &&& leaf && op == own && (args.len() == 0 || !(args[0] is Text)) ==> made == Err::<
                AstView,
                Seq<char>,
            >("make_like on a leaf needs a name"@)
            &&& !leaf && turned && expressions(args).len() != 2 ==> made == Err::<
                AstView,
                Seq<char>,
            >("make_like "@ + op + " needs two operands"@)
            &&& !leaf && op != own && !turned ==> made == Err::<AstView, Seq<char>>(
                "make_like cannot build op "@ + op + " from "@ + own,
            )
        }),
{
    let own = ast.op.opstring();
    law_op_classes(own);
    law_op_classes_apart(own);
    law_swapped_ops(own);
    if let Some(name) = greater_op(own) {
        law_op_classes_apart(name);
        assert(greater_op(name) is None);
    }
}

/// Rebuilding a node over its own operands gives the node.
pub proof fn law_made_like_itself(ast: AstView)
    requires
        !symbol_op(ast.op.opstring()),
    ensures
        made_like(ast, ast.op.opstring(), as_args(ast.children)) == Ok::<AstView, Seq<char>>(ast),
{
    law_expressions_picked(ast.children);
}

/// Asking for the swapped comparison over swapped operands gives the swapped node.
pub proof fn law_made_like_swapped(ast: AstView)
    requires
        ast.swapped() is Some,
        ast.children.len() == 2,
    ensures
        made_like(
            ast,
            ast.swapped()->0.op.opstring(),
            as_args(ast.children.reverse()),
        ) == Ok::<AstView, Seq<char>>(ast.swapped()->0),
{
    law_op_classes_apart(ast.op.opstring());
    law_op_classes_apart(ast.swapped()->0.op.opstring());
    law_expressions_picked(ast.children.reverse());
}

/// A renamed variable keeps its type and so its hash.
pub proof fn law_renamed_leaf_keeps_hash(ast: AstView, name: Seq<char>)
    requires
        symbol_op(ast.op.opstring()),
    ensures
        made_like(ast, ast.op.opstring(), seq![ArgView::Text(name)]) matches Ok(leaf)
            && leaf == ast.renamed(name) && canon(leaf).hash == canon(ast).hash,
{
    let leaf = ast.renamed(name);
    assert(leaf.op.opstring() == ast.op.opstring());
    assert(leaf_spelling(leaf.op) == leaf_spelling(ast.op));
}

/// Nothing else is built: a node is renamed, rebuilt under its own op string or
/// swapped, and every other request is refused.
pub proof fn law_other_requests_refused(ast: AstView, op: Seq<char>, args: Seq<ArgView>)
    ensures
        made_like(ast, op, args) is Ok <==> if symbol_op(ast.op.opstring()) {
            op == ast.op.opstring() && args.len() > 0 && args[0] is Text
        } else {
            op == ast.op.opstring() || (greater_op(ast.op.opstring()) == Some(op) && expressions(
                args,
            ).len() == 2)
        },
{
}

/// Keys are equal just when they stand for the same expression, where the context
/// gives the two expressions different hashes unless they are the same. Equal keys
/// have the same hash, which is the context's where that fits.
pub proof fn law_equal_keys(a: ASTCacheKey, b: ASTCacheKey, hash: spec_fn(AstView) -> u64)
    requires
        a.id() == hash(a.expr()),
        b.id() == hash(b.expr()),
        hash(a.expr()) == hash(b.expr()) ==> a.expr() == b.expr(),
    ensures
        a.equals(b) <==> a.expr() == b.expr(),
        a.equals(b) ==> a.number() == b.number(),
        a.id() <= usize::MAX ==> a.number() == hash(a.expr()),
{
}

/// A key prints as its expression does, between `<Key ` and `>`, so that keys of
/// expressions that print differently print differently.
pub proof fn law_printed_key(a: Seq<char>, b: Seq<char>)
    ensures
        ASTCacheKey::printed(a).len() == a.len() + 6,
        ASTCacheKey::printed(a).take(5) == "<Key "@,
        ASTCacheKey::printed(a).subrange(5, 5 + a.len() as int) == a,
        ASTCacheKey::printed(a).last() == '>',
        ASTCacheKey::printed(a) == ASTCacheKey::printed(b) ==> a == b,
{
    reveal_strlit("<Key ");
    reveal_strlit(">");
    let (x, y) = (ASTCacheKey::printed(a), ASTCacheKey::printed(b));
    assert("<Key "@.len() == 5 && ">"@.len() == 1);
    assert(x.take(5) =~= "<Key "@);
    assert(x.subrange(5, 5 + a.len() as int) =~= a);
    assert(y.subrange(5, 5 + b.len() as int) =~= b);
}

/// Equality of keys is an equivalence.
pub proof fn law_key_equality(a: ASTCacheKey, b: ASTCacheKey, c: ASTCacheKey)
    ensures
        a.equals(a),
        a.equals(b) ==> b.equals(a),
        a.equals(b) && b.equals(c) ==> a.equals(c),
{
}

} // verus!
