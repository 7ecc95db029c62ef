//! What is held of an expression is all there is of it.
use crate::ast::{Ast, AstOp, OpView};
use crate::error::ClaripyError;
use crate::make_like::{Arg, ArgView};
use vstd::prelude::*;

verus! {

/// A node is taken with all that it has: its operator, its annotations, where it comes from,
/// and each operand in its place.
pub proof fn law_node_view(ast: &Ast)
    ensures
        ast@.op == ast.op@,
        ast@.annotations == ast.annotations,
        ast@.origin == ast.origin,
        ast@.children.len() == ast.children@.len(),
        forall|i: int|
            0 <= i < ast.children@.len() ==> #[trigger] ast@.children[i] == ast.children@[i]@,
{
}

/// An operator is taken with all that it has.
pub proof fn law_op_view(op: &AstOp)
    ensures
        match op {
            AstOp::BVS(name, size) => op@ == OpView::BVS(name@, *size),
            AstOp::BoolS(name) => op@ == OpView::BoolS(name@),
            AstOp::FPS(name, sort) => op@ == OpView::FPS(name@, sort@),
            AstOp::StringS(name) => op@ == OpView::StringS(name@),
            AstOp::BVV(bytes, size) => op@ == OpView::BVV(bytes@, *size),
            AstOp::BoolV(value) => op@ == OpView::BoolV(*value),
            AstOp::FPV(value) => op@ == OpView::FPV(value@),
            AstOp::StringV(value) => op@ == OpView::StringV(value@),
            AstOp::ZeroExt(amount) => op@ == OpView::ZeroExt(*amount),
            AstOp::SignExt(amount) => op@ == OpView::SignExt(*amount),
            AstOp::Extract(end, start) => op@ == OpView::Extract(*end, *start),
            AstOp::FpAdd(rm) => op@ == OpView::FpAdd(rm@),
            AstOp::FpSub(rm) => op@ == OpView::FpSub(rm@),
            AstOp::FpMul(rm) => op@ == OpView::FpMul(rm@),
            AstOp::FpDiv(rm) => op@ == OpView::FpDiv(rm@),
            AstOp::FpSqrt(rm) => op@ == OpView::FpSqrt(rm@),
            AstOp::Apply(name) => op@ == OpView::Apply(name@),
            AstOp::ApplyWith(name, rest) => op@ == OpView::ApplyWith(name@, rest@),
        },
{
}

/// An argument is taken for what it is, and an error for what it says.
pub proof fn law_request_views(arg: &Arg, error: ClaripyError)
    ensures
        match arg {
            Arg::Expr(ast) => arg@ == ArgView::Expr(ast@),
            Arg::Text(text) => arg@ == ArgView::Text(text@),
            Arg::Other => arg@ == ArgView::Other,
        },
        error matches ClaripyError::TypeError(message) ==> error.message() == message@,
{
}

} // verus!
