//! Rebuilding a node under an op string of the caller's choice.
use crate::ast::{Ast, AstOp, AstRef, AstView, OpView, rebuild, rename_leaf, views};
use crate::error::ClaripyError;
use crate::ops::{greater_op, is_symbol_creation, reversed_op, symbol_op};
use crate::text::same_text;
use std::sync::Arc;
use vstd::prelude::*;

verus! {

/// What a caller hands over as an argument.
pub enum Arg {
    Expr(AstRef),
    Text(String),
    /// Anything that is neither an expression nor a text.
    Other,
}

/// The mathematical value of an [`Arg`].
pub enum ArgView {
    Expr(AstView),
    Text(Seq<char>),
    Other,
}

impl View for Arg {
    type V = ArgView;

    open spec fn view(&self) -> ArgView {
        match self {
            Arg::Expr(ast) => ArgView::Expr(ast@),
            Arg::Text(text) => ArgView::Text(text@),
            Arg::Other => ArgView::Other,
        }
    }
}

/// The values of some arguments.
pub open spec fn arg_views(args: Seq<Arg>) -> Seq<ArgView> {
    Seq::new(args.len(), |i: int| args[i]@)
}

/// The expressions among some arguments.
pub open spec fn expressions(args: Seq<ArgView>) -> Seq<AstView>
    decreases args.len(),
{
    if args.len() == 0 {
        Seq::empty()
    } else {
        match args.last() {
            ArgView::Expr(ast) => expressions(args.drop_last()).push(ast),
            _ => expressions(args.drop_last()),
        }
    }
}

/// A variable under the name that the first argument gives, or why not.
pub open spec fn leaf_made_like(
    ast: AstView,
    op: Seq<char>,
    args: Seq<ArgView>,
) -> Result<AstView, Seq<char>> {
    if op != ast.op.opstring() {
        Err("make_like cannot turn a "@ + ast.op.opstring() + " leaf into "@ + op)
    } else if args.len() > 0 && args[0] is Text {
        Ok(ast.renamed(args[0]->Text_0))
    } else {
        Err("make_like on a leaf needs a name"@)
    }
}

/// What [`make_like`] builds, or why it refuses to.
pub open spec fn made_like(
    ast: AstView,
    op: Seq<char>,
    args: Seq<ArgView>,
) -> Result<AstView, Seq<char>> {
    let operands = expressions(args);
    if symbol_op(ast.op.opstring()) {
        leaf_made_like(ast, op, args)
    } else if op == ast.op.opstring() {
        Ok(ast.over(operands))
    } else if greater_op(ast.op.opstring()) == Some(op) {
        if operands.len() == 2 {
            Ok(
                AstView {
                    op: OpView::Apply(op),
                    annotations: 0,
                    origin: ast.origin,
                    children: operands,
                },
            )
        } else {
            Err("make_like "@ + op + " needs two operands"@)
        }
    } else {
        Err("make_like cannot build op "@ + op + " from "@ + ast.op.opstring())
    }
}

/// The text of two pieces with a text after each.
fn message(first: &str, a: &str, second: &str, b: &str) -> (text: String)
    ensures
        text@ == first@ + a@ + second@ + b@,
{
    let mut text = first.to_owned();
    text.append(a);
    text.append(second);
    text.append(b);
    text
}

/// Picks the expressions among the arguments.
fn pick_expressions(args: &Vec<Arg>) -> (children: Vec<AstRef>)
    ensures
        views(children@) == expressions(arg_views(args@)),
{
    let ghost all = arg_views(args@);
    let mut children: Vec<AstRef> = Vec::new();
    let mut i: usize = 0;
    assert(views(children@) =~= expressions(all.take(0)));
    while i < args.len()
        invariant
            i <= args@.len(),
            all == arg_views(args@),
            views(children@) == expressions(all.take(i as int)),
        decreases args@.len() - i,
    {
        let ghost before = children@;
        assert(all.take(i + 1).drop_last() =~= all.take(i as int));
        assert(all.take(i + 1).last() == args@[i as int]@);
        match &args[i] {
            Arg::Expr(ast) => {
                children.push(ast.clone());
                assert(views(children@) =~= views(before).push(ast@));
            },
            _ => {},
        }
        i = i + 1;
    }
    assert(all.take(args@.len() as int) =~= all);
    children
}

/// Rebuilds a node as `op` over `args`.
///
/// Covers three cases, and refuses every other op string rather than quietly building
/// something different:
///
/// * renaming a variable (the first argument is the new name);
/// * rebuilding the same op over new children, keeping its other fields;
/// * swapping a comparison, whose operands the caller has already swapped.
///
/// A swapped comparison needs two operands. How many operands any other op takes is left
/// to the context in which the node is made.
pub fn make_like(ast: &AstRef, op: &str, args: Vec<Arg>) -> (made: Result<AstRef, ClaripyError>)
    ensures
        made matches Ok(node) ==> made_like(ast@, op@, arg_views(args@)) == Ok::<
            AstView,
            Seq<char>,
        >(node@),
        made matches Err(error) ==> made_like(ast@, op@, arg_views(args@)) == Err::<
            AstView,
            Seq<char>,
        >(error.message()),
{
    let own_op = ast.to_opstring();
    if is_symbol_creation(own_op.as_str()) {
        if !same_text(op, own_op.as_str()) {
            return Err(
                ClaripyError::TypeError(
                    message("make_like cannot turn a ", own_op.as_str(), " leaf into ", op),
                ),
            );
        }
        if args.len() > 0 {
            assert(arg_views(args@)[0] == args@[0]@);
            if let Arg::Text(name) = &args[0] {
                return Ok(rename_leaf(ast, name.clone()));
            }
        }
        return Err(ClaripyError::TypeError("make_like on a leaf needs a name".to_owned()));
    }
    let children = pick_expressions(&args);
    if same_text(op, own_op.as_str()) {
        return Ok(rebuild(ast, children));
    }
    if let Some(greater) = reversed_op(own_op.as_str()) {
        if same_text(greater, op) {
            if children.len() != 2 {
                let mut text = "make_like ".to_owned();
                text.append(op);
                text.append(" needs two operands");
                return Err(ClaripyError::TypeError(text));
            }
            let node = Ast {
                op: AstOp::Apply(op.to_owned()),
                annotations: 0,
                origin: ast.origin,
                children,
            };
            assert(node@.children =~= views(children@));
            return Ok(Arc::new(node));
        }
    }
    Err(
        ClaripyError::TypeError(
            message("make_like cannot build op ", op, " from ", own_op.as_str()),
        ),
    )
}

} // verus!
