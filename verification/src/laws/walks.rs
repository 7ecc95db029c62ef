//! Where each variable of an expression stands, read off the expression itself.
use crate::ast::{AstView, OpView};
use crate::bags::{joined, lemma_joined_add, lemma_joined_bag, lemma_map_bag};
use crate::canonical::{
    argument_uses, arguments, canon, canons, lemma_canons, numbers_before, uses_through,
};
use crate::laws::matching::{law_comparison_swapped, upright};
use crate::laws::spelling::{law_path_read_back, lemma_path_step, path_spelling};
use crate::laws::tables::{law_op_classes, law_swapped_node, law_swapped_ops};
use crate::ops::law_op_classes_apart;
use crate::paths::{Use, VarKey, leaf_path, step_spelling};
use vstd::prelude::*;
use vstd::seq_lib::lemma_multiset_commutative;

verus! {

/// One step down: an op string, and which operand was taken where that matters.
pub type Step = (Seq<char>, Option<usize>);

/// A variable, and the steps from the root down to where it stands.
pub type Walk = (VarKey, Seq<Step>);

/// The step from a node with so many operands to one of them. Where operand order does not
/// matter, it has no position. A "less" comparison counts as the "greater" one with its
/// operands swapped. The position counts the numbers that stand before the operands, one of
/// an extension and two of an extraction.
pub open spec fn step_down(op: OpView, operands: int, i: int) -> Step {
    let name = op.opstring();
    if name == "__and__"@ || name == "__or__"@ || name == "__xor__"@ || name == "__add__"@ || name
        == "__mul__"@ || name == "And"@ || name == "Or"@ || name == "Xor"@ || name == "__eq__"@
        || name == "__ne__"@ {
        (name, None)
    } else if name == "ULT"@ {
        ("UGT"@, Some((operands - 1 - i) as usize))
    } else if name == "ULE"@ {
        ("UGE"@, Some((operands - 1 - i) as usize))
    } else if name == "SLT"@ {
        ("SGT"@, Some((operands - 1 - i) as usize))
    } else if name == "SLE"@ {
        ("SGE"@, Some((operands - 1 - i) as usize))
    } else if op is ZeroExt || op is SignExt {
        (name, Some((1 + i) as usize))
    } else if op is Extract {
        (name, Some((2 + i) as usize))
    } else {
        (name, Some(i as usize))
    }
}

/// Walks from one step further up.
pub open spec fn walks_from(step: Step, walks: Seq<Walk>) -> Seq<Walk> {
    walks.map_values(|walk: Walk| (walk.0, seq![step] + walk.1))
}

/// The walks down to every variable of an expression, from left to right.
pub open spec fn walks(ast: AstView) -> Seq<Walk>
    decreases ast,
{
    let name = ast.op.opstring();
    if name == "BVS"@ || name == "BoolS"@ || name == "FPS"@ || name == "StringS"@ {
        seq![((ast.op, ast.annotations), seq![(name, Some(0usize))])]
    } else if name == "BVV"@ || name == "BoolV"@ || name == "FPV"@ || name == "StringV"@ {
        Seq::empty()
    } else {
        walks_below(ast.op, ast.children.len() as int, ast.children)
    }
}

/// The walks from a node with so many operands down through the first of them.
pub open spec fn walks_below(op: OpView, operands: int, asts: Seq<AstView>) -> Seq<Walk>
    decreases asts,
{
    if asts.len() == 0 {
        Seq::empty()
    } else {
        walks_below(op, operands, asts.drop_last()) + walks_from(
            step_down(op, operands, asts.len() - 1),
            walks(asts.last()),
        )
    }
}

/// A walk as a use of a variable.
pub open spec fn as_use() -> spec_fn(Walk) -> Use {
    |walk: Walk| Use { var: walk.0, path: path_spelling(walk.1) }
}

/// The uses through each operand of a node, with the step that leads there.
spec fn uses_below(op: OpView, operands: int, asts: Seq<AstView>) -> Seq<Seq<Use>> {
    Seq::new(
        asts.len(),
        |i: int|
            {
                let step = step_down(op, operands, i);
                uses_through(canon(asts[i]).uses, step_spelling(step.0, step.1))
            },
    )
}

proof fn lemma_no_uses(parts: Seq<Seq<Use>>)
    requires
        forall|i: int| 0 <= i < parts.len() ==> (#[trigger] parts[i]).len() == 0,
    ensures
        joined(parts) == Seq::<Use>::empty(),
    decreases parts.len(),
{
    if parts.len() > 0 {
        assert(parts[parts.len() - 1].len() == 0);
        assert forall|i: int| 0 <= i < parts.drop_last().len() implies (
        #[trigger] parts.drop_last()[i]).len() == 0 by {
            assert(parts[i].len() == 0);
        }
        lemma_no_uses(parts.drop_last());
    }
    assert(joined(parts) =~= Seq::empty());
}

/// The numbers of an operator, by how many stand where.
proof fn lemma_numbers(op: OpView)
    ensures
        numbers_before(op).len() == if op is ZeroExt || op is SignExt {
            1int
        } else if op is Extract {
            2int
        } else {
            0int
        },
{
}

/// What a node uses, it uses through its operands.
proof fn lemma_uses_below(ast: AstView)
    requires
        !ast.is_leaf(),
    ensures
        canon(ast).uses.to_multiset() == joined(
            uses_below(ast.op, ast.children.len() as int, ast.children),
        ).to_multiset(),
{
    let n = ast.children.len() as int;
    let qs = uses_below(ast.op, n, ast.children);
    law_op_classes(ast.op.opstring());
    law_op_classes_apart(ast.op.opstring());
    law_swapped_ops(ast.op.opstring());
    law_swapped_node(ast);
    if ast.swapped() is Some {
        let x = upright(ast);
        law_comparison_swapped(ast);
        law_op_classes_apart(x.op.opstring());
        lemma_canons(x.children);
        let operands = canons(x.children);
        let parts = argument_uses(x.op.opstring(), arguments(x.op, operands));
        assert(arguments(x.op, operands) =~= operands);
        assert(parts =~= qs.reverse());
        assert(canon(x).uses == joined(parts));
        qs.lemma_reverse_to_multiset();
        lemma_joined_bag(parts, qs);
    } else {
        lemma_canons(ast.children);
        lemma_numbers(ast.op);
        let operands = canons(ast.children);
        let args = arguments(ast.op, operands);
        let parts = argument_uses(ast.op.opstring(), args);
        let m = numbers_before(ast.op).len() as int;
        let (first, last) = (parts.take(m), parts.skip(m + n));
        assert forall|i: int| 0 <= i < n implies parts[m + i] == #[trigger] qs[i] by {
            assert(args[m + i] == canon(ast.children[i]));
        }
        assert(parts =~= first + qs + last);
        lemma_no_uses(first);
        lemma_no_uses(last);
        lemma_joined_add(first, qs);
        lemma_joined_add(first + qs, last);
        assert(joined(parts) =~= joined(qs));
        assert(canon(ast).uses == joined(parts));
    }
}

/// The uses of an expression are its walks: each use of a variable is known by the variable
/// and by the op string and operand position of every step from the root down to it, as
/// they are written in the expression.
pub proof fn law_uses_are_walks(ast: AstView)
    ensures
        canon(ast).uses.to_multiset() == walks(ast).map_values(as_use()).to_multiset(),
    decreases ast,
{
    law_op_classes(ast.op.opstring());
    law_op_classes_apart(ast.op.opstring());
    if ast.is_leaf() {
        let op = ast.op.opstring();
        let none = Seq::<Step>::empty();
        lemma_path_step(op, Some(0), none);
        assert(seq![(op, Some(0usize))] + none =~= seq![(op, Some(0usize))]);
        assert(path_spelling(none) =~= seq![0u64]);
        assert(leaf_path(op) =~= step_spelling(op, Some(0)) + path_spelling(none));
        assert(canon(ast).uses =~= walks(ast).map_values(as_use()));
    } else {
        lemma_uses_below(ast);
        lemma_walks_below(ast.op, ast.children.len() as int, ast.children);
    }
}

proof fn lemma_walks_below(op: OpView, operands: int, asts: Seq<AstView>)
    ensures
        joined(uses_below(op, operands, asts)).to_multiset() == walks_below(
            op,
            operands,
            asts,
        ).map_values(as_use()).to_multiset(),
    decreases asts,
{
    let qs = uses_below(op, operands, asts);
    let all = walks_below(op, operands, asts);
    if asts.len() == 0 {
        assert(joined(qs) =~= all.map_values(as_use()));
    } else {
        let front = asts.drop_last();
        let step = step_down(op, operands, asts.len() - 1);
        let below = walks(asts.last());
        lemma_walks_below(op, operands, front);
        law_uses_are_walks(asts.last());
        assert(qs.drop_last() =~= uses_below(op, operands, front));
        let words = step_spelling(step.0, step.1);
        let f = |u: Use| Use { var: u.var, path: words + u.path };
        lemma_map_bag(canon(asts.last()).uses, below.map_values(as_use()), f);
        assert(qs.last() =~= canon(asts.last()).uses.map_values(f));
        let more = walks_from(step, below);
        assert forall|k: int| 0 <= k < below.len() implies #[trigger] more.map_values(
            as_use(),
        )[k] == below.map_values(as_use()).map_values(f)[k] by {
            lemma_path_step(step.0, step.1, below[k].1);
        }
        assert(more.map_values(as_use()) =~= below.map_values(as_use()).map_values(f));
        let before = walks_below(op, operands, front);
        assert(all.map_values(as_use()) =~= before.map_values(as_use()) + more.map_values(
            as_use(),
        ));
        lemma_multiset_commutative(joined(qs.drop_last()), qs.last());
        lemma_multiset_commutative(before.map_values(as_use()), more.map_values(as_use()));
    }
}

/// Different walks are different uses.
pub proof fn law_walks_told_apart(a: Walk, b: Walk)
    requires
        as_use()(a) == as_use()(b),
    ensures
        a == b,
{
    let none = Seq::<u64>::empty();
    assert(path_spelling(a.1) + none =~= path_spelling(b.1) + none);
    law_path_read_back(a.1, b.1, none, none);
}

/// Where operand order matters, no walk through one operand of a node is recorded as a walk
/// through another.
pub proof fn law_positions_told_apart(ast: AstView, i: int, j: int, u: Seq<Step>, v: Seq<Step>)
    requires
        !(ast.op.opstring() == "__and__"@ || ast.op.opstring() == "__or__"@ || ast.op.opstring()
            == "__xor__"@ || ast.op.opstring() == "__add__"@ || ast.op.opstring() == "__mul__"@
            || ast.op.opstring() == "And"@ || ast.op.opstring() == "Or"@ || ast.op.opstring()
            == "Xor"@ || ast.op.opstring() == "__eq__"@ || ast.op.opstring() == "__ne__"@),
        0 <= i < ast.children.len(),
        0 <= j < ast.children.len(),
        i != j,
        ast.children.len() + 2 <= usize::MAX,
    ensures
        path_spelling(seq![step_down(ast.op, ast.children.len() as int, i)] + u)
            != path_spelling(seq![step_down(ast.op, ast.children.len() as int, j)] + v),
{
    let n = ast.children.len() as int;
    let (a, b) = (seq![step_down(ast.op, n, i)] + u, seq![step_down(ast.op, n, j)] + v);
    if path_spelling(a) == path_spelling(b) {
        let none = Seq::<u64>::empty();
        assert(path_spelling(a) + none =~= path_spelling(b) + none);
        law_path_read_back(a, b, none, none);
        assert(a[0] == b[0]);
    }
}

} // verus!
