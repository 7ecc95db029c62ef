//! Operator classes.
//!
//! Operators are grouped by op string: equality of floats is called "fpEQ" and
//! is not unordered, equality of bitvectors is called "__eq__" and is.
use crate::ast::{Ast, AstOp, AstRef, AstView, OpView, views};
use crate::text::same_text;
use std::sync::Arc;
use vstd::prelude::*;

verus! {

/// Ops that create a variable.
pub open spec fn symbol_op(op: Seq<char>) -> bool {
    op == "BVS"@ || op == "BoolS"@ || op == "FPS"@ || op == "StringS"@
}

/// Ops that create a constant.
pub open spec fn value_op(op: Seq<char>) -> bool {
    op == "BVV"@ || op == "BoolV"@ || op == "FPV"@ || op == "StringV"@
}

/// Ops where operand order does not matter.
pub open spec fn unordered_op(op: Seq<char>) -> bool {
    ||| op == "__and__"@
    ||| op == "__or__"@
    ||| op == "__xor__"@
    ||| op == "__add__"@
    ||| op == "__mul__"@
    ||| op == "And"@
    ||| op == "Or"@
    ||| op == "Xor"@
    ||| op == "__eq__"@
    ||| op == "__ne__"@
}

/// The comparison that means the same with its operands swapped, for the "less"
/// forms.
pub open spec fn greater_op(op: Seq<char>) -> Option<Seq<char>> {
    if op == "ULT"@ {
        Some("UGT"@)
    } else if op == "ULE"@ {
        Some("UGE"@)
    } else if op == "SLT"@ {
        Some("SGT"@)
    } else if op == "SLE"@ {
        Some("SGE"@)
    } else {
        None
    }
}

/// Ops that create a variable. The name is dropped when hashing, which is what
/// lets two variables of the same type with different names compare equal.
pub fn is_symbol_creation(op: &str) -> (yes: bool)
    ensures
        yes == symbol_op(op@),
{
    same_text(op, "BVS") || same_text(op, "BoolS") || same_text(op, "FPS") || same_text(
        op,
        "StringS",
    )
}

/// Ops that create a constant.
pub fn is_value_creation(op: &str) -> (yes: bool)
    ensures
        yes == value_op(op@),
{
    same_text(op, "BVV") || same_text(op, "BoolV") || same_text(op, "FPV") || same_text(
        op,
        "StringV",
    )
}

/// Ops where operand order does not matter. `__eq__` and `__ne__` count as
/// unordered here, though a simplifier need not treat them so.
pub fn is_commutative(op: &str) -> (yes: bool)
    ensures
        yes == unordered_op(op@),
{
    same_text(op, "__and__") || same_text(op, "__or__") || same_text(op, "__xor__") || same_text(
        op,
        "__add__",
    ) || same_text(op, "__mul__") || same_text(op, "And") || same_text(op, "Or") || same_text(
        op,
        "Xor",
    ) || same_text(op, "__eq__") || same_text(op, "__ne__")
}

/// Comparisons that mean the same thing with their operands swapped. Only the
/// "less" forms are listed, so the result always uses the "greater" form.
pub fn reversed_op(op: &str) -> (swapped: Option<&'static str>)
    ensures
        swapped is Some <==> greater_op(op@) is Some,
        swapped matches Some(name) ==> greater_op(op@) == Some(name@),
{
    if same_text(op, "ULT") {
        Some("UGT")
    } else if same_text(op, "ULE") {
        Some("UGE")
    } else if same_text(op, "SLT") {
        Some("SGT")
    } else if same_text(op, "SLE") {
        Some("SGE")
    } else {
        None
    }
}

impl AstView {
    /// Whether the node is a variable or a constant.
    pub open spec fn is_leaf(self) -> bool {
        symbol_op(self.op.opstring()) || value_op(self.op.opstring())
    }

    /// The node with its operands swapped, where it is a "less" comparison. It is a
    /// new node, which has no annotations.
    pub open spec fn swapped(self) -> Option<AstView> {
        match greater_op(self.op.opstring()) {
            Some(name) => Some(
                AstView {
                    op: OpView::Apply(name),
                    annotations: 0,
                    origin: self.origin,
                    children: self.children.reverse(),
                },
            ),
            None => None,
        }
    }
}

/// The operands of a node from the last to the first.
fn operands_backwards(ast: &AstRef) -> (operands: Vec<AstRef>)
    ensures
        views(operands@) == ast@.children.reverse(),
{
    let mut operands: Vec<AstRef> = Vec::new();
    let mut left: usize = ast.children.len();
    while left > 0
        invariant
            left <= ast.children@.len(),
            operands@.len() == ast.children@.len() - left,
            forall|i: int|
                0 <= i < operands@.len() ==> (#[trigger] operands@[i])@
                    == ast.children@[ast.children@.len() - 1 - i]@,
        decreases left,
    {
        left = left - 1;
        operands.push(ast.children[left].clone());
    }
    assert(views(operands@) =~= ast@.children.reverse());
    operands
}

/// The swapped node itself. Matches [`reversed_op`].
pub fn reverse(ast: &AstRef) -> (swapped: Option<AstRef>)
    ensures
        swapped is Some <==> ast@.swapped() is Some,
        swapped matches Some(node) ==> ast@.swapped() == Some(node@),
{
    let name = ast.to_opstring();
    match reversed_op(name.as_str()) {
        Some(greater) => {
            let children = operands_backwards(ast);
            let node = Ast {
                op: AstOp::Apply(greater.to_owned()),
                annotations: 0,
                origin: ast.origin,
                children,
            };
            assert(node@.children =~= views(children@));
            Some(Arc::new(node))
        },
        None => None,
    }
}

/// No op string is in two classes, and a swapped comparison is in none.
pub proof fn law_op_classes_apart(op: Seq<char>)
    ensures
        symbol_op(op) ==> !value_op(op) && !unordered_op(op) && greater_op(op) is None,
        value_op(op) ==> !unordered_op(op) && greater_op(op) is None,
        unordered_op(op) ==> greater_op(op) is None,
        greater_op(op) matches Some(name) ==> !symbol_op(name) && !value_op(name) && !unordered_op(
            name,
        ) && greater_op(name) is None,
{
    reveal_strlit("BVS");
    reveal_strlit("BoolS");
    reveal_strlit("FPS");
    reveal_strlit("StringS");
    reveal_strlit("BVV");
    reveal_strlit("BoolV");
    reveal_strlit("FPV");
    reveal_strlit("StringV");
    reveal_strlit("__and__");
    reveal_strlit("__or__");
    reveal_strlit("__xor__");
    reveal_strlit("__add__");
    reveal_strlit("__mul__");
    reveal_strlit("And");
    reveal_strlit("Or");
    reveal_strlit("Xor");
    reveal_strlit("__eq__");
    reveal_strlit("__ne__");
    reveal_strlit("ULT");
    reveal_strlit("ULE");
    reveal_strlit("SLT");
    reveal_strlit("SLE");
    reveal_strlit("UGT");
    reveal_strlit("UGE");
    reveal_strlit("SGT");
    reveal_strlit("SGE");
    // Variables end in S, constants in V, unordered ops in neither; comparisons
    // are told apart by their second letter.
    assert(symbol_op(op) ==> op.len() >= 3 && op.last() == 'S');
    assert(value_op(op) ==> op.len() >= 3 && op.last() == 'V');
    assert(unordered_op(op) ==> op.len() >= 2 && op.last() != 'S' && op.last() != 'V' && op[1]
        != 'L' && op[1] != 'G');
    assert(greater_op(op) is Some ==> op.len() == 3 && op[1] == 'L' && op.last() != 'S'
        && op.last() != 'V');
    if let Some(name) = greater_op(op) {
        assert(name.len() == 3 && name[1] == 'G' && (name[2] == 'T' || name[2] == 'E'));
        assert(symbol_op(name) ==> name.last() == 'S');
        assert(value_op(name) ==> name.last() == 'V');
        assert(unordered_op(name) ==> name[1] != 'G');
        assert(greater_op(name) is Some ==> name[1] == 'L');
    }
}

} // verus!
