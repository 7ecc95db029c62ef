//! Which op strings the rules know, and what those mean.
use crate::ast::{AstView, OpView};
use crate::ops::{greater_op, symbol_op, unordered_op, value_op};
use vstd::prelude::*;

verus! {

/// The variables, the constants and the unordered ops are these and no others, whatever
/// the op string.
pub proof fn law_op_classes(op: Seq<char>)
    ensures
        symbol_op(op) <==> op == "BVS"@ || op == "BoolS"@ || op == "FPS"@ || op == "StringS"@,
        value_op(op) <==> op == "BVV"@ || op == "BoolV"@ || op == "FPV"@ || op == "StringV"@,
        unordered_op(op) <==> op == "__and__"@ || op == "__or__"@ || op == "__xor__"@ || op
            == "__add__"@ || op == "__mul__"@ || op == "And"@ || op == "Or"@ || op == "Xor"@ || op
            == "__eq__"@ || op == "__ne__"@,
{
}

/// Variables and constants are leaves, by their op strings, and nothing else is.
pub proof fn law_leaves(ast: AstView)
    ensures
        ast.is_leaf() <==> ast.op.opstring() == "BVS"@ || ast.op.opstring() == "BoolS"@
            || ast.op.opstring() == "FPS"@ || ast.op.opstring() == "StringS"@
            || ast.op.opstring() == "BVV"@ || ast.op.opstring() == "BoolV"@ || ast.op.opstring()
            == "FPV"@ || ast.op.opstring() == "StringV"@,
{
}

/// The four "less" comparisons of bitvectors are swapped, each for the "greater" one with
/// the same sign and strictness, and no other op string is.
pub proof fn law_swapped_ops(op: Seq<char>)
    ensures
        greater_op(op) is Some <==> op == "ULT"@ || op == "ULE"@ || op == "SLT"@ || op == "SLE"@,
        greater_op("ULT"@) == Some("UGT"@),
        greater_op("ULE"@) == Some("UGE"@),
        greater_op("SLT"@) == Some("SGT"@),
        greater_op("SLE"@) == Some("SGE"@),
{
    reveal_strlit("ULT");
    reveal_strlit("ULE");
    reveal_strlit("SLT");
    reveal_strlit("SLE");
    assert("ULT"@[0] != "SLT"@[0]);
    assert("ULT"@[2] != "ULE"@[2]);
    assert("ULT"@[2] != "SLE"@[2]);
    assert("SLT"@[2] != "SLE"@[2]);
    assert("ULE"@[0] != "SLE"@[0]);
    assert("ULE"@[0] != "SLT"@[0]);
}

/// Whether a comparison of two 64-bit bitvectors holds, for the ops that compare.
pub open spec fn comparison(op: Seq<char>, a: u64, b: u64) -> Option<bool> {
    if op == "ULT"@ {
        Some(a < b)
    } else if op == "ULE"@ {
        Some(a <= b)
    } else if op == "UGT"@ {
        Some(a > b)
    } else if op == "UGE"@ {
        Some(a >= b)
    } else if op == "SLT"@ {
        Some(signed(a) < signed(b))
    } else if op == "SLE"@ {
        Some(signed(a) <= signed(b))
    } else if op == "SGT"@ {
        Some(signed(a) > signed(b))
    } else if op == "SGE"@ {
        Some(signed(a) >= signed(b))
    } else {
        None
    }
}

/// The number that the bits stand for in two's complement.
pub open spec fn signed(a: u64) -> int {
    if a < 0x8000_0000_0000_0000 {
        a as int
    } else {
        a - 0x1_0000_0000_0000_0000
    }
}

/// A swapped comparison holds just when the comparison does.
pub proof fn law_swapped_comparison_means_the_same(op: Seq<char>, a: u64, b: u64)
    requires
        greater_op(op) is Some,
    ensures
        comparison(op, a, b) is Some,
        comparison(greater_op(op)->0, b, a) == comparison(op, a, b),
{
    reveal_strlit("ULT");
    reveal_strlit("ULE");
    reveal_strlit("SLT");
    reveal_strlit("SLE");
    reveal_strlit("UGT");
    reveal_strlit("UGE");
    reveal_strlit("SGT");
    reveal_strlit("SGE");
    let name = greater_op(op)->0;
    assert(op.len() == 3 && op[1] == 'L' && name.len() == 3 && name[1] == 'G');
    assert(name[0] == op[0] && name[2] == op[2]);
    assert(op[0] == 'U' || op[0] == 'S');
    assert(op[2] == 'T' || op[2] == 'E');
    assert("UGT"@[2] != "UGE"@[2]);
    assert("UGT"@[0] != "SGT"@[0]);
    assert("SGT"@[2] != "SGE"@[2]);
    assert("UGE"@[0] != "SGE"@[0]);
    assert("UGE"@[0] != "SGT"@[0]);
    assert("UGT"@[0] != "SGE"@[0]);
    assert("ULT"@[1] != "UGT"@[1]);
    assert("ULT"@[0] != "SLT"@[0]);
    assert("ULT"@[2] != "ULE"@[2]);
    assert("SLT"@[2] != "SLE"@[2]);
    assert("ULE"@[0] != "SLE"@[0]);
    assert("ULE"@[0] != "SLT"@[0]);
    assert("ULT"@[0] != "SLE"@[0]);
    assert(name != "ULT"@ && name != "ULE"@ && name != "SLT"@ && name != "SLE"@);
}

/// A number for a truth value.
pub open spec fn flag(holds: bool) -> u64 {
    if holds {
        1
    } else {
        0
    }
}

/// What an operation makes of two 64-bit bitvectors, or of two truth values, for the ops
/// that are the same either way round.
pub open spec fn operation(op: Seq<char>, a: u64, b: u64) -> Option<u64> {
    if op == "__and__"@ {
        Some(a & b)
    } else if op == "__or__"@ {
        Some(a | b)
    } else if op == "__xor__"@ {
        Some(a ^ b)
    } else if op == "__add__"@ {
        Some((a + b) as u64)
    } else if op == "__mul__"@ {
        Some((a * b) as u64)
    } else if op == "__eq__"@ {
        Some(flag(a == b))
    } else if op == "__ne__"@ {
        Some(flag(a != b))
    } else if op == "And"@ {
        Some(flag(a != 0 && b != 0))
    } else if op == "Or"@ {
        Some(flag(a != 0 || b != 0))
    } else if op == "Xor"@ {
        Some(flag((a != 0) != (b != 0)))
    } else {
        None
    }
}

/// An unordered op makes the same of two values either way round.
pub proof fn law_unordered_ops_commute(op: Seq<char>, a: u64, b: u64)
    requires
        unordered_op(op),
    ensures
        operation(op, a, b) is Some,
        operation(op, a, b) == operation(op, b, a),
{
    assert(a & b == b & a) by (bit_vector);
    assert(a | b == b | a) by (bit_vector);
    assert(a ^ b == b ^ a) by (bit_vector);
    assert(a * b == b * a) by (nonlinear_arith);
}

/// A swapped node is the "greater" comparison of the same operands, the last one first.
/// It is a new node: it has no annotations.
pub proof fn law_swapped_node(ast: AstView)
    ensures
        ast.swapped() is Some <==> ast.op.opstring() == "ULT"@ || ast.op.opstring() == "ULE"@
            || ast.op.opstring() == "SLT"@ || ast.op.opstring() == "SLE"@,
        ast.swapped() matches Some(node) ==> {
            &&& ast.op.opstring() == "ULT"@ ==> node.op == OpView::Apply("UGT"@)
            &&& ast.op.opstring() == "ULE"@ ==> node.op == OpView::Apply("UGE"@)
            &&& ast.op.opstring() == "SLT"@ ==> node.op == OpView::Apply("SGT"@)
            &&& ast.op.opstring() == "SLE"@ ==> node.op == OpView::Apply("SGE"@)
            &&& node.annotations == 0
            &&& node.origin == ast.origin
            &&& node.children.len() == ast.children.len()
            &&& forall|i: int|
                0 <= i < ast.children.len() ==> #[trigger] node.children[i]
                    == ast.children[ast.children.len() - 1 - i]
        },
{
    law_swapped_ops(ast.op.opstring());
}

/// What each operator is called, whatever else it has.
pub proof fn law_op_strings(
    text: Seq<char>,
    other: Seq<char>,
    bytes: Seq<u8>,
    m: u32,
    n: u32,
    b: bool,
)
    ensures
        OpView::BVS(text, m).opstring() == "BVS"@,
        OpView::BoolS(text).opstring() == "BoolS"@,
        OpView::FPS(text, other).opstring() == "FPS"@,
        OpView::StringS(text).opstring() == "StringS"@,
        OpView::BVV(bytes, m).opstring() == "BVV"@,
        OpView::BoolV(b).opstring() == "BoolV"@,
        OpView::FPV(text).opstring() == "FPV"@,
        OpView::StringV(text).opstring() == "StringV"@,
        OpView::ZeroExt(m).opstring() == "ZeroExt"@,
        OpView::SignExt(m).opstring() == "SignExt"@,
        OpView::Extract(m, n).opstring() == "Extract"@,
        OpView::FpAdd(text).opstring() == "fpAdd"@,
        OpView::FpSub(text).opstring() == "fpSub"@,
        OpView::FpMul(text).opstring() == "fpMul"@,
        OpView::FpDiv(text).opstring() == "fpDiv"@,
        OpView::FpSqrt(text).opstring() == "fpSqrt"@,
        OpView::Apply(text).opstring() == text,
        OpView::ApplyWith(text, other).opstring() == text,
{
}

/// A renamed operator has the new name and the type that it had; one that has no name
/// stays as it is.
pub proof fn law_renamed_op(op: OpView, name: Seq<char>)
    ensures
        match op {
            OpView::BVS(_, size) => op.renamed(name) == OpView::BVS(name, size),
            OpView::BoolS(_) => op.renamed(name) == OpView::BoolS(name),
            OpView::FPS(_, sort) => op.renamed(name) == OpView::FPS(name, sort),
            OpView::StringS(_) => op.renamed(name) == OpView::StringS(name),
            _ => op.renamed(name) == op,
        },
        op.has_name() <==> op is BVS || op is BoolS || op is FPS || op is StringS,
{
}

/// A node over other operands has those operands, and all else that it had.
pub proof fn law_node_over(ast: AstView, children: Seq<AstView>)
    ensures
        ast.over(children).op == ast.op,
        ast.over(children).annotations == ast.annotations,
        ast.over(children).origin == ast.origin,
        ast.over(children).children == children,
{
}

/// A renamed variable has no annotations and no operands; a node without a name stays as
/// it is.
pub proof fn law_renamed_node(ast: AstView, name: Seq<char>)
    ensures
        ast.renamed(name).op == ast.op.renamed(name),
        ast.renamed(name).origin == ast.origin,
        ast.op is BVS || ast.op is BoolS || ast.op is FPS || ast.op is StringS ==> ast.renamed(
            name,
        ).annotations == 0 && ast.renamed(name).children.len() == 0,
        !(ast.op is BVS || ast.op is BoolS || ast.op is FPS || ast.op is StringS) ==> ast.renamed(
            name,
        ) == ast,
{
}

} // verus!
