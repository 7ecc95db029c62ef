use std::sync::Arc;
use veribin::ast::{Ast, AstOp, AstRef};
use veribin::canonical::{canon_args, canonical_hash, is_countable, leaf_hash};
use veribin::uses::count_uses;
use veribin::words::{hash_debug, hash_number, hash_of};

fn node(op: AstOp, children: Vec<AstRef>) -> AstRef {
    Arc::new(Ast { op, annotations: 0, origin: 0, children })
}

fn bvs(name: &str) -> AstRef {
    node(AstOp::BVS(name.to_string(), 64), vec![])
}

fn bvv(value: u8) -> AstRef {
    node(AstOp::BVV(vec![value], 64), vec![])
}

fn apply(op: &str, children: Vec<AstRef>) -> AstRef {
    node(AstOp::Apply(op.to_string()), children)
}

fn hash(ast: &AstRef) -> u64 {
    assert!(is_countable(ast));
    canonical_hash(ast)
}

#[test]
fn names_are_ignored() {
    assert_eq!(hash(&bvs("x")), hash(&bvs("y")));
    let a = apply("__sub__", vec![bvs("x"), bvs("y")]);
    let b = apply("__sub__", vec![bvs("p"), bvs("q")]);
    let c = apply("__sub__", vec![bvs("y"), bvs("x")]);
    assert_eq!(hash(&a), hash(&b));
    assert_eq!(hash(&a), hash(&c));
}

#[test]
fn how_often_a_variable_is_used_counts() {
    let a = apply("__add__", vec![bvs("x"), bvs("x")]);
    let b = apply("__add__", vec![bvs("x"), bvs("y")]);
    assert_ne!(hash(&a), hash(&b));
}

#[test]
fn where_a_variable_is_used_counts() {
    // x - (x - y) against x - (y - x)
    let a = apply("__sub__", vec![bvs("x"), apply("__sub__", vec![bvs("x"), bvs("y")])]);
    let b = apply("__sub__", vec![bvs("x"), apply("__sub__", vec![bvs("y"), bvs("x")])]);
    assert_ne!(hash(&a), hash(&b));
}

#[test]
fn types_of_variables_count() {
    let narrow = node(AstOp::BVS("x".to_string(), 32), vec![]);
    assert_ne!(hash(&bvs("x")), hash(&narrow));
    let flag = node(AstOp::BoolS("x".to_string()), vec![]);
    let text = node(AstOp::StringS("x".to_string()), vec![]);
    let float = node(AstOp::FPS("x".to_string(), "F32".to_string()), vec![]);
    let double = node(AstOp::FPS("x".to_string(), "F64".to_string()), vec![]);
    assert_ne!(hash(&flag), hash(&text));
    assert_ne!(hash(&float), hash(&double));
    assert_eq!(hash(&float), hash(&node(AstOp::FPS("y".to_string(), "F32".to_string()), vec![])));
}

#[test]
fn constants_count() {
    assert_ne!(hash(&bvv(1)), hash(&bvv(2)));
    assert_ne!(hash(&bvv(1)), hash(&node(AstOp::BVV(vec![1], 32), vec![])));
    let yes = node(AstOp::BoolV(true), vec![]);
    let no = node(AstOp::BoolV(false), vec![]);
    assert_ne!(hash(&yes), hash(&no));
    let a = node(AstOp::StringV("a".to_string()), vec![]);
    let b = node(AstOp::StringV("b".to_string()), vec![]);
    assert_ne!(hash(&a), hash(&b));
    let one = node(AstOp::FPV("1.0".to_string()), vec![]);
    let two = node(AstOp::FPV("2.0".to_string()), vec![]);
    assert_ne!(hash(&one), hash(&two));
    assert_eq!(hash(&one), hash(&node(AstOp::FPV("1.0".to_string()), vec![])));
}

#[test]
fn operand_order_is_ignored_where_it_does_not_matter() {
    for op in [
        "__and__", "__or__", "__xor__", "__add__", "__mul__", "And", "Or", "Xor", "__eq__", "__ne__",
    ] {
        let a = apply(op, vec![bvs("x"), bvv(1)]);
        let b = apply(op, vec![bvv(1), bvs("x")]);
        assert_eq!(hash(&a), hash(&b), "{}", op);
    }
}

#[test]
fn operand_order_counts_elsewhere() {
    for op in ["__sub__", "fpEQ", "Concat", "UGT"] {
        let a = apply(op, vec![bvs("x"), bvv(1)]);
        let b = apply(op, vec![bvv(1), bvs("x")]);
        assert_ne!(hash(&a), hash(&b), "{}", op);
    }
}

#[test]
fn more_than_two_operands_in_any_order() {
    let a = apply("And", vec![bvs("x"), bvv(1), bvv(2)]);
    let b = apply("And", vec![bvv(2), bvs("y"), bvv(1)]);
    assert_eq!(hash(&a), hash(&b));
}

#[test]
fn comparisons_hash_as_their_swapped_form() {
    for (less, greater) in [("ULT", "UGT"), ("ULE", "UGE"), ("SLT", "SGT"), ("SLE", "SGE")] {
        let a = apply(less, vec![bvs("x"), bvv(1)]);
        let b = apply(greater, vec![bvv(1), bvs("x")]);
        let c = apply(greater, vec![bvs("x"), bvv(1)]);
        assert_eq!(hash(&a), hash(&b));
        assert_ne!(hash(&a), hash(&c));
    }
}

#[test]
fn comparisons_below_other_nodes() {
    let a = apply("Not", vec![apply("ULT", vec![bvs("x"), bvs("y")])]);
    let b = apply("Not", vec![apply("UGT", vec![bvs("u"), bvs("v")])]);
    assert_eq!(hash(&a), hash(&b));
}

#[test]
fn operator_hidden_without_variables() {
    let sum = apply("__add__", vec![bvv(1), bvv(2)]);
    let product = apply("__mul__", vec![bvv(1), bvv(2)]);
    assert_eq!(hash(&sum), hash(&product));
    let sum = apply("__add__", vec![bvs("x"), bvv(2)]);
    let product = apply("__mul__", vec![bvs("x"), bvv(2)]);
    assert_ne!(hash(&sum), hash(&product));
}

#[test]
fn numbers_tell_nodes_apart() {
    let low = node(AstOp::Extract(7, 0), vec![bvs("x")]);
    let high = node(AstOp::Extract(15, 8), vec![bvs("x")]);
    assert_ne!(hash(&low), hash(&high));
    let a = node(AstOp::ZeroExt(8), vec![bvs("x")]);
    let b = node(AstOp::ZeroExt(16), vec![bvs("x")]);
    let c = node(AstOp::SignExt(8), vec![bvs("x")]);
    assert_ne!(hash(&a), hash(&b));
    assert_ne!(hash(&a), hash(&c));
}

#[test]
fn rounding_modes_tell_nodes_apart() {
    let x = || node(AstOp::FPS("x".to_string(), "F32".to_string()), vec![]);
    let (even, zero) = ("NearestTiesToEven".to_string(), "TowardsZero".to_string());
    let pairs = vec![
        (AstOp::FpAdd(even.clone()), AstOp::FpAdd(zero.clone())),
        (AstOp::FpSub(even.clone()), AstOp::FpSub(zero.clone())),
        (AstOp::FpMul(even.clone()), AstOp::FpMul(zero.clone())),
        (AstOp::FpDiv(even.clone()), AstOp::FpDiv(zero.clone())),
        (AstOp::FpSqrt(even.clone()), AstOp::FpSqrt(zero.clone())),
    ];
    for (a, b) in pairs {
        assert_ne!(hash(&node(a, vec![x(), x()])), hash(&node(b, vec![x(), x()])));
    }
}

#[test]
fn other_fields_do_not_show() {
    let a = node(AstOp::ApplyWith("fpToFP".to_string(), "F32".to_string()), vec![bvs("x")]);
    let b = node(AstOp::ApplyWith("fpToFP".to_string(), "F64".to_string()), vec![bvs("x")]);
    let c = node(AstOp::Apply("fpToFP".to_string()), vec![bvs("x")]);
    assert_eq!(hash(&a), hash(&b));
    assert_eq!(hash(&a), hash(&c));
}

#[test]
fn arguments_of_nodes() {
    assert_eq!(
        canon_args(&node(AstOp::Extract(7, 0), vec![bvs("x")])),
        (vec![hash_number(7), hash_number(0)], vec![]),
    );
    assert_eq!(
        canon_args(&node(AstOp::FpSqrt("rm".to_string()), vec![bvs("x")])),
        (vec![], vec![hash_debug("rm")]),
    );
    assert_eq!(canon_args(&apply("__add__", vec![bvs("x")])), (vec![], vec![]));
    assert_ne!(hash_debug("rm"), hash_debug("rn"));
    assert_ne!(hash_number(7), hash_number(0));
    assert_eq!(hash_number(7), hash_of(&vec![7]));
    assert_ne!(hash_of(&vec![7]), hash_of(&vec![7, 0]));
}

#[test]
fn leaf_hashes() {
    assert_eq!(leaf_hash(&bvs("x")), leaf_hash(&bvs("y")));
    assert_eq!(leaf_hash(&bvs("x")), hash(&bvs("x")));
    assert_ne!(leaf_hash(&bvs("x")), leaf_hash(&bvv(0)));
}

#[test]
fn annotations_tell_variables_apart() {
    let marked = Arc::new(Ast {
        op: AstOp::BVS("x".to_string(), 64),
        annotations: 7,
        origin: 0,
        children: vec![],
    });
    let a = apply("__add__", vec![bvs("x"), bvs("x")]);
    let b = apply("__add__", vec![bvs("x"), marked.clone()]);
    let c = apply("__add__", vec![bvs("x"), bvs("y")]);
    assert_ne!(hash(&a), hash(&b));
    assert_eq!(hash(&b), hash(&c));
    assert_eq!(hash(&marked), hash(&bvs("x")));
}

#[test]
fn where_a_node_comes_from_does_not_show() {
    let other = Arc::new(Ast {
        op: AstOp::BVS("x".to_string(), 64),
        annotations: 0,
        origin: 9,
        children: vec![],
    });
    let a = apply("__add__", vec![bvs("x"), bvs("x")]);
    let b = apply("__add__", vec![bvs("x"), other]);
    assert_eq!(hash(&a), hash(&b));
}

#[test]
fn shared_expressions_are_hashed_once() {
    // Each level uses the level below twice.
    let mut shared = bvs("x");
    for level in 0..63 {
        shared = Arc::new(Ast {
            op: AstOp::Apply("__add__".to_string()),
            annotations: 0,
            origin: level + 1,
            children: vec![shared.clone(), shared.clone()],
        });
    }
    assert!(is_countable(&shared));
    let same = canonical_hash(&shared);
    assert_eq!(same, canonical_hash(&shared));
    let too_much = apply("__add__", vec![shared.clone(), shared.clone()]);
    assert!(!is_countable(&too_much));
    // Two variables may be used too often together, as long as each is not.
    let mut other = bvs("y");
    for level in 0..63 {
        other = Arc::new(Ast {
            op: AstOp::Apply("__add__".to_string()),
            annotations: 0,
            origin: 100 + level,
            children: vec![other.clone(), other.clone()],
        });
    }
    assert!(is_countable(&apply("__add__", vec![shared, other])));
}

#[test]
fn expressions_with_the_same_origin_are_told_apart() {
    let one = node(AstOp::BVV(vec![1], 64), vec![]);
    let two = node(AstOp::BVV(vec![2], 64), vec![]);
    let a = apply("__add__", vec![one.clone(), one.clone()]);
    let b = apply("__add__", vec![one.clone(), two.clone()]);
    assert_ne!(hash(&a), hash(&b));
}

#[test]
fn uses_are_counted() {
    let sum = apply("__add__", vec![bvs("x"), bvv(1), bvs("x"), bvs("y")]);
    assert_eq!(count_uses(&sum), Some(3));
    assert_eq!(count_uses(&bvs("x")), Some(1));
    assert_eq!(count_uses(&bvv(1)), Some(0));
}

#[test]
fn nodes_without_operands() {
    assert_eq!(hash(&apply("And", vec![])), hash(&apply("Or", vec![])));
}
