use std::sync::Arc;
use veribin::ast::{Ast, AstOp, AstRef};
use veribin::canonical::canonical_hash;
use veribin::rewrite::{canonicalize, is_sortable, normalize_names};
use veribin::uses::count_uses;

fn node(op: AstOp, children: Vec<AstRef>) -> AstRef {
    Arc::new(Ast { op, annotations: 0, origin: 0, children })
}

fn bvs(name: &str) -> AstRef {
    node(AstOp::BVS(name.to_string(), 64), vec![])
}

fn bvv(value: u8) -> AstRef {
    node(AstOp::BVV(vec![value], 64), vec![])
}

fn apply(op: &str, children: Vec<AstRef>) -> AstRef {
    node(AstOp::Apply(op.to_string()), children)
}

fn rewritten(ast: &AstRef, rename: bool) -> AstRef {
    assert!(is_sortable(ast));
    assert!(matches!(count_uses(ast), Some(n) if n < 1000));
    canonicalize(ast, rename)
}

#[test]
fn every_use_is_numbered() {
    let twice = apply("__sub__", vec![bvs("x"), bvs("x")]);
    let named = normalize_names(&twice);
    assert_eq!(named, apply("__sub__", vec![bvs("var_0"), bvs("var_1")]));
    let two = apply("__sub__", vec![bvs("x"), bvs("y")]);
    assert_eq!(normalize_names(&two), named);
    assert_eq!(normalize_names(&named), named);
}

#[test]
fn sums_of_one_and_of_two_variables_come_out_the_same() {
    let a = rewritten(&apply("__add__", vec![bvs("x"), bvs("x")]), true);
    let b = rewritten(&apply("__add__", vec![bvs("x"), bvs("y")]), true);
    assert_eq!(a, b);
    assert_eq!(a, apply("__add__", vec![bvs("var_0"), bvs("var_1")]));
    // Numbering uses apart changes the hash of an expression that uses one twice.
    assert_ne!(
        canonical_hash(&apply("__add__", vec![bvs("x"), bvs("x")])),
        canonical_hash(&a),
    );
}

#[test]
fn numbers_have_more_than_one_digit() {
    let names: Vec<AstRef> = (0..12).map(|_| bvs("x")).collect();
    let named = normalize_names(&apply("Concat", names));
    assert_eq!(named.children[9], bvs("var_9"));
    assert_eq!(named.children[10], bvs("var_10"));
    assert_eq!(named.children[11], bvs("var_11"));
}

#[test]
fn numbering_goes_down_first() {
    let inner = apply("__sub__", vec![bvs("a"), bvv(3), bvs("b")]);
    let outer = apply("__sub__", vec![inner, bvs("c")]);
    let named = normalize_names(&outer);
    let inner = apply("__sub__", vec![bvs("var_0"), bvv(3), bvs("var_1")]);
    assert_eq!(named, apply("__sub__", vec![inner, bvs("var_2")]));
}

#[test]
fn renaming_keeps_types_and_drops_annotations() {
    let flag = Arc::new(Ast {
        op: AstOp::BoolS("x".to_string()),
        annotations: 5,
        origin: 0,
        children: vec![],
    });
    assert_eq!(normalize_names(&flag), node(AstOp::BoolS("var_0".to_string()), vec![]));
    let float = node(AstOp::FPS("x".to_string(), "F64".to_string()), vec![]);
    assert_eq!(
        normalize_names(&float),
        node(AstOp::FPS("var_0".to_string(), "F64".to_string()), vec![]),
    );
    let text = node(AstOp::StringS("x".to_string()), vec![]);
    assert_eq!(normalize_names(&text), node(AstOp::StringS("var_0".to_string()), vec![]));
    assert_eq!(normalize_names(&bvv(4)), bvv(4));
}

#[test]
fn numbering_different_variables_keeps_the_hash() {
    let a = apply("__sub__", vec![bvs("x"), apply("__add__", vec![bvs("y"), bvv(1)])]);
    assert_eq!(canonical_hash(&normalize_names(&a)), canonical_hash(&a));
}

#[test]
fn unordered_operands_are_sorted() {
    let a = apply("__add__", vec![bvs("x"), bvv(1), bvv(2)]);
    let b = apply("__add__", vec![bvv(2), bvs("x"), bvv(1)]);
    assert_eq!(rewritten(&a, false), rewritten(&b, false));
    assert_eq!(rewritten(&a, true), rewritten(&b, true));
    assert_eq!(rewritten(&a, true).children.len(), 3);
}

#[test]
fn operands_with_the_same_hash_keep_their_order() {
    let sum = apply("__add__", vec![bvv(1), bvv(2)]);
    let product = apply("__mul__", vec![bvv(1), bvv(2)]);
    let a = rewritten(&apply("__and__", vec![sum.clone(), product.clone()]), true);
    let b = rewritten(&apply("__and__", vec![product, sum]), true);
    assert_ne!(a, b);
    assert_eq!(a.children[0].op, AstOp::Apply("__add__".to_string()));
    assert_eq!(b.children[0].op, AstOp::Apply("__mul__".to_string()));
    assert_eq!(canonical_hash(&a), canonical_hash(&b));
    let xy = apply("__add__", vec![bvs("x"), bvs("y")]);
    assert_eq!(rewritten(&xy, false), xy);
    let yx = apply("__add__", vec![bvs("y"), bvs("x")]);
    assert_eq!(rewritten(&yx, false), yx);
    assert_eq!(rewritten(&xy, true), rewritten(&yx, true));
}

#[test]
fn comparisons_are_swapped() {
    for (less, greater) in [("ULT", "UGT"), ("ULE", "UGE"), ("SLT", "SGT"), ("SLE", "SGE")] {
        let a = apply(less, vec![bvs("x"), bvv(1)]);
        let b = apply(greater, vec![bvv(1), bvs("x")]);
        assert_eq!(rewritten(&a, false), b);
        assert_eq!(rewritten(&b, false), b);
        assert_eq!(rewritten(&a, true), rewritten(&b, true));
    }
}

#[test]
fn comparisons_below_unordered_operators_are_swapped() {
    let a = apply("And", vec![apply("ULT", vec![bvs("x"), bvs("y")]), bvs("z")]);
    let b = apply("And", vec![bvs("z"), apply("UGT", vec![bvs("y"), bvs("x")])]);
    assert_eq!(rewritten(&a, false), rewritten(&b, false));
    assert_eq!(rewritten(&a, true), rewritten(&b, true));
}

#[test]
fn unordered_operands_are_rewritten_in_turn() {
    let a = apply(
        "__xor__",
        vec![apply("__add__", vec![bvs("x"), bvv(1)]), apply("__mul__", vec![bvv(3), bvs("y")])],
    );
    let b = apply(
        "__xor__",
        vec![apply("__mul__", vec![bvs("q"), bvv(3)]), apply("__add__", vec![bvv(1), bvs("p")])],
    );
    assert_eq!(rewritten(&a, true), rewritten(&b, true));
}

#[test]
fn other_operands_are_left_as_written() {
    let a = apply("__sub__", vec![bvs("c"), apply("__add__", vec![bvs("x"), bvv(1)])]);
    let b = apply("__sub__", vec![bvs("c"), apply("__add__", vec![bvv(1), bvs("x")])]);
    assert_eq!(rewritten(&a, false), a);
    assert_eq!(rewritten(&b, false), b);
    assert_eq!(canonical_hash(&a), canonical_hash(&b));
    assert_ne!(rewritten(&a, true), rewritten(&b, true));
}

#[test]
fn operands_of_comparisons_are_left_as_written() {
    let sum = apply("__add__", vec![bvv(2), bvv(1), bvs("x")]);
    let a = apply("ULT", vec![sum.clone(), bvs("y")]);
    assert_eq!(rewritten(&a, false), apply("UGT", vec![bvs("y"), sum]));
}

#[test]
fn rewriting_twice_changes_nothing_more() {
    let a = apply(
        "And",
        vec![
            apply("ULT", vec![bvs("x"), bvs("y")]),
            apply("Or", vec![bvs("z"), bvv(1), bvv(0)]),
            bvs("w"),
        ],
    );
    let once = rewritten(&a, false);
    assert_eq!(rewritten(&once, false), once);
    assert_eq!(canonical_hash(&once), canonical_hash(&a));
}

#[test]
fn leaves_stay() {
    assert_eq!(rewritten(&bvs("x"), false), bvs("x"));
    assert_eq!(rewritten(&bvs("x"), true), bvs("var_0"));
    assert_eq!(rewritten(&bvv(3), true), bvv(3));
}

#[test]
fn rebuilt_nodes_keep_what_they_have() {
    let a = Arc::new(Ast {
        op: AstOp::ApplyWith("fpToFP".to_string(), "F32".to_string()),
        annotations: 3,
        origin: 8,
        children: vec![bvs("x")],
    });
    let named = normalize_names(&a);
    assert_eq!(named.op, a.op);
    assert_eq!(named.annotations, 3);
    assert_eq!(named.origin, 8);
    assert_eq!(named.children, vec![bvs("var_0")]);
}

#[test]
fn too_many_uses_are_not_sorted() {
    let mut shared = bvs("x");
    for level in 0..64 {
        shared = Arc::new(Ast {
            op: AstOp::Apply("__and__".to_string()),
            annotations: 0,
            origin: level + 1,
            children: vec![shared.clone(), shared.clone()],
        });
    }
    assert!(is_sortable(&apply("__sub__", vec![shared.clone(), shared.clone()])));
    assert!(!is_sortable(&apply("__and__", vec![shared, bvs("y")])));
}

#[test]
fn rewriting_and_numbering_different_variables_keep_the_hash() {
    let less = apply("ULT", vec![bvs("x"), apply("__sub__", vec![bvs("y"), bvv(1)])]);
    let a = apply("And", vec![less, bvs("z"), bvv(1)]);
    let form = rewritten(&a, true);
    assert_eq!(canonical_hash(&form), canonical_hash(&a));
    assert_eq!(count_uses(&form), Some(3));
}

#[test]
fn rewriting_keeps_the_variables() {
    let a = apply("Or", vec![bvs("x"), apply("SLE", vec![bvs("y"), bvs("x")]), bvv(2)]);
    let mut names = Vec::new();
    let mut open = vec![rewritten(&a, false)];
    while let Some(ast) = open.pop() {
        if let AstOp::BVS(name, _) = &ast.op {
            names.push(name.clone());
        }
        open.extend(ast.children.iter().cloned());
    }
    names.sort();
    assert_eq!(names, vec!["x".to_string(), "x".to_string(), "y".to_string()]);
}
