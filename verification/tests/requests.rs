use std::sync::Arc;
use veribin::ast::{Ast, AstOp, AstRef};
use veribin::cache_key::ASTCacheKey;
use veribin::canonical::canonical_hash;
use veribin::error::ClaripyError;
use veribin::make_like::{Arg, make_like};
use veribin::ops::{is_commutative, is_symbol_creation, is_value_creation, reverse, reversed_op};
use veribin::text::{decimal_text, var_text};

fn node(op: AstOp, children: Vec<AstRef>) -> AstRef {
    Arc::new(Ast { op, annotations: 0, origin: 0, children })
}

fn bvs(name: &str) -> AstRef {
    node(AstOp::BVS(name.to_string(), 64), vec![])
}

fn apply(op: &str, children: Vec<AstRef>) -> AstRef {
    node(AstOp::Apply(op.to_string()), children)
}

fn refused(text: &str) -> Result<AstRef, ClaripyError> {
    Err(ClaripyError::TypeError(text.to_string()))
}

#[test]
fn variables_are_renamed() {
    let leaf = Arc::new(Ast {
        op: AstOp::BVS("reg_rdi_12_64".to_string(), 64),
        annotations: 4,
        origin: 2,
        children: vec![],
    });
    let made = make_like(&leaf, "BVS", vec![Arg::Text("reg_rdi".to_string())]).unwrap();
    assert_eq!(made.op, AstOp::BVS("reg_rdi".to_string(), 64));
    assert_eq!(made.annotations, 0);
    assert_eq!(canonical_hash(&made), canonical_hash(&leaf));
    let flag = node(AstOp::BoolS("a".to_string()), vec![]);
    assert_eq!(
        make_like(&flag, "BoolS", vec![Arg::Text("b".to_string()), Arg::Other]),
        Ok(node(AstOp::BoolS("b".to_string()), vec![])),
    );
    let float = node(AstOp::FPS("a".to_string(), "F64".to_string()), vec![]);
    assert_eq!(
        make_like(&float, "FPS", vec![Arg::Text("b".to_string())]),
        Ok(node(AstOp::FPS("b".to_string(), "F64".to_string()), vec![])),
    );
    let text = node(AstOp::StringS("a".to_string()), vec![]);
    assert_eq!(
        make_like(&text, "StringS", vec![Arg::Text("b".to_string())]),
        Ok(node(AstOp::StringS("b".to_string()), vec![])),
    );
}

#[test]
fn variables_stay_variables() {
    assert_eq!(
        make_like(&bvs("x"), "BVV", vec![Arg::Text("y".to_string())]),
        refused("make_like cannot turn a BVS leaf into BVV"),
    );
}

#[test]
fn variables_need_a_name() {
    assert_eq!(make_like(&bvs("x"), "BVS", vec![]), refused("make_like on a leaf needs a name"));
    assert_eq!(
        make_like(&bvs("x"), "BVS", vec![Arg::Expr(bvs("y"))]),
        refused("make_like on a leaf needs a name"),
    );
    assert_eq!(
        make_like(&bvs("x"), "BVS", vec![Arg::Other, Arg::Text("y".to_string())]),
        refused("make_like on a leaf needs a name"),
    );
}

#[test]
fn the_same_operator_over_new_operands() {
    let low = node(AstOp::Extract(7, 0), vec![bvs("x")]);
    let made = make_like(&low, "Extract", vec![Arg::Other, Arg::Other, Arg::Expr(bvs("y"))]);
    assert_eq!(made, Ok(node(AstOp::Extract(7, 0), vec![bvs("y")])));
    let sum = apply("__add__", vec![bvs("x"), bvs("y")]);
    let args = vec![Arg::Expr(bvs("x")), Arg::Expr(bvs("y"))];
    assert_eq!(make_like(&sum, "__add__", args), Ok(sum.clone()));
}

#[test]
fn comparisons_are_swapped_on_request() {
    let less = apply("SLE", vec![bvs("x"), bvs("y")]);
    let made = make_like(&less, "SGE", vec![Arg::Expr(bvs("y")), Arg::Expr(bvs("x"))]);
    assert_eq!(made, Ok(apply("SGE", vec![bvs("y"), bvs("x")])));
    assert_eq!(made.ok(), reverse(&less));
}

#[test]
fn swapped_comparisons_need_two_operands() {
    let less = apply("ULT", vec![bvs("x"), bvs("y")]);
    assert_eq!(
        make_like(&less, "UGT", vec![Arg::Expr(bvs("y"))]),
        refused("make_like UGT needs two operands"),
    );
}

#[test]
fn other_operators_are_refused() {
    let sum = apply("__add__", vec![bvs("x"), bvs("y")]);
    assert_eq!(
        make_like(&sum, "__mul__", vec![Arg::Expr(bvs("y")), Arg::Expr(bvs("x"))]),
        refused("make_like cannot build op __mul__ from __add__"),
    );
    let greater = apply("UGT", vec![bvs("x"), bvs("y")]);
    assert_eq!(
        make_like(&greater, "ULT", vec![Arg::Expr(bvs("y")), Arg::Expr(bvs("x"))]),
        refused("make_like cannot build op ULT from UGT"),
    );
}

#[test]
fn operator_classes() {
    assert!(is_symbol_creation("BVS") && is_symbol_creation("BoolS"));
    assert!(is_symbol_creation("FPS") && is_symbol_creation("StringS"));
    assert!(!is_symbol_creation("BVV") && !is_symbol_creation(""));
    assert!(is_value_creation("BVV") && is_value_creation("BoolV"));
    assert!(is_value_creation("FPV") && is_value_creation("StringV"));
    assert!(!is_value_creation("BVS"));
    assert!(is_commutative("__eq__") && is_commutative("__ne__") && !is_commutative("fpEQ"));
    assert!(!is_commutative("__sub__"));
    assert_eq!(reversed_op("ULT"), Some("UGT"));
    assert_eq!(reversed_op("ULE"), Some("UGE"));
    assert_eq!(reversed_op("SLT"), Some("SGT"));
    assert_eq!(reversed_op("SLE"), Some("SGE"));
    assert_eq!(reversed_op("UGT"), None);
    assert_eq!(reversed_op("__lt__"), None);
}

#[test]
fn swapping_matches_the_operator_table() {
    let sum = apply("__add__", vec![bvs("x"), bvs("y")]);
    assert_eq!(reverse(&sum), None);
    let less = Arc::new(Ast {
        op: AstOp::Apply("ULT".to_string()),
        annotations: 6,
        origin: 1,
        children: vec![bvs("x"), bvs("y")],
    });
    let swapped = reverse(&less).unwrap();
    assert_eq!(swapped.to_opstring(), "UGT");
    assert_eq!(swapped.children, vec![bvs("y"), bvs("x")]);
    assert_eq!(swapped.annotations, 0);
    assert_eq!(reverse(&swapped), None);
}

#[test]
fn op_strings() {
    let names = vec![
        (AstOp::BVS("x".to_string(), 8), "BVS"),
        (AstOp::BoolS("x".to_string()), "BoolS"),
        (AstOp::FPS("x".to_string(), "F32".to_string()), "FPS"),
        (AstOp::StringS("x".to_string()), "StringS"),
        (AstOp::BVV(vec![], 8), "BVV"),
        (AstOp::BoolV(true), "BoolV"),
        (AstOp::FPV("0".to_string()), "FPV"),
        (AstOp::StringV("x".to_string()), "StringV"),
        (AstOp::ZeroExt(1), "ZeroExt"),
        (AstOp::SignExt(1), "SignExt"),
        (AstOp::Extract(1, 0), "Extract"),
        (AstOp::FpAdd("r".to_string()), "fpAdd"),
        (AstOp::FpSub("r".to_string()), "fpSub"),
        (AstOp::FpMul("r".to_string()), "fpMul"),
        (AstOp::FpDiv("r".to_string()), "fpDiv"),
        (AstOp::FpSqrt("r".to_string()), "fpSqrt"),
        (AstOp::Apply("__add__".to_string()), "__add__"),
        (AstOp::ApplyWith("fpToFP".to_string(), "F32".to_string()), "fpToFP"),
    ];
    for (op, name) in names {
        let copy = op.clone();
        assert_eq!(copy, op);
        assert_eq!(node(op, vec![]).to_opstring(), name);
    }
}

#[test]
fn keys() {
    let key = ASTCacheKey::new(bvs("x"), 17);
    let same = ASTCacheKey::new(bvs("x"), 17);
    let other = ASTCacheKey::new(bvs("y"), 18);
    assert_eq!(key.ast(), bvs("x"));
    assert_eq!(key.__hash__(), 17);
    assert!(key.__eq__(Some(&key)));
    assert!(key.__eq__(Some(&same)) && same.__eq__(Some(&key)));
    assert!(!key.__eq__(Some(&other)));
    assert!(!key.__eq__(None));
    assert_eq!(key.__repr__("<BV64 x>"), "<Key <BV64 x>>");
}

#[test]
fn numbers_in_decimal() {
    assert_eq!(decimal_text(0), "0");
    assert_eq!(decimal_text(1234567890), "1234567890");
    assert_eq!(var_text(0), "var_0");
    assert_eq!(var_text(10), "var_10");
}
