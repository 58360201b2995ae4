//! Naming intermediate allocations.

use plum::anf::anf_program;
use plum::ir::{BinOp, Expr, Function, MatchArm, Program};

fn var(n: &str) -> Expr {
    Expr::Var(n.to_string())
}

fn ctor(tag: &str, fields: Vec<Expr>) -> Expr {
    Expr::Ctor { tag: tag.to_string(), fields }
}

fn len(e: Expr) -> Expr {
    Expr::ArrayLen { array: Box::new(e) }
}

fn anf(e: Expr) -> Expr {
    let p = Program {
        functions: vec![Function { name: "f".into(), params: vec![], body: e }],
        globals: vec![],
        externs: vec![],
    };
    anf_program(p).functions.into_iter().next().unwrap().body
}

fn peel(mut e: Expr) -> (Vec<(String, Expr)>, Expr) {
    let mut binds = Vec::new();
    while let Expr::Let { name, value, body } = e {
        if !name.starts_with("anf$") {
            return (binds, Expr::Let { name, value, body });
        }
        binds.push((name, *value));
        e = *body;
    }
    (binds, e)
}

#[test]
fn a_fresh_allocation_in_a_borrow_slot_is_hoisted_to_a_named_temporary() {
    let (binds, rest) = peel(anf(len(ctor("Point", vec![Expr::Int(1)]))));
    assert_eq!(binds.len(), 1, "expected one hoisted binding: {binds:?}");
    assert_eq!(binds[0].1, ctor("Point", vec![Expr::Int(1)]));
    assert_eq!(rest, len(var(&binds[0].0)));
}

#[test]
fn nested_fresh_allocations_are_all_hoisted_innermost_first() {
    let e = len(Expr::StrConcat {
        base: Box::new(Expr::Str("a".into())),
        other: Box::new(Expr::Str("b".into())),
    });
    let (binds, rest) = peel(anf(e));
    assert_eq!(binds.len(), 3, "expected both literals and the concat: {binds:?}");
    assert_eq!(binds[0].1, Expr::Str("a".into()));
    assert_eq!(binds[1].1, Expr::Str("b".into()));
    assert_eq!(
        binds[2].1,
        Expr::StrConcat { base: Box::new(var(&binds[0].0)), other: Box::new(var(&binds[1].0)) },
        "the concat must be rebound over the two temporaries, in evaluation order"
    );
    assert_eq!(rest, len(var(&binds[2].0)));
}

#[test]
fn a_call_is_never_hoisted() {
    let e = len(Expr::Call { callee: Box::new(var("mk")), args: vec![Expr::Int(1)] });
    let (binds, _) = peel(anf(e));
    assert!(binds.is_empty(), "a Call must not be hoisted: {binds:?}");
}

#[test]
fn a_fresh_allocation_over_a_non_atom_is_not_hoisted() {
    let e = len(ctor(
        "Point",
        vec![Expr::Call { callee: Box::new(var("g")), args: vec![] }],
    ));
    let (binds, _) = peel(anf(e));
    assert!(binds.is_empty(), "a Ctor over a Call must not be hoisted: {binds:?}");
}

#[test]
fn a_regions_own_result_is_never_hoisted() {
    let e = ctor("Point", vec![Expr::Int(1)]);
    assert_eq!(anf(e.clone()), e);
}

#[test]
fn nothing_is_hoisted_out_of_a_match_arm() {
    let arm_body = len(ctor("Inner", vec![Expr::Int(1)]));
    let e = Expr::Match {
        scrutinee: Box::new(var("s")),
        arms: vec![MatchArm {
            tag: "Tag".into(),
            bindings: vec![],
            guard: None,
            body: arm_body,
        }],
    };
    let (binds, rest) = peel(anf(e));
    assert!(binds.is_empty(), "nothing may escape the arm: {binds:?}");
    let Expr::Match { arms, .. } = rest else {
        panic!("expected a Match");
    };
    let (inner_binds, _) = peel(arms[0].body.clone());
    assert_eq!(inner_binds.len(), 1, "the arm's own region should hoist: {inner_binds:?}");
}

#[test]
fn nothing_is_hoisted_out_of_a_loop_body() {
    let e = Expr::For {
        var: "i".into(),
        start: Box::new(Expr::Int(0)),
        end: Box::new(Expr::Int(10)),
        body: Box::new(len(ctor("Point", vec![Expr::Int(1)]))),
    };
    let (binds, rest) = peel(anf(e));
    assert!(binds.is_empty(), "nothing may escape the loop: {binds:?}");
    let Expr::For { body, .. } = rest else {
        panic!("expected a For");
    };
    let (inner, _) = peel(*body);
    assert_eq!(inner.len(), 1, "the body's own region should hoist: {inner:?}");
}

#[test]
fn siblings_keep_their_evaluation_order() {
    let e = Expr::Binary(
        BinOp::Add,
        Box::new(len(ctor("A", vec![]))),
        Box::new(len(ctor("B", vec![]))),
    );
    let (binds, _) = peel(anf(e));
    assert_eq!(binds.len(), 2);
    assert_eq!(binds[0].1, ctor("A", vec![]));
    assert_eq!(binds[1].1, ctor("B", vec![]));
}

#[test]
fn an_expression_with_nothing_to_hoist_is_returned_unchanged() {
    let e = Expr::Binary(BinOp::Add, Box::new(var("a")), Box::new(Expr::Int(1)));
    assert_eq!(anf(e.clone()), e);
}
