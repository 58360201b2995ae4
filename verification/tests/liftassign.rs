//! Lifting assignments out of operands.

use plum::ir::{BinOp, Expr};
use plum::liftassign;
use plum::names::NameSupply;

fn var(n: &str) -> Expr {
    Expr::Var(n.to_string())
}

fn lift(e: Expr) -> Expr {
    liftassign::lift(e, &mut NameSupply::new())
}

fn bump() -> Expr {
    Expr::Assign {
        name: "sum".to_string(),
        value: Box::new(Expr::Binary(BinOp::Add, Box::new(var("sum")), Box::new(Expr::Int(1)))),
        rest: Box::new(var("sum")),
    }
}

fn call(f: &str, args: Vec<Expr>) -> Expr {
    Expr::Call { callee: Box::new(var(f)), args }
}

#[test]
fn an_assign_as_a_call_argument_is_lifted_out() {
    let out = lift(call("twice", vec![bump()]));
    let Expr::Assign { name, rest, .. } = &out else {
        panic!("expected the Assign to be lifted, got {out:?}");
    };
    assert_eq!(name, "sum");
    assert_eq!(**rest, call("twice", vec![var("sum")]));
}

#[test]
fn an_assign_as_a_lets_value_is_lifted_out() {
    let out = lift(Expr::Let {
        name: "y".to_string(),
        value: Box::new(bump()),
        body: Box::new(var("y")),
    });
    let Expr::Assign { rest, .. } = &out else {
        panic!("expected a lift, got {out:?}");
    };
    assert!(matches!(rest.as_ref(), Expr::Let { .. }), "got {rest:?}");
}

#[test]
fn an_assign_as_a_binary_operand_is_lifted_out() {
    let out = lift(Expr::Binary(BinOp::Add, Box::new(Expr::Int(1)), Box::new(bump())));
    let Expr::Assign { rest, .. } = &out else {
        panic!("expected a lift, got {out:?}");
    };
    assert_eq!(
        **rest,
        Expr::Binary(BinOp::Add, Box::new(Expr::Int(1)), Box::new(var("sum")))
    );
}

#[test]
fn a_preceding_read_of_the_assigned_name_is_bound_first() {
    let e = Expr::Binary(BinOp::Add, Box::new(var("sum")), Box::new(bump()));
    let out = lift(e);
    let Expr::Let { name: t, value, body } = &out else {
        panic!("expected the left operand bound first, got {out:?}");
    };
    assert!(t.starts_with("liftassign$"), "expected a fresh name, got {t}");
    assert_eq!(**value, var("sum"), "and bound to the OLD value");
    let Expr::Assign { name, rest, .. } = body.as_ref() else {
        panic!("then the assignment lifts: {body:?}");
    };
    assert_eq!(name, "sum");
    assert_eq!(
        **rest,
        Expr::Binary(BinOp::Add, Box::new(var(t)), Box::new(var("sum"))),
        "left operand reads the temporary, right reads the new value"
    );
}

#[test]
fn a_preceding_call_is_bound_first_so_it_still_runs_first() {
    let e = Expr::Binary(BinOp::Add, Box::new(call("f", vec![])), Box::new(bump()));
    let out = lift(e);
    let Expr::Let { value, body, .. } = &out else {
        panic!("expected the call bound first, got {out:?}");
    };
    assert_eq!(**value, call("f", vec![]), "the call keeps its position");
    assert!(matches!(body.as_ref(), Expr::Assign { .. }), "got {body:?}");
}

#[test]
fn a_preceding_unrelated_variable_does_not_block_the_lift() {
    let e = Expr::Binary(BinOp::Add, Box::new(var("other")), Box::new(bump()));
    let out = lift(e);
    assert!(matches!(out, Expr::Assign { .. }), "got {out:?}");
}

#[test]
fn an_assign_inside_an_if_branch_is_left_alone() {
    let e = Expr::If {
        cond: Box::new(Expr::Bool(true)),
        then_branch: Box::new(bump()),
        else_branch: Box::new(Expr::Int(0)),
    };
    assert_eq!(lift(e.clone()), e);
}

#[test]
fn an_assign_inside_a_loop_body_is_left_alone() {
    let e = Expr::For {
        var: "i".to_string(),
        start: Box::new(Expr::Int(0)),
        end: Box::new(Expr::Int(3)),
        body: Box::new(bump()),
    };
    assert_eq!(lift(e.clone()), e);
}

#[test]
fn two_assigns_in_one_node_are_both_lifted_in_order() {
    let second = Expr::Assign {
        name: "other".to_string(),
        value: Box::new(Expr::Int(9)),
        rest: Box::new(var("other")),
    };
    let out = lift(Expr::Binary(BinOp::Add, Box::new(bump()), Box::new(second)));
    let Expr::Assign { name: first, rest, .. } = &out else {
        panic!("expected a lift, got {out:?}");
    };
    assert_eq!(first, "sum", "the left operand's assignment must come first");
    let Expr::Assign { name: nested, .. } = rest.as_ref() else {
        panic!("expected both to lift, got {rest:?}");
    };
    assert_eq!(nested, "other");
}

#[test]
fn an_expression_with_no_value_position_assign_is_unchanged() {
    let e = Expr::Binary(BinOp::Add, Box::new(var("a")), Box::new(Expr::Int(1)));
    assert_eq!(lift(e.clone()), e);
}
