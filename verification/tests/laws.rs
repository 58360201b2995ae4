//! What holds of all inputs, on some of them.

use plum::anf::anf_program;
use plum::fbip::last_use::mark_last_uses;
use plum::fbip::refcount::drop_at_scope_end;
use plum::fbip::reuse::strip_scope_end_release;
use plum::fbip::uses::{max_uses_on_path, reuses_name};
use plum::fbip::{insert_refcount_ops, mark_reuse, optimize, optimize_program};
use plum::interp::machine::{eval_order, values_equal};
use plum::interp::portable::{from_portable, to_portable};
use plum::interp::{CellView, Heap, Interpreter, Outcome, PortableValue, Value};
use plum::ir::{BinOp, Expr, Function, Global, MatchArm, Program, RcOp};
use plum::liftassign::lift_value_assigns;
use plum::lower::pattern::tuple_tag;
use plum::names::{decimal_text, signed_decimal_text, NameMap, NameSet, NameSupply};

fn num(n: i64) -> Expr {
    Expr::Int(n)
}

fn text(s: &str) -> Expr {
    Expr::Str(s.to_string())
}

fn var(x: &str) -> Expr {
    Expr::Var(x.to_string())
}

fn ctor(tag: &str, fields: Vec<Expr>) -> Expr {
    Expr::Ctor { tag: tag.to_string(), fields }
}

fn bind(x: &str, value: Expr, body: Expr) -> Expr {
    Expr::Let { name: x.to_string(), value: Box::new(value), body: Box::new(body) }
}

fn call(f: &str, args: Vec<Expr>) -> Expr {
    Expr::Call { callee: Box::new(var(f)), args }
}

fn assign(x: &str, value: Expr, rest: Expr) -> Expr {
    Expr::Assign { name: x.to_string(), value: Box::new(value), rest: Box::new(rest) }
}

fn only(body: Expr) -> Program {
    Program {
        functions: vec![Function { name: "f".to_string(), params: vec!["p".to_string()], body }],
        globals: vec![],
        externs: vec![],
    }
}

fn done(expr: &Expr) -> (Interpreter, Value) {
    let mut interp = Interpreter::new();
    match interp.eval(expr) {
        Outcome::Done(v) => (interp, v),
        other => panic!("expected a value, got {other:?}"),
    }
}

fn string_at(interp: &Interpreter, v: &Value) -> String {
    match v {
        Value::HeapRef(addr) => interp.heap.read_str(*addr).unwrap().to_string(),
        other => panic!("expected a string, got {other:?}"),
    }
}

fn strings_at(interp: &Interpreter, v: &Value) -> Vec<String> {
    match v {
        Value::HeapRef(addr) => {
            let (_, fields) = interp.heap.read(*addr).unwrap();
            fields.iter().map(|f| string_at(interp, f)).collect()
        }
        other => panic!("expected an array, got {other:?}"),
    }
}

fn evaluated_text(expr: Expr) -> String {
    let (interp, v) = done(&expr);
    string_at(&interp, &v)
}

fn flag(expr: Expr) -> bool {
    match done(&expr).1 {
        Value::Bool(b) => b,
        other => panic!("expected a boolean, got {other:?}"),
    }
}

// --- naming allocations ---

#[test]
fn naming_allocations_twice_changes_nothing_more() {
    let body = call("g", vec![ctor("A", vec![text("x"), num(1)]), text("y")]);
    let once = anf_program(only(body));
    let again = anf_program(only(once.functions[0].body.clone()));
    assert_eq!(again.functions[0].body, once.functions[0].body);
}

#[test]
fn an_expression_without_nested_allocations_is_kept() {
    let body = bind("a", num(1), call("g", vec![var("a"), num(2)]));
    assert_eq!(anf_program(only(body.clone())), only(body));
}

// --- lifting assignments ---

#[test]
fn lifting_a_program_twice_changes_nothing_more() {
    let body = call("g", vec![var("p"), assign("p", num(2), var("p")), assign("p", num(3), num(4))]);
    let once = lift_value_assigns(only(body));
    let copy = only(once.functions[0].body.clone());
    assert_eq!(lift_value_assigns(copy).functions[0].body, once.functions[0].body);
}

#[test]
fn lifting_covers_functions_and_globals() {
    let bump = || Expr::Binary(BinOp::Add, Box::new(assign("x", num(1), var("x"))), Box::new(num(1)));
    let program = Program {
        functions: vec![Function { name: "f".to_string(), params: vec![], body: bump() }],
        globals: vec![Global { name: "g".to_string(), value: bump() }],
        externs: vec![],
    };
    let lifted = assign(
        "x",
        num(1),
        Expr::Binary(BinOp::Add, Box::new(var("x")), Box::new(num(1))),
    );
    let r = lift_value_assigns(program);
    assert_eq!(r.functions[0].body, lifted);
    assert_eq!(r.globals[0].value, lifted);
}

// --- counting and reuse ---

fn inc(x: &str, rest: Expr) -> Expr {
    Expr::RcAnnotated { op: RcOp::Inc, target: x.to_string(), rest: Box::new(rest) }
}

fn dec(x: &str, rest: Expr) -> Expr {
    Expr::RcAnnotated { op: RcOp::Dec, target: x.to_string(), rest: Box::new(rest) }
}

#[test]
fn every_use_but_the_last_gets_an_increment() {
    let e = bind("x", ctor("A", vec![]), call("g", vec![var("x"), var("x"), var("x")]));
    let counted = insert_refcount_ops(e);
    let expected = bind(
        "x",
        ctor("A", vec![]),
        call("g", vec![inc("x", var("x")), inc("x", var("x")), var("x")]),
    );
    assert_eq!(counted, expected);
}

#[test]
fn a_use_in_a_loop_is_never_the_last() {
    let body = Expr::For {
        var: "i".to_string(),
        start: Box::new(num(0)),
        end: Box::new(num(3)),
        body: Box::new(call("g", vec![var("x")])),
    };
    let counted = insert_refcount_ops(bind("x", ctor("A", vec![]), body));
    let Expr::Let { body, .. } = counted else { panic!("expected a binding") };
    let Expr::For { body, .. } = *body else { panic!("expected a loop") };
    assert_eq!(*body, call("g", vec![inc("x", var("x"))]));
}

#[test]
fn an_unused_cell_is_released_at_once() {
    let counted = insert_refcount_ops(bind("x", ctor("A", vec![]), num(1)));
    assert_eq!(counted, bind("x", ctor("A", vec![]), dec("x", num(1))));
}

#[test]
fn a_cell_that_is_only_read_is_released_at_the_end_of_its_scope() {
    let read = Expr::ArrayLen { array: Box::new(var("x")) };
    let counted = insert_refcount_ops(bind("x", text("a"), read.clone()));
    assert_eq!(counted, bind("x", text("a"), drop_at_scope_end(read, &"x".to_string())));
}

#[test]
fn marking_one_name_leaves_the_others_alone() {
    let e = call("g", vec![var("x"), var("y"), var("y")]);
    let (marked, used) = mark_last_uses(e.clone(), &"y".to_string(), false);
    assert!(used);
    assert_eq!(marked, call("g", vec![var("x"), inc("y", var("y")), var("y")]));
    assert_eq!(mark_last_uses(e.clone(), &"z".to_string(), false), (e, false));
}

#[test]
fn what_follows_does_not_change_what_is_used() {
    let x = "x".to_string();
    assert_eq!(mark_last_uses(num(5), &x, true), (num(5), false));
    assert_eq!(mark_last_uses(var("y"), &x, true), (var("y"), false));
    assert_eq!(mark_last_uses(var("x"), &x, true), (inc("x", var("x")), true));
    assert_eq!(mark_last_uses(var("x"), &x, false), (var("x"), true));
    assert_eq!(mark_last_uses(call("g", vec![]), &x, true), (call("g", vec![]), false));
}

#[test]
fn a_use_before_a_random_number_is_not_the_last() {
    let e = bind("y", call("g", vec![var("x")]), Expr::RandomRaw);
    let marked = bind("y", call("g", vec![inc("x", var("x"))]), Expr::RandomRaw);
    assert_eq!(mark_last_uses(e, &"x".to_string(), true), (marked, true));
}

#[test]
fn a_guard_that_may_fail_keeps_the_name_for_a_later_arm() {
    let m = |guard: Expr| Expr::Match {
        scrutinee: Box::new(var("s")),
        arms: vec![
            MatchArm {
                tag: "A".to_string(),
                bindings: vec![],
                guard: Some(Box::new(call("g", vec![guard]))),
                body: num(0),
            },
            MatchArm { tag: "A".to_string(), bindings: vec![], guard: None, body: var("x") },
        ],
    };
    assert_eq!(
        mark_last_uses(m(var("x")), &"x".to_string(), false),
        (m(inc("x", var("x"))), true)
    );
}

#[test]
fn only_the_value_of_a_rebinding_is_a_last_use_in_a_loop() {
    let push = || Expr::ArrayPush { array: Box::new(var("acc")), value: Box::new(var("i")) };
    let body = |read: Expr| Expr::For {
        var: "i".to_string(),
        start: Box::new(num(0)),
        end: Box::new(num(3)),
        body: Box::new(Expr::If {
            cond: Box::new(var("c")),
            then_branch: Box::new(assign("acc", push(), Expr::Unit)),
            else_branch: Box::new(call("f", vec![read])),
        }),
    };
    assert_eq!(
        mark_last_uses(body(var("acc")), &"acc".to_string(), false),
        (body(inc("acc", var("acc"))), true)
    );
}

#[test]
fn a_use_that_is_followed_by_a_rebinding_is_the_last_in_a_loop() {
    let acc = "acc".to_string();
    let looped = |body: Expr| Expr::For {
        var: "i".to_string(),
        start: Box::new(num(0)),
        end: Box::new(num(3)),
        body: Box::new(body),
    };
    let handed_on = looped(bind("_", call("f", vec![var("acc")]), assign("acc", call("g", vec![]), Expr::Unit)));
    assert_eq!(mark_last_uses(handed_on.clone(), &acc, false), (handed_on.clone(), true));
    assert_eq!(mark_last_uses(handed_on.clone(), &acc, true), (handed_on, true));
    let read = |first: Expr| {
        looped(bind(
            "snap",
            first,
            assign(
                "acc",
                Expr::ArrayPush { array: Box::new(var("acc")), value: Box::new(var("i")) },
                call("use", vec![var("snap")]),
            ),
        ))
    };
    assert_eq!(
        mark_last_uses(read(var("acc")), &acc, false),
        (read(inc("acc", var("acc"))), true)
    );
    let rebound_too_early = |last: Expr| looped(assign("acc", call("g", vec![]), call("f", vec![last])));
    assert_eq!(
        mark_last_uses(rebound_too_early(var("acc")), &acc, false),
        (rebound_too_early(inc("acc", var("acc"))), true)
    );
}

#[test]
fn a_state_machine_takes_its_state_over_from_round_to_round() {
    let acc = "acc".to_string();
    let looped = |body: Expr| Expr::For {
        var: "i".to_string(),
        start: Box::new(num(0)),
        end: Box::new(num(5)),
        body: Box::new(body),
    };
    let step = |arms: Vec<MatchArm>| Expr::Match { scrutinee: Box::new(var("acc")), arms };
    let arm = |tag: &str, guard: Option<Expr>, body: Expr| MatchArm {
        tag: tag.to_string(),
        bindings: vec![],
        guard: guard.map(Box::new),
        body,
    };
    let to = |tag: &str| assign("acc", ctor(tag, vec![]), Expr::Unit);
    // Every arm rebinds the name.
    let all = looped(step(vec![arm("A", None, to("B")), arm("B", Some(var("c")), to("A")), arm("B", None, to("B"))]));
    assert_eq!(mark_last_uses(all.clone(), &acc, false), (all, true));
    // Some do, but a match that builds nothing only reads its scrutinee.
    let some = looped(step(vec![arm("A", None, to("B")), arm("B", None, Expr::Unit)]));
    assert_eq!(mark_last_uses(some.clone(), &acc, false), (some, true));
    // So does an operator that needs the memory of its operand for nothing.
    let length = |array: Expr| Expr::ArrayLen { array: Box::new(array) };
    let read = looped(bind(
        "_",
        Expr::If {
            cond: Box::new(var("c")),
            then_branch: Box::new(to("B")),
            else_branch: Box::new(Expr::Unit),
        },
        length(var("acc")),
    ));
    assert_eq!(mark_last_uses(read.clone(), &acc, false), (read, true));
    // A string that can be built in is taken, and the next round still needs it.
    let taken = |base: Expr| {
        looped(bind(
            "_",
            Expr::If {
                cond: Box::new(var("c")),
                then_branch: Box::new(to("B")),
                else_branch: Box::new(Expr::Unit),
            },
            Expr::StrConcat { base: Box::new(base), other: Box::new(text("x")) },
        ))
    };
    assert_eq!(
        mark_last_uses(taken(var("acc")), &acc, false),
        (taken(inc("acc", var("acc"))), true)
    );
}

#[test]
fn a_name_that_is_rebound_on_some_paths_is_not_overdrawn() {
    let push = |value: Expr| Expr::ArrayPush { array: Box::new(var("acc")), value: Box::new(value) };
    let body = Expr::If {
        cond: Box::new(Expr::Binary(BinOp::Lt, Box::new(var("i")), Box::new(num(2)))),
        then_branch: Box::new(assign("acc", push(var("i")), Expr::Unit)),
        else_branch: Box::new(bind("_", push(num(9)), Expr::Unit)),
    };
    let looped = Expr::For {
        var: "i".to_string(),
        start: Box::new(num(0)),
        end: Box::new(num(5)),
        body: Box::new(body),
    };
    let e = bind(
        "acc",
        ctor("0Array", vec![]),
        bind("_", looped, Expr::ArrayLen { array: Box::new(var("acc")) }),
    );
    assert_eq!(done(&e).1, Value::Int(2));
    assert_eq!(done(&insert_refcount_ops(e.clone())).1, Value::Int(2));
    assert_eq!(done(&optimize(e)).1, Value::Int(2));
}

#[test]
fn a_name_bound_anew_is_not_built_in() {
    let push = || Expr::ArrayPush { array: Box::new(var("p")), value: Box::new(num(1)) };
    let list = |body: Expr| bind("p", ctor("0Array", vec![]), body);
    let hidden = list(bind("p", call("f", vec![]), push()));
    assert_eq!(mark_reuse(hidden.clone()), hidden);
    let looped = list(Expr::For {
        var: "p".to_string(),
        start: Box::new(num(0)),
        end: Box::new(num(1)),
        body: Box::new(push()),
    });
    assert_eq!(mark_reuse(looped.clone()), looped);
    let captured = list(Expr::Closure {
        params: vec!["p".to_string()],
        param_types: None,
        ret_type: None,
        body: Box::new(push()),
    });
    assert_eq!(mark_reuse(captured.clone()), captured);
    let matched = list(Expr::Match {
        scrutinee: Box::new(var("p")),
        arms: vec![MatchArm {
            tag: "Box".to_string(),
            bindings: vec!["p".to_string()],
            guard: None,
            body: ctor("Box", vec![push()]),
        }],
    });
    assert_eq!(mark_reuse(matched.clone()), matched);
}

#[test]
fn guards_count_up_to_the_arm_that_is_taken() {
    let m = |guard: Option<Box<Expr>>| Expr::Match {
        scrutinee: Box::new(var("s")),
        arms: vec![
            MatchArm { tag: "A".to_string(), bindings: vec![], guard, body: num(0) },
            MatchArm { tag: "A".to_string(), bindings: vec![], guard: None, body: var("p") },
        ],
    };
    let p = "p".to_string();
    assert_eq!(max_uses_on_path(&m(Some(Box::new(var("p")))), &p), 2);
    assert_eq!(max_uses_on_path(&m(None), &p), 1);
}

#[test]
fn stripping_undoes_a_release() {
    let body = call("g", vec![var("x")]);
    let x = "x".to_string();
    assert_eq!(strip_scope_end_release(drop_at_scope_end(body.clone(), &x), &x), body);
    assert_eq!(strip_scope_end_release(body.clone(), &x), body);
}

#[test]
fn uses_are_counted_up_to_two() {
    let x = "x".to_string();
    assert_eq!(max_uses_on_path(&num(1), &x), 0);
    assert_eq!(max_uses_on_path(&var("x"), &x), 1);
    assert_eq!(max_uses_on_path(&call("g", vec![var("x"), var("x"), var("x")]), &x), 2);
}

#[test]
fn only_known_names_are_built_in() {
    let push = Expr::ArrayPush { array: Box::new(var("x")), value: Box::new(num(1)) };
    let x = "x".to_string();
    assert!(!reuses_name(&mark_reuse(push.clone()), &x));
    let known = bind("x", Expr::EmptyArray(plum::ir::PrimTy::Int), push);
    assert!(reuses_name(&mark_reuse(known), &x));
}

#[test]
fn an_optimised_expression_gives_the_same_value() {
    let rebuild = Expr::Match {
        scrutinee: Box::new(var("x")),
        arms: vec![MatchArm {
            tag: "Pair".to_string(),
            bindings: vec!["a".to_string(), "b".to_string()],
            guard: None,
            body: ctor("Pair", vec![var("b"), var("a")]),
        }],
    };
    let e = bind("x", ctor("Pair", vec![num(1), num(2)]), rebuild);
    let (plain, a) = done(&e);
    let (reusing, b) = done(&optimize(e));
    let cell = |i: &Interpreter, v: &Value| match v {
        Value::HeapRef(addr) => {
            let (tag, fields) = i.heap.read(*addr).unwrap();
            (tag.to_string(), fields.to_vec())
        }
        other => panic!("expected a cell, got {other:?}"),
    };
    assert_eq!(cell(&plain, &a), ("Pair".to_string(), vec![Value::Int(2), Value::Int(1)]));
    assert_eq!(cell(&reusing, &b), cell(&plain, &a));
    assert_eq!(plain.alloc_count(), 2);
    assert_eq!(reusing.alloc_count(), 1);
}

#[test]
fn optimising_keeps_names_and_parameters() {
    let p = optimize_program(only(call("g", vec![var("p")])));
    assert_eq!(p.functions.len(), 1);
    assert_eq!(p.functions[0].name, "f");
    assert_eq!(p.functions[0].params, vec!["p".to_string()]);
}

// --- the heap ---

#[test]
fn releasing_undoes_a_reference() {
    let mut heap = Heap::new();
    let a = heap.alloc_str("a".to_string());
    heap.inc(a).unwrap();
    heap.dec(a).unwrap();
    assert_eq!(heap.refcount(a), Ok(1));
    assert_eq!(heap.read_any(a), Ok(CellView::Str("a")));
}

#[test]
fn an_address_is_never_given_out_again() {
    let mut heap = Heap::new();
    let a = heap.alloc_str("a".to_string());
    heap.dec(a).unwrap();
    let b = heap.alloc_str("b".to_string());
    assert_ne!(a, b);
    assert!(heap.read_str(a).is_err());
}

#[test]
fn a_shared_cell_is_preserved_and_a_unique_one_is_reused() {
    let mut heap = Heap::new();
    let a = heap.alloc_str("a".to_string());
    let other = heap.alloc_str("other".to_string());
    heap.inc(a).unwrap();
    let b = heap.dec_and_maybe_reuse_str(a, "b".to_string()).unwrap();
    assert_ne!(a, b);
    assert_eq!(heap.read_str(a), Ok("a"));
    assert_eq!(heap.refcount(a), Ok(1));
    let c = heap.dec_and_maybe_reuse_str(a, "c".to_string()).unwrap();
    assert_eq!(a, c);
    assert_eq!(heap.read_str(a), Ok("c"));
    assert_eq!(heap.read_str(other), Ok("other"));
}

// --- crossing from heap to heap ---

#[test]
fn a_value_that_crosses_comes_back() {
    let value = PortableValue::Ctor(
        "Pair".to_string(),
        vec![
            PortableValue::Str("a".to_string()),
            PortableValue::Ctor("Nil".to_string(), vec![]),
        ],
    );
    let mut heap = Heap::new();
    let kept = heap.alloc_str("kept".to_string());
    let v = from_portable(&mut heap, value.clone());
    assert_eq!(to_portable(&heap, &v), Ok(value));
    assert_eq!(heap.read_str(kept), Ok("kept"));
}

#[test]
fn every_part_of_a_value_gets_a_cell_of_its_own() {
    let value = PortableValue::Ctor(
        "Pair".to_string(),
        vec![
            PortableValue::Str("a".to_string()),
            PortableValue::Int(7),
            PortableValue::Ctor("Nil".to_string(), vec![]),
            PortableValue::Str("a".to_string()),
        ],
    );
    let mut heap = Heap::new();
    let kept = heap.alloc_str("kept".to_string());
    let v = from_portable(&mut heap, value.clone());
    assert_eq!(heap.alloc_count(), 1 + 4);
    for addr in 0..5 {
        assert_eq!(heap.refcount(addr), Ok(1));
    }
    let Value::HeapRef(top) = v else { panic!("expected a cell") };
    assert_ne!(top, kept);
    let fields = heap.read(top).unwrap().1;
    assert_ne!(fields[0], fields[3]);
    assert_eq!(to_portable(&heap, &Value::HeapRef(top)), Ok(value));
}

// --- evaluation ---

fn load_two(function: Expr, global: Expr) -> Interpreter {
    let mut interp = Interpreter::new();
    let program = Program {
        functions: vec![Function { name: "f".to_string(), params: vec!["x".to_string()], body: function }],
        globals: vec![Global { name: "f".to_string(), value: global }],
        externs: vec![],
    };
    assert_eq!(interp.load_program(&program), Outcome::Done(Value::Unit));
    interp
}

#[test]
fn a_global_hides_a_function_of_the_same_name() {
    let square = Expr::Binary(BinOp::Mul, Box::new(var("x")), Box::new(var("x")));
    let next = Expr::Closure {
        params: vec!["x".to_string()],
        param_types: None,
        ret_type: None,
        body: Box::new(Expr::Binary(BinOp::Add, Box::new(var("x")), Box::new(num(1)))),
    };
    let mut interp = load_two(square, next);
    assert_eq!(interp.eval(&call("f", vec![num(5)])), Outcome::Done(Value::Int(6)));
    let local = bind(
        "f",
        Expr::Closure {
            params: vec!["x".to_string()],
            param_types: None,
            ret_type: None,
            body: Box::new(num(9)),
        },
        call("f", vec![num(5)]),
    );
    assert_eq!(interp.eval(&local), Outcome::Done(Value::Int(9)));
}

#[test]
fn the_orders_of_integers_agree() {
    let values = [i64::MIN, -1, 0, 1, i64::MAX];
    for x in values {
        for y in values {
            assert_eq!(eval_order(BinOp::Lt, x, y), x < y);
            assert_eq!(eval_order(BinOp::Lt, x, y), eval_order(BinOp::Gt, y, x));
            assert_eq!(eval_order(BinOp::Le, x, y), eval_order(BinOp::Ge, y, x));
            assert_eq!(eval_order(BinOp::Ge, x, y), !eval_order(BinOp::Lt, x, y));
            assert_eq!(eval_order(BinOp::Gt, x, y), !eval_order(BinOp::Le, x, y));
            let both = eval_order(BinOp::Le, x, y) && eval_order(BinOp::Ge, x, y);
            assert_eq!(Ok(both), values_equal(&Value::Int(x), &Value::Int(y), &Heap::new()));
        }
    }
    let mixed = Expr::Binary(BinOp::Lt, Box::new(num(1)), Box::new(Expr::Bool(true)));
    assert!(matches!(Interpreter::new().eval(&mixed), Outcome::Failed(_)));
}

/// Builds from `base`, held by one reference or by two, once afresh and once in place.
fn in_place_and_afresh(base: Expr, fresh: Expr, here: Expr, shared: bool) -> (bool, bool) {
    let setup = |last: Expr| {
        let inner = bind("out", last, ctor("All", vec![var("out"), var("x")]));
        bind("x", base.clone(), if shared { inc("x", inner) } else { inner })
    };
    let cells = |e: Expr| {
        let (interp, v) = done(&e);
        let Value::HeapRef(top) = v else { panic!("expected a cell") };
        let fields = interp.heap.read(top).unwrap().1.to_vec();
        let out = to_portable(&interp.heap, &fields[0]).unwrap();
        let old = to_portable(&interp.heap, &fields[1]).unwrap();
        assert_eq!(interp.refcount(&fields[0]), Ok(1));
        (out, old, fields[0] == fields[1])
    };
    let (a, old_a, same_a) = cells(setup(fresh));
    let (b, old_b, same_b) = cells(setup(here));
    assert_eq!(a, b);
    if shared {
        assert_eq!(old_a, old_b);
    }
    (same_a, same_b)
}

#[test]
fn building_in_place_agrees_with_building_afresh() {
    let b = |e: Expr| Box::new(e);
    let x = || "x".to_string();
    let array = || ctor("0Array", vec![num(1), num(2), num(3)]);
    let string = || text(" aB ");
    let cases = vec![
        (
            array(),
            Expr::ArrayPush { array: b(var("x")), value: b(num(4)) },
            Expr::ArrayPushReuse { reuse_of: x(), value: b(num(4)) },
        ),
        (
            array(),
            Expr::ArrayPop { array: b(var("x")) },
            Expr::ArrayPopReuse { reuse_of: x() },
        ),
        (
            array(),
            Expr::ArraySet { array: b(var("x")), index: b(num(1)), value: b(num(9)) },
            Expr::ArraySetReuse { reuse_of: x(), index: b(num(1)), value: b(num(9)) },
        ),
        (
            array(),
            Expr::ArrayRemove { array: b(var("x")), index: b(num(0)) },
            Expr::ArrayRemoveReuse { reuse_of: x(), index: b(num(0)) },
        ),
        (
            string(),
            Expr::StrConcat { base: b(var("x")), other: b(text("c")) },
            Expr::StrConcatReuse { reuse_of: x(), other: b(text("c")) },
        ),
        (
            string(),
            Expr::StrTrim { base: b(var("x")) },
            Expr::StrTrimReuse { reuse_of: x() },
        ),
        (
            string(),
            Expr::StrToUpper { base: b(var("x")) },
            Expr::StrToUpperReuse { reuse_of: x() },
        ),
        (
            string(),
            Expr::StrToLower { base: b(var("x")) },
            Expr::StrToLowerReuse { reuse_of: x() },
        ),
        (
            string(),
            Expr::StrReplace { base: b(var("x")), from: b(text("a")), to: b(text("bb")) },
            Expr::StrReplaceReuse { reuse_of: x(), from: b(text("a")), to: b(text("bb")) },
        ),
        (
            array(),
            ctor("Two", vec![num(1), num(2)]),
            Expr::CtorReuse { reuse_of: x(), tag: "Two".to_string(), fields: vec![num(1), num(2)] },
        ),
    ];
    for (base, fresh, here) in cases {
        assert_eq!(in_place_and_afresh(base.clone(), fresh.clone(), here.clone(), false), (false, true));
        assert_eq!(in_place_and_afresh(base, fresh, here, true), (false, false));
    }
}

#[test]
fn a_cell_that_is_used_up_at_once_is_built_in() {
    let b = |e: Expr| Box::new(e);
    let cases = vec![
        (
            ctor("0Array", vec![num(1), text("s")]),
            Expr::ArrayPush { array: b(var("x")), value: b(num(4)) },
            Expr::ArrayPushReuse { reuse_of: "x".to_string(), value: b(num(4)) },
        ),
        (
            text("ab"),
            Expr::StrConcat { base: b(var("x")), other: b(text("c")) },
            Expr::StrConcatReuse { reuse_of: "x".to_string(), other: b(text("c")) },
        ),
    ];
    for (value, node, here) in cases {
        let e = bind("x", value.clone(), node);
        assert_eq!(optimize(e.clone()), bind("x", value, here));
        let (plain, v) = done(&e);
        let (reusing, w) = done(&optimize(e));
        assert_eq!(to_portable(&plain.heap, &v), to_portable(&reusing.heap, &w));
        assert_eq!(reusing.refcount(&w), Ok(1));
        assert_eq!(reusing.alloc_count() + 1, plain.alloc_count());
    }
}

#[test]
fn a_failed_change_leaves_the_cell_as_it_was() {
    let b = |e: Expr| Box::new(e);
    for op in [
        Expr::ArraySet { array: b(var("x")), index: b(num(3)), value: b(num(9)) },
        Expr::ArraySetReuse { reuse_of: "x".to_string(), index: b(num(3)), value: b(num(9)) },
    ] {
        let mut interp = Interpreter::new();
        let e = bind("x", ctor("0Array", vec![num(1)]), op);
        assert!(matches!(interp.eval(&e), Outcome::Failed(_)));
        assert_eq!(interp.heap.read(0).unwrap().1, &[Value::Int(1)]);
        assert_eq!(interp.heap.refcount(0), Ok(1));
        assert_eq!(interp.heap.alloc_count(), 1);
    }
}

#[test]
fn steps_add_up() {
    let e = Expr::Binary(BinOp::Mul, Box::new(num(6)), Box::new(num(7)));
    let (_, all_at_once) = done(&e);
    let mut interp = Interpreter::new();
    interp.control = plum::interp::state::Control::Eval(e);
    let mut rounds = 0;
    while interp.outcome() == Outcome::Running {
        interp.run(1);
        rounds += 1;
    }
    assert!(rounds > 1);
    assert_eq!(interp.outcome(), Outcome::Done(all_at_once));
    interp.run(10);
    assert_eq!(interp.outcome(), Outcome::Done(Value::Int(42)));
}

#[test]
fn evaluation_leaves_the_scope() {
    let mut interp = Interpreter::new();
    interp.env.push(("x".to_string(), Value::Int(1)));
    let ok = bind("y", num(2), Expr::Binary(BinOp::Add, Box::new(var("x")), Box::new(var("y"))));
    assert_eq!(interp.eval(&ok), Outcome::Done(Value::Int(3)));
    assert_eq!(interp.env, vec![("x".to_string(), Value::Int(1))]);
    let bad = bind("y", num(2), Expr::Binary(BinOp::Div, Box::new(var("x")), Box::new(num(0))));
    assert!(matches!(interp.eval(&bad), Outcome::Failed(_)));
    assert_eq!(interp.env, vec![("x".to_string(), Value::Int(1))]);
}

#[test]
fn the_right_operand_may_not_run() {
    let bad = || Box::new(Expr::Binary(BinOp::Div, Box::new(num(1)), Box::new(num(0))));
    assert!(!flag(Expr::Binary(BinOp::And, Box::new(Expr::Bool(false)), bad())));
    assert!(flag(Expr::Binary(BinOp::Or, Box::new(Expr::Bool(true)), bad())));
}

#[test]
fn a_function_does_not_see_its_callers_names() {
    let mut interp = Interpreter::new();
    let program = only(var("hidden"));
    assert_eq!(interp.load_program(&program), Outcome::Done(Value::Unit));
    let e = bind("hidden", num(1), call("f", vec![num(2)]));
    assert!(matches!(interp.eval(&e), Outcome::Failed(_)));
}

#[test]
fn a_call_does_not_depend_on_its_callers_scope() {
    let body = bind("y", text("new"), ctor("Pair", vec![var("p"), var("y")]));
    let called = |env: Vec<(String, Value)>, args: Vec<Value>| {
        let mut interp = Interpreter::new();
        assert_eq!(interp.load_program(&only(body.clone())), Outcome::Done(Value::Unit));
        interp.env = env.clone();
        let outcome = interp.call("f", args);
        assert_eq!(interp.env, env);
        (outcome, interp.heap.alloc_count())
    };
    let one = vec![("y".to_string(), Value::Int(1)), ("p".to_string(), Value::Unit)];
    assert_eq!(called(vec![], vec![Value::Int(3)]), called(one.clone(), vec![Value::Int(3)]));
    assert_eq!(called(vec![], vec![Value::Int(3)]), (Outcome::Done(Value::HeapRef(1)), 2));
    // An error gives the scope back as well.
    assert_eq!(called(vec![], vec![]), called(one, vec![]));
}

#[test]
fn naming_allocations_keeps_value_and_heap() {
    let b = |e: Expr| Box::new(e);
    let body = Expr::Binary(
        BinOp::Add,
        b(Expr::ArrayLen { array: b(Expr::StrConcat { base: b(text("ab")), other: b(text("c")) }) }),
        b(Expr::ArrayLen { array: b(ctor("0Array", vec![text("x"), num(7)])) }),
    );
    let node = Expr::StrConcat {
        base: b(Expr::StrConcat { base: b(text("ab")), other: b(text("c")) }),
        other: b(Expr::ToString { base: b(num(5)) }),
    };
    for (source, value) in [(body, Some(Value::Int(5))), (node, None)] {
        let flat = anf_program(only(source.clone())).functions.remove(0).body;
        assert_ne!(flat, source);
        let (plain, v) = done(&source);
        let (named, w) = done(&flat);
        assert_eq!(v, w);
        if let Some(value) = value {
            assert_eq!(v, value);
        }
        assert_eq!(plain.heap.alloc_count(), named.heap.alloc_count());
        for addr in 0..plain.heap.alloc_count() {
            assert_eq!(plain.heap.read_any(addr), named.heap.read_any(addr));
        }
    }
}

#[test]
fn counting_frees_only_what_is_not_needed() {
    let length = |x: &str| Expr::ArrayLen { array: Box::new(var(x)) };
    let e = bind(
        "x",
        text("abc"),
        bind(
            "y",
            ctor("Box", vec![text("kept")]),
            bind(
                "unused",
                text("gone"),
                Expr::Match {
                    scrutinee: Box::new(var("y")),
                    arms: vec![MatchArm {
                        tag: "Box".to_string(),
                        bindings: vec!["s".to_string()],
                        guard: Some(Box::new(Expr::Binary(
                            BinOp::Lt,
                            Box::new(length("x")),
                            Box::new(num(4)),
                        ))),
                        body: var("s"),
                    }],
                },
            ),
        ),
    );
    let (plain, v) = done(&e);
    let (counting, w) = done(&insert_refcount_ops(e));
    assert_eq!(v, w);
    assert_eq!(string_at(&plain, &v), "kept");
    assert_eq!(string_at(&counting, &w), "kept");
    assert_eq!(plain.heap.alloc_count(), counting.heap.alloc_count());
    let freed = (0..4).filter(|addr| counting.heap.read_any(*addr).is_err()).count();
    assert_eq!(freed, 3);
}

#[test]
fn a_reference_cell_gives_what_it_was_set_to() {
    let e = bind(
        "r",
        Expr::RefNew { value: Box::new(num(1)) },
        bind(
            "s",
            var("r"),
            bind(
                "_",
                Expr::RefSet { base: Box::new(var("s")), value: Box::new(num(5)) },
                Expr::RefGet { base: Box::new(var("r")) },
            ),
        ),
    );
    assert_eq!(done(&e).1, Value::Int(5));
}

// --- strings ---

fn replace(s: &str, from: &str, to: &str) -> String {
    evaluated_text(Expr::StrReplace {
        base: Box::new(text(s)),
        from: Box::new(text(from)),
        to: Box::new(text(to)),
    })
}

fn split(s: &str, sep: &str) -> Vec<String> {
    let (interp, v) = done(&Expr::StrSplit { base: Box::new(text(s)), sep: Box::new(text(sep)) });
    strings_at(&interp, &v)
}

#[test]
fn splitting_loses_nothing() {
    for (s, sep) in [("a,b,,c", ","), ("", ","), ("aaa", "aa"), ("abc", ""), ("", ""), ("xyx", "x")] {
        assert_eq!(split(s, sep).join(sep), s);
        assert_eq!(replace(s, sep, sep), s);
    }
}

#[test]
fn splitting_takes_the_first_of_overlapping_matches() {
    assert_eq!(split("aaa", "aa"), vec!["".to_string(), "a".to_string()]);
    assert_eq!(split("abaabab", "aba"), vec!["".to_string(), "abab".to_string()]);
    assert_eq!(replace("aaa", "aa", "b"), "ba");
    assert_eq!(replace("ababa", "aba", "x"), "xba");
}

#[test]
fn the_empty_string_separates_every_character() {
    let parts = vec!["".to_string(), "a".to_string(), "é".to_string(), "".to_string()];
    assert_eq!(split("aé", ""), parts);
    assert_eq!(replace("aé", "", "-"), "-a-é-");
    assert_eq!(replace("", "", "-"), "-");
}

#[test]
fn what_does_not_occur_is_not_replaced() {
    assert_eq!(replace("abc", "x", "y"), "abc");
    assert_eq!(split("abc", "x"), vec!["abc".to_string()]);
}

#[test]
fn case_is_mapped() {
    assert_eq!(evaluated_text(Expr::StrToUpper { base: Box::new(text("aßé1")) }), "ASSÉ1");
    assert_eq!(evaluated_text(Expr::StrToLower { base: Box::new(text("AÉ1")) }), "aé1");
}

#[test]
fn white_space_is_trimmed_at_both_ends() {
    assert_eq!(evaluated_text(Expr::StrTrim { base: Box::new(text(" \t\u{a0}a b\u{3000}\n")) }), "a b");
    assert_eq!(evaluated_text(Expr::StrTrim { base: Box::new(text(" \n ")) }), "");
}

#[test]
fn parts_of_strings_are_found() {
    let contains = |s: &str, p: &str| {
        flag(Expr::StrContains { base: Box::new(text(s)), needle: Box::new(text(p)) })
    };
    assert!(contains("abc", "bc"));
    assert!(contains("abc", ""));
    assert!(!contains("abc", "ac"));
    let starts = |s: &str, p: &str| {
        flag(Expr::StrStartsWith { base: Box::new(text(s)), prefix: Box::new(text(p)) })
    };
    assert!(starts("abc", "ab"));
    assert!(starts("abc", ""));
    assert!(starts("éa", "é"));
    assert!(!starts("abc", "b"));
    assert!(!starts("ab", "abc"));
    let ends = |s: &str, p: &str| {
        flag(Expr::StrEndsWith { base: Box::new(text(s)), suffix: Box::new(text(p)) })
    };
    assert!(ends("abc", "bc"));
    assert!(ends("abc", "abc"));
    assert!(ends("aé", "é"));
    assert!(!ends("abc", "b"));
    assert!(!ends("bc", "abc"));
}

#[test]
fn code_points_are_numbered() {
    let (interp, v) = done(&Expr::StrRunes { base: Box::new(text("aé")) });
    let Value::HeapRef(addr) = v else { panic!("expected an array") };
    assert_eq!(interp.heap.read(addr).unwrap().1, &[Value::Int(97), Value::Int(233)]);
}

// --- names and numbers ---

#[test]
fn numbers_are_written_in_decimal() {
    assert_eq!(decimal_text(0), "0");
    assert_eq!(decimal_text(u64::MAX), "18446744073709551615");
    assert_eq!(signed_decimal_text(i64::MIN), "-9223372036854775808");
    assert_eq!(signed_decimal_text(-1), "-1");
}

#[test]
fn tuple_tags_start_with_their_length() {
    assert_eq!(tuple_tag(2), "2Tuple");
    assert_ne!(tuple_tag(2), tuple_tag(12));
}

#[test]
fn fresh_names_differ() {
    let mut supply = NameSupply::new();
    let names: Vec<String> = (0..12).map(|_| supply.fresh("t$")).collect();
    for i in 0..names.len() {
        for j in 0..i {
            assert_ne!(names[i], names[j]);
        }
    }
}

#[test]
fn sets_and_maps_hold_what_was_put_in() {
    let mut set = NameSet::new();
    assert!(set.is_empty());
    set.insert("a".to_string());
    set.insert("a".to_string());
    assert_eq!(set.len(), 1);
    assert!(set.contains(&"a".to_string()));
    assert!(!set.contains(&"b".to_string()));
    let mut map: NameMap<usize> = NameMap::new();
    map.insert("a".to_string(), 1);
    map.insert("a".to_string(), 2);
    assert_eq!(map.get(&"a".to_string()), Some(&2));
    assert!(map.contains_key(&"a".to_string()));
    assert_eq!(map.len(), 1);
}

#[test]
fn freed_cells_stay_freed() {
    let drop_then_build = bind(
        "x",
        text("a"),
        dec("x", bind("y", text("b"), bind("z", ctor("A", vec![var("y")]), num(1)))),
    );
    let (interp, v) = done(&drop_then_build);
    assert_eq!(v, Value::Int(1));
    assert_eq!(interp.alloc_count(), 3);
    assert!(interp.heap.read_str(0).is_err());
    assert_eq!(interp.heap.read_str(1), Ok("b"));
}

#[test]
fn only_building_in_place_changes_a_cell() {
    let push = Expr::ArrayPush { array: Box::new(var("x")), value: Box::new(num(2)) };
    let e = bind("x", ctor("0Array", vec![num(1)]), bind("y", push, var("x")));
    let (interp, v) = done(&e);
    let Value::HeapRef(addr) = v else { panic!("expected an array") };
    assert_eq!(interp.heap.read(addr).unwrap().1, &[Value::Int(1)]);
    assert_eq!(interp.alloc_count(), 2);
}

#[test]
fn an_optimised_expression_reads_no_freed_cell() {
    let e = bind(
        "x",
        ctor("Pair", vec![num(1), num(2)]),
        bind(
            "y",
            ctor("Box", vec![var("x"), var("x")]),
            Expr::Match {
                scrutinee: Box::new(var("y")),
                arms: vec![MatchArm {
                    tag: "Box".to_string(),
                    bindings: vec!["a".to_string(), "b".to_string()],
                    guard: None,
                    body: Expr::Match {
                        scrutinee: Box::new(var("b")),
                        arms: vec![MatchArm {
                            tag: "Pair".to_string(),
                            bindings: vec!["c".to_string(), "d".to_string()],
                            guard: None,
                            body: Expr::Binary(BinOp::Add, Box::new(var("c")), Box::new(var("d"))),
                        }],
                    },
                }],
            },
        ),
    );
    assert_eq!(done(&optimize(e)).1, Value::Int(3));
}

#[test]
fn lifting_keeps_the_meaning() {
    let add = |a: Expr, b: Expr| Expr::Binary(BinOp::Add, Box::new(a), Box::new(b));
    let body = bind(
        "a",
        num(5),
        bind("x", num(1), add(var("a"), assign("x", add(var("x"), num(10)), var("x")))),
    );
    let lifted = lift_value_assigns(only(body.clone())).functions.remove(0).body;
    assert_ne!(lifted, body);
    assert_eq!(done(&body).1, Value::Int(16));
    assert_eq!(done(&lifted).1, Value::Int(16));
    // An operand that reads the assigned name keeps the old value.
    let reads = bind("x", num(1), add(var("x"), assign("x", num(10), var("x"))));
    let lifted = lift_value_assigns(only(reads.clone())).functions.remove(0).body;
    assert_eq!(done(&reads).1, Value::Int(11));
    assert_eq!(done(&lifted).1, Value::Int(11));
}

#[test]
fn counting_changes_only_counts() {
    let e = bind("x", text("a"), inc("x", dec("x", var("x"))));
    let (interp, v) = done(&e);
    assert_eq!(string_at(&interp, &v), "a");
    assert_eq!(interp.refcount(&v), Ok(1));
}

#[test]
fn counting_keeps_the_meaning() {
    let pair = |a: Expr, b: Expr| ctor("Pair", vec![a, b]);
    let e = bind(
        "x",
        text("a"),
        bind(
            "y",
            pair(var("x"), var("x")),
            Expr::Match {
                scrutinee: Box::new(var("y")),
                arms: vec![MatchArm {
                    tag: "Pair".to_string(),
                    bindings: vec!["p".to_string(), "q".to_string()],
                    guard: None,
                    body: Expr::StrConcat { base: Box::new(var("p")), other: Box::new(var("q")) },
                }],
            },
        ),
    );
    let counted = insert_refcount_ops(e.clone());
    assert_ne!(counted, e);
    let (plain, a) = done(&e);
    let (counting, b) = done(&counted);
    assert_eq!(a, b);
    assert_eq!(string_at(&plain, &a), "aa");
    assert_eq!(string_at(&counting, &b), "aa");
    assert_eq!(plain.alloc_count(), counting.alloc_count());
}
