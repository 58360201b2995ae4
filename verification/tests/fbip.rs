//! Reference counting and reuse.

use plum::fbip::reuse::mark_reuse_scoped;
use plum::fbip::uses::{expr_assigns_var, max_uses_on_path};
use plum::fbip::{
    confirmed_array_or_str_params, insert_refcount_ops, mark_reuse, optimize, optimize_program,
    optimize_program_with_reusable_params, release_match_bindings, reusable_params,
};
use plum::ir::{BinOp, Expr, Function, Global, MatchArm, PrimTy, Program, RcOp};
use plum::names::{NameMap, NameSet};

fn for_each_child(expr: &Expr, f: &mut dyn FnMut(&Expr)) {
    let parts = expr.parts();
    for kid in parts.kids {
        f(kid);
    }
    for arm in parts.arms {
        if let Some(guard) = &arm.guard {
            f(guard);
        }
        f(&arm.body);
    }
}

fn known(names: &[&str]) -> NameSet {
    let mut set = NameSet::new();
    for name in names {
        set.insert(name.to_string());
    }
    set
}

fn heap_tags(pairs: &[(&str, Vec<bool>)]) -> NameMap<Vec<bool>> {
    let mut map = NameMap::new();
    for (tag, fields) in pairs {
        map.insert(tag.to_string(), fields.clone());
    }
    map
}

fn expr_mentions_inc(expr: &Expr, name: &str) -> bool {
    match expr {
        Expr::RcAnnotated { op: RcOp::Inc, target, .. } if target == name => true,
        Expr::RcAnnotated { rest, .. } => expr_mentions_inc(rest, name),
        Expr::Let { value, body, .. } => expr_mentions_inc(value, name) || expr_mentions_inc(body, name),
        Expr::For { start, end, body, .. } => {
            expr_mentions_inc(start, name) || expr_mentions_inc(end, name) || expr_mentions_inc(body, name)
        }
        Expr::Assign { value, rest, .. } => expr_mentions_inc(value, name) || expr_mentions_inc(rest, name),
        Expr::If { cond, then_branch, else_branch } => {
            expr_mentions_inc(cond, name) || expr_mentions_inc(then_branch, name) || expr_mentions_inc(else_branch, name)
        }
        Expr::Call { callee, args } => expr_mentions_inc(callee, name) || args.iter().any(|a| expr_mentions_inc(a, name)),
        Expr::Binary(_, l, r) => expr_mentions_inc(l, name) || expr_mentions_inc(r, name),
        Expr::ArrayPush { array, value } => expr_mentions_inc(array, name) || expr_mentions_inc(value, name),
        Expr::ArrayPushReuse { value, .. } => expr_mentions_inc(value, name),
        Expr::Match { scrutinee, arms } => {
            expr_mentions_inc(scrutinee, name) || arms.iter().any(|a| expr_mentions_inc(&a.body, name))
        }
        _ => false,
    }
}

fn var(name: &str) -> Expr {
    Expr::Var(name.to_string())
}

fn num(n: i64) -> Expr {
    Expr::Int(n)
}

fn ctor(tag: &str, fields: Vec<Expr>) -> Expr {
    Expr::Ctor {
        tag: tag.to_string(),
        fields,
    }
}

fn let_(name: &str, value: Expr, body: Expr) -> Expr {
    Expr::Let {
        name: name.to_string(),
        value: Box::new(value),
        body: Box::new(body),
    }
}

fn if_(cond: Expr, then_branch: Expr, else_branch: Expr) -> Expr {
    Expr::If {
        cond: Box::new(cond),
        then_branch: Box::new(then_branch),
        else_branch: Box::new(else_branch),
    }
}

fn inc(name: &str, rest: Expr) -> Expr {
    Expr::RcAnnotated {
        op: RcOp::Inc,
        target: name.to_string(),
        rest: Box::new(rest),
    }
}

fn dec(name: &str, rest: Expr) -> Expr {
    Expr::RcAnnotated {
        op: RcOp::Dec,
        target: name.to_string(),
        rest: Box::new(rest),
    }
}

fn ctor_reuse(reuse_of: &str, tag: &str, fields: Vec<Expr>) -> Expr {
    Expr::CtorReuse {
        reuse_of: reuse_of.to_string(),
        tag: tag.to_string(),
        fields,
    }
}

fn match_(scrutinee: Expr, arms: Vec<MatchArm>) -> Expr {
    Expr::Match {
        scrutinee: Box::new(scrutinee),
        arms,
    }
}

fn arm(tag: &str, bindings: Vec<&str>, body: Expr) -> MatchArm {
    MatchArm {
        tag: tag.to_string(),
        bindings: bindings.into_iter().map(|s| s.to_string()).collect(),
        guard: None,
        body,
    }
}

fn call(callee: Expr, args: Vec<Expr>) -> Expr {
    Expr::Call {
        callee: Box::new(callee),
        args,
    }
}

fn for_(var_name: &str, start: Expr, end: Expr, body: Expr) -> Expr {
    Expr::For {
        var: var_name.to_string(),
        start: Box::new(start),
        end: Box::new(end),
        body: Box::new(body),
    }
}

fn closure_(params: Vec<&str>, body: Expr) -> Expr {
    Expr::Closure {
        params: params.into_iter().map(|s| s.to_string()).collect(),
        param_types: None,
        ret_type: None,
        body: Box::new(body),
    }
}

fn assign_(name: &str, value: Expr, rest: Expr) -> Expr {
    Expr::Assign {
        name: name.to_string(),
        value: Box::new(value),
        rest: Box::new(rest),
    }
}

fn func(name: &str, params: Vec<&str>, body: Expr) -> Function {
    Function {
        name: name.to_string(),
        params: params.into_iter().map(|p| p.to_string()).collect(),
        body,
    }
}

fn program_of(fns: Vec<Function>) -> Program {
    Program { functions: fns, globals: vec![], externs: vec![] }
}

fn str_lit(v: &str) -> Expr {
    Expr::Str(v.to_string())
}

fn concat(base: Expr, other: Expr) -> Expr {
    Expr::StrConcat { base: Box::new(base), other: Box::new(other) }
}

fn accumulator_program() -> Program {
    program_of(vec![
        func(
            "go",
            vec!["acc", "n"],
            if_(
                var("n"),
                var("acc"),
                call(var("go"), vec![concat(var("acc"), str_lit("x")), var("n")]),
            ),
        ),
        func("main", vec![], call(var("go"), vec![str_lit(""), num(9)])),
    ])
}

#[test]
fn a_tail_recursive_accumulator_parameter_is_reuse_eligible() {
    let r = reusable_params(&accumulator_program());
    assert_eq!(r.get(&"go".to_string()).map(|s| s.contains(&"acc".to_string())), Some(true), "got {r:?}");
}

#[test]
fn the_accumulator_actually_gets_rewritten_to_a_reuse_node() {
    let p = accumulator_program();
    let reusable = reusable_params(&p);
    let out = optimize_program_with_reusable_params(p, &reusable);
    let go = out.functions.into_iter().find(|f| f.name == "go").unwrap();
    assert!(
        mentions_str_concat_reuse(&go.body, "acc"),
        "expected StrConcatReuse on `acc`: {:?}",
        go.body
    );
}

#[test]
fn two_uses_on_one_path_make_a_parameter_ineligible() {
    let p = program_of(vec![func(
        "rep",
        vec!["s", "n"],
        concat(var("s"), call(var("rep"), vec![var("s"), var("n")])),
    )]);
    let r = reusable_params(&p);
    assert!(r.get(&"rep".to_string()).map(|s| s.contains(&"s".to_string())) != Some(true), "got {r:?}");
}

#[test]
fn a_bare_variable_argument_makes_the_parameter_ineligible() {
    let p = program_of(vec![
        func("f", vec!["p"], concat(var("p"), str_lit("x"))),
        func("caller", vec!["q"], call(var("f"), vec![var("q")])),
    ]);
    let r = reusable_params(&p);
    assert!(r.get(&"f".to_string()).map(|s| s.contains(&"p".to_string())) != Some(true), "got {r:?}");
}

#[test]
fn one_bad_call_site_among_several_is_enough_to_disqualify() {
    let p = program_of(vec![
        func("f", vec!["p"], concat(var("p"), str_lit("x"))),
        func("good", vec![], call(var("f"), vec![str_lit("fresh")])),
        func("bad", vec!["q"], call(var("f"), vec![var("q")])),
    ]);
    let r = reusable_params(&p);
    assert!(r.get(&"f".to_string()).map(|s| s.contains(&"p".to_string())) != Some(true), "got {r:?}");
}

#[test]
fn a_function_used_as_a_value_has_no_eligible_parameters() {
    let p = program_of(vec![
        func("f", vec!["p"], concat(var("p"), str_lit("x"))),
        func("takes", vec!["g"], var("g")),
        func("caller", vec![], call(var("takes"), vec![var("f")])),
    ]);
    let r = reusable_params(&p);
    assert!(r.get(&"f".to_string()).is_none(), "got {r:?}");
}

#[test]
fn a_use_inside_a_loop_body_counts_as_more_than_one() {
    let p = program_of(vec![func(
        "f",
        vec!["p"],
        for_("i", num(0), num(10), concat(var("p"), str_lit("x"))),
    )]);
    let r = reusable_params(&p);
    assert!(r.get(&"f".to_string()).map(|s| s.contains(&"p".to_string())) != Some(true), "got {r:?}");
}

#[test]
fn a_use_inside_a_closure_body_counts_as_more_than_one() {
    let p = program_of(vec![func(
        "f",
        vec!["p"],
        closure_(vec!["x"], concat(var("p"), str_lit("y"))),
    )]);
    let r = reusable_params(&p);
    assert!(r.get(&"f".to_string()).map(|s| s.contains(&"p".to_string())) != Some(true), "got {r:?}");
}

#[test]
fn branches_count_as_alternatives_not_additively() {
    let body = if_(var("n"), concat(var("p"), str_lit("a")), concat(var("p"), str_lit("b")));
    assert_eq!(max_uses_on_path(&body, &"p".to_string()), 1);
    let sequential = Expr::Binary(
        BinOp::Add,
        Box::new(concat(var("p"), str_lit("a"))),
        Box::new(concat(var("p"), str_lit("b"))),
    );
    assert_eq!(max_uses_on_path(&sequential, &"p".to_string()), 2);
}

#[test]
fn a_reuse_of_name_counts_as_a_use() {
    let body = Expr::Binary(
        BinOp::Add,
        Box::new(Expr::StrConcatReuse { reuse_of: "p".into(), other: Box::new(str_lit("a")) }),
        Box::new(Expr::ArrayLen { array: Box::new(var("p")) }),
    );
    assert_eq!(max_uses_on_path(&body, &"p".to_string()), 2);
}

fn mentions_str_concat_reuse(expr: &Expr, name: &str) -> bool {
    if let Expr::StrConcatReuse { reuse_of, .. } = expr {
        if reuse_of == name {
            return true;
        }
    }
    let mut found = false;
    for_each_child(expr, &mut |c| {
        if !found && mentions_str_concat_reuse(c, name) {
            found = true;
        }
    });
    found
}

#[test]
fn a_heap_shaped_match_binding_is_released_at_the_end_of_its_arm() {
    let e = match_(
        var("s"),
        vec![arm("Named", vec!["nm"], Expr::ArrayLen { array: Box::new(var("nm")) })],
    );
    let out = release_match_bindings(e, &heap_tags(&[("Named", vec![true])]));
    let Expr::Match { arms, .. } = &out else { panic!("expected a Match") };
    assert!(expr_mentions_dec(&arms[0].body, "nm"), "got {:?}", arms[0].body);
}

#[test]
fn a_scalar_match_binding_is_left_alone() {
    let e = match_(var("s"), vec![arm("Named", vec!["k"], var("k"))]);
    let out = release_match_bindings(e, &heap_tags(&[("Named", vec![false])]));
    let Expr::Match { arms, .. } = &out else { panic!("expected a Match") };
    assert!(!expr_mentions_dec(&arms[0].body, "k"));
}

#[test]
fn an_escaping_match_binding_is_not_released() {
    let e = match_(var("s"), vec![arm("Named", vec!["nm"], var("nm"))]);
    let out = release_match_bindings(e, &heap_tags(&[("Named", vec![true])]));
    let Expr::Match { arms, .. } = &out else { panic!("expected a Match") };
    assert!(!expr_mentions_dec(&arms[0].body, "nm"));
}

#[test]
fn a_match_binding_stored_into_a_ctor_is_not_released() {
    let e = match_(
        var("s"),
        vec![arm("Named", vec!["nm"], ctor("Wrapper", vec![var("nm")]))],
    );
    let out = release_match_bindings(e, &heap_tags(&[("Named", vec![true])]));
    let Expr::Match { arms, .. } = &out else { panic!("expected a Match") };
    assert!(!expr_mentions_dec(&arms[0].body, "nm"));
}

#[test]
fn a_match_binding_used_twice_is_not_released() {
    let e = match_(
        var("s"),
        vec![arm(
            "Named",
            vec!["nm"],
            Expr::Binary(
                BinOp::Add,
                Box::new(Expr::ArrayLen { array: Box::new(var("nm")) }),
                Box::new(Expr::ArrayLen { array: Box::new(var("nm")) }),
            ),
        )],
    );
    let out = release_match_bindings(e, &heap_tags(&[("Named", vec![true])]));
    let Expr::Match { arms, .. } = &out else { panic!("expected a Match") };
    assert!(!expr_mentions_dec(&arms[0].body, "nm"));
}

#[test]
fn a_catch_all_arm_binding_is_never_released() {
    let e = match_(
        var("s"),
        vec![arm("0Default", vec!["whole"], Expr::ArrayLen { array: Box::new(var("whole")) })],
    );
    let out = release_match_bindings(e.clone(), &heap_tags(&[("Named", vec![true])]));
    assert_eq!(out, e);
}

#[test]
fn a_binding_used_in_the_arms_guard_is_not_released() {
    let mut a = arm("Named", vec!["nm"], Expr::ArrayLen { array: Box::new(var("nm")) });
    a.guard = Some(Box::new(Expr::ArrayLen { array: Box::new(var("nm")) }));
    let out = release_match_bindings(match_(var("s"), vec![a]), &heap_tags(&[("Named", vec![true])]));
    let Expr::Match { arms, .. } = &out else { panic!("expected a Match") };
    assert!(!expr_mentions_dec(&arms[0].body, "nm"));
}

#[test]
fn a_match_nested_inside_another_expression_is_still_visited() {
    let inner = match_(
        var("s"),
        vec![arm("Named", vec!["nm"], Expr::ArrayLen { array: Box::new(var("nm")) })],
    );
    let e = let_("x", num(1), Expr::Binary(BinOp::Add, Box::new(var("x")), Box::new(inner)));
    let out = release_match_bindings(e, &heap_tags(&[("Named", vec![true])]));
    assert!(expr_mentions_dec(&out, "nm"), "got {out:?}");
}

fn drop_tmp(name: &str) -> String {
    format!("drop${name}")
}

#[test]
fn a_match_scrutinee_is_a_borrow_so_its_binding_is_released_at_scope_end() {
    let input = let_(
        "p",
        ctor("Point", vec![num(1)]),
        match_(var("p"), vec![arm("Point", vec!["x"], var("x"))]),
    );
    let out = insert_refcount_ops(input);
    let Expr::Let { name, body, .. } = &out else {
        panic!("expected a Let, got {out:?}");
    };
    assert_eq!(name, "p");
    let Expr::Let { name: tmp, body: inner, .. } = body.as_ref() else {
        panic!("expected the scope-end temporary, got {body:?}");
    };
    assert_eq!(*tmp, drop_tmp("p"));
    assert_eq!(
        **inner,
        dec("p", var(&drop_tmp("p"))),
        "the release must run AFTER the body has produced its value"
    );
}

#[test]
fn array_len_is_a_borrow_slot() {
    let input = let_("a", ctor("Arr", vec![]), Expr::ArrayLen { array: Box::new(var("a")) });
    assert!(
        expr_mentions_dec(&insert_refcount_ops(input), "a"),
        "`.len()` only loads the length word, so `a` should be released"
    );
}

#[test]
fn indexing_is_not_a_borrow_slot() {
    let input = let_(
        "a",
        ctor("Arr", vec![]),
        Expr::Index { base: Box::new(var("a")), index: Box::new(num(0)) },
    );
    assert!(!expr_mentions_dec(&insert_refcount_ops(input), "a"));
}

#[test]
fn a_binding_used_twice_is_left_on_the_old_path_with_its_protective_inc() {
    let input = let_(
        "p",
        ctor("Point", vec![num(1)]),
        Expr::Binary(
            BinOp::Add,
            Box::new(Expr::ArrayLen { array: Box::new(var("p")) }),
            Box::new(Expr::ArrayLen { array: Box::new(var("p")) }),
        ),
    );
    let out = insert_refcount_ops(input);
    assert!(expr_mentions_inc_deep(&out, "p"), "the protective Inc must survive");
    assert!(!expr_mentions_dec(&out, "p"), "and no scope-end release is added");
}

#[test]
fn a_binding_with_a_consuming_use_is_left_unchanged() {
    let input = let_("p", ctor("Point", vec![num(1)]), ctor("Wrapper", vec![var("p")]));
    assert!(!expr_mentions_dec(&insert_refcount_ops(input), "p"));
}

#[test]
fn reuse_in_place_wins_over_the_scope_end_release() {
    let input = let_(
        "p",
        ctor("Point", vec![num(1)]),
        match_(var("p"), vec![arm("Point", vec!["x"], ctor("Point", vec![var("x")]))]),
    );
    let released = insert_refcount_ops(input.clone());
    assert!(expr_mentions_dec(&released, "p"), "release inserted optimistically");

    let optimized = optimize(input);
    assert!(
        !expr_mentions_dec(&optimized, "p"),
        "and retracted once reuse claimed the cell: {optimized:?}"
    );
    assert!(expr_mentions_ctor_reuse(&optimized, "p"), "reuse should still fire: {optimized:?}");
}

#[test]
fn a_string_producing_operation_is_releasable_even_though_it_is_not_a_ctor() {
    let input = let_(
        "s",
        Expr::StrConcat { base: Box::new(Expr::Str("a".into())), other: Box::new(Expr::Str("b".into())) },
        Expr::ArrayLen { array: Box::new(var("s")) },
    );
    assert!(expr_mentions_dec(&insert_refcount_ops(input), "s"));
}

#[test]
fn an_unused_binding_still_gets_the_better_immediate_release() {
    let input = let_("p", ctor("Point", vec![]), num(5));
    assert_eq!(insert_refcount_ops(input), let_("p", ctor("Point", vec![]), dec("p", num(5))));
}

fn expr_mentions_inc_deep(expr: &Expr, name: &str) -> bool {
    if let Expr::RcAnnotated { op: RcOp::Inc, target, .. } = expr {
        if target == name {
            return true;
        }
    }
    let mut found = false;
    for_each_child(expr, &mut |c| {
        if !found && expr_mentions_inc_deep(c, name) {
            found = true;
        }
    });
    found
}

fn expr_mentions_dec(expr: &Expr, name: &str) -> bool {
    if let Expr::RcAnnotated { op: RcOp::Dec, target, .. } = expr {
        if target == name {
            return true;
        }
    }
    let mut found = false;
    for_each_child(expr, &mut |c| {
        if !found && expr_mentions_dec(c, name) {
            found = true;
        }
    });
    found
}

fn expr_mentions_ctor_reuse(expr: &Expr, name: &str) -> bool {
    if let Expr::CtorReuse { reuse_of, .. } = expr {
        if reuse_of == name {
            return true;
        }
    }
    let mut found = false;
    for_each_child(expr, &mut |c| {
        if !found && expr_mentions_ctor_reuse(c, name) {
            found = true;
        }
    });
    found
}

#[test]
fn map_like_shape_marks_reuse() {
    let input = match_(
        var("list"),
        vec![
            arm(
                "Cons",
                vec!["head", "tail"],
                ctor(
                    "Cons",
                    vec![call(var("f"), vec![var("head")]), call(var("map"), vec![var("f"), var("tail")])],
                ),
            ),
            arm("Nil", vec![], ctor("Nil", vec![])),
        ],
    );
    let expected = match_(
        var("list"),
        vec![
            arm(
                "Cons",
                vec!["head", "tail"],
                ctor_reuse(
                    "list",
                    "Cons",
                    vec![call(var("f"), vec![var("head")]), call(var("map"), vec![var("f"), var("tail")])],
                ),
            ),
            arm("Nil", vec![], ctor("Nil", vec![])),
        ],
    );
    assert_eq!(mark_reuse_scoped(input, &known(&["list"])), expected);
}

#[test]
fn a_scrutinee_not_present_in_known_heap_is_not_a_reuse_candidate() {
    let input = match_(
        var("list"),
        vec![arm("Cons", vec!["head", "tail"], ctor("Cons", vec![var("head"), var("tail")]))],
    );
    assert_eq!(mark_reuse(input.clone()), input);
}

#[test]
fn zero_arity_is_not_a_reuse_candidate() {
    let input = match_(var("list"), vec![arm("Nil", vec![], ctor("Nil", vec![]))]);
    assert_eq!(mark_reuse(input.clone()), input);
}

#[test]
fn mismatched_arity_is_not_a_reuse_candidate() {
    let input = match_(
        var("pair"),
        vec![arm(
            "Pair",
            vec!["a", "b"],
            ctor("Triple", vec![var("a"), var("b"), num(0)]),
        )],
    );
    assert_eq!(mark_reuse(input.clone()), input);
}

#[test]
fn arm_body_not_a_direct_ctor_is_not_a_reuse_candidate() {
    let input = match_(
        var("pair"),
        vec![arm("Pair", vec!["a", "b"], var("a"))],
    );
    assert_eq!(mark_reuse(input.clone()), input);
}

#[test]
fn non_variable_scrutinee_is_not_a_reuse_candidate() {
    let input = match_(
        call(var("get_pair"), vec![]),
        vec![arm(
            "Pair",
            vec!["a", "b"],
            ctor("Pair", vec![var("b"), var("a")]),
        )],
    );
    assert_eq!(mark_reuse(input.clone()), input);
}

#[test]
fn array_push_on_a_plain_variable_marks_reuse() {
    let input = Expr::ArrayPush {
        array: Box::new(var("a")),
        value: Box::new(num(3)),
    };
    let expected = Expr::ArrayPushReuse {
        reuse_of: "a".to_string(),
        value: Box::new(num(3)),
    };
    assert_eq!(mark_reuse_scoped(input, &known(&["a"])), expected);
}

#[test]
fn array_push_on_a_variable_absent_from_known_heap_is_not_a_reuse_candidate() {
    let input = Expr::ArrayPush {
        array: Box::new(var("a")),
        value: Box::new(num(3)),
    };
    assert_eq!(mark_reuse(input.clone()), input);
}

#[test]
fn array_pop_on_a_plain_variable_marks_reuse() {
    let input = Expr::ArrayPop { array: Box::new(var("a")) };
    let expected = Expr::ArrayPopReuse { reuse_of: "a".to_string() };
    assert_eq!(mark_reuse_scoped(input, &known(&["a"])), expected);
}

#[test]
fn array_set_on_a_plain_variable_marks_reuse() {
    let input = Expr::ArraySet {
        array: Box::new(var("a")),
        index: Box::new(num(0)),
        value: Box::new(num(9)),
    };
    let expected = Expr::ArraySetReuse {
        reuse_of: "a".to_string(),
        index: Box::new(num(0)),
        value: Box::new(num(9)),
    };
    assert_eq!(mark_reuse_scoped(input, &known(&["a"])), expected);
}

#[test]
fn array_remove_on_a_plain_variable_marks_reuse() {
    let input = Expr::ArrayRemove {
        array: Box::new(var("a")),
        index: Box::new(num(0)),
    };
    let expected = Expr::ArrayRemoveReuse {
        reuse_of: "a".to_string(),
        index: Box::new(num(0)),
    };
    assert_eq!(mark_reuse_scoped(input, &known(&["a"])), expected);
}

#[test]
fn array_push_on_a_non_variable_base_is_not_a_reuse_candidate() {
    let input = Expr::ArrayPush {
        array: Box::new(call(var("get_array"), vec![])),
        value: Box::new(num(3)),
    };
    assert_eq!(mark_reuse(input.clone()), input);
}

#[test]
fn str_concat_on_a_plain_variable_marks_reuse() {
    let input = Expr::StrConcat {
        base: Box::new(var("s")),
        other: Box::new(Expr::Str("x".to_string())),
    };
    let expected = Expr::StrConcatReuse {
        reuse_of: "s".to_string(),
        other: Box::new(Expr::Str("x".to_string())),
    };
    assert_eq!(mark_reuse_scoped(input, &known(&["s"])), expected);
}

#[test]
fn str_concat_on_a_variable_absent_from_known_heap_is_not_a_reuse_candidate() {
    let input = Expr::StrConcat {
        base: Box::new(var("s")),
        other: Box::new(Expr::Str("x".to_string())),
    };
    assert_eq!(mark_reuse(input.clone()), input);
}

#[test]
fn str_concat_on_a_non_variable_base_is_not_a_reuse_candidate() {
    let input = Expr::StrConcat {
        base: Box::new(call(var("get_str"), vec![])),
        other: Box::new(Expr::Str("x".to_string())),
    };
    assert_eq!(mark_reuse(input.clone()), input);
}

#[test]
fn str_trim_on_a_plain_variable_marks_reuse() {
    let input = Expr::StrTrim { base: Box::new(var("s")) };
    let expected = Expr::StrTrimReuse { reuse_of: "s".to_string() };
    assert_eq!(mark_reuse_scoped(input, &known(&["s"])), expected);
}

#[test]
fn str_trim_on_a_non_variable_base_is_not_a_reuse_candidate() {
    let input = Expr::StrTrim {
        base: Box::new(call(var("get_str"), vec![])),
    };
    assert_eq!(mark_reuse(input.clone()), input);
}

#[test]
fn str_to_upper_on_a_plain_variable_marks_reuse() {
    let input = Expr::StrToUpper { base: Box::new(var("s")) };
    let expected = Expr::StrToUpperReuse { reuse_of: "s".to_string() };
    assert_eq!(mark_reuse_scoped(input, &known(&["s"])), expected);
}

#[test]
fn str_to_lower_on_a_plain_variable_marks_reuse() {
    let input = Expr::StrToLower { base: Box::new(var("s")) };
    let expected = Expr::StrToLowerReuse { reuse_of: "s".to_string() };
    assert_eq!(mark_reuse_scoped(input, &known(&["s"])), expected);
}

#[test]
fn str_replace_on_a_plain_variable_marks_reuse() {
    let input = Expr::StrReplace {
        base: Box::new(var("s")),
        from: Box::new(Expr::Str("x".to_string())),
        to: Box::new(Expr::Str("y".to_string())),
    };
    let expected = Expr::StrReplaceReuse {
        reuse_of: "s".to_string(),
        from: Box::new(Expr::Str("x".to_string())),
        to: Box::new(Expr::Str("y".to_string())),
    };
    assert_eq!(mark_reuse_scoped(input, &known(&["s"])), expected);
}

#[test]
fn str_replace_on_a_non_variable_base_is_not_a_reuse_candidate() {
    let input = Expr::StrReplace {
        base: Box::new(call(var("get_str"), vec![])),
        from: Box::new(Expr::Str("x".to_string())),
        to: Box::new(Expr::Str("y".to_string())),
    };
    assert_eq!(mark_reuse(input.clone()), input);
}

#[test]
fn str_contains_is_never_a_reuse_candidate() {
    let input = Expr::StrContains {
        base: Box::new(var("s")),
        needle: Box::new(Expr::Str("x".to_string())),
    };
    assert_eq!(mark_reuse(input.clone()), input);
}

#[test]
fn ref_set_is_never_a_reuse_candidate() {
    let input = Expr::RefSet {
        base: Box::new(var("r")),
        value: Box::new(num(6)),
    };
    assert_eq!(mark_reuse(input.clone()), input);
}

#[test]
fn a_let_bound_ref_is_not_tracked_as_heap_shaped() {
    let input = let_(
        "r",
        Expr::RefNew { value: Box::new(num(5)) },
        num(10),
    );
    assert_eq!(insert_refcount_ops(input.clone()), input);
}

#[test]
fn recurses_into_nested_matches() {
    let inner = match_(
        var("inner_list"),
        vec![arm(
            "Cons",
            vec!["h", "t"],
            ctor("Cons", vec![var("h"), var("t")]),
        )],
    );
    let expected_inner = match_(
        var("inner_list"),
        vec![arm(
            "Cons",
            vec!["h", "t"],
            ctor_reuse("inner_list", "Cons", vec![var("h"), var("t")]),
        )],
    );
    let input = let_("inner_list", var("outer"), inner);
    let expected = let_("inner_list", var("outer"), expected_inner);
    assert_eq!(mark_reuse_scoped(input, &known(&["outer"])), expected);
}

#[test]
fn composes_after_refcount_insertion() {
    let input = let_(
        "list",
        ctor("Cons", vec![num(1), ctor("Nil", vec![])]),
        match_(
            var("list"),
            vec![
                arm(
                    "Cons",
                    vec!["head", "tail"],
                    ctor("Cons", vec![var("head"), var("tail")]),
                ),
                arm("Nil", vec![], ctor("Nil", vec![])),
            ],
        ),
    );
    let piped = optimize(input);
    match &piped {
        Expr::Let { body, .. } => match body.as_ref() {
            Expr::Match { arms, .. } => match &arms[0].body {
                Expr::CtorReuse { reuse_of, tag, .. } => {
                    assert_eq!(reuse_of, "list");
                    assert_eq!(tag, "Cons");
                }
                other => panic!("expected a CtorReuse candidate, got {other:?}"),
            },
            other => panic!("expected a Match, got {other:?}"),
        },
        other => panic!("expected a Let, got {other:?}"),
    }
}

#[test]
fn a_bare_untracked_scrutinee_does_not_reuse_even_through_the_full_pipeline() {
    let input = match_(
        var("list"),
        vec![
            arm(
                "Cons",
                vec!["head", "tail"],
                ctor("Cons", vec![var("head"), var("tail")]),
            ),
            arm("Nil", vec![], ctor("Nil", vec![])),
        ],
    );
    let piped = optimize(input);
    match &piped {
        Expr::Match { arms, .. } => match &arms[0].body {
            Expr::Ctor { tag, .. } => assert_eq!(tag, "Cons"),
            other => panic!("expected a plain (non-reused) Ctor, got {other:?}"),
        },
        other => panic!("expected a Match, got {other:?}"),
    }
}

#[test]
fn single_use_needs_no_rc_ops_at_all() {
    let input = let_("p", ctor("Point", vec![num(1), num(2)]), var("p"));
    assert_eq!(insert_refcount_ops(input.clone()), input);
}

#[test]
fn primitives_never_get_rc_ops_even_with_multiple_uses() {
    let input = let_("n", num(5), Expr::Binary(BinOp::Add, Box::new(var("n")), Box::new(var("n"))));
    assert_eq!(insert_refcount_ops(input.clone()), input);
}

#[test]
fn two_uses_dups_before_the_first_not_the_last() {
    let input = let_(
        "p",
        ctor("Point", vec![]),
        ctor("Pair", vec![var("p"), var("p")]),
    );
    let expected = let_(
        "p",
        ctor("Point", vec![]),
        ctor("Pair", vec![inc("p", var("p")), var("p")]),
    );
    assert_eq!(insert_refcount_ops(input), expected);
}

#[test]
fn zero_uses_drops_immediately() {
    let input = let_("p", ctor("Point", vec![]), num(5));
    let expected = let_("p", ctor("Point", vec![]), dec("p", num(5)));
    assert_eq!(insert_refcount_ops(input), expected);
}

#[test]
fn a_let_bound_string_literal_is_tracked_as_heap_shaped() {
    let input = let_("s", Expr::Str("hi".to_string()), num(5));
    let expected = let_("s", Expr::Str("hi".to_string()), dec("s", num(5)));
    assert_eq!(insert_refcount_ops(input), expected);
}

#[test]
fn aliasing_chain_needs_no_rc_ops_when_each_hop_is_a_last_use() {
    let input = let_("p", ctor("Point", vec![]), let_("q", var("p"), var("q")));
    assert_eq!(insert_refcount_ops(input.clone()), input);
}

#[test]
fn branches_are_alternatives_not_a_sequence() {
    let input = let_(
        "p",
        ctor("Point", vec![]),
        if_(var("cond"), var("p"), var("p")),
    );
    assert_eq!(insert_refcount_ops(input.clone()), input);
}

#[test]
fn shadowing_does_not_confuse_outer_and_inner_bindings() {
    let input = let_(
        "p",
        ctor("Outer", vec![]),
        let_("p", ctor("Inner", vec![]), var("p")),
    );
    let expected = let_(
        "p",
        ctor("Outer", vec![]),
        dec("p", let_("p", ctor("Inner", vec![]), var("p"))),
    );
    assert_eq!(insert_refcount_ops(input), expected);
}

#[test]
fn a_heap_value_used_inside_a_loop_body_is_always_dupd_never_moved() {
    let input = let_(
        "p",
        ctor("Point", vec![]),
        for_("i", num(0), num(5), var("p")),
    );
    let expected = let_(
        "p",
        ctor("Point", vec![]),
        for_("i", num(0), num(5), inc("p", var("p"))),
    );
    assert_eq!(insert_refcount_ops(input), expected);
}

#[test]
fn a_heap_value_never_used_in_the_loop_is_dropped_immediately_as_usual() {
    let input = let_("p", ctor("Point", vec![]), for_("i", num(0), num(5), num(0)));
    let expected = let_(
        "p",
        ctor("Point", vec![]),
        dec("p", for_("i", num(0), num(5), num(0))),
    );
    assert_eq!(insert_refcount_ops(input), expected);
}

#[test]
fn the_loop_variable_itself_is_never_treated_as_heap_shaped() {
    let input = for_("i", num(0), num(5), var("i"));
    assert_eq!(insert_refcount_ops(input.clone()), input);
}

#[test]
fn a_self_rebinding_accumulator_in_a_loop_body_is_a_last_use_not_a_dup() {
    let input = let_(
        "acc",
        Expr::EmptyArray(PrimTy::Int),
        for_(
            "i",
            num(0),
            num(5),
            assign_(
                "acc",
                Expr::ArrayPush { array: Box::new(var("acc")), value: Box::new(num(1)) },
                Expr::Unit,
            ),
        ),
    );
    let out = insert_refcount_ops(input);
    assert!(
        !expr_mentions_inc(&out, "acc"),
        "the self-rebinding accumulator must not be dup'd every iteration: {out:?}"
    );
}

#[test]
fn a_self_rebinding_accumulator_is_a_last_use_even_when_used_after_the_loop() {
    let input = let_(
        "acc",
        Expr::EmptyArray(PrimTy::Int),
        let_(
            "_",
            for_(
                "i",
                num(0),
                num(5),
                assign_(
                    "acc",
                    Expr::ArrayPush { array: Box::new(var("acc")), value: Box::new(num(1)) },
                    Expr::Unit,
                ),
            ),
            Expr::ArrayLen { array: Box::new(var("acc")) },
        ),
    );
    let out = optimize(input);
    assert!(
        !expr_mentions_inc(&out, "acc"),
        "a post-loop use must not resurrect the consumed in-loop read: {out:?}"
    );
    assert!(
        format!("{out:?}").contains("ArrayPushReuse"),
        "the accumulator should still reach the reuse-in-place push path: {out:?}"
    );
}

#[test]
fn two_rebinds_in_one_loop_body_are_both_last_uses() {
    let input = let_(
        "acc",
        Expr::Str("".to_string()),
        let_(
            "_",
            for_(
                "i",
                num(0),
                num(5),
                Expr::If {
                    cond: Box::new(Expr::Bool(true)),
                    then_branch: Box::new(assign_(
                        "acc",
                        Expr::StrConcat { base: Box::new(var("acc")), other: Box::new(Expr::Str(" ".to_string())) },
                        Expr::Unit,
                    )),
                    else_branch: Box::new(assign_(
                        "acc",
                        Expr::StrConcat { base: Box::new(var("acc")), other: Box::new(Expr::Str("x".to_string())) },
                        Expr::Unit,
                    )),
                },
            ),
            var("acc"),
        ),
    );
    let out = optimize(input);
    assert!(!expr_mentions_inc(&out, "acc"), "neither rebind should be dup'd: {out:?}");
    assert!(
        format!("{out:?}").matches("StrConcatReuse").count() == 2,
        "both concats should reuse in place: {out:?}"
    );
}

#[test]
fn an_alias_read_before_a_rebinding_assign_is_still_duped() {
    let input = let_(
        "acc",
        Expr::Str("".to_string()),
        let_(
            "snap",
            var("acc"),
            assign_(
                "acc",
                Expr::StrConcat { base: Box::new(var("acc")), other: Box::new(Expr::Str("x".to_string())) },
                call(var("use_it"), vec![var("snap")]),
            ),
        ),
    );
    let out = insert_refcount_ops(input);
    assert!(
        expr_mentions_inc(&out, "acc"),
        "an alias read before a rebinding assign must still be dup'd: {out:?}"
    );
}

#[test]
fn a_self_rebinding_accumulator_still_reaches_array_push_reuse() {
    let input = let_(
        "acc",
        Expr::EmptyArray(PrimTy::Int),
        for_(
            "i",
            num(0),
            num(5),
            assign_(
                "acc",
                Expr::ArrayPush { array: Box::new(var("acc")), value: Box::new(num(1)) },
                Expr::Unit,
            ),
        ),
    );
    let out = optimize(input);
    assert!(
        format!("{out:?}").contains("ArrayPushReuse"),
        "a loop accumulator should reach the reuse-in-place push path: {out:?}"
    );
}

#[test]
fn a_loop_body_use_that_is_not_a_self_rebind_is_still_conservatively_duped() {
    let input = let_(
        "xs",
        ctor("Pair", vec![num(1), num(2)]),
        for_("i", num(0), num(5), call(var("consume"), vec![var("xs")])),
    );
    let out = insert_refcount_ops(input);
    assert!(
        expr_mentions_inc(&out, "xs"),
        "a non-rebinding loop-body use must still be dup'd: {out:?}"
    );
}

#[test]
fn an_aliasing_read_before_a_self_rebind_is_still_duped() {
    let input = let_(
        "acc",
        Expr::EmptyArray(PrimTy::Int),
        for_(
            "i",
            num(0),
            num(5),
            let_(
                "snap",
                var("acc"),
                assign_(
                    "acc",
                    Expr::ArrayPush { array: Box::new(var("acc")), value: Box::new(num(1)) },
                    call(var("use_it"), vec![var("snap")]),
                ),
            ),
        ),
    );
    let out = insert_refcount_ops(input);
    assert!(
        expr_mentions_inc(&out, "acc"),
        "an aliasing read before the rebind must be dup'd so the push can't corrupt the alias: {out:?}"
    );
}

#[test]
fn a_shadowed_inner_rebind_does_not_relax_the_outer_names_loop_rule() {
    let input = let_(
        "acc",
        ctor("Pair", vec![num(1), num(2)]),
        for_(
            "i",
            num(0),
            num(5),
            let_(
                "acc", // shadows
                Expr::EmptyArray(PrimTy::Int),
                assign_("acc", Expr::EmptyArray(PrimTy::Int), Expr::Unit),
            ),
        ),
    );
    let Expr::Let { body, .. } = &input else { panic!("shape") };
    let Expr::For { body: loop_body, .. } = body.as_ref() else { panic!("shape") };
    assert!(
        !expr_assigns_var(loop_body, &"acc".to_string()),
        "a shadowed inner rebind must not count as rebinding the outer name"
    );
}

#[test]
fn mark_reuse_recurses_into_a_loop_body() {
    let input = for_(
        "i",
        num(0),
        num(5),
        match_(var("list"), vec![arm("Cons", vec!["h", "t"], ctor("Cons", vec![var("h"), var("t")]))]),
    );
    let expected = for_(
        "i",
        num(0),
        num(5),
        match_(
            var("list"),
            vec![arm("Cons", vec!["h", "t"], ctor_reuse("list", "Cons", vec![var("h"), var("t")]))],
        ),
    );
    assert_eq!(mark_reuse_scoped(input, &known(&["list"])), expected);
}

#[test]
fn a_heap_value_captured_by_a_closure_is_not_inc_d_per_mention_inside_the_body() {
    let input = let_("p", ctor("Point", vec![]), closure_(vec!["x"], var("p")));
    assert_eq!(insert_refcount_ops(input.clone()), input);
}

#[test]
fn a_heap_value_captured_and_mentioned_multiple_times_in_a_closure_body_is_never_inc_d() {
    let input = let_(
        "p",
        ctor("Point", vec![]),
        closure_(vec!["x"], Expr::Binary(BinOp::Add, Box::new(var("p")), Box::new(var("p")))),
    );
    assert_eq!(insert_refcount_ops(input.clone()), input);
}

#[test]
fn a_heap_value_never_used_in_a_closure_is_dropped_immediately_as_usual() {
    let input = let_("p", ctor("Point", vec![]), closure_(vec!["x"], var("x")));
    let expected = let_("p", ctor("Point", vec![]), dec("p", closure_(vec!["x"], var("x"))));
    assert_eq!(insert_refcount_ops(input), expected);
}

#[test]
fn mark_reuse_recurses_into_a_closure_body() {
    let input = closure_(
        vec!["list"],
        match_(var("list"), vec![arm("Cons", vec!["h", "t"], ctor("Cons", vec![var("h"), var("t")]))]),
    );
    let expected = closure_(
        vec!["list"],
        match_(
            var("list"),
            vec![arm("Cons", vec!["h", "t"], ctor_reuse("list", "Cons", vec![var("h"), var("t")]))],
        ),
    );
    assert_eq!(mark_reuse_scoped(input, &known(&["list"])), expected);
}

#[test]
fn reassigning_a_non_heap_value_inserts_no_refcount_ops() {
    let input = let_(
        "sum",
        num(0),
        assign_(
            "sum",
            Expr::Binary(BinOp::Add, Box::new(var("sum")), Box::new(num(1))),
            var("sum"),
        ),
    );
    assert_eq!(insert_refcount_ops(input.clone()), input);
}

#[test]
fn reassigning_a_heap_tracked_variable_leaks_the_old_value_by_design() {
    let input = let_(
        "p",
        ctor("Point", vec![]),
        assign_("p", ctor("Point", vec![]), var("p")),
    );
    assert_eq!(insert_refcount_ops(input.clone()), input);
}

#[test]
fn mark_reuse_recurses_into_assign_value_and_rest() {
    let input = assign_(
        "x",
        match_(var("list"), vec![arm("Cons", vec!["h", "t"], ctor("Cons", vec![var("h"), var("t")]))]),
        match_(var("list2"), vec![arm("Cons", vec!["h", "t"], ctor("Cons", vec![var("h"), var("t")]))]),
    );
    let expected = assign_(
        "x",
        match_(
            var("list"),
            vec![arm("Cons", vec!["h", "t"], ctor_reuse("list", "Cons", vec![var("h"), var("t")]))],
        ),
        match_(
            var("list2"),
            vec![arm("Cons", vec!["h", "t"], ctor_reuse("list2", "Cons", vec![var("h"), var("t")]))],
        ),
    );
    assert_eq!(mark_reuse_scoped(input, &known(&["list", "list2"])), expected);
}

#[test]
fn optimize_program_runs_optimize_on_every_function_body() {
    let program = Program {
        functions: vec![Function {
            name: "make".to_string(),
            params: vec![],
            body: let_("p", ctor("Point", vec![num(1), num(2)]), var("p")),
        }],
        globals: vec![],
        externs: vec![],
    };
    let optimized = optimize_program(program);
    assert_eq!(optimized.functions.len(), 1);
    assert_eq!(
        optimized.functions[0].body,
        optimize(let_("p", ctor("Point", vec![num(1), num(2)]), var("p")))
    );
}

#[test]
fn optimize_program_preserves_function_names_params_and_order() {
    let program = Program {
        functions: vec![
            Function {
                name: "first".to_string(),
                params: vec!["a".to_string()],
                body: var("a"),
            },
            Function {
                name: "second".to_string(),
                params: vec!["b".to_string(), "c".to_string()],
                body: var("b"),
            },
        ],
        globals: vec![],
        externs: vec![],
    };
    let optimized = optimize_program(program);
    assert_eq!(optimized.functions[0].name, "first");
    assert_eq!(optimized.functions[0].params, vec!["a".to_string()]);
    assert_eq!(optimized.functions[1].name, "second");
    assert_eq!(optimized.functions[1].params, vec!["b".to_string(), "c".to_string()]);
}

#[test]
fn optimize_program_runs_optimize_on_every_global_too() {
    let program = Program {
        functions: vec![],
        globals: vec![Global {
            name: "origin".to_string(),
            value: let_("p", ctor("Point", vec![num(1), num(2)]), var("p")),
        }],
        externs: vec![],
    };
    let optimized = optimize_program(program);
    assert_eq!(optimized.globals[0].name, "origin");
    assert_eq!(
        optimized.globals[0].value,
        optimize(let_("p", ctor("Point", vec![num(1), num(2)]), var("p")))
    );
}

#[test]
fn confirmed_array_or_str_params_finds_a_parameter_proven_by_its_own_push_call() {
    let body = Expr::ArrayPush {
        array: Box::new(var("acc")),
        value: Box::new(var("v")),
    };
    let found = confirmed_array_or_str_params(&body, &vec!["acc".to_string(), "v".to_string()]);
    assert_eq!(found.len(), 1);
    assert!(found.contains(&"acc".to_string()));
}

#[test]
fn confirmed_array_or_str_params_does_not_attribute_a_shadowed_inner_bindings_use_to_the_outer_param() {
    let body = let_(
        "make_pusher",
        Expr::Closure {
            params: vec!["acc".to_string()], // shadows the OUTER `acc`
            param_types: None,
            ret_type: None,
            body: Box::new(Expr::ArrayPush {
                array: Box::new(var("acc")), // the INNER (shadowed) acc
                value: Box::new(num(1)),
            }),
        },
        Expr::Binary(BinOp::Add, Box::new(var("acc")), Box::new(num(1))), // the OUTER acc, used as a plain Int
    );
    let found = confirmed_array_or_str_params(&body, &vec!["acc".to_string()]);
    assert!(found.is_empty(), "the outer Int parameter must not be attributed the shadowed inner binding's array use: {found:?}");
}

#[test]
fn confirmed_array_or_str_params_finds_nothing_for_a_plain_scalar_parameter() {
    let body = Expr::Binary(BinOp::Add, Box::new(var("n")), Box::new(var("n")));
    let found = confirmed_array_or_str_params(&body, &vec!["n".to_string()]);
    assert!(found.is_empty(), "plain arithmetic is no evidence of array/string shape: {found:?}");
}

#[test]
fn call_results_are_conservatively_not_tracked() {
    let call = Expr::Call {
        callee: Box::new(var("f")),
        args: vec![var("x")],
    };
    let input = let_("r", call, ctor("Pair", vec![var("r"), var("r")]));
    assert_eq!(insert_refcount_ops(input.clone()), input);
}

#[test]
fn as_cstr_on_an_untracked_variable_is_wrapped_with_a_protective_inc() {
    let input = Expr::AsCStr(Box::new(var("s")));
    assert_eq!(insert_refcount_ops(input.clone()), inc("s", Expr::AsCStr(Box::new(var("s")))));
}

#[test]
fn as_cstr_on_a_tracked_last_use_needs_no_extra_protection() {
    let input = let_("s", Expr::Str("hi".to_string()), Expr::AsCStr(Box::new(var("s"))));
    assert_eq!(insert_refcount_ops(input), let_("s", Expr::Str("hi".to_string()), Expr::AsCStr(Box::new(var("s")))));
}

#[test]
fn as_cstr_on_a_tracked_variable_used_again_afterward_is_dupd_by_the_existing_machinery() {
    let input = let_(
        "s",
        Expr::Str("hi".to_string()),
        Expr::Binary(BinOp::Add, Box::new(Expr::AsCStr(Box::new(var("s")))), Box::new(var("s"))),
    );
    let expected = let_(
        "s",
        Expr::Str("hi".to_string()),
        Expr::Binary(
            BinOp::Add,
            Box::new(Expr::AsCStr(Box::new(inc("s", var("s"))))),
            Box::new(var("s")),
        ),
    );
    assert_eq!(insert_refcount_ops(input), expected);
}

#[test]
fn as_cstr_on_a_non_variable_operand_is_left_alone() {
    let input = Expr::AsCStr(Box::new(Expr::Str("hi".to_string())));
    assert_eq!(insert_refcount_ops(input.clone()), input);
}
