//! Lowering: what is refused, and what holds of what is accepted.

use plum::ast::{
    self,
    BinaryOp, Block, EnumDecl, Expr, FieldInit, FieldPattern, Item, LetDef, Literal, MatchArm,
    Param, ParamKind, Path, Pattern, SelectArm, Span, Stmt, StructDecl, VariantDecl,
};
use plum::ir;
use plum::lower::{lower_expr, lower_program, LowerError, LoweringContext};

fn at(start: usize) -> Span {
    Span { start, end: start + 1 }
}

fn ident(x: &str) -> Expr {
    Expr::Ident(x.to_string(), at(0))
}

fn path(x: &str) -> Path {
    Path { qualifiers: vec![], name: x.to_string() }
}

fn binder(x: &str) -> Pattern {
    Pattern::Ident(x.to_string(), at(0))
}

fn init(x: &str, value: Expr) -> FieldInit {
    FieldInit { name: x.to_string(), value, span: at(5) }
}

fn part(x: &str, pattern: Pattern) -> FieldPattern {
    FieldPattern { name: x.to_string(), pattern, span: at(6) }
}

fn num(n: i64) -> Expr {
    Expr::Int(n, at(0))
}

fn block(stmts: Vec<Stmt>, tail: Expr) -> Expr {
    Expr::Block(Box::new(Block { stmts, tail: Some(tail) }), at(0))
}

fn let_in(pattern: Pattern, value: Expr) -> Expr {
    block(vec![Stmt::Let { pattern, value }], num(0))
}

fn matching(pattern: Pattern, guard: Option<Expr>) -> Expr {
    Expr::Match {
        scrutinee: Box::new(ident("s")),
        arms: vec![MatchArm { pattern, guard, body: num(1), span: at(9) }],
        span: at(8),
    }
}

fn selecting(pattern: Pattern, expr: Expr) -> Expr {
    Expr::Select { arms: vec![SelectArm { pattern, expr, body: num(1) }], span: at(8) }
}

fn recv() -> Expr {
    Expr::Call {
        callee: Box::new(Expr::Field { base: Box::new(ident("rx")), name: "recv".to_string(), span: at(2) }),
        args: vec![],
        span: at(2),
    }
}

fn variant(name: &str, args: Vec<Pattern>) -> Pattern {
    Pattern::Variant { path: path(name), args, span: at(3) }
}

fn record(name: &str, fields: Vec<FieldPattern>, has_rest: bool) -> Pattern {
    Pattern::Struct { path: path(name), fields, has_rest, span: at(4) }
}

fn literal(name: &str, fields: Vec<FieldInit>) -> Expr {
    Expr::StructLiteral { path: path(name), fields, spread: None, span: at(7) }
}

// `struct Point { x, y }` and `enum Shape { Circle(_), Empty }`.
fn context() -> LoweringContext {
    LoweringContext::from_items(&[
        Item::Struct(StructDecl { name: "Point".to_string(), fields: vec!["x".to_string(), "y".to_string()] }),
        Item::Enum(EnumDecl {
            name: "Shape".to_string(),
            variants: vec![
                VariantDecl { name: "Circle".to_string(), arity: 1 },
                VariantDecl { name: "Empty".to_string(), arity: 0 },
            ],
        }),
    ])
}

fn refused(expr: Expr, error: LowerError, message: &str) {
    let found = lower_expr(&expr, &context()).expect_err("expected lowering to refuse");
    assert_eq!(found.message(), message);
    assert_eq!(found, error);
}

#[test]
fn parameters_that_cannot_be_taken_apart() {
    let program = ast::Program {
        items: vec![Item::Let(LetDef {
            name: "f".to_string(),
            params: vec![Param { kind: ParamKind::Pattern(Pattern::Literal(Literal::Int(1), at(2))), span: at(2) }],
            body: num(1),
        })],
    };
    let found = lower_program(&program, &context()).expect_err("expected lowering to refuse");
    assert_eq!(found, LowerError::ParamPattern(at(2)));
    assert_eq!(
        found.message(),
        "lowering not yet implemented for destructuring function parameters of this shape (only tuples, structs, and plain identifiers so far) at Span { start: 2, end: 3 }"
    );
}

#[test]
fn bindings_that_cannot_be_taken_apart() {
    refused(
        let_in(Pattern::Literal(Literal::Bool(true), at(2)), num(1)),
        LowerError::LetPattern(at(2)),
        "lowering not yet implemented for destructuring let-bindings of this shape (only tuples, structs, and plain identifiers so far) at Span { start: 2, end: 3 }",
    );
    refused(
        Expr::For {
            pattern: Pattern::Tuple(vec![binder("a"), binder("b")], at(2)),
            iter: Box::new(ident("xs")),
            body: Box::new(Block { stmts: vec![], tail: None }),
            span: at(0),
        },
        LowerError::ForPattern(at(2)),
        "lowering not yet implemented for destructuring `for` patterns at Span { start: 2, end: 3 }",
    );
    refused(
        let_in(Pattern::Tuple(vec![], at(2)), num(1)),
        LowerError::EmptyTuplePattern(at(2)),
        "lowering not yet implemented for destructuring against the empty tuple pattern at Span { start: 2, end: 3 } (there's nothing to bind — match against `()` instead)",
    );
}

#[test]
fn select_arms_that_do_not_fit() {
    refused(
        selecting(Pattern::Literal(Literal::Int(1), at(2)), recv()),
        LowerError::SelectPattern(at(2)),
        "lowering not yet implemented for this pattern shape in a `select` arm at Span { start: 2, end: 3 }",
    );
    refused(
        selecting(binder("v"), ident("rx")),
        LowerError::SelectCall(at(0)),
        "`select` arm requires an `expr.recv()` call at Span { start: 0, end: 1 }",
    );
}

#[test]
fn patterns_inside_patterns() {
    refused(
        matching(variant("Circle", vec![Pattern::Literal(Literal::Int(1), at(2))]), None),
        LowerError::NestedPattern(at(2)),
        "lowering not yet implemented for this pattern shape nested inside another pattern at Span { start: 2, end: 3 }",
    );
    refused(
        matching(
            variant("Circle", vec![Pattern::Tuple(vec![binder("a"), binder("b")], at(2))]),
            Some(Expr::Bool(true, at(0))),
        ),
        LowerError::GuardWithNested(at(9)),
        "lowering not yet implemented for a match guard combined with a nested pattern at Span { start: 9, end: 10 }",
    );
    refused(
        matching(Pattern::Wildcard(at(2)), None),
        LowerError::DestructurePattern(at(2)),
        "lowering not yet implemented for this pattern shape as a destructure at Span { start: 2, end: 3 }",
    );
}

#[test]
fn structs_and_fields_that_do_not_fit() {
    refused(
        literal("Line", vec![]),
        LowerError::UnknownStruct { name: "Line".to_string(), span: at(7) },
        "unknown struct type \"Line\" at Span { start: 7, end: 8 } (no declaration found in this lowering context)",
    );
    refused(
        literal("Point", vec![init("x", num(1)), init("x", num(2))]),
        LowerError::DuplicateField { name: "x".to_string(), span: at(5) },
        "field \"x\" specified more than once at Span { start: 5, end: 6 }",
    );
    refused(
        let_in(record("Point", vec![part("x", binder("a"))], false), ident("p")),
        LowerError::MissingPatternField { field: "y".to_string(), tag: "Point".to_string(), span: at(4) },
        "missing field \"y\" for struct \"Point\" pattern at Span { start: 4, end: 5 } (add `..` to ignore it)",
    );
    refused(
        literal("Point", vec![init("x", num(1))]),
        LowerError::MissingField { field: "y".to_string(), tag: "Point".to_string(), span: at(7) },
        "missing field \"y\" for struct \"Point\" at Span { start: 7, end: 8 }",
    );
    refused(
        literal("Point", vec![init("x", num(1)), init("y", num(2)), init("z", num(3))]),
        LowerError::NoSuchField { tag: "Point".to_string(), field: "z".to_string(), span: at(5) },
        "struct \"Point\" has no field named \"z\" (at Span { start: 5, end: 6 })",
    );
    refused(
        Expr::Field { base: Box::new(ident("p")), name: "x".to_string(), span: at(2) },
        LowerError::UnresolvedField(at(2)),
        "lowering not yet implemented for field access without a resolved owner (internal: type inference must run before lowering to populate `LoweringContext::field_owners`) at Span { start: 2, end: 3 }",
    );
}

#[test]
fn variants_with_the_wrong_number_of_values() {
    refused(
        Expr::Call { callee: Box::new(ident("Circle")), args: vec![num(1), num(2)], span: at(2) },
        LowerError::VariantArity { tag: "Circle".to_string(), expected: 1, found: 2, span: at(2) },
        "variant \"Circle\" expects 1 field(s), found 2 at Span { start: 2, end: 3 }",
    );
}

#[test]
fn expressions_of_other_forms() {
    refused(
        Expr::Other(at(2)),
        LowerError::UnsupportedExpr(at(2)),
        "lowering not yet implemented for this expression form at Span { start: 2, end: 3 }",
    );
}

#[test]
fn a_pipe_appends_the_last_argument() {
    let pipe = Expr::Binary {
        op: BinaryOp::Pipe,
        lhs: Box::new(ident("x")),
        rhs: Box::new(Expr::Call { callee: Box::new(ident("f")), args: vec![num(1)], span: at(0) }),
        span: at(0),
    };
    let expected = ir::Expr::Call {
        callee: Box::new(ir::Expr::Var("f".to_string())),
        args: vec![ir::Expr::Int(1), ir::Expr::Var("x".to_string())],
    };
    assert_eq!(lower_expr(&pipe, &context()), Ok(expected));
}

#[test]
fn fields_stand_in_declared_order() {
    let built = ir::Expr::Ctor { tag: "Point".to_string(), fields: vec![ir::Expr::Int(1), ir::Expr::Int(2)] };
    let a = literal("Point", vec![init("x", num(1)), init("y", num(2))]);
    let b = literal("Point", vec![init("y", num(2)), init("x", num(1))]);
    assert_eq!(lower_expr(&a, &context()), Ok(built.clone()));
    assert_eq!(lower_expr(&b, &context()), Ok(built));
}

#[test]
fn a_field_is_read_by_its_place() {
    let ctx = context().with_field_owners(vec![(at(2), "Point".to_string())]);
    let access = Expr::Field { base: Box::new(ident("p")), name: "y".to_string(), span: at(2) };
    let Ok(ir::Expr::Match { arms, .. }) = lower_expr(&access, &ctx) else {
        panic!("expected a match");
    };
    assert_eq!(arms.len(), 1);
    assert_eq!(arms[0].tag, "Point");
    assert_eq!(arms[0].bindings.len(), 2);
    assert_eq!(arms[0].body, ir::Expr::Var(arms[0].bindings[1].clone()));
}

#[test]
fn a_function_without_parameters_is_a_global() {
    let program = ast::Program {
        items: vec![
            Item::Let(LetDef { name: "a".to_string(), params: vec![], body: num(1) }),
            Item::Let(LetDef {
                name: "f".to_string(),
                params: vec![Param { kind: ParamKind::Ident("x".to_string()), span: at(0) }],
                body: ident("x"),
            }),
            Item::Other,
        ],
    };
    let lowered = lower_program(&program, &context()).unwrap();
    assert_eq!(lowered.globals, vec![ir::Global { name: "a".to_string(), value: ir::Expr::Int(1) }]);
    assert_eq!(lowered.functions.len(), 1);
    assert_eq!(lowered.functions[0].params, vec!["x".to_string()]);
}
