//! What goes wrong, and how it is reported.

use plum::interp::{EvalError, Heap, HeapError, Interpreter, Outcome, Reply, Request, Value};
use plum::interp::{ReceiverHandle, SenderHandle};
use plum::ir::{BinOp, Expr, Function, Global, MatchArm, Op, Program, RcOp, SelectArm, UnOp};

fn num(n: i64) -> Box<Expr> {
    Box::new(Expr::Int(n))
}

fn text(s: &str) -> Box<Expr> {
    Box::new(Expr::Str(s.to_string()))
}

fn name(x: &str) -> Box<Expr> {
    Box::new(Expr::Var(x.to_string()))
}

fn array(items: Vec<Expr>) -> Box<Expr> {
    Box::new(Expr::Ctor { tag: "__array".to_string(), fields: items })
}

fn bind(x: &str, value: Box<Expr>, body: Box<Expr>) -> Expr {
    Expr::Let { name: x.to_string(), value, body }
}

fn lambda(params: &[&str], body: Box<Expr>) -> Box<Expr> {
    Box::new(Expr::Closure {
        params: params.iter().map(|p| p.to_string()).collect(),
        param_types: None,
        ret_type: None,
        body,
    })
}

fn arm(tag: &str, bindings: &[&str], guard: Option<Box<Expr>>, body: Expr) -> MatchArm {
    MatchArm { tag: tag.to_string(), bindings: bindings.iter().map(|b| b.to_string()).collect(), guard, body }
}

/// How the host shows a value that only it can show.
fn shown(v: &Value) -> String {
    match v {
        Value::Float(bits) => format!("Float({:?})", f64::from_bits(*bits)),
        other => format!("{other:?}"),
    }
}

fn text_of(e: &EvalError) -> String {
    let by_host: Vec<String> = e.shown_by_host().iter().map(shown).collect();
    e.message(&by_host)
}

fn failure(expr: Expr) -> (EvalError, String) {
    let mut interp = Interpreter::new();
    match interp.eval(&expr) {
        Outcome::Failed(e) => {
            let m = text_of(&e);
            (e, m)
        }
        other => panic!("expected a failure, got {other:?}"),
    }
}

fn fails(expr: Expr, error: EvalError, message: &str) {
    let (e, m) = failure(expr);
    assert_eq!(e, error);
    assert_eq!(m, message);
}

#[test]
fn names_that_are_not_there() {
    fails(*name("x"), EvalError::UnboundVariable("x".to_string()), "unbound variable: x");
    fails(
        Expr::Assign { name: "x".to_string(), value: num(1), rest: Box::new(Expr::Unit) },
        EvalError::UndefinedAssign("x".to_string()),
        "assignment to undefined variable: x",
    );
    let mut interp = Interpreter::new();
    let outcome = interp.call("f", vec![]);
    assert_eq!(outcome, Outcome::Failed(EvalError::UnknownFunction("f".to_string())));
    assert_eq!(text_of(&EvalError::UnknownFunction("f".to_string())), "unknown function: f");
}

#[test]
fn calls_with_the_wrong_number_of_arguments() {
    let program = Program {
        functions: vec![Function { name: "f".to_string(), params: vec!["a".to_string(), "b".to_string()], body: Expr::Unit }],
        globals: vec![],
        externs: vec![],
    };
    let mut interp = Interpreter::new();
    assert_eq!(interp.load_program(&program), Outcome::Done(Value::Unit));
    let error = EvalError::FunctionArity { name: "f".to_string(), expected: 2, found: 1 };
    assert_eq!(text_of(&error), "f expects 2 argument(s), found 1");
    assert_eq!(interp.call("f", vec![Value::Unit]), Outcome::Failed(error));
    fails(
        Expr::Call { callee: lambda(&["a"], num(1)), args: vec![] },
        EvalError::ClosureArity { expected: 1, found: 0 },
        "closure expects 1 argument(s), found 0",
    );
}

#[test]
fn calls_of_what_cannot_be_called() {
    fails(
        Expr::Call { callee: num(3), args: vec![] },
        EvalError::NotCallable(Value::Int(3)),
        "cannot call Int(3) — not a function or closure",
    );
    // A closure's number means nothing in another interpreter.
    let mut interp = Interpreter::new();
    interp.env.push(("g".to_string(), Value::Closure(7)));
    let outcome = interp.eval(&Expr::Call { callee: name("g"), args: vec![] });
    assert_eq!(outcome, Outcome::Failed(EvalError::InvalidClosure(7)));
    assert_eq!(text_of(&EvalError::InvalidClosure(7)), "invalid closure reference: 7");
}

#[test]
fn conditions_that_are_not_boolean() {
    fails(
        Expr::Binary(BinOp::And, num(1), Box::new(Expr::Bool(true))),
        EvalError::AndOperand(Value::Int(1)),
        "`&&` requires Bool operands, found Int(1)",
    );
    fails(
        Expr::Binary(BinOp::And, Box::new(Expr::Bool(true)), num(1)),
        EvalError::AndOperand(Value::Int(1)),
        "`&&` requires Bool operands, found Int(1)",
    );
    fails(
        Expr::Binary(BinOp::Or, Box::new(Expr::Unit), Box::new(Expr::Bool(true))),
        EvalError::OrOperand(Value::Unit),
        "`||` requires Bool operands, found Unit",
    );
    fails(
        Expr::If { cond: num(0), then_branch: num(1), else_branch: num(2) },
        EvalError::Condition(Value::Int(0)),
        "`if` condition must be Bool, found Int(0)",
    );
}

#[test]
fn loops_over_what_is_no_range() {
    let unit = || Box::new(Expr::Unit);
    fails(
        Expr::For { var: "i".to_string(), start: unit(), end: num(1), body: unit() },
        EvalError::LoopStart,
        "`for` loop range start must be Int",
    );
    fails(
        Expr::For { var: "i".to_string(), start: num(0), end: unit(), body: unit() },
        EvalError::LoopEnd,
        "`for` loop range end must be Int",
    );
}

#[test]
fn operands_of_the_wrong_kind() {
    fails(
        Expr::Index { base: num(1), index: num(0) },
        EvalError::Operand { op: Op::Index, place: 0 },
        "indexing requires an Array or String value",
    );
    fails(
        Expr::Index { base: array(vec![]), index: Box::new(Expr::Unit) },
        EvalError::Operand { op: Op::Index, place: 1 },
        "index must be an Int",
    );
    fails(
        Expr::ArrayLen { array: num(1) },
        EvalError::Operand { op: Op::ArrayLen, place: 0 },
        "`.len()` requires an Array or String value",
    );
    fails(
        Expr::StrConcat { base: text("a"), other: num(1) },
        EvalError::Operand { op: Op::StrConcat, place: 1 },
        "`.concat()` argument must be a String value",
    );
    fails(
        Expr::TaskJoin { task: num(1) },
        EvalError::Operand { op: Op::TaskJoin, place: 0 },
        "`.join()` requires a Task value",
    );
    fails(
        Expr::ChannelRecv { receiver: num(1) },
        EvalError::Operand { op: Op::ChannelRecv, place: 0 },
        "`.recv()` requires a Receiver value",
    );
    fails(
        Expr::RefGet { base: num(1) },
        EvalError::Operand { op: Op::RefGet, place: 0 },
        "`.get()` requires a Ref value",
    );
    fails(
        Expr::Select { arms: vec![SelectArm { receiver: *num(1), body: Expr::Unit }] },
        EvalError::SelectOperand,
        "`select` arm requires a Receiver value",
    );
}

#[test]
fn building_in_what_is_no_cell() {
    fails(
        bind("x", num(1), Box::new(Expr::CtorReuse { reuse_of: "x".to_string(), tag: "A".to_string(), fields: vec![] })),
        EvalError::ReuseTarget("x".to_string()),
        "reuse target \"x\" is not a heap value",
    );
}

#[test]
fn places_out_of_bounds() {
    fails(
        Expr::Index { base: array(vec![*num(1)]), index: num(1) },
        EvalError::ArrayIndex { index: 1, len: 1 },
        "array index out of bounds: 1 (len 1)",
    );
    fails(
        Expr::Index { base: text("ab"), index: num(-1) },
        EvalError::StringIndex { index: -1, len: 2 },
        "string index out of bounds: -1 (len 2)",
    );
    fails(Expr::ArrayPop { array: array(vec![]) }, EvalError::EmptyPop, "cannot pop from an empty array");
}

#[test]
fn values_without_a_printed_form() {
    fails(
        Expr::ToString { base: Box::new(Expr::Unit) },
        EvalError::NoText(Value::Unit),
        "`.to_string()` is not yet supported for Unit (only Int/Float/Bool/Str)",
    );
}

#[test]
fn matches_that_fail() {
    let a = || Box::new(Expr::Ctor { tag: "A".to_string(), fields: vec![*num(1)] });
    fails(
        Expr::Match { scrutinee: num(1), arms: vec![] },
        EvalError::Scrutinee,
        "match scrutinee must be a heap value",
    );
    fails(
        Expr::Match { scrutinee: a(), arms: vec![arm("A", &[], None, Expr::Unit)] },
        EvalError::ArmArity { tag: "A".to_string(), expected: 0, found: 1 },
        "arm for \"A\" expects 0 field(s), found 1",
    );
    fails(
        Expr::Match { scrutinee: a(), arms: vec![arm("A", &["x"], Some(num(1)), Expr::Unit)] },
        EvalError::Guard(Value::Int(1)),
        "match guard must evaluate to a Bool, found Int(1)",
    );
    fails(
        Expr::Match { scrutinee: a(), arms: vec![arm("B", &[], None, Expr::Unit)] },
        EvalError::NoArm("A".to_string()),
        "no match arm for tag \"A\"",
    );
}

#[test]
fn operators_on_the_wrong_values() {
    fails(
        Expr::Unary(UnOp::Not, num(1)),
        EvalError::UnaryType { op: UnOp::Not, value: Value::Int(1) },
        "type error: cannot apply Not to Int(1)",
    );
    fails(
        Expr::Binary(BinOp::Add, num(1), Box::new(Expr::Bool(true))),
        EvalError::ArithType { op: BinOp::Add, lhs: Value::Int(1), rhs: Value::Bool(true) },
        "type error: no implicit numeric coercion, cannot apply Add to Int(1) and Bool(true)",
    );
    fails(
        Expr::Binary(BinOp::Lt, num(1), Box::new(Expr::Unit)),
        EvalError::OrderType { lhs: Value::Int(1), rhs: Value::Unit },
        "type error: cannot order-compare Int(1) and Unit",
    );
    fails(
        Expr::Binary(BinOp::Eq, num(1), Box::new(Expr::Unit)),
        EvalError::EqualityType { lhs: Value::Int(1), rhs: Value::Unit },
        "type error: cannot compare Int(1) and Unit for equality",
    );
}

#[test]
fn arithmetic_that_does_not_fit() {
    fails(Expr::Binary(BinOp::Div, num(1), num(0)), EvalError::DivisionByZero, "division by zero");
    fails(Expr::Binary(BinOp::Rem, num(1), num(0)), EvalError::DivisionByZero, "division by zero");
    fails(Expr::Binary(BinOp::Add, num(i64::MAX), num(1)), EvalError::Overflow, "integer overflow");
    fails(Expr::Binary(BinOp::Div, num(i64::MIN), num(-1)), EvalError::Overflow, "integer overflow");
    fails(Expr::Unary(UnOp::Neg, num(i64::MIN)), EvalError::NegOverflow, "integer overflow negating i64::MIN");
}

// What comes back when the host answers the only request of an expression.
fn answered(expr: Expr, reply: Reply) -> Outcome {
    let mut interp = Interpreter::new();
    assert_eq!(interp.eval(&expr), Outcome::Waiting);
    assert!(interp.request().is_some());
    interp.resume(reply);
    interp.run(u64::MAX);
    interp.outcome()
}

fn float(x: f64) -> Box<Expr> {
    Box::new(Expr::Float(x.to_bits()))
}

#[test]
fn the_host_computes_with_floats() {
    let sum = || Expr::Binary(BinOp::Add, float(1.5), float(2.0));
    assert_eq!(answered(sum(), Reply::Float(3.5f64.to_bits())), Outcome::Done(Value::Float(3.5f64.to_bits())));
    let less = || Expr::Binary(BinOp::Lt, float(1.5), float(2.0));
    assert_eq!(answered(less(), Reply::Bool(true)), Outcome::Done(Value::Bool(true)));
    assert_eq!(answered(less(), Reply::NoOrdering), Outcome::Failed(EvalError::NoOrdering));
    assert_eq!(text_of(&EvalError::NoOrdering), "comparison produced no ordering (NaN?)");
}

#[test]
fn an_answer_has_to_fit_the_question() {
    let sum = Expr::Binary(BinOp::Add, float(1.5), float(2.0));
    assert_eq!(answered(sum, Reply::Slept), Outcome::Failed(EvalError::UnexpectedEvent));
    assert_eq!(text_of(&EvalError::UnexpectedEvent), "the answer does not fit what was asked");
}

#[test]
fn an_answer_that_nobody_asked_for_changes_nothing() {
    let mut interp = Interpreter::new();
    assert_eq!(interp.eval(&Expr::Int(1)), Outcome::Done(Value::Int(1)));
    interp.resume(Reply::Slept);
    interp.run(u64::MAX);
    assert_eq!(interp.outcome(), Outcome::Done(Value::Int(1)));
}

// Evaluates an expression in which `tx` and `rx` are the ends of a channel.
fn with_channel(expr: Expr, reply: Reply) -> Outcome {
    let mut interp = Interpreter::new();
    interp.env.push(("tx".to_string(), Value::Sender(SenderHandle { id: 0 })));
    interp.env.push(("rx".to_string(), Value::Receiver(ReceiverHandle { id: 0 })));
    assert_eq!(interp.eval(&expr), Outcome::Waiting);
    interp.resume(reply);
    interp.run(u64::MAX);
    interp.outcome()
}

#[test]
fn channels_that_have_lost_an_end() {
    let send = Expr::ChannelSend { sender: name("tx"), value: num(1) };
    assert_eq!(with_channel(send, Reply::ReceiverDropped), Outcome::Failed(EvalError::ReceiverDropped));
    let recv = || Expr::ChannelRecv { receiver: name("rx") };
    assert_eq!(with_channel(recv(), Reply::Disconnected), Outcome::Failed(EvalError::SenderDropped));
    assert_eq!(with_channel(recv(), Reply::Poisoned), Outcome::Failed(EvalError::LockPoisoned));
    assert_eq!(text_of(&EvalError::ReceiverDropped), "cannot send: the channel's receiver has been dropped");
    assert_eq!(text_of(&EvalError::SenderDropped), "cannot recv: the channel's sender has been dropped");
    assert_eq!(text_of(&EvalError::LockPoisoned), "channel receiver lock poisoned");
}

#[test]
fn a_select_ends_when_every_channel_is_closed() {
    let select = Expr::Select { arms: vec![SelectArm { receiver: *name("rx"), body: *num(1) }] };
    assert_eq!(with_channel(select, Reply::Disconnected), Outcome::Failed(EvalError::SelectClosed));
    assert_eq!(
        text_of(&EvalError::SelectClosed),
        "select: every channel is disconnected with nothing received"
    );
}

#[test]
fn an_empty_select_fails_at_once() {
    fails(
        Expr::Select { arms: vec![] },
        EvalError::SelectClosed,
        "select: every channel is disconnected with nothing received",
    );
}

#[test]
fn a_select_sleeps_while_nothing_is_there() {
    let mut interp = Interpreter::new();
    interp.env.push(("rx".to_string(), Value::Receiver(ReceiverHandle { id: 4 })));
    let select = Expr::Select { arms: vec![SelectArm { receiver: *name("rx"), body: *name("__select_recv") }] };
    assert_eq!(interp.eval(&select), Outcome::Waiting);
    assert!(matches!(interp.request(), Some(Request::TryRecv { from }) if from.id == 4));
    interp.resume(Reply::Empty);
    interp.run(u64::MAX);
    assert!(matches!(interp.request(), Some(Request::Sleep)));
    interp.resume(Reply::Slept);
    interp.run(u64::MAX);
    assert!(matches!(interp.request(), Some(Request::TryRecv { .. })));
    interp.resume(Reply::Received(plum::interp::PortableValue::Int(9)));
    interp.run(u64::MAX);
    assert_eq!(interp.outcome(), Outcome::Done(Value::Int(9)));
}

fn sending(value: Box<Expr>) -> (EvalError, String) {
    let mut interp = Interpreter::new();
    interp.env.push(("tx".to_string(), Value::Sender(SenderHandle { id: 0 })));
    match interp.eval(&Expr::ChannelSend { sender: name("tx"), value }) {
        Outcome::Failed(e) => {
            let m = text_of(&e);
            (e, m)
        }
        other => panic!("expected a failure, got {other:?}"),
    }
}

#[test]
fn values_that_cannot_cross() {
    let (e, m) = sending(lambda(&[], num(1)));
    assert_eq!(e, EvalError::ClosureBoundary);
    assert_eq!(m, "cannot send a closure across a task boundary (not yet supported)");
    let (e, m) = sending(Box::new(Expr::RefNew { value: num(1) }));
    assert_eq!(e, EvalError::RefBoundary);
    assert_eq!(m, "cannot send a Ref across a task boundary (not yet supported)");
    let mut interp = Interpreter::new();
    interp.env.push(("tx".to_string(), Value::Sender(SenderHandle { id: 0 })));
    interp.functions.push(Function { name: "f".to_string(), params: vec![], body: Expr::Unit });
    let outcome = interp.eval(&Expr::ChannelSend { sender: name("tx"), value: name("f") });
    assert_eq!(outcome, Outcome::Failed(EvalError::FunctionBoundary("f".to_string())));
    assert_eq!(
        text_of(&EvalError::FunctionBoundary("f".to_string())),
        "cannot send function \"f\" across a task boundary (not yet supported)"
    );
    assert_eq!(
        text_of(&EvalError::TaskBoundary),
        "cannot send a task handle across a task boundary (not yet supported)"
    );
}

#[test]
fn a_task_handle_cannot_cross_and_a_task_is_joined_once() {
    let spawn = || Box::new(Expr::Spawn { block: num(1) });
    let mut interp = Interpreter::new();
    interp.env.push(("tx".to_string(), Value::Sender(SenderHandle { id: 0 })));
    let send = Expr::ChannelSend { sender: name("tx"), value: spawn() };
    assert_eq!(interp.eval(&send), Outcome::Waiting);
    assert!(matches!(interp.request(), Some(Request::Spawn { .. })));
    interp.resume(Reply::Spawned);
    interp.run(u64::MAX);
    assert_eq!(interp.outcome(), Outcome::Failed(EvalError::TaskBoundary));

    let join = || Box::new(Expr::TaskJoin { task: name("t") });
    let twice = bind("t", spawn(), Box::new(bind("a", join(), join())));
    let mut interp = Interpreter::new();
    assert_eq!(interp.eval(&twice), Outcome::Waiting);
    interp.resume(Reply::Spawned);
    interp.run(u64::MAX);
    interp.resume(Reply::Joined(plum::interp::PortableValue::Int(1)));
    interp.run(u64::MAX);
    assert_eq!(interp.outcome(), Outcome::Failed(EvalError::AlreadyJoined));
    assert_eq!(text_of(&EvalError::AlreadyJoined), "task already joined");
}

#[test]
fn tasks_that_fail() {
    let run = |reply: Reply| {
        let join = Expr::TaskJoin { task: Box::new(Expr::Spawn { block: num(1) }) };
        let mut interp = Interpreter::new();
        assert_eq!(interp.eval(&join), Outcome::Waiting);
        interp.resume(Reply::Spawned);
        interp.run(u64::MAX);
        assert!(matches!(interp.request(), Some(Request::Join { id: 0 })));
        interp.resume(reply);
        interp.run(u64::MAX);
        interp.outcome()
    };
    let failed = EvalError::TaskFailed("division by zero".to_string());
    assert_eq!(text_of(&failed), "spawned task failed: division by zero");
    assert_eq!(run(Reply::TaskFailed("division by zero".to_string())), Outcome::Failed(failed));
    assert_eq!(run(Reply::TaskPanicked), Outcome::Failed(EvalError::TaskPanicked));
    assert_eq!(text_of(&EvalError::TaskPanicked), "spawned task panicked");
}

#[test]
fn operators_that_need_more_than_an_interpreter() {
    let (e, m) = failure(Expr::ReadFileRaw { path: text("a") });
    assert_eq!(e, EvalError::Unsupported(Op::ReadFileRaw));
    assert_eq!(m, "the interpreter does not run this operator");
}

#[test]
fn reference_counts_are_of_heap_values() {
    let interp = Interpreter::new();
    assert_eq!(interp.refcount(&Value::Int(1)), Err(EvalError::NotHeapValue(Value::Int(1))));
    assert_eq!(text_of(&EvalError::NotHeapValue(Value::Int(1))), "Int(1) is not a heap value");
    assert_eq!(
        interp.refcount(&Value::HeapRef(0)),
        Err(EvalError::Heap(HeapError::InvalidAddress(0)))
    );
}

#[test]
fn heap_errors_name_the_address() {
    let mut heap = Heap::new();
    let a = heap.alloc_ctor("A".to_string(), vec![]);
    let s = heap.alloc_str("s".to_string());
    assert_eq!(heap.read_str(a), Err(HeapError::NotAString(0)));
    assert_eq!(heap.read(s), Err(HeapError::NotACtor(1)));
    assert_eq!(heap.dec(a), Ok(()));
    assert_eq!(heap.dec(a), Err(HeapError::UseAfterFree(0)));
    assert_eq!(heap.inc(7), Err(HeapError::InvalidAddress(7)));
    assert_eq!(HeapError::UseAfterFree(0).message(), "use after free at heap address 0");
    assert_eq!(HeapError::InvalidAddress(7).message(), "invalid heap address 7");
    assert_eq!(
        HeapError::NotACtor(1).message(),
        "expected a constructor value, found a string at heap address 1"
    );
    assert_eq!(
        HeapError::NotAString(0).message(),
        "expected a string value, found a constructor at heap address 0"
    );
}

#[test]
fn a_released_cell_is_not_read_again() {
    let expr = bind(
        "x",
        text("a"),
        Box::new(Expr::RcAnnotated {
            op: RcOp::Dec,
            target: "x".to_string(),
            rest: Box::new(Expr::ArrayLen { array: name("x") }),
        }),
    );
    let (e, m) = failure(expr);
    assert_eq!(e, EvalError::Heap(HeapError::UseAfterFree(0)));
    assert_eq!(m, "use after free at heap address 0");
}

#[test]
fn a_failing_global_stops_the_loading() {
    let program = Program {
        functions: vec![],
        globals: vec![
            Global { name: "a".to_string(), value: *num(1) },
            Global { name: "b".to_string(), value: Expr::Binary(BinOp::Div, name("a"), num(0)) },
            Global { name: "c".to_string(), value: *num(3) },
        ],
        externs: vec![],
    };
    let mut interp = Interpreter::new();
    assert_eq!(interp.load_program(&program), Outcome::Failed(EvalError::DivisionByZero));
    assert_eq!(interp.eval(&name("a")), Outcome::Done(Value::Int(1)));
    assert_eq!(interp.eval(&name("c")), Outcome::Failed(EvalError::UnboundVariable("c".to_string())));
}

#[test]
fn floats_are_shown_by_the_host() {
    let one = || Box::new(Expr::Float(f64::to_bits(1.0)));
    fails(
        Expr::Binary(BinOp::Add, one(), num(2)),
        EvalError::ArithType { op: BinOp::Add, lhs: Value::Float(f64::to_bits(1.0)), rhs: Value::Int(2) },
        "type error: no implicit numeric coercion, cannot apply Add to Float(1.0) and Int(2)",
    );
    fails(
        Expr::Binary(BinOp::Lt, num(2), one()),
        EvalError::OrderType { lhs: Value::Int(2), rhs: Value::Float(f64::to_bits(1.0)) },
        "type error: cannot order-compare Int(2) and Float(1.0)",
    );
    fails(
        Expr::Unary(UnOp::Not, Box::new(Expr::Float(f64::to_bits(-0.5)))),
        EvalError::UnaryType { op: UnOp::Not, value: Value::Float(f64::to_bits(-0.5)) },
        "type error: cannot apply Not to Float(-0.5)",
    );
    let e = EvalError::EqualityType {
        lhs: Value::Float(f64::to_bits(1e300)),
        rhs: Value::Sender(SenderHandle { id: 3 }),
    };
    assert_eq!(e.shown_by_host().len(), 2);
    assert_eq!(
        e.message(&vec!["Float(1e300)".to_string(), "Sender(..)".to_string()]),
        "type error: cannot compare Float(1e300) and Sender(..) for equality"
    );
}

#[test]
fn names_are_quoted_in_errors() {
    assert_eq!(text_of(&EvalError::NoArm("A".to_string())), "no match arm for tag \"A\"");
    assert_eq!(text_of(&EvalError::NoArm("a\"\n".to_string())), "no match arm for tag \"a\\\"\\n\"");
    assert_eq!(
        text_of(&EvalError::NotHeapValue(Value::Function("f".to_string()))),
        "Function(\"f\") is not a heap value"
    );
}
