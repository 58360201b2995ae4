//! Why an evaluation failed.

use vstd::prelude::*;
use crate::ir::{names_of, BinOp, Name, Op, UnOp};
use crate::names::{decimal, decimal_text, signed_decimal, signed_decimal_text};
use super::heap::HeapError;
use super::text::{quote, quoted};
use super::value::{vals, Val, Value};

verus! {

#[allow(inconsistent_fields)]
#[derive(Debug, PartialEq)]
pub enum EvalError {
    /// A heap operation failed.
    Heap(HeapError),
    /// No binding, global or function has the name.
    UnboundVariable(String),
    /// An assignment to a name that is not bound.
    UndefinedAssign(String),
    /// A call of a function that is not there.
    UnknownFunction(String),
    /// A call of a function with the wrong number of arguments.
    FunctionArity { name: String, expected: usize, found: usize },
    /// A call of a closure with the wrong number of arguments.
    ClosureArity { expected: usize, found: usize },
    /// A call of a closure that is not there.
    InvalidClosure(usize),
    /// A call of something that is not a function or closure.
    NotCallable(Value),
    /// An operand of `&&` is not a boolean.
    AndOperand(Value),
    /// An operand of `||` is not a boolean.
    OrOperand(Value),
    /// The condition of an `if` is not a boolean.
    Condition(Value),
    /// The start of a loop is not an integer.
    LoopStart,
    /// The end of a loop is not an integer.
    LoopEnd,
    /// An operand is not of the kind that the operator takes.
    Operand { op: Op, place: usize },
    /// A select waits on something that is not a receiver.
    SelectOperand,
    /// The cell to build in is not a heap value.
    ReuseTarget(String),
    /// An array index is out of bounds.
    ArrayIndex { index: i64, len: usize },
    /// A string index is out of bounds.
    StringIndex { index: i64, len: usize },
    /// An empty array has no last element.
    EmptyPop,
    /// The value has no printed form.
    NoText(Value),
    /// The scrutinee of a match is not a heap value.
    Scrutinee,
    /// An arm binds a different number of fields than the cell has.
    ArmArity { tag: String, expected: usize, found: usize },
    /// A guard is not a boolean.
    Guard(Value),
    /// No arm matches.
    NoArm(String),
    /// A unary operator does not apply to the value.
    UnaryType { op: UnOp, value: Value },
    /// An arithmetic operator does not apply to the values.
    ArithType { op: BinOp, lhs: Value, rhs: Value },
    /// The values have no order.
    OrderType { lhs: Value, rhs: Value },
    /// The values cannot be compared.
    EqualityType { lhs: Value, rhs: Value },
    /// A division by zero.
    DivisionByZero,
    /// A result does not fit.
    Overflow,
    /// The negation does not fit.
    NegOverflow,
    /// A comparison with a value that is not a number.
    NoOrdering,
    /// A closure cannot cross to another heap.
    ClosureBoundary,
    /// A function value cannot cross to another heap.
    FunctionBoundary(String),
    /// A task handle cannot cross to another heap.
    TaskBoundary,
    /// A reference cell cannot cross to another heap.
    RefBoundary,
    /// A value that contains itself cannot cross to another heap.
    CyclicBoundary,
    /// A task can be joined once.
    AlreadyJoined,
    /// The joined task failed.
    TaskFailed(String),
    /// The joined task stopped without a result.
    TaskPanicked,
    /// There is no one to receive.
    ReceiverDropped,
    /// There is no one to send.
    SenderDropped,
    /// The receiving end is unusable.
    LockPoisoned,
    /// There is no one to send on any channel.
    SelectClosed,
    /// The value is not on the heap.
    NotHeapValue(Value),
    /// A cell has as many references as can be counted.
    CountOverflow(usize),
    /// The interpreter does not run this operator.
    Unsupported(Op),
    /// The answer does not fit what was asked.
    UnexpectedEvent,
}

/// The model of an error.
#[allow(inconsistent_fields)]
pub enum Fault {
    Heap(HeapError),
    UnboundVariable(Name),
    UndefinedAssign(Name),
    UnknownFunction(Name),
    FunctionArity { name: Name, expected: usize, found: usize },
    ClosureArity { expected: usize, found: usize },
    InvalidClosure(usize),
    NotCallable(Val),
    AndOperand(Val),
    OrOperand(Val),
    Condition(Val),
    LoopStart,
    LoopEnd,
    Operand { op: Op, place: usize },
    SelectOperand,
    ReuseTarget(Name),
    ArrayIndex { index: i64, len: usize },
    StringIndex { index: i64, len: usize },
    EmptyPop,
    NoText(Val),
    Scrutinee,
    ArmArity { tag: Name, expected: usize, found: usize },
    Guard(Val),
    NoArm(Name),
    UnaryType { op: UnOp, value: Val },
    ArithType { op: BinOp, lhs: Val, rhs: Val },
    OrderType { lhs: Val, rhs: Val },
    EqualityType { lhs: Val, rhs: Val },
    DivisionByZero,
    Overflow,
    NegOverflow,
    NoOrdering,
    ClosureBoundary,
    FunctionBoundary(Name),
    TaskBoundary,
    RefBoundary,
    CyclicBoundary,
    AlreadyJoined,
    TaskFailed(Name),
    TaskPanicked,
    ReceiverDropped,
    SenderDropped,
    LockPoisoned,
    SelectClosed,
    NotHeapValue(Val),
    CountOverflow(usize),
    Unsupported(Op),
    UnexpectedEvent,
}

impl EvalError {
    pub open spec fn view(self) -> Fault {
        match self {
            EvalError::Heap(x) => Fault::Heap(x),
            EvalError::UnboundVariable(x) => Fault::UnboundVariable(x@),
            EvalError::UndefinedAssign(x) => Fault::UndefinedAssign(x@),
            EvalError::UnknownFunction(x) => Fault::UnknownFunction(x@),
            EvalError::FunctionArity { name, expected, found } => Fault::FunctionArity { name: name@, expected, found },
            EvalError::ClosureArity { expected, found } => Fault::ClosureArity { expected, found },
            EvalError::InvalidClosure(x) => Fault::InvalidClosure(x),
            EvalError::NotCallable(x) => Fault::NotCallable(x@),
            EvalError::AndOperand(x) => Fault::AndOperand(x@),
            EvalError::OrOperand(x) => Fault::OrOperand(x@),
            EvalError::Condition(x) => Fault::Condition(x@),
            EvalError::LoopStart => Fault::LoopStart,
            EvalError::LoopEnd => Fault::LoopEnd,
            EvalError::Operand { op, place } => Fault::Operand { op, place },
            EvalError::SelectOperand => Fault::SelectOperand,
            EvalError::ReuseTarget(x) => Fault::ReuseTarget(x@),
            EvalError::ArrayIndex { index, len } => Fault::ArrayIndex { index, len },
            EvalError::StringIndex { index, len } => Fault::StringIndex { index, len },
            EvalError::EmptyPop => Fault::EmptyPop,
            EvalError::NoText(x) => Fault::NoText(x@),
            EvalError::Scrutinee => Fault::Scrutinee,
            EvalError::ArmArity { tag, expected, found } => Fault::ArmArity { tag: tag@, expected, found },
            EvalError::Guard(x) => Fault::Guard(x@),
            EvalError::NoArm(x) => Fault::NoArm(x@),
            EvalError::UnaryType { op, value } => Fault::UnaryType { op, value: value@ },
            EvalError::ArithType { op, lhs, rhs } => Fault::ArithType { op, lhs: lhs@, rhs: rhs@ },
            EvalError::OrderType { lhs, rhs } => Fault::OrderType { lhs: lhs@, rhs: rhs@ },
            EvalError::EqualityType { lhs, rhs } => Fault::EqualityType { lhs: lhs@, rhs: rhs@ },
            EvalError::DivisionByZero => Fault::DivisionByZero,
            EvalError::Overflow => Fault::Overflow,
            EvalError::NegOverflow => Fault::NegOverflow,
            EvalError::NoOrdering => Fault::NoOrdering,
            EvalError::ClosureBoundary => Fault::ClosureBoundary,
            EvalError::FunctionBoundary(x) => Fault::FunctionBoundary(x@),
            EvalError::TaskBoundary => Fault::TaskBoundary,
            EvalError::RefBoundary => Fault::RefBoundary,
            EvalError::CyclicBoundary => Fault::CyclicBoundary,
            EvalError::AlreadyJoined => Fault::AlreadyJoined,
            EvalError::TaskFailed(x) => Fault::TaskFailed(x@),
            EvalError::TaskPanicked => Fault::TaskPanicked,
            EvalError::ReceiverDropped => Fault::ReceiverDropped,
            EvalError::SenderDropped => Fault::SenderDropped,
            EvalError::LockPoisoned => Fault::LockPoisoned,
            EvalError::SelectClosed => Fault::SelectClosed,
            EvalError::NotHeapValue(x) => Fault::NotHeapValue(x@),
            EvalError::CountOverflow(x) => Fault::CountOverflow(x),
            EvalError::Unsupported(x) => Fault::Unsupported(x),
            EvalError::UnexpectedEvent => Fault::UnexpectedEvent,
        }
    }
}

/// The printed form of a truth value.
pub open spec fn bool_text(b: bool) -> Name {
    if b {
        "true"@
    } else {
        "false"@
    }
}

pub fn bool_string(b: bool) -> (r: String)
    ensures
        r@ == bool_text(b),
{
    if b {
        "true".to_owned()
    } else {
        "false".to_owned()
    }
}

/// Whether only the host can show a value: a float, or a handle to something of the host.
pub open spec fn by_host(v: Val) -> bool {
    match v {
        Val::Float(_) | Val::Task(_) | Val::Sender(_) | Val::Receiver(_) | Val::Ref(_) => true,
        _ => false,
    }
}

/// How a value is shown in an error. `shown` is how the host shows it, where only the host
/// can.
pub open spec fn val_text(v: Val, shown: Name) -> Name {
    match v {
        Val::Int(n) => "Int("@ + signed_decimal(n as int) + ")"@,
        Val::HeapRef(a) => "HeapRef("@ + decimal(a as nat) + ")"@,
        Val::Closure(c) => "Closure("@ + decimal(c as nat) + ")"@,
        Val::Bool(b) => "Bool("@ + bool_text(b) + ")"@,
        Val::Unit => "Unit"@,
        Val::Function(f) => "Function("@ + quoted(f) + ")"@,
        _ => shown,
    }
}

/// A value in a list, if only the host can show it.
pub open spec fn if_by_host(v: Val) -> Seq<Val> {
    if by_host(v) {
        seq![v]
    } else {
        Seq::empty()
    }
}

/// The values in the text of an error that only the host can show, in order.
pub open spec fn host_values(e: Fault) -> Seq<Val> {
    match e {
        Fault::NotCallable(x) | Fault::AndOperand(x) | Fault::OrOperand(x) | Fault::Condition(x)
        | Fault::NoText(x) | Fault::Guard(x) | Fault::NotHeapValue(x) => if_by_host(x),
        Fault::UnaryType { value, .. } => if_by_host(value),
        Fault::ArithType { lhs, rhs, .. } | Fault::OrderType { lhs, rhs } | Fault::EqualityType {
            lhs,
            rhs,
        } => if_by_host(lhs) + if_by_host(rhs),
        _ => Seq::empty(),
    }
}

/// How the second of two values is shown, after `lhs`.
pub open spec fn second_text(lhs: Val, rhs: Val, shown: Seq<Name>) -> Name {
    val_text(rhs, shown[if_by_host(lhs).len() as int])
}

fn wrapped(before: &str, inner: &str, after: &str) -> (r: String)
    ensures
        r@ == before@ + inner@ + after@,
{
    let mut r: String = before.to_owned();
    r.append(inner);
    r.append(after);
    r
}

fn is_by_host(v: &Value) -> (r: bool)
    ensures
        r == by_host(v@),
{
    match v {
        Value::Float(_) | Value::Task(_) | Value::Sender(_) | Value::Receiver(_) | Value::Ref(_) => true,
        _ => false,
    }
}

/// The text of a value, where it is the `k`th of those that the host shows if it is one.
fn val_string(v: &Value, shown: &Vec<String>, k: usize) -> (r: String)
    requires
        by_host(v@) ==> k < shown@.len(),
    ensures
        r@ == val_text(v@, names_of(shown@)[k as int]),
{
    match v {
        Value::Int(n) => wrapped("Int(", signed_decimal_text(*n).as_str(), ")"),
        Value::HeapRef(a) => wrapped("HeapRef(", decimal_text(*a as u64).as_str(), ")"),
        Value::Closure(c) => wrapped("Closure(", decimal_text(*c as u64).as_str(), ")"),
        Value::Bool(b) => wrapped("Bool(", bool_string(*b).as_str(), ")"),
        Value::Unit => "Unit".to_owned(),
        Value::Function(f) => wrapped("Function(", quote(f.as_str()).as_str(), ")"),
        _ => {
            assert(names_of(shown@)[k as int] == shown@[k as int]@);
            shown[k].clone()
        },
    }
}

/// The text of the second of two values.
fn second_string(lhs: &Value, rhs: &Value, shown: &Vec<String>) -> (r: String)
    requires
        shown@.len() == (if_by_host(lhs@) + if_by_host(rhs@)).len(),
    ensures
        r@ == second_text(lhs@, rhs@, names_of(shown@)),
{
    let k: usize = if is_by_host(lhs) {
        1
    } else {
        0
    };
    val_string(rhs, shown, k)
}

pub open spec fn unop_text(op: UnOp) -> Name {
    match op {
        UnOp::Neg => "Neg"@,
        UnOp::Not => "Not"@,
    }
}

fn unop_str(op: UnOp) -> (r: &'static str)
    ensures
        r@ == unop_text(op),
{
    match op {
        UnOp::Neg => "Neg",
        UnOp::Not => "Not",
    }
}

pub open spec fn binop_text(op: BinOp) -> Name {
    match op {
        BinOp::Add => "Add"@,
        BinOp::Sub => "Sub"@,
        BinOp::Mul => "Mul"@,
        BinOp::Div => "Div"@,
        BinOp::Rem => "Rem"@,
        BinOp::Eq => "Eq"@,
        BinOp::Ne => "Ne"@,
        BinOp::Lt => "Lt"@,
        BinOp::Gt => "Gt"@,
        BinOp::Le => "Le"@,
        BinOp::Ge => "Ge"@,
        BinOp::And => "And"@,
        BinOp::Or => "Or"@,
    }
}

fn binop_str(op: BinOp) -> (r: &'static str)
    ensures
        r@ == binop_text(op),
{
    match op {
        BinOp::Add => "Add",
        BinOp::Sub => "Sub",
        BinOp::Mul => "Mul",
        BinOp::Div => "Div",
        BinOp::Rem => "Rem",
        BinOp::Eq => "Eq",
        BinOp::Ne => "Ne",
        BinOp::Lt => "Lt",
        BinOp::Gt => "Gt",
        BinOp::Le => "Le",
        BinOp::Ge => "Ge",
        BinOp::And => "And",
        BinOp::Or => "Or",
    }
}

/// What is wrong with an operand, by operator and place.
pub open spec fn operand_text(op: Op, place: usize) -> Name {
    match (op, place) {
        (Op::Index, 0) => "indexing requires an Array or String value"@,
        (Op::Index, 1) => "index must be an Int"@,
        (Op::ArrayLen, 0) => "`.len()` requires an Array or String value"@,
        (Op::ArrayPush, 0) => "`.push()` requires an Array value"@,
        (Op::ArrayPop, 0) => "`.pop()` requires an Array value"@,
        (Op::ArraySet, 0) => "`.set()` requires an Array value"@,
        (Op::ArraySet, 1) | (Op::ArraySetReuse, 1) => "`.set()` index must be an Int"@,
        (Op::ArrayRemove, 0) => "`.remove()` requires an Array value"@,
        (Op::ArrayRemove, 1) | (Op::ArrayRemoveReuse, 1) => "`.remove()` index must be an Int"@,
        (Op::StrConcat, 0) => "`.concat()` requires a String value"@,
        (Op::StrConcat, 1) | (Op::StrConcatReuse, 1) => "`.concat()` argument must be a String value"@,
        (Op::StrRunes, 0) => "`.runes()` requires a String value"@,
        (Op::StrTrim, 0) => "`.trim()` requires a String value"@,
        (Op::StrSplit, 0) => "`.split()` requires a String value"@,
        (Op::StrSplit, 1) => "`.split()` argument must be a String value"@,
        (Op::StrToUpper, 0) => "`.to_upper()` requires a String value"@,
        (Op::StrToLower, 0) => "`.to_lower()` requires a String value"@,
        (Op::StrContains, 0) => "`.contains()` requires a String value"@,
        (Op::StrContains, 1) => "`.contains()` argument must be a String value"@,
        (Op::StrStartsWith, 0) => "`.starts_with()` requires a String value"@,
        (Op::StrStartsWith, 1) => "`.starts_with()` argument must be a String value"@,
        (Op::StrEndsWith, 0) => "`.ends_with()` requires a String value"@,
        (Op::StrEndsWith, 1) => "`.ends_with()` argument must be a String value"@,
        (Op::StrReplace, 0) => "`.replace()` requires a String value"@,
        (Op::StrReplace, 1) | (Op::StrReplaceReuse, 1) => "`.replace()` first argument must be a String value"@,
        (Op::StrReplace, 2) | (Op::StrReplaceReuse, 2) => "`.replace()` second argument must be a String value"@,
        (Op::TaskJoin, 0) => "`.join()` requires a Task value"@,
        (Op::ChannelSend, 0) => "`.send()` requires a Sender value"@,
        (Op::ChannelRecv, 0) => "`.recv()` requires a Receiver value"@,
        (Op::RefGet, 0) => "`.get()` requires a Ref value"@,
        (Op::RefSet, 0) => "`.set()` requires a Ref value"@,
        _ => "operand of the wrong kind"@,
    }
}

fn operand_str(op: Op, place: usize) -> (r: &'static str)
    ensures
        r@ == operand_text(op, place),
{
    match (op, place) {
        (Op::Index, 0) => "indexing requires an Array or String value",
        (Op::Index, 1) => "index must be an Int",
        (Op::ArrayLen, 0) => "`.len()` requires an Array or String value",
        (Op::ArrayPush, 0) => "`.push()` requires an Array value",
        (Op::ArrayPop, 0) => "`.pop()` requires an Array value",
        (Op::ArraySet, 0) => "`.set()` requires an Array value",
        (Op::ArraySet, 1) | (Op::ArraySetReuse, 1) => "`.set()` index must be an Int",
        (Op::ArrayRemove, 0) => "`.remove()` requires an Array value",
        (Op::ArrayRemove, 1) | (Op::ArrayRemoveReuse, 1) => "`.remove()` index must be an Int",
        (Op::StrConcat, 0) => "`.concat()` requires a String value",
        (Op::StrConcat, 1) | (Op::StrConcatReuse, 1) => "`.concat()` argument must be a String value",
        (Op::StrRunes, 0) => "`.runes()` requires a String value",
        (Op::StrTrim, 0) => "`.trim()` requires a String value",
        (Op::StrSplit, 0) => "`.split()` requires a String value",
        (Op::StrSplit, 1) => "`.split()` argument must be a String value",
        (Op::StrToUpper, 0) => "`.to_upper()` requires a String value",
        (Op::StrToLower, 0) => "`.to_lower()` requires a String value",
        (Op::StrContains, 0) => "`.contains()` requires a String value",
        (Op::StrContains, 1) => "`.contains()` argument must be a String value",
        (Op::StrStartsWith, 0) => "`.starts_with()` requires a String value",
        (Op::StrStartsWith, 1) => "`.starts_with()` argument must be a String value",
        (Op::StrEndsWith, 0) => "`.ends_with()` requires a String value",
        (Op::StrEndsWith, 1) => "`.ends_with()` argument must be a String value",
        (Op::StrReplace, 0) => "`.replace()` requires a String value",
        (Op::StrReplace, 1) | (Op::StrReplaceReuse, 1) => "`.replace()` first argument must be a String value",
        (Op::StrReplace, 2) | (Op::StrReplaceReuse, 2) => "`.replace()` second argument must be a String value",
        (Op::TaskJoin, 0) => "`.join()` requires a Task value",
        (Op::ChannelSend, 0) => "`.send()` requires a Sender value",
        (Op::ChannelRecv, 0) => "`.recv()` requires a Receiver value",
        (Op::RefGet, 0) => "`.get()` requires a Ref value",
        (Op::RefSet, 0) => "`.set()` requires a Ref value",
        _ => "operand of the wrong kind",
    }
}

/// The text of an error. `shown` is how the host shows the values that only it can show.
pub open spec fn fault_text(e: Fault, shown: Seq<Name>) -> Name {
    match e {
        Fault::Heap(x) => x.text(),
        Fault::UnboundVariable(x) => "unbound variable: "@ + x,
        Fault::UndefinedAssign(x) => "assignment to undefined variable: "@ + x,
        Fault::UnknownFunction(x) => "unknown function: "@ + x,
        Fault::FunctionArity { name, expected, found } => name + " expects "@ + decimal(expected as nat) + " argument(s), found "@ + decimal(found as nat),
        Fault::ClosureArity { expected, found } => "closure expects "@ + decimal(expected as nat) + " argument(s), found "@ + decimal(found as nat),
        Fault::InvalidClosure(x) => "invalid closure reference: "@ + decimal(x as nat),
        Fault::NotCallable(x) => "cannot call "@ + val_text(x, shown[0]) + " — not a function or closure"@,
        Fault::AndOperand(x) => "`&&` requires Bool operands, found "@ + val_text(x, shown[0]),
        Fault::OrOperand(x) => "`||` requires Bool operands, found "@ + val_text(x, shown[0]),
        Fault::Condition(x) => "`if` condition must be Bool, found "@ + val_text(x, shown[0]),
        Fault::LoopStart => "`for` loop range start must be Int"@,
        Fault::LoopEnd => "`for` loop range end must be Int"@,
        Fault::Operand { op, place } => operand_text(op, place),
        Fault::SelectOperand => "`select` arm requires a Receiver value"@,
        Fault::ReuseTarget(x) => "reuse target "@ + quoted(x) + " is not a heap value"@,
        Fault::ArrayIndex { index, len } => "array index out of bounds: "@ + signed_decimal(index as int) + " (len "@ + decimal(len as nat) + ")"@,
        Fault::StringIndex { index, len } => "string index out of bounds: "@ + signed_decimal(index as int) + " (len "@ + decimal(len as nat) + ")"@,
        Fault::EmptyPop => "cannot pop from an empty array"@,
        Fault::NoText(x) => "`.to_string()` is not yet supported for "@ + val_text(x, shown[0]) + " (only Int/Float/Bool/Str)"@,
        Fault::Scrutinee => "match scrutinee must be a heap value"@,
        Fault::ArmArity { tag, expected, found } => "arm for "@ + quoted(tag) + " expects "@ + decimal(expected as nat) + " field(s), found "@ + decimal(found as nat),
        Fault::Guard(x) => "match guard must evaluate to a Bool, found "@ + val_text(x, shown[0]),
        Fault::NoArm(x) => "no match arm for tag "@ + quoted(x),
        Fault::UnaryType { op, value } => "type error: cannot apply "@ + unop_text(op) + " to "@ + val_text(value, shown[0]),
        Fault::ArithType { op, lhs, rhs } => "type error: no implicit numeric coercion, cannot apply "@ + binop_text(op) + " to "@ + val_text(lhs, shown[0]) + " and "@ + second_text(lhs, rhs, shown),
        Fault::OrderType { lhs, rhs } => "type error: cannot order-compare "@ + val_text(lhs, shown[0]) + " and "@ + second_text(lhs, rhs, shown),
        Fault::EqualityType { lhs, rhs } => "type error: cannot compare "@ + val_text(lhs, shown[0]) + " and "@ + second_text(lhs, rhs, shown) + " for equality"@,
        Fault::DivisionByZero => "division by zero"@,
        Fault::Overflow => "integer overflow"@,
        Fault::NegOverflow => "integer overflow negating i64::MIN"@,
        Fault::NoOrdering => "comparison produced no ordering (NaN?)"@,
        Fault::ClosureBoundary => "cannot send a closure across a task boundary (not yet supported)"@,
        Fault::FunctionBoundary(x) => "cannot send function "@ + quoted(x) + " across a task boundary (not yet supported)"@,
        Fault::TaskBoundary => "cannot send a task handle across a task boundary (not yet supported)"@,
        Fault::RefBoundary => "cannot send a Ref across a task boundary (not yet supported)"@,
        Fault::CyclicBoundary => "cannot send a cyclic value across a task boundary"@,
        Fault::AlreadyJoined => "task already joined"@,
        Fault::TaskFailed(x) => "spawned task failed: "@ + x,
        Fault::TaskPanicked => "spawned task panicked"@,
        Fault::ReceiverDropped => "cannot send: the channel's receiver has been dropped"@,
        Fault::SenderDropped => "cannot recv: the channel's sender has been dropped"@,
        Fault::LockPoisoned => "channel receiver lock poisoned"@,
        Fault::SelectClosed => "select: every channel is disconnected with nothing received"@,
        Fault::NotHeapValue(x) => val_text(x, shown[0]) + " is not a heap value"@,
        Fault::CountOverflow(x) => "too many references to heap address "@ + decimal(x as nat),
        Fault::Unsupported(_) => "the interpreter does not run this operator"@,
        Fault::UnexpectedEvent => "the answer does not fit what was asked"@,
    }
}

impl EvalError {
    /// The values in the text of the error that only the host can show, in order.
    pub fn shown_by_host(&self) -> (r: Vec<Value>)
        ensures
            vals(r@) == host_values(self@),
    {
        let mut r: Vec<Value> = Vec::new();
        match self {
            EvalError::NotCallable(x)
            | EvalError::AndOperand(x)
            | EvalError::OrOperand(x)
            | EvalError::Condition(x)
            | EvalError::NoText(x)
            | EvalError::Guard(x)
            | EvalError::NotHeapValue(x) => {
                if is_by_host(x) {
                    r.push(x.clone());
                }
            },
            EvalError::UnaryType { value, .. } => {
                if is_by_host(value) {
                    r.push(value.clone());
                }
            },
            EvalError::ArithType { lhs, rhs, .. }
            | EvalError::OrderType { lhs, rhs }
            | EvalError::EqualityType { lhs, rhs } => {
                if is_by_host(lhs) {
                    r.push(lhs.clone());
                }
                if is_by_host(rhs) {
                    r.push(rhs.clone());
                }
            },
            _ => {},
        }
        assert(vals(r@) =~= host_values(self@));
        r
    }

    /// The text of the error. `shown` is how the host shows the values of
    /// [`EvalError::shown_by_host`].
    pub fn message(&self, shown: &Vec<String>) -> (r: String)
        requires
            shown@.len() == host_values(self@).len(),
        ensures
            r@ == fault_text(self@, names_of(shown@)),
    {
        let mut r: String = String::new();
        match self {
            EvalError::Heap(x) => {
                r.append(x.message().as_str());
            },
            EvalError::UnboundVariable(x) => {
                r.append("unbound variable: ");
                r.append(x.as_str());
            },
            EvalError::UndefinedAssign(x) => {
                r.append("assignment to undefined variable: ");
                r.append(x.as_str());
            },
            EvalError::UnknownFunction(x) => {
                r.append("unknown function: ");
                r.append(x.as_str());
            },
            EvalError::FunctionArity { name, expected, found } => {
                r.append(name.as_str());
                r.append(" expects ");
                r.append(decimal_text(*expected as u64).as_str());
                r.append(" argument(s), found ");
                r.append(decimal_text(*found as u64).as_str());
            },
            EvalError::ClosureArity { expected, found } => {
                r.append("closure expects ");
                r.append(decimal_text(*expected as u64).as_str());
                r.append(" argument(s), found ");
                r.append(decimal_text(*found as u64).as_str());
            },
            EvalError::InvalidClosure(x) => {
                r.append("invalid closure reference: ");
                r.append(decimal_text(*x as u64).as_str());
            },
            EvalError::NotCallable(x) => {
                r.append("cannot call ");
                r.append(val_string(x, shown, 0).as_str());
                r.append(" — not a function or closure");
            },
            EvalError::AndOperand(x) => {
                r.append("`&&` requires Bool operands, found ");
                r.append(val_string(x, shown, 0).as_str());
            },
            EvalError::OrOperand(x) => {
                r.append("`||` requires Bool operands, found ");
                r.append(val_string(x, shown, 0).as_str());
            },
            EvalError::Condition(x) => {
                r.append("`if` condition must be Bool, found ");
                r.append(val_string(x, shown, 0).as_str());
            },
            EvalError::LoopStart => {
                r.append("`for` loop range start must be Int");
            },
            EvalError::LoopEnd => {
                r.append("`for` loop range end must be Int");
            },
            EvalError::Operand { op, place } => {
                r.append(operand_str(*op, *place));
            },
            EvalError::SelectOperand => {
                r.append("`select` arm requires a Receiver value");
            },
            EvalError::ReuseTarget(x) => {
                r.append("reuse target ");
                r.append(quote(x.as_str()).as_str());
                r.append(" is not a heap value");
            },
            EvalError::ArrayIndex { index, len } => {
                r.append("array index out of bounds: ");
                r.append(signed_decimal_text(*index).as_str());
                r.append(" (len ");
                r.append(decimal_text(*len as u64).as_str());
                r.append(")");
            },
            EvalError::StringIndex { index, len } => {
                r.append("string index out of bounds: ");
                r.append(signed_decimal_text(*index).as_str());
                r.append(" (len ");
                r.append(decimal_text(*len as u64).as_str());
                r.append(")");
            },
            EvalError::EmptyPop => {
                r.append("cannot pop from an empty array");
            },
            EvalError::NoText(x) => {
                r.append("`.to_string()` is not yet supported for ");
                r.append(val_string(x, shown, 0).as_str());
                r.append(" (only Int/Float/Bool/Str)");
            },
            EvalError::Scrutinee => {
                r.append("match scrutinee must be a heap value");
            },
            EvalError::ArmArity { tag, expected, found } => {
                r.append("arm for ");
                r.append(quote(tag.as_str()).as_str());
                r.append(" expects ");
                r.append(decimal_text(*expected as u64).as_str());
                r.append(" field(s), found ");
                r.append(decimal_text(*found as u64).as_str());
            },
            EvalError::Guard(x) => {
                r.append("match guard must evaluate to a Bool, found ");
                r.append(val_string(x, shown, 0).as_str());
            },
            EvalError::NoArm(x) => {
                r.append("no match arm for tag ");
                r.append(quote(x.as_str()).as_str());
            },
            EvalError::UnaryType { op, value } => {
                r.append("type error: cannot apply ");
                r.append(unop_str(*op));
                r.append(" to ");
                r.append(val_string(value, shown, 0).as_str());
            },
            EvalError::ArithType { op, lhs, rhs } => {
                r.append("type error: no implicit numeric coercion, cannot apply ");
                r.append(binop_str(*op));
                r.append(" to ");
                r.append(val_string(lhs, shown, 0).as_str());
                r.append(" and ");
                r.append(second_string(lhs, rhs, shown).as_str());
            },
            EvalError::OrderType { lhs, rhs } => {
                r.append("type error: cannot order-compare ");
                r.append(val_string(lhs, shown, 0).as_str());
                r.append(" and ");
                r.append(second_string(lhs, rhs, shown).as_str());
            },
            EvalError::EqualityType { lhs, rhs } => {
                r.append("type error: cannot compare ");
                r.append(val_string(lhs, shown, 0).as_str());
                r.append(" and ");
                r.append(second_string(lhs, rhs, shown).as_str());
                r.append(" for equality");
            },
            EvalError::DivisionByZero => {
                r.append("division by zero");
            },
            EvalError::Overflow => {
                r.append("integer overflow");
            },
            EvalError::NegOverflow => {
                r.append("integer overflow negating i64::MIN");
            },
            EvalError::NoOrdering => {
                r.append("comparison produced no ordering (NaN?)");
            },
            EvalError::ClosureBoundary => {
                r.append("cannot send a closure across a task boundary (not yet supported)");
            },
            EvalError::FunctionBoundary(x) => {
                r.append("cannot send function ");
                r.append(quote(x.as_str()).as_str());
                r.append(" across a task boundary (not yet supported)");
            },
            EvalError::TaskBoundary => {
                r.append("cannot send a task handle across a task boundary (not yet supported)");
            },
            EvalError::RefBoundary => {
                r.append("cannot send a Ref across a task boundary (not yet supported)");
            },
            EvalError::CyclicBoundary => {
                r.append("cannot send a cyclic value across a task boundary");
            },
            EvalError::AlreadyJoined => {
                r.append("task already joined");
            },
            EvalError::TaskFailed(x) => {
                r.append("spawned task failed: ");
                r.append(x.as_str());
            },
            EvalError::TaskPanicked => {
                r.append("spawned task panicked");
            },
            EvalError::ReceiverDropped => {
                r.append("cannot send: the channel's receiver has been dropped");
            },
            EvalError::SenderDropped => {
                r.append("cannot recv: the channel's sender has been dropped");
            },
            EvalError::LockPoisoned => {
                r.append("channel receiver lock poisoned");
            },
            EvalError::SelectClosed => {
                r.append("select: every channel is disconnected with nothing received");
            },
            EvalError::NotHeapValue(x) => {
                r.append(val_string(x, shown, 0).as_str());
                r.append(" is not a heap value");
            },
            EvalError::CountOverflow(x) => {
                r.append("too many references to heap address ");
                r.append(decimal_text(*x as u64).as_str());
            },
            EvalError::Unsupported(_) => {
                r.append("the interpreter does not run this operator");
            },
            EvalError::UnexpectedEvent => {
                r.append("the answer does not fit what was asked");
            },
        }
        assert(r@ =~= fault_text(self@, names_of(shown@)));
        r
    }
}

impl Clone for EvalError {
    fn clone(&self) -> (r: Self)
        ensures
            r@ == self@,
    {
        match self {
            EvalError::Heap(x) => EvalError::Heap(*x),
            EvalError::UnboundVariable(x) => EvalError::UnboundVariable(x.clone()),
            EvalError::UndefinedAssign(x) => EvalError::UndefinedAssign(x.clone()),
            EvalError::UnknownFunction(x) => EvalError::UnknownFunction(x.clone()),
            EvalError::FunctionArity { name, expected, found } => EvalError::FunctionArity { name: name.clone(), expected: *expected, found: *found },
            EvalError::ClosureArity { expected, found } => EvalError::ClosureArity { expected: *expected, found: *found },
            EvalError::InvalidClosure(x) => EvalError::InvalidClosure(*x),
            EvalError::NotCallable(x) => EvalError::NotCallable(x.clone()),
            EvalError::AndOperand(x) => EvalError::AndOperand(x.clone()),
            EvalError::OrOperand(x) => EvalError::OrOperand(x.clone()),
            EvalError::Condition(x) => EvalError::Condition(x.clone()),
            EvalError::LoopStart => EvalError::LoopStart,
            EvalError::LoopEnd => EvalError::LoopEnd,
            EvalError::Operand { op, place } => EvalError::Operand { op: *op, place: *place },
            EvalError::SelectOperand => EvalError::SelectOperand,
            EvalError::ReuseTarget(x) => EvalError::ReuseTarget(x.clone()),
            EvalError::ArrayIndex { index, len } => EvalError::ArrayIndex { index: *index, len: *len },
            EvalError::StringIndex { index, len } => EvalError::StringIndex { index: *index, len: *len },
            EvalError::EmptyPop => EvalError::EmptyPop,
            EvalError::NoText(x) => EvalError::NoText(x.clone()),
            EvalError::Scrutinee => EvalError::Scrutinee,
            EvalError::ArmArity { tag, expected, found } => EvalError::ArmArity { tag: tag.clone(), expected: *expected, found: *found },
            EvalError::Guard(x) => EvalError::Guard(x.clone()),
            EvalError::NoArm(x) => EvalError::NoArm(x.clone()),
            EvalError::UnaryType { op, value } => EvalError::UnaryType { op: *op, value: value.clone() },
            EvalError::ArithType { op, lhs, rhs } => EvalError::ArithType { op: *op, lhs: lhs.clone(), rhs: rhs.clone() },
            EvalError::OrderType { lhs, rhs } => EvalError::OrderType { lhs: lhs.clone(), rhs: rhs.clone() },
            EvalError::EqualityType { lhs, rhs } => EvalError::EqualityType { lhs: lhs.clone(), rhs: rhs.clone() },
            EvalError::DivisionByZero => EvalError::DivisionByZero,
            EvalError::Overflow => EvalError::Overflow,
            EvalError::NegOverflow => EvalError::NegOverflow,
            EvalError::NoOrdering => EvalError::NoOrdering,
            EvalError::ClosureBoundary => EvalError::ClosureBoundary,
            EvalError::FunctionBoundary(x) => EvalError::FunctionBoundary(x.clone()),
            EvalError::TaskBoundary => EvalError::TaskBoundary,
            EvalError::RefBoundary => EvalError::RefBoundary,
            EvalError::CyclicBoundary => EvalError::CyclicBoundary,
            EvalError::AlreadyJoined => EvalError::AlreadyJoined,
            EvalError::TaskFailed(x) => EvalError::TaskFailed(x.clone()),
            EvalError::TaskPanicked => EvalError::TaskPanicked,
            EvalError::ReceiverDropped => EvalError::ReceiverDropped,
            EvalError::SenderDropped => EvalError::SenderDropped,
            EvalError::LockPoisoned => EvalError::LockPoisoned,
            EvalError::SelectClosed => EvalError::SelectClosed,
            EvalError::NotHeapValue(x) => EvalError::NotHeapValue(x.clone()),
            EvalError::CountOverflow(x) => EvalError::CountOverflow(*x),
            EvalError::Unsupported(x) => EvalError::Unsupported(*x),
            EvalError::UnexpectedEvent => EvalError::UnexpectedEvent,
        }
    }
}

} // verus!
