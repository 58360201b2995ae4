//! The state of an evaluation.
//!
//! An evaluation is a machine that takes one small step at a time. What it still has to do
//! is a stack of frames; what it is doing now is its control. Where it needs something that
//! only its host can do, such as floating-point arithmetic or a channel, it waits with a
//! request and goes on when the host replies.

use vstd::prelude::*;
use crate::ir::{
    arm_terms, names_of, terms, ArmTerm, BinOp, Expr, Function, FunctionTerm, Global, GlobalTerm,
    MatchArm, Name, Op, Term,
};
use super::error::{EvalError, Fault};
use super::heap::{Cells, Heap};
use super::value::{
    vals, Portable, PortableValue, ReceiverHandle, SenderHandle, Val, Value,
};

verus! {

/// Names with their values, innermost last.
pub type Scope = Seq<(Name, Val)>;

pub open spec fn scope(s: Seq<(String, Value)>) -> Scope {
    s.map_values(|b: (String, Value)| (b.0@, b.1@))
}

/// Names with their portable values.
pub open spec fn portable_scope(s: Seq<(String, PortableValue)>) -> Seq<(Name, Portable)> {
    s.map_values(|b: (String, PortableValue)| (b.0@, b.1@))
}

pub open spec fn function_terms(s: Seq<Function>) -> Seq<FunctionTerm> {
    s.map_values(|f: Function| f.term())
}

pub open spec fn global_terms(s: Seq<Global>) -> Seq<GlobalTerm> {
    s.map_values(|g: Global| g.term())
}

/// A closure with the environment that it was made in.
pub struct ClosureValue {
    pub params: Vec<String>,
    pub body: Expr,
    pub captured: Vec<(String, Value)>,
}

#[verifier::ext_equal]
pub struct ClosureTerm {
    pub params: Seq<Name>,
    pub body: Term,
    pub captured: Scope,
}

impl ClosureValue {
    pub open spec fn view(self) -> ClosureTerm {
        ClosureTerm {
            params: names_of(self.params@),
            body: self.body.term(),
            captured: scope(self.captured@),
        }
    }
}

pub open spec fn closure_terms(s: Seq<ClosureValue>) -> Seq<ClosureTerm> {
    s.map_values(|c: ClosureValue| c@)
}

/// Everything that a spawned task starts from.
pub struct TaskSeed {
    pub env: Vec<(String, PortableValue)>,
    pub globals: Vec<(String, PortableValue)>,
    pub functions: Vec<Function>,
    pub block: Expr,
}

#[verifier::ext_equal]
pub struct TaskTerm {
    pub env: Seq<(Name, Portable)>,
    pub globals: Seq<(Name, Portable)>,
    pub functions: Seq<FunctionTerm>,
    pub block: Term,
}

impl TaskSeed {
    pub open spec fn view(self) -> TaskTerm {
        TaskTerm {
            env: portable_scope(self.env@),
            globals: portable_scope(self.globals@),
            functions: function_terms(self.functions@),
            block: self.block.term(),
        }
    }
}

/// What to compute with floating-point numbers.
#[derive(Debug, Clone, Copy, PartialEq, Eq, Structural)]
pub enum FloatOp {
    /// The negation of the first number.
    Neg,
    /// The printed form of the first number.
    Show,
    /// A binary operator on both numbers.
    Binary(BinOp),
}

/// What an evaluation asks its host to do.
pub enum Request {
    /// Compute with two floating-point numbers, given by their bit patterns.
    Float { op: FloatOp, a: u64, b: u64 },
    /// Start a task under the given number.
    Spawn { task: TaskSeed, id: usize },
    /// Wait for the task with the given number.
    Join { id: usize },
    /// Make a channel. Its two ends will stand in a pair with the given tag.
    Channel { tag: String },
    /// Send a value.
    Send { to: SenderHandle, value: PortableValue },
    /// Wait for a value.
    Recv { from: ReceiverHandle },
    /// Take a value if there is one.
    TryRecv { from: ReceiverHandle },
    /// Let a moment pass.
    Sleep,
}

#[verifier::ext_equal]
pub enum RequestTerm {
    Float { op: FloatOp, a: u64, b: u64 },
    Spawn { task: TaskTerm, id: usize },
    Join { id: usize },
    Channel { tag: Name },
    Send { to: SenderHandle, value: Portable },
    Recv { from: ReceiverHandle },
    TryRecv { from: ReceiverHandle },
    Sleep,
}

impl Request {
    pub open spec fn view(self) -> RequestTerm {
        match self {
            Request::Float { op, a, b } => RequestTerm::Float { op, a, b },
            Request::Spawn { task, id } => RequestTerm::Spawn { task: task@, id },
            Request::Join { id } => RequestTerm::Join { id },
            Request::Channel { tag } => RequestTerm::Channel { tag: tag@ },
            Request::Send { to, value } => RequestTerm::Send { to, value: value@ },
            Request::Recv { from } => RequestTerm::Recv { from },
            Request::TryRecv { from } => RequestTerm::TryRecv { from },
            Request::Sleep => RequestTerm::Sleep,
        }
    }
}

/// What the host answers.
pub enum Reply {
    /// A floating-point result.
    Float(u64),
    /// The result of a comparison.
    Bool(bool),
    /// The numbers have no order.
    NoOrdering,
    /// The printed form of a number.
    Text(String),
    /// The task runs.
    Spawned,
    /// The task is done.
    Joined(PortableValue),
    /// The task failed, with the text of its error.
    TaskFailed(String),
    /// The task stopped without a result.
    TaskPanicked,
    /// The two ends of a new channel.
    Channel(SenderHandle, ReceiverHandle),
    /// The value was sent.
    Sent,
    /// There is no one to receive.
    ReceiverDropped,
    /// A value was received.
    Received(PortableValue),
    /// There is no value yet.
    Empty,
    /// There is no one to send.
    Disconnected,
    /// The receiving end is unusable.
    Poisoned,
    /// The moment has passed.
    Slept,
}

#[verifier::ext_equal]
pub enum ReplyTerm {
    Float(u64),
    Bool(bool),
    NoOrdering,
    Text(Name),
    Spawned,
    Joined(Portable),
    TaskFailed(Name),
    TaskPanicked,
    Channel(SenderHandle, ReceiverHandle),
    Sent,
    ReceiverDropped,
    Received(Portable),
    Empty,
    Disconnected,
    Poisoned,
    Slept,
}

impl Reply {
    pub open spec fn view(self) -> ReplyTerm {
        match self {
            Reply::Float(b) => ReplyTerm::Float(b),
            Reply::Bool(b) => ReplyTerm::Bool(b),
            Reply::NoOrdering => ReplyTerm::NoOrdering,
            Reply::Text(s) => ReplyTerm::Text(s@),
            Reply::Spawned => ReplyTerm::Spawned,
            Reply::Joined(p) => ReplyTerm::Joined(p@),
            Reply::TaskFailed(s) => ReplyTerm::TaskFailed(s@),
            Reply::TaskPanicked => ReplyTerm::TaskPanicked,
            Reply::Channel(s, r) => ReplyTerm::Channel(s, r),
            Reply::Sent => ReplyTerm::Sent,
            Reply::ReceiverDropped => ReplyTerm::ReceiverDropped,
            Reply::Received(p) => ReplyTerm::Received(p@),
            Reply::Empty => ReplyTerm::Empty,
            Reply::Disconnected => ReplyTerm::Disconnected,
            Reply::Poisoned => ReplyTerm::Poisoned,
            Reply::Slept => ReplyTerm::Slept,
        }
    }
}

/// What is left to do once a value is there.
#[allow(inconsistent_fields)]
pub enum Frame {
    /// More operands of a node.
    Operands { op: Op, names: Vec<String>, done: Vec<Value>, todo: Vec<Expr> },
    /// The right operand of `&&` or `||`.
    Rhs { and: bool, rhs: Expr },
    /// The check that the right operand of `&&` or `||` is a boolean.
    RhsCheck { and: bool },
    /// The body of a `let`.
    LetBody { name: String, body: Expr },
    /// The branches of an `if`.
    Branches { then_branch: Expr, else_branch: Expr },
    /// The arms of a match.
    Arms { arms: Vec<MatchArm> },
    /// An arm whose guard is being evaluated, and the arms after it.
    Guard { tag: String, fields: Vec<Value>, bound: usize, body: Expr, rest: Vec<MatchArm> },
    /// The end of a scope.
    Unbind { count: usize },
    /// The rest of a loop whose start is being evaluated.
    LoopStart { var: String, end: Expr, body: Expr },
    /// The rest of a loop whose end is being evaluated.
    LoopEnd { var: String, start: i64, body: Expr },
    /// The rest of a loop whose body is being evaluated.
    LoopNext { var: String, next: i64, end: i64, body: Expr },
    /// What follows an assignment.
    AssignRest { name: String, rest: Expr },
    /// The arms of a select, receivers and bodies alternating. Those in `ready` are known.
    Receivers { ready: Vec<ReceiverHandle>, kids: Vec<Expr> },
    /// A select that asks one receiver after another. `open` says whether some receiver of
    /// this round may still get a value.
    Poll { ready: Vec<ReceiverHandle>, kids: Vec<Expr>, at: usize, open: bool },
    /// The end of a call: the environment of the caller.
    Restore { env: Vec<(String, Value)> },
    /// A global whose value is being evaluated, and the globals after it.
    Globals { name: String, rest: Vec<Global> },
}

#[verifier::ext_equal]
#[allow(inconsistent_fields)]
pub enum FrameTerm {
    Operands { op: Op, names: Seq<Name>, done: Seq<Val>, todo: Seq<Term> },
    Rhs { and: bool, rhs: Term },
    RhsCheck { and: bool },
    LetBody { name: Name, body: Term },
    Branches { then_branch: Term, else_branch: Term },
    Arms { arms: Seq<ArmTerm> },
    Guard { tag: Name, fields: Seq<Val>, bound: nat, body: Term, rest: Seq<ArmTerm> },
    Unbind { count: nat },
    LoopStart { var: Name, end: Term, body: Term },
    LoopEnd { var: Name, start: i64, body: Term },
    LoopNext { var: Name, next: i64, end: i64, body: Term },
    AssignRest { name: Name, rest: Term },
    Receivers { ready: Seq<ReceiverHandle>, kids: Seq<Term> },
    Poll { ready: Seq<ReceiverHandle>, kids: Seq<Term>, at: nat, open: bool },
    Restore { env: Scope },
    Globals { name: Name, rest: Seq<GlobalTerm> },
}

impl Frame {
    pub open spec fn view(self) -> FrameTerm {
        match self {
            Frame::Operands { op, names, done, todo } => FrameTerm::Operands {
                op,
                names: names_of(names@),
                done: vals(done@),
                todo: terms(todo@),
            },
            Frame::Rhs { and, rhs } => FrameTerm::Rhs { and, rhs: rhs.term() },
            Frame::RhsCheck { and } => FrameTerm::RhsCheck { and },
            Frame::LetBody { name, body } => FrameTerm::LetBody { name: name@, body: body.term() },
            Frame::Branches { then_branch, else_branch } => FrameTerm::Branches {
                then_branch: then_branch.term(),
                else_branch: else_branch.term(),
            },
            Frame::Arms { arms } => FrameTerm::Arms { arms: arm_terms(arms@) },
            Frame::Guard { tag, fields, bound, body, rest } => FrameTerm::Guard {
                tag: tag@,
                fields: vals(fields@),
                bound: bound as nat,
                body: body.term(),
                rest: arm_terms(rest@),
            },
            Frame::Unbind { count } => FrameTerm::Unbind { count: count as nat },
            Frame::LoopStart { var, end, body } => FrameTerm::LoopStart {
                var: var@,
                end: end.term(),
                body: body.term(),
            },
            Frame::LoopEnd { var, start, body } => FrameTerm::LoopEnd {
                var: var@,
                start,
                body: body.term(),
            },
            Frame::LoopNext { var, next, end, body } => FrameTerm::LoopNext {
                var: var@,
                next,
                end,
                body: body.term(),
            },
            Frame::AssignRest { name, rest } => FrameTerm::AssignRest {
                name: name@,
                rest: rest.term(),
            },
            Frame::Receivers { ready, kids } => FrameTerm::Receivers {
                ready: ready@,
                kids: terms(kids@),
            },
            Frame::Poll { ready, kids, at, open } => FrameTerm::Poll {
                ready: ready@,
                kids: terms(kids@),
                at: at as nat,
                open,
            },
            Frame::Restore { env } => FrameTerm::Restore { env: scope(env@) },
            Frame::Globals { name, rest } => FrameTerm::Globals {
                name: name@,
                rest: global_terms(rest@),
            },
        }
    }
}

pub open spec fn frame_terms(s: Seq<Frame>) -> Seq<FrameTerm> {
    s.map_values(|f: Frame| f@)
}

/// What a machine is doing.
pub enum Control {
    /// It is about to evaluate an expression.
    Eval(Expr),
    /// It has a value for the topmost frame. Without a frame, it is done.
    Return(Value),
    /// It leaves one scope after another because of an error. Without a frame, it is done.
    Failed(EvalError),
    /// It waits for its host.
    Waiting(Request),
}

#[verifier::ext_equal]
pub enum ControlTerm {
    Eval(Term),
    Return(Val),
    Failed(Fault),
    Waiting(RequestTerm),
}

impl Control {
    pub open spec fn view(self) -> ControlTerm {
        match self {
            Control::Eval(e) => ControlTerm::Eval(e.term()),
            Control::Return(v) => ControlTerm::Return(v@),
            Control::Failed(e) => ControlTerm::Failed(e@),
            Control::Waiting(r) => ControlTerm::Waiting(r@),
        }
    }
}

/// Runs programs.
pub struct Interpreter {
    /// The bindings in scope, innermost last.
    pub env: Vec<(String, Value)>,
    pub heap: Heap,
    /// The functions, the latest of a name last.
    pub functions: Vec<Function>,
    pub closures: Vec<ClosureValue>,
    /// The globals, each name once.
    pub globals: Vec<(String, Value)>,
    /// What the reference cells hold.
    pub refs: Vec<Value>,
    /// Which of the tasks have been joined.
    pub tasks: Vec<bool>,
    pub stack: Vec<Frame>,
    pub control: Control,
}

/// The model of an interpreter.
#[verifier::ext_equal]
pub struct Machine {
    pub env: Scope,
    pub heap: Cells,
    pub functions: Seq<FunctionTerm>,
    pub closures: Seq<ClosureTerm>,
    pub globals: Scope,
    pub refs: Seq<Val>,
    pub tasks: Seq<bool>,
    pub stack: Seq<FrameTerm>,
    pub control: ControlTerm,
}

impl Interpreter {
    pub open spec fn view(self) -> Machine {
        Machine {
            env: scope(self.env@),
            heap: self.heap@,
            functions: function_terms(self.functions@),
            closures: closure_terms(self.closures@),
            globals: scope(self.globals@),
            refs: vals(self.refs@),
            tasks: self.tasks@,
            stack: frame_terms(self.stack@),
            control: self.control@,
        }
    }
}

} // verus!
