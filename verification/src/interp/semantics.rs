//! What each step of an evaluation does.

use vstd::prelude::*;
use vstd::utf8::encode_utf8;
use crate::ir::{ArmTerm, BinOp, FunctionTerm, GlobalTerm, Name, Op, ProgramTerm, RcOp, Term, UnOp};
use crate::names::signed_decimal;
use super::error::{bool_text, Fault};
use super::heap::{
    cell_at, ctor_at, dead, live, str_at, with_dec, with_inc, with_new, with_reuse, Cells, Contents,
};
use super::portable::{detached, placed};
use super::state::{
    ClosureTerm, ControlTerm, FloatOp, FrameTerm, Machine, ReplyTerm, RequestTerm, Scope, TaskTerm,
};
use super::text::{code_points, lower, occurs, pieces, replaced, trimmed, upper};
use super::value::{Portable, ReceiverHandle, TaskHandle, Val};

verus! {

/// Where a name is bound innermost.
pub open spec fn find(s: Scope, name: Name) -> Option<int>
    decreases s.len(),
{
    if s.len() == 0 {
        None
    } else if s.last().0 == name {
        Some(s.len() - 1)
    } else {
        find(s.drop_last(), name)
    }
}

/// The latest function of a name.
pub open spec fn find_function(s: Seq<FunctionTerm>, name: Name) -> Option<FunctionTerm>
    decreases s.len(),
{
    if s.len() == 0 {
        None
    } else if s.last().name == name {
        Some(s.last())
    } else {
        find_function(s.drop_last(), name)
    }
}

/// What a name stands for: the innermost binding, a global, or a function.
pub open spec fn lookup(m: Machine, name: Name) -> Result<Val, Fault> {
    match find(m.env, name) {
        Some(i) => Ok(m.env[i].1),
        None => match find(m.globals, name) {
            Some(i) => Ok(m.globals[i].1),
            None => match find_function(m.functions, name) {
                Some(_) => Ok(Val::Function(name)),
                None => Err(Fault::UnboundVariable(name)),
            },
        },
    }
}

/// Globals with one of them set.
pub open spec fn with_global(s: Scope, name: Name, v: Val) -> Scope {
    match find(s, name) {
        Some(i) => s.update(i, (name, v)),
        None => s.push((name, v)),
    }
}

/// Names with values, position by position.
pub open spec fn zipped(names: Seq<Name>, vs: Seq<Val>) -> Scope {
    Seq::new(names.len(), |i: int| (names[i], vs[i]))
}

impl Machine {
    pub open spec fn evaluate(self, t: Term) -> Machine {
        Machine { control: ControlTerm::Eval(t), ..self }
    }

    pub open spec fn give(self, v: Val) -> Machine {
        Machine { control: ControlTerm::Return(v), ..self }
    }

    pub open spec fn fail(self, e: Fault) -> Machine {
        Machine { control: ControlTerm::Failed(e), ..self }
    }

    pub open spec fn ask(self, r: RequestTerm) -> Machine {
        Machine { control: ControlTerm::Waiting(r), ..self }
    }

    /// With what it was doing taken out.
    pub open spec fn idle(self) -> Machine {
        self.give(Val::Unit)
    }

    pub open spec fn push(self, f: FrameTerm) -> Machine {
        Machine { stack: self.stack.push(f), ..self }
    }

    pub open spec fn pop(self) -> Machine {
        Machine { stack: self.stack.drop_last(), ..self }
    }

    pub open spec fn bind(self, name: Name, v: Val) -> Machine {
        Machine { env: self.env.push((name, v)), ..self }
    }

    /// Without the innermost `n` bindings.
    pub open spec fn unbind(self, n: nat) -> Machine {
        Machine {
            env: if n <= self.env.len() {
                self.env.take(self.env.len() - n)
            } else {
                Seq::empty()
            },
            ..self
        }
    }

    /// Gives the address of a fresh cell.
    pub open spec fn store(self, c: Contents) -> Machine {
        Machine { heap: with_new(self.heap, c), ..self }.give(Val::HeapRef(self.heap.len() as usize))
    }

    /// Gives the address of a cell, built in the memory of `addr` if nothing else refers to it.
    pub open spec fn store_over(self, addr: usize, c: Contents) -> Machine {
        if live(self.heap, addr as int) {
            let (h, a) = with_reuse(self.heap, addr, c);
            Machine { heap: h, ..self }.give(Val::HeapRef(a as usize))
        } else {
            self.fail(Fault::Heap(dead(self.heap, addr)))
        }
    }

    /// Gives a value that came from another heap.
    pub open spec fn place(self, p: Portable) -> Machine {
        let (h, v) = placed(self.heap, p);
        Machine { heap: h, ..self }.give(v)
    }
}

/// What an operator demands of an operand.
#[derive(Debug, Clone, Copy, PartialEq, Eq, Structural)]
pub enum Kind {
    Any,
    Heap,
    Int,
    Task,
    Sender,
    Receiver,
    Ref,
    Callable,
}

pub open spec fn demand(op: Op, place: nat) -> Kind {
    match op {
        Op::Index | Op::ArraySet | Op::ArrayRemove => if place == 0 {
            Kind::Heap
        } else if place == 1 {
            Kind::Int
        } else {
            Kind::Any
        },
        Op::ArraySetReuse | Op::ArrayRemoveReuse => if place == 1 {
            Kind::Int
        } else {
            Kind::Any
        },
        Op::ArrayLen | Op::ArrayPush | Op::ArrayPop | Op::StrRunes | Op::StrTrim | Op::StrToUpper
        | Op::StrToLower => if place == 0 {
            Kind::Heap
        } else {
            Kind::Any
        },
        Op::StrConcat | Op::StrSplit | Op::StrContains | Op::StrStartsWith | Op::StrEndsWith
        | Op::StrReplace => Kind::Heap,
        Op::StrConcatReuse | Op::StrReplaceReuse => if place >= 1 {
            Kind::Heap
        } else {
            Kind::Any
        },
        Op::TaskJoin => Kind::Task,
        Op::ChannelSend => if place == 0 {
            Kind::Sender
        } else {
            Kind::Any
        },
        Op::ChannelRecv => Kind::Receiver,
        Op::RefGet => Kind::Ref,
        Op::RefSet => if place == 0 {
            Kind::Ref
        } else {
            Kind::Any
        },
        Op::Call => if place == 0 {
            Kind::Callable
        } else {
            Kind::Any
        },
        _ => Kind::Any,
    }
}

/// Whether a value is what is demanded.
pub open spec fn meets(v: Val, k: Kind) -> bool {
    match k {
        Kind::Any => true,
        Kind::Heap => v is HeapRef,
        Kind::Int => v is Int,
        Kind::Task => v is Task,
        Kind::Sender => v is Sender,
        Kind::Receiver => v is Receiver,
        Kind::Ref => v is Ref,
        Kind::Callable => v is Closure || v is Function,
    }
}

/// The error of an operand that is not what is demanded.
pub open spec fn misfit(op: Op, place: nat, v: Val) -> Fault {
    if op == Op::Call {
        Fault::NotCallable(v)
    } else {
        Fault::Operand { op, place: place as usize }
    }
}

/// Whether an operator has the right number of names and operands to be applied.
pub open spec fn complete(op: Op, names: nat, operands: nat) -> bool {
    match op {
        Op::Unary(_) | Op::ArrayLen | Op::ArrayPop | Op::ArrayPopReuse | Op::StrRunes | Op::StrTrim
        | Op::StrTrimReuse | Op::StrToUpper | Op::StrToUpperReuse | Op::StrToLower
        | Op::StrToLowerReuse | Op::ToString | Op::TaskJoin | Op::ChannelRecv | Op::RefNew
        | Op::RefGet => operands == 1,
        Op::Binary(_) | Op::Index | Op::ArrayPush | Op::ArrayPushReuse | Op::ArrayRemove
        | Op::ArrayRemoveReuse | Op::StrConcat | Op::StrConcatReuse | Op::StrSplit | Op::StrContains
        | Op::StrStartsWith | Op::StrEndsWith | Op::ChannelSend | Op::RefSet => operands == 2,
        Op::ArraySet | Op::ArraySetReuse | Op::StrReplace | Op::StrReplaceReuse => operands == 3,
        Op::Call => operands >= 1,
        Op::Ctor => names == 1,
        Op::CtorReuse => names == 2,
        _ => false,
    }
}

/// Evaluates the next operand, or applies the operator if there is none.
pub open spec fn operands(
    m: Machine,
    op: Op,
    names: Seq<Name>,
    done: Seq<Val>,
    todo: Seq<Term>,
) -> Machine {
    if todo.len() == 0 {
        applied(m, op, names, done)
    } else {
        m.push(
            FrameTerm::Operands { op, names, done, todo: todo.subrange(1, todo.len() as int) },
        ).evaluate(todo[0])
    }
}

/// Applies an operator to its operands.
pub open spec fn applied(m: Machine, op: Op, names: Seq<Name>, vs: Seq<Val>) -> Machine {
    if !complete(op, names.len(), vs.len()) {
        m.fail(Fault::Unsupported(op))
    } else {
        match op {
            Op::Unary(o) => unary(m, o, vs[0]),
            Op::Binary(o) => binary(m, o, vs[0], vs[1]),
            Op::Call => called(m, vs[0], vs.subrange(1, vs.len() as int)),
            Op::Ctor => m.store(Contents::Ctor(names[0], vs)),
            Op::CtorReuse => match lookup(m, names[0]) {
                Ok(Val::HeapRef(addr)) => m.store_over(addr, Contents::Ctor(names[1], vs)),
                Ok(_) => m.fail(Fault::ReuseTarget(names[0])),
                Err(e) => m.fail(e),
            },
            Op::TaskJoin | Op::ChannelSend | Op::ChannelRecv => exchanged(m, op, vs),
            Op::RefNew | Op::RefGet | Op::RefSet => on_ref(m, op, vs),
            Op::ArrayPush | Op::ArrayPop | Op::ArraySet | Op::ArrayRemove | Op::ArrayPushReuse
            | Op::ArrayPopReuse | Op::ArraySetReuse | Op::ArrayRemoveReuse => on_array(m, op, vs),
            Op::ToString => shown(m, vs[0]),
            _ => on_text(m, op, vs),
        }
    }
}

/// A unary operator.
pub open spec fn unary(m: Machine, op: UnOp, v: Val) -> Machine {
    match (op, v) {
        (UnOp::Neg, Val::Int(n)) => if n == i64::MIN {
            m.fail(Fault::NegOverflow)
        } else {
            m.give(Val::Int((-n) as i64))
        },
        (UnOp::Neg, Val::Float(b)) => m.ask(RequestTerm::Float { op: FloatOp::Neg, a: b, b: 0 }),
        (UnOp::Not, Val::Bool(b)) => m.give(Val::Bool(!b)),
        _ => m.fail(Fault::UnaryType { op, value: v }),
    }
}

/// The operators of arithmetic.
pub open spec fn is_arith(op: BinOp) -> bool {
    match op {
        BinOp::Add | BinOp::Sub | BinOp::Mul | BinOp::Div | BinOp::Rem => true,
        _ => false,
    }
}

/// The operators that compare by order.
pub open spec fn is_order(op: BinOp) -> bool {
    match op {
        BinOp::Lt | BinOp::Gt | BinOp::Le | BinOp::Ge => true,
        _ => false,
    }
}

/// The checked result of integer arithmetic.
pub open spec fn arith(op: BinOp, a: i64, b: i64) -> Result<i64, Fault> {
    let r = match op {
        BinOp::Add => a.checked_add(b),
        BinOp::Sub => a.checked_sub(b),
        BinOp::Mul => a.checked_mul(b),
        BinOp::Div => a.checked_div(b),
        _ => a.checked_rem(b),
    };
    if (op == BinOp::Div || op == BinOp::Rem) && b == 0 {
        Err(Fault::DivisionByZero)
    } else {
        match r {
            Some(n) => Ok(n),
            None => Err(Fault::Overflow),
        }
    }
}

/// The order of two integers.
pub open spec fn ordered(op: BinOp, a: i64, b: i64) -> bool {
    match op {
        BinOp::Lt => a < b,
        BinOp::Gt => a > b,
        BinOp::Le => a <= b,
        _ => a >= b,
    }
}

/// Whether two values that are not floats are equal.
pub open spec fn equal(h: Cells, a: Val, b: Val) -> Result<bool, Fault> {
    match (a, b) {
        (Val::Int(x), Val::Int(y)) => Ok(x == y),
        (Val::Bool(x), Val::Bool(y)) => Ok(x == y),
        (Val::Unit, Val::Unit) => Ok(true),
        (Val::HeapRef(x), Val::HeapRef(y)) => match cell_at(h, x) {
            Err(e) => Err(Fault::Heap(e)),
            Ok(c) => match cell_at(h, y) {
                Err(e) => Err(Fault::Heap(e)),
                Ok(d) => match (c.contents, d.contents) {
                    (Contents::Str(s), Contents::Str(t)) => Ok(s == t),
                    _ => Err(Fault::EqualityType { lhs: a, rhs: b }),
                },
            },
        },
        (Val::Ref(x), Val::Ref(y)) => Ok(x == y),
        _ => Err(Fault::EqualityType { lhs: a, rhs: b }),
    }
}

/// A binary operator on two values.
pub open spec fn binary(m: Machine, op: BinOp, a: Val, b: Val) -> Machine {
    match op {
        BinOp::And | BinOp::Or => m.fail(Fault::Unsupported(Op::Binary(op))),
        _ => match (a, b) {
            (Val::Float(x), Val::Float(y)) => m.ask(
                RequestTerm::Float { op: FloatOp::Binary(op), a: x, b: y },
            ),
            _ => match op {
                BinOp::Add | BinOp::Sub | BinOp::Mul | BinOp::Div | BinOp::Rem => match (a, b) {
                    (Val::Int(x), Val::Int(y)) => match arith(op, x, y) {
                        Ok(n) => m.give(Val::Int(n)),
                        Err(e) => m.fail(e),
                    },
                    _ => m.fail(Fault::ArithType { op, lhs: a, rhs: b }),
                },
                BinOp::Lt | BinOp::Gt | BinOp::Le | BinOp::Ge => match (a, b) {
                    (Val::Int(x), Val::Int(y)) => m.give(Val::Bool(ordered(op, x, y))),
                    _ => m.fail(Fault::OrderType { lhs: a, rhs: b }),
                },
                _ => match equal(m.heap, a, b) {
                    Ok(r) => m.give(Val::Bool(r == (op == BinOp::Eq))),
                    Err(e) => m.fail(e),
                },
            },
        },
    }
}

/// Calls a function or a closure. The body sees the parameters, and for a closure what it
/// captured, but nothing of the caller.
pub open spec fn called(m: Machine, callee: Val, args: Seq<Val>) -> Machine {
    match callee {
        Val::Function(name) => match find_function(m.functions, name) {
            None => m.fail(Fault::UnknownFunction(name)),
            Some(f) => if f.params.len() != args.len() {
                m.fail(
                    Fault::FunctionArity {
                        name,
                        expected: f.params.len() as usize,
                        found: args.len() as usize,
                    },
                )
            } else {
                Machine {
                    env: zipped(f.params, args),
                    ..m.push(FrameTerm::Restore { env: m.env })
                }.evaluate(f.body)
            },
        },
        Val::Closure(id) => if id >= m.closures.len() {
            m.fail(Fault::InvalidClosure(id))
        } else {
            let c = m.closures[id as int];
            if c.params.len() != args.len() {
                m.fail(
                    Fault::ClosureArity {
                        expected: c.params.len() as usize,
                        found: args.len() as usize,
                    },
                )
            } else {
                Machine {
                    env: c.captured + zipped(c.params, args),
                    ..m.push(FrameTerm::Restore { env: m.env })
                }.evaluate(c.body)
            }
        },
        _ => m.fail(Fault::NotCallable(callee)),
    }
}

/// Joining a task, sending and receiving.
pub open spec fn exchanged(m: Machine, op: Op, vs: Seq<Val>) -> Machine {
    match (op, vs[0]) {
        (Op::TaskJoin, Val::Task(t)) => if t.id < m.tasks.len() && !m.tasks[t.id as int] {
            Machine { tasks: m.tasks.update(t.id as int, true), ..m }.ask(
                RequestTerm::Join { id: t.id },
            )
        } else {
            m.fail(Fault::AlreadyJoined)
        },
        (Op::ChannelSend, Val::Sender(s)) => match detached(m.heap, vs[1], m.heap.len()) {
            Ok(p) => m.ask(RequestTerm::Send { to: s, value: p }),
            Err(e) => m.fail(e),
        },
        (Op::ChannelRecv, Val::Receiver(r)) => m.ask(RequestTerm::Recv { from: r }),
        _ => m.fail(misfit(op, 0, vs[0])),
    }
}

/// Making, reading and writing a reference cell.
pub open spec fn on_ref(m: Machine, op: Op, vs: Seq<Val>) -> Machine {
    match (op, vs[0]) {
        (Op::RefNew, v) => Machine { refs: m.refs.push(v), ..m }.give(
            Val::Ref(super::value::RefHandle { id: m.refs.len() as usize }),
        ),
        (Op::RefGet, Val::Ref(r)) => if r.id < m.refs.len() {
            m.give(m.refs[r.id as int])
        } else {
            m.fail(misfit(op, 0, vs[0]))
        },
        (Op::RefSet, Val::Ref(r)) => if r.id < m.refs.len() {
            Machine { refs: m.refs.update(r.id as int, vs[1]), ..m }.give(Val::Unit)
        } else {
            m.fail(misfit(op, 0, vs[0]))
        },
        _ => m.fail(misfit(op, 0, vs[0])),
    }
}

/// Whether an operator builds in the memory of its first operand.
pub open spec fn in_place(op: Op) -> bool {
    match op {
        Op::ArrayPushReuse | Op::ArrayPopReuse | Op::ArraySetReuse | Op::ArrayRemoveReuse
        | Op::StrConcatReuse | Op::StrTrimReuse | Op::StrToUpperReuse | Op::StrToLowerReuse
        | Op::StrReplaceReuse => true,
        _ => false,
    }
}

/// The elements of a changed array.
pub open spec fn changed(op: Op, fields: Seq<Val>, vs: Seq<Val>) -> Result<Seq<Val>, Fault> {
    match op {
        Op::ArrayPush | Op::ArrayPushReuse => Ok(fields.push(vs[1])),
        Op::ArrayPop | Op::ArrayPopReuse => if fields.len() == 0 {
            Err(Fault::EmptyPop)
        } else {
            Ok(fields.drop_last())
        },
        _ => match vs[1] {
            Val::Int(i) => if 0 <= i < fields.len() {
                match op {
                    Op::ArraySet | Op::ArraySetReuse => Ok(fields.update(i as int, vs[2])),
                    _ => Ok(fields.remove(i as int)),
                }
            } else {
                Err(Fault::ArrayIndex { index: i, len: fields.len() as usize })
            },
            _ => Err(misfit(op, 1, vs[1])),
        },
    }
}

/// A change to an array.
pub open spec fn on_array(m: Machine, op: Op, vs: Seq<Val>) -> Machine {
    match vs[0] {
        Val::HeapRef(addr) => match ctor_at(m.heap, addr) {
            Err(e) => m.fail(Fault::Heap(e)),
            Ok((tag, fields)) => match changed(op, fields, vs) {
                Err(e) => m.fail(e),
                Ok(new) => if in_place(op) {
                    m.store_over(addr, Contents::Ctor(tag, new))
                } else {
                    m.store(Contents::Ctor(tag, new))
                },
            },
        },
        _ => m.fail(misfit(op, 0, vs[0])),
    }
}

/// The printed form of a value.
pub open spec fn shown(m: Machine, v: Val) -> Machine {
    match v {
        Val::Int(n) => m.store(Contents::Str(signed_decimal(n as int))),
        Val::Float(b) => m.ask(RequestTerm::Float { op: FloatOp::Show, a: b, b: 0 }),
        Val::Bool(b) => m.store(Contents::Str(bool_text(b))),
        Val::HeapRef(addr) => match str_at(m.heap, addr) {
            Ok(s) => m.store(Contents::Str(s)),
            Err(_) => m.fail(Fault::NoText(v)),
        },
        _ => m.fail(Fault::NoText(v)),
    }
}

/// The string that an operand refers to.
pub open spec fn text_of(h: Cells, op: Op, vs: Seq<Val>, place: nat) -> Result<Name, Fault> {
    match vs[place as int] {
        Val::HeapRef(addr) => match str_at(h, addr) {
            Ok(s) => Ok(s),
            Err(e) => Err(Fault::Heap(e)),
        },
        v => Err(misfit(op, place, v)),
    }
}

/// A heap with several strings stored in order, and their addresses.
pub open spec fn with_strings(h: Cells, ss: Seq<Name>, n: nat) -> (Cells, Seq<Val>)
    decreases n,
{
    if n == 0 || n > ss.len() {
        (h, Seq::empty())
    } else {
        let (h2, vs) = with_strings(h, ss, (n - 1) as nat);
        (with_new(h2, Contents::Str(ss[n - 1])), vs.push(Val::HeapRef(h2.len() as usize)))
    }
}

/// The string that an operator builds.
pub open spec fn built(h: Cells, op: Op, vs: Seq<Val>) -> Result<Name, Fault> {
    match op {
        Op::StrReplace | Op::StrReplaceReuse => match text_of(h, op, vs, 1) {
            Err(e) => Err(e),
            Ok(from) => match text_of(h, op, vs, 2) {
                Err(e) => Err(e),
                Ok(to) => match text_of(h, op, vs, 0) {
                    Err(e) => Err(e),
                    Ok(s) => Ok(replaced(s, from, to)),
                },
            },
        },
        _ => match text_of(h, op, vs, 0) {
            Err(e) => Err(e),
            Ok(s) => match op {
                Op::StrConcat | Op::StrConcatReuse => match text_of(h, op, vs, 1) {
                    Err(e) => Err(e),
                    Ok(t) => Ok(s + t),
                },
                Op::StrTrim | Op::StrTrimReuse => Ok(trimmed(s)),
                Op::StrToUpper | Op::StrToUpperReuse => Ok(upper(s)),
                _ => Ok(lower(s)),
            },
        },
    }
}

/// What an array or a string has at an index.
pub open spec fn indexed(m: Machine, addr: usize, i: i64) -> Machine {
    match cell_at(m.heap, addr) {
        Err(e) => m.fail(Fault::Heap(e)),
        Ok(c) => match c.contents {
            Contents::Ctor(_, fields) => if 0 <= i < fields.len() {
                m.give(fields[i as int])
            } else {
                m.fail(Fault::ArrayIndex { index: i, len: fields.len() as usize })
            },
            Contents::Str(s) => if 0 <= i < encode_utf8(s).len() {
                m.give(Val::Int(encode_utf8(s)[i as int] as i64))
            } else {
                m.fail(Fault::StringIndex { index: i, len: encode_utf8(s).len() as usize })
            },
        },
    }
}

/// How many elements an array has, or how many bytes a string.
pub open spec fn measured(m: Machine, addr: usize) -> Machine {
    match cell_at(m.heap, addr) {
        Err(e) => m.fail(Fault::Heap(e)),
        Ok(c) => match c.contents {
            Contents::Ctor(_, fields) => m.give(Val::Int(fields.len() as i64)),
            Contents::Str(s) => m.give(Val::Int(encode_utf8(s).len() as i64)),
        },
    }
}

/// Indexing, measuring and working on strings.
pub open spec fn on_text(m: Machine, op: Op, vs: Seq<Val>) -> Machine {
    match op {
        Op::Index => match (vs[0], vs[1]) {
            (Val::HeapRef(addr), Val::Int(i)) => indexed(m, addr, i),
            (Val::HeapRef(_), v) => m.fail(misfit(op, 1, v)),
            (v, _) => m.fail(misfit(op, 0, v)),
        },
        Op::ArrayLen => match vs[0] {
            Val::HeapRef(addr) => measured(m, addr),
            v => m.fail(misfit(op, 0, v)),
        },
        Op::StrRunes => match text_of(m.heap, op, vs, 0) {
            Err(e) => m.fail(e),
            Ok(s) => m.store(Contents::Ctor("0Array"@, code_points(s))),
        },
        Op::StrSplit | Op::StrContains | Op::StrStartsWith | Op::StrEndsWith => match text_of(
            m.heap,
            op,
            vs,
            0,
        ) {
            Err(e) => m.fail(e),
            Ok(s) => match text_of(m.heap, op, vs, 1) {
                Err(e) => m.fail(e),
                Ok(t) => match op {
                    Op::StrSplit => {
                        let ps = pieces(s, t);
                        let (h, parts) = with_strings(m.heap, ps, ps.len());
                        Machine { heap: h, ..m }.store(Contents::Ctor("0Array"@, parts))
                    },
                    Op::StrContains => m.give(Val::Bool(occurs(t, s))),
                    Op::StrStartsWith => m.give(Val::Bool(t.is_prefix_of(s))),
                    _ => m.give(Val::Bool(t.is_suffix_of(s))),
                },
            },
        },
        _ => match built(m.heap, op, vs) {
            Err(e) => m.fail(e),
            Ok(s) => match vs[0] {
                Val::HeapRef(addr) => if in_place(op) {
                    m.store_over(addr, Contents::Str(s))
                } else {
                    m.store(Contents::Str(s))
                },
                v => m.fail(misfit(op, 0, v)),
            },
        },
    }
}

/// Adjusts a reference count, then goes on. Only heap values are counted.
pub open spec fn adjusted(m: Machine, op: RcOp, name: Name, rest: Term) -> Machine {
    match lookup(m, name) {
        Err(e) => m.fail(e),
        Ok(Val::HeapRef(addr)) => match cell_at(m.heap, addr) {
            Err(e) => m.fail(Fault::Heap(e)),
            Ok(c) => match op {
                RcOp::Inc => if c.refcount >= usize::MAX {
                    m.fail(Fault::CountOverflow(addr))
                } else {
                    Machine { heap: with_inc(m.heap, addr), ..m }.evaluate(rest)
                },
                RcOp::Dec => Machine { heap: with_dec(m.heap, addr), ..m }.evaluate(rest),
            },
        },
        Ok(_) => m.evaluate(rest),
    }
}

/// The first `n` bindings of a scope, detached from a heap in order.
pub open spec fn detached_scope(h: Cells, s: Scope, n: nat) -> Result<Seq<(Name, Portable)>, Fault>
    decreases n,
{
    if n == 0 || n > s.len() {
        Ok(Seq::empty())
    } else {
        match detached_scope(h, s, (n - 1) as nat) {
            Err(e) => Err(e),
            Ok(ps) => match detached(h, s[n - 1].1, h.len()) {
                Err(e) => Err(e),
                Ok(p) => Ok(ps.push((s[n - 1].0, p))),
            },
        }
    }
}

/// The first `n` bindings of a portable scope, stored on a heap in order.
pub open spec fn placed_scope(h: Cells, s: Seq<(Name, Portable)>, n: nat) -> (Cells, Scope)
    decreases n,
{
    if n == 0 || n > s.len() {
        (h, Seq::empty())
    } else {
        let (h2, done) = placed_scope(h, s, (n - 1) as nat);
        let (h3, v) = placed(h2, s[n - 1].1);
        (h3, done.push((s[n - 1].0, v)))
    }
}

/// Asks for a task that starts with copies of everything in scope.
pub open spec fn spawned(m: Machine, block: Term) -> Machine {
    match detached_scope(m.heap, m.env, m.env.len()) {
        Err(e) => m.fail(e),
        Ok(env) => match detached_scope(m.heap, m.globals, m.globals.len()) {
            Err(e) => m.fail(e),
            Ok(globals) => m.ask(
                RequestTerm::Spawn {
                    task: TaskTerm { env, globals, functions: m.functions, block },
                    id: m.tasks.len() as usize,
                },
            ),
        },
    }
}

/// A machine with nothing in it.
pub open spec fn blank() -> Machine {
    Machine {
        env: Seq::empty(),
        heap: Seq::empty(),
        functions: Seq::empty(),
        closures: Seq::empty(),
        globals: Seq::empty(),
        refs: Seq::empty(),
        tasks: Seq::empty(),
        stack: Seq::empty(),
        control: ControlTerm::Return(Val::Unit),
    }
}

/// The machine that a task starts as.
pub open spec fn task_machine(t: TaskTerm) -> Machine {
    let (h, globals) = placed_scope(Seq::empty(), t.globals, t.globals.len());
    let (h2, env) = placed_scope(h, t.env, t.env.len());
    Machine { env, heap: h2, functions: t.functions, globals, ..blank() }.evaluate(t.block)
}

/// Evaluates the next receiver of a select, or starts to ask them.
pub open spec fn next_receiver(m: Machine, ready: Seq<ReceiverHandle>, kids: Seq<Term>) -> Machine {
    if ready.len() < kids.len() / 2 {
        m.push(FrameTerm::Receivers { ready, kids }).evaluate(kids[2 * ready.len() as int])
    } else {
        polled(m, ready, kids, 0, false)
    }
}

/// Asks the next receiver of a select. After the last one, another round begins unless
/// every channel is closed.
pub open spec fn polled(
    m: Machine,
    ready: Seq<ReceiverHandle>,
    kids: Seq<Term>,
    at: nat,
    open: bool,
) -> Machine {
    if at < ready.len() {
        m.push(FrameTerm::Poll { ready, kids, at, open }).ask(
            RequestTerm::TryRecv { from: ready[at as int] },
        )
    } else if open {
        m.push(FrameTerm::Poll { ready, kids, at, open }).ask(RequestTerm::Sleep)
    } else {
        m.fail(Fault::SelectClosed)
    }
}

/// Starts to evaluate a term.
pub open spec fn entered(m: Machine, t: Term) -> Machine {
    match t.op {
        Op::Int(n) => m.give(Val::Int(n)),
        Op::Float(b) => m.give(Val::Float(b)),
        Op::Bool(b) => m.give(Val::Bool(b)),
        Op::Unit => m.give(Val::Unit),
        Op::Str => m.store(Contents::Str(t.names[0])),
        Op::Var => match lookup(m, t.names[0]) {
            Ok(v) => m.give(v),
            Err(e) => m.fail(e),
        },
        Op::Binary(BinOp::And) => m.push(FrameTerm::Rhs { and: true, rhs: t.kids[1] }).evaluate(
            t.kids[0],
        ),
        Op::Binary(BinOp::Or) => m.push(FrameTerm::Rhs { and: false, rhs: t.kids[1] }).evaluate(
            t.kids[0],
        ),
        Op::Let => m.push(FrameTerm::LetBody { name: t.names[0], body: t.kids[1] }).evaluate(
            t.kids[0],
        ),
        Op::If => m.push(
            FrameTerm::Branches { then_branch: t.kids[1], else_branch: t.kids[2] },
        ).evaluate(t.kids[0]),
        Op::Match => m.push(FrameTerm::Arms { arms: t.arms }).evaluate(t.kids[0]),
        Op::For => m.push(
            FrameTerm::LoopStart { var: t.names[0], end: t.kids[1], body: t.kids[2] },
        ).evaluate(t.kids[0]),
        Op::Assign => m.push(FrameTerm::AssignRest { name: t.names[0], rest: t.kids[1] }).evaluate(
            t.kids[0],
        ),
        Op::Closure(_) => Machine {
            closures: m.closures.push(
                ClosureTerm { params: t.names, body: t.kids[0], captured: m.env },
            ),
            ..m
        }.give(Val::Closure(m.closures.len() as usize)),
        Op::RcAnnotated(op) => adjusted(m, op, t.names[0], t.kids[0]),
        Op::Spawn => spawned(m, t.kids[0]),
        Op::Channel => m.ask(RequestTerm::Channel { tag: t.names[0] }),
        Op::Select => next_receiver(m, Seq::empty(), t.kids),
        Op::Call => if t.kids[0].op == Op::Var && find(m.env, t.kids[0].names[0]) is None && find(
            m.globals,
            t.kids[0].names[0],
        ) is None && find_function(m.functions, t.kids[0].names[0]) is Some {
            operands(
                m,
                t.op,
                t.names,
                seq![Val::Function(t.kids[0].names[0])],
                t.kids.subrange(1, t.kids.len() as int),
            )
        } else {
            operands(m, t.op, t.names, Seq::empty(), t.kids)
        },
        Op::EmptyArray(_) | Op::AsCStr | Op::AsString | Op::ToIntTrunc | Op::ToIntRound
        | Op::ToFloat | Op::ExternCall | Op::ReadFileRaw | Op::WriteFileRaw | Op::EnvVarRaw
        | Op::ArgsRaw | Op::RandomRaw | Op::PanicRaw | Op::StrHash => m.fail(
            Fault::Unsupported(t.op),
        ),
        _ => if in_place(t.op) {
            match lookup(m, t.names[0]) {
                Ok(Val::HeapRef(addr)) => operands(
                    m,
                    t.op,
                    t.names,
                    seq![Val::HeapRef(addr)],
                    t.kids,
                ),
                Ok(_) => m.fail(Fault::ReuseTarget(t.names[0])),
                Err(e) => m.fail(e),
            }
        } else {
            operands(m, t.op, t.names, Seq::empty(), t.kids)
        },
    }
}

/// Runs the first arm whose tag matches, once its guard holds.
pub open spec fn chosen(m: Machine, tag: Name, fields: Seq<Val>, arms: Seq<ArmTerm>) -> Machine
    decreases arms.len(),
{
    if arms.len() == 0 {
        m.fail(Fault::NoArm(tag))
    } else {
        let arm = arms[0];
        let rest = arms.subrange(1, arms.len() as int);
        if arm.tag != tag {
            chosen(m, tag, fields, rest)
        } else if arm.bindings.len() != fields.len() {
            m.fail(
                Fault::ArmArity {
                    tag,
                    expected: arm.bindings.len() as usize,
                    found: fields.len() as usize,
                },
            )
        } else {
            let inner = Machine { env: m.env + zipped(arm.bindings, fields), ..m };
            match arm.guard {
                Some(g) => inner.push(
                    FrameTerm::Guard { tag, fields, bound: fields.len(), body: arm.body, rest },
                ).evaluate(g),
                None => inner.push(FrameTerm::Unbind { count: fields.len() }).evaluate(arm.body),
            }
        }
    }
}

/// The rest of a loop.
pub open spec fn looped(m: Machine, var: Name, i: i64, end: i64, body: Term) -> Machine {
    if i < end {
        m.bind(var, Val::Int(i)).push(
            FrameTerm::LoopNext { var, next: (i + 1) as i64, end, body },
        ).evaluate(body)
    } else {
        m.give(Val::Unit)
    }
}

/// Evaluates the next global.
pub open spec fn loaded(m: Machine, rest: Seq<GlobalTerm>) -> Machine {
    if rest.len() == 0 {
        m.give(Val::Unit)
    } else {
        m.push(
            FrameTerm::Globals { name: rest[0].name, rest: rest.subrange(1, rest.len() as int) },
        ).evaluate(rest[0].value)
    }
}

/// The error of an operand of `&&` or `||` that is not a boolean.
pub open spec fn not_bool(and: bool, v: Val) -> Fault {
    if and {
        Fault::AndOperand(v)
    } else {
        Fault::OrOperand(v)
    }
}

/// Hands a value to a frame that has been taken off the stack.
pub open spec fn given(m: Machine, f: FrameTerm, v: Val) -> Machine {
    match f {
        FrameTerm::Operands { op, names, done, todo } => if meets(v, demand(op, done.len())) {
            operands(m, op, names, done.push(v), todo)
        } else {
            m.fail(misfit(op, done.len(), v))
        },
        FrameTerm::Rhs { and, rhs } => match v {
            Val::Bool(b) => if b == and {
                m.push(FrameTerm::RhsCheck { and }).evaluate(rhs)
            } else {
                m.give(v)
            },
            _ => m.fail(not_bool(and, v)),
        },
        FrameTerm::RhsCheck { and } => match v {
            Val::Bool(_) => m.give(v),
            _ => m.fail(not_bool(and, v)),
        },
        FrameTerm::LetBody { name, body } => m.bind(name, v).push(
            FrameTerm::Unbind { count: 1 },
        ).evaluate(body),
        FrameTerm::Branches { then_branch, else_branch } => match v {
            Val::Bool(b) => m.evaluate(
                if b {
                    then_branch
                } else {
                    else_branch
                },
            ),
            _ => m.fail(Fault::Condition(v)),
        },
        FrameTerm::Arms { arms } => match v {
            Val::HeapRef(addr) => match ctor_at(m.heap, addr) {
                Ok((tag, fields)) => chosen(m, tag, fields, arms),
                Err(e) => m.fail(Fault::Heap(e)),
            },
            _ => m.fail(Fault::Scrutinee),
        },
        FrameTerm::Guard { tag, fields, bound, body, rest } => match v {
            Val::Bool(b) => if b {
                m.push(FrameTerm::Unbind { count: bound }).evaluate(body)
            } else {
                chosen(m.unbind(bound), tag, fields, rest)
            },
            _ => m.unbind(bound).fail(Fault::Guard(v)),
        },
        FrameTerm::Unbind { count } => m.unbind(count).give(v),
        FrameTerm::LoopStart { var, end, body } => match v {
            Val::Int(start) => m.push(FrameTerm::LoopEnd { var, start, body }).evaluate(end),
            _ => m.fail(Fault::LoopStart),
        },
        FrameTerm::LoopEnd { var, start, body } => match v {
            Val::Int(end) => looped(m, var, start, end, body),
            _ => m.fail(Fault::LoopEnd),
        },
        FrameTerm::LoopNext { var, next, end, body } => looped(m.unbind(1), var, next, end, body),
        FrameTerm::AssignRest { name, rest } => match find(m.env, name) {
            Some(i) => Machine { env: m.env.update(i, (name, v)), ..m }.evaluate(rest),
            None => m.fail(Fault::UndefinedAssign(name)),
        },
        FrameTerm::Receivers { ready, kids } => match v {
            Val::Receiver(r) => next_receiver(m, ready.push(r), kids),
            _ => m.fail(Fault::SelectOperand),
        },
        FrameTerm::Poll { .. } => m.fail(Fault::UnexpectedEvent),
        FrameTerm::Restore { env } => Machine { env, ..m }.give(v),
        FrameTerm::Globals { name, rest } => loaded(
            Machine { globals: with_global(m.globals, name, v), ..m },
            rest,
        ),
    }
}

/// Leaves a frame because of an error: the bindings that it would have removed are removed.
pub open spec fn left(m: Machine, f: FrameTerm) -> Machine {
    match f {
        FrameTerm::Unbind { count } => m.unbind(count),
        FrameTerm::Guard { bound, .. } => m.unbind(bound),
        FrameTerm::LoopNext { .. } => m.unbind(1),
        FrameTerm::Restore { env } => Machine { env, ..m },
        _ => m,
    }
}

/// One step. A machine that is done, or waits, stays as it is.
pub open spec fn step(m: Machine) -> Machine {
    match m.control {
        ControlTerm::Eval(t) => entered(m.idle(), t),
        ControlTerm::Return(v) => if m.stack.len() == 0 {
            m
        } else {
            given(m.idle().pop(), m.stack.last(), v)
        },
        ControlTerm::Failed(_) => if m.stack.len() == 0 {
            m
        } else {
            left(m.pop(), m.stack.last())
        },
        ControlTerm::Waiting(_) => m,
    }
}

/// Whether a machine has nothing to do by itself.
pub open spec fn settled(m: Machine) -> bool {
    match m.control {
        ControlTerm::Eval(_) => false,
        ControlTerm::Waiting(_) => true,
        _ => m.stack.len() == 0,
    }
}

/// How far a machine has come.
#[verifier::ext_equal]
pub enum Progress {
    Done(Val),
    Failed(Fault),
    Waiting,
    Running,
}

impl Machine {
    pub open spec fn progress(self) -> Progress {
        match self.control {
            ControlTerm::Eval(_) => Progress::Running,
            ControlTerm::Waiting(_) => Progress::Waiting,
            ControlTerm::Return(v) => if self.stack.len() == 0 {
                Progress::Done(v)
            } else {
                Progress::Running
            },
            ControlTerm::Failed(e) => if self.stack.len() == 0 {
                Progress::Failed(e)
            } else {
                Progress::Running
            },
        }
    }
}

/// Several steps.
pub open spec fn run(m: Machine, n: nat) -> Machine
    decreases n,
{
    if n == 0 {
        m
    } else {
        run(step(m), (n - 1) as nat)
    }
}

/// Goes on with the answer to a select's question, with its frame taken off the stack.
pub open spec fn poll_answered(
    m: Machine,
    ready: Seq<ReceiverHandle>,
    kids: Seq<Term>,
    at: nat,
    open: bool,
    r: ReplyTerm,
) -> Machine {
    match r {
        ReplyTerm::Received(p) => {
            let (h, v) = placed(m.heap, p);
            Machine { heap: h, ..m }.bind("__select_recv"@, v).push(
                FrameTerm::Unbind { count: 1 },
            ).evaluate(kids[2 * at as int + 1])
        },
        ReplyTerm::Empty => polled(m, ready, kids, at + 1, true),
        ReplyTerm::Disconnected => polled(m, ready, kids, at + 1, open),
        ReplyTerm::Poisoned => m.fail(Fault::LockPoisoned),
        _ => m.fail(Fault::UnexpectedEvent),
    }
}

/// The answer to a computation with floating-point numbers.
pub open spec fn float_answered(m: Machine, op: FloatOp, r: ReplyTerm) -> Machine {
    match (op, r) {
        (FloatOp::Neg, ReplyTerm::Float(b)) => m.give(Val::Float(b)),
        (FloatOp::Show, ReplyTerm::Text(s)) => m.store(Contents::Str(s)),
        (FloatOp::Binary(o), ReplyTerm::Float(b)) => match o {
            BinOp::Add | BinOp::Sub | BinOp::Mul | BinOp::Div | BinOp::Rem => m.give(Val::Float(b)),
            _ => m.fail(Fault::UnexpectedEvent),
        },
        (FloatOp::Binary(o), ReplyTerm::Bool(b)) => match o {
            BinOp::Eq | BinOp::Ne | BinOp::Lt | BinOp::Gt | BinOp::Le | BinOp::Ge => m.give(
                Val::Bool(b),
            ),
            _ => m.fail(Fault::UnexpectedEvent),
        },
        (FloatOp::Binary(o), ReplyTerm::NoOrdering) => match o {
            BinOp::Lt | BinOp::Gt | BinOp::Le | BinOp::Ge => m.fail(Fault::NoOrdering),
            _ => m.fail(Fault::UnexpectedEvent),
        },
        _ => m.fail(Fault::UnexpectedEvent),
    }
}

/// Goes on with the answer to a request.
pub open spec fn answered(m: Machine, q: RequestTerm, r: ReplyTerm) -> Machine {
    match q {
        RequestTerm::Float { op, .. } => float_answered(m, op, r),
        RequestTerm::Spawn { id, .. } => match r {
            ReplyTerm::Spawned => Machine { tasks: m.tasks.push(false), ..m }.give(
                Val::Task(TaskHandle { id }),
            ),
            _ => m.fail(Fault::UnexpectedEvent),
        },
        RequestTerm::Join { .. } => match r {
            ReplyTerm::Joined(p) => m.place(p),
            ReplyTerm::TaskFailed(s) => m.fail(Fault::TaskFailed(s)),
            ReplyTerm::TaskPanicked => m.fail(Fault::TaskPanicked),
            _ => m.fail(Fault::UnexpectedEvent),
        },
        RequestTerm::Channel { tag } => match r {
            ReplyTerm::Channel(s, d) => m.store(
                Contents::Ctor(tag, seq![Val::Sender(s), Val::Receiver(d)]),
            ),
            _ => m.fail(Fault::UnexpectedEvent),
        },
        RequestTerm::Send { .. } => match r {
            ReplyTerm::Sent => m.give(Val::Unit),
            ReplyTerm::ReceiverDropped => m.fail(Fault::ReceiverDropped),
            _ => m.fail(Fault::UnexpectedEvent),
        },
        RequestTerm::Recv { .. } => match r {
            ReplyTerm::Received(p) => m.place(p),
            ReplyTerm::Disconnected => m.fail(Fault::SenderDropped),
            ReplyTerm::Poisoned => m.fail(Fault::LockPoisoned),
            _ => m.fail(Fault::UnexpectedEvent),
        },
        RequestTerm::TryRecv { .. } => if m.stack.len() == 0 {
            m.fail(Fault::UnexpectedEvent)
        } else {
            match m.stack.last() {
                FrameTerm::Poll { ready, kids, at, open } => if at < ready.len() && at < kids.len()
                    / 2 {
                    poll_answered(m.pop(), ready, kids, at, open, r)
                } else {
                    m.fail(Fault::UnexpectedEvent)
                },
                _ => m.fail(Fault::UnexpectedEvent),
            }
        },
        RequestTerm::Sleep => if m.stack.len() == 0 {
            m.fail(Fault::UnexpectedEvent)
        } else {
            match (m.stack.last(), r) {
                (FrameTerm::Poll { ready, kids, .. }, ReplyTerm::Slept) => polled(
                    m.pop(),
                    ready,
                    kids,
                    0,
                    false,
                ),
                _ => m.fail(Fault::UnexpectedEvent),
            }
        },
    }
}

/// Goes on with a reply. A machine that does not wait stays as it is.
pub open spec fn resumed(m: Machine, r: ReplyTerm) -> Machine {
    match m.control {
        ControlTerm::Waiting(q) => answered(m.idle(), q, r),
        _ => m,
    }
}

/// Starts to evaluate a term in a machine.
pub open spec fn started(m: Machine, t: Term) -> Machine {
    Machine { stack: Seq::empty(), ..m }.evaluate(t)
}

/// Starts to call a function in a machine.
pub open spec fn started_call(m: Machine, name: Name, args: Seq<Val>) -> Machine {
    called(Machine { stack: Seq::empty(), ..m }, Val::Function(name), args)
}

/// Starts to load a program into a machine: its functions are there at once, its globals
/// are evaluated in order.
pub open spec fn started_load(m: Machine, p: ProgramTerm) -> Machine {
    loaded(
        Machine { functions: m.functions + p.functions, stack: Seq::empty(), ..m },
        p.globals,
    )
}

} // verus!
