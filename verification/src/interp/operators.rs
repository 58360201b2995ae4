//! Applying operators to their operands.

use vstd::prelude::*;
use crate::ir::{names_of, terms, Expr, Name, Op};
use crate::names::signed_decimal_text;
use super::error::{bool_string, EvalError, Fault};
use super::heap::{CellView, Contents, Heap};
use super::machine::{bind_all, copy_scope, find_function_in};
use super::portable::to_portable;
use super::semantics::{
    applied, built, called, changed, complete, demand, exchanged, in_place, indexed, measured,
    meets, misfit, on_array, on_ref, on_text, operands, shown, text_of, with_strings, zipped, Kind,
};
use super::state::{scope, FloatOp, Frame, Interpreter, Request};
use super::text::{contains, ends_with, replace, runes, split, starts_with, to_lower, to_upper, trim};
use super::value::{copy_values, vals, RefHandle, Val, Value};

verus! {

/// The error of an operand that is not what is demanded.
fn misfit_error(op: Op, place: usize, v: &Value) -> (r: EvalError)
    ensures
        r@ == misfit(op, place as nat, v@),
{
    match op {
        Op::Call => EvalError::NotCallable(v.clone()),
        _ => EvalError::Operand { op, place },
    }
}

pub(crate) fn is_in_place(op: Op) -> (r: bool)
    ensures
        r == in_place(op),
{
    match op {
        Op::ArrayPushReuse | Op::ArrayPopReuse | Op::ArraySetReuse | Op::ArrayRemoveReuse
        | Op::StrConcatReuse | Op::StrTrimReuse | Op::StrToUpperReuse | Op::StrToLowerReuse
        | Op::StrReplaceReuse => true,
        _ => false,
    }
}

/// The elements of an array with one of the operators applied.
fn changed_fields(op: Op, fields: &[Value], vs: &Vec<Value>) -> (r: Result<Vec<Value>, EvalError>)
    requires
        complete(op, 0, vs@.len()),
        match op {
            Op::ArrayPush | Op::ArrayPop | Op::ArraySet | Op::ArrayRemove | Op::ArrayPushReuse
            | Op::ArrayPopReuse | Op::ArraySetReuse | Op::ArrayRemoveReuse => true,
            _ => false,
        },
    ensures
        match r {
            Ok(new) => changed(op, vals(fields@), vals(vs@)) == Ok::<Seq<Val>, Fault>(vals(new@)),
            Err(e) => changed(op, vals(fields@), vals(vs@)) == Err::<Seq<Val>, Fault>(e@),
        },
{
    let mut new: Vec<Value> = copy_values(fields);
    let ghost before: Seq<Value> = new@;
    assert(vals(before).len() == vals(fields@).len());
    match op {
        Op::ArrayPush | Op::ArrayPushReuse => {
            new.push(vs[1].clone());
            assert(vals(new@) =~= vals(before).push(vs@[1]@));
        },
        Op::ArrayPop | Op::ArrayPopReuse => {
            if new.len() == 0 {
                return Err(EvalError::EmptyPop);
            }
            let _ = new.pop();
            assert(vals(new@) =~= vals(before).drop_last());
        },
        _ => match &vs[1] {
            Value::Int(i) => {
                let i: i64 = *i;
                let len: usize = new.len();
                if i < 0 || i as u64 >= len as u64 {
                    return Err(EvalError::ArrayIndex { index: i, len });
                }
                let k: usize = i as usize;
                match op {
                    Op::ArraySet | Op::ArraySetReuse => {
                        new.set(k, vs[2].clone());
                        assert(vals(new@) =~= vals(before).update(k as int, vs@[2]@));
                    },
                    _ => {
                        let _ = new.remove(k);
                        assert(vals(new@) =~= vals(before).remove(k as int));
                    },
                }
            },
            v => {
                return Err(misfit_error(op, 1, v));
            },
        },
    }
    Ok(new)
}

/// The string that an operand refers to.
fn read_text(heap: &Heap, op: Op, vs: &Vec<Value>, place: usize) -> (r: Result<String, EvalError>)
    requires
        place < vs@.len(),
    ensures
        match r {
            Ok(s) => text_of(heap@, op, vals(vs@), place as nat) == Ok::<Name, Fault>(s@),
            Err(e) => text_of(heap@, op, vals(vs@), place as nat) == Err::<Name, Fault>(e@),
        },
{
    match &vs[place] {
        Value::HeapRef(addr) => match heap.read_str(*addr) {
            Ok(s) => Ok(s.to_owned()),
            Err(e) => Err(EvalError::Heap(e)),
        },
        v => Err(misfit_error(op, place, v)),
    }
}

/// The string that an operator builds.
fn build_text(heap: &Heap, op: Op, vs: &Vec<Value>) -> (r: Result<String, EvalError>)
    requires
        vs@.len() >= 1,
        match op {
            Op::StrReplace | Op::StrReplaceReuse => vs@.len() == 3,
            Op::StrConcat | Op::StrConcatReuse => vs@.len() == 2,
            _ => true,
        },
    ensures
        match r {
            Ok(s) => built(heap@, op, vals(vs@)) == Ok::<Name, Fault>(s@),
            Err(e) => built(heap@, op, vals(vs@)) == Err::<Name, Fault>(e@),
        },
{
    match op {
        Op::StrReplace | Op::StrReplaceReuse => {
            let from: String = match read_text(heap, op, vs, 1) {
                Ok(s) => s,
                Err(e) => {
                    return Err(e);
                },
            };
            let to: String = match read_text(heap, op, vs, 2) {
                Ok(s) => s,
                Err(e) => {
                    return Err(e);
                },
            };
            match read_text(heap, op, vs, 0) {
                Ok(s) => Ok(replace(s.as_str(), from.as_str(), to.as_str())),
                Err(e) => Err(e),
            }
        },
        _ => {
            let mut s: String = match read_text(heap, op, vs, 0) {
                Ok(s) => s,
                Err(e) => {
                    return Err(e);
                },
            };
            match op {
                Op::StrConcat | Op::StrConcatReuse => match read_text(heap, op, vs, 1) {
                    Ok(t) => {
                        s.append(t.as_str());
                        Ok(s)
                    },
                    Err(e) => Err(e),
                },
                Op::StrTrim | Op::StrTrimReuse => Ok(trim(s.as_str())),
                Op::StrToUpper | Op::StrToUpperReuse => Ok(to_upper(s.as_str())),
                _ => Ok(to_lower(s.as_str())),
            }
        },
    }
}

impl Interpreter {
    /// Calls a function by name.
    pub(crate) fn call_function(&mut self, name: String, args: Vec<Value>)
        ensures
            final(self)@ == called(old(self)@, Val::Function(name@), vals(args@)),
    {
        let i: usize = match find_function_in(&self.functions, &name) {
            Some(i) => i,
            None => {
                self.fail(EvalError::UnknownFunction(name));
                return ;
            },
        };
        let expected: usize = self.functions[i].params.len();
        let found: usize = args.len();
        if expected != found {
            self.fail(EvalError::FunctionArity { name, expected, found });
            return ;
        }
        let mut env: Vec<(String, Value)> = Vec::new();
        bind_all(&mut env, &self.functions[i].params, &args);
        let body: Expr = self.functions[i].body.clone();
        assert(scope(Seq::<(String, Value)>::empty()) + zipped(
            names_of(self.functions@[i as int].params@),
            vals(args@),
        ) =~= zipped(names_of(self.functions@[i as int].params@), vals(args@)));
        self.enter_call(env, body);
    }

    /// Runs a body in an environment of its own.
    fn enter_call(&mut self, env: Vec<(String, Value)>, body: Expr)
        ensures
            final(self)@ == (super::state::Machine {
                env: scope(env@),
                ..old(self)@.push(super::state::FrameTerm::Restore { env: old(self)@.env })
            }).evaluate(body.term()),
    {
        let mut env: Vec<(String, Value)> = env;
        std::mem::swap(&mut env, &mut self.env);
        self.push_frame(Frame::Restore { env });
        self.evaluate(body);
    }

    /// Calls a closure by number.
    fn call_closure(&mut self, id: usize, args: Vec<Value>)
        ensures
            final(self)@ == called(old(self)@, Val::Closure(id), vals(args@)),
    {
        if id >= self.closures.len() {
            self.fail(EvalError::InvalidClosure(id));
            return ;
        }
        let expected: usize = self.closures[id].params.len();
        let found: usize = args.len();
        if expected != found {
            self.fail(EvalError::ClosureArity { expected, found });
            return ;
        }
        let mut env: Vec<(String, Value)> = copy_scope(&self.closures[id].captured);
        bind_all(&mut env, &self.closures[id].params, &args);
        let body: Expr = self.closures[id].body.clone();
        self.enter_call(env, body);
    }

    fn exchange(&mut self, op: Op, vs: Vec<Value>)
        requires
            complete(op, 0, vs@.len()),
            op == Op::TaskJoin || op == Op::ChannelSend || op == Op::ChannelRecv,
        ensures
            final(self)@ == exchanged(old(self)@, op, vals(vs@)),
    {
        match (op, &vs[0]) {
            (Op::TaskJoin, Value::Task(t)) => {
                let id: usize = t.id;
                if id < self.tasks.len() && !self.tasks[id] {
                    self.tasks.set(id, true);
                    self.ask(Request::Join { id });
                } else {
                    self.fail(EvalError::AlreadyJoined);
                }
            },
            (Op::ChannelSend, Value::Sender(s)) => {
                match to_portable(&self.heap, &vs[1]) {
                    Ok(value) => self.ask(Request::Send { to: *s, value }),
                    Err(e) => self.fail(e),
                }
            },
            (Op::ChannelRecv, Value::Receiver(r)) => self.ask(Request::Recv { from: *r }),
            (_, v) => {
                let e: EvalError = misfit_error(op, 0, v);
                self.fail(e);
            },
        }
    }

    fn use_ref(&mut self, op: Op, vs: Vec<Value>)
        requires
            complete(op, 0, vs@.len()),
            op == Op::RefNew || op == Op::RefGet || op == Op::RefSet,
        ensures
            final(self)@ == on_ref(old(self)@, op, vals(vs@)),
    {
        let ghost before: Seq<Value> = self.refs@;
        match (op, &vs[0]) {
            (Op::RefNew, v) => {
                let id: usize = self.refs.len();
                self.refs.push(v.clone());
                assert(vals(self.refs@) =~= vals(before).push(vs@[0]@));
                self.give(Value::Ref(RefHandle { id }));
            },
            (Op::RefGet, Value::Ref(r)) if r.id < self.refs.len() => {
                let v: Value = self.refs[r.id].clone();
                self.give(v);
            },
            (Op::RefSet, Value::Ref(r)) if r.id < self.refs.len() => {
                self.refs.set(r.id, vs[1].clone());
                assert(vals(self.refs@) =~= vals(before).update(r.id as int, vs@[1]@));
                self.give(Value::Unit);
            },
            (_, v) => {
                let e: EvalError = misfit_error(op, 0, v);
                self.fail(e);
            },
        }
    }

    fn change_array(&mut self, op: Op, vs: Vec<Value>)
        requires
            complete(op, 0, vs@.len()),
            match op {
                Op::ArrayPush | Op::ArrayPop | Op::ArraySet | Op::ArrayRemove | Op::ArrayPushReuse
                | Op::ArrayPopReuse | Op::ArraySetReuse | Op::ArrayRemoveReuse => true,
                _ => false,
            },
        ensures
            final(self)@ == on_array(old(self)@, op, vals(vs@)),
    {
        let addr: usize = match &vs[0] {
            Value::HeapRef(addr) => *addr,
            v => {
                let e: EvalError = misfit_error(op, 0, v);
                self.fail(e);
                return ;
            },
        };
        match self.heap.read(addr) {
            Err(e) => self.fail(EvalError::Heap(e)),
            Ok((tag, fields)) => match changed_fields(op, fields, &vs) {
                Err(e) => self.fail(e),
                Ok(new) => {
                    let tag: String = tag.to_owned();
                    if is_in_place(op) {
                        self.store_ctor_over(addr, tag, new);
                    } else {
                        self.store_ctor(tag, new);
                    }
                },
            },
        }
    }

    fn show(&mut self, v: Value)
        ensures
            final(self)@ == shown(old(self)@, v@),
    {
        match v {
            Value::Int(n) => self.store_str(signed_decimal_text(n)),
            Value::Float(b) => self.ask(Request::Float { op: FloatOp::Show, a: b, b: 0 }),
            Value::Bool(b) => self.store_str(bool_string(b)),
            Value::HeapRef(addr) => match self.heap.read_str(addr) {
                Ok(s) => {
                    let s: String = s.to_owned();
                    self.store_str(s);
                },
                Err(_) => self.fail(EvalError::NoText(v)),
            },
            other => self.fail(EvalError::NoText(other)),
        }
    }

    fn index(&mut self, addr: usize, i: i64)
        ensures
            final(self)@ == indexed(old(self)@, addr, i),
    {
        match self.heap.read_any(addr) {
            Err(e) => self.fail(EvalError::Heap(e)),
            Ok(CellView::Ctor(_, fields)) => {
                let len: usize = fields.len();
                if i < 0 || i as u64 >= len as u64 {
                    self.fail(EvalError::ArrayIndex { index: i, len });
                } else {
                    let v: Value = fields[i as usize].clone();
                    self.give(v);
                }
            },
            Ok(CellView::Str(s)) => {
                let bytes: &[u8] = s.as_bytes();
                let len: usize = bytes.len();
                if i < 0 || i as u64 >= len as u64 {
                    self.fail(EvalError::StringIndex { index: i, len });
                } else {
                    let b: u8 = bytes[i as usize];
                    self.give(Value::Int(b as i64));
                }
            },
        }
    }

    fn measure(&mut self, addr: usize)
        ensures
            final(self)@ == measured(old(self)@, addr),
    {
        match self.heap.read_any(addr) {
            Err(e) => self.fail(EvalError::Heap(e)),
            Ok(CellView::Ctor(_, fields)) => {
                let len: usize = fields.len();
                self.give(Value::Int(len as i64));
            },
            Ok(CellView::Str(s)) => {
                let len: usize = s.as_bytes().len();
                self.give(Value::Int(len as i64));
            },
        }
    }

    /// Stores several strings, and an array of their addresses.
    fn store_pieces(&mut self, ps: Vec<String>)
        ensures
            final(self)@ == ({
                let (h, parts) = with_strings(old(self)@.heap, names_of(ps@), ps@.len());
                super::state::Machine { heap: h, ..old(self)@ }.store(
                    Contents::Ctor("0Array"@, parts),
                )
            }),
    {
        let mut parts: Vec<Value> = Vec::new();
        let mut i: usize = 0;
        while i < ps.len()
            invariant
                i <= ps@.len(),
                parts@.len() == i,
                self@ == (super::state::Machine { heap: self@.heap, ..old(self)@ }),
                (self@.heap, vals(parts@)) == with_strings(
                    old(self)@.heap,
                    names_of(ps@),
                    i as nat,
                ),
            decreases ps@.len() - i,
        {
            let ghost before: Seq<Value> = parts@;
            let addr: usize = self.heap.alloc_str(ps[i].clone());
            parts.push(Value::HeapRef(addr));
            assert(vals(parts@) =~= vals(before).push(Val::HeapRef(addr)));
            i += 1;
        }
        self.store_ctor("0Array".to_owned(), parts);
    }

    fn use_text(&mut self, op: Op, vs: Vec<Value>)
        requires
            complete(op, 0, vs@.len()),
            match op {
                Op::Index | Op::ArrayLen | Op::StrConcat | Op::StrConcatReuse | Op::StrRunes
                | Op::StrTrim | Op::StrTrimReuse | Op::StrSplit | Op::StrToUpper
                | Op::StrToUpperReuse | Op::StrToLower | Op::StrToLowerReuse | Op::StrContains
                | Op::StrStartsWith | Op::StrEndsWith | Op::StrReplace | Op::StrReplaceReuse => true,
                _ => false,
            },
        ensures
            final(self)@ == on_text(old(self)@, op, vals(vs@)),
    {
        match op {
            Op::Index => match (&vs[0], &vs[1]) {
                (Value::HeapRef(addr), Value::Int(i)) => self.index(*addr, *i),
                (Value::HeapRef(_), v) => {
                    let e: EvalError = misfit_error(op, 1, v);
                    self.fail(e);
                },
                (v, _) => {
                    let e: EvalError = misfit_error(op, 0, v);
                    self.fail(e);
                },
            },
            Op::ArrayLen => match &vs[0] {
                Value::HeapRef(addr) => self.measure(*addr),
                v => {
                    let e: EvalError = misfit_error(op, 0, v);
                    self.fail(e);
                },
            },
            Op::StrRunes => match read_text(&self.heap, op, &vs, 0) {
                Err(e) => self.fail(e),
                Ok(s) => self.store_ctor("0Array".to_owned(), runes(s.as_str())),
            },
            Op::StrSplit | Op::StrContains | Op::StrStartsWith | Op::StrEndsWith => {
                let s: String = match read_text(&self.heap, op, &vs, 0) {
                    Ok(s) => s,
                    Err(e) => {
                        self.fail(e);
                        return ;
                    },
                };
                let t: String = match read_text(&self.heap, op, &vs, 1) {
                    Ok(t) => t,
                    Err(e) => {
                        self.fail(e);
                        return ;
                    },
                };
                match op {
                    Op::StrSplit => {
                        let ps: Vec<String> = split(s.as_str(), t.as_str());
                        assert(names_of(ps@).len() == ps@.len());
                        self.store_pieces(ps);
                    },
                    Op::StrContains => self.give(Value::Bool(contains(s.as_str(), t.as_str()))),
                    Op::StrStartsWith => self.give(
                        Value::Bool(starts_with(s.as_str(), t.as_str())),
                    ),
                    _ => self.give(Value::Bool(ends_with(s.as_str(), t.as_str()))),
                }
            },
            _ => match build_text(&self.heap, op, &vs) {
                Err(e) => self.fail(e),
                Ok(s) => match &vs[0] {
                    Value::HeapRef(addr) => if is_in_place(op) {
                        self.store_str_over(*addr, s);
                    } else {
                        self.store_str(s);
                    },
                    v => {
                        let e: EvalError = misfit_error(op, 0, v);
                        self.fail(e);
                    },
                },
            },
        }
    }

    /// Applies an operator to its operands.
    #[verifier::spinoff_prover]
    pub(crate) fn apply(&mut self, op: Op, names: Vec<String>, vs: Vec<Value>)
        ensures
            final(self)@ == applied(old(self)@, op, names_of(names@), vals(vs@)),
    {
        if !is_complete(op, names.len(), vs.len()) {
            self.fail(EvalError::Unsupported(op));
            return ;
        }
        match op {
            Op::Unary(o) => {
                let v: Value = vs[0].clone();
                self.unary(o, v);
            },
            Op::Binary(o) => {
                let a: Value = vs[0].clone();
                let b: Value = vs[1].clone();
                self.binary(o, a, b);
            },
            Op::Call => {
                let mut args: Vec<Value> = vs;
                let callee: Value = args.remove(0);
                assert(vals(args@) =~= vals(vs@).subrange(1, vs@.len() as int));
                match callee {
                    Value::Function(name) => self.call_function(name, args),
                    Value::Closure(id) => self.call_closure(id, args),
                    v => self.fail(EvalError::NotCallable(v)),
                }
            },
            Op::Ctor => {
                let tag: String = names[0].clone();
                self.store_ctor(tag, vs);
            },
            Op::CtorReuse => match self.lookup(&names[0]) {
                Ok(Value::HeapRef(addr)) => {
                    let tag: String = names[1].clone();
                    self.store_ctor_over(addr, tag, vs);
                },
                Ok(_) => {
                    let name: String = names[0].clone();
                    self.fail(EvalError::ReuseTarget(name));
                },
                Err(e) => self.fail(e),
            },
            Op::TaskJoin | Op::ChannelSend | Op::ChannelRecv => self.exchange(op, vs),
            Op::RefNew | Op::RefGet | Op::RefSet => self.use_ref(op, vs),
            Op::ArrayPush | Op::ArrayPop | Op::ArraySet | Op::ArrayRemove | Op::ArrayPushReuse
            | Op::ArrayPopReuse | Op::ArraySetReuse | Op::ArrayRemoveReuse => {
                self.change_array(op, vs)
            },
            Op::ToString => {
                let v: Value = vs[0].clone();
                self.show(v);
            },
            _ => self.use_text(op, vs),
        }
    }

    /// Evaluates the next operand, or applies the operator if there is none.
    pub(crate) fn next_operand(
        &mut self,
        op: Op,
        names: Vec<String>,
        done: Vec<Value>,
        todo: Vec<Expr>,
    )
        ensures
            final(self)@ == operands(
                old(self)@,
                op,
                names_of(names@),
                vals(done@),
                terms(todo@),
            ),
    {
        let mut todo: Vec<Expr> = todo;
        let ghost all: Seq<Expr> = todo@;
        if todo.len() == 0 {
            self.apply(op, names, done);
        } else {
            let next: Expr = todo.remove(0);
            assert(terms(todo@) =~= terms(all).subrange(1, all.len() as int));
            assert(next.term() == terms(all)[0]);
            self.push_frame(Frame::Operands { op, names, done, todo });
            self.evaluate(next);
        }
    }

    /// Takes an operand.
    pub(crate) fn take_operand(
        &mut self,
        op: Op,
        names: Vec<String>,
        done: Vec<Value>,
        todo: Vec<Expr>,
        v: Value,
    )
        ensures
            final(self)@ == (if meets(v@, demand(op, vals(done@).len())) {
                operands(
                    old(self)@,
                    op,
                    names_of(names@),
                    vals(done@).push(v@),
                    terms(todo@),
                )
            } else {
                old(self)@.fail(misfit(op, vals(done@).len(), v@))
            }),
    {
        let mut done: Vec<Value> = done;
        let ghost before: Seq<Value> = done@;
        if is_met(&v, demanded(op, done.len())) {
            done.push(v);
            assert(vals(done@) =~= vals(before).push(v@));
            self.next_operand(op, names, done, todo);
        } else {
            let e: EvalError = misfit_error(op, done.len(), &v);
            self.fail(e);
        }
    }
}

fn is_complete(op: Op, names: usize, operands: usize) -> (r: bool)
    ensures
        r == complete(op, names as nat, operands as nat),
{
    match op {
        Op::Unary(_) | Op::ArrayLen | Op::ArrayPop | Op::ArrayPopReuse | Op::StrRunes | Op::StrTrim
        | Op::StrTrimReuse | Op::StrToUpper | Op::StrToUpperReuse | Op::StrToLower
        | Op::StrToLowerReuse | Op::ToString | Op::TaskJoin | Op::ChannelRecv | Op::RefNew
        | Op::RefGet => operands == 1,
        Op::Binary(_) | Op::Index | Op::ArrayPush | Op::ArrayPushReuse | Op::ArrayRemove
        | Op::ArrayRemoveReuse | Op::StrConcat | Op::StrConcatReuse | Op::StrSplit | Op::StrContains
        | Op::StrStartsWith | Op::StrEndsWith | Op::ChannelSend | Op::RefSet => operands == 2,
        Op::ArraySet | Op::ArraySetReuse | Op::StrReplace | Op::StrReplaceReuse => operands == 3,
        Op::Call => operands >= 1,
        Op::Ctor => names == 1,
        Op::CtorReuse => names == 2,
        _ => false,
    }
}

/// What an operator demands of an operand.
fn demanded(op: Op, place: usize) -> (r: Kind)
    ensures
        r == demand(op, place as nat),
{
    match op {
        Op::Index | Op::ArraySet | Op::ArrayRemove => if place == 0 {
            Kind::Heap
        } else if place == 1 {
            Kind::Int
        } else {
            Kind::Any
        },
        Op::ArraySetReuse | Op::ArrayRemoveReuse => if place == 1 {
            Kind::Int
        } else {
            Kind::Any
        },
        Op::ArrayLen | Op::ArrayPush | Op::ArrayPop | Op::StrRunes | Op::StrTrim | Op::StrToUpper
        | Op::StrToLower => if place == 0 {
            Kind::Heap
        } else {
            Kind::Any
        },
        Op::StrConcat | Op::StrSplit | Op::StrContains | Op::StrStartsWith | Op::StrEndsWith
        | Op::StrReplace => Kind::Heap,
        Op::StrConcatReuse | Op::StrReplaceReuse => if place >= 1 {
            Kind::Heap
        } else {
            Kind::Any
        },
        Op::TaskJoin => Kind::Task,
        Op::ChannelSend => if place == 0 {
            Kind::Sender
        } else {
            Kind::Any
        },
        Op::ChannelRecv => Kind::Receiver,
        Op::RefGet => Kind::Ref,
        Op::RefSet => if place == 0 {
            Kind::Ref
        } else {
            Kind::Any
        },
        Op::Call => if place == 0 {
            Kind::Callable
        } else {
            Kind::Any
        },
        _ => Kind::Any,
    }
}

fn is_met(v: &Value, k: Kind) -> (r: bool)
    ensures
        r == meets(v@, k),
{
    match (k, v) {
        (Kind::Any, _) => true,
        (Kind::Heap, Value::HeapRef(_)) => true,
        (Kind::Int, Value::Int(_)) => true,
        (Kind::Task, Value::Task(_)) => true,
        (Kind::Sender, Value::Sender(_)) => true,
        (Kind::Receiver, Value::Receiver(_)) => true,
        (Kind::Ref, Value::Ref(_)) => true,
        (Kind::Callable, Value::Closure(_)) => true,
        (Kind::Callable, Value::Function(_)) => true,
        _ => false,
    }
}

} // verus!
