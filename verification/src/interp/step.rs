//! Taking steps.

use vstd::prelude::*;
use crate::ir::{
    arm_term, arm_terms, names_of, shaped, take_at, terms, BinOp, Expr, Function, Global, MatchArm,
    Name, Op, Parts, RcOp, Term,
};
use crate::names::copy_names;
use super::error::{EvalError, Fault};
use super::heap::Heap;
use super::machine::{bind_all, copy_scope, find_function_in, find_in};
use super::operators::is_in_place;
use super::portable::{from_portable, to_portable};
use super::semantics::{
    adjusted, answered, chosen, detached_scope, entered, float_answered, given, left, loaded,
    looped, next_receiver, not_bool, placed_scope, poll_answered, polled, resumed, run, settled,
    spawned, step, with_global,
};
use super::state::{
    closure_terms, frame_terms, function_terms, global_terms, portable_scope, scope, ClosureValue,
    Control, FloatOp, Frame, Interpreter, Machine, Reply, Request, Scope, TaskSeed,
};
use super::value::{vals, Portable, PortableValue, ReceiverHandle, TaskHandle, Val, Value};

verus! {

/// Copies functions.
pub(crate) fn copy_functions(s: &Vec<Function>) -> (r: Vec<Function>)
    ensures
        function_terms(r@) == function_terms(s@),
{
    let mut r: Vec<Function> = Vec::new();
    let mut i: usize = 0;
    while i < s.len()
        invariant
            i <= s@.len(),
            r@.len() == i,
            forall|j: int| 0 <= j < i ==> (#[trigger] r@[j]).term() == s@[j].term(),
        decreases s@.len() - i,
    {
        r.push(
            Function {
                name: s[i].name.clone(),
                params: copy_names(&s[i].params),
                body: s[i].body.clone(),
            },
        );
        i += 1;
    }
    assert(function_terms(r@) =~= function_terms(s@));
    r
}

/// Copies globals.
pub(crate) fn copy_globals(s: &Vec<Global>) -> (r: Vec<Global>)
    ensures
        global_terms(r@) == global_terms(s@),
{
    let mut r: Vec<Global> = Vec::new();
    let mut i: usize = 0;
    while i < s.len()
        invariant
            i <= s@.len(),
            r@.len() == i,
            forall|j: int| 0 <= j < i ==> (#[trigger] r@[j]).term() == s@[j].term(),
        decreases s@.len() - i,
    {
        r.push(Global { name: s[i].name.clone(), value: s[i].value.clone() });
        i += 1;
    }
    assert(global_terms(r@) =~= global_terms(s@));
    r
}

/// Copies bindings with everything that they reach.
fn detach_scope(heap: &Heap, s: &Vec<(String, Value)>) -> (r: Result<
    Vec<(String, PortableValue)>,
    EvalError,
>)
    ensures
        match r {
            Ok(ps) => detached_scope(heap@, scope(s@), s@.len()) == Ok::<_, Fault>(
                portable_scope(ps@),
            ),
            Err(e) => detached_scope(heap@, scope(s@), s@.len()) == Err::<
                Seq<(Name, Portable)>,
                Fault,
            >(e@),
        },
{
    let mut ps: Vec<(String, PortableValue)> = Vec::new();
    assert(portable_scope(ps@) =~= Seq::empty());
    let mut i: usize = 0;
    while i < s.len()
        invariant
            i <= s@.len(),
            detached_scope(heap@, scope(s@), i as nat) == Ok::<_, Fault>(portable_scope(ps@)),
        decreases s@.len() - i,
    {
        let ghost before: Seq<(String, PortableValue)> = ps@;
        match to_portable(heap, &s[i].1) {
            Ok(p) => {
                ps.push((s[i].0.clone(), p));
                assert(portable_scope(ps@) =~= portable_scope(before).push((s@[i as int].0@, p@)));
            },
            Err(e) => {
                proof {
                    detaching_fails_from(heap@, scope(s@), (i + 1) as nat, s@.len());
                }
                return Err(e);
            },
        }
        i += 1;
    }
    Ok(ps)
}

proof fn detaching_fails_from(h: super::heap::Cells, s: Scope, i: nat, n: nat)
    requires
        i <= n <= s.len(),
        detached_scope(h, s, i) is Err,
    ensures
        detached_scope(h, s, n) == detached_scope(h, s, i),
    decreases n,
{
    if i < n {
        detaching_fails_from(h, s, i, (n - 1) as nat);
    }
}

/// Stores bindings on a heap.
pub(crate) fn place_scope(heap: &mut Heap, s: &Vec<(String, PortableValue)>) -> (r: Vec<
    (String, Value),
>)
    ensures
        (final(heap)@, scope(r@)) == placed_scope(
            old(heap)@,
            portable_scope(s@),
            s@.len(),
        ),
{
    let mut r: Vec<(String, Value)> = Vec::new();
    assert(scope(r@) =~= Seq::empty());
    let mut i: usize = 0;
    while i < s.len()
        invariant
            i <= s@.len(),
            (heap@, scope(r@)) == placed_scope(old(heap)@, portable_scope(s@), i as nat),
        decreases s@.len() - i,
    {
        let ghost before: Seq<(String, Value)> = r@;
        assert(portable_scope(s@)[i as int] == (s@[i as int].0@, s@[i as int].1@));
        let v: Value = from_portable(heap, s[i].1.clone());
        r.push((s[i].0.clone(), v));
        assert(scope(r@) =~= scope(before).push((s@[i as int].0@, v@)));
        i += 1;
    }
    r
}

/// The error of an operand of `&&` or `||` that is not a boolean.
fn not_bool_error(and: bool, v: Value) -> (r: EvalError)
    ensures
        r@ == not_bool(and, v@),
{
    if and {
        EvalError::AndOperand(v)
    } else {
        EvalError::OrOperand(v)
    }
}

/// The variable that an expression is.
fn as_var(e: &Expr) -> (r: Option<String>)
    ensures
        shaped(e.term()),
        match r {
            Some(name) => e.term().op == Op::Var && e.term().names[0] == name@,
            None => e.term().op != Op::Var,
        },
{
    let p = e.parts();
    if p.op == Op::Var {
        assert(p.names@[0]@ == e.term().names[0]);
        Some(p.names[0].clone())
    } else {
        None
    }
}

impl Interpreter {
    fn adjust(&mut self, op: RcOp, name: &String, rest: Expr)
        ensures
            final(self)@ == adjusted(old(self)@, op, name@, rest.term()),
    {
        match self.lookup(name) {
            Err(e) => self.fail(e),
            Ok(Value::HeapRef(addr)) => match self.heap.refcount(addr) {
                Err(e) => self.fail(EvalError::Heap(e)),
                Ok(n) => {
                    match op {
                        RcOp::Inc => {
                            if n == usize::MAX {
                                self.fail(EvalError::CountOverflow(addr));
                                return ;
                            }
                            let _ = self.heap.inc(addr);
                        },
                        RcOp::Dec => {
                            let _ = self.heap.dec(addr);
                        },
                    }
                    self.evaluate(rest);
                },
            },
            Ok(_) => self.evaluate(rest),
        }
    }

    fn spawn(&mut self, block: Expr)
        ensures
            final(self)@ == spawned(old(self)@, block.term()),
    {
        let env: Vec<(String, PortableValue)> = match detach_scope(&self.heap, &self.env) {
            Ok(env) => env,
            Err(e) => {
                self.fail(e);
                return ;
            },
        };
        let globals: Vec<(String, PortableValue)> = match detach_scope(&self.heap, &self.globals) {
            Ok(globals) => globals,
            Err(e) => {
                self.fail(e);
                return ;
            },
        };
        let functions: Vec<Function> = copy_functions(&self.functions);
        let id: usize = self.tasks.len();
        self.ask(Request::Spawn { task: TaskSeed { env, globals, functions, block }, id });
    }

    fn next_receiver(&mut self, ready: Vec<ReceiverHandle>, kids: Vec<Expr>)
        ensures
            final(self)@ == next_receiver(old(self)@, ready@, terms(kids@)),
    {
        if ready.len() < kids.len() / 2 {
            let e: Expr = kids[2 * ready.len()].clone();
            self.push_frame(Frame::Receivers { ready, kids });
            self.evaluate(e);
        } else {
            self.poll(ready, kids, 0, false);
        }
    }

    fn poll(&mut self, ready: Vec<ReceiverHandle>, kids: Vec<Expr>, at: usize, open: bool)
        ensures
            final(self)@ == polled(old(self)@, ready@, terms(kids@), at as nat, open),
    {
        if at < ready.len() {
            let from: ReceiverHandle = ready[at];
            self.push_frame(Frame::Poll { ready, kids, at, open });
            self.ask(Request::TryRecv { from });
        } else if open {
            self.push_frame(Frame::Poll { ready, kids, at, open });
            self.ask(Request::Sleep);
        } else {
            self.fail(EvalError::SelectClosed);
        }
    }

    /// Starts to evaluate an expression.
    #[verifier::spinoff_prover]
    #[verifier::rlimit(60)]
    fn enter(&mut self, e: Expr)
        ensures
            final(self)@ == entered(old(self)@, e.term()),
    {
        let p: Parts = e.into_parts();
        let ghost t: Term = e.term();
        let op: Op = p.op;
        let names: Vec<String> = p.names;
        let mut kids: Vec<Expr> = p.kids;
        assert(names_of(names@) == t.names && terms(kids@) == t.kids);
        match op {
            Op::Int(n) => self.give(Value::Int(n)),
            Op::Float(b) => self.give(Value::Float(b)),
            Op::Bool(b) => self.give(Value::Bool(b)),
            Op::Unit => self.give(Value::Unit),
            Op::Str => {
                let s: String = names[0].clone();
                self.store_str(s);
            },
            Op::Var => match self.lookup(&names[0]) {
                Ok(v) => self.give(v),
                Err(e) => self.fail(e),
            },
            Op::Binary(BinOp::And) => {
                let rhs: Expr = take_at(&mut kids, 1);
                let lhs: Expr = take_at(&mut kids, 0);
                self.push_frame(Frame::Rhs { and: true, rhs });
                self.evaluate(lhs);
            },
            Op::Binary(BinOp::Or) => {
                let rhs: Expr = take_at(&mut kids, 1);
                let lhs: Expr = take_at(&mut kids, 0);
                self.push_frame(Frame::Rhs { and: false, rhs });
                self.evaluate(lhs);
            },
            Op::Let => {
                let body: Expr = take_at(&mut kids, 1);
                let value: Expr = take_at(&mut kids, 0);
                let name: String = names[0].clone();
                self.push_frame(Frame::LetBody { name, body });
                self.evaluate(value);
            },
            Op::If => {
                let else_branch: Expr = take_at(&mut kids, 2);
                let then_branch: Expr = take_at(&mut kids, 1);
                let cond: Expr = take_at(&mut kids, 0);
                self.push_frame(Frame::Branches { then_branch, else_branch });
                self.evaluate(cond);
            },
            Op::Match => {
                let scrutinee: Expr = take_at(&mut kids, 0);
                self.push_frame(Frame::Arms { arms: p.arms });
                self.evaluate(scrutinee);
            },
            Op::For => {
                let body: Expr = take_at(&mut kids, 2);
                let end: Expr = take_at(&mut kids, 1);
                let start: Expr = take_at(&mut kids, 0);
                let var: String = names[0].clone();
                self.push_frame(Frame::LoopStart { var, end, body });
                self.evaluate(start);
            },
            Op::Assign => {
                let rest: Expr = take_at(&mut kids, 1);
                let value: Expr = take_at(&mut kids, 0);
                let name: String = names[0].clone();
                self.push_frame(Frame::AssignRest { name, rest });
                self.evaluate(value);
            },
            Op::Closure(_) => {
                let body: Expr = take_at(&mut kids, 0);
                self.capture(names, body);
            },
            Op::RcAnnotated(op) => {
                let rest: Expr = take_at(&mut kids, 0);
                self.adjust(op, &names[0], rest);
            },
            Op::Spawn => {
                let block: Expr = take_at(&mut kids, 0);
                self.spawn(block);
            },
            Op::Channel => {
                let tag: String = names[0].clone();
                self.ask(Request::Channel { tag });
            },
            Op::Select => {
                let ready: Vec<ReceiverHandle> = Vec::new();
                self.next_receiver(ready, kids);
            },
            Op::Call => self.enter_callee(names, kids),
            Op::EmptyArray(_) | Op::AsCStr | Op::AsString | Op::ToIntTrunc | Op::ToIntRound
            | Op::ToFloat | Op::ExternCall | Op::ReadFileRaw | Op::WriteFileRaw | Op::EnvVarRaw
            | Op::ArgsRaw | Op::RandomRaw | Op::PanicRaw | Op::StrHash => {
                self.fail(EvalError::Unsupported(op));
            },
            _ => {
                let mut done: Vec<Value> = Vec::new();
                if is_in_place(op) {
                    match self.lookup(&names[0]) {
                        Ok(Value::HeapRef(addr)) => {
                            done.push(Value::HeapRef(addr));
                            assert(vals(done@) =~= seq![Val::HeapRef(addr)]);
                            self.next_operand(op, names, done, kids);
                        },
                        Ok(_) => {
                            let name: String = names[0].clone();
                            self.fail(EvalError::ReuseTarget(name));
                        },
                        Err(e) => self.fail(e),
                    }
                } else {
                    assert(vals(done@) =~= Seq::empty());
                    self.next_operand(op, names, done, kids);
                }
            },
        }
    }

    /// Makes a closure.
    fn capture(&mut self, params: Vec<String>, body: Expr)
        ensures
            final(self)@ == (Machine {
                closures: old(self)@.closures.push(
                    super::state::ClosureTerm {
                        params: names_of(params@),
                        body: body.term(),
                        captured: old(self)@.env,
                    },
                ),
                ..old(self)@
            }).give(Val::Closure(old(self)@.closures.len() as usize)),
    {
        let ghost before: Seq<ClosureValue> = self.closures@;
        let captured: Vec<(String, Value)> = copy_scope(&self.env);
        let id: usize = self.closures.len();
        let c: ClosureValue = ClosureValue { params, body, captured };
        self.closures.push(c);
        assert(closure_terms(self.closures@) =~= closure_terms(before).push(c@));
        self.give(Value::Closure(id));
    }

    /// Starts a call. A function that no binding hides is called by its name.
    fn enter_callee(&mut self, names: Vec<String>, kids: Vec<Expr>)
        requires
            kids@.len() >= 1,
        ensures
            forall|t: Term| #![trigger entered(old(self)@, t)]
                t.op == Op::Call && t.names == names_of(names@) && t.kids == terms(kids@)
                    ==> final(self)@ == entered(old(self)@, t),
    {
        let mut kids: Vec<Expr> = kids;
        let ghost all: Seq<Expr> = kids@;
        let mut done: Vec<Value> = Vec::new();
        assert(vals(done@) =~= Seq::empty());
        assert(terms(all)[0] == all[0].term());
        if let Some(name) = as_var(&kids[0]) {
            if find_in(&self.env, &name).is_none() && find_in(&self.globals, &name).is_none()
                && find_function_in(&self.functions, &name).is_some() {
                let _ = kids.remove(0);
                assert(terms(kids@) =~= terms(all).subrange(1, all.len() as int));
                done.push(Value::Function(name));
                assert(vals(done@) =~= seq![Val::Function(name@)]);
                self.next_operand(Op::Call, names, done, kids);
                return ;
            }
        }
        self.next_operand(Op::Call, names, done, kids);
    }

    /// Runs the first arm whose tag matches, once its guard holds.
    fn choose_arm(&mut self, tag: String, fields: Vec<Value>, arms: Vec<MatchArm>)
        ensures
            final(self)@ == chosen(old(self)@, tag@, vals(fields@), arm_terms(arms@)),
        decreases arms@.len(),
    {
        let mut rest: Vec<MatchArm> = arms;
        if rest.len() == 0 {
            self.fail(EvalError::NoArm(tag));
            return ;
        }
        let arm: MatchArm = rest.remove(0);
        assert(arm_terms(rest@) =~= arm_terms(arms@).subrange(1, arms@.len() as int));
        assert(arm_terms(arms@)[0] == arm_term(arm));
        if arm.tag != tag {
            self.choose_arm(tag, fields, rest);
            return ;
        }
        let expected: usize = arm.bindings.len();
        let bound: usize = fields.len();
        if expected != bound {
            self.fail(EvalError::ArmArity { tag, expected, found: bound });
            return ;
        }
        bind_all(&mut self.env, &arm.bindings, &fields);
        match arm.guard {
            Some(g) => {
                self.push_frame(Frame::Guard { tag, fields, bound, body: arm.body, rest });
                self.evaluate(*g);
            },
            None => {
                self.push_frame(Frame::Unbind { count: bound });
                self.evaluate(arm.body);
            },
        }
    }

    fn go_round(&mut self, var: String, i: i64, end: i64, body: Expr)
        ensures
            final(self)@ == looped(old(self)@, var@, i, end, body.term()),
    {
        if i < end {
            self.bind(var.clone(), Value::Int(i));
            let again: Expr = body.clone();
            self.push_frame(Frame::LoopNext { var, next: i + 1, end, body });
            self.evaluate(again);
        } else {
            self.give(Value::Unit);
        }
    }

    pub(crate) fn load_globals(&mut self, rest: Vec<Global>)
        ensures
            final(self)@ == loaded(old(self)@, global_terms(rest@)),
    {
        let mut rest: Vec<Global> = rest;
        let ghost all: Seq<Global> = rest@;
        if rest.len() == 0 {
            self.give(Value::Unit);
        } else {
            let first: Global = rest.remove(0);
            assert(global_terms(rest@) =~= global_terms(all).subrange(1, all.len() as int));
            assert(global_terms(all)[0] == first.term());
            self.push_frame(Frame::Globals { name: first.name, rest });
            self.evaluate(first.value);
        }
    }

    fn set_global(&mut self, name: String, v: Value)
        ensures
            final(self)@ == (Machine {
                globals: with_global(old(self)@.globals, name@, v@),
                ..old(self)@
            }),
    {
        let ghost before: Seq<(String, Value)> = self.globals@;
        match find_in(&self.globals, &name) {
            Some(i) => {
                self.globals.set(i, (name, v));
                assert(scope(self.globals@) =~= scope(before).update(i as int, (name@, v@)));
            },
            None => {
                self.globals.push((name, v));
                assert(scope(self.globals@) =~= scope(before).push((name@, v@)));
            },
        }
    }

    /// Hands a value to a frame that has been taken off the stack.
    #[verifier::spinoff_prover]
    #[verifier::rlimit(60)]
    fn hand(&mut self, f: Frame, v: Value)
        ensures
            final(self)@ == given(old(self)@, f@, v@),
    {
        match f {
            Frame::Operands { op, names, done, todo } => self.take_operand(
                op,
                names,
                done,
                todo,
                v,
            ),
            Frame::Rhs { and, rhs } => match v {
                Value::Bool(b) => if b == and {
                    self.push_frame(Frame::RhsCheck { and });
                    self.evaluate(rhs);
                } else {
                    self.give(Value::Bool(b));
                },
                v => self.fail(not_bool_error(and, v)),
            },
            Frame::RhsCheck { and } => match v {
                Value::Bool(b) => self.give(Value::Bool(b)),
                v => self.fail(not_bool_error(and, v)),
            },
            Frame::LetBody { name, body } => {
                self.bind(name, v);
                self.push_frame(Frame::Unbind { count: 1 });
                self.evaluate(body);
            },
            Frame::Branches { then_branch, else_branch } => match v {
                Value::Bool(b) => if b {
                    self.evaluate(then_branch);
                } else {
                    self.evaluate(else_branch);
                },
                v => self.fail(EvalError::Condition(v)),
            },
            Frame::Arms { arms } => match v {
                Value::HeapRef(addr) => match self.heap.read(addr) {
                    Ok((tag, fields)) => {
                        let tag: String = tag.to_owned();
                        let fields: Vec<Value> = super::value::copy_values(fields);
                        self.choose_arm(tag, fields, arms);
                    },
                    Err(e) => self.fail(EvalError::Heap(e)),
                },
                _ => self.fail(EvalError::Scrutinee),
            },
            Frame::Guard { tag, fields, bound, body, rest } => match v {
                Value::Bool(b) => if b {
                    self.push_frame(Frame::Unbind { count: bound });
                    self.evaluate(body);
                } else {
                    self.unbind(bound);
                    self.choose_arm(tag, fields, rest);
                },
                v => {
                    self.unbind(bound);
                    self.fail(EvalError::Guard(v));
                },
            },
            Frame::Unbind { count } => {
                self.unbind(count);
                self.give(v);
            },
            Frame::LoopStart { var, end, body } => match v {
                Value::Int(start) => {
                    self.push_frame(Frame::LoopEnd { var, start, body });
                    self.evaluate(end);
                },
                _ => self.fail(EvalError::LoopStart),
            },
            Frame::LoopEnd { var, start, body } => match v {
                Value::Int(end) => self.go_round(var, start, end, body),
                _ => self.fail(EvalError::LoopEnd),
            },
            Frame::LoopNext { var, next, end, body } => {
                self.unbind(1);
                self.go_round(var, next, end, body);
            },
            Frame::AssignRest { name, rest } => {
                let ghost before: Seq<(String, Value)> = self.env@;
                match find_in(&self.env, &name) {
                    Some(i) => {
                        self.env.set(i, (name, v));
                        assert(scope(self.env@) =~= scope(before).update(i as int, (name@, v@)));
                        self.evaluate(rest);
                    },
                    None => self.fail(EvalError::UndefinedAssign(name)),
                }
            },
            Frame::Receivers { ready, kids } => match v {
                Value::Receiver(r) => {
                    let mut ready: Vec<ReceiverHandle> = ready;
                    ready.push(r);
                    self.next_receiver(ready, kids);
                },
                _ => self.fail(EvalError::SelectOperand),
            },
            Frame::Poll { .. } => self.fail(EvalError::UnexpectedEvent),
            Frame::Restore { env } => {
                self.env = env;
                self.give(v);
            },
            Frame::Globals { name, rest } => {
                self.set_global(name, v);
                self.load_globals(rest);
            },
        }
    }

    /// Leaves a frame because of an error.
    fn leave(&mut self, f: Frame)
        ensures
            final(self)@ == left(old(self)@, f@),
    {
        match f {
            Frame::Unbind { count } => self.unbind(count),
            Frame::Guard { bound, .. } => self.unbind(bound),
            Frame::LoopNext { .. } => self.unbind(1),
            Frame::Restore { env } => {
                self.env = env;
            },
            _ => {},
        }
    }

    fn pop_frame(&mut self) -> (r: Option<Frame>)
        ensures
            match r {
                Some(f) => old(self)@.stack.len() > 0 && f@ == old(self)@.stack.last()
                    && final(self)@ == old(self)@.pop(),
                None => old(self)@.stack.len() == 0 && final(self)@ == old(self)@,
            },
    {
        let ghost before: Seq<Frame> = self.stack@;
        let r: Option<Frame> = self.stack.pop();
        proof {
            if before.len() > 0 {
                assert(frame_terms(self.stack@) =~= frame_terms(before).drop_last());
                assert(frame_terms(before).last() == before.last()@);
            }
        }
        r
    }

    /// Takes out what the machine is doing.
    fn take_control(&mut self) -> (r: Control)
        ensures
            r@ == old(self)@.control,
            final(self)@ == old(self)@.idle(),
    {
        let mut c: Control = Control::Return(Value::Unit);
        std::mem::swap(&mut c, &mut self.control);
        c
    }

    /// Takes one step.
    pub fn step(&mut self)
        ensures
            final(self)@ == step(old(self)@),
    {
        match self.take_control() {
            Control::Eval(e) => self.enter(e),
            Control::Return(v) => {
                match self.pop_frame() {
                    Some(f) => self.hand(f, v),
                    None => self.give(v),
                }
            },
            Control::Failed(e) => {
                match self.pop_frame() {
                    Some(f) => {
                        self.fail(e);
                        self.leave(f);
                    },
                    None => self.fail(e),
                }
            },
            Control::Waiting(r) => self.ask(r),
        }
    }

    /// Stores a value that came from another heap, and gives it.
    fn place(&mut self, p: PortableValue)
        ensures
            final(self)@ == old(self)@.place(p@),
    {
        let v: Value = from_portable(&mut self.heap, p);
        self.give(v);
    }

    fn answer_float(&mut self, op: FloatOp, r: Reply)
        ensures
            final(self)@ == float_answered(old(self)@, op, r@),
    {
        match (op, r) {
            (FloatOp::Neg, Reply::Float(b)) => self.give(Value::Float(b)),
            (FloatOp::Show, Reply::Text(s)) => self.store_str(s),
            (FloatOp::Binary(o), Reply::Float(b)) => match o {
                BinOp::Add | BinOp::Sub | BinOp::Mul | BinOp::Div | BinOp::Rem => {
                    self.give(Value::Float(b))
                },
                _ => self.fail(EvalError::UnexpectedEvent),
            },
            (FloatOp::Binary(o), Reply::Bool(b)) => match o {
                BinOp::Eq | BinOp::Ne | BinOp::Lt | BinOp::Gt | BinOp::Le | BinOp::Ge => {
                    self.give(Value::Bool(b))
                },
                _ => self.fail(EvalError::UnexpectedEvent),
            },
            (FloatOp::Binary(o), Reply::NoOrdering) => match o {
                BinOp::Lt | BinOp::Gt | BinOp::Le | BinOp::Ge => self.fail(EvalError::NoOrdering),
                _ => self.fail(EvalError::UnexpectedEvent),
            },
            _ => self.fail(EvalError::UnexpectedEvent),
        }
    }

    fn answer_poll(
        &mut self,
        ready: Vec<ReceiverHandle>,
        kids: Vec<Expr>,
        at: usize,
        open: bool,
        r: Reply,
    )
        requires
            at < ready@.len(),
            at < kids@.len() / 2,
        ensures
            final(self)@ == poll_answered(
                old(self)@,
                ready@,
                terms(kids@),
                at as nat,
                open,
                r@,
            ),
    {
        let count: usize = ready.len();
        let pairs: usize = kids.len() / 2;
        assert(at < count && at < pairs);
        let next: usize = at + 1;
        match r {
            Reply::Received(p) => {
                let v: Value = from_portable(&mut self.heap, p);
                self.bind("__select_recv".to_owned(), v);
                self.push_frame(Frame::Unbind { count: 1 });
                let body: Expr = kids[2 * at + 1].clone();
                self.evaluate(body);
            },
            Reply::Empty => self.poll(ready, kids, next, true),
            Reply::Disconnected => self.poll(ready, kids, next, open),
            Reply::Poisoned => self.fail(EvalError::LockPoisoned),
            _ => self.fail(EvalError::UnexpectedEvent),
        }
    }

    /// Goes on with the answer to a request.
    #[verifier::spinoff_prover]
    fn answer(&mut self, q: Request, r: Reply)
        ensures
            final(self)@ == answered(old(self)@, q@, r@),
    {
        match (q, r) {
            (Request::Float { op, .. }, r) => self.answer_float(op, r),
            (Request::Spawn { id, .. }, Reply::Spawned) => {
                self.tasks.push(false);
                self.give(Value::Task(TaskHandle { id }));
            },
            (Request::Join { .. }, Reply::Joined(p)) => self.place(p),
            (Request::Join { .. }, Reply::TaskFailed(s)) => self.fail(EvalError::TaskFailed(s)),
            (Request::Join { .. }, Reply::TaskPanicked) => self.fail(EvalError::TaskPanicked),
            (Request::Channel { tag }, Reply::Channel(s, d)) => {
                let mut ends: Vec<Value> = Vec::new();
                ends.push(Value::Sender(s));
                ends.push(Value::Receiver(d));
                assert(vals(ends@) =~= seq![Val::Sender(s), Val::Receiver(d)]);
                self.store_ctor(tag, ends);
            },
            (Request::Send { .. }, Reply::Sent) => self.give(Value::Unit),
            (Request::Send { .. }, Reply::ReceiverDropped) => {
                self.fail(EvalError::ReceiverDropped)
            },
            (Request::Recv { .. }, Reply::Received(p)) => self.place(p),
            (Request::Recv { .. }, Reply::Disconnected) => self.fail(EvalError::SenderDropped),
            (Request::Recv { .. }, Reply::Poisoned) => self.fail(EvalError::LockPoisoned),
            (Request::TryRecv { .. }, r) => match self.pop_frame() {
                Some(Frame::Poll { ready, kids, at, open }) => if at < ready.len() && at
                    < kids.len() / 2 {
                    self.answer_poll(ready, kids, at, open, r);
                } else {
                    self.push_frame(Frame::Poll { ready, kids, at, open });
                    assert(self@.stack =~= old(self)@.stack);
                    self.fail(EvalError::UnexpectedEvent);
                },
                Some(f) => {
                    self.push_frame(f);
                    assert(self@.stack =~= old(self)@.stack);
                    self.fail(EvalError::UnexpectedEvent);
                },
                None => self.fail(EvalError::UnexpectedEvent),
            },
            (Request::Sleep, r) => match (self.pop_frame(), r) {
                (Some(Frame::Poll { ready, kids, .. }), Reply::Slept) => {
                    self.poll(ready, kids, 0, false)
                },
                (Some(f), _) => {
                    self.push_frame(f);
                    assert(self@.stack =~= old(self)@.stack);
                    self.fail(EvalError::UnexpectedEvent);
                },
                (None, _) => self.fail(EvalError::UnexpectedEvent),
            },
            _ => self.fail(EvalError::UnexpectedEvent),
        }
    }

    /// Goes on with the reply to a request. A machine that does not wait stays as it is.
    pub fn resume(&mut self, r: Reply)
        ensures
            final(self)@ == resumed(old(self)@, r@),
    {
        match self.take_control() {
            Control::Waiting(q) => self.answer(q, r),
            c => {
                self.control = c;
            },
        }
    }

    fn is_settled(&self) -> (r: bool)
        ensures
            r == settled(self@),
    {
        match &self.control {
            Control::Eval(_) => false,
            Control::Waiting(_) => true,
            _ => self.stack.len() == 0,
        }
    }

    /// Takes up to `steps` steps, until the machine is done or waits.
    pub fn run(&mut self, steps: u64)
        ensures
            final(self)@ == run(old(self)@, steps as nat),
    {
        let mut remaining: u64 = steps;
        while remaining > 0 && !self.is_settled()
            invariant
                run(self@, remaining as nat) == run(old(self)@, steps as nat),
            decreases remaining,
        {
            self.step();
            remaining -= 1;
        }
        proof {
            if remaining > 0 {
                settled_stays(self@, remaining as nat);
            }
        }
    }
}

/// A machine that is done, or waits, takes no steps.
pub proof fn settled_stays(m: Machine, n: nat)
    requires
        settled(m),
    ensures
        run(m, n) == m,
    decreases n,
{
    if n > 0 {
        settled_stays(m, (n - 1) as nat);
    }
}

} // verus!
