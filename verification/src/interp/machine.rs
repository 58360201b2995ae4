//! The parts of a step: names, memory and arithmetic.

use vstd::prelude::*;
use crate::ir::{names_of, BinOp, Expr, Function, FunctionTerm, Op, UnOp};
use super::error::{EvalError, Fault};
use super::heap::{CellView, Contents, Heap};
use super::semantics::{
    arith, binary, equal, find, find_function, is_arith, is_order, lookup, ordered, unary, zipped,
};
use super::state::{
    frame_terms, function_terms, scope, Control, FloatOp, Frame, Interpreter, Request, Scope,
};
use super::value::{vals, Val, Value};

verus! {

/// Where a name is bound innermost.
pub fn find_in(s: &Vec<(String, Value)>, name: &String) -> (r: Option<usize>)
    ensures
        match r {
            Some(i) => find(scope(s@), name@) == Some(i as int) && i < s@.len(),
            None => find(scope(s@), name@) is None,
        },
{
    let mut i: usize = s.len();
    assert(scope(s@).take(i as int) =~= scope(s@));
    while i > 0
        invariant
            i <= s@.len(),
            find(scope(s@).take(i as int), name@) == find(scope(s@), name@),
        decreases i,
    {
        let ghost head: Scope = scope(s@).take(i as int);
        assert(head.last() == scope(s@)[i - 1]);
        assert(head.drop_last() =~= scope(s@).take(i - 1));
        i -= 1;
        if s[i].0 == *name {
            return Some(i);
        }
    }
    None
}

/// Where the latest function of a name stands.
pub(crate) fn find_function_in(s: &Vec<Function>, name: &String) -> (r: Option<usize>)
    ensures
        match r {
            Some(i) => i < s@.len() && find_function(function_terms(s@), name@) == Some(
                s@[i as int].term(),
            ),
            None => find_function(function_terms(s@), name@) is None,
        },
{
    let mut i: usize = s.len();
    assert(function_terms(s@).take(i as int) =~= function_terms(s@));
    while i > 0
        invariant
            i <= s@.len(),
            find_function(function_terms(s@).take(i as int), name@) == find_function(
                function_terms(s@),
                name@,
            ),
        decreases i,
    {
        let ghost head: Seq<FunctionTerm> = function_terms(s@).take(i as int);
        assert(head.last() == function_terms(s@)[i - 1]);
        assert(head.drop_last() =~= function_terms(s@).take(i - 1));
        i -= 1;
        if s[i].name == *name {
            return Some(i);
        }
    }
    None
}

/// Copies bindings.
pub(crate) fn copy_scope(s: &Vec<(String, Value)>) -> (r: Vec<(String, Value)>)
    ensures
        scope(r@) == scope(s@),
{
    let mut r: Vec<(String, Value)> = Vec::new();
    let mut i: usize = 0;
    while i < s.len()
        invariant
            i <= s@.len(),
            r@.len() == i,
            forall|j: int| 0 <= j < i ==> (#[trigger] r@[j]).0@ == s@[j].0@ && r@[j].1@ == s@[j].1@,
        decreases s@.len() - i,
    {
        r.push((s[i].0.clone(), s[i].1.clone()));
        i += 1;
    }
    assert(scope(r@) =~= scope(s@));
    r
}

/// Adds names with values to bindings.
pub(crate) fn bind_all(env: &mut Vec<(String, Value)>, names: &Vec<String>, vs: &Vec<Value>)
    requires
        names@.len() == vs@.len(),
    ensures
        scope(final(env)@) == scope(old(env)@) + zipped(names_of(names@), vals(vs@)),
{
    let ghost before: Seq<(String, Value)> = env@;
    let mut i: usize = 0;
    while i < names.len()
        invariant
            i <= names@.len(),
            names@.len() == vs@.len(),
            env@.len() == before.len() + i,
            forall|j: int| 0 <= j < before.len() ==> #[trigger] env@[j] == before[j],
            forall|j: int|
                0 <= j < i ==> (#[trigger] env@[before.len() + j]).0@ == names@[j]@
                    && env@[before.len() + j].1@ == vs@[j]@,
        decreases names@.len() - i,
    {
        env.push((names[i].clone(), vs[i].clone()));
        i += 1;
    }
    proof {
        let all = scope(before) + zipped(names_of(names@), vals(vs@));
        assert forall|j: int| 0 <= j < all.len() implies scope(env@)[j] == #[trigger] all[j] by {
            if j >= before.len() {
                let k = j - before.len();
                assert(env@[before.len() + k].0@ == names@[k]@);
            }
        }
        assert(scope(env@) =~= all);
    }
}

impl Interpreter {
    pub(crate) fn give(&mut self, v: Value)
        ensures
            final(self)@ == old(self)@.give(v@),
    {
        self.control = Control::Return(v);
    }

    pub(crate) fn fail(&mut self, e: EvalError)
        ensures
            final(self)@ == old(self)@.fail(e@),
    {
        self.control = Control::Failed(e);
    }

    pub(crate) fn ask(&mut self, r: Request)
        ensures
            final(self)@ == old(self)@.ask(r@),
    {
        self.control = Control::Waiting(r);
    }

    pub(crate) fn evaluate(&mut self, e: Expr)
        ensures
            final(self)@ == old(self)@.evaluate(e.term()),
    {
        self.control = Control::Eval(e);
    }

    pub(crate) fn push_frame(&mut self, f: Frame)
        ensures
            final(self)@ == old(self)@.push(f@),
    {
        let ghost before: Seq<Frame> = self.stack@;
        self.stack.push(f);
        assert(frame_terms(self.stack@) =~= frame_terms(before).push(f@));
    }

    pub(crate) fn bind(&mut self, name: String, v: Value)
        ensures
            final(self)@ == old(self)@.bind(name@, v@),
    {
        let ghost before: Seq<(String, Value)> = self.env@;
        self.env.push((name, v));
        assert(scope(self.env@) =~= scope(before).push((name@, v@)));
    }

    pub(crate) fn unbind(&mut self, n: usize)
        ensures
            final(self)@ == old(self)@.unbind(n as nat),
    {
        let ghost before: Seq<(String, Value)> = self.env@;
        let len: usize = self.env.len();
        let keep: usize = if n <= len {
            len - n
        } else {
            0
        };
        self.env.truncate(keep);
        assert(scope(self.env@) =~= scope(before).take(keep as int));
        assert(scope(before).take(0) =~= Seq::empty());
    }

    pub(crate) fn store_ctor(&mut self, tag: String, fields: Vec<Value>)
        ensures
            final(self)@ == old(self)@.store(Contents::Ctor(tag@, vals(fields@))),
    {
        let addr: usize = self.heap.alloc_ctor(tag, fields);
        self.give(Value::HeapRef(addr));
    }

    pub(crate) fn store_str(&mut self, s: String)
        ensures
            final(self)@ == old(self)@.store(Contents::Str(s@)),
    {
        let addr: usize = self.heap.alloc_str(s);
        self.give(Value::HeapRef(addr));
    }

    pub(crate) fn store_ctor_over(&mut self, addr: usize, tag: String, fields: Vec<Value>)
        ensures
            final(self)@ == old(self)@.store_over(addr, Contents::Ctor(tag@, vals(fields@))),
    {
        match self.heap.dec_and_maybe_reuse(addr, tag, fields) {
            Ok(a) => self.give(Value::HeapRef(a)),
            Err(e) => self.fail(EvalError::Heap(e)),
        }
    }

    pub(crate) fn store_str_over(&mut self, addr: usize, s: String)
        ensures
            final(self)@ == old(self)@.store_over(addr, Contents::Str(s@)),
    {
        match self.heap.dec_and_maybe_reuse_str(addr, s) {
            Ok(a) => self.give(Value::HeapRef(a)),
            Err(e) => self.fail(EvalError::Heap(e)),
        }
    }

    /// What a name stands for.
    pub fn lookup(&self, name: &String) -> (r: Result<Value, EvalError>)
        ensures
            match r {
                Ok(v) => lookup(self@, name@) == Ok::<Val, Fault>(v@),
                Err(e) => lookup(self@, name@) == Err::<Val, Fault>(e@),
            },
    {
        match find_in(&self.env, name) {
            Some(i) => Ok(self.env[i].1.clone()),
            None => match find_in(&self.globals, name) {
                Some(i) => Ok(self.globals[i].1.clone()),
                None => match find_function_in(&self.functions, name) {
                    Some(_) => Ok(Value::Function(name.clone())),
                    None => Err(EvalError::UnboundVariable(name.clone())),
                },
            },
        }
    }

    pub(crate) fn unary(&mut self, op: UnOp, v: Value)
        ensures
            final(self)@ == unary(old(self)@, op, v@),
    {
        match (op, v) {
            (UnOp::Neg, Value::Int(n)) => if n == i64::MIN {
                self.fail(EvalError::NegOverflow);
            } else {
                self.give(Value::Int(-n));
            },
            (UnOp::Neg, Value::Float(b)) => self.ask(
                Request::Float { op: FloatOp::Neg, a: b, b: 0 },
            ),
            (UnOp::Not, Value::Bool(b)) => self.give(Value::Bool(!b)),
            (op, value) => self.fail(EvalError::UnaryType { op, value }),
        }
    }

    pub(crate) fn binary(&mut self, op: BinOp, a: Value, b: Value)
        ensures
            final(self)@ == binary(old(self)@, op, a@, b@),
    {
        match op {
            BinOp::And | BinOp::Or => {
                self.fail(EvalError::Unsupported(Op::Binary(op)));
                return ;
            },
            _ => {},
        }
        if let (Value::Float(x), Value::Float(y)) = (&a, &b) {
            let r: Request = Request::Float { op: FloatOp::Binary(op), a: *x, b: *y };
            self.ask(r);
            return ;
        }
        match op {
            BinOp::Add | BinOp::Sub | BinOp::Mul | BinOp::Div | BinOp::Rem => {
                if let (Value::Int(x), Value::Int(y)) = (&a, &b) {
                    match eval_arith(op, *x, *y) {
                        Ok(n) => self.give(Value::Int(n)),
                        Err(e) => self.fail(e),
                    }
                } else {
                    self.fail(EvalError::ArithType { op, lhs: a, rhs: b });
                }
            },
            BinOp::Lt | BinOp::Gt | BinOp::Le | BinOp::Ge => {
                if let (Value::Int(x), Value::Int(y)) = (&a, &b) {
                    let r: bool = eval_order(op, *x, *y);
                    self.give(Value::Bool(r));
                } else {
                    self.fail(EvalError::OrderType { lhs: a, rhs: b });
                }
            },
            _ => match values_equal(&a, &b, &self.heap) {
                Ok(r) => self.give(Value::Bool(r == (op == BinOp::Eq))),
                Err(e) => self.fail(e),
            },
        }
    }
}

/// Integer arithmetic that reports overflow and division by zero.
pub fn eval_arith(op: BinOp, a: i64, b: i64) -> (r: Result<i64, EvalError>)
    requires
        is_arith(op),
    ensures
        match r {
            Ok(n) => arith(op, a, b) == Ok::<i64, Fault>(n),
            Err(e) => arith(op, a, b) == Err::<i64, Fault>(e@),
        },
{
    let n: Option<i64> = match op {
        BinOp::Add => a.checked_add(b),
        BinOp::Sub => a.checked_sub(b),
        BinOp::Mul => a.checked_mul(b),
        BinOp::Div => {
            if b == 0 {
                return Err(EvalError::DivisionByZero);
            }
            a.checked_div(b)
        },
        _ => {
            if b == 0 {
                return Err(EvalError::DivisionByZero);
            }
            a.checked_rem(b)
        },
    };
    match n {
        Some(n) => Ok(n),
        None => Err(EvalError::Overflow),
    }
}

/// The order of two integers.
pub fn eval_order(op: BinOp, a: i64, b: i64) -> (r: bool)
    requires
        is_order(op),
    ensures
        r == ordered(op, a, b),
{
    match op {
        BinOp::Lt => a < b,
        BinOp::Gt => a > b,
        BinOp::Le => a <= b,
        _ => a >= b,
    }
}

/// Whether two values that are not both floats are equal. Strings are compared by what they hold,
/// reference cells by identity.
pub fn values_equal(a: &Value, b: &Value, heap: &Heap) -> (r: Result<bool, EvalError>)
    requires
        !(a@ is Float && b@ is Float),
    ensures
        match r {
            Ok(v) => equal(heap@, a@, b@) == Ok::<bool, Fault>(v),
            Err(e) => equal(heap@, a@, b@) == Err::<bool, Fault>(e@),
        },
{
    match (a, b) {
        (Value::Int(x), Value::Int(y)) => Ok(*x == *y),
        (Value::Bool(x), Value::Bool(y)) => Ok(*x == *y),
        (Value::Unit, Value::Unit) => Ok(true),
        (Value::HeapRef(x), Value::HeapRef(y)) => match heap.read_any(*x) {
            Err(e) => Err(EvalError::Heap(e)),
            Ok(c) => match heap.read_any(*y) {
                Err(e) => Err(EvalError::Heap(e)),
                Ok(d) => match (c, d) {
                    (CellView::Str(s), CellView::Str(t)) => Ok(same_text(s, t)),
                    _ => Err(EvalError::EqualityType { lhs: a.clone(), rhs: b.clone() }),
                },
            },
        },
        (Value::Ref(x), Value::Ref(y)) => Ok(*x == *y),
        _ => Err(EvalError::EqualityType { lhs: a.clone(), rhs: b.clone() }),
    }
}

fn same_text(s: &str, t: &str) -> (r: bool)
    ensures
        r == (s@ == t@),
{
    s.to_owned() == t.to_owned()
}

} // verus!
