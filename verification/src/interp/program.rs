//! Running expressions, calls and programs.

use vstd::prelude::*;
use crate::ir::{Expr, Function, Global, Program};
use super::error::{EvalError, Fault};
use super::heap::{cell_at, Heap};
use super::portable::{detached, to_portable};
use super::semantics::{
    blank, run, started, started_call, started_load, task_machine, Progress,
};
use super::state::{function_terms, Control, ControlTerm, Interpreter, Machine, Request, TaskSeed};
use super::step::{copy_functions, copy_globals, place_scope};
use super::value::{vals, Portable, PortableValue, Val, Value};

verus! {

/// How far an evaluation has come.
#[derive(Debug, PartialEq)]
pub enum Outcome {
    /// It has a value.
    Done(Value),
    /// It failed.
    Failed(EvalError),
    /// It waits for its host.
    Waiting,
    /// It has more steps to take.
    Running,
}

impl Outcome {
    pub open spec fn view(self) -> Progress {
        match self {
            Outcome::Done(v) => Progress::Done(v@),
            Outcome::Failed(e) => Progress::Failed(e@),
            Outcome::Waiting => Progress::Waiting,
            Outcome::Running => Progress::Running,
        }
    }
}

impl Interpreter {
    /// An interpreter with nothing in it.
    pub fn new() -> (r: Self)
        ensures
            r@ == blank(),
    {
        let r: Interpreter = Interpreter {
            env: Vec::new(),
            heap: Heap::new(),
            functions: Vec::new(),
            closures: Vec::new(),
            globals: Vec::new(),
            refs: Vec::new(),
            tasks: Vec::new(),
            stack: Vec::new(),
            control: Control::Return(Value::Unit),
        };
        assert(r@ =~= blank());
        r
    }

    /// An interpreter that is about to run a task.
    pub fn for_task(task: &TaskSeed) -> (r: Self)
        ensures
            r@ == task_machine(task@),
    {
        let mut r: Interpreter = Interpreter::new();
        r.globals = place_scope(&mut r.heap, &task.globals);
        r.env = place_scope(&mut r.heap, &task.env);
        r.functions = copy_functions(&task.functions);
        r.control = Control::Eval(task.block.clone());
        r
    }

    /// How far the evaluation has come.
    pub fn outcome(&self) -> (r: Outcome)
        ensures
            r@ == self@.progress(),
    {
        match &self.control {
            Control::Eval(_) => Outcome::Running,
            Control::Waiting(_) => Outcome::Waiting,
            Control::Return(v) => if self.stack.len() == 0 {
                Outcome::Done(v.clone())
            } else {
                Outcome::Running
            },
            Control::Failed(e) => if self.stack.len() == 0 {
                Outcome::Failed(e.clone())
            } else {
                Outcome::Running
            },
        }
    }

    /// What the evaluation waits for.
    pub fn request(&self) -> (r: Option<&Request>)
        ensures
            match r {
                Some(q) => self@.control == ControlTerm::Waiting(q@),
                None => !(self@.control is Waiting),
            },
    {
        match &self.control {
            Control::Waiting(q) => Some(q),
            _ => None,
        }
    }

    /// The result of a task, with everything that it reaches.
    pub fn task_result(&self) -> (r: Option<Result<PortableValue, EvalError>>)
        ensures
            match r {
                Some(Ok(p)) => self@.progress() matches Progress::Done(v) && detached(
                    self@.heap,
                    v,
                    self@.heap.len(),
                ) == Ok::<Portable, Fault>(p@),
                Some(Err(e)) => match self@.progress() {
                    Progress::Done(v) => detached(self@.heap, v, self@.heap.len()) == Err::<
                        Portable,
                        Fault,
                    >(e@),
                    Progress::Failed(f) => f == e@,
                    _ => false,
                },
                None => self@.progress() is Waiting || self@.progress() is Running,
            },
    {
        match self.outcome() {
            Outcome::Done(v) => Some(to_portable(&self.heap, &v)),
            Outcome::Failed(e) => Some(Err(e)),
            _ => None,
        }
    }

    /// Evaluates an expression, until it is done or the host is needed.
    pub fn eval(&mut self, expr: &Expr) -> (r: Outcome)
        ensures
            final(self)@ == run(started(old(self)@, expr.term()), u64::MAX as nat),
            r@ == final(self)@.progress(),
    {
        self.stack = Vec::new();
        self.control = Control::Eval(expr.clone());
        assert(self@ =~= started(old(self)@, expr.term()));
        self.run(u64::MAX);
        self.outcome()
    }

    /// Calls a function, until it is done or the host is needed.
    pub fn call(&mut self, name: &str, args: Vec<Value>) -> (r: Outcome)
        ensures
            final(self)@ == run(started_call(old(self)@, name@, vals(args@)), u64::MAX as nat),
            r@ == final(self)@.progress(),
    {
        self.stack = Vec::new();
        assert(self@ =~= Machine { stack: Seq::empty(), ..old(self)@ });
        self.call_function(name.to_owned(), args);
        self.run(u64::MAX);
        self.outcome()
    }

    /// Registers the functions of a program, then evaluates its globals in order, until they
    /// are all there or the host is needed.
    pub fn load_program(&mut self, program: &Program) -> (r: Outcome)
        ensures
            final(self)@ == run(started_load(old(self)@, program.term()), u64::MAX as nat),
            r@ == final(self)@.progress(),
    {
        self.stack = Vec::new();
        let ghost before: Seq<Function> = self.functions@;
        let mut functions: Vec<Function> = copy_functions(&program.functions);
        let ghost added: Seq<Function> = functions@;
        self.functions.append(&mut functions);
        assert(function_terms(self.functions@) =~= function_terms(before) + function_terms(added));
        assert(self@ =~= Machine {
            functions: old(self)@.functions + program.term().functions,
            stack: Seq::empty(),
            ..old(self)@
        });
        let globals: Vec<Global> = copy_globals(&program.globals);
        self.load_globals(globals);
        self.run(u64::MAX);
        self.outcome()
    }

    /// How many cells have been allocated. Reuse allocates none.
    pub fn alloc_count(&self) -> (r: usize)
        ensures
            r == self@.heap.len(),
    {
        self.heap.alloc_count()
    }

    /// The number of references to a heap value.
    pub fn refcount(&self, value: &Value) -> (r: Result<usize, EvalError>)
        ensures
            match value@ {
                Val::HeapRef(addr) => match cell_at(self@.heap, addr) {
                    Ok(c) => r matches Ok(n) && n == c.refcount,
                    Err(e) => r matches Err(f) && f@ == Fault::Heap(e),
                },
                v => r matches Err(f) && f@ == Fault::NotHeapValue(v),
            },
    {
        match value {
            Value::HeapRef(addr) => match self.heap.refcount(*addr) {
                Ok(n) => Ok(n),
                Err(e) => Err(EvalError::Heap(e)),
            },
            other => Err(EvalError::NotHeapValue(other.clone())),
        }
    }
}

impl Default for Interpreter {
    fn default() -> (r: Self)
        ensures
            r@ == blank(),
    {
        Interpreter::new()
    }
}

} // verus!
