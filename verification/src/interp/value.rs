//! Run-time values.

use vstd::prelude::*;
use crate::ir::Name;

verus! {

/// A reference cell, by number. Two handles are equal when they name the same cell.
#[derive(Debug, Clone, Copy, PartialEq, Eq, Structural)]
pub struct RefHandle {
    pub id: usize,
}

/// The sending end of a channel, by number.
#[derive(Debug, Clone, Copy, PartialEq, Eq, Structural)]
pub struct SenderHandle {
    pub id: usize,
}

/// The receiving end of a channel, by number.
#[derive(Debug, Clone, Copy, PartialEq, Eq, Structural)]
pub struct ReceiverHandle {
    pub id: usize,
}

/// A spawned task, by number.
#[derive(Debug, Clone, Copy, PartialEq, Eq, Structural)]
pub struct TaskHandle {
    pub id: usize,
}

/// A value. Strings, arrays and constructed values live on the heap.
#[derive(Debug, PartialEq)]
pub enum Value {
    Int(i64),
    /// A floating-point number, held as its IEEE 754 bit pattern.
    Float(u64),
    Bool(bool),
    Unit,
    /// An address on the heap.
    HeapRef(usize),
    /// A closure, by number.
    Closure(usize),
    /// A top-level function, by name.
    Function(String),
    Task(TaskHandle),
    Sender(SenderHandle),
    Receiver(ReceiverHandle),
    Ref(RefHandle),
}

/// The model of a value.
pub enum Val {
    Int(i64),
    Float(u64),
    Bool(bool),
    Unit,
    HeapRef(usize),
    Closure(usize),
    Function(Name),
    Task(TaskHandle),
    Sender(SenderHandle),
    Receiver(ReceiverHandle),
    Ref(RefHandle),
}

impl Value {
    pub open spec fn view(self) -> Val {
        match self {
            Value::Int(n) => Val::Int(n),
            Value::Float(b) => Val::Float(b),
            Value::Bool(b) => Val::Bool(b),
            Value::Unit => Val::Unit,
            Value::HeapRef(a) => Val::HeapRef(a),
            Value::Closure(c) => Val::Closure(c),
            Value::Function(f) => Val::Function(f@),
            Value::Task(h) => Val::Task(h),
            Value::Sender(h) => Val::Sender(h),
            Value::Receiver(h) => Val::Receiver(h),
            Value::Ref(h) => Val::Ref(h),
        }
    }
}

impl Clone for Value {
    fn clone(&self) -> (r: Self)
        ensures
            r@ == self@,
    {
        match self {
            Value::Int(n) => Value::Int(*n),
            Value::Float(b) => Value::Float(*b),
            Value::Bool(b) => Value::Bool(*b),
            Value::Unit => Value::Unit,
            Value::HeapRef(a) => Value::HeapRef(*a),
            Value::Closure(c) => Value::Closure(*c),
            Value::Function(f) => Value::Function(f.clone()),
            Value::Task(h) => Value::Task(*h),
            Value::Sender(h) => Value::Sender(*h),
            Value::Receiver(h) => Value::Receiver(*h),
            Value::Ref(h) => Value::Ref(*h),
        }
    }
}

/// The models of a list of values.
pub open spec fn vals(s: Seq<Value>) -> Seq<Val> {
    s.map_values(|v: Value| v@)
}

/// Copies a list of values.
pub fn copy_values(v: &[Value]) -> (r: Vec<Value>)
    ensures
        vals(r@) == vals(v@),
{
    let mut r: Vec<Value> = Vec::new();
    let mut i: usize = 0;
    while i < v.len()
        invariant
            i <= v@.len(),
            r@.len() == i,
            forall|j: int| 0 <= j < i ==> (#[trigger] r@[j])@ == v@[j]@,
        decreases v@.len() - i,
    {
        r.push(v[i].clone());
        i += 1;
    }
    assert(vals(r@) =~= vals(v@));
    r
}

/// A value that owns everything it reaches, fit to cross from one heap to another.
#[derive(Debug, PartialEq)]
pub enum PortableValue {
    Int(i64),
    /// A floating-point number, held as its IEEE 754 bit pattern.
    Float(u64),
    Str(String),
    Bool(bool),
    Unit,
    Ctor(String, Vec<PortableValue>),
    Sender(SenderHandle),
    Receiver(ReceiverHandle),
}

/// The model of a portable value.
#[verifier::ext_equal]
pub enum Portable {
    Int(i64),
    Float(u64),
    Str(Name),
    Bool(bool),
    Unit,
    Ctor(Name, Seq<Portable>),
    Sender(SenderHandle),
    Receiver(ReceiverHandle),
}

impl PortableValue {
    pub open spec fn view(self) -> Portable
        decreases self,
    {
        match self {
            PortableValue::Int(n) => Portable::Int(n),
            PortableValue::Float(b) => Portable::Float(b),
            PortableValue::Str(s) => Portable::Str(s@),
            PortableValue::Bool(b) => Portable::Bool(b),
            PortableValue::Unit => Portable::Unit,
            PortableValue::Ctor(tag, fields) => Portable::Ctor(tag@, portables(fields@)),
            PortableValue::Sender(h) => Portable::Sender(h),
            PortableValue::Receiver(h) => Portable::Receiver(h),
        }
    }
}

/// The models of a list of portable values.
pub open spec fn portables(s: Seq<PortableValue>) -> Seq<Portable>
    decreases s,
{
    Seq::new(
        s.len(),
        |i: int|
            if 0 <= i < s.len() {
                s[i].view()
            } else {
                Portable::Unit
            },
    )
}

impl Clone for PortableValue {
    fn clone(&self) -> (r: Self)
        ensures
            r@ == self@,
    {
        copy_portable(self)
    }
}

fn copy_portable(p: &PortableValue) -> (r: PortableValue)
    ensures
        r@ == p@,
    decreases *p,
{
    match p {
        PortableValue::Int(n) => PortableValue::Int(*n),
        PortableValue::Float(b) => PortableValue::Float(*b),
        PortableValue::Str(s) => PortableValue::Str(s.clone()),
        PortableValue::Bool(b) => PortableValue::Bool(*b),
        PortableValue::Unit => PortableValue::Unit,
        PortableValue::Ctor(tag, fields) => {
            let mut copies: Vec<PortableValue> = Vec::new();
            let mut i: usize = 0;
            while i < fields.len()
                invariant
                    i <= fields@.len(),
                    copies@.len() == i,
                    *p == PortableValue::Ctor(*tag, *fields),
                    forall|j: int| 0 <= j < i ==> (#[trigger] copies@[j])@ == fields@[j]@,
                decreases fields@.len() - i,
            {
                proof {
                    assert(decreases_to!(*p => p->Ctor_1));
                    assert(decreases_to!(*fields => fields@));
                    assert(decreases_to!(fields@ => fields@[i as int]));
                }
                copies.push(copy_portable(&fields[i]));
                i += 1;
            }
            assert(portables(copies@) =~= portables(fields@));
            PortableValue::Ctor(tag.clone(), copies)
        },
        PortableValue::Sender(h) => PortableValue::Sender(*h),
        PortableValue::Receiver(h) => PortableValue::Receiver(*h),
    }
}

} // verus!
