//! What the operations on arrays do, as it is read back by indexing and by asking for the
//! length.

use vstd::prelude::*;
use crate::ir::{Name, Op};
use super::heap::ctor_at;
use super::semantics::applied;
use super::state::{ControlTerm, Machine};
use super::value::Val;

verus! {

/// Whether indexing the array at `a` with `j` gives `v`.
pub open spec fn reads(m: Machine, a: usize, j: int, v: Val) -> bool {
    applied(m, Op::Index, Seq::empty(), seq![Val::HeapRef(a), Val::Int(j as i64)]) == m.give(v)
}

/// Whether indexing the array at `a` with `j` fails.
pub open spec fn has_no(m: Machine, a: usize, j: i64) -> bool {
    applied(m, Op::Index, Seq::empty(), seq![Val::HeapRef(a), Val::Int(j)]).control is Failed
}

/// Whether the array at `a` is said to have `n` elements.
pub open spec fn measures(m: Machine, a: usize, n: int) -> bool {
    applied(m, Op::ArrayLen, Seq::empty(), seq![Val::HeapRef(a)]) == m.give(Val::Int(n as i64))
}

/// Whether there is a counted array with `n` elements at `a`, on a heap with room left.
pub open spec fn is_array(m: Machine, a: usize, n: int) -> bool {
    &&& ctor_at(m.heap, a) matches Ok((_, fields)) && fields.len() == n
    &&& (m.heap[a as int]->0).refcount >= 1
    &&& 0 <= n < i64::MAX
    &&& m.heap.len() < usize::MAX
}

/// The machine after an operation that gave the address of an array.
pub open spec fn after(r: Machine) -> Machine {
    r.give(Val::Unit)
}

/// An array has an element at each place below its length and at no other, and reading gives
/// one value.
pub proof fn an_array_has_its_elements(m: Machine, a: usize, n: int, j: i64)
    requires
        is_array(m, a, n),
    ensures
        measures(m, a, n),
        0 <= j < n ==> exists|v: Val| reads(m, a, j as int, v),
        !(0 <= j < n) ==> has_no(m, a, j),
        forall|v: Val, w: Val|
            #[trigger] reads(m, a, j as int, v) && #[trigger] reads(m, a, j as int, w) ==> v == w,
        forall|k: int| measures(m, a, k) && 0 <= k <= i64::MAX ==> k == n,
{
    let fields = (ctor_at(m.heap, a)->Ok_0).1;
    if 0 <= j < n {
        assert(reads(m, a, j as int, fields[j as int]));
    }
    assert forall|v: Val, w: Val|
        #[trigger] reads(m, a, j as int, v) && #[trigger] reads(m, a, j as int, w) implies v == w by {
        assert(m.give(v).control == m.give(w).control);
    }
    assert forall|k: int| measures(m, a, k) && 0 <= k <= i64::MAX implies k == n by {
        assert(m.give(Val::Int(k as i64)).control == m.give(Val::Int(n as i64)).control);
    }
}

/// An array literal has the operands as its elements, in order.
pub proof fn a_literal_has_its_operands(m: Machine, tag: Name, vs: Seq<Val>) -> (b: usize)
    requires
        m.heap.len() < usize::MAX,
        vs.len() < i64::MAX,
    ensures
        ({
            let r = applied(m, Op::Ctor, seq![tag], vs);
            &&& r.control == ControlTerm::Return(Val::HeapRef(b))
            &&& is_array(after(r), b, vs.len() as int) || after(r).heap.len() == usize::MAX
            &&& measures(after(r), b, vs.len() as int)
            &&& forall|j: int| 0 <= j < vs.len() ==> #[trigger] reads(after(r), b, j, vs[j])
            &&& ctor_at(after(r).heap, b) == Ok::<(Name, Seq<Val>), super::heap::HeapError>((tag, vs))
        }),
{
    let r = applied(m, Op::Ctor, seq![tag], vs);
    let q = after(r);
    let b = m.heap.len() as usize;
    assert(ctor_at(q.heap, b) == Ok::<(Name, Seq<Val>), super::heap::HeapError>((tag, vs)));
    b
}

/// Appending gives an array with one element more: the old ones in their places, and the new
/// one at the end.
pub proof fn pushing_appends(m: Machine, op: Op, a: usize, n: int, v: Val) -> (b: usize)
    requires
        op == Op::ArrayPush || op == Op::ArrayPushReuse,
        is_array(m, a, n),
        n + 1 < i64::MAX,
    ensures
        ({
            let r = applied(m, op, Seq::empty(), seq![Val::HeapRef(a), v]);
            &&& r.control == ControlTerm::Return(Val::HeapRef(b))
            &&& measures(after(r), b, n + 1)
            &&& reads(after(r), b, n, v)
            &&& forall|j: int, w: Val| 0 <= j < n && #[trigger] reads(m, a, j, w) ==> reads(after(r), b, j, w)
        }),
{
    let fields = (ctor_at(m.heap, a)->Ok_0).1;
    let r = applied(m, op, Seq::empty(), seq![Val::HeapRef(a), v]);
    let q = after(r);
    let b = r.control->Return_0->HeapRef_0;
    assert((ctor_at(q.heap, b)->Ok_0).1 == fields.push(v));
    assert forall|j: int, w: Val| 0 <= j < n && #[trigger] reads(m, a, j, w) implies reads(
        q,
        b,
        j,
        w,
    ) by {
        assert(m.give(w).control == m.give(fields[j]).control);
    }
    b
}

/// Taking the last element off gives an array with one element fewer, the others in their
/// places. An empty array has none to take off.
pub proof fn popping_takes_the_last(m: Machine, op: Op, a: usize, n: int) -> (b: usize)
    requires
        op == Op::ArrayPop || op == Op::ArrayPopReuse,
        is_array(m, a, n),
    ensures
        ({
            let r = applied(m, op, Seq::empty(), seq![Val::HeapRef(a)]);
            if n == 0 {
                r.control is Failed && r.heap == m.heap
            } else {
                &&& r.control == ControlTerm::Return(Val::HeapRef(b))
                &&& measures(after(r), b, n - 1)
                &&& forall|j: int, w: Val|
                    0 <= j < n - 1 && #[trigger] reads(m, a, j, w) ==> reads(after(r), b, j, w)
            }
        }),
{
    let fields = (ctor_at(m.heap, a)->Ok_0).1;
    let r = applied(m, op, Seq::empty(), seq![Val::HeapRef(a)]);
    if n == 0 {
        0
    } else {
        let q = after(r);
        let b = r.control->Return_0->HeapRef_0;
        assert((ctor_at(q.heap, b)->Ok_0).1 == fields.drop_last());
        assert forall|j: int, w: Val| 0 <= j < n - 1 && #[trigger] reads(m, a, j, w) implies reads(
            q,
            b,
            j,
            w,
        ) by {
            assert(m.give(w).control == m.give(fields[j]).control);
        }
        b
    }
}

/// Setting an element gives an array of the same length with that element there and the others
/// in their places. Only an element that is there can be set.
pub proof fn setting_replaces_one(
    m: Machine,
    op: Op,
    a: usize,
    n: int,
    i: i64,
    v: Val,
) -> (b: usize)
    requires
        op == Op::ArraySet || op == Op::ArraySetReuse,
        is_array(m, a, n),
    ensures
        ({
            let r = applied(m, op, Seq::empty(), seq![Val::HeapRef(a), Val::Int(i), v]);
            if !(0 <= i < n) {
                r.control is Failed && r.heap == m.heap
            } else {
                &&& r.control == ControlTerm::Return(Val::HeapRef(b))
                &&& measures(after(r), b, n)
                &&& reads(after(r), b, i as int, v)
                &&& forall|j: int, w: Val|
                    0 <= j < n && j != i && #[trigger] reads(m, a, j, w) ==> reads(after(r), b, j, w)
            }
        }),
{
    let fields = (ctor_at(m.heap, a)->Ok_0).1;
    let r = applied(m, op, Seq::empty(), seq![Val::HeapRef(a), Val::Int(i), v]);
    if !(0 <= i < n) {
        0
    } else {
        let q = after(r);
        let b = r.control->Return_0->HeapRef_0;
        assert((ctor_at(q.heap, b)->Ok_0).1 == fields.update(i as int, v));
        assert forall|j: int, w: Val|
            0 <= j < n && j != i && #[trigger] reads(m, a, j, w) implies reads(q, b, j, w) by {
            assert(m.give(w).control == m.give(fields[j]).control);
        }
        b
    }
}

/// Removing an element gives an array with one element fewer: those before it stay in their
/// places, and those after it move down by one and keep their order. Only an element that is
/// there can be removed.
pub proof fn removing_closes_the_gap(m: Machine, op: Op, a: usize, n: int, i: i64) -> (b: usize)
    requires
        op == Op::ArrayRemove || op == Op::ArrayRemoveReuse,
        is_array(m, a, n),
    ensures
        ({
            let r = applied(m, op, Seq::empty(), seq![Val::HeapRef(a), Val::Int(i)]);
            if !(0 <= i < n) {
                r.control is Failed && r.heap == m.heap
            } else {
                &&& r.control == ControlTerm::Return(Val::HeapRef(b))
                &&& measures(after(r), b, n - 1)
                &&& forall|j: int, w: Val|
                    0 <= j < i && #[trigger] reads(m, a, j, w) ==> reads(after(r), b, j, w)
                &&& forall|j: int, w: Val|
                    i < j < n && #[trigger] reads(m, a, j, w) ==> reads(after(r), b, j - 1, w)
            }
        }),
{
    let fields = (ctor_at(m.heap, a)->Ok_0).1;
    let r = applied(m, op, Seq::empty(), seq![Val::HeapRef(a), Val::Int(i)]);
    if !(0 <= i < n) {
        0
    } else {
        let q = after(r);
        let b = r.control->Return_0->HeapRef_0;
        let new = fields.remove(i as int);
        assert((ctor_at(q.heap, b)->Ok_0).1 == new);
        assert forall|j: int, w: Val|
            0 <= j < n && j != i && #[trigger] reads(m, a, j, w) implies reads(
            q,
            b,
            if j < i {
                j
            } else {
                j - 1
            },
            w,
        ) by {
            assert(m.give(w).control == m.give(fields[j]).control);
        }
        b
    }
}

} // verus!
