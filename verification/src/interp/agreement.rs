//! Where two operators have to agree.

use vstd::prelude::*;
use crate::fbip::reuse::in_place;
use crate::fbip::uses::is_var;
use crate::ir::{shaped, BinOp, Name, Op, Term};
use super::error::Fault;
use super::heap::{cell_at, ctor_at, live, with_new, Cell, Cells, Contents, HeapError};
use super::portable::kept;
use super::semantics::{
    applied, binary, built, changed, complete, demand, given, is_order, lookup, meets, misfit,
    operands, ordered, run, settled, started, step,
};
use super::state::{ControlTerm, FloatOp, FrameTerm, Machine, RequestTerm};
use super::value::Val;

verus! {

/// Whether a machine gives the address of a fresh cell, and nothing else has changed.
pub open spec fn gives_fresh(m: Machine, q: Machine, c: Contents) -> bool {
    let at = m.heap.len() as usize;
    &&& q == Machine { heap: with_new(m.heap, c), ..m }.give(Val::HeapRef(at))
    &&& cell_at(q.heap, at) == Ok::<Cell, HeapError>(Cell { contents: c, refcount: 1 })
}

/// Whether a machine gives the address of a cell that took over the reference to `addr`. If
/// that was the last one, the cell stands at the same address. Otherwise it stands at a fresh
/// one, and the old cell keeps its contents with one reference fewer. Nothing else has changed.
pub open spec fn takes_over(m: Machine, q: Machine, addr: usize, c: Contents) -> bool {
    let held = m.heap[addr as int]->0;
    let at = if held.refcount == 1 {
        addr
    } else {
        m.heap.len() as usize
    };
    &&& q == Machine { heap: q.heap, ..m }.give(Val::HeapRef(at))
    &&& at == addr <==> held.refcount == 1
    &&& cell_at(q.heap, at) == Ok::<Cell, HeapError>(Cell { contents: c, refcount: 1 })
    &&& held.refcount > 1 ==> cell_at(q.heap, addr) == Ok::<Cell, HeapError>(
        Cell { refcount: (held.refcount - 1) as nat, ..held },
    )
    &&& q.heap.len() == if held.refcount == 1 {
        m.heap.len()
    } else {
        m.heap.len() + 1
    }
    &&& forall|i: int| 0 <= i < m.heap.len() && i != addr ==> #[trigger] q.heap[i] == m.heap[i]
}

/// Whether two errors say the same, each of its own operator.
pub open spec fn same_fault(a: Fault, b: Fault) -> bool {
    ||| a == b
    ||| (a matches Fault::Operand { place: x, .. } && b matches Fault::Operand { place: y, .. } && x
        == y)
}

/// Whether one machine took over a cell where the other one made a fresh one: they fail alike
/// and leave the heap as it was, or build the same contents.
pub open spec fn agree_in_place(m: Machine, fresh: Machine, here: Machine, addr: usize) -> bool {
    match fresh.control {
        ControlTerm::Failed(e) => {
            &&& fresh == m.fail(e)
            &&& here.control matches ControlTerm::Failed(f) && same_fault(e, f) && here == m.fail(f)
        },
        _ => {
            let c = (fresh.heap[m.heap.len() as int]->0).contents;
            gives_fresh(m, fresh, c) && takes_over(m, here, addr, c)
        },
    }
}

proof fn storing_over_takes_over(m: Machine, addr: usize, c: Contents)
    requires
        live(m.heap, addr as int),
        (m.heap[addr as int]->0).refcount >= 1,
        m.heap.len() < usize::MAX,
    ensures
        agree_in_place(m, m.store(c), m.store_over(addr, c), addr),
        (m.store(c)).control is Return,
{
    let fresh = m.store(c);
    let here = m.store_over(addr, c);
    assert((fresh.heap[m.heap.len() as int]->0).contents == c);
    assert(gives_fresh(m, fresh, c));
    assert(takes_over(m, here, addr, c));
}

/// Building in place and building afresh agree. On the same operands both succeed or both
/// fail; on success the contents are the same, at the address of the operand exactly if
/// nothing else referred to it; on failure the heap is as it was.
pub proof fn building_in_place_agrees(
    m: Machine,
    op: Op,
    names: Seq<Name>,
    other: Seq<Name>,
    vs: Seq<Val>,
    addr: usize,
)
    requires
        in_place(op) is Some,
        complete(op, names.len(), vs.len()),
        vs[0] == Val::HeapRef(addr),
        live(m.heap, addr as int) ==> (m.heap[addr as int]->0).refcount >= 1,
        m.heap.len() < usize::MAX,
    ensures
        agree_in_place(
            m,
            applied(m, op, names, vs),
            applied(m, in_place(op)->0, other, vs),
            addr,
        ),
{
    let r = in_place(op)->0;
    match op {
        Op::ArrayPush | Op::ArrayPop | Op::ArraySet | Op::ArrayRemove => {
            if let Ok((tag, fields)) = ctor_at(m.heap, addr) {
                if let Ok(new) = changed(op, fields, vs) {
                    storing_over_takes_over(m, addr, Contents::Ctor(tag, new));
                }
            }
        },
        _ => {
            if let Ok(s) = built(m.heap, op, vs) {
                storing_over_takes_over(m, addr, Contents::Str(s));
            }
        },
    }
}

/// Building a constructed value in the memory of a variable's cell agrees with building it
/// afresh.
pub proof fn rebuilding_in_place_agrees(
    m: Machine,
    target: Name,
    tag: Name,
    vs: Seq<Val>,
    addr: usize,
)
    requires
        lookup(m, target) == Ok::<Val, Fault>(Val::HeapRef(addr)),
        live(m.heap, addr as int),
        (m.heap[addr as int]->0).refcount >= 1,
        m.heap.len() < usize::MAX,
    ensures
        agree_in_place(
            m,
            applied(m, Op::Ctor, seq![tag], vs),
            applied(m, Op::CtorReuse, seq![target, tag], vs),
            addr,
        ),
        applied(m, Op::Ctor, seq![tag], vs).control is Return,
{
    storing_over_takes_over(m, addr, Contents::Ctor(tag, vs));
}

/// Whether a term is a literal.
pub open spec fn is_literal(t: Term) -> bool {
    &&& shaped(t)
    &&& match t.op {
        Op::Int(_) | Op::Float(_) | Op::Bool(_) | Op::Unit | Op::Str => true,
        _ => false,
    }
}

/// The value of a literal, and the heap with it.
spec fn literal_value(h: Cells, t: Term) -> (Cells, Val) {
    match t.op {
        Op::Int(n) => (h, Val::Int(n)),
        Op::Float(b) => (h, Val::Float(b)),
        Op::Bool(b) => (h, Val::Bool(b)),
        Op::Str => (with_new(h, Contents::Str(t.names[0])), Val::HeapRef(h.len() as usize)),
        _ => (h, Val::Unit),
    }
}

proof fn settled_stays(m: Machine, n: nat)
    requires
        settled(m),
    ensures
        run(m, n) == m,
    decreases n,
{
    if n > 0 {
        settled_stays(m, (n - 1) as nat);
    }
}

/// A literal operand takes two steps.
proof fn a_literal_operand(
    q: Machine,
    op: Op,
    names: Seq<Name>,
    done: Seq<Val>,
    todo: Seq<Term>,
    n: nat,
)
    requires
        todo.len() > 0,
        is_literal(todo[0]),
        q.control == ControlTerm::Return(Val::Unit),
    ensures
        ({
            let (h, v) = literal_value(q.heap, todo[0]);
            let q2 = Machine { heap: h, ..q };
            run(operands(q, op, names, done, todo), n + 2) == run(
                if meets(v, demand(op, done.len())) {
                    operands(q2, op, names, done.push(v), todo.subrange(1, todo.len() as int))
                } else {
                    q2.fail(misfit(op, done.len(), v))
                },
                n,
            )
        }),
{
    let (h, v) = literal_value(q.heap, todo[0]);
    let q2 = Machine { heap: h, ..q };
    let f = FrameTerm::Operands { op, names, done, todo: todo.subrange(1, todo.len() as int) };
    let a = operands(q, op, names, done, todo);
    let b = Machine { heap: h, ..q.push(f) }.give(v);
    assert(a == q.push(f).evaluate(todo[0]));
    assert(a.idle() == q.push(f));
    assert(step(a) == b);
    assert(b.stack.drop_last() =~= q.stack);
    assert(b.idle().pop() == q2);
    assert(step(b) == given(q2, f, v));
    assert(run(a, n + 2) == run(step(a), n + 1));
    assert(run(b, n + 1) == run(step(b), n));
}

/// Literal operands are evaluated alike, in place and afresh.
proof fn literal_operands_agree(
    q: Machine,
    op: Op,
    names: Seq<Name>,
    other: Seq<Name>,
    done: Seq<Val>,
    todo: Seq<Term>,
    addr: usize,
) -> (end: Machine)
    requires
        in_place(op) is Some,
        done.len() >= 1,
        complete(op, names.len(), done.len() + todo.len()),
        done[0] == Val::HeapRef(addr),
        forall|i: int| 0 <= i < todo.len() ==> is_literal(#[trigger] todo[i]),
        live(q.heap, addr as int) ==> (q.heap[addr as int]->0).refcount >= 1,
        q.heap.len() + todo.len() < usize::MAX,
        q.stack.len() == 0,
        q.control == ControlTerm::Return(Val::Unit),
        addr < q.heap.len(),
    ensures
        agree_in_place(
            end,
            run(operands(q, op, names, done, todo), 2 * todo.len()),
            run(operands(q, in_place(op)->0, other, done, todo), 2 * todo.len()),
            addr,
        ),
        end == (Machine { heap: end.heap, ..q }),
        kept(q.heap, end.heap),
        end.heap.len() < usize::MAX,
    decreases todo.len(),
{
    let r = in_place(op)->0;
    if todo.len() == 0 {
        building_in_place_agrees(q, op, names, other, done, addr);
        q
    } else {
        let (h, v) = literal_value(q.heap, todo[0]);
        let q2 = Machine { heap: h, ..q };
        let rest = todo.subrange(1, todo.len() as int);
        let n = 2 * rest.len();
        a_literal_operand(q, op, names, done, todo, n);
        a_literal_operand(q, r, other, done, todo, n);
        assert(2 * todo.len() == n + 2);
        assert(h[addr as int] == q.heap[addr as int]);
        assert(demand(r, done.len()) == demand(op, done.len()));
        if meets(v, demand(op, done.len())) {
            let end = literal_operands_agree(q2, op, names, other, done.push(v), rest, addr);
            assert forall|i: int| 0 <= i < q.heap.len() implies end.heap[i] == #[trigger] q.heap[i] by {
                assert(end.heap[i] == h[i]);
            }
            end
        } else {
            settled_stays(q2.fail(misfit(op, done.len(), v)), n);
            settled_stays(q2.fail(misfit(r, done.len(), v)), n);
            q2
        }
    }
}

/// Evaluating in place and evaluating afresh agree. A node on a variable and literals, and the
/// node that does the same in the memory of the variable, come from the same state to an end
/// in which the one gives a value exactly if the other does, with the same contents. `end` is
/// the state with the literals evaluated: the cell of the variable is there as it was. The
/// node in place leaves it so if it fails; otherwise it gives the same address exactly if it
/// had the last reference, and a fresh one with one reference to the old cell fewer if not.
pub proof fn evaluating_in_place_agrees(m: Machine, t: Term, x: Name, addr: usize) -> (r: (
    nat,
    nat,
    Machine,
))
    requires
        shaped(t),
        in_place(t.op) is Some,
        is_var(t.kids[0], x),
        forall|i: int| 1 <= i < t.kids.len() ==> is_literal(#[trigger] t.kids[i]),
        lookup(m, x) == Ok::<Val, Fault>(Val::HeapRef(addr)),
        live(m.heap, addr as int),
        (m.heap[addr as int]->0).refcount >= 1,
        m.heap.len() + t.kids.len() < usize::MAX,
    ensures
        ({
            let here = Term {
                op: in_place(t.op)->0,
                names: seq![x] + t.names,
                kids: t.kids.drop_first(),
                ..t
            };
            let (a, b, end) = r;
            &&& agree_in_place(end, run(started(m, t), a), run(started(m, here), b), addr)
            &&& settled(run(started(m, t), a))
            &&& settled(run(started(m, here), b))
            &&& kept(m.heap, end.heap)
            &&& end.heap.len() < usize::MAX
            &&& end == (Machine { heap: end.heap, stack: Seq::empty(), ..m }).idle()
        }),
{
    let op = t.op;
    let here = Term {
        op: in_place(op)->0,
        names: seq![x] + t.names,
        kids: t.kids.drop_first(),
        ..t
    };
    let q = Machine { stack: Seq::empty(), ..m }.idle();
    let todo = t.kids.drop_first();
    let v = Val::HeapRef(addr);
    let n = 2 * todo.len();
    assert(todo =~= t.kids.subrange(1, t.kids.len() as int));
    assert forall|i: int| 0 <= i < todo.len() implies is_literal(#[trigger] todo[i]) by {
        assert(todo[i] == t.kids[i + 1]);
    }
    assert(lookup(q, x) == lookup(m, x));
    // Afresh, the variable is looked up as an operand.
    let f = FrameTerm::Operands { op, names: t.names, done: Seq::empty(), todo };
    let s0 = started(m, t);
    let s1 = q.push(f).evaluate(t.kids[0]);
    let s2 = q.push(f).give(v);
    assert(s0.idle() == q);
    assert(step(s0) == s1);
    assert(s1.idle() == q.push(f));
    assert(lookup(q.push(f), x) == lookup(m, x));
    assert(step(s1) == s2);
    assert(s2.stack.drop_last() =~= q.stack);
    assert(s2.idle().pop() == q);
    assert(Seq::<Val>::empty().push(v) =~= seq![v]);
    assert(meets(v, demand(op, 0)));
    assert(step(s2) == operands(q, op, t.names, seq![v], todo));
    assert(run(s0, n + 3) == run(step(s0), n + 2));
    assert(run(s1, n + 2) == run(step(s1), n + 1));
    assert(run(s2, n + 1) == run(step(s2), n));
    // In place, it is looked up at once.
    let h0 = started(m, here);
    assert(h0.idle() == q);
    assert(here.names[0] == x);
    assert(step(h0) == operands(q, here.op, here.names, seq![v], todo));
    assert(run(h0, n + 1) == run(step(h0), n));
    let end = literal_operands_agree(q, op, t.names, here.names, seq![v], todo, addr);
    (n + 3, n + 1, end)
}

/// The orders of integers agree with one another, and with equality.
pub proof fn integer_orders_agree(m: Machine, x: i64, y: i64)
    ensures
        ({
            let on = |op: BinOp, a: i64, b: i64| binary(m, op, Val::Int(a), Val::Int(b));
            &&& on(BinOp::Lt, x, y) == on(BinOp::Gt, y, x)
            &&& on(BinOp::Le, x, y) == on(BinOp::Ge, y, x)
            &&& on(BinOp::Ge, x, y) == m.give(Val::Bool(!ordered(BinOp::Lt, x, y)))
            &&& on(BinOp::Gt, x, y) == m.give(Val::Bool(!ordered(BinOp::Le, x, y)))
            &&& (on(BinOp::Le, x, y) == m.give(Val::Bool(true)) && on(BinOp::Ge, x, y) == m.give(
                Val::Bool(true),
            )) == (on(BinOp::Eq, x, y) == m.give(Val::Bool(true)))
        }),
        ordered(BinOp::Le, x, y) && ordered(BinOp::Ge, x, y) <==> x == y,
{
}

/// Only numbers of one kind have an order: two integers are ordered at once, two floats are
/// put to the host, and anything else is an error.
pub proof fn only_numbers_are_ordered(m: Machine, op: BinOp, a: Val, b: Val)
    requires
        is_order(op),
    ensures
        match (a, b) {
            (Val::Int(x), Val::Int(y)) => binary(m, op, a, b) == m.give(
                Val::Bool(ordered(op, x, y)),
            ),
            (Val::Float(x), Val::Float(y)) => binary(m, op, a, b) == m.ask(
                RequestTerm::Float { op: FloatOp::Binary(op), a: x, b: y },
            ),
            _ => binary(m, op, a, b) == m.fail(Fault::OrderType { lhs: a, rhs: b }),
        },
{
}

} // verus!
