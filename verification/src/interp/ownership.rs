//! Who refers to a cell that is handed to a function whose parameter may be reused in place.

use vstd::prelude::*;
use crate::fbip::laws::is_source;
use crate::fbip::params::{
    arity_of, arm_escapes, arm_passes_unique, escapes, is_direct_call, needs_array_or_str,
    passes_unique,
    program_escapes, program_passes_unique, reusable_at, reusable_in, reusable_upto, unique_op,
};
use crate::anf::is_fresh_alloc_op;
use crate::fbip::refcount::allocates;
use crate::fbip::uses::{is_reuse_op, is_var};
use crate::ir::{shaped, ArmTerm, Name, Op, ProgramTerm, Term};
use super::context::{a_step_is_local, over};
use super::flow::{
    a_step_hands_on, all_ok, changed_ok, closures_ok, frame_ok, heap_ok, held_ok, new_cell_ok,
    scope_ok, strings_grow, strings_ok, values_ok,
};
use super::heap::{ctor_at, live, with_new, Cells, Contents};
use super::lifting::calls_by_name;
use super::semantics::{
    applied, built, called, changed, complete, demand, lookup, meets, operands, run, settled,
    started, step, text_of, with_strings,
};
use super::state::{ControlTerm, FrameTerm, Machine};
use super::value::Val;

verus! {

/// Whether a value is no address, or one below `n`.
pub open spec fn below_len(n: nat) -> spec_fn(Val) -> bool {
    |v: Val| v matches Val::HeapRef(a) ==> a < n
}

/// Whether a value is not a given address.
pub open spec fn other_than(a: usize) -> spec_fn(Val) -> bool {
    |v: Val| v != Val::HeapRef(a)
}

/// Whether everything that a machine refers to has been given out.
pub open spec fn in_bounds(m: Machine) -> bool {
    values_ok(m, below_len(m.heap.len()))
}

proof fn weaker(
    m: Machine,
    a: spec_fn(Val) -> bool,
    b: spec_fn(Val) -> bool,
)
    requires
        held_ok(m, a),
        forall|v: Val| #[trigger] a(v) ==> b(v),
    ensures
        held_ok(m, b),
        values_ok(m, a) ==> values_ok(m, b),
{
    assert forall|i: int| 0 <= i < m.env.len() implies b((#[trigger] m.env[i]).1) by {
        assert(a(m.env[i].1));
    }
    assert forall|i: int| 0 <= i < m.globals.len() implies b((#[trigger] m.globals[i]).1) by {
        assert(a(m.globals[i].1));
    }
    assert forall|i: int| 0 <= i < m.refs.len() implies b(#[trigger] m.refs[i]) by {
        assert(a(m.refs[i]));
    }
    assert forall|i: int| 0 <= i < m.closures.len() implies scope_ok(
        (#[trigger] m.closures[i]).captured,
        b,
    ) by {
        let s = m.closures[i].captured;
        assert(scope_ok(s, a));
        assert forall|j: int| 0 <= j < s.len() implies b((#[trigger] s[j]).1) by {
            assert(a(s[j].1));
        }
    }
    assert forall|i: int| 0 <= i < m.stack.len() implies frame_ok(#[trigger] m.stack[i], b) by {
        assert(frame_ok(m.stack[i], a));
        match m.stack[i] {
            FrameTerm::Operands { done, .. } => {
                all_weaker(done, a, b);
            },
            FrameTerm::Guard { fields, .. } => {
                all_weaker(fields, a, b);
            },
            FrameTerm::Restore { env } => {
                assert forall|j: int| 0 <= j < env.len() implies b((#[trigger] env[j]).1) by {
                    assert(a(env[j].1));
                }
            },
            _ => {},
        }
    }
    heap_weaker(m.heap, a, b);
}

proof fn all_weaker(vs: Seq<Val>, a: spec_fn(Val) -> bool, b: spec_fn(Val) -> bool)
    requires
        all_ok(vs, a),
        forall|v: Val| #[trigger] a(v) ==> b(v),
    ensures
        all_ok(vs, b),
{
    assert forall|j: int| 0 <= j < vs.len() implies b(#[trigger] vs[j]) by {
        assert(a(vs[j]));
    }
}

proof fn heap_weaker(h: Cells, a: spec_fn(Val) -> bool, b: spec_fn(Val) -> bool)
    requires
        heap_ok(h, a),
        forall|v: Val| #[trigger] a(v) ==> b(v),
    ensures
        heap_ok(h, b),
{
    assert forall|i: int| live(h, i) implies ((#[trigger] h[i])->0.contents matches Contents::Ctor(
        _,
        fields,
    ) ==> all_ok(fields, b)) by {
        if let Contents::Ctor(_, fields) = h[i]->0.contents {
            all_weaker(fields, a, b);
        }
    }
}

/// What an operator that yields a cell of its own has to come to: a new address, with a cell
/// that is counted once, and held by nothing in the machine.
pub open spec fn gives_its_own(q: Machine, r: Machine) -> bool {
    &&& r.control matches ControlTerm::Return(Val::HeapRef(a)) && {
        &&& q.heap.len() <= a < r.heap.len()
        &&& live(r.heap, a as int)
        &&& r.heap[a as int]->0.refcount == 1
        &&& held_ok(r, other_than(a))
    }
    &&& r == (Machine { heap: r.heap, control: r.control, ..q })
}

/// A heap with one new cell at its end, made from values that were there.
proof fn a_last_cell_is_own(q: Machine, h: Cells, c: Contents)
    requires
        held_ok(q, below_len(q.heap.len())),
        heap_ok(h, below_len(h.len())),
        q.heap.len() <= h.len() < usize::MAX,
        c matches Contents::Ctor(_, fields) ==> all_ok(fields, below_len(h.len())),
    ensures
        gives_its_own(
            q,
            Machine { heap: with_new(h, c), ..q }.give(Val::HeapRef(h.len() as usize)),
        ),
{
    let a = h.len() as usize;
    let ok = below_len(h.len());
    let h2 = with_new(h, c);
    let r = Machine { heap: h2, ..q }.give(Val::HeapRef(a));
    new_cell_ok(h, c, ok);
    heap_weaker(h2, ok, other_than(a));
    weaker(q, below_len(q.heap.len()), other_than(a));
    assert(held_ok(r, other_than(a)));
}

/// An operator that counts as yielding a cell that nothing else refers to does so: applied to
/// any operands, in any machine, it gives an address that was not given out before, with a cell
/// that is counted once. Nothing in the machine, no scope, no global, no reference cell, no
/// closure, no frame and no field of a cell, holds that address.
#[verifier::rlimit(40)]
#[verifier::spinoff_prover]
pub proof fn a_unique_operator_gives_its_own_cell(
    q: Machine,
    op: Op,
    names: Seq<Name>,
    vs: Seq<Val>,
)
    requires
        unique_op(op),
        !is_reuse_op(op),
        held_ok(q, below_len(q.heap.len())),
        all_ok(vs, below_len(q.heap.len())),
        applied(q, op, names, vs).heap.len() <= usize::MAX,
    ensures
        ({
            let r = applied(q, op, names, vs);
            r.control is Failed || r.control is Waiting || gives_its_own(q, r)
        }),
{
    let ok = below_len(q.heap.len());
    let r = applied(q, op, names, vs);
    if complete(op, names.len(), vs.len()) {
        if vs.len() > 0 {
            assert(ok(vs[0]));
        }
        match op {
            Op::Ctor => {
                a_last_cell_is_own(q, q.heap, Contents::Ctor(names[0], vs));
            },
            Op::ArrayPush | Op::ArrayPop | Op::ArraySet | Op::ArrayRemove => {
                if let Val::HeapRef(addr) = vs[0] {
                    if let Ok((tag, fields)) = ctor_at(q.heap, addr) {
                        assert(live(q.heap, addr as int));
                        assert(all_ok(fields, ok));
                        changed_ok(op, fields, vs, ok);
                        if let Ok(new) = changed(op, fields, vs) {
                            a_last_cell_is_own(q, q.heap, Contents::Ctor(tag, new));
                        }
                    }
                }
            },
            Op::ToString => {
                match vs[0] {
                    Val::Int(n) => {
                        a_last_cell_is_own(
                            q,
                            q.heap,
                            Contents::Str(crate::names::signed_decimal(n as int)),
                        );
                    },
                    Val::Bool(b) => {
                        a_last_cell_is_own(q, q.heap, Contents::Str(super::error::bool_text(b)));
                    },
                    Val::HeapRef(addr) => {
                        if let Ok(s) = super::heap::str_at(q.heap, addr) {
                            a_last_cell_is_own(q, q.heap, Contents::Str(s));
                        }
                    },
                    _ => {},
                }
            },
            Op::StrRunes => {
                if let Ok(s) = text_of(q.heap, op, vs, 0) {
                    let ps = super::text::code_points(s);
                    assert forall|j: int| 0 <= j < ps.len() implies ok(#[trigger] ps[j]) by {}
                    a_last_cell_is_own(q, q.heap, Contents::Ctor("0Array"@, ps));
                }
            },
            Op::StrSplit => {
                if let Ok(s) = text_of(q.heap, op, vs, 0) {
                    if let Ok(t) = text_of(q.heap, op, vs, 1) {
                        let ss = super::text::pieces(s, t);
                        let (h, parts) = with_strings(q.heap, ss, ss.len());
                        let wide = below_len(h.len());
                        strings_grow(q.heap, ss, ss.len());
                        heap_weaker(q.heap, ok, wide);
                        strings_ok(q.heap, ss, ss.len(), wide);
                        a_last_cell_is_own(q, h, Contents::Ctor("0Array"@, parts));
                        assert(r == Machine { heap: with_new(h, Contents::Ctor("0Array"@, parts)), ..q }.give(
                            Val::HeapRef(h.len() as usize),
                        ));
                    }
                }
            },
            _ => {
                if let Ok(s) = built(q.heap, op, vs) {
                    a_last_cell_is_own(q, q.heap, Contents::Str(s));
                }
            },
        }
    }
}

/// An operator that builds in place and counts as yielding a cell that nothing else refers to
/// gives a cell that is counted once, at an address that was not given out before or at that of
/// the cell it used up, to which there was one reference.
pub proof fn a_unique_operator_in_place_uses_up_its_cell(
    q: Machine,
    op: Op,
    names: Seq<Name>,
    vs: Seq<Val>,
)
    requires
        unique_op(op),
        is_reuse_op(op),
        applied(q, op, names, vs).heap.len() <= usize::MAX,
    ensures
        ({
            let r = applied(q, op, names, vs);
            let target = if op == Op::CtorReuse {
                lookup(q, names[0])
            } else {
                Ok(vs[0])
            };
            r.control matches ControlTerm::Return(v) ==> (v matches Val::HeapRef(a) && live(
                r.heap,
                a as int,
            ) && r.heap[a as int]->0.refcount == 1 && (a >= q.heap.len() || (target == Ok::<
                Val,
                super::error::Fault,
            >(v) && live(q.heap, a as int) && q.heap[a as int]->0.refcount == 1)))
        }),
{
}

/// An operator whose result is known to be a cell, or that is named because it makes one,
/// gives a cell of its own.
pub proof fn what_allocates_gives_its_own_cell(q: Machine, op: Op, names: Seq<Name>, vs: Seq<Val>)
    requires
        allocates(op) || is_fresh_alloc_op(op),
        held_ok(q, below_len(q.heap.len())),
        all_ok(vs, below_len(q.heap.len())),
        applied(q, op, names, vs).heap.len() <= usize::MAX,
    ensures
        ({
            let r = applied(q, op, names, vs);
            r.control is Failed || r.control is Waiting || gives_its_own(q, r)
        }),
{
    a_unique_operator_gives_its_own_cell(q, op, names, vs);
}

/// An operator that shows its operand to be an array or a string fails on anything that is not
/// in memory.
pub proof fn what_confirms_fails_on_other_values(m: Machine, op: Op, names: Seq<Name>, vs: Seq<Val>)
    requires
        needs_array_or_str(op),
        vs.len() > 0,
        !(vs[0] is HeapRef),
    ensures
        applied(m, op, names, vs).control is Failed,
{
}

/// A machine without the frame at the bottom of its stack.
spec fn above(s: Machine) -> Machine {
    Machine { stack: s.stack.skip(1), ..s }
}

proof fn above_is_over(s: Machine)
    requires
        s.stack.len() >= 1,
    ensures
        s == over(above(s), seq![s.stack[0]]),
{
    assert(seq![s.stack[0]] + s.stack.skip(1) =~= s.stack);
}

proof fn over_is_above(x: Machine, f: FrameTerm)
    ensures
        above(over(x, seq![f])) == x,
        over(x, seq![f]).stack.len() == x.stack.len() + 1,
        over(x, seq![f]).stack[0] == f,
{
    assert(over(x, seq![f]).stack.skip(1) =~= x.stack);
}

/// Whether a value is an address from `base` on that nothing else holds.
spec fn is_own(x: Machine, done: Seq<Val>, v: Val, base: nat) -> bool {
    v matches Val::HeapRef(a) && base <= a < x.heap.len() && held_ok(x, other_than(a)) && all_ok(
        done,
        other_than(a),
    )
}

/// Whether an operator of a source program yields a cell of its own.
spec fn is_fresh(op: Op) -> bool {
    unique_op(op) && !is_reuse_op(op)
}

/// Whether what is being evaluated comes to a cell of its own.
spec fn awaits_own(x: Machine, done: Seq<Val>, base: nat) -> bool {
    ||| x.stack.len() == 0 && (x.control matches ControlTerm::Eval(u) && is_fresh(u.op))
    ||| x.stack.len() >= 1 && (x.stack[0] matches FrameTerm::Operands { op, .. } && is_fresh(op))
    ||| x.stack.len() == 0 && (x.control matches ControlTerm::Return(v) && is_own(x, done, v, base))
}

/// Whether the value at place `k` of those that are done is an address that nothing else holds.
spec fn has_own(x: Machine, done: Seq<Val>, k: int, base: nat) -> bool {
    done[k] matches Val::HeapRef(a) && base <= a < x.heap.len() && values_ok(x, other_than(a))
        && forall|j: int| 0 <= j < done.len() && j != k ==> #[trigger] done[j] != Val::HeapRef(a)
}

/// Whether a machine is evaluating the arguments of a call.
spec fn on_the_way(s: Machine, t: Term, i: int, base: nat) -> bool {
    &&& s.stack.len() >= 1
    &&& s.stack[0] matches FrameTerm::Operands { op, names, done, todo } && {
        let x = above(s);
        let n = done.len() as int;
        &&& op == Op::Call
        &&& 1 <= n < t.kids.len()
        &&& todo == t.kids.subrange(n + 1, t.kids.len() as int)
        &&& values_ok(x, below_len(x.heap.len()))
        &&& all_ok(done, below_len(x.heap.len()))
        &&& base <= x.heap.len()
        &&& (n == i + 1 ==> awaits_own(x, done, base))
        &&& (n > i + 1 ==> has_own(x, done, i + 1, base))
    }
}

/// Whether a machine is past the arguments of a call, or will never be.
spec fn past(s: Machine) -> bool {
    ||| s.control is Failed
    ||| s.control is Waiting
    ||| s.stack.len() == 0 && s.control is Return
    ||| s.stack.len() >= 1 && s.stack[0] is Restore
}

proof fn past_stays(s: Machine)
    requires
        past(s),
    ensures
        past(step(s)),
{
    if s.control is Eval || s.control is Return {
        if s.stack.len() >= 1 {
            let x = above(s);
            above_is_over(s);
            if !settled(x) {
                a_step_is_local(x, seq![s.stack[0]]);
                over_is_above(step(x), s.stack[0]);
            } else {
                assert(x.stack.len() == 0);
                assert(s.stack.len() == 1);
                assert(s.stack.last() == s.stack[0]);
                assert(s.stack.drop_last() =~= Seq::<FrameTerm>::empty());
            }
        }
    }
}

/// What is done stays below the end of a heap that grows.
proof fn bounds_grow(x: Machine, y: Machine, done: Seq<Val>)
    requires
        x.heap.len() <= y.heap.len(),
        all_ok(done, below_len(x.heap.len())),
    ensures
        all_ok(done, below_len(y.heap.len())),
{
    all_weaker(done, below_len(x.heap.len()), below_len(y.heap.len()));
}

proof fn a_step_stays_in_bounds(x: Machine)
    requires
        values_ok(x, below_len(x.heap.len())),
        step(x).heap.len() <= usize::MAX,
    ensures
        values_ok(step(x), below_len(step(x).heap.len())),
        x.heap.len() <= step(x).heap.len(),
{
    let all = |v: Val| true;
    weaker(x, below_len(x.heap.len()), all);
    a_step_hands_on(x, all);
    let ok = below_len(step(x).heap.len());
    weaker(x, below_len(x.heap.len()), ok);
    a_step_hands_on(x, ok);
}

/// What is evaluated towards a cell of its own goes on towards it.
proof fn towards_own(x: Machine, done: Seq<Val>, base: nat)
    requires
        awaits_own(x, done, base),
        !settled(x),
        values_ok(x, below_len(x.heap.len())),
        all_ok(done, below_len(x.heap.len())),
        base <= x.heap.len(),
        step(x).heap.len() <= usize::MAX,
    ensures
        step(x).control is Failed || step(x).control is Waiting || awaits_own(step(x), done, base),
{
    let n = x.heap.len();
    if x.stack.len() == 0 {
        let u = x.control->Eval_0;
        let q = x.idle();
        let none = Seq::<Val>::empty();
        assert(held_ok(q, below_len(n)));
        if u.op == Op::Str {
            a_last_cell_is_own(q, q.heap, Contents::Str(u.names[0]));
            own_of(q, step(x), done, base);
        } else if u.op is EmptyArray {
        } else {
            assert(step(x) == operands(q, u.op, u.names, none, u.kids));
            operands_towards_own(q, u.op, u.names, none, u.kids, done, base);
        }
    } else if x.stack[0] is Operands && (x.stack.len() >= 2 || x.control is Eval) || x.control is Failed {
        let y = above(x);
        above_is_over(x);
        if !settled(y) {
            a_step_is_local(y, seq![x.stack[0]]);
            over_is_above(step(y), x.stack[0]);
        }
    } else {
        assert(x.stack.len() == 1);
        let w = x.control->Return_0;
        let q = x.idle().pop();
        assert(x.stack.last() == x.stack[0]);
        assert(frame_ok(x.stack[0], below_len(n)));
        assert(q.stack =~= Seq::<FrameTerm>::empty());
        if let FrameTerm::Operands { op, names, done: vs, todo } = x.stack[0] {
            assert(all_ok(vs.push(w), below_len(n))) by {
                assert forall|j: int| 0 <= j < vs.push(w).len() implies below_len(n)(
                    #[trigger] vs.push(w)[j],
                ) by {
                    if j < vs.len() {
                        assert(vs.push(w)[j] == vs[j]);
                    }
                }
            }
            assert(held_ok(q, below_len(n)));
            if meets(w, demand(op, vs.len())) {
                operands_towards_own(q, op, names, vs.push(w), todo, done, base);
            }
        }
    }
}

/// What gives a cell of its own gives one that what is done does not hold either.
proof fn own_of(q: Machine, r: Machine, done: Seq<Val>, base: nat)
    requires
        gives_its_own(q, r),
        all_ok(done, below_len(q.heap.len())),
        base <= q.heap.len(),
        q.stack.len() == 0,
    ensures
        awaits_own(r, done, base),
{
    let a = r.control->Return_0->HeapRef_0;
    all_weaker(done, below_len(q.heap.len()), other_than(a));
}

proof fn operands_towards_own(
    q: Machine,
    op: Op,
    names: Seq<Name>,
    vs: Seq<Val>,
    todo: Seq<Term>,
    done: Seq<Val>,
    base: nat,
)
    requires
        is_fresh(op),
        q.stack.len() == 0,
        held_ok(q, below_len(q.heap.len())),
        all_ok(vs, below_len(q.heap.len())),
        all_ok(done, below_len(q.heap.len())),
        base <= q.heap.len(),
        operands(q, op, names, vs, todo).heap.len() <= usize::MAX,
    ensures
        ({
            let r = operands(q, op, names, vs, todo);
            r.control is Failed || r.control is Waiting || awaits_own(r, done, base)
        }),
{
    let r = operands(q, op, names, vs, todo);
    if todo.len() == 0 {
        a_unique_operator_gives_its_own_cell(q, op, names, vs);
        if !(r.control is Failed) && !(r.control is Waiting) {
            own_of(q, r, done, base);
        }
    } else {
        let f = FrameTerm::Operands { op, names, done: vs, todo: todo.subrange(1, todo.len() as int) };
        assert(r.stack =~= seq![f]);
    }
}

/// One step of a call that is evaluating its arguments.
#[verifier::rlimit(40)]
#[verifier::spinoff_prover]
proof fn a_call_goes_on(s: Machine, t: Term, i: int, base: nat)
    requires
        on_the_way(s, t, i, base),
        0 <= i,
        i + 1 < t.kids.len(),
        is_fresh(t.kids[i + 1].op),
        step(s).heap.len() <= usize::MAX,
    ensures
        on_the_way(step(s), t, i, base) || past(step(s)),
{
    let x = above(s);
    let f = s.stack[0];
    above_is_over(s);
    if s.control is Failed || s.control is Waiting {
        past_stays(s);
    } else if !settled(x) {
        a_step_is_local(x, seq![f]);
        over_is_above(step(x), f);
        let y = step(x);
        assert(step(s) == over(y, seq![f]));
        a_step_stays_in_bounds(x);
        if let FrameTerm::Operands { op, names, done, todo } = f {
            bounds_grow(x, y, done);
            if done.len() == i + 1 {
                towards_own(x, done, base);
            } else if done.len() > i + 1 {
                let a = done[i + 1]->HeapRef_0;
                a_step_hands_on(x, other_than(a));
            }
        }
    } else {
        assert(x.stack.len() == 0);
        assert(s.stack.len() == 1);
        assert(s.stack.last() == f);
        let v = s.control->Return_0;
        let q = s.idle().pop();
        assert(q.stack =~= Seq::<FrameTerm>::empty());
        if let FrameTerm::Operands { op, names, done, todo } = f {
            let n = done.len() as int;
            let len = t.kids.len() as int;
            let more = done.push(v);
            assert(step(s) == operands(q, op, names, more, todo));
            if todo.len() == 0 {
                assert(step(s) == called(q, more[0], more.subrange(1, more.len() as int))
                    || step(s).control is Failed);
            } else {
                let rest = todo.subrange(1, todo.len() as int);
                let g = FrameTerm::Operands { op, names, done: more, todo: rest };
                let next = q.evaluate(todo[0]);
                let r = step(s);
                assert(r.stack =~= seq![g]);
                assert(above(r) == next) by {
                    assert(r.stack.skip(1) =~= q.stack);
                }
                assert(todo[0] == t.kids[n + 1]);
                assert(rest =~= t.kids.subrange(n + 2, len));
                let ok = below_len(x.heap.len());
                assert(all_ok(more, ok)) by {
                    assert forall|j: int| 0 <= j < more.len() implies ok(#[trigger] more[j]) by {
                        if j < n {
                            assert(more[j] == done[j]);
                        }
                    }
                }
                assert(values_ok(next, ok));
                if n == i + 1 {
                    let a = v->HeapRef_0;
                    assert forall|j: int| 0 <= j < more.len() && j != i + 1 implies #[trigger] more[j]
                        != Val::HeapRef(a) by {
                        assert(more[j] == done[j]);
                        assert(other_than(a)(done[j]));
                    }
                    assert(values_ok(next, other_than(a)));
                    assert(has_own(next, more, i + 1, base));
                } else if n > i + 1 {
                    let a = done[i + 1]->HeapRef_0;
                    assert(other_than(a)(v));
                    assert forall|j: int| 0 <= j < more.len() && j != i + 1 implies #[trigger] more[j]
                        != Val::HeapRef(a) by {
                        if j < n {
                            assert(more[j] == done[j]);
                        }
                    }
                    assert(values_ok(next, other_than(a)));
                    assert(has_own(next, more, i + 1, base));
                }
            }
        }
    }
}

proof fn a_call_goes_on_and_on(s: Machine, t: Term, i: int, base: nat, n: nat)
    requires
        on_the_way(s, t, i, base) || past(s),
        0 <= i,
        i + 1 < t.kids.len(),
        is_fresh(t.kids[i + 1].op),
        forall|k: nat| k <= n ==> (#[trigger] run(s, k)).heap.len() <= usize::MAX,
    ensures
        on_the_way(run(s, n), t, i, base) || past(run(s, n)),
    decreases n,
{
    if n > 0 {
        assert(run(s, 1) == step(s)) by {
            assert(run(step(s), 0) == step(s));
        }
        assert(run(s, 1).heap.len() <= usize::MAX);
        if past(s) {
            past_stays(s);
        } else {
            a_call_goes_on(s, t, i, base);
        }
        assert forall|k: nat| k <= n - 1 implies (#[trigger] run(step(s), k)).heap.len()
            <= usize::MAX by {
            assert(run(s, k + 1) == run(step(s), k));
        }
        a_call_goes_on_and_on(step(s), t, i, base, (n - 1) as nat);
    }
}

/// Whether a term stands somewhere in another.
pub open spec fn stands_in(s: Term, t: Term) -> bool
    decreases t,
{
    ||| s == t
    ||| exists|i: int| 0 <= i < t.kids.len() && stands_in(s, #[trigger] t.kids[i])
    ||| exists|k: int| 0 <= k < t.arms.len() && stands_in_arm(s, #[trigger] t.arms[k])
}

/// Whether a term stands somewhere in an arm.
pub open spec fn stands_in_arm(s: Term, arm: ArmTerm) -> bool
    decreases arm,
{
    ||| (arm.guard matches Some(g) && stands_in(s, g))
    ||| stands_in(s, arm.body)
}

/// Whether a term stands somewhere in a program.
pub open spec fn stands_in_program(s: Term, p: ProgramTerm) -> bool {
    ||| exists|j: int| 0 <= j < p.functions.len() && stands_in(s, #[trigger] p.functions[j].body)
    ||| exists|j: int| 0 <= j < p.globals.len() && stands_in(s, #[trigger] p.globals[j].value)
}

proof fn passes_wherever(s: Term, t: Term, f: Name, arity: nat, i: int)
    requires
        stands_in(s, t),
        passes_unique(t, f, arity, i),
    ensures
        passes_unique(s, f, arity, i),
    decreases t,
{
    if s != t {
        if exists|k: int| 0 <= k < t.kids.len() && stands_in(s, #[trigger] t.kids[k]) {
            let k = choose|k: int| 0 <= k < t.kids.len() && stands_in(s, #[trigger] t.kids[k]);
            passes_wherever(s, t.kids[k], f, arity, i);
        } else {
            let k = choose|k: int| 0 <= k < t.arms.len() && stands_in_arm(s, #[trigger] t.arms[k]);
            let arm = t.arms[k];
            crate::ir::arm_decreases(arm);
            assert(arm_passes_unique(arm, f, arity, i));
            if stands_in(s, arm.body) {
                passes_wherever(s, arm.body, f, arity, i);
            } else {
                passes_wherever(s, arm.guard->0, f, arity, i);
            }
        }
    }
}

pub(crate) proof fn shaped_below(s: Term, t: Term)
    requires
        stands_in(s, t),
        forall|u: Term| #[trigger] stands_in(u, t) ==> shaped(u),
    ensures
        forall|u: Term| #[trigger] stands_in(u, s) ==> shaped(u),
    decreases t,
{
    if s != t {
        if exists|k: int| 0 <= k < t.kids.len() && stands_in(s, #[trigger] t.kids[k]) {
            let k = choose|k: int| 0 <= k < t.kids.len() && stands_in(s, #[trigger] t.kids[k]);
            assert forall|u: Term| #[trigger] stands_in(u, t.kids[k]) implies shaped(u) by {
                assert(stands_in(u, t));
            }
            shaped_below(s, t.kids[k]);
        } else {
            let k = choose|k: int| 0 <= k < t.arms.len() && stands_in_arm(s, #[trigger] t.arms[k]);
            let arm = t.arms[k];
            crate::ir::arm_decreases(arm);
            let inside = if stands_in(s, arm.body) {
                arm.body
            } else {
                arm.guard->0
            };
            assert forall|u: Term| #[trigger] stands_in(u, inside) implies shaped(u) by {
                assert(stands_in_arm(u, t.arms[k]));
                assert(stands_in(u, t));
            }
            shaped_below(s, inside);
        }
    }
}

proof fn stays_wherever(s: Term, t: Term, f: Name)
    requires
        stands_in(s, t),
        !escapes(t, f),
        forall|u: Term| #[trigger] stands_in(u, t) ==> shaped(u),
    ensures
        !escapes(s, f) || s.op == Op::Var,
    decreases t,
{
    if s != t {
        if exists|k: int| 0 <= k < t.kids.len() && stands_in(s, #[trigger] t.kids[k]) {
            let k = choose|k: int| 0 <= k < t.kids.len() && stands_in(s, #[trigger] t.kids[k]);
            let kid = t.kids[k];
            assert(stands_in(kid, kid));
            assert(stands_in(kid, t));
            shaped_below(kid, t);
            if k == 0 && is_direct_call(t) {
                assert(shaped(kid));
                assert(s == kid);
            } else {
                assert(!escapes(kid, f));
                stays_wherever(s, kid, f);
            }
        } else {
            let k = choose|k: int| 0 <= k < t.arms.len() && stands_in_arm(s, #[trigger] t.arms[k]);
            let arm = t.arms[k];
            crate::ir::arm_decreases(arm);
            assert(!arm_escapes(arm, f));
            let inside = if stands_in(s, arm.body) {
                arm.body
            } else {
                arm.guard->0
            };
            assert(stands_in(inside, inside));
            assert(stands_in_arm(inside, t.arms[k]));
            assert(stands_in(inside, t));
            shaped_below(inside, t);
            stays_wherever(s, inside, f);
        }
    }
}

/// Whether place `i` of the parameters of a function that is named `f` is called `x`.
pub open spec fn is_parameter(p: ProgramTerm, f: Name, i: int, x: Name) -> bool {
    exists|j: int|
        0 <= j < p.functions.len() && (#[trigger] p.functions[j]).name == f && 0 <= i
            < p.functions[j].params.len() && p.functions[j].params[i] == x
}

/// Where a parameter that may be reused stands, and what has been found of it.
proof fn where_reusable(p: ProgramTerm, f: Name, x: Name, n: nat) -> (i: int)
    requires
        n <= p.functions.len(),
        reusable_upto(p, n).contains_key(f),
        reusable_upto(p, n)[f].contains(x),
    ensures
        is_parameter(p, f, i, x),
        i < arity_of(p, f, p.functions.len()),
        !program_escapes(p, f),
        program_passes_unique(p, f, arity_of(p, f, p.functions.len()), i),
    decreases n,
{
    let last = p.functions[n - 1];
    if last.name == f && reusable_in(p, last) != Set::<Name>::empty() {
        assert(reusable_in(p, last).contains(x));
        let i = choose|i: int|
            0 <= i < last.params.len() && #[trigger] last.params[i] == x && reusable_at(p, last, i);
        i
    } else {
        where_reusable(p, f, x, (n - 1) as nat)
    }
}

proof fn body_shaped(p: ProgramTerm, t: Term)
    requires
        forall|u: Term| #[trigger] stands_in_program(u, p) ==> shaped(u),
        (exists|j: int| 0 <= j < p.functions.len() && #[trigger] p.functions[j].body == t) || (exists|
            j: int,
        |
            0 <= j < p.globals.len() && #[trigger] p.globals[j].value == t),
    ensures
        forall|u: Term| #[trigger] stands_in(u, t) ==> shaped(u),
{
    assert forall|u: Term| #[trigger] stands_in(u, t) implies shaped(u) by {
        if exists|j: int| 0 <= j < p.functions.len() && #[trigger] p.functions[j].body == t {
            let j = choose|j: int| 0 <= j < p.functions.len() && #[trigger] p.functions[j].body == t;
            assert(stands_in(u, p.functions[j].body));
        } else {
            let j = choose|j: int| 0 <= j < p.globals.len() && #[trigger] p.globals[j].value == t;
            assert(stands_in(u, p.globals[j].value));
        }
        assert(stands_in_program(u, p));
    }
}

/// A function with a parameter that may be reused is never a value: wherever its name stands
/// as a variable in the program, it is what a call calls.
pub proof fn a_function_with_a_reusable_parameter_is_only_called(
    p: ProgramTerm,
    f: Name,
    x: Name,
    t: Term,
)
    requires
        reusable_upto(p, p.functions.len()).contains_key(f),
        reusable_upto(p, p.functions.len())[f].contains(x),
        stands_in_program(t, p),
        forall|u: Term| #[trigger] stands_in_program(u, p) ==> shaped(u),
    ensures
        forall|i: int|
            0 <= i < t.kids.len() && is_var(#[trigger] t.kids[i], f) ==> t.op == Op::Call && i == 0,
        forall|k: int|
            0 <= k < t.arms.len() ==> !is_var((#[trigger] t.arms[k]).body, f) && !(
            t.arms[k].guard matches Some(g) && is_var(g, f)),
        forall|j: int| 0 <= j < p.functions.len() ==> !is_var(#[trigger] p.functions[j].body, f),
        forall|j: int| 0 <= j < p.globals.len() ==> !is_var(#[trigger] p.globals[j].value, f),
{
    let i = where_reusable(p, f, x, p.functions.len());
    let whole = if exists|j: int|
        0 <= j < p.functions.len() && stands_in(t, #[trigger] p.functions[j].body) {
        let j = choose|j: int|
            0 <= j < p.functions.len() && stands_in(t, #[trigger] p.functions[j].body);
        assert(p.functions[j].body == p.functions[j].body);
        p.functions[j].body
    } else {
        let j = choose|j: int|
            0 <= j < p.globals.len() && stands_in(t, #[trigger] p.globals[j].value);
        assert(p.globals[j].value == p.globals[j].value);
        p.globals[j].value
    };
    body_shaped(p, whole);
    stays_wherever(t, whole, f);
    assert(shaped(t));
    assert forall|i: int| 0 <= i < t.kids.len() && is_var(#[trigger] t.kids[i], f) implies t.op
        == Op::Call && i == 0 by {
        assert(escapes(t.kids[i], f));
    }
    assert forall|k: int| 0 <= k < t.arms.len() implies !is_var((#[trigger] t.arms[k]).body, f)
        && !(t.arms[k].guard matches Some(g) && is_var(g, f)) by {
        assert(!arm_escapes(t.arms[k], f));
    }
    assert forall|j: int| 0 <= j < p.functions.len() implies !is_var(
        #[trigger] p.functions[j].body,
        f,
    ) by {
        assert(!escapes(p.functions[j].body, f));
    }
    assert forall|j: int| 0 <= j < p.globals.len() implies !is_var(
        #[trigger] p.globals[j].value,
        f,
    ) by {
        assert(!escapes(p.globals[j].value, f));
    }
}

/// Every call of a function with a reusable parameter has a cell of its own for it: whatever
/// machine the call is made in, once its arguments have been evaluated the one for that
/// parameter is an address that was not given out before the call began. No scope, no global,
/// no reference cell, no closure, no field of a cell and no other argument holds it, and so
/// neither does anything that waited for the call.
#[verifier::rlimit(40)]
#[verifier::spinoff_prover]
pub proof fn a_reusable_parameter_is_given_its_own_cell(
    p: ProgramTerm,
    f: Name,
    x: Name,
    t: Term,
    m: Machine,
    n: nat,
) -> (i: int)
    requires
        reusable_upto(p, p.functions.len()).contains_key(f),
        reusable_upto(p, p.functions.len())[f].contains(x),
        stands_in_program(t, p),
        is_source(t),
        calls_by_name(m, t),
        t.kids[0].names[0] == f,
        in_bounds(started(m, t)),
        forall|k: nat| k <= n ==> (#[trigger] run(started(m, t), k)).heap.len() <= usize::MAX,
        ({
            let s = run(started(m, t), n);
            &&& s.stack.len() == 1
            &&& s.stack[0] is Operands
            &&& s.stack[0]->todo.len() == 0
            &&& s.control is Return
        }),
    ensures
        is_parameter(p, f, i, x),
        ({
            let s = run(started(m, t), n);
            let args = s.stack[0]->Operands_done.push(s.control->Return_0);
            &&& s.stack[0]->Operands_op == Op::Call
            &&& args.len() == t.kids.len()
            &&& 0 <= i < args.len() - 1
            &&& args[i + 1] matches Val::HeapRef(a) && {
                &&& m.heap.len() <= a < s.heap.len()
                &&& scope_ok(s.env, other_than(a))
                &&& scope_ok(s.globals, other_than(a))
                &&& all_ok(s.refs, other_than(a))
                &&& closures_ok(s.closures, other_than(a))
                &&& heap_ok(s.heap, other_than(a))
                &&& forall|j: int|
                    0 <= j < args.len() && j != i + 1 ==> #[trigger] args[j] != Val::HeapRef(a)
            }
        }),
{
    let i = where_reusable(p, f, x, p.functions.len());
    let arity = arity_of(p, f, p.functions.len());
    if exists|j: int| 0 <= j < p.functions.len() && stands_in(t, #[trigger] p.functions[j].body) {
        let j = choose|j: int|
            0 <= j < p.functions.len() && stands_in(t, #[trigger] p.functions[j].body);
        passes_wherever(t, p.functions[j].body, f, arity, i);
    } else {
        let j = choose|j: int|
            0 <= j < p.globals.len() && stands_in(t, #[trigger] p.globals[j].value);
        passes_wherever(t, p.globals[j].value, f, arity, i);
    }
    assert(t.kids.len() == arity + 1 && unique_op(t.kids[i + 1].op));
    assert(is_source(t.kids[i + 1]));
    let q = started(m, t);
    let s = run(q, n);
    assert(n > 0);
    let s1 = step(q);
    let todo = t.kids.subrange(1, t.kids.len() as int);
    let done = seq![Val::Function(f)];
    assert(s1 == operands(q.idle(), Op::Call, t.names, done, todo));
    let g = FrameTerm::Operands {
        op: Op::Call,
        names: t.names,
        done,
        todo: todo.subrange(1, todo.len() as int),
    };
    assert(s1.stack =~= seq![g]);
    assert(above(s1) == q.idle().evaluate(todo[0])) by {
        assert(s1.stack.skip(1) =~= q.stack);
    }
    assert(todo[0] == t.kids[1]);
    assert(todo.subrange(1, todo.len() as int) =~= t.kids.subrange(2, t.kids.len() as int));
    assert(on_the_way(s1, t, i, m.heap.len()));
    assert forall|k: nat| k <= n - 1 implies (#[trigger] run(s1, k)).heap.len() <= usize::MAX by {
        assert(run(q, k + 1) == run(s1, k));
    }
    a_call_goes_on_and_on(s1, t, i, m.heap.len(), (n - 1) as nat);
    assert(run(s1, (n - 1) as nat) == s);
    let last = s.stack[0]->Operands_done;
    let v = s.control->Return_0;
    assert(last.len() + 1 == t.kids.len());
    let args = last.push(v);
    let y = above(s);
    assert(y.stack.len() == 0);
    if last.len() == i + 1 {
        let a = v->HeapRef_0;
        assert forall|j: int| 0 <= j < args.len() && j != i + 1 implies #[trigger] args[j]
            != Val::HeapRef(a) by {
            assert(args[j] == last[j]);
            assert(other_than(a)(last[j]));
        }
    } else {
        let a = last[i + 1]->HeapRef_0;
        assert(other_than(a)(v));
        assert forall|j: int| 0 <= j < args.len() && j != i + 1 implies #[trigger] args[j]
            != Val::HeapRef(a) by {
            if j < last.len() {
                assert(args[j] == last[j]);
            }
        }
        assert(args[i + 1] == last[i + 1]);
    }
    i
}

} // verus!
