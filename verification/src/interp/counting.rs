//! What an expression evaluates to, it evaluates to with its references counted.

use vstd::prelude::*;
use crate::fbip::laws::{
    counting_only_counts, is_source, is_source_arm, marking_only_counts, plain_of_source,
};
use crate::fbip::last_use::mark;
use crate::fbip::paid::{marked_parts, touched, touched_arm};
use crate::fbip::refcount::{
    allocates, arm_scope, body_scope, count_body, counted, counted_arm, drop_name, is_heap,
    kid_scope, scope_end_drop,
};
use crate::fbip::uses::is_var;
use crate::ir::{arm_decreases, shaped, t_rc, t_var, ArmTerm, Name, Op, RcOp, Term};
use super::erasure::{
    adjustments_keep_the_meaning, adjustments_lose_no_value, ended_at_fault, machine_transparent, plain_machine, transparent, transparent_arm,
};
use super::memory::same_contents;
use super::semantics::{run, started, Progress};
use super::state::Machine;
use super::value::Val;

verus! {

/// Whether a term calls the variable `name` anywhere.
pub open spec fn calls(t: Term, name: Name) -> bool
    decreases t,
{
    ||| t.op == Op::Call && t.kids.len() > 0 && is_var(t.kids[0], name)
    ||| exists|i: int| 0 <= i < t.kids.len() && calls(#[trigger] t.kids[i], name)
    ||| exists|k: int| 0 <= k < t.arms.len() && arm_calls(#[trigger] t.arms[k], name)
}

/// Whether an arm calls the variable `name` anywhere.
pub open spec fn arm_calls(arm: ArmTerm, name: Name) -> bool
    decreases arm,
{
    ||| (arm.guard matches Some(g) && calls(g, name))
    ||| calls(arm.body, name)
}

/// Whether no binding whose value is known to be a heap cell is called: a cell is no function.
/// The names in `heap` are known to hold heap cells.
pub open spec fn calls_nothing_counted(t: Term, heap: Set<Name>) -> bool
    decreases t,
{
    &&& shaped(t)
    &&& if t.op == Op::Let {
        let known = is_heap(t.kids[0], heap);
        &&& known || allocates(t.kids[0].op) ==> !calls(t.kids[1], t.names[0])
        &&& calls_nothing_counted(t.kids[0], heap)
        &&& calls_nothing_counted(
            t.kids[1],
            body_scope(heap, t.names[0], known),
        )
    } else {
        &&& forall|i: int|
            0 <= i < t.kids.len() ==> calls_nothing_counted(
                #[trigger] t.kids[i],
                kid_scope(heap, t, i),
            )
        &&& forall|k: int|
            0 <= k < t.arms.len() ==> arm_calls_nothing_counted(#[trigger] t.arms[k], heap)
    }
}

/// Whether no binding in an arm whose value is known to be a heap cell is called.
pub open spec fn arm_calls_nothing_counted(arm: ArmTerm, heap: Set<Name>) -> bool
    decreases arm,
{
    &&& (arm.guard matches Some(g) ==> calls_nothing_counted(g, arm_scope(heap, arm)))
    &&& calls_nothing_counted(arm.body, arm_scope(heap, arm))
}

/// Marking adds no call.
proof fn marking_adds_no_call(t: Term, name: Name, live: bool, other: Name)
    requires
        !calls(t, other),
    ensures
        !calls(mark(t, name, live).0, other),
    decreases t,
{
    let m = mark(t, name, live).0;
    if !shaped(t) {
    } else if t.op == Op::Var {
        if t.names[0] == name && live {
            assert(m.kids[0] == t);
            assert forall|i: int| 0 <= i < m.kids.len() implies !calls(
                #[trigger] m.kids[i],
                other,
            ) by {}
        }
    } else {
        marked_parts(t, name, live);
        assert forall|i: int| 0 <= i < m.kids.len() implies !calls(#[trigger] m.kids[i], other) by {
            assert(touched(t.kids[i], m.kids[i], name));
            assert(!calls(t.kids[i], other));
            if m.kids[i] != t.kids[i] {
                let l = choose|l: bool| m.kids[i] == (#[trigger] mark(t.kids[i], name, l)).0;
                marking_adds_no_call(t.kids[i], name, l, other);
            }
        }
        assert forall|k: int| 0 <= k < m.arms.len() implies !arm_calls(
            #[trigger] m.arms[k],
            other,
        ) by {
            let a = t.arms[k];
            let b = m.arms[k];
            arm_decreases(a);
            assert(touched_arm(a, b, name));
            assert(!arm_calls(a, other));
            if b.body != a.body {
                let l = choose|l: bool| b.body == (#[trigger] mark(a.body, name, l)).0;
                marking_adds_no_call(a.body, name, l, other);
            }
            if let Some(g) = a.guard {
                if b.guard->Some_0 != g {
                    let l = choose|l: bool| b.guard->Some_0 == (#[trigger] mark(g, name, l)).0;
                    marking_adds_no_call(g, name, l, other);
                }
            }
        }
        if t.op == Op::Call {
            assert(touched(t.kids[0], m.kids[0], name));
            if m.kids[0] != t.kids[0] {
                let l = choose|l: bool| m.kids[0] == (#[trigger] mark(t.kids[0], name, l)).0;
                marking_makes_no_variable(t.kids[0], name, l);
            }
        }
    }
}

/// Marking keeps variables, or wraps them, and turns nothing else into one.
proof fn marking_makes_no_variable(t: Term, name: Name, live: bool)
    ensures
        mark(t, name, live).0.op == Op::Var ==> mark(t, name, live).0 == t,
        t.op == Op::Var ==> mark(t, name, live).0 == t || (live && is_var(t, name)),
        t.op != Op::Var ==> mark(t, name, live).0.op == t.op,
{
    if shaped(t) && t.op != Op::Var {
        marked_parts(t, name, live);
    }
}

proof fn count_body_adds_no_call(name: Name, known: bool, value: Term, body: Term, other: Name)
    requires
        !calls(body, other),
    ensures
        !calls(count_body(name, known, value, body), other),
{
    let m = mark(body, name, false);
    marking_adds_no_call(body, name, false, other);
    let last = t_var(drop_name(name));
    assert(!calls(last, other));
    let rc = t_rc(RcOp::Dec, name, last);
    assert(rc.kids[0] == last);
    assert forall|i: int| 0 <= i < rc.kids.len() implies !calls(#[trigger] rc.kids[i], other) by {}
    let d = scope_end_drop(body, name);
    assert(d.kids[0] == body && d.kids[1] == rc);
    assert forall|i: int| 0 <= i < d.kids.len() implies !calls(#[trigger] d.kids[i], other) by {}
    let e = t_rc(RcOp::Dec, name, m.0);
    assert(e.kids[0] == m.0);
    assert forall|i: int| 0 <= i < e.kids.len() implies !calls(#[trigger] e.kids[i], other) by {}
}

/// Inserting adjustments adds no call.
proof fn counting_adds_no_call(t: Term, heap: Set<Name>, name: Name)
    requires
        !calls(t, name),
    ensures
        !calls(counted(t, heap), name),
        counted(t, heap).op == Op::Var ==> t.op == Op::Var && counted(t, heap).names == t.names,
    decreases t,
{
    let c = counted(t, heap);
    assert forall|i: int| 0 <= i < t.kids.len() implies !calls(#[trigger] t.kids[i], name) by {}
    if t.op == Op::AsCStr && t.kids.len() == 1 && t.kids[0].op == Op::Var && !heap.contains(
        t.kids[0].names[0],
    ) {
        assert(c.kids[0] == t);
        assert forall|i: int| 0 <= i < c.kids.len() implies !calls(#[trigger] c.kids[i], name) by {}
    } else if t.op == Op::Let && t.kids.len() == 2 {
        let known = is_heap(t.kids[0], heap);
        let inner = body_scope(heap, t.names[0], known);
        let value = counted(t.kids[0], heap);
        let body = counted(t.kids[1], inner);
        counting_adds_no_call(t.kids[0], heap, name);
        counting_adds_no_call(t.kids[1], inner, name);
        count_body_adds_no_call(t.names[0], known, value, body, name);
        assert(c.kids[0] == value);
        assert forall|i: int| 0 <= i < c.kids.len() implies !calls(#[trigger] c.kids[i], name) by {}
    } else {
        assert forall|i: int| 0 <= i < c.kids.len() implies !calls(#[trigger] c.kids[i], name) by {
            counting_adds_no_call(t.kids[i], kid_scope(heap, t, i), name);
        }
        assert forall|k: int| 0 <= k < c.arms.len() implies !arm_calls(
            #[trigger] c.arms[k],
            name,
        ) by {
            let arm = t.arms[k];
            arm_decreases(arm);
            assert(!arm_calls(arm, name));
            assert(c.arms[k] == counted_arm(arm, heap));
            counting_adds_no_call(arm.body, arm_scope(heap, arm), name);
            if let Some(g) = arm.guard {
                counting_adds_no_call(g, arm_scope(heap, arm), name);
            }
        }
        if t.op == Op::Call && t.kids.len() > 0 {
            counting_adds_no_call(t.kids[0], heap, name);
            assert(c.kids[0] == counted(t.kids[0], heap));
        }
    }
}

/// Marking a name that is not called stays transparent.
proof fn marking_stays_transparent(t: Term, name: Name, live: bool)
    requires
        transparent(t),
        !calls(t, name),
    ensures
        transparent(mark(t, name, live).0),
    decreases t,
{
    let m = mark(t, name, live).0;
    if t.op == Op::Var {
        if t.names[0] == name && live {
            assert(m.kids[0] == t);
            assert forall|i: int| 0 <= i < m.kids.len() implies transparent(
                #[trigger] m.kids[i],
            ) by {}
        }
    } else {
        marked_parts(t, name, live);
        assert forall|i: int| 0 <= i < m.kids.len() implies transparent(#[trigger] m.kids[i]) by {
            assert(touched(t.kids[i], m.kids[i], name));
            assert(transparent(t.kids[i]) && !calls(t.kids[i], name));
            if m.kids[i] != t.kids[i] {
                let l = choose|l: bool| m.kids[i] == (#[trigger] mark(t.kids[i], name, l)).0;
                marking_stays_transparent(t.kids[i], name, l);
            }
        }
        assert forall|k: int| 0 <= k < m.arms.len() implies transparent_arm(
            #[trigger] m.arms[k],
        ) by {
            let a = t.arms[k];
            let b = m.arms[k];
            arm_decreases(a);
            assert(touched_arm(a, b, name));
            assert(transparent_arm(a) && !arm_calls(a, name));
            if b.body != a.body {
                let l = choose|l: bool| b.body == (#[trigger] mark(a.body, name, l)).0;
                marking_stays_transparent(a.body, name, l);
            }
            if let Some(g) = a.guard {
                if b.guard->Some_0 != g {
                    let l = choose|l: bool| b.guard->Some_0 == (#[trigger] mark(g, name, l)).0;
                    marking_stays_transparent(g, name, l);
                }
            }
        }
        if t.op == Op::Call {
            assert(touched(t.kids[0], m.kids[0], name));
            if m.kids[0] != t.kids[0] {
                let l = choose|l: bool| m.kids[0] == (#[trigger] mark(t.kids[0], name, l)).0;
                marking_makes_no_variable(t.kids[0], name, l);
                marking_only_counts(t.kids[0], name, l);
            }
        }
    }
}

proof fn count_body_stays_transparent(name: Name, known: bool, value: Term, body: Term)
    requires
        transparent(body),
        known || allocates(value.op) ==> !calls(body, name),
    ensures
        transparent(count_body(name, known, value, body)),
{
    if known || allocates(value.op) {
        let m = mark(body, name, false);
        marking_stays_transparent(body, name, false);
        let last = t_var(drop_name(name));
        assert(transparent(last));
        let rc = t_rc(RcOp::Dec, name, last);
        assert(rc.kids[0] == last);
        assert(shaped(rc) && transparent(rc));
        let d = scope_end_drop(body, name);
        assert(d.kids[0] == body && d.kids[1] == rc);
        assert(shaped(d) && transparent(d));
        let e = t_rc(RcOp::Dec, name, m.0);
        assert(e.kids[0] == m.0);
        assert(shaped(e) && transparent(e));
    }
}

/// Counting an expression that calls nothing counted gives a transparent one.
proof fn counting_stays_transparent(t: Term, heap: Set<Name>)
    requires
        is_source(t),
        calls_nothing_counted(t, heap),
    ensures
        transparent(counted(t, heap)),
    decreases t,
{
    let c = counted(t, heap);
    if t.op == Op::AsCStr && t.kids[0].op == Op::Var && !heap.contains(t.kids[0].names[0]) {
        assert(is_source(t.kids[0]) && calls_nothing_counted(t.kids[0], heap));
        assert(transparent(t.kids[0]));
        assert(transparent(t));
        assert(c.kids[0] == t);
        assert(shaped(c));
    } else if t.op == Op::Let {
        let name = t.names[0];
        let known = is_heap(t.kids[0], heap);
        let inner = body_scope(heap, name, known);
        let value = counted(t.kids[0], heap);
        let body = counted(t.kids[1], inner);
        assert(is_source(t.kids[0]) && is_source(t.kids[1]));
        counting_stays_transparent(t.kids[0], heap);
        counting_stays_transparent(t.kids[1], inner);
        if known || allocates(t.kids[0].op) {
            counting_adds_no_call(t.kids[1], inner, name);
        }
        count_body_stays_transparent(name, known, value, body);
        assert(c.kids[0] == value && c.kids[1] == count_body(name, known, value, body));
        assert(shaped(c));
    } else {
        assert(shaped(c));
        assert forall|i: int| 0 <= i < c.kids.len() implies transparent(#[trigger] c.kids[i]) by {
            assert(is_source(t.kids[i]) && calls_nothing_counted(t.kids[i], kid_scope(heap, t, i)));
            counting_stays_transparent(t.kids[i], kid_scope(heap, t, i));
        }
        assert forall|k: int| 0 <= k < c.arms.len() implies transparent_arm(
            #[trigger] c.arms[k],
        ) by {
            let arm = t.arms[k];
            arm_decreases(arm);
            assert(is_source_arm(arm) && arm_calls_nothing_counted(arm, heap));
            assert(c.arms[k] == counted_arm(arm, heap));
            counting_stays_transparent(arm.body, arm_scope(heap, arm));
            if let Some(g) = arm.guard {
                counting_stays_transparent(g, arm_scope(heap, arm));
            }
        }
        if t.op == Op::Call {
            let callee = t.kids[0];
            assert(is_source(callee));
            assert(c.kids[0] == counted(callee, heap));
            counting_only_counts(callee, heap);
            plain_of_source(callee);
        }
    }
}

/// Counting keeps the meaning: what a counted expression evaluates to, the expression
/// evaluates to as well, with the same in every cell that is left.
pub proof fn counting_keeps_the_meaning(m: Machine, t: Term, n: nat, v: Val) -> (k: nat)
    requires
        machine_transparent(m),
        is_source(t),
        calls_nothing_counted(t, Set::empty()),
        run(started(m, counted(t, Set::empty())), n).progress() == Progress::Done(v),
    ensures
        ({
            let source = run(started(plain_machine(m, m.heap), t), k);
            let counting = run(started(m, counted(t, Set::empty())), n);
            &&& source.progress() == Progress::Done(v)
            &&& source.env == counting.env
            &&& same_contents(source.heap, counting.heap)
        }),
{
    counting_stays_transparent(t, Set::empty());
    counting_only_counts(t, Set::empty());
    plain_of_source(t);
    adjustments_keep_the_meaning(m, counted(t, Set::empty()), n, v)
}

/// Counting loses no value: what an expression evaluates to, the counted expression evaluates
/// to as well, with the same in every cell that is left, unless its adjustments are at fault.
pub proof fn counting_loses_no_value(m: Machine, t: Term, k: nat, v: Val) -> (n: nat)
    requires
        machine_transparent(m),
        is_source(t),
        calls_nothing_counted(t, Set::empty()),
        run(started(plain_machine(m, m.heap), t), k).progress() == Progress::Done(v),
    ensures
        ({
            let source = run(started(plain_machine(m, m.heap), t), k);
            let counting = run(started(m, counted(t, Set::empty())), n);
            ended_at_fault(counting) || {
                &&& counting.progress() == Progress::Done(v)
                &&& counting.env == source.env
                &&& same_contents(source.heap, counting.heap)
            }
        }),
{
    counting_stays_transparent(t, Set::empty());
    counting_only_counts(t, Set::empty());
    plain_of_source(t);
    adjustments_lose_no_value(m, counted(t, Set::empty()), k, v)
}

} // verus!
