//! Every counted binding of a counted expression is paid for.
//!
//! [`a_binding_is_paid_for`](super::balance::a_binding_is_paid_for) speaks of one binding.
//! Here it is carried through a whole expression, in which the adjustments for outer and
//! inner bindings are interleaved.

use vstd::prelude::*;
use crate::ir::{arm_decreases, shaped, t_rc, t_var, ArmTerm, Name, Op, RcOp, Term};
use super::balance::{
    a_binding_is_paid_for, arms_spent, bodies_spent, disturbs, drop_name_is_another, kids_spent,
    marked_arm, marked_arms_len, marked_body, marked_kid, marked_len, marked_receiver,
    receivers_spent, slot, spent, steady, steady_arm,
};
use super::last_use::{mark, mark_arms, mark_bodies, mark_loop, mark_receivers};
use super::refcount::{
    arm_scope, body_scope, count_body, counted, counted_arm, drop_name, is_heap, kid_scope,
    scope_end_drop,
};
use super::reuse::{in_place, may_rebuild, may_take};
use super::uses::{in_scope, is_var, mentions};

verus! {

/// Whether `b` is `a`, with the uses of `name` marked or as it was.
pub open spec fn touched(a: Term, b: Term, name: Name) -> bool {
    b == a || exists|live: bool| b == (#[trigger] mark(a, name, live)).0
}

/// Whether `b` is the arm `a`, with the uses of `name` marked or as it was.
pub open spec fn touched_arm(a: ArmTerm, b: ArmTerm, name: Name) -> bool {
    &&& b.tag == a.tag
    &&& b.bindings == a.bindings
    &&& touched(a.body, b.body, name)
    &&& match a.guard {
        Some(g) => b.guard is Some && touched(g, b.guard->Some_0, name),
        None => b.guard is None,
    }
}

/// Marking keeps a node, and marks its parts.
pub(crate) proof fn marked_parts(t: Term, name: Name, live: bool)
    requires
        shaped(t),
        t.op != Op::Var,
    ensures
        ({
            let m = mark(t, name, live).0;
            &&& m.op == t.op
            &&& m.names == t.names
            &&& m.types == t.types
            &&& m.kids.len() == t.kids.len()
            &&& m.arms.len() == t.arms.len()
            &&& forall|i: int|
                0 <= i < t.kids.len() ==> touched(t.kids[i], #[trigger] m.kids[i], name)
            &&& forall|k: int|
                0 <= k < t.arms.len() ==> touched_arm(t.arms[k], #[trigger] m.arms[k], name)
            &&& shaped(m)
        }),
{
    let m = mark(t, name, live).0;
    match t.op {
        Op::Match => {
            let arms = mark_arms(t, 0, name, live);
            let s = mark(t.kids[0], name, live || arms.1);
            assert(m.kids == seq![s.0]);
            marked_arms_len(t, 0, name, live);
            assert forall|k: int| 0 <= k < t.arms.len() implies touched_arm(
                t.arms[k],
                #[trigger] m.arms[k],
                name,
            ) by {
                marked_arm(t, 0, k as nat, name, live);
            }
        },
        Op::Select => {
            let n = t.kids.len() / 2;
            let b = mark_bodies(t, n, name, live);
            let outer = live || b.1;
            let r = mark_receivers(t, 0, name, outer);
            if n > 0 {
                marked_body(t, n, 0, name, live);
            } else {
                assert(b.0.len() == 0);
            }
            assert(m.kids.len() == t.kids.len());
            assert forall|i: int| 0 <= i < t.kids.len() implies touched(
                t.kids[i],
                #[trigger] m.kids[i],
                name,
            ) by {
                let h = i / 2;
                if i % 2 == 0 {
                    marked_receiver(t, 0, h as nat, name, outer);
                    assert(m.kids[i] == r.0[h]);
                } else {
                    marked_body(t, n, h as nat, name, live);
                    assert(m.kids[i] == b.0[h]);
                }
            }
        },
        Op::If => {
            let a = mark(t.kids[1], name, live);
            let b = mark(t.kids[2], name, live);
            let c = mark(t.kids[0], name, live || a.1 || b.1);
            assert(m.kids == seq![c.0, a.0, b.0]);
        },
        Op::For => {
            let b = mark_loop(t, name);
            let once = mark(t.kids[2], name, false);
            let again = mark(t.kids[2], name, true);
            assert(touched(t.kids[2], b.0, name));
            let e = mark(t.kids[1], name, live || b.1);
            let s = mark(t.kids[0], name, live || b.1 || e.1);
            assert(m.kids == seq![s.0, e.0, b.0]);
        },
        Op::Spawn => {
            if mentions(t.kids[0], name) {
                assert(m.kids == seq![mark(t.kids[0], name, true).0]);
            }
        },
        Op::Assign => {
            let r = mark(t.kids[1], name, live);
            let v = mark(t.kids[0], name, t.names[0] != name && (r.1 || live));
            assert(m.kids == seq![v.0, r.0]);
        },
        Op::Let => {
            let b = mark(t.kids[1], name, live);
            let v = mark(t.kids[0], name, live || (t.names[0] != name && b.1));
            assert(m.kids[0] == v.0);
        },
        Op::Closure(_) => {},
        _ => {
            marked_len(t, 0, name, live);
            assert forall|i: int| 0 <= i < t.kids.len() implies touched(
                t.kids[i],
                #[trigger] m.kids[i],
                name,
            ) by {
                marked_kid(t, 0, i as nat, name, live);
            }
        },
    }
}

/// Marking one name leaves another as steady as it was.
proof fn marking_keeps_steady(t: Term, name: Name, live: bool, other: Name)
    requires
        steady(t, other),
        name != other,
    ensures
        steady(mark(t, name, live).0, other),
    decreases t,
{
    let m = mark(t, name, live).0;
    if t.op == Op::Var {
        if t.names[0] == name && live {
            assert(m.kids[0] == t);
            assert forall|i: int|
                0 <= i < m.kids.len() && in_scope(m, i, other) implies steady(
                #[trigger] m.kids[i],
                other,
            ) by {}
        }
    } else {
        marked_parts(t, name, live);
        if !(t.op is Closure) {
            assert forall|i: int|
                0 <= i < m.kids.len() && in_scope(m, i, other) implies steady(
                #[trigger] m.kids[i],
                other,
            ) by {
                assert(touched(t.kids[i], m.kids[i], name));
                assert(steady(t.kids[i], other));
                if m.kids[i] != t.kids[i] {
                    let l = choose|l: bool| m.kids[i] == (#[trigger] mark(t.kids[i], name, l)).0;
                    marking_keeps_steady(t.kids[i], name, l, other);
                }
            }
        }
        assert forall|k: int| 0 <= k < m.arms.len() implies steady_arm(
            #[trigger] m.arms[k],
            other,
        ) by {
            let a = t.arms[k];
            let b = m.arms[k];
            arm_decreases(a);
            assert(touched_arm(a, b, name));
            assert(steady_arm(a, other));
            if !a.bindings.contains(other) {
                if b.body != a.body {
                    let l = choose|l: bool| b.body == (#[trigger] mark(a.body, name, l)).0;
                    marking_keeps_steady(a.body, name, l, other);
                }
                if let Some(g) = a.guard {
                    if b.guard->Some_0 != g {
                        let l = choose|l: bool| b.guard->Some_0 == (#[trigger] mark(g, name, l)).0;
                        marking_keeps_steady(g, name, l, other);
                    }
                }
            }
        }
    }
}

/// Whether two nodes agree in everything but their children and arms, and these spend alike.
spec fn alike(a: Term, b: Term, name: Name, reads: bool, rounds: nat) -> bool {
    &&& a.op == b.op
    &&& a.names == b.names
    &&& a.kids.len() == b.kids.len()
    &&& a.arms.len() == b.arms.len()
    &&& forall|i: int|
        0 <= i < a.kids.len() ==> spent(#[trigger] a.kids[i], name, reads, rounds) == spent(
            b.kids[i],
            name,
            reads,
            rounds,
        ) && is_var(a.kids[i], name) == is_var(b.kids[i], name)
    &&& forall|k: int|
        0 <= k < a.arms.len() ==> alike_arm(#[trigger] a.arms[k], b.arms[k], name, reads, rounds)
    &&& may_take(a, 0, name) == may_take(b, 0, name)
}

spec fn alike_arm(a: ArmTerm, b: ArmTerm, name: Name, reads: bool, rounds: nat) -> bool {
    &&& a.bindings == b.bindings
    &&& spent(a.body, name, reads, rounds) == spent(b.body, name, reads, rounds)
    &&& match a.guard {
        Some(g) => b.guard is Some && spent(g, name, reads, rounds) == spent(
            b.guard->Some_0,
            name,
            reads,
            rounds,
        ),
        None => b.guard is None,
    }
}

proof fn alike_kids(a: Term, b: Term, i: nat, name: Name, reads: bool, rounds: nat)
    requires
        alike(a, b, name, reads, rounds),
    ensures
        kids_spent(a, i, name, reads, rounds) == kids_spent(b, i, name, reads, rounds),
    decreases a.kids.len() - i,
{
    if i < a.kids.len() {
        assert(spent(a.kids[i as int], name, reads, rounds) == spent(
            b.kids[i as int],
            name,
            reads,
            rounds,
        ));
        assert(slot(a, i as int, name, reads, rounds) == slot(b, i as int, name, reads, rounds));
        alike_kids(a, b, i + 1, name, reads, rounds);
    }
}

proof fn alike_arms(a: Term, b: Term, k: nat, name: Name, reads: bool, rounds: nat)
    requires
        alike(a, b, name, reads, rounds),
    ensures
        arms_spent(a, k, name, reads, rounds) == arms_spent(b, k, name, reads, rounds),
    decreases a.arms.len() - k,
{
    if k < a.arms.len() {
        assert(alike_arm(a.arms[k as int], b.arms[k as int], name, reads, rounds));
        alike_arms(a, b, k + 1, name, reads, rounds);
    }
}

proof fn alike_receivers(a: Term, b: Term, i: nat, name: Name, reads: bool, rounds: nat)
    requires
        alike(a, b, name, reads, rounds),
    ensures
        receivers_spent(a, i, name, reads, rounds) == receivers_spent(b, i, name, reads, rounds),
    decreases a.kids.len() - i,
{
    if 2 * i + 1 < a.kids.len() {
        assert(spent(a.kids[2 * i as int], name, reads, rounds) == spent(
            b.kids[2 * i as int],
            name,
            reads,
            rounds,
        ));
        alike_receivers(a, b, i + 1, name, reads, rounds);
    }
}

proof fn alike_bodies(a: Term, b: Term, i: nat, name: Name, reads: bool, rounds: nat)
    requires
        alike(a, b, name, reads, rounds),
    ensures
        bodies_spent(a, i, name, reads, rounds) == bodies_spent(b, i, name, reads, rounds),
    decreases i,
{
    if i > 0 && 2 * i <= a.kids.len() {
        assert(spent(a.kids[2 * i - 1], name, reads, rounds) == spent(
            b.kids[2 * i - 1],
            name,
            reads,
            rounds,
        ));
        alike_bodies(a, b, (i - 1) as nat, name, reads, rounds);
    }
}

/// Nodes whose parts spend alike spend alike.
proof fn alike_spend_alike(a: Term, b: Term, name: Name, reads: bool, rounds: nat)
    requires
        alike(a, b, name, reads, rounds),
        shaped(a),
        shaped(b),
    ensures
        spent(a, name, reads, rounds) == spent(b, name, reads, rounds),
{
    alike_kids(a, b, 0, name, reads, rounds);
    alike_arms(a, b, 0, name, reads, rounds);
    alike_receivers(a, b, 0, name, reads, rounds);
    alike_bodies(a, b, a.kids.len() / 2, name, reads, rounds);
    assert forall|i: int| 0 <= i < a.kids.len() implies spent(
        #[trigger] a.kids[i],
        name,
        reads,
        rounds,
    ) == spent(b.kids[i], name, reads, rounds) by {}
    if a.op == Op::Match {
        assert(spent(a.kids[0], name, reads, rounds) == spent(b.kids[0], name, reads, rounds));
        assert(slot(a, 0, name, reads, rounds) == slot(b, 0, name, reads, rounds));
    }
    if a.op == Op::If || a.op == Op::For {
        assert(spent(a.kids[0], name, reads, rounds) == spent(b.kids[0], name, reads, rounds));
        assert(spent(a.kids[1], name, reads, rounds) == spent(b.kids[1], name, reads, rounds));
        assert(spent(a.kids[2], name, reads, rounds) == spent(b.kids[2], name, reads, rounds));
    }
    if a.op == Op::Assign {
        assert(spent(a.kids[0], name, reads, rounds) == spent(b.kids[0], name, reads, rounds));
        assert(spent(a.kids[1], name, reads, rounds) == spent(b.kids[1], name, reads, rounds));
    }
    if a.op is RcAnnotated {
        assert(spent(a.kids[0], name, reads, rounds) == spent(b.kids[0], name, reads, rounds));
    }
}

/// Marking keeps whether a node's result can be built in the memory of its first operand.
pub(crate) proof fn marking_keeps_what_may_be_taken(t: Term, name: Name, live: bool, other: Name)
    requires
        shaped(t),
        t.op != Op::Var,
    ensures
        may_take(mark(t, name, live).0, 0, other) == may_take(t, 0, other),
{
    let m = mark(t, name, live).0;
    marked_parts(t, name, live);
    assert forall|k: int| 0 <= k < t.arms.len() implies may_rebuild(#[trigger] m.arms[k])
        == may_rebuild(t.arms[k]) && m.arms[k].bindings == t.arms[k].bindings by {
        let a = t.arms[k];
        let b = m.arms[k];
        assert(touched_arm(a, b, name));
        if b.body != a.body {
            let l = choose|l: bool| b.body == (#[trigger] mark(a.body, name, l)).0;
            if shaped(a.body) && a.body.op != Op::Var {
                marked_parts(a.body, name, l);
            }
        }
    }
    if may_take(t, 0, other) && in_place(t.op) is None {
        let k = choose|k: int|
            0 <= k < t.arms.len() && may_rebuild(#[trigger] t.arms[k])
                && !t.arms[k].bindings.contains(other);
        assert(may_rebuild(m.arms[k]));
    }
}

/// Marking one name changes nothing in what is spent of another.
pub proof fn marking_leaves_other_names_alone(
    t: Term,
    name: Name,
    live: bool,
    other: Name,
    reads: bool,
    rounds: nat,
)
    requires
        name != other,
    ensures
        spent(mark(t, name, live).0, other, reads, rounds) == spent(t, other, reads, rounds),
        is_var(mark(t, name, live).0, other) == is_var(t, other),
    decreases t,
{
    let m = mark(t, name, live).0;
    if !shaped(t) {
    } else if t.op == Op::Var {
        if t.names[0] == name && live {
            assert(m.kids[0] == t);
            assert(shaped(m));
            assert(spent(t, other, reads, rounds) == 0);
        }
    } else {
        marked_parts(t, name, live);
        assert forall|i: int| 0 <= i < m.kids.len() implies spent(
            #[trigger] m.kids[i],
            other,
            reads,
            rounds,
        ) == spent(t.kids[i], other, reads, rounds) && is_var(m.kids[i], other) == is_var(
            t.kids[i],
            other,
        ) by {
            assert(touched(t.kids[i], m.kids[i], name));
            if m.kids[i] != t.kids[i] {
                let l = choose|l: bool| m.kids[i] == (#[trigger] mark(t.kids[i], name, l)).0;
                marking_leaves_other_names_alone(t.kids[i], name, l, other, reads, rounds);
            }
        }
        assert forall|k: int| 0 <= k < m.arms.len() implies alike_arm(
            #[trigger] m.arms[k],
            t.arms[k],
            other,
            reads,
            rounds,
        ) by {
            let a = t.arms[k];
            let b = m.arms[k];
            arm_decreases(a);
            assert(touched_arm(a, b, name));
            if b.body != a.body {
                let l = choose|l: bool| b.body == (#[trigger] mark(a.body, name, l)).0;
                marking_leaves_other_names_alone(a.body, name, l, other, reads, rounds);
            }
            if let Some(g) = a.guard {
                if b.guard->Some_0 != g {
                    let l = choose|l: bool| b.guard->Some_0 == (#[trigger] mark(g, name, l)).0;
                    marking_leaves_other_names_alone(g, name, l, other, reads, rounds);
                }
            }
        }
        marking_keeps_what_may_be_taken(t, name, live, other);
        alike_spend_alike(m, t, other, reads, rounds);
    }
}

/// Whether a name is that of a temporary that holds a scope's result.
pub open spec fn is_drop_name(name: Name) -> bool {
    exists|of: Name| name == #[trigger] drop_name(of)
}

/// Inserting adjustments for a binding leaves another name as steady as it was.
proof fn count_body_keeps_steady(name: Name, known: bool, value: Term, body: Term, other: Name)
    requires
        steady(body, other),
        name != other,
    ensures
        steady(count_body(name, known, value, body), other),
{
    let m = mark(body, name, false);
    marking_keeps_steady(body, name, false, other);
    let last = t_var(drop_name(name));
    assert(steady(last, other));
    let rc = t_rc(RcOp::Dec, name, last);
    assert(rc.kids[0] == last);
    assert(shaped(rc) && steady(rc, other));
    let d = scope_end_drop(body, name);
    assert(d.kids[0] == body && d.kids[1] == rc);
    assert(shaped(d) && steady(d, other));
    let e = t_rc(RcOp::Dec, name, m.0);
    assert(e.kids[0] == m.0);
    assert(shaped(e) && steady(e, other));
}

/// Inserting adjustments leaves the names of the program as steady as they were.
pub(crate) proof fn counting_keeps_steady(t: Term, heap: Set<Name>, name: Name)
    requires
        steady(t, name),
        !is_drop_name(name),
    ensures
        steady(counted(t, heap), name),
    decreases t,
{
    let c = counted(t, heap);
    if t.op == Op::AsCStr && t.kids.len() == 1 && t.kids[0].op == Op::Var && !heap.contains(
        t.kids[0].names[0],
    ) {
        assert(c.kids[0] == t);
        assert(shaped(c) && !disturbs(c, name));
    } else if t.op == Op::Let {
        let known = is_heap(t.kids[0], heap);
        let inner = body_scope(heap, t.names[0], known);
        let value = counted(t.kids[0], heap);
        let body = counted(t.kids[1], inner);
        counting_keeps_steady(t.kids[0], heap, name);
        if t.names[0] != name {
            counting_keeps_steady(t.kids[1], inner, name);
            count_body_keeps_steady(t.names[0], known, value, body, name);
        }
        assert(c.kids[0] == value);
        assert(shaped(c));
    } else {
        assert(shaped(c));
        if !(t.op is Closure) {
            assert forall|i: int|
                0 <= i < c.kids.len() && in_scope(c, i, name) implies steady(
                #[trigger] c.kids[i],
                name,
            ) by {
                counting_keeps_steady(t.kids[i], kid_scope(heap, t, i), name);
            }
        }
        assert forall|k: int| 0 <= k < c.arms.len() implies steady_arm(
            #[trigger] c.arms[k],
            name,
        ) by {
            let arm = t.arms[k];
            arm_decreases(arm);
            assert(steady_arm(arm, name));
            assert(c.arms[k] == counted_arm(arm, heap));
            if !arm.bindings.contains(name) {
                counting_keeps_steady(arm.body, arm_scope(heap, arm), name);
                if let Some(g) = arm.guard {
                    counting_keeps_steady(g, arm_scope(heap, arm), name);
                }
            }
        }
    }
}

/// A term without the adjustments round it.
pub open spec fn bare(t: Term) -> Term
    decreases t,
{
    if t.op is RcAnnotated && t.kids.len() == 1 {
        bare(t.kids[0])
    } else {
        t
    }
}

/// Whether every binding in a term whose value is known to be a heap cell spends at most
/// the one reference it starts with, when every loop runs `rounds` times. The names in
/// `heap` are known to hold heap cells.
pub open spec fn paid(t: Term, heap: Set<Name>, rounds: nat) -> bool
    decreases t,
{
    if t.op == Op::Let && t.kids.len() == 2 {
        let known = is_heap(bare(t.kids[0]), heap);
        &&& known ==> spent(t.kids[1], t.names[0], false, rounds) <= 1
        &&& paid(t.kids[0], heap, rounds)
        &&& paid(
            t.kids[1],
            body_scope(heap, t.names[0], known),
            rounds,
        )
    } else {
        &&& forall|i: int|
            0 <= i < t.kids.len() ==> paid(#[trigger] t.kids[i], kid_scope(heap, t, i), rounds)
        &&& forall|k: int| 0 <= k < t.arms.len() ==> paid_arm(#[trigger] t.arms[k], heap, rounds)
    }
}

/// Whether every binding in an arm spends at most the one reference it starts with.
pub open spec fn paid_arm(arm: ArmTerm, heap: Set<Name>, rounds: nat) -> bool
    decreases arm,
{
    &&& (arm.guard matches Some(g) ==> paid(g, arm_scope(heap, arm), rounds))
    &&& paid(arm.body, arm_scope(heap, arm), rounds)
}

/// Marking keeps whether a value is known to be a heap cell.
pub(crate) proof fn marking_keeps_known(t: Term, name: Name, live: bool, heap: Set<Name>)
    ensures
        is_heap(bare(mark(t, name, live).0), heap) == is_heap(bare(t), heap),
    decreases t,
{
    let m = mark(t, name, live).0;
    if !shaped(t) {
    } else if t.op == Op::Var {
        if t.names[0] == name && live {
            assert(m.kids[0] == t);
            assert(bare(m) == bare(t));
        }
    } else {
        marked_parts(t, name, live);
        if t.op is RcAnnotated {
            assert(touched(t.kids[0], m.kids[0], name));
            if m.kids[0] != t.kids[0] {
                let l = choose|l: bool| m.kids[0] == (#[trigger] mark(t.kids[0], name, l)).0;
                marking_keeps_known(t.kids[0], name, l, heap);
            }
        }
    }
}

/// Marking the uses of a name keeps the bindings inside paid for.
proof fn marking_keeps_paid(t: Term, name: Name, live: bool, heap: Set<Name>, rounds: nat)
    requires
        paid(t, heap, rounds),
    ensures
        paid(mark(t, name, live).0, heap, rounds),
    decreases t,
{
    let m = mark(t, name, live).0;
    if !shaped(t) {
    } else if t.op == Op::Var {
        if t.names[0] == name && live {
            assert(m.kids[0] == t);
        }
    } else if t.op == Op::Let {
        marked_parts(t, name, live);
        let known = is_heap(bare(t.kids[0]), heap);
        let inner = body_scope(heap, t.names[0], known);
        assert(touched(t.kids[0], m.kids[0], name));
        assert(touched(t.kids[1], m.kids[1], name));
        if m.kids[0] != t.kids[0] {
            let l = choose|l: bool| m.kids[0] == (#[trigger] mark(t.kids[0], name, l)).0;
            marking_keeps_known(t.kids[0], name, l, heap);
            marking_keeps_paid(t.kids[0], name, l, heap, rounds);
        }
        if t.names[0] == name {
            assert(m.kids[1] == t.kids[1]);
        } else if m.kids[1] != t.kids[1] {
            let l = choose|l: bool| m.kids[1] == (#[trigger] mark(t.kids[1], name, l)).0;
            marking_keeps_paid(t.kids[1], name, l, inner, rounds);
            marking_leaves_other_names_alone(t.kids[1], name, l, t.names[0], false, rounds);
        }
    } else {
        marked_parts(t, name, live);
        assert forall|i: int| 0 <= i < m.kids.len() implies paid(
            #[trigger] m.kids[i],
            kid_scope(heap, m, i),
            rounds,
        ) by {
            assert(touched(t.kids[i], m.kids[i], name));
            assert(paid(t.kids[i], kid_scope(heap, t, i), rounds));
            if m.kids[i] != t.kids[i] {
                let l = choose|l: bool| m.kids[i] == (#[trigger] mark(t.kids[i], name, l)).0;
                marking_keeps_paid(t.kids[i], name, l, kid_scope(heap, t, i), rounds);
            }
        }
        assert forall|k: int| 0 <= k < m.arms.len() implies paid_arm(
            #[trigger] m.arms[k],
            heap,
            rounds,
        ) by {
            let a = t.arms[k];
            let b = m.arms[k];
            arm_decreases(a);
            assert(touched_arm(a, b, name));
            assert(paid_arm(a, heap, rounds));
            if b.body != a.body {
                let l = choose|l: bool| b.body == (#[trigger] mark(a.body, name, l)).0;
                marking_keeps_paid(a.body, name, l, arm_scope(heap, a), rounds);
            }
            if let Some(g) = a.guard {
                if b.guard->Some_0 != g {
                    let l = choose|l: bool| b.guard->Some_0 == (#[trigger] mark(g, name, l)).0;
                    marking_keeps_paid(g, name, l, arm_scope(heap, a), rounds);
                }
            }
        }
    }
}

/// Whether a term holds no adjustments yet, and every name it binds by `Let` is used in the
/// binding's body, or rebound, and nothing else.
pub open spec fn countable(t: Term) -> bool
    decreases t,
{
    &&& shaped(t)
    &&& !(t.op is RcAnnotated)
    &&& t.op == Op::Let ==> steady(t.kids[1], t.names[0]) && !is_drop_name(t.names[0])
    &&& forall|i: int| 0 <= i < t.kids.len() ==> countable(#[trigger] t.kids[i])
    &&& forall|k: int| 0 <= k < t.arms.len() ==> countable_arm(#[trigger] t.arms[k])
}

/// Whether an arm holds no adjustments yet, and its bindings can be counted.
pub open spec fn countable_arm(arm: ArmTerm) -> bool
    decreases arm,
{
    &&& (arm.guard matches Some(g) ==> countable(g))
    &&& countable(arm.body)
}

proof fn count_body_is_paid(
    name: Name,
    known: bool,
    value: Term,
    body: Term,
    heap: Set<Name>,
    rounds: nat,
)
    requires
        paid(body, heap, rounds),
    ensures
        paid(count_body(name, known, value, body), heap, rounds),
{
    let m = mark(body, name, false);
    marking_keeps_paid(body, name, false, heap, rounds);
    let temp = drop_name(name);
    let last = t_var(temp);
    let rc = t_rc(RcOp::Dec, name, last);
    let d = scope_end_drop(body, name);
    let inner = body_scope(heap, temp, is_heap(bare(body), heap));
    drop_name_is_another(name);
    assert(rc.kids[0] == last);
    assert(shaped(rc) && shaped(last));
    assert(spent(last, temp, false, rounds) == 1);
    assert(spent(rc, temp, false, rounds) == 1);
    assert(paid(last, inner, rounds));
    assert(paid(rc, inner, rounds));
    assert(d.kids[0] == body && d.kids[1] == rc);
    assert(paid(d, heap, rounds));
    let e = t_rc(RcOp::Dec, name, m.0);
    assert(e.kids[0] == m.0);
    assert(paid(e, heap, rounds));
}

/// Counting never overspends. In a counted expression every binding whose value is known to
/// be a heap cell spends at most the one reference it starts with, beyond those that
/// increments add, on every path and however often loops run.
pub proof fn counting_never_overspends(t: Term, heap: Set<Name>, rounds: nat)
    requires
        countable(t),
    ensures
        paid(counted(t, heap), heap, rounds),
    decreases t,
{
    let c = counted(t, heap);
    if t.op == Op::AsCStr && t.kids[0].op == Op::Var && !heap.contains(t.kids[0].names[0]) {
        assert(c.kids[0] == t);
        assert(countable(t.kids[0]));
        assert(paid(t.kids[0], heap, rounds));
        assert(paid(t, heap, rounds));
    } else if t.op == Op::Let {
        let name = t.names[0];
        let known = is_heap(t.kids[0], heap);
        let inner = body_scope(heap, name, known);
        let value = counted(t.kids[0], heap);
        let body = counted(t.kids[1], inner);
        counting_never_overspends(t.kids[0], heap, rounds);
        counting_never_overspends(t.kids[1], inner, rounds);
        counting_keeps_steady(t.kids[1], inner, name);
        assert(countable(t.kids[0]));
        assert(is_heap(bare(value), heap) == known);
        count_body_is_paid(name, known, value, body, inner, rounds);
        if known {
            a_binding_is_paid_for(name, known, value, body, rounds);
        }
        assert(c.kids[0] == value && c.kids[1] == count_body(name, known, value, body));
    } else {
        assert forall|i: int| 0 <= i < c.kids.len() implies paid(
            #[trigger] c.kids[i],
            kid_scope(heap, c, i),
            rounds,
        ) by {
            assert(countable(t.kids[i]));
            counting_never_overspends(t.kids[i], kid_scope(heap, t, i), rounds);
        }
        assert forall|k: int| 0 <= k < c.arms.len() implies paid_arm(
            #[trigger] c.arms[k],
            heap,
            rounds,
        ) by {
            let arm = t.arms[k];
            arm_decreases(arm);
            assert(countable_arm(arm));
            assert(c.arms[k] == counted_arm(arm, heap));
            counting_never_overspends(arm.body, arm_scope(heap, arm), rounds);
            if let Some(g) = arm.guard {
                counting_never_overspends(g, arm_scope(heap, arm), rounds);
            }
        }
    }
}

} // verus!
