//! Building in place is paid for as well.
//!
//! A cell that is built in the memory of a binding spends the binding's reference. Marking
//! for reuse turns a use into such a spending, and takes the release at the end of the scope
//! away in return.

use vstd::prelude::*;
use crate::ir::{arm_decreases, shaped, t_rc, t_var, ArmTerm, Name, Op, RcOp, Term};
use super::balance::{
    arms_spent, bodies_spent, drop_name_is_another, every_use_but_the_last_is_counted, kids_spent,
    reading_spends_nothing, receivers_spent, slot, spent, steady,
};
use super::last_use::mark;
use super::laws::unmentioned_is_unmarked;
use super::optimized;
use super::paid::{
    bare, countable, countable_arm, counting_keeps_steady, is_drop_name, marked_parts,
    marking_keeps_known, marking_leaves_other_names_alone, paid, paid_arm, touched, touched_arm,
};
use super::refcount::{
    arm_scope, body_scope, borrowed_once, count_body, counted, counted_arm, drop_name, is_heap,
    kid_scope, scope_end_drop,
};
use super::reuse::{
    arm_target, in_place, is_tracked_var, may_rebuild, may_take, rebuild, reuse_scope, reused,
    reused_arm, strip,
};
use super::uses::{arm_incs, arm_reuses, claims, incs, is_var, mentions, reuses};

verus! {

/// Marking that adds no increment adds nothing.
proof fn marking_only_adds_increments(t: Term, name: Name, live: bool)
    requires
        !incs(mark(t, name, live).0, name),
    ensures
        mark(t, name, live).0 == t,
    decreases t,
{
    let m = mark(t, name, live).0;
    if shaped(t) && t.op != Op::Var {
        marked_parts(t, name, live);
        assert forall|i: int| 0 <= i < t.kids.len() implies #[trigger] m.kids[i] == t.kids[i] by {
            assert(touched(t.kids[i], m.kids[i], name));
            assert(!incs(m.kids[i], name));
            if m.kids[i] != t.kids[i] {
                let l = choose|l: bool| m.kids[i] == (#[trigger] mark(t.kids[i], name, l)).0;
                marking_only_adds_increments(t.kids[i], name, l);
            }
        }
        assert forall|k: int| 0 <= k < t.arms.len() implies #[trigger] m.arms[k] == t.arms[k] by {
            let a = t.arms[k];
            let b = m.arms[k];
            arm_decreases(a);
            assert(touched_arm(a, b, name));
            assert(!arm_incs(b, name));
            if b.body != a.body {
                let l = choose|l: bool| b.body == (#[trigger] mark(a.body, name, l)).0;
                marking_only_adds_increments(a.body, name, l);
            }
            if let Some(g) = a.guard {
                if b.guard->Some_0 != g {
                    let l = choose|l: bool| b.guard->Some_0 == (#[trigger] mark(g, name, l)).0;
                    marking_only_adds_increments(g, name, l);
                }
            }
        }
        assert(m.kids =~= t.kids);
        assert(m.arms =~= t.arms);
    }
}

/// What a scope with a release at its end spends.
proof fn drop_spends(body: Term, name: Name, other: Name, reads: bool, rounds: nat)
    ensures
        spent(scope_end_drop(body, name), other, reads, rounds) == spent(
            body,
            other,
            reads,
            rounds,
        ) + if other == name {
            1int
        } else {
            0
        },
{
    let d = scope_end_drop(body, name);
    let last = t_var(drop_name(name));
    let rc = t_rc(RcOp::Dec, name, last);
    drop_name_is_another(name);
    assert(d.kids[0] == body && d.kids[1] == rc && rc.kids[0] == last);
    assert(shaped(d) && shaped(rc) && shaped(last));
    assert(spent(last, other, reads, rounds) == if other == drop_name(name) {
        1int
    } else {
        0
    });
    assert(spent(rc, other, reads, rounds) == spent(last, other, reads, rounds) + if other == name {
        1int
    } else {
        0
    });
    assert(slot(d, 0, other, reads, rounds) == spent(body, other, reads, rounds));
    assert(slot(d, 1, other, reads, rounds) == if other == name {
        1int
    } else {
        0
    });
    assert(kids_spent(d, 2, other, reads, rounds) == 0);
    assert(kids_spent(d, 1, other, reads, rounds) == slot(d, 1, other, reads, rounds));
    assert(kids_spent(d, 0, other, reads, rounds) == slot(d, 0, other, reads, rounds) + slot(
        d,
        1,
        other,
        reads,
        rounds,
    ));
}

/// What a scope with a release at its end builds in place, it builds in its value.
proof fn drop_reuses(body: Term, name: Name, other: Name)
    ensures
        reuses(scope_end_drop(body, name), other) == reuses(body, other),
{
    let d = scope_end_drop(body, name);
    let last = t_var(drop_name(name));
    let rc = t_rc(RcOp::Dec, name, last);
    assert(d.kids[0] == body && d.kids[1] == rc && rc.kids[0] == last);
    assert(!reuses(last, other));
    assert forall|i: int| 0 <= i < rc.kids.len() implies !reuses(#[trigger] rc.kids[i], other) by {}
    assert(!reuses(rc, other));
    if reuses(body, other) {
        assert(reuses(d.kids[0], other));
    } else {
        assert forall|i: int| 0 <= i < d.kids.len() implies !reuses(#[trigger] d.kids[i], other) by {}
    }
}

/// Whether the children of `r` from place `i` on are those of `t` from place `i + shift` on,
/// spending no more.
spec fn cheaper(r: Term, t: Term, shift: nat, name: Name, reads: bool, rounds: nat) -> bool {
    &&& r.kids.len() + shift == t.kids.len()
    &&& forall|i: int|
        0 <= i < r.kids.len() ==> #[trigger] slot(r, i, name, false, rounds) <= slot(
            t,
            i + shift,
            name,
            reads,
            rounds,
        )
}

proof fn cheaper_kids(r: Term, t: Term, shift: nat, i: nat, name: Name, reads: bool, rounds: nat)
    requires
        cheaper(r, t, shift, name, reads, rounds),
    ensures
        kids_spent(r, i, name, false, rounds) <= kids_spent(t, i + shift, name, reads, rounds),
    decreases r.kids.len() - i,
{
    if i < r.kids.len() {
        assert(slot(r, i as int, name, false, rounds) <= slot(
            t,
            i as int + shift,
            name,
            reads,
            rounds,
        ));
        cheaper_kids(r, t, shift, i + 1, name, reads, rounds);
    }
}

/// The fields of a constructor cost the same, wherever it is built.
proof fn rebuilding_costs_the_cell(target: Option<Name>, arity: nat, body: Term, name: Name, rounds: nat)
    ensures
        spent(rebuild(target, arity, body), name, false, rounds) <= spent(body, name, false, rounds)
            + if target == Some(name) {
            1int
        } else {
            0
        },
        !reuses(rebuild(target, arity, body), name) ==> spent(
            rebuild(target, arity, body),
            name,
            false,
            rounds,
        ) <= spent(body, name, false, rounds) && !reuses(body, name),
{
    let r = rebuild(target, arity, body);
    if r.op == Op::CtorReuse && body.op == Op::Ctor {
        assert(shaped(r) == shaped(body));
        assert(r.kids == body.kids && r.arms == body.arms);
        if shaped(body) {
            assert forall|i: int| 0 <= i < r.kids.len() implies #[trigger] slot(r, i, name, false, rounds)
                <= slot(body, i + 0, name, false, rounds) by {
                assert(slot(r, i, name, false, rounds) == spent(r.kids[i], name, false, rounds));
            }
            cheaper_kids(r, body, 0, 0, name, false, rounds);
        }
        if reuses(body, name) && !reuses(r, name) {
            if exists|i: int| 0 <= i < body.kids.len() && reuses(#[trigger] body.kids[i], name) {
                let i = choose|i: int|
                    0 <= i < body.kids.len() && reuses(#[trigger] body.kids[i], name);
                assert(reuses(r.kids[i], name));
            } else {
                let k = choose|k: int|
                    0 <= k < body.arms.len() && arm_reuses(#[trigger] body.arms[k], name);
                assert(arm_reuses(r.arms[k], name));
            }
        }
    }
}

/// Marking for reuse spends no more than the uses it replaces, and no more than what is not
/// only read where it marks none.
proof fn reusing_spends_what_was_used(
    t: Term,
    known: Set<Name>,
    name: Name,
    reads: bool,
    rounds: nat,
    given: Set<Name>,
)
    requires
        reads || !reuses(reused(t, known, given), name),
    ensures
        spent(reused(t, known, given), name, false, rounds) <= spent(t, name, reads, rounds),
        is_var(reused(t, known, given), name) == is_var(t, name),
    decreases t, 1nat, 0nat,
{
    let r = reused(t, known, given);
    if t.op == Op::Let && t.kids.len() == 2 {
        let inner = body_scope(known, t.names[0], is_heap(t.kids[0], known));
        let value = reused(t.kids[0], known, given);
        let body = reused(t.kids[1], inner, given);
        let last = r.kids[1];
        assert(r.kids[0] == value);
        assert(!reuses(r, name) ==> !reuses(r.kids[0], name) && !reuses(r.kids[1], name));
        reusing_spends_what_was_used(t.kids[0], known, name, reads, rounds, given);
        if t.names[0] != name {
            if last != body {
                assert(body == scope_end_drop(last, t.names[0]));
                drop_reuses(last, t.names[0], name);
                drop_spends(last, t.names[0], name, false, rounds);
            }
            reusing_spends_what_was_used(t.kids[1], inner, name, reads, rounds, given);
        }
        assert(shaped(r) == shaped(t));
        if shaped(t) {
            assert(slot(r, 0, name, false, rounds) <= slot(t, 0, name, reads, rounds));
            assert(slot(r, 1, name, false, rounds) <= slot(t, 1, name, reads, rounds));
            assert forall|i: int| 0 <= i < r.kids.len() implies #[trigger] slot(r, i, name, false, rounds)
                <= slot(t, i + 0, name, reads, rounds) by {
                assert(i == 0 || i == 1);
            }
            cheaper_kids(r, t, 0, 0, name, reads, rounds);
        }
    } else if in_place(t.op) is Some && t.kids.len() > 0 && is_tracked_var(t.kids[0], known) {
        let target = t.kids[0].names[0];
        assert(shaped(r) == shaped(t));
        assert(r.names[0] == target);
        if shaped(t) {
            assert(r.kids.len() + 1 == t.kids.len());
            assert forall|i: int| 0 <= i < r.kids.len() implies #[trigger] slot(r, i, name, false, rounds)
                <= slot(t, i + 1, name, reads, rounds) by {
                assert(r.kids[i] == reused(t.kids[i + 1], known, given));
                assert(!reuses(r, name) ==> !reuses(r.kids[i], name));
                reusing_spends_what_was_used(t.kids[i + 1], known, name, reads, rounds, given);
                if is_var(t.kids[i + 1], name) && shaped(t.kids[i + 1]) {
                    assert(spent(t.kids[i + 1], name, reads, rounds) == 1);
                }
            }
            cheaper_kids(r, t, 1, 0, name, reads, rounds);
            let first = t.kids[0];
            assert(first == t_var(target));
            assert(shaped(first));
            assert(spent(first, name, reads, rounds) == if target == name {
                1int
            } else {
                0
            });
            if target == name {
                assert(claims(r, name));
                assert(slot(t, 0, name, reads, rounds) == 1);
            } else {
                assert(slot(t, 0, name, reads, rounds) == 0);
            }
            assert(kids_spent(t, 0, name, reads, rounds) == slot(t, 0, name, reads, rounds)
                + kids_spent(t, 1, name, reads, rounds));
        }
    } else {
        assert(shaped(r) == shaped(t));
        assert forall|i: int| 0 <= i < r.kids.len() implies spent(
            #[trigger] r.kids[i],
            name,
            false,
            rounds,
        ) <= spent(t.kids[i], name, reads, rounds) && is_var(r.kids[i], name) == is_var(
            t.kids[i],
            name,
        ) by {
            assert(r.kids[i] == reused(t.kids[i], reuse_scope(known, t, i, given), given));
            assert(!reuses(r, name) ==> !reuses(r.kids[i], name));
            reusing_spends_what_was_used(
                t.kids[i],
                reuse_scope(known, t, i, given),
                name,
                reads,
                rounds,
                given,
            );
        }
        assert forall|i: int| 0 <= i < r.kids.len() implies #[trigger] slot(r, i, name, false, rounds)
            <= slot(t, i + 0, name, reads, rounds) by {
            assert(spent(r.kids[i], name, false, rounds) <= spent(t.kids[i], name, reads, rounds));
            if is_var(t.kids[i], name) && shaped(t.kids[i]) {
                assert(spent(t.kids[i], name, reads, rounds) == 1);
            }
        }
        if shaped(t) {
            match t.op {
                Op::RcAnnotated(_) | Op::If => {
                    assert(spent(r.kids[0], name, false, rounds) <= spent(
                        t.kids[0],
                        name,
                        reads,
                        rounds,
                    ));
                    if t.op == Op::If {
                        assert(spent(r.kids[1], name, false, rounds) <= spent(
                            t.kids[1],
                            name,
                            reads,
                            rounds,
                        ));
                        assert(spent(r.kids[2], name, false, rounds) <= spent(
                            t.kids[2],
                            name,
                            reads,
                            rounds,
                        ));
                    }
                },
                Op::For => {
                    let a = spent(r.kids[2], name, false, rounds);
                    let b = spent(t.kids[2], name, reads, rounds);
                    assert(spent(r.kids[0], name, false, rounds) <= spent(
                        t.kids[0],
                        name,
                        reads,
                        rounds,
                    ));
                    assert(spent(r.kids[1], name, false, rounds) <= spent(
                        t.kids[1],
                        name,
                        reads,
                        rounds,
                    ));
                    assert(rounds * a <= rounds * b) by (nonlinear_arith)
                        requires
                            a <= b,
                            rounds >= 0,
                    ;
                },
                Op::Match => {
                    reusing_arms_spend_what_was_used(t, 0, known, name, reads, rounds, given);
                    assert(slot(r, 0, name, false, rounds) <= slot(
                        t,
                        0,
                        name,
                        reads,
                        rounds,
                    ));
                    if is_tracked_var(t.kids[0], known) && t.kids[0].names[0] == name {
                        assert(t.kids[0] == t_var(name));
                        assert(shaped(t.kids[0]));
                        assert(spent(t.kids[0], name, reads, rounds) == 1);
                        assert(is_var(r.kids[0], name));
                        assert(slot(r, 0, name, false, rounds) == 0);
                        assert(slot(t, 0, name, reads, rounds) == if reads && may_take(t, 0, name) {
                            1int
                        } else {
                            0
                        });
                    }
                },
                Op::Closure(_) => {},
                Op::Assign => {
                    assert(spent(r.kids[0], name, false, rounds) <= spent(
                        t.kids[0],
                        name,
                        reads,
                        rounds,
                    ));
                    assert(spent(r.kids[1], name, false, rounds) <= spent(
                        t.kids[1],
                        name,
                        reads,
                        rounds,
                    ));
                    cheaper_kids(r, t, 0, 0, name, reads, rounds);
                },
                Op::Select => {
                    cheaper_receivers(r, t, 0, name, reads, rounds);
                    cheaper_bodies(r, t, t.kids.len() / 2, name, reads, rounds);
                },
                _ => {
                    cheaper_kids(r, t, 0, 0, name, reads, rounds);
                },
            }
        }
    }
}

proof fn cheaper_receivers(r: Term, t: Term, i: nat, name: Name, reads: bool, rounds: nat)
    requires
        r.kids.len() == t.kids.len(),
        forall|j: int|
            0 <= j < r.kids.len() ==> spent(#[trigger] r.kids[j], name, false, rounds) <= spent(
                t.kids[j],
                name,
                reads,
                rounds,
            ),
    ensures
        receivers_spent(r, i, name, false, rounds) <= receivers_spent(t, i, name, reads, rounds),
    decreases r.kids.len() - i,
{
    if 2 * i + 1 < r.kids.len() {
        assert(spent(r.kids[2 * i as int], name, false, rounds) <= spent(
            t.kids[2 * i as int],
            name,
            reads,
            rounds,
        ));
        cheaper_receivers(r, t, i + 1, name, reads, rounds);
    }
}

proof fn cheaper_bodies(r: Term, t: Term, i: nat, name: Name, reads: bool, rounds: nat)
    requires
        r.kids.len() == t.kids.len(),
        forall|j: int|
            0 <= j < r.kids.len() ==> spent(#[trigger] r.kids[j], name, false, rounds) <= spent(
                t.kids[j],
                name,
                reads,
                rounds,
            ),
    ensures
        bodies_spent(r, i, name, false, rounds) <= bodies_spent(t, i, name, reads, rounds),
    decreases i,
{
    if i > 0 && 2 * i <= r.kids.len() {
        assert(spent(r.kids[2 * i - 1], name, false, rounds) <= spent(
            t.kids[2 * i - 1],
            name,
            reads,
            rounds,
        ));
        cheaper_bodies(r, t, (i - 1) as nat, name, reads, rounds);
    }
}

/// Marking the arms of a match for reuse costs the scrutinee's cell at most.
proof fn reusing_arms_spend_what_was_used(
    t: Term,
    k: nat,
    known: Set<Name>,
    name: Name,
    reads: bool,
    rounds: nat,
    given: Set<Name>,
)
    requires
        shaped(t),
        t.op == Op::Match,
        reads || !reuses(reused(t, known, given), name),
    ensures
        arms_spent(reused(t, known, given), k, name, false, rounds) <= arms_spent(
            t,
            k,
            name,
            reads,
            rounds,
        ) + if reads && is_tracked_var(t.kids[0], known) && t.kids[0].names[0] == name && may_take(
            t,
            0,
            name,
        ) {
            1int
        } else {
            0
        },
    decreases t, 0nat, t.arms.len() - k,
{
    let r = reused(t, known, given);
    if k < t.arms.len() {
        let arm = t.arms[k as int];
        let target = if is_tracked_var(t.kids[0], known) {
            Some(t.kids[0].names[0])
        } else {
            None
        };
        let new = r.arms[k as int];
        arm_decreases(arm);
        assert(new == reused_arm(arm, target, known, given));
        reusing_arms_spend_what_was_used(t, k + 1, known, name, reads, rounds, given);
        assert(!reuses(r, name) ==> !arm_reuses(new, name));
        let body = reused(arm.body, arm_scope(known, arm), given);
        assert(body.op == Op::Ctor ==> arm.body.op == Op::Ctor && body.kids.len()
            == arm.body.kids.len());
        if !may_take(t, 0, name) {
            assert(!(may_rebuild(arm) && !arm.bindings.contains(name)));
        }
        rebuilding_costs_the_cell(
            arm_target(target, arm),
            arm.bindings.len(),
            body,
            name,
            rounds,
        );
        reusing_spends_what_was_used(arm.body, arm_scope(known, arm), name, reads, rounds, given);
        if let Some(g) = arm.guard {
            reusing_spends_what_was_used(g, arm_scope(known, arm), name, reads, rounds, given);
        }
    }
}

/// Whether the body of a binding stays paid for when uses turn into building in place: the
/// uses spend at most the one reference, or they only read and the release at the end of
/// the scope, which goes away with the reuse, spends it.
pub open spec fn ready_body(body: Term, name: Name, rounds: nat) -> bool {
    ||| spent(body, name, true, rounds) <= 1
    ||| {
        &&& body.kids.len() == 2
        &&& body == scope_end_drop(body.kids[0], name)
        &&& spent(body.kids[0], name, true, rounds) <= 1
        &&& spent(body.kids[0], name, false, rounds) <= 0
    }
}

/// Whether every binding in a term whose value is known to be a heap cell stays paid for
/// when uses turn into building in place. The names in `heap` are known to hold heap cells.
pub open spec fn ready(t: Term, heap: Set<Name>, rounds: nat) -> bool
    decreases t,
{
    if t.op == Op::Let && t.kids.len() == 2 {
        let known = is_heap(bare(t.kids[0]), heap);
        &&& known ==> ready_body(t.kids[1], t.names[0], rounds)
        &&& ready(t.kids[0], heap, rounds)
        &&& ready(
            t.kids[1],
            body_scope(heap, t.names[0], known),
            rounds,
        )
    } else {
        &&& t.op != Op::Match ==> t.arms.len() == 0
        &&& forall|i: int|
            0 <= i < t.kids.len() ==> ready(#[trigger] t.kids[i], kid_scope(heap, t, i), rounds)
        &&& forall|k: int| 0 <= k < t.arms.len() ==> ready_arm(#[trigger] t.arms[k], heap, rounds)
    }
}

/// Whether every binding in an arm stays paid for.
pub open spec fn ready_arm(arm: ArmTerm, heap: Set<Name>, rounds: nat) -> bool
    decreases arm,
{
    &&& (arm.guard matches Some(g) ==> ready(g, arm_scope(heap, arm), rounds))
    &&& ready(arm.body, arm_scope(heap, arm), rounds)
}

/// Marking another name keeps a binding's body ready.
proof fn marking_keeps_ready_body(
    body: Term,
    name: Name,
    live: bool,
    other: Name,
    rounds: nat,
)
    requires
        ready_body(body, other, rounds),
        name != other,
        !is_drop_name(name),
    ensures
        ready_body(mark(body, name, live).0, other, rounds),
{
    let m = mark(body, name, live).0;
    marking_leaves_other_names_alone(body, name, live, other, true, rounds);
    if spent(body, other, true, rounds) > 1 {
        let value = body.kids[0];
        let last = t_var(drop_name(other));
        let rc = t_rc(RcOp::Dec, other, last);
        assert(rc.kids[0] == last);
        assert(body.kids[1] == rc);
        assert(shaped(body));
        assert(!mentions(last, name));
        assert forall|i: int| 0 <= i < rc.kids.len() implies !mentions(
            #[trigger] rc.kids[i],
            name,
        ) by {}
        assert(!mentions(rc, name));
        unmentioned_is_unmarked(rc, name, live);
        let b = mark(rc, name, live);
        let v = mark(value, name, live || b.1);
        assert(body.names[0] == drop_name(other));
        assert(m.kids =~= seq![v.0, rc]);
        assert(m == scope_end_drop(v.0, other));
        marking_leaves_other_names_alone(value, name, live || b.1, other, true, rounds);
        marking_leaves_other_names_alone(value, name, live || b.1, other, false, rounds);
    }
}

/// Marking the uses of a name keeps the bindings inside ready.
proof fn marking_keeps_ready(t: Term, name: Name, live: bool, heap: Set<Name>, rounds: nat)
    requires
        ready(t, heap, rounds),
        !is_drop_name(name),
    ensures
        ready(mark(t, name, live).0, heap, rounds),
    decreases t,
{
    let m = mark(t, name, live).0;
    if !shaped(t) {
    } else if t.op == Op::Var {
        if t.names[0] == name && live {
            assert(m.kids[0] == t);
        }
    } else if t.op == Op::Let {
        marked_parts(t, name, live);
        let known = is_heap(bare(t.kids[0]), heap);
        let inner = body_scope(heap, t.names[0], known);
        assert(touched(t.kids[0], m.kids[0], name));
        assert(touched(t.kids[1], m.kids[1], name));
        if m.kids[0] != t.kids[0] {
            let l = choose|l: bool| m.kids[0] == (#[trigger] mark(t.kids[0], name, l)).0;
            marking_keeps_known(t.kids[0], name, l, heap);
            marking_keeps_ready(t.kids[0], name, l, heap, rounds);
        }
        if t.names[0] == name {
            assert(m.kids[1] == t.kids[1]);
        } else if m.kids[1] != t.kids[1] {
            let l = choose|l: bool| m.kids[1] == (#[trigger] mark(t.kids[1], name, l)).0;
            marking_keeps_ready(t.kids[1], name, l, inner, rounds);
            if known {
                marking_keeps_ready_body(t.kids[1], name, l, t.names[0], rounds);
            }
        }
    } else {
        marked_parts(t, name, live);
        assert forall|i: int| 0 <= i < m.kids.len() implies ready(
            #[trigger] m.kids[i],
            kid_scope(heap, m, i),
            rounds,
        ) by {
            assert(touched(t.kids[i], m.kids[i], name));
            assert(ready(t.kids[i], kid_scope(heap, t, i), rounds));
            if m.kids[i] != t.kids[i] {
                let l = choose|l: bool| m.kids[i] == (#[trigger] mark(t.kids[i], name, l)).0;
                marking_keeps_ready(t.kids[i], name, l, kid_scope(heap, t, i), rounds);
            }
        }
        assert forall|k: int| 0 <= k < m.arms.len() implies ready_arm(
            #[trigger] m.arms[k],
            heap,
            rounds,
        ) by {
            let a = t.arms[k];
            let b = m.arms[k];
            arm_decreases(a);
            assert(touched_arm(a, b, name));
            assert(ready_arm(a, heap, rounds));
            if b.body != a.body {
                let l = choose|l: bool| b.body == (#[trigger] mark(a.body, name, l)).0;
                marking_keeps_ready(a.body, name, l, arm_scope(heap, a), rounds);
            }
            if let Some(g) = a.guard {
                if b.guard->Some_0 != g {
                    let l = choose|l: bool| b.guard->Some_0 == (#[trigger] mark(g, name, l)).0;
                    marking_keeps_ready(g, name, l, arm_scope(heap, a), rounds);
                }
            }
        }
    }
}

/// The adjustments for a binding leave the bindings inside ready.
proof fn count_body_keeps_ready(
    name: Name,
    known: bool,
    value: Term,
    body: Term,
    heap: Set<Name>,
    rounds: nat,
)
    requires
        ready(body, heap, rounds),
        !is_drop_name(name),
    ensures
        ready(count_body(name, known, value, body), heap, rounds),
{
    let m = mark(body, name, false);
    marking_keeps_ready(body, name, false, heap, rounds);
    let temp = drop_name(name);
    let last = t_var(temp);
    let rc = t_rc(RcOp::Dec, name, last);
    let d = scope_end_drop(body, name);
    let inner = body_scope(heap, temp, is_heap(bare(body), heap));
    drop_name_is_another(name);
    assert(rc.kids[0] == last);
    assert(shaped(rc) && shaped(last));
    assert(spent(last, temp, true, rounds) == 1);
    assert(spent(rc, temp, true, rounds) == 1);
    assert(ready(last, inner, rounds));
    assert(ready(rc, inner, rounds));
    assert(d.kids[0] == body && d.kids[1] == rc);
    assert(ready(d, heap, rounds));
    let e = t_rc(RcOp::Dec, name, m.0);
    assert(e.kids[0] == m.0);
    assert(ready(e, heap, rounds));
}

/// The adjustments for a known binding make its body ready.
proof fn count_body_is_ready(name: Name, value: Term, body: Term, rounds: nat)
    requires
        steady(body, name),
    ensures
        ready_body(count_body(name, true, value, body), name, rounds),
{
    let m = mark(body, name, false);
    every_use_but_the_last_is_counted(body, name, false, true, rounds);
    if borrowed_once(body, name) {
        marking_only_adds_increments(body, name, false);
        reading_spends_nothing(body, name, rounds);
        let d = scope_end_drop(body, name);
        assert(d.kids[0] == body);
    } else if !m.1 {
        let d = t_rc(RcOp::Dec, name, m.0);
        assert(shaped(d));
        assert(d.kids[0] == m.0);
    }
}

/// A counted expression is ready for reuse.
pub proof fn counting_makes_ready(t: Term, heap: Set<Name>, rounds: nat)
    requires
        countable(t),
    ensures
        ready(counted(t, heap), heap, rounds),
    decreases t,
{
    let c = counted(t, heap);
    if t.op == Op::AsCStr && t.kids[0].op == Op::Var && !heap.contains(t.kids[0].names[0]) {
        assert(c.kids[0] == t);
        assert(countable(t.kids[0]));
        assert(ready(t.kids[0], heap, rounds));
        assert(ready(t, heap, rounds));
    } else if t.op == Op::Let {
        let name = t.names[0];
        let known = is_heap(t.kids[0], heap);
        let inner = body_scope(heap, name, known);
        let value = counted(t.kids[0], heap);
        let body = counted(t.kids[1], inner);
        counting_makes_ready(t.kids[0], heap, rounds);
        counting_makes_ready(t.kids[1], inner, rounds);
        counting_keeps_steady(t.kids[1], inner, name);
        assert(countable(t.kids[0]));
        assert(is_heap(bare(value), heap) == known);
        count_body_keeps_ready(name, known, value, body, inner, rounds);
        if known {
            count_body_is_ready(name, value, body, rounds);
        }
        assert(c.kids[0] == value && c.kids[1] == count_body(name, known, value, body));
    } else {
        assert forall|i: int| 0 <= i < c.kids.len() implies ready(
            #[trigger] c.kids[i],
            kid_scope(heap, c, i),
            rounds,
        ) by {
            assert(countable(t.kids[i]));
            counting_makes_ready(t.kids[i], kid_scope(heap, t, i), rounds);
        }
        assert forall|k: int| 0 <= k < c.arms.len() implies ready_arm(
            #[trigger] c.arms[k],
            heap,
            rounds,
        ) by {
            let arm = t.arms[k];
            arm_decreases(arm);
            assert(countable_arm(arm));
            assert(c.arms[k] == counted_arm(arm, heap));
            counting_makes_ready(arm.body, arm_scope(heap, arm), rounds);
            if let Some(g) = arm.guard {
                counting_makes_ready(g, arm_scope(heap, arm), rounds);
            }
        }
    }
}

/// Marking for reuse keeps whether a value is known to be a heap cell.
proof fn reusing_keeps_known(t: Term, names: Set<Name>, heap: Set<Name>, given: Set<Name>)
    ensures
        is_heap(bare(reused(t, names, given)), heap) == is_heap(bare(t), heap),
    decreases t,
{
    let r = reused(t, names, given);
    if t.op is RcAnnotated && t.kids.len() == 1 {
        assert(r.kids[0] == reused(t.kids[0], names, given));
        reusing_keeps_known(t.kids[0], names, heap, given);
    }
}

/// Marking the body of a binding for reuse, and taking the release away that goes with it,
/// spends the binding's reference at most.
proof fn ready_body_is_paid(body: Term, name: Name, names: Set<Name>, rounds: nat, given: Set<Name>)
    requires
        ready_body(body, name, rounds),
    ensures
        ({
            let r = reused(body, names, given);
            spent(
                if reuses(r, name) {
                    strip(r, name)
                } else {
                    r
                },
                name,
                false,
                rounds,
            ) <= 1
        }),
{
    let r = reused(body, names, given);
    if spent(body, name, true, rounds) <= 1 {
        reusing_spends_what_was_used(body, names, name, true, rounds, given);
        if strip(r, name) != r {
            drop_spends(strip(r, name), name, name, false, rounds);
        }
    } else {
        let value = body.kids[0];
        let temp = drop_name(name);
        let last = t_var(temp);
        let rc = t_rc(RcOp::Dec, name, last);
        let inner = body_scope(names, temp, is_heap(value, names));
        let new = reused(value, names, given);
        assert(body.kids[1] == rc && rc.kids[0] == last);
        assert(reused(last, inner, given) == last) by {
            assert(reused(last, inner, given).kids =~= last.kids);
            assert(reused(last, inner, given).arms =~= last.arms);
        }
        assert(reused(rc, inner, given) == rc) by {
            assert(reused(rc, inner, given).kids =~= rc.kids);
            assert(reused(rc, inner, given).arms =~= rc.arms);
        }
        assert(!reuses(last, temp));
        assert forall|i: int| 0 <= i < rc.kids.len() implies !reuses(#[trigger] rc.kids[i], temp) by {}
        assert(!reuses(rc, temp));
        assert(r.kids =~= seq![new, rc]);
        assert(r == scope_end_drop(new, name));
        drop_reuses(new, name, name);
        drop_spends(new, name, name, false, rounds);
        if reuses(r, name) {
            reusing_spends_what_was_used(value, names, name, true, rounds, given);
            assert(strip(r, name) == new);
        } else {
            reusing_spends_what_was_used(value, names, name, false, rounds, given);
        }
    }
}

/// Building in place is paid for: where the bindings of an expression are ready, each still
/// spends at most the one reference it starts with after the expression is marked for reuse,
/// whichever names the marking knows.
pub proof fn reusing_never_overspends(
    t: Term,
    names: Set<Name>,
    heap: Set<Name>,
    rounds: nat,
    given: Set<Name>,
)
    requires
        ready(t, heap, rounds),
    ensures
        paid(reused(t, names, given), heap, rounds),
    decreases t,
{
    let r = reused(t, names, given);
    if t.op == Op::Let && t.kids.len() == 2 {
        let name = t.names[0];
        let known = is_heap(bare(t.kids[0]), heap);
        let inner_names = body_scope(names, name, is_heap(t.kids[0], names));
        let inner = body_scope(heap, name, known);
        let body = reused(t.kids[1], inner_names, given);
        let last = r.kids[1];
        assert(r.kids[0] == reused(t.kids[0], names, given));
        reusing_keeps_known(t.kids[0], names, heap, given);
        reusing_never_overspends(t.kids[0], names, heap, rounds, given);
        reusing_never_overspends(t.kids[1], inner_names, inner, rounds, given);
        if last != body {
            assert(body == scope_end_drop(last, name));
            assert(body.kids[0] == last);
            assert(paid(body.kids[0], inner, rounds));
        }
        if known {
            ready_body_is_paid(t.kids[1], name, inner_names, rounds, given);
        }
    } else if in_place(t.op) is Some && t.kids.len() > 0 && is_tracked_var(t.kids[0], names) {
        assert forall|i: int| 0 <= i < r.kids.len() implies paid(
            #[trigger] r.kids[i],
            kid_scope(heap, r, i),
            rounds,
        ) by {
            assert(r.kids[i] == reused(t.kids[i + 1], names, given));
            assert(ready(t.kids[i + 1], heap, rounds));
            reusing_never_overspends(t.kids[i + 1], names, heap, rounds, given);
        }
    } else {
        assert forall|i: int| 0 <= i < r.kids.len() implies paid(
            #[trigger] r.kids[i],
            kid_scope(heap, r, i),
            rounds,
        ) by {
            assert(r.kids[i] == reused(t.kids[i], reuse_scope(names, t, i, given), given));
            assert(ready(t.kids[i], kid_scope(heap, t, i), rounds));
            reusing_never_overspends(
                t.kids[i],
                reuse_scope(names, t, i, given),
                kid_scope(heap, t, i),
                rounds,
                given,
            );
        }
        let target = if t.kids.len() > 0 && is_tracked_var(t.kids[0], names) {
            Some(t.kids[0].names[0])
        } else {
            None
        };
        assert forall|k: int| 0 <= k < r.arms.len() implies paid_arm(
            #[trigger] r.arms[k],
            heap,
            rounds,
        ) by {
            let arm = t.arms[k];
            arm_decreases(arm);
            assert(ready_arm(arm, heap, rounds));
            assert(r.arms[k] == reused_arm(arm, target, names, given));
            reusing_never_overspends(
                arm.body,
                arm_scope(names, arm),
                arm_scope(heap, arm),
                rounds,
                given,
            );
            if let Some(g) = arm.guard {
                reusing_never_overspends(
                    g,
                    arm_scope(names, arm),
                    arm_scope(heap, arm),
                    rounds,
                    given,
                );
            }
            let body = reused(arm.body, arm_scope(names, arm), given);
            let new = rebuild(arm_target(target, arm), arm.bindings.len(), body);
            if new != body {
                assert(new.kids == body.kids && new.arms == body.arms);
                assert(paid(new, arm_scope(heap, arm), rounds));
            }
        }
    }
}

/// Optimising never overspends: in an optimised expression every binding whose value is known
/// to be a heap cell spends at most the one reference it starts with, beyond those that
/// increments add, on every path and however often loops run.
pub proof fn optimising_never_overspends(t: Term, seed: Set<Name>, rounds: nat)
    requires
        countable(t),
    ensures
        paid(optimized(t, seed), Set::empty(), rounds),
{
    counting_makes_ready(t, Set::empty(), rounds);
    reusing_never_overspends(counted(t, Set::empty()), seed, Set::empty(), rounds, seed);
}

} // verus!
