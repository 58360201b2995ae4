//! What counting releases, it releases tidily.

use vstd::prelude::*;
use crate::fbip::balance::{drop_name_is_another, marked_arm, marked_kid};
use crate::fbip::last_use::{mark, mark_arms, mark_from};
use crate::fbip::laws::{counting_only_counts, is_source, is_source_arm, plain, plain_of_source};
use crate::fbip::paid::{is_drop_name, marked_parts, touched, touched_arm};
use crate::fbip::refcount::{
    allocates, arm_scope, body_scope, borrowed_once, count_body, counted, counted_arm, drop_name,
    is_heap, kid_scope, scope_end_drop,
};
use crate::fbip::reuse::var_is_t_var;
use crate::fbip::uses::{arm_borrowed, borrowed, borrows_children, in_scope, is_var, mentions};
use crate::ir::{arm_decreases, shaped, t_rc, t_var, ArmTerm, Name, Op, RcOp, Term};
use super::direct::{direct, direct_arm, direct_terms_come_to_their_value, ev};
use super::laws::{found_is_bound, steps_add_up};
use super::memory::same_contents;
use super::naming::at_rest;
use super::safety::{
    arm_looks_up, counted_agrees, counts_upto, goes_on, good, in_order, in_range, is_fresh_op,
    looks_up, names_good, releases_at_once, releases_at_the_end, sound, tidy, tidy_arm, weight,
};
use super::semantics::{find, run, settled, started, Progress};
use super::state::Machine;
use super::step::settled_stays;
use super::value::Val;

verus! {

/// Whether a term adjusts the count of the outer `x`.
pub open spec fn adjusts(t: Term, x: Name) -> bool
    decreases t,
{
    ||| t.op is RcAnnotated && t.names[0] == x
    ||| exists|i: int| 0 <= i < t.kids.len() && in_scope(t, i, x) && adjusts(#[trigger] t.kids[i], x)
    ||| exists|k: int| 0 <= k < t.arms.len() && arm_adjusts(#[trigger] t.arms[k], x)
}

/// Whether an arm adjusts the count of the outer `x`.
pub open spec fn arm_adjusts(arm: ArmTerm, x: Name) -> bool
    decreases arm,
{
    &&& !arm.bindings.contains(x)
    &&& {
        ||| (arm.guard matches Some(g) && adjusts(g, x))
        ||| adjusts(arm.body, x)
    }
}

/// Marking one name looks up no other, adjusts no other, and keeps what is only read of it.
proof fn marking_minds_its_name(t: Term, n: Name, live: bool, x: Name)
    requires
        x != n,
    ensures
        looks_up(mark(t, n, live).0, x) ==> looks_up(t, x),
        adjusts(mark(t, n, live).0, x) ==> adjusts(t, x),
        borrowed(t, x) && direct(t) ==> borrowed(mark(t, n, live).0, x),
        is_var(mark(t, n, live).0, x) == is_var(t, x),
    decreases t,
{
    let m = mark(t, n, live).0;
    if !shaped(t) {
    } else if t.op == Op::Var {
        if t.names[0] == n && live {
            assert(m.kids[0] == t);
            assert forall|i: int| 0 <= i < m.kids.len() implies !adjusts(#[trigger] m.kids[i], x)
                && !looks_up(m.kids[i], x) by {}
            assert(borrowed(m.kids[0], x));
        }
    } else {
        marked_parts(t, n, live);
        assert forall|i: int| 0 <= i < t.kids.len() implies (looks_up(#[trigger] m.kids[i], x)
            ==> looks_up(t.kids[i], x)) && (adjusts(m.kids[i], x) ==> adjusts(t.kids[i], x)) && (
        borrowed(t.kids[i], x) && direct(t.kids[i]) ==> borrowed(m.kids[i], x)) && is_var(
            m.kids[i],
            x,
        ) == is_var(t.kids[i], x) by {
            assert(touched(t.kids[i], m.kids[i], n));
            if m.kids[i] != t.kids[i] {
                let l = choose|l: bool| m.kids[i] == (#[trigger] mark(t.kids[i], n, l)).0;
                marking_minds_its_name(t.kids[i], n, l, x);
            }
        }
        assert forall|k: int| 0 <= k < t.arms.len() implies (arm_looks_up(#[trigger] m.arms[k], x)
            ==> arm_looks_up(t.arms[k], x)) && (arm_adjusts(m.arms[k], x) ==> arm_adjusts(
            t.arms[k],
            x,
        )) && (arm_borrowed(t.arms[k], x) && direct_arm(t.arms[k]) ==> arm_borrowed(
            m.arms[k],
            x,
        )) by {
            let a = t.arms[k];
            let b = m.arms[k];
            arm_decreases(a);
            assert(touched_arm(a, b, n));
            if b.body != a.body {
                let l = choose|l: bool| b.body == (#[trigger] mark(a.body, n, l)).0;
                marking_minds_its_name(a.body, n, l, x);
            }
            if let Some(g) = a.guard {
                if b.guard->Some_0 != g {
                    let l = choose|l: bool| b.guard->Some_0 == (#[trigger] mark(g, n, l)).0;
                    marking_minds_its_name(g, n, l, x);
                }
            }
        }
        if looks_up(m, x) && !(m.op is RcAnnotated && m.names[0] == x) {
            if exists|i: int|
                0 <= i < m.kids.len() && in_scope(m, i, x) && looks_up(#[trigger] m.kids[i], x) {
                let i = choose|i: int|
                    0 <= i < m.kids.len() && in_scope(m, i, x) && looks_up(#[trigger] m.kids[i], x);
                assert(in_scope(t, i, x) && looks_up(t.kids[i], x));
            } else {
                let k = choose|k: int| 0 <= k < m.arms.len() && arm_looks_up(#[trigger] m.arms[k], x);
                assert(arm_looks_up(t.arms[k], x));
            }
        }
        if adjusts(m, x) && !(m.op is RcAnnotated && m.names[0] == x) {
            if exists|i: int|
                0 <= i < m.kids.len() && in_scope(m, i, x) && adjusts(#[trigger] m.kids[i], x) {
                let i = choose|i: int|
                    0 <= i < m.kids.len() && in_scope(m, i, x) && adjusts(#[trigger] m.kids[i], x);
                assert(in_scope(t, i, x) && adjusts(t.kids[i], x));
            } else {
                let k = choose|k: int| 0 <= k < m.arms.len() && arm_adjusts(#[trigger] m.arms[k], x);
                assert(arm_adjusts(t.arms[k], x));
            }
        }
        if borrowed(t, x) && direct(t) {
            assert forall|i: int| 0 <= i < m.kids.len() && in_scope(m, i, x) implies (
            borrows_children(m.op) && is_var(#[trigger] m.kids[i], x)) || borrowed(m.kids[i], x) by {
                assert(direct(t.kids[i]));
                assert(in_scope(t, i, x));
            }
            assert forall|k: int| 0 <= k < m.arms.len() implies arm_borrowed(
                #[trigger] m.arms[k],
                x,
            ) by {
                assert(direct_arm(t.arms[k]) && arm_borrowed(t.arms[k], x));
            }
        }
    }
}

/// Marking keeps a term direct.
proof fn marking_stays_direct(t: Term, n: Name, live: bool)
    requires
        direct(t),
    ensures
        direct(mark(t, n, live).0),
    decreases t,
{
    let m = mark(t, n, live).0;
    if t.op == Op::Var {
        if t.names[0] == n && live {
            assert(m.kids[0] == t);
            assert forall|i: int| 0 <= i < m.kids.len() implies direct(#[trigger] m.kids[i]) by {}
        }
    } else {
        marked_parts(t, n, live);
        assert forall|i: int| 0 <= i < m.kids.len() implies direct(#[trigger] m.kids[i]) by {
            assert(direct(t.kids[i]));
            assert(touched(t.kids[i], m.kids[i], n));
            if m.kids[i] != t.kids[i] {
                let l = choose|l: bool| m.kids[i] == (#[trigger] mark(t.kids[i], n, l)).0;
                marking_stays_direct(t.kids[i], n, l);
            }
        }
        assert forall|k: int| 0 <= k < m.arms.len() implies direct_arm(#[trigger] m.arms[k]) by {
            let a = t.arms[k];
            let b = m.arms[k];
            arm_decreases(a);
            assert(direct_arm(a));
            assert(touched_arm(a, b, n));
            if b.body != a.body {
                let l = choose|l: bool| b.body == (#[trigger] mark(a.body, n, l)).0;
                marking_stays_direct(a.body, n, l);
            }
            if let Some(g) = a.guard {
                if b.guard->Some_0 != g {
                    let l = choose|l: bool| b.guard->Some_0 == (#[trigger] mark(g, n, l)).0;
                    marking_stays_direct(g, n, l);
                }
            }
        }
    }
}

/// A name that is not used is not looked up, and marking it changes nothing.
proof fn unused_is_not_looked_up(t: Term, n: Name, live: bool)
    requires
        direct(t),
        !adjusts(t, n),
        !mark(t, n, live).1,
    ensures
        !looks_up(t, n),
        mark(t, n, live).0 == t,
    decreases t, t.kids.len() + t.arms.len() + 1,
{
    let m = mark(t, n, live).0;
    assert forall|i: int| 0 <= i < t.kids.len() implies direct(#[trigger] t.kids[i]) && (in_scope(
        t,
        i,
        n,
    ) ==> !adjusts(t.kids[i], n)) by {}
    match t.op {
        Op::Var => {},
        Op::If => {
            let a = mark(t.kids[1], n, live);
            let b = mark(t.kids[2], n, live);
            let c = mark(t.kids[0], n, live || a.1 || b.1);
            unused_is_not_looked_up(t.kids[1], n, live);
            unused_is_not_looked_up(t.kids[2], n, live);
            unused_is_not_looked_up(t.kids[0], n, live || a.1 || b.1);
            assert(m.kids =~= t.kids);
        },
        Op::Match => {
            let arms = mark_arms(t, 0, n, live);
            let s = mark(t.kids[0], n, live || arms.1);
            unused_is_not_looked_up(t.kids[0], n, live || arms.1);
            unused_arms_are_not_looked_up(t, 0, n, live);
            assert(t.arms.skip(0) =~= t.arms);
            assert(m.kids =~= t.kids);
            assert forall|k: int| 0 <= k < t.arms.len() implies !arm_looks_up(
                #[trigger] t.arms[k],
                n,
            ) by {}
        },
        Op::Let => {
            if t.names[0] == n {
                unused_is_not_looked_up(t.kids[0], n, live);
            } else {
                let b = mark(t.kids[1], n, live);
                let v = mark(t.kids[0], n, live || b.1);
                unused_is_not_looked_up(t.kids[1], n, live);
                unused_is_not_looked_up(t.kids[0], n, live || b.1);
            }
            assert(m.kids =~= t.kids);
        },
        _ => {
            unused_kids_are_not_looked_up(t, 0, n, live);
            assert(t.kids.skip(0) =~= t.kids);
            assert(m.kids =~= t.kids);
        },
    }
    assert(m == t) by {
        assert(m.arms =~= t.arms);
    }
}

proof fn unused_kids_are_not_looked_up(t: Term, i: nat, n: Name, live: bool)
    requires
        direct(t),
        t.op != Op::Let,
        i <= t.kids.len(),
        !adjusts(t, n),
        !mark_from(t, i, n, live).1,
    ensures
        mark_from(t, i, n, live).0 == t.kids.skip(i as int),
        forall|j: int| i <= j < t.kids.len() ==> !looks_up(#[trigger] t.kids[j], n),
    decreases t, t.kids.len() - i,
{
    if i < t.kids.len() {
        let rest = mark_from(t, i + 1, n, live);
        assert(direct(t.kids[i as int]));
        assert(in_scope(t, i as int, n));
        assert(!adjusts(t.kids[i as int], n));
        unused_kids_are_not_looked_up(t, i + 1, n, live);
        unused_is_not_looked_up(t.kids[i as int], n, live || rest.1);
        assert(seq![t.kids[i as int]] + t.kids.skip((i + 1) as int) =~= t.kids.skip(i as int));
    } else {
        assert(t.kids.skip(i as int) =~= Seq::<Term>::empty());
    }
}

proof fn unused_arms_are_not_looked_up(t: Term, k: nat, n: Name, live: bool)
    requires
        direct(t),
        k <= t.arms.len(),
        !adjusts(t, n),
        !mark_arms(t, k, n, live).1,
    ensures
        mark_arms(t, k, n, live).0 == t.arms.skip(k as int),
        forall|j: int| k <= j < t.arms.len() ==> !arm_looks_up(#[trigger] t.arms[j], n),
    decreases t, t.arms.len() - k,
{
    if k < t.arms.len() {
        let arm = t.arms[k as int];
        arm_decreases(arm);
        let rest = mark_arms(t, k + 1, n, live);
        assert(direct_arm(arm));
        assert(!arm_adjusts(arm, n));
        unused_arms_are_not_looked_up(t, k + 1, n, live);
        if !arm.bindings.contains(n) {
            let b = mark(arm.body, n, live);
            unused_is_not_looked_up(arm.body, n, live);
            if let Some(g) = arm.guard {
                unused_is_not_looked_up(g, n, live || b.1 || rest.1);
            }
        }
        assert(seq![arm] + t.arms.skip((k + 1) as int) =~= t.arms.skip(k as int));
    } else {
        assert(t.arms.skip(k as int) =~= Seq::<ArmTerm>::empty());
    }
}

/// Marking a name keeps a term tidy.
#[verifier::rlimit(40)]
#[verifier::spinoff_prover]
proof fn marking_stays_tidy(t: Term, n: Name, live: bool)
    requires
        direct(t),
        tidy(t),
        !adjusts(t, n),
        !is_drop_name(n),
    ensures
        tidy(mark(t, n, live).0),
    decreases t,
{
    let m = mark(t, n, live).0;
    if t.op == Op::Var {
        if t.names[0] == n && live {
            var_is_t_var(t);
            assert(m == t_rc(RcOp::Inc, n, t));
            assert(m.names[0] == n);
        }
    } else if t.op is RcAnnotated {
        let x = t.names[0];
        assert(t == t_rc(RcOp::Inc, x, t_var(x)));
        assert(x != n);
        marked_kid(t, 0, 0, n, live);
        assert(t.kids[0] == t_var(x));
        assert(m.kids =~= t.kids);
        assert(m == t);
    } else {
        marked_parts(t, n, live);
        assert forall|i: int| 0 <= i < t.kids.len() && in_scope(t, i, n) implies !adjusts(
            #[trigger] t.kids[i],
            n,
        ) by {}
        if releases_at_once(t) {
            releasing_stays_tidy(t, n, live);
        } else if releases_at_the_end(t) {
            dropping_stays_tidy(t, n, live);
        } else {
            assert forall|i: int| 0 <= i < m.kids.len() implies tidy(#[trigger] m.kids[i]) by {
                assert(tidy(t.kids[i]) && direct(t.kids[i]));
                assert(touched(t.kids[i], m.kids[i], n));
                if m.kids[i] != t.kids[i] {
                    assert(in_scope(t, i, n)) by {
                        if t.op == Op::Let && t.names[0] == n && i == 1 {
                            assert(m.kids[1] == t.kids[1]);
                        }
                    }
                    let l = choose|l: bool| m.kids[i] == (#[trigger] mark(t.kids[i], n, l)).0;
                    marking_stays_tidy(t.kids[i], n, l);
                }
            }
            assert forall|k: int| 0 <= k < m.arms.len() implies tidy_arm(#[trigger] m.arms[k]) by {
                let a = t.arms[k];
                let b = m.arms[k];
                arm_decreases(a);
                assert(tidy_arm(a) && direct_arm(a));
                assert(!arm_adjusts(a, n));
                if a.bindings.contains(n) {
                    marked_arm(t, 0, k as nat, n, live);
                    assert(b == a);
                } else {
                    assert(touched_arm(a, b, n));
                    if b.body != a.body {
                        let l = choose|l: bool| b.body == (#[trigger] mark(a.body, n, l)).0;
                        marking_stays_tidy(a.body, n, l);
                    }
                    if let Some(g) = a.guard {
                        if b.guard->Some_0 != g {
                            let l = choose|l: bool| b.guard->Some_0 == (#[trigger] mark(g, n, l)).0;
                            marking_stays_tidy(g, n, l);
                        }
                    }
                }
            }
            if t.op == Op::Let {
                no_release_appears(m);
            }
        }
    }
}

/// A binding with tidy children is not released.
proof fn no_release_appears(m: Term)
    requires
        shaped(m),
        m.op == Op::Let,
        tidy(m.kids[0]),
        tidy(m.kids[1]),
    ensures
        !releases_at_once(m),
        !releases_at_the_end(m),
{
    let k = m.kids[1];
    if releases_at_once(m) {
        assert(k == t_rc(RcOp::Inc, k.names[0], t_var(k.names[0])));
        assert(false);
    }
    if releases_at_the_end(m) {
        let n = m.names[0];
        let rc = t_rc(RcOp::Dec, n, t_var(drop_name(n)));
        drop_name_is_another(n);
        assert(k == scope_end_drop(k.kids[0], n));
        assert(k.kids[1] == rc && k.names[0] == drop_name(n));
        assert(rc.names[0] == n);
        assert(!releases_at_once(k));
        assert(!releases_at_the_end(k));
        assert(tidy(k.kids[1]));
        assert(false);
    }
}

proof fn releasing_stays_tidy(t: Term, n: Name, live: bool)
    requires
        direct(t),
        tidy(t),
        releases_at_once(t),
        !adjusts(t, n),
        !is_drop_name(n),
    ensures
        tidy(mark(t, n, live).0),
    decreases t, 0nat,
{
    let m = mark(t, n, live).0;
    let own = t.names[0];
    let k1 = t.kids[1];
    let rest = k1.kids[0];
    marked_parts(t, n, live);
    assert(direct(t.kids[0]));
    assert(direct(t.kids[1]));
    assert(direct(k1.kids[0]));
    assert(touched(t.kids[0], m.kids[0], n));
    assert(!adjusts(t.kids[0], n)) by {
        assert(in_scope(t, 0, n));
    }
    if m.kids[0] != t.kids[0] {
        let l = choose|l: bool| m.kids[0] == (#[trigger] mark(t.kids[0], n, l)).0;
        marking_stays_tidy(t.kids[0], n, l);
        marked_parts(t.kids[0], n, l);
    }
    if own == n {
        assert(m.kids[1] == t.kids[1]);
    } else {
        let b = mark(k1, n, live).0;
        assert(m.kids[1] == b);
        assert(in_scope(t, 1, n) && !adjusts(t.kids[1], n));
        assert(in_scope(k1, 0, n) && !adjusts(k1.kids[0], n));
        marked_parts(k1, n, live);
        assert(touched(k1.kids[0], b.kids[0], n));
        if b.kids[0] != rest {
            let l = choose|l: bool| b.kids[0] == (#[trigger] mark(rest, n, l)).0;
            marking_stays_tidy(rest, n, l);
            marking_minds_its_name(rest, n, l, own);
        }
    }
    assert(releases_at_once(m));
}

proof fn dropping_stays_tidy(t: Term, n: Name, live: bool)
    requires
        direct(t),
        tidy(t),
        !releases_at_once(t),
        releases_at_the_end(t),
        !adjusts(t, n),
        !is_drop_name(n),
    ensures
        tidy(mark(t, n, live).0),
    decreases t, 0nat,
{
    let m = mark(t, n, live).0;
    let own = t.names[0];
    let d = t.kids[1];
    let body = d.kids[0];
    let temp = drop_name(own);
    let last = t_var(temp);
    let rc = t_rc(RcOp::Dec, own, last);
    drop_name_is_another(own);
    assert(d.kids[1] == rc && d.names[0] == temp && rc.kids[0] == last && d.op == Op::Let);
    marked_parts(t, n, live);
    assert(direct(t.kids[0]));
    assert(direct(t.kids[1]));
    assert(direct(d.kids[0]));
    assert(touched(t.kids[0], m.kids[0], n));
    assert(!adjusts(t.kids[0], n)) by {
        assert(in_scope(t, 0, n));
    }
    if m.kids[0] != t.kids[0] {
        let l = choose|l: bool| m.kids[0] == (#[trigger] mark(t.kids[0], n, l)).0;
        marking_stays_tidy(t.kids[0], n, l);
        marked_parts(t.kids[0], n, l);
    }
    if own == n {
        assert(m.kids[1] == t.kids[1]);
    } else {
        assert(in_scope(t, 1, n) && !adjusts(t.kids[1], n));
        assert(in_scope(d, 0, n) && !adjusts(d.kids[0], n));
        assert(temp != n) by {
            assert(is_drop_name(temp));
        }
        let r = mark(rc, n, live);
        assert(r == (rc, false)) by {
            assert(!mentions(last, n));
            assert forall|i: int| 0 <= i < rc.kids.len() implies !mentions(
                #[trigger] rc.kids[i],
                n,
            ) by {}
            assert(!mentions(rc, n));
            crate::fbip::laws::unmentioned_is_unmarked(rc, n, live);
        }
        let v = mark(body, n, live || r.1).0;
        let b = mark(d, n, live).0;
        assert(shaped(d));
        assert(b.kids =~= seq![v, rc]);
        assert(b == scope_end_drop(v, own));
        assert(m.kids[1] == b);
        marking_stays_tidy(body, n, live || r.1);
        marking_minds_its_name(body, n, live || r.1, own);
        assert(b.kids[0] == v);
    }
    assert(releases_at_the_end(m));
    assert(!releases_at_once(m));
}

/// Whether every binding of a term that is counted is bound to an allocation, not to another
/// counted name, and has not the name of a temporary that holds a scope's result. The names in
/// `heap` are known to hold heap cells.
pub open spec fn binds_fresh(t: Term, heap: Set<Name>) -> bool
    decreases t,
{
    if t.op == Op::Let && t.kids.len() == 2 {
        let known = is_heap(t.kids[0], heap);
        &&& known ==> t.kids[0].op != Op::Var
        &&& !is_drop_name(t.names[0])
        &&& binds_fresh(t.kids[0], heap)
        &&& binds_fresh(t.kids[1], body_scope(heap, t.names[0], known))
    } else {
        &&& forall|i: int|
            0 <= i < t.kids.len() ==> binds_fresh(#[trigger] t.kids[i], kid_scope(heap, t, i))
        &&& forall|k: int| 0 <= k < t.arms.len() ==> binds_fresh_arm(#[trigger] t.arms[k], heap)
    }
}

/// Whether every counted binding of an arm is bound to an allocation.
pub open spec fn binds_fresh_arm(arm: ArmTerm, heap: Set<Name>) -> bool
    decreases arm,
{
    &&& (arm.guard matches Some(g) ==> binds_fresh(g, arm_scope(heap, arm)))
    &&& binds_fresh(arm.body, arm_scope(heap, arm))
}

/// Counting adjusts no name but those that the term itself binds.
proof fn counting_adjusts_its_own(t: Term, heap: Set<Name>, x: Name)
    requires
        direct(t),
        is_source(t),
    ensures
        !adjusts(counted(t, heap), x),
    decreases t,
{
    let c = counted(t, heap);
    if t.op == Op::Let {
        let n = t.names[0];
        let known = is_heap(t.kids[0], heap);
        let inner = body_scope(heap, n, known);
        let value = counted(t.kids[0], heap);
        let body = counted(t.kids[1], inner);
        let out = count_body(n, known, value, body);
        assert(direct(t.kids[0]) && direct(t.kids[1]) && is_source(t.kids[0]) && is_source(
            t.kids[1],
        ));
        counting_adjusts_its_own(t.kids[0], heap, x);
        counting_adjusts_its_own(t.kids[1], inner, x);
        assert(c.kids[0] == value && c.kids[1] == out);
        if x != n {
            let m = mark(body, n, false).0;
            marking_minds_its_name(body, n, false, x);
            let last = t_var(drop_name(n));
            let rc = t_rc(RcOp::Dec, n, last);
            assert(rc.kids[0] == last && !adjusts(last, x));
            assert forall|i: int| 0 <= i < rc.kids.len() implies !adjusts(
                #[trigger] rc.kids[i],
                x,
            ) by {}
            let d = scope_end_drop(body, n);
            assert(d.kids[0] == body && d.kids[1] == rc);
            assert forall|i: int| 0 <= i < d.kids.len() implies !adjusts(#[trigger] d.kids[i], x) by {}
            let e = t_rc(RcOp::Dec, n, m);
            assert(e.kids[0] == m);
            assert forall|i: int| 0 <= i < e.kids.len() implies !adjusts(#[trigger] e.kids[i], x) by {}
            assert(!adjusts(out, x));
        }
        assert forall|i: int| 0 <= i < c.kids.len() && in_scope(c, i, x) implies !adjusts(
            #[trigger] c.kids[i],
            x,
        ) by {}
        assert(c.arms == t.arms && t.arms.len() == 0);
    } else {
        assert forall|i: int| 0 <= i < c.kids.len() implies !adjusts(#[trigger] c.kids[i], x) by {
            assert(direct(t.kids[i]) && is_source(t.kids[i]));
            counting_adjusts_its_own(t.kids[i], kid_scope(heap, t, i), x);
        }
        assert forall|k: int| 0 <= k < c.arms.len() implies !arm_adjusts(#[trigger] c.arms[k], x) by {
            let arm = t.arms[k];
            arm_decreases(arm);
            assert(direct_arm(arm) && is_source_arm(arm));
            assert(c.arms[k] == counted_arm(arm, heap));
            counting_adjusts_its_own(arm.body, arm_scope(heap, arm), x);
            if let Some(g) = arm.guard {
                counting_adjusts_its_own(g, arm_scope(heap, arm), x);
            }
        }
    }
}

/// Counting keeps a term direct.
proof fn counting_stays_direct(t: Term, heap: Set<Name>)
    requires
        direct(t),
        is_source(t),
    ensures
        direct(counted(t, heap)),
        counted(t, heap).op == t.op,
    decreases t,
{
    let c = counted(t, heap);
    if t.op == Op::Let {
        let n = t.names[0];
        let known = is_heap(t.kids[0], heap);
        let inner = body_scope(heap, n, known);
        let value = counted(t.kids[0], heap);
        let body = counted(t.kids[1], inner);
        let out = count_body(n, known, value, body);
        assert(direct(t.kids[0]) && direct(t.kids[1]) && is_source(t.kids[0]) && is_source(
            t.kids[1],
        ));
        counting_stays_direct(t.kids[0], heap);
        counting_stays_direct(t.kids[1], inner);
        assert(c.kids[0] == value && c.kids[1] == out);
        let m = mark(body, n, false).0;
        marking_stays_direct(body, n, false);
        let last = t_var(drop_name(n));
        let rc = t_rc(RcOp::Dec, n, last);
        assert(shaped(last) && direct(last));
        assert(rc.kids[0] == last);
        assert(shaped(rc) && direct(rc));
        let d = scope_end_drop(body, n);
        assert(d.kids[0] == body && d.kids[1] == rc);
        assert(shaped(d) && direct(d));
        let e = t_rc(RcOp::Dec, n, m);
        assert(e.kids[0] == m);
        assert(shaped(e) && direct(e));
        assert(shaped(c));
        assert forall|i: int| 0 <= i < c.kids.len() implies direct(#[trigger] c.kids[i]) by {}
    } else {
        assert(shaped(c));
        assert forall|i: int| 0 <= i < c.kids.len() implies direct(#[trigger] c.kids[i]) by {
            assert(direct(t.kids[i]) && is_source(t.kids[i]));
            counting_stays_direct(t.kids[i], kid_scope(heap, t, i));
        }
        assert forall|k: int| 0 <= k < c.arms.len() implies direct_arm(#[trigger] c.arms[k]) by {
            let arm = t.arms[k];
            arm_decreases(arm);
            assert(direct_arm(arm) && is_source_arm(arm));
            assert(c.arms[k] == counted_arm(arm, heap));
            counting_stays_direct(arm.body, arm_scope(heap, arm));
            if let Some(g) = arm.guard {
                counting_stays_direct(g, arm_scope(heap, arm));
            }
        }
    }
}

/// Counting is tidy.
#[verifier::rlimit(40)]
#[verifier::spinoff_prover]
proof fn counting_is_tidy(t: Term, heap: Set<Name>)
    requires
        direct(t),
        is_source(t),
        binds_fresh(t, heap),
    ensures
        tidy(counted(t, heap)),
    decreases t,
{
    let c = counted(t, heap);
    if t.op == Op::Let {
        let n = t.names[0];
        let known = is_heap(t.kids[0], heap);
        let inner = body_scope(heap, n, known);
        let value = counted(t.kids[0], heap);
        let body = counted(t.kids[1], inner);
        let out = count_body(n, known, value, body);
        assert(direct(t.kids[0]) && direct(t.kids[1]) && is_source(t.kids[0]) && is_source(
            t.kids[1],
        ));
        counting_is_tidy(t.kids[0], heap);
        counting_is_tidy(t.kids[1], inner);
        counting_stays_direct(t.kids[0], heap);
        counting_stays_direct(t.kids[1], inner);
        counting_adjusts_its_own(t.kids[1], inner, n);
        counting_stays_direct(t, heap);
        assert(c.kids[0] == value && c.kids[1] == out);
        assert(c.names[0] == n);
        let m = mark(body, n, false);
        marking_stays_tidy(body, n, false);
        assert(shaped(c));
        if (known || allocates(value.op)) && borrowed_once(body, n) {
            assert(out == scope_end_drop(body, n));
            assert(out.kids[0] == body);
            assert(releases_at_the_end(c));
            assert(!releases_at_once(c));
            assert(is_fresh_op(value.op));
        } else if !known {
            no_release_appears(c);
            assert forall|i: int| 0 <= i < c.kids.len() implies tidy(#[trigger] c.kids[i]) by {}
        } else if m.1 {
            no_release_appears(c);
            assert forall|i: int| 0 <= i < c.kids.len() implies tidy(#[trigger] c.kids[i]) by {}
        } else {
            unused_is_not_looked_up(body, n, false);
            assert(out == t_rc(RcOp::Dec, n, m.0));
            assert(out.kids[0] == m.0 && out.names[0] == n);
            assert(releases_at_once(c));
            assert(is_fresh_op(value.op));
        }
    } else {
        assert forall|i: int| 0 <= i < c.kids.len() implies tidy(#[trigger] c.kids[i]) by {
            assert(direct(t.kids[i]) && is_source(t.kids[i]));
            assert(binds_fresh(t.kids[i], kid_scope(heap, t, i)));
            counting_is_tidy(t.kids[i], kid_scope(heap, t, i));
        }
        assert forall|k: int| 0 <= k < c.arms.len() implies tidy_arm(#[trigger] c.arms[k]) by {
            let arm = t.arms[k];
            arm_decreases(arm);
            assert(direct_arm(arm) && is_source_arm(arm));
            assert(binds_fresh_arm(arm, heap));
            assert(c.arms[k] == counted_arm(arm, heap));
            counting_is_tidy(arm.body, arm_scope(heap, arm));
            if let Some(g) = arm.guard {
                counting_is_tidy(g, arm_scope(heap, arm));
            }
        }
    }
}

/// Whether the memory of a machine is in order: what it refers to is there, and counts leave
/// room for `more`.
pub open spec fn memory_in_order(m: Machine, more: nat) -> bool {
    &&& sound(m.heap)
    &&& forall|i: int| 0 <= i < m.env.len() ==> good(m.heap, (#[trigger] m.env[i]).1)
    &&& forall|i: int| 0 <= i < m.globals.len() ==> good(m.heap, (#[trigger] m.globals[i]).1)
    &&& exists|b: nat| 1 <= b && b + more < usize::MAX && #[trigger] counts_upto(m.heap, b)
}

/// A direct expression that is done is done with what it evaluates to in one go.
proof fn what_a_run_came_to(m: Machine, t: Term, k: nat, v: Val)
    requires
        direct(t),
        run(started(m, t), k).progress() == Progress::Done(v),
    ensures
        ev(at_rest(m), t) == Some((run(started(m, t), k).heap, v)),
        run(started(m, t), k).env == m.env,
{
    let a = direct_terms_come_to_their_value(m, t);
    let start = started(m, t);
    let end = run(start, k);
    assert(ev(at_rest(m), t) is Some);
    let other = run(start, a);
    assert(settled(other));
    if k >= a {
        steps_add_up(start, a, (k - a) as nat);
        settled_stays(other, (k - a) as nat);
    } else {
        steps_add_up(start, k, (a - k) as nat);
        settled_stays(end, (a - k) as nat);
    }
    assert(end == other);
}

/// In a machine whose memory is in order, a tidy term evaluates to what its source does.
proof fn tidy_terms_agree(m: Machine, c: Term)
    requires
        direct(c),
        tidy(c),
        memory_in_order(m, weight(c)),
        ev(at_rest(m), plain(c)) matches Some((h, _)) && h.len() <= usize::MAX,
    ensures
        ({
            let (hs, v) = ev(at_rest(m), plain(c))->0;
            ev(at_rest(m), c) matches Some((h, w)) && w == v && same_contents(hs, h) && goes_on(
                m.heap,
                h,
            ) && good(h, v)
        }),
{
    let q = at_rest(m);
    let b = choose|b: nat| 1 <= b && b + weight(c) < usize::MAX && #[trigger] counts_upto(m.heap, b);
    assert(Machine { heap: m.heap, ..q } == q);
    assert(in_order(q, m.heap, b)) by {
        assert forall|i: int| 0 <= i < q.env.len() implies in_range(
            q.heap,
            (#[trigger] q.env[i]).1,
        ) by {
            assert(good(m.heap, m.env[i].1));
        }
    }
    assert(names_good(q, c)) by {
        assert forall|x: Name| #[trigger] looks_up(c, x) implies (find(q.env, x) matches Some(i)
            ==> good(q.heap, q.env[i].1)) by {
            found_is_bound(q.env, x);
        }
    }
    counted_agrees(q, m.heap, c, b);
}

/// Counting keeps every value. What an expression evaluates to, the counted expression evaluates
/// to as well: nothing that is still needed is freed, and of what was there before, nothing at
/// all. The expression holds no call, loop, assignment, closure or request to the host, and its
/// counted bindings are bound to allocations.
pub proof fn counting_keeps_every_value(m: Machine, t: Term, k: nat, v: Val) -> (n: nat)
    requires
        direct(t),
        is_source(t),
        binds_fresh(t, Set::empty()),
        memory_in_order(m, weight(counted(t, Set::empty()))),
        run(started(m, t), k).progress() == Progress::Done(v),
        run(started(m, t), k).heap.len() <= usize::MAX,
    ensures
        ({
            let source = run(started(m, t), k);
            let counting = run(started(m, counted(t, Set::empty())), n);
            &&& counting.progress() == Progress::Done(v)
            &&& counting.env == source.env
            &&& same_contents(source.heap, counting.heap)
            &&& goes_on(m.heap, counting.heap)
            &&& good(counting.heap, v)
        }),
{
    let c = counted(t, Set::empty());
    counting_stays_direct(t, Set::empty());
    counting_is_tidy(t, Set::empty());
    counting_only_counts(t, Set::empty());
    plain_of_source(t);
    what_a_run_came_to(m, t, k, v);
    tidy_terms_agree(m, c);
    direct_terms_come_to_their_value(m, c)
}

} // verus!
