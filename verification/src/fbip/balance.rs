//! What counting guarantees: on no path is a reference spent that is not there.
//!
//! A binding starts with one reference, and a rebinding gives it one anew. An increment adds
//! one. A use spends one, unless it only reads the value, and so do a release and a cell that
//! is built in the binding's memory. What a closure does with what it captured is not looked
//! at: it runs elsewhere.

use vstd::prelude::*;
use crate::ir::{arm_decreases, shaped, t_rc, t_var, ArmTerm, Name, Op, RcOp, Term};
use super::last_use::{
    arms_rebind, interleave, just_read, mark, mark_arms, mark_bodies, mark_from, mark_loop,
    mark_receivers, rebinds, rebinds_arm, settles, settles_arm, some_rebinds,
};
use super::reuse::may_take;
use super::refcount::{allocates, borrowed_once, count_body, drop_name, scope_end_drop};
use super::uses::{
    arm_borrowed, arm_mentions, borrowed, borrows_children, claims, in_scope, is_var, mentions,
};

verus! {

/// The larger of two numbers.
pub open spec fn more(a: int, b: int) -> int {
    if a >= b {
        a
    } else {
        b
    }
}

/// The operators whose operands, besides a cell they build in, are only read.
pub open spec fn only_reads(op: Op) -> bool {
    borrows_children(op) || op == Op::StrConcatReuse || op == Op::StrReplaceReuse
}

/// How many references to the outer `name` a term spends at most beyond those that it adds,
/// over all paths, when every loop runs `rounds` times. `reads` says whether a use that only
/// reads the value counts where its memory can be built in.
pub open spec fn spent(t: Term, name: Name, reads: bool, rounds: nat) -> int
    decreases t, t.kids.len() + t.arms.len() + 1,
{
    if !shaped(t) {
        0
    } else {
        match t.op {
            Op::Var => if t.names[0] == name {
                1
            } else {
                0
            },
            Op::RcAnnotated(op) => spent(t.kids[0], name, reads, rounds) + if t.names[0] != name {
                0int
            } else if op == RcOp::Inc {
                -1
            } else {
                1
            },
            Op::If => spent(t.kids[0], name, reads, rounds) + more(
                spent(t.kids[1], name, reads, rounds),
                spent(t.kids[2], name, reads, rounds),
            ),
            Op::Match => slot(t, 0, name, reads, rounds) + arms_spent(t, 0, name, reads, rounds),
            Op::For => spent(t.kids[0], name, reads, rounds) + spent(
                t.kids[1],
                name,
                reads,
                rounds,
            ) + if t.names[0] == name {
                0
            } else {
                rounds * spent(t.kids[2], name, reads, rounds)
            },
            Op::Closure(_) => 0,
            // The new value comes with a reference.
            Op::Assign if t.names[0] == name => spent(t.kids[0], name, reads, rounds) - 1 + spent(
                t.kids[1],
                name,
                reads,
                rounds,
            ),
            Op::Select => receivers_spent(t, 0, name, reads, rounds) + bodies_spent(
                t,
                t.kids.len() / 2,
                name,
                reads,
                rounds,
            ),
            _ => (if claims(t, name) {
                1int
            } else {
                0
            }) + kids_spent(t, 0, name, reads, rounds),
        }
    }
}

/// What the child at place `i` spends. A variable that is only read spends nothing; if `reads`,
/// one whose memory can be built in counts as spent all the same.
pub open spec fn slot(t: Term, i: int, name: Name, reads: bool, rounds: nat) -> int
    decreases t, 0nat,
{
    if !(0 <= i < t.kids.len()) || !in_scope(t, i, name) {
        0
    } else if only_reads(t.op) && is_var(t.kids[i], name) && !(reads && may_take(t, i, name)) {
        0
    } else {
        spent(t.kids[i], name, reads, rounds)
    }
}

/// What the children from place `i` on spend, all of which run.
pub open spec fn kids_spent(t: Term, i: nat, name: Name, reads: bool, rounds: nat) -> int
    decreases t, t.kids.len() - i,
{
    if i >= t.kids.len() {
        0
    } else {
        slot(t, i as int, name, reads, rounds) + kids_spent(t, i + 1, name, reads, rounds)
    }
}

/// What the arms from place `k` on spend: guards run one after another until an arm is
/// taken. Where none is, evaluation ends.
pub open spec fn arms_spent(t: Term, k: nat, name: Name, reads: bool, rounds: nat) -> int
    decreases t, t.arms.len() - k,
{
    if k >= t.arms.len() {
        0
    } else {
        let arm = t.arms[k as int];
        let rest = arms_spent(t, k + 1, name, reads, rounds);
        let here = if arm.bindings.contains(name) {
            0
        } else {
            spent(arm.body, name, reads, rounds)
        };
        (match arm.guard {
            Some(g) if !arm.bindings.contains(name) => spent(g, name, reads, rounds),
            _ => 0,
        }) + if k + 1 == t.arms.len() {
            here
        } else {
            more(here, rest)
        }
    }
}

/// What the receivers of a select from the `i`th on spend, all of which run.
pub open spec fn receivers_spent(t: Term, i: nat, name: Name, reads: bool, rounds: nat) -> int
    decreases t, t.kids.len() - i,
{
    if 2 * i + 1 >= t.kids.len() {
        0
    } else {
        spent(t.kids[2 * i as int], name, reads, rounds) + receivers_spent(
            t,
            i + 1,
            name,
            reads,
            rounds,
        )
    }
}

/// What one of the first `i` bodies of a select spends at most.
pub open spec fn bodies_spent(t: Term, i: nat, name: Name, reads: bool, rounds: nat) -> int
    decreases t, i,
{
    if i == 0 || 2 * i > t.kids.len() {
        0
    } else {
        more(
            bodies_spent(t, (i - 1) as nat, name, reads, rounds),
            spent(t.kids[2 * i - 1], name, reads, rounds),
        )
    }
}

/// Whether a node spends `name` in its own right, apart from its children and other than by a
/// use.
pub open spec fn disturbs(t: Term, name: Name) -> bool {
    ||| claims(t, name)
    ||| t.op == Op::RcAnnotated(RcOp::Dec) && t.names[0] == name
}

/// Whether the outer `name` is only used and rebound in a term: it is not released yet, and
/// nothing is built in its memory yet.
pub open spec fn steady(t: Term, name: Name) -> bool
    decreases t,
{
    &&& shaped(t)
    &&& !disturbs(t, name)
    &&& (!(t.op is Closure) ==> forall|i: int|
        0 <= i < t.kids.len() && in_scope(t, i, name) ==> steady(#[trigger] t.kids[i], name))
    &&& forall|k: int| 0 <= k < t.arms.len() ==> steady_arm(#[trigger] t.arms[k], name)
}

/// Whether the outer `name` is only used and rebound in an arm.
pub open spec fn steady_arm(arm: ArmTerm, name: Name) -> bool
    decreases arm,
{
    ||| arm.bindings.contains(name)
    ||| {
        &&& (arm.guard matches Some(g) ==> steady(g, name))
        &&& steady(arm.body, name)
    }
}

/// One reference may be spent if the name is used and not needed afterwards.
pub open spec fn allowed(live: bool, used: bool) -> int {
    if !live && used {
        1
    } else {
        0
    }
}

/// A term that does not mention a name spends nothing of it.
proof fn unmentioned_spends_nothing(t: Term, name: Name, reads: bool, rounds: nat)
    requires
        steady(t, name),
        !mentions(t, name),
    ensures
        spent(t, name, reads, rounds) <= 0,
    decreases t, t.kids.len() + t.arms.len() + 1,
{
    assert forall|i: int| 0 <= i < t.kids.len() implies !mentions(#[trigger] t.kids[i], name) by {}
    match t.op {
        Op::Var | Op::Closure(_) => {},
        Op::RcAnnotated(_) => {
            unmentioned_spends_nothing(t.kids[0], name, reads, rounds);
        },
        Op::If => {
            unmentioned_spends_nothing(t.kids[0], name, reads, rounds);
            unmentioned_spends_nothing(t.kids[1], name, reads, rounds);
            unmentioned_spends_nothing(t.kids[2], name, reads, rounds);
        },
        Op::Match => {
            unmentioned_spends_nothing(t.kids[0], name, reads, rounds);
            assert(slot(t, 0, name, reads, rounds) <= 0);
            unmentioned_arms_spend_nothing(t, 0, name, reads, rounds);
        },
        Op::For => {
            unmentioned_spends_nothing(t.kids[0], name, reads, rounds);
            unmentioned_spends_nothing(t.kids[1], name, reads, rounds);
            if t.names[0] != name {
                unmentioned_spends_nothing(t.kids[2], name, reads, rounds);
                let s = spent(t.kids[2], name, reads, rounds);
                assert(rounds * s <= 0) by (nonlinear_arith)
                    requires
                        s <= 0,
                        rounds >= 0,
                ;
            }
        },
        Op::Assign if t.names[0] == name => {
            unmentioned_spends_nothing(t.kids[0], name, reads, rounds);
            unmentioned_spends_nothing(t.kids[1], name, reads, rounds);
        },
        Op::Select => {
            unmentioned_receivers_spend_nothing(t, 0, name, reads, rounds);
            unmentioned_bodies_spend_nothing(t, t.kids.len() / 2, name, reads, rounds);
        },
        _ => {
            unmentioned_kids_spend_nothing(t, 0, name, reads, rounds);
        },
    }
}

proof fn unmentioned_kids_spend_nothing(t: Term, i: nat, name: Name, reads: bool, rounds: nat)
    requires
        steady(t, name),
        !(t.op is Closure),
        !mentions(t, name),
    ensures
        kids_spent(t, i, name, reads, rounds) <= 0,
    decreases t, t.kids.len() - i,
{
    if i < t.kids.len() {
        assert(!mentions(t.kids[i as int], name));
        if in_scope(t, i as int, name) {
            unmentioned_spends_nothing(t.kids[i as int], name, reads, rounds);
        }
        assert(slot(t, i as int, name, reads, rounds) <= 0);
        unmentioned_kids_spend_nothing(t, i + 1, name, reads, rounds);
    }
}

proof fn unmentioned_arms_spend_nothing(t: Term, k: nat, name: Name, reads: bool, rounds: nat)
    requires
        steady(t, name),
        !mentions(t, name),
    ensures
        arms_spent(t, k, name, reads, rounds) <= 0,
    decreases t, t.arms.len() - k,
{
    if k < t.arms.len() {
        let arm = t.arms[k as int];
        arm_decreases(arm);
        assert(steady_arm(arm, name));
        assert(!arm_mentions(arm, name));
        unmentioned_arms_spend_nothing(t, k + 1, name, reads, rounds);
        if !arm.bindings.contains(name) {
            if let Some(g) = arm.guard {
                unmentioned_spends_nothing(g, name, reads, rounds);
            }
            unmentioned_spends_nothing(arm.body, name, reads, rounds);
        }
    }
}

proof fn unmentioned_receivers_spend_nothing(
    t: Term,
    i: nat,
    name: Name,
    reads: bool,
    rounds: nat,
)
    requires
        steady(t, name),
        t.op == Op::Select,
        !mentions(t, name),
    ensures
        receivers_spent(t, i, name, reads, rounds) <= 0,
    decreases t, t.kids.len() - i,
{
    if 2 * i + 1 < t.kids.len() {
        assert(!mentions(t.kids[2 * i as int], name));
        unmentioned_spends_nothing(t.kids[2 * i as int], name, reads, rounds);
        unmentioned_receivers_spend_nothing(t, i + 1, name, reads, rounds);
    }
}

proof fn unmentioned_bodies_spend_nothing(t: Term, i: nat, name: Name, reads: bool, rounds: nat)
    requires
        steady(t, name),
        t.op == Op::Select,
        !mentions(t, name),
    ensures
        bodies_spent(t, i, name, reads, rounds) <= 0,
    decreases t, i,
{
    if i > 0 && 2 * i <= t.kids.len() {
        assert(!mentions(t.kids[2 * i - 1], name));
        unmentioned_spends_nothing(t.kids[2 * i - 1], name, reads, rounds);
        unmentioned_bodies_spend_nothing(t, (i - 1) as nat, name, reads, rounds);
    }
}

/// The child at place `i + j` after marking.
pub(crate) proof fn marked_kid(t: Term, i: nat, j: nat, name: Name, live: bool)
    requires
        i + j < t.kids.len(),
    ensures
        mark_from(t, i, name, live).0.len() == t.kids.len() - i,
        mark_from(t, i, name, live).0[j as int] == mark(
            t.kids[(i + j) as int],
            name,
            live || mark_from(t, i + j + 1, name, live).1,
        ).0,
        mark(t.kids[(i + j) as int], name, live || mark_from(t, i + j + 1, name, live).1).1
            ==> mark_from(t, i, name, live).1,
    decreases t.kids.len() - i,
{
    let rest = mark_from(t, i + 1, name, live);
    if j > 0 {
        marked_kid(t, i + 1, (j - 1) as nat, name, live);
        assert(mark_from(t, i, name, live).0[j as int] == rest.0[j - 1]);
    } else {
        marked_len(t, i + 1, name, live);
    }
}

pub(crate) proof fn marked_len(t: Term, i: nat, name: Name, live: bool)
    requires
        i <= t.kids.len(),
    ensures
        mark_from(t, i, name, live).0.len() == t.kids.len() - i,
    decreases t.kids.len() - i,
{
    if i < t.kids.len() {
        marked_len(t, i + 1, name, live);
    }
}

/// The receiver at place `i + j` after marking.
pub(crate) proof fn marked_receiver(t: Term, i: nat, j: nat, name: Name, live: bool)
    requires
        2 * (i + j) + 1 < t.kids.len(),
    ensures
        mark_receivers(t, i, name, live).0.len() > j,
        mark_receivers(t, i, name, live).0[j as int] == mark(
            t.kids[2 * (i + j) as int],
            name,
            live || mark_receivers(t, i + j + 1, name, live).1,
        ).0,
        mark(
            t.kids[2 * (i + j) as int],
            name,
            live || mark_receivers(t, i + j + 1, name, live).1,
        ).1 ==> mark_receivers(t, i, name, live).1,
    decreases j,
{
    if j > 0 {
        marked_receiver(t, i + 1, (j - 1) as nat, name, live);
        let rest = mark_receivers(t, i + 1, name, live);
        assert(mark_receivers(t, i, name, live).0[j as int] == rest.0[j - 1]);
    }
}

/// The body at place `j` after marking.
pub(crate) proof fn marked_body(t: Term, i: nat, j: nat, name: Name, live: bool)
    requires
        j < i,
        2 * i <= t.kids.len(),
    ensures
        mark_bodies(t, i, name, live).0.len() == i,
        mark_bodies(t, i, name, live).0[j as int] == mark(t.kids[2 * j as int + 1], name, live).0,
        mark(t.kids[2 * j as int + 1], name, live).1 ==> mark_bodies(t, i, name, live).1,
    decreases i,
{
    if j < i - 1 {
        marked_body(t, (i - 1) as nat, j, name, live);
    } else if i > 1 {
        marked_body(t, (i - 1) as nat, 0, name, live);
    } else {
        assert(mark_bodies(t, 0, name, live).0.len() == 0);
    }
}

/// The arm at place `i + j` after marking.
pub(crate) proof fn marked_arm(t: Term, i: nat, j: nat, name: Name, live: bool)
    requires
        i + j < t.arms.len(),
    ensures
        mark_arms(t, i, name, live).0.len() == t.arms.len() - i,
        ({
            let arm = t.arms[(i + j) as int];
            let m = mark_arms(t, i, name, live);
            let b = mark(arm.body, name, live);
            let done = m.0[j as int];
            if arm.bindings.contains(name) {
                done == arm
            } else {
                &&& done.tag == arm.tag
                &&& done.bindings == arm.bindings
                &&& done.body == b.0
                &&& match arm.guard {
                    Some(g) => done.guard == Some(
                        mark(g, name, live || b.1 || mark_arms(t, i + j + 1, name, live).1).0,
                    ),
                    None => done.guard is None,
                }
            }
        }),
    decreases t.arms.len() - i,
{
    let rest = mark_arms(t, i + 1, name, live);
    if j > 0 {
        marked_arm(t, i + 1, (j - 1) as nat, name, live);
        assert(mark_arms(t, i, name, live).0[j as int] == rest.0[j - 1]);
    } else {
        marked_arms_len(t, i + 1, name, live);
    }
}

pub(crate) proof fn marked_arms_len(t: Term, i: nat, name: Name, live: bool)
    requires
        i <= t.arms.len(),
    ensures
        mark_arms(t, i, name, live).0.len() == t.arms.len() - i,
    decreases t.arms.len() - i,
{
    if i < t.arms.len() {
        marked_arms_len(t, i + 1, name, live);
    }
}

/// Whether the children of a node from place `from` on rebind the name wherever they spend it.
pub(crate) open spec fn kids_settle(t: Term, from: int, name: Name) -> bool {
    forall|j: int|
        from <= j < t.kids.len() ==> settles(#[trigger] t.kids[j], name) || just_read(t, j, name)
            || some_rebinds(t.kids, j + 1, name)
}

/// Whether the terms from place `from` on rebind the name wherever they spend it, each by
/// itself.
pub(crate) open spec fn all_settle(ts: Seq<Term>, from: int, name: Name) -> bool {
    forall|j: int| from <= j < ts.len() ==> settles(#[trigger] ts[j], name)
}

/// Whether the arms from place `from` on rebind the name wherever they spend it.
pub(crate) open spec fn all_arms_settle(arms: Seq<ArmTerm>, from: int, name: Name) -> bool {
    forall|j: int|
        from <= j < arms.len() ==> settles_arm(
            #[trigger] arms[j],
            arms_rebind(arms, j + 1, name),
            name,
        )
}

/// What a marked term spends, by how the name goes on after it.
proof fn marked_uses_are_counted(t: Term, name: Name, live: bool, reads: bool, rounds: nat)
    requires
        steady(t, name),
    ensures
        ({
            let m = mark(t, name, live);
            &&& spent(m.0, name, reads, rounds) <= allowed(live, m.1)
            &&& settles(m.0, name) ==> spent(m.0, name, reads, rounds) <= 0
            &&& rebinds(m.0, name) && !m.1 ==> spent(m.0, name, reads, rounds) <= -1
        }),
    decreases t, t.kids.len() + t.arms.len() + 1,
{
    let m = mark(t, name, live).0;
    match t.op {
        Op::Var => {
            if t.names[0] == name && live {
                assert(m == t_rc(RcOp::Inc, name, t));
                assert(shaped(m));
                assert(m.kids[0] == t);
                assert(spent(t, name, reads, rounds) == 1);
            }
        },
        Op::If => {
            let a = mark(t.kids[1], name, live);
            let b = mark(t.kids[2], name, live);
            marked_uses_are_counted(t.kids[1], name, live, reads, rounds);
            marked_uses_are_counted(t.kids[2], name, live, reads, rounds);
            marked_uses_are_counted(
                t.kids[0],
                name,
                live || a.1 || b.1,
                reads,
                rounds,
            );
            assert(shaped(m));
        },
        Op::Match => {
            let arms = mark_arms(t, 0, name, live);
            marked_uses_are_counted(t.kids[0], name, live || arms.1, reads, rounds);
            marked_arms_len(t, 0, name, live);
            assert(shaped(m));
            arms_are_counted(t, 0, name, live, reads, rounds);
            assert(settles(m, name) ==> all_arms_settle(m.arms, 0, name));
            assert(settles(m, name) ==> settles(m.kids[0], name) || just_read(m, 0, name) || (
            m.arms.len() > 0 && arms_rebind(m.arms, 0, name)));
            assert(rebinds(m, name) ==> rebinds(m.kids[0], name) || (m.arms.len() > 0
                && arms_rebind(m.arms, 0, name)));
            assert(just_read(m, 0, name) ==> slot(m, 0, name, reads, rounds) <= 0);
            assert(rebinds(m.kids[0], name) ==> !is_var(m.kids[0], name));
            assert(slot(m, 0, name, reads, rounds) <= allowed(
                live || arms.1,
                mark(t.kids[0], name, live || arms.1).1,
            ));
        },
        Op::For => {
            let b = mark_loop(t, name);
            let e = mark(t.kids[1], name, live || b.1);
            marked_uses_are_counted(t.kids[1], name, live || b.1, reads, rounds);
            marked_uses_are_counted(t.kids[0], name, live || b.1 || e.1, reads, rounds);
            assert(shaped(m));
            if t.names[0] != name {
                assert(steady(t.kids[2], name));
                if !mentions(t.kids[2], name) {
                    unmentioned_spends_nothing(t.kids[2], name, reads, rounds);
                } else {
                    marked_uses_are_counted(t.kids[2], name, false, reads, rounds);
                    marked_uses_are_counted(t.kids[2], name, true, reads, rounds);
                }
                let s = spent(b.0, name, reads, rounds);
                assert(rounds * s <= 0) by (nonlinear_arith)
                    requires
                        s <= 0,
                        rounds >= 0,
                ;
            }
        },
        Op::Closure(_) => {},
        Op::Spawn => {
            assert(steady(t.kids[0], name));
            if mentions(t.kids[0], name) {
                marked_uses_are_counted(t.kids[0], name, true, reads, rounds);
                assert(shaped(m));
            } else {
                unmentioned_spends_nothing(t.kids[0], name, reads, rounds);
            }
            assert(kids_spent(m, 1, name, reads, rounds) == 0);
            assert(kids_spent(m, 0, name, reads, rounds) == slot(m, 0, name, reads, rounds));
        },
        Op::Select => {
            let n = t.kids.len() / 2;
            let b = mark_bodies(t, n, name, live);
            let r = mark_receivers(t, 0, name, live || b.1);
            if n > 0 {
                marked_body(t, n, 0, name, live);
            }
            assert(m.kids.len() == t.kids.len());
            assert(shaped(m));
            receivers_are_counted(t, 0, name, live, reads, rounds);
            bodies_are_counted(t, n, name, live, reads, rounds);
            assert(settles(m, name) ==> all_settle(m.kids, 0, name));
        },
        Op::Assign => {
            let r = mark(t.kids[1], name, live);
            let before = t.names[0] != name && (r.1 || live);
            marked_uses_are_counted(t.kids[1], name, live, reads, rounds);
            marked_uses_are_counted(t.kids[0], name, before, reads, rounds);
            assert(shaped(m));
            assert(m.kids[0] == mark(t.kids[0], name, before).0);
            assert(m.kids[1] == r.0);
            assert(kids_spent(m, 2, name, reads, rounds) == 0);
            assert(kids_spent(m, 1, name, reads, rounds) == slot(m, 1, name, reads, rounds));
            assert(kids_spent(m, 0, name, reads, rounds) == slot(m, 0, name, reads, rounds) + slot(
                m,
                1,
                name,
                reads,
                rounds,
            ));
        },
        Op::Let => {
            assert(shaped(m));
            assert(kids_spent(m, 2, name, reads, rounds) == 0);
            assert(kids_spent(m, 1, name, reads, rounds) == slot(m, 1, name, reads, rounds));
            assert(kids_spent(m, 0, name, reads, rounds) == slot(m, 0, name, reads, rounds) + slot(
                m,
                1,
                name,
                reads,
                rounds,
            ));
            if t.names[0] == name {
                marked_uses_are_counted(t.kids[0], name, live, reads, rounds);
            } else {
                let b = mark(t.kids[1], name, live);
                marked_uses_are_counted(t.kids[1], name, live, reads, rounds);
                marked_uses_are_counted(t.kids[0], name, live || b.1, reads, rounds);
            }
        },
        Op::RcAnnotated(_) => {
            marked_kid(t, 0, 0, name, live);
            assert(shaped(m));
            assert(mark_from(t, 1, name, live).1 == false);
            marked_uses_are_counted(t.kids[0], name, live, reads, rounds);
            assert(m.kids[0] == mark(t.kids[0], name, live).0);
        },
        _ => {
            marked_len(t, 0, name, live);
            assert(shaped(m));
            kids_are_counted(t, 0, name, live, reads, rounds);
            assert(settles(m, name) ==> kids_settle(m, 0, name));
            if rebinds(m, name) {
                let j = choose|j: int| 0 <= j < m.kids.len() && rebinds(#[trigger] m.kids[j], name);
                assert(some_rebinds(m.kids, 0, name));
            }
        },
    }
}

proof fn kids_are_counted(t: Term, i: nat, name: Name, live: bool, reads: bool, rounds: nat)
    requires
        steady(t, name),
        !(t.op is Closure),
        t.op != Op::Let,
        t.op != Op::For,
        i <= t.kids.len(),
    ensures
        ({
            let m = Term { kids: mark_from(t, 0, name, live).0, ..t };
            &&& kids_spent(m, i, name, reads, rounds) <= allowed(
                live,
                mark_from(t, i, name, live).1,
            )
            &&& kids_settle(m, i as int, name) ==> kids_spent(m, i, name, reads, rounds) <= 0
            &&& some_rebinds(m.kids, i as int, name) && !mark_from(t, i, name, live).1
                ==> kids_spent(m, i, name, reads, rounds) <= -1
        }),
    decreases t, t.kids.len() - i,
{
    let m = Term { kids: mark_from(t, 0, name, live).0, ..t };
    marked_len(t, 0, name, live);
    if i < t.kids.len() {
        let rest = mark_from(t, i + 1, name, live);
        kids_are_counted(t, i + 1, name, live, reads, rounds);
        marked_kid(t, 0, i, name, live);
        marked_uses_are_counted(
            t.kids[i as int],
            name,
            live || rest.1,
            reads,
            rounds,
        );
        let here = slot(m, i as int, name, reads, rounds);
        assert(here <= allowed(
            live || rest.1,
            mark(t.kids[i as int], name, live || rest.1).1,
        ));
        assert(settles(m.kids[i as int], name) ==> here <= 0);
        assert(just_read(m, i as int, name) ==> here <= 0);
        assert(kids_settle(m, i as int, name) ==> settles(m.kids[i as int], name) || just_read(
            m,
            i as int,
            name,
        ) || some_rebinds(m.kids, (i + 1) as int, name));
        assert(kids_settle(m, i as int, name) ==> kids_settle(m, (i + 1) as int, name));
        if some_rebinds(m.kids, i as int, name) && !rebinds(m.kids[i as int], name) {
            let j = choose|j: int| i <= j < m.kids.len() && rebinds(#[trigger] m.kids[j], name);
            assert(some_rebinds(m.kids, (i + 1) as int, name));
        }
        assert(rebinds(m.kids[i as int], name) ==> !is_var(m.kids[i as int], name));
    }
}

proof fn arms_are_counted(t: Term, k: nat, name: Name, live: bool, reads: bool, rounds: nat)
    requires
        steady(t, name),
        k <= t.arms.len(),
    ensures
        ({
            let arms = mark_arms(t, 0, name, live);
            let s = mark(t.kids[0], name, live || arms.1);
            let m = Term { kids: seq![s.0], arms: arms.0, ..t };
            &&& arms_spent(m, k, name, reads, rounds) <= allowed(
                live,
                mark_arms(t, k, name, live).1,
            )
            &&& all_arms_settle(m.arms, k as int, name) ==> arms_spent(
                m,
                k,
                name,
                reads,
                rounds,
            ) <= 0
            &&& arms_rebind(m.arms, k as int, name) && k < t.arms.len() && !mark_arms(
                t,
                k,
                name,
                live,
            ).1 ==> arms_spent(m, k, name, reads, rounds) <= -1
        }),
    decreases t, t.arms.len() - k,
{
    let arms = mark_arms(t, 0, name, live);
    let s = mark(t.kids[0], name, live || arms.1);
    let m = Term { kids: seq![s.0], arms: arms.0, ..t };
    marked_arms_len(t, 0, name, live);
    if k < t.arms.len() {
        let arm = t.arms[k as int];
        let rest = mark_arms(t, k + 1, name, live);
        arm_decreases(arm);
        assert(steady_arm(arm, name));
        arms_are_counted(t, k + 1, name, live, reads, rounds);
        marked_arm(t, 0, k, name, live);
        let done = m.arms[k as int];
        assert(all_arms_settle(m.arms, k as int, name) ==> settles_arm(
            done,
            arms_rebind(m.arms, (k + 1) as int, name),
            name,
        ));
        assert(all_arms_settle(m.arms, k as int, name) ==> all_arms_settle(m.arms, (k + 1) as int, name));
        assert(arms_rebind(m.arms, k as int, name) ==> rebinds_arm(done, name) && arms_rebind(
            m.arms,
            (k + 1) as int,
            name,
        ));
        if !arm.bindings.contains(name) {
            let b = mark(arm.body, name, live);
            marked_uses_are_counted(arm.body, name, live, reads, rounds);
            if let Some(g) = arm.guard {
                marked_uses_are_counted(g, name, live || b.1 || rest.1, reads, rounds);
            }
        }
    }
}

proof fn receivers_are_counted(t: Term, i: nat, name: Name, live: bool, reads: bool, rounds: nat)
    requires
        steady(t, name),
        t.op == Op::Select,
    ensures
        ({
            let n = t.kids.len() / 2;
            let b = mark_bodies(t, n, name, live);
            let r = mark_receivers(t, 0, name, live || b.1);
            let m = Term { kids: interleave(r.0, b.0), ..t };
            &&& receivers_spent(m, i, name, reads, rounds) <= allowed(
                live || b.1,
                mark_receivers(t, i, name, live || b.1).1,
            )
            &&& all_settle(m.kids, 0, name) ==> receivers_spent(m, i, name, reads, rounds) <= 0
        }),
    decreases t, t.kids.len() - i,
{
    let n = t.kids.len() / 2;
    let b = mark_bodies(t, n, name, live);
    let outer = live || b.1;
    let r = mark_receivers(t, 0, name, outer);
    let m = Term { kids: interleave(r.0, b.0), ..t };
    if n > 0 {
        marked_body(t, n, 0, name, live);
    }
    assert(m.kids.len() == t.kids.len());
    if 2 * i + 1 < t.kids.len() {
        let rest = mark_receivers(t, i + 1, name, outer);
        receivers_are_counted(t, i + 1, name, live, reads, rounds);
        marked_receiver(t, 0, i, name, outer);
        assert(m.kids[2 * i as int] == r.0[i as int]);
        marked_uses_are_counted(
            t.kids[2 * i as int],
            name,
            outer || rest.1,
            reads,
            rounds,
        );
    }
}

proof fn bodies_are_counted(t: Term, i: nat, name: Name, live: bool, reads: bool, rounds: nat)
    requires
        steady(t, name),
        t.op == Op::Select,
        2 * i <= t.kids.len(),
    ensures
        ({
            let n = t.kids.len() / 2;
            let b = mark_bodies(t, n, name, live);
            let r = mark_receivers(t, 0, name, live || b.1);
            let m = Term { kids: interleave(r.0, b.0), ..t };
            &&& bodies_spent(m, i, name, reads, rounds) <= allowed(live, b.1)
            &&& all_settle(m.kids, 0, name) ==> bodies_spent(m, i, name, reads, rounds) <= 0
        }),
    decreases t, i,
{
    let n = t.kids.len() / 2;
    let b = mark_bodies(t, n, name, live);
    let r = mark_receivers(t, 0, name, live || b.1);
    let m = Term { kids: interleave(r.0, b.0), ..t };
    if i > 0 {
        bodies_are_counted(t, (i - 1) as nat, name, live, reads, rounds);
        marked_body(t, n, (i - 1) as nat, name, live);
        assert(m.kids.len() == t.kids.len());
        assert(m.kids[2 * i - 1] == b.0[i - 1]);
        marked_uses_are_counted(t.kids[2 * i - 1], name, live, reads, rounds);
    }
}

/// Every use but the last is counted: once a name's uses are marked, no path spends more
/// than one reference beyond those it adds, and none at all if the name is needed
/// afterwards.
pub proof fn every_use_but_the_last_is_counted(
    t: Term,
    name: Name,
    live: bool,
    reads: bool,
    rounds: nat,
)
    requires
        steady(t, name),
    ensures
        spent(mark(t, name, live).0, name, reads, rounds) <= allowed(live, mark(t, name, live).1),
{
    marked_uses_are_counted(t, name, live, reads, rounds);
}

/// A term that only reads a name spends nothing of it.
pub(crate) proof fn reading_spends_nothing(t: Term, name: Name, rounds: nat)
    requires
        steady(t, name),
        borrowed(t, name),
    ensures
        spent(t, name, false, rounds) <= 0,
    decreases t, t.kids.len() + t.arms.len() + 1,
{
    match t.op {
        Op::Var | Op::Closure(_) => {},
        Op::Spawn => {
            unmentioned_spends_nothing(t.kids[0], name, false, rounds);
            assert(slot(t, 0, name, false, rounds) <= 0);
            assert(kids_spent(t, 1, name, false, rounds) == 0);
            assert(kids_spent(t, 0, name, false, rounds) <= 0);
        },
        Op::RcAnnotated(_) => {
            assert(borrowed(t.kids[0], name));
            reading_spends_nothing(t.kids[0], name, rounds);
        },
        Op::If => {
            assert(borrowed(t.kids[0], name) && borrowed(t.kids[1], name) && borrowed(
                t.kids[2],
                name,
            ));
            reading_spends_nothing(t.kids[0], name, rounds);
            reading_spends_nothing(t.kids[1], name, rounds);
            reading_spends_nothing(t.kids[2], name, rounds);
        },
        Op::Match => {
            if !is_var(t.kids[0], name) {
                reading_spends_nothing(t.kids[0], name, rounds);
            }
            assert(slot(t, 0, name, false, rounds) <= 0);
            reading_arms_spend_nothing(t, 0, name, rounds);
        },
        Op::For => {
            assert(borrowed(t.kids[0], name) && borrowed(t.kids[1], name));
            reading_spends_nothing(t.kids[0], name, rounds);
            reading_spends_nothing(t.kids[1], name, rounds);
            if t.names[0] != name {
                assert(borrowed(t.kids[2], name));
                reading_spends_nothing(t.kids[2], name, rounds);
                let s = spent(t.kids[2], name, false, rounds);
                assert(rounds * s <= 0) by (nonlinear_arith)
                    requires
                        s <= 0,
                        rounds >= 0,
                ;
            }
        },
        Op::Select => {
            reading_receivers_spend_nothing(t, 0, name, rounds);
            reading_bodies_spend_nothing(t, t.kids.len() / 2, name, rounds);
        },
        _ => {
            reading_kids_spend_nothing(t, 0, name, rounds);
        },
    }
}

proof fn reading_kids_spend_nothing(t: Term, i: nat, name: Name, rounds: nat)
    requires
        steady(t, name),
        borrowed(t, name),
        t.op != Op::Var,
        t.op != Op::Spawn,
        !(t.op is Closure),
    ensures
        kids_spent(t, i, name, false, rounds) <= 0,
    decreases t, t.kids.len() - i,
{
    if i < t.kids.len() {
        let kid = t.kids[i as int];
        if in_scope(t, i as int, name) && !(borrows_children(t.op) && is_var(kid, name)) {
            reading_spends_nothing(kid, name, rounds);
        }
        assert(slot(t, i as int, name, false, rounds) <= 0);
        reading_kids_spend_nothing(t, i + 1, name, rounds);
    }
}

proof fn reading_arms_spend_nothing(t: Term, k: nat, name: Name, rounds: nat)
    requires
        steady(t, name),
        borrowed(t, name),
        t.op == Op::Match,
    ensures
        arms_spent(t, k, name, false, rounds) <= 0,
    decreases t, t.arms.len() - k,
{
    if k < t.arms.len() {
        let arm = t.arms[k as int];
        arm_decreases(arm);
        assert(steady_arm(arm, name));
        assert(arm_borrowed(arm, name));
        reading_arms_spend_nothing(t, k + 1, name, rounds);
        if !arm.bindings.contains(name) {
            if let Some(g) = arm.guard {
                reading_spends_nothing(g, name, rounds);
            }
            reading_spends_nothing(arm.body, name, rounds);
        }
    }
}

proof fn reading_receivers_spend_nothing(t: Term, i: nat, name: Name, rounds: nat)
    requires
        steady(t, name),
        borrowed(t, name),
        t.op == Op::Select,
    ensures
        receivers_spent(t, i, name, false, rounds) <= 0,
    decreases t, t.kids.len() - i,
{
    if 2 * i + 1 < t.kids.len() {
        assert(borrowed(t.kids[2 * i as int], name));
        reading_spends_nothing(t.kids[2 * i as int], name, rounds);
        reading_receivers_spend_nothing(t, i + 1, name, rounds);
    }
}

proof fn reading_bodies_spend_nothing(t: Term, i: nat, name: Name, rounds: nat)
    requires
        steady(t, name),
        borrowed(t, name),
        t.op == Op::Select,
    ensures
        bodies_spent(t, i, name, false, rounds) <= 0,
    decreases t, i,
{
    if i > 0 && 2 * i <= t.kids.len() {
        assert(borrowed(t.kids[2 * i - 1], name));
        reading_spends_nothing(t.kids[2 * i - 1], name, rounds);
        reading_bodies_spend_nothing(t, (i - 1) as nat, name, rounds);
    }
}

/// A binding's temporary is another name.
pub(crate) proof fn drop_name_is_another(name: Name)
    ensures
        drop_name(name) != name,
{
    reveal_strlit("drop$");
    assert(drop_name(name).len() == 5 + name.len());
}

/// A binding with one reference never spends a second one: the body of a binding, with its
/// adjustments, spends at most one reference beyond those it adds, however often its loops
/// run.
pub proof fn a_binding_is_paid_for(name: Name, known: bool, value: Term, body: Term, rounds: nat)
    requires
        steady(body, name),
        known || (allocates(value.op) && borrowed_once(body, name)),
    ensures
        spent(count_body(name, known, value, body), name, false, rounds) <= 1,
{
    let m = mark(body, name, false);
    every_use_but_the_last_is_counted(body, name, false, false, rounds);
    if borrowed_once(body, name) {
        let d = scope_end_drop(body, name);
        let last = t_rc(RcOp::Dec, name, t_var(drop_name(name)));
        drop_name_is_another(name);
        reading_spends_nothing(body, name, rounds);
        assert(d.kids[0] == body && d.kids[1] == last);
        assert(shaped(d) && shaped(last) && shaped(last.kids[0]));
        assert(spent(last.kids[0], name, false, rounds) == 0);
        assert(spent(last, name, false, rounds) == 1);
        assert(slot(d, 0, name, false, rounds) <= 0);
        assert(slot(d, 1, name, false, rounds) == 1);
        assert(kids_spent(d, 2, name, false, rounds) == 0);
        assert(kids_spent(d, 1, name, false, rounds) == 1);
        assert(kids_spent(d, 0, name, false, rounds) <= 1);
    } else if !m.1 {
        let d = t_rc(RcOp::Dec, name, m.0);
        assert(shaped(d));
        assert(d.kids[0] == m.0);
    }
}

} // verus!
