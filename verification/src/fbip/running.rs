//! What is left of a name's references at every moment.
//!
//! [`spent`](super::balance::spent) weighs a whole path, so that a later rebinding can make up
//! for what was spent before it. Here the references are followed along the path: once more
//! than there are have been spent, nothing makes up for it.

use vstd::prelude::*;
use crate::ir::{arm_decreases, shaped, t_rc, t_var, ArmTerm, Name, Op, RcOp, Term};
use super::balance::{
    all_arms_settle, all_settle, allowed, drop_name_is_another, kids_settle, marked_arm,
    marked_arms_len, marked_body, marked_kid, marked_len, marked_receiver, only_reads, steady, steady_arm,
};
use super::last_use::{
    arms_rebind, interleave, just_read, mark, mark_arms, mark_bodies, mark_from, mark_loop,
    mark_receivers, rebinds, rebinds_arm, settles, settles_arm, some_rebinds,
};
use super::laws::unmentioned_is_unmarked;
use super::paid::{
    bare, countable, countable_arm, counting_keeps_steady, marked_parts, marking_keeps_known,
    marking_keeps_what_may_be_taken, touched, touched_arm,
};
use super::refcount::{
    allocates, arm_scope, body_scope, borrowed_once, count_body, counted, counted_arm, drop_name,
    is_heap, kid_scope, scope_end_drop,
};
use super::reuse::may_take;
use super::uses::{arm_borrowed, borrowed, borrows_children, claims, in_scope, is_var, mentions};

verus! {

/// The smaller of two numbers.
pub open spec fn fewer(a: int, b: int) -> int {
    if a <= b {
        a
    } else {
        b
    }
}

/// One reference fewer. What is overdrawn stays so.
pub open spec fn less_one(have: int) -> int {
    if have > 0 {
        have - 1
    } else {
        -1
    }
}

/// How many references to the outer `name` are left at least after a term, over all paths, if
/// there are `have` of them before and every loop runs `rounds` times; negative if a path
/// spends one at a moment when there is none. A rebinding leaves the name with the one that
/// the new value comes with. `reads` says whether a use that only reads the value counts where
/// its memory can be built in.
pub open spec fn left(t: Term, name: Name, have: int, reads: bool, rounds: nat) -> int
    decreases t, t.kids.len() + t.arms.len() + 1, 0nat,
{
    if have < 0 {
        -1
    } else if !shaped(t) {
        have
    } else {
        match t.op {
            Op::Var => if t.names[0] == name {
                less_one(have)
            } else {
                have
            },
            Op::RcAnnotated(op) => if t.names[0] != name {
                left(t.kids[0], name, have, reads, rounds)
            } else if op == RcOp::Inc {
                left(t.kids[0], name, have + 1, reads, rounds)
            } else {
                left(t.kids[0], name, less_one(have), reads, rounds)
            },
            Op::If => {
                let c = left(t.kids[0], name, have, reads, rounds);
                fewer(left(t.kids[1], name, c, reads, rounds), left(t.kids[2], name, c, reads, rounds))
            },
            Op::Match => arms_left(t, 0, name, slot_left(t, 0, name, have, reads, rounds), reads, rounds),
            Op::For => {
                let s = left(t.kids[0], name, have, reads, rounds);
                let e = left(t.kids[1], name, s, reads, rounds);
                if t.names[0] == name {
                    e
                } else {
                    rounds_left(t, rounds, name, e, reads, rounds)
                }
            },
            Op::Closure(_) => have,
            Op::Assign => {
                let v = left(t.kids[0], name, have, reads, rounds);
                left(
                    t.kids[1],
                    name,
                    if t.names[0] == name && v >= 0 {
                        1
                    } else {
                        v
                    },
                    reads,
                    rounds,
                )
            },
            Op::Select => bodies_left(
                t,
                t.kids.len() / 2,
                name,
                receivers_left(t, 0, name, have, reads, rounds),
                reads,
                rounds,
            ),
            _ => {
                let k = kids_left(t, 0, name, have, reads, rounds);
                if claims(t, name) {
                    less_one(k)
                } else {
                    k
                }
            },
        }
    }
}

/// What is left after the child at place `i`. A variable that is only read spends nothing.
pub open spec fn slot_left(t: Term, i: int, name: Name, have: int, reads: bool, rounds: nat) -> int
    decreases t, 0nat, 0nat,
{
    if !(0 <= i < t.kids.len()) || !in_scope(t, i, name) {
        have
    } else if only_reads(t.op) && is_var(t.kids[i], name) && !(reads && may_take(t, i, name)) {
        have
    } else {
        left(t.kids[i], name, have, reads, rounds)
    }
}

/// What is left after the children from place `i` on, all of which run.
pub open spec fn kids_left(t: Term, i: nat, name: Name, have: int, reads: bool, rounds: nat) -> int
    decreases t, t.kids.len() - i, 0nat,
{
    if i >= t.kids.len() {
        have
    } else {
        kids_left(
            t,
            i + 1,
            name,
            slot_left(t, i as int, name, have, reads, rounds),
            reads,
            rounds,
        )
    }
}

/// What is left after the body of a loop has run `n` times.
pub open spec fn rounds_left(t: Term, n: nat, name: Name, have: int, reads: bool, rounds: nat) -> int
    decreases t, 0nat, n,
{
    if n == 0 || t.kids.len() != 3 {
        have
    } else {
        left(
            t.kids[2],
            name,
            rounds_left(t, (n - 1) as nat, name, have, reads, rounds),
            reads,
            rounds,
        )
    }
}

/// What is left after the arms from place `k` on: guards run one after another until an arm
/// is taken.
pub open spec fn arms_left(t: Term, k: nat, name: Name, have: int, reads: bool, rounds: nat) -> int
    decreases t, t.arms.len() - k, 0nat,
{
    if k >= t.arms.len() {
        have
    } else {
        let arm = t.arms[k as int];
        let g = match arm.guard {
            Some(g) if !arm.bindings.contains(name) => left(g, name, have, reads, rounds),
            _ => have,
        };
        let here = if arm.bindings.contains(name) {
            g
        } else {
            left(arm.body, name, g, reads, rounds)
        };
        if k + 1 == t.arms.len() {
            here
        } else {
            fewer(here, arms_left(t, k + 1, name, g, reads, rounds))
        }
    }
}

/// What is left after the receivers of a select from the `i`th on, all of which run.
pub open spec fn receivers_left(t: Term, i: nat, name: Name, have: int, reads: bool, rounds: nat) -> int
    decreases t, t.kids.len() - i, 0nat,
{
    if 2 * i + 1 >= t.kids.len() {
        have
    } else {
        receivers_left(
            t,
            i + 1,
            name,
            left(t.kids[2 * i as int], name, have, reads, rounds),
            reads,
            rounds,
        )
    }
}

/// What is left after one of the first `i` bodies of a select.
pub open spec fn bodies_left(t: Term, i: nat, name: Name, have: int, reads: bool, rounds: nat) -> int
    decreases t, i, 0nat,
{
    if i == 0 || 2 * i > t.kids.len() {
        have
    } else {
        fewer(
            bodies_left(t, (i - 1) as nat, name, have, reads, rounds),
            left(t.kids[2 * i - 1], name, have, reads, rounds),
        )
    }
}

/// What a run over something marked has to leave: `used` says whether the name is used in it,
/// `settled` whether the name is rebound wherever it is spent, and `anew` whether it is rebound
/// on every path.
spec fn leaves(have: int, after: int, live: bool, used: bool, settled: bool, anew: bool) -> bool {
    &&& have >= 1 ==> after >= 1 - allowed(live, used)
    &&& have >= 1 && settled ==> after >= 1
    &&& have >= 0 && !used ==> after >= 0
    &&& have >= 0 && !used && anew ==> after >= 1
}

proof fn marked_uses_leave(t: Term, name: Name, live: bool, have: int, reads: bool, rounds: nat)
    requires
        steady(t, name),
        have >= 0,
    ensures
        ({
            let m = mark(t, name, live);
            leaves(
                have,
                left(m.0, name, have, reads, rounds),
                live,
                m.1,
                settles(m.0, name),
                rebinds(m.0, name),
            )
        }),
    decreases t, t.kids.len() + t.arms.len() + 1, 0nat,
{
    let m = mark(t, name, live).0;
    match t.op {
        Op::Var => {
            if t.names[0] == name && live {
                assert(m == t_rc(RcOp::Inc, name, t));
                assert(shaped(m));
                assert(m.kids[0] == t);
                assert(left(t, name, have + 1, reads, rounds) == have);
            }
        },
        Op::If => {
            let a = mark(t.kids[1], name, live);
            let b = mark(t.kids[2], name, live);
            let c = mark(t.kids[0], name, live || a.1 || b.1);
            assert(m.kids == seq![c.0, a.0, b.0]);
            assert(shaped(m));
            marked_uses_leave(t.kids[0], name, live || a.1 || b.1, have, reads, rounds);
            let h = left(c.0, name, have, reads, rounds);
            if h >= 0 {
                marked_uses_leave(t.kids[1], name, live, h, reads, rounds);
                marked_uses_leave(t.kids[2], name, live, h, reads, rounds);
            }
        },
        Op::Match => {
            let arms = mark_arms(t, 0, name, live);
            let s = mark(t.kids[0], name, live || arms.1);
            assert(m.kids == seq![s.0]);
            marked_arms_len(t, 0, name, live);
            assert(shaped(m));
            marked_uses_leave(t.kids[0], name, live || arms.1, have, reads, rounds);
            assert(settles(m, name) ==> all_arms_settle(m.arms, 0, name));
            assert(settles(m, name) ==> settles(m.kids[0], name) || just_read(m, 0, name) || (
            m.arms.len() > 0 && arms_rebind(m.arms, 0, name)));
            assert(rebinds(m, name) ==> rebinds(m.kids[0], name) || (m.arms.len() > 0
                && arms_rebind(m.arms, 0, name)));
            assert(rebinds(m.kids[0], name) ==> !is_var(m.kids[0], name));
            let h = slot_left(m, 0, name, have, reads, rounds);
            assert(h == have || h == left(s.0, name, have, reads, rounds));
            if h >= 0 {
                marked_arms_leave(t, 0, name, live, h, reads, rounds);
            }
        },
        Op::For => {
            let b = mark_loop(t, name);
            let e = mark(t.kids[1], name, live || b.1);
            let s = mark(t.kids[0], name, live || b.1 || e.1);
            assert(m.kids == seq![s.0, e.0, b.0]);
            assert(shaped(m));
            marked_uses_leave(t.kids[0], name, live || b.1 || e.1, have, reads, rounds);
            let h = left(s.0, name, have, reads, rounds);
            if h >= 0 {
                marked_uses_leave(t.kids[1], name, live || b.1, h, reads, rounds);
                let f = left(e.0, name, h, reads, rounds);
                if f >= 0 && t.names[0] != name {
                    assert(steady(t.kids[2], name));
                    marked_rounds_leave(t, m, rounds, name, f, reads, rounds);
                }
            }
        },
        Op::Closure(_) => {},
        Op::Spawn => {
            assert(steady(t.kids[0], name));
            marked_uses_leave(t.kids[0], name, true, have, reads, rounds);
            if mentions(t.kids[0], name) {
                assert(m.kids == seq![mark(t.kids[0], name, true).0]);
            } else {
                unmentioned_is_unmarked(t.kids[0], name, true);
            }
            assert(shaped(m));
            let h = slot_left(m, 0, name, have, reads, rounds);
            assert(h == left(m.kids[0], name, have, reads, rounds));
            assert(kids_left(m, 1, name, h, reads, rounds) == h);
            assert(kids_left(m, 0, name, have, reads, rounds) == h);
        },
        Op::Select => {
            let n = t.kids.len() / 2;
            let b = mark_bodies(t, n, name, live);
            let r = mark_receivers(t, 0, name, live || b.1);
            if n > 0 {
                marked_body(t, n, 0, name, live);
            }
            assert(m.kids.len() == t.kids.len());
            assert(shaped(m));
            assert(settles(m, name) ==> all_settle(m.kids, 0, name));
            marked_receivers_leave(t, 0, name, live, have, reads, rounds);
            let h = receivers_left(m, 0, name, have, reads, rounds);
            if h >= 0 {
                marked_bodies_leave(t, n, name, live, h, reads, rounds);
            }
        },
        Op::Assign => {
            let r = mark(t.kids[1], name, live);
            let before = t.names[0] != name && (r.1 || live);
            let v = mark(t.kids[0], name, before);
            assert(m.kids == seq![v.0, r.0]);
            assert(shaped(m));
            marked_uses_leave(t.kids[0], name, before, have, reads, rounds);
            let h = left(v.0, name, have, reads, rounds);
            if h >= 0 {
                let g = if t.names[0] == name {
                    1
                } else {
                    h
                };
                marked_uses_leave(t.kids[1], name, live, g, reads, rounds);
            }
        },
        Op::Let => {
            let b = mark(t.kids[1], name, live);
            let before = live || (t.names[0] != name && b.1);
            let v = mark(t.kids[0], name, before);
            assert(m.kids[0] == v.0);
            assert(shaped(m));
            marked_uses_leave(t.kids[0], name, before, have, reads, rounds);
            let h = left(v.0, name, have, reads, rounds);
            assert(slot_left(m, 0, name, have, reads, rounds) == h);
            if t.names[0] != name {
                assert(m.kids[1] == b.0);
                if h >= 0 {
                    marked_uses_leave(t.kids[1], name, live, h, reads, rounds);
                }
                let g = left(b.0, name, h, reads, rounds);
                assert(slot_left(m, 1, name, h, reads, rounds) == g);
                assert(kids_left(m, 2, name, g, reads, rounds) == g);
                assert(kids_left(m, 1, name, h, reads, rounds) == g);
            } else {
                assert(slot_left(m, 1, name, h, reads, rounds) == h);
                assert(kids_left(m, 2, name, h, reads, rounds) == h);
                assert(kids_left(m, 1, name, h, reads, rounds) == h);
            }
            assert(kids_left(m, 0, name, have, reads, rounds) == kids_left(m, 1, name, h, reads, rounds));
        },
        Op::RcAnnotated(op) => {
            marked_kid(t, 0, 0, name, live);
            assert(shaped(m));
            assert(mark_from(t, 1, name, live).1 == false);
            assert(m.kids[0] == mark(t.kids[0], name, live).0);
            marked_uses_leave(t.kids[0], name, live, have, reads, rounds);
            marked_uses_leave(t.kids[0], name, live, have + 1, reads, rounds);
        },
        _ => {
            marked_len(t, 0, name, live);
            assert(shaped(m));
            marked_kids_leave(t, 0, name, live, have, reads, rounds);
            assert(settles(m, name) ==> kids_settle(m, 0, name));
            if rebinds(m, name) {
                let j = choose|j: int| 0 <= j < m.kids.len() && rebinds(#[trigger] m.kids[j], name);
                assert(some_rebinds(m.kids, 0, name));
            }
        },
    }
}

proof fn marked_kids_leave(t: Term, i: nat, name: Name, live: bool, have: int, reads: bool, rounds: nat)
    requires
        steady(t, name),
        !(t.op is Closure),
        t.op != Op::Let,
        t.op != Op::For,
        i <= t.kids.len(),
        have >= 0,
    ensures
        ({
            let m = Term { kids: mark_from(t, 0, name, live).0, ..t };
            leaves(
                have,
                kids_left(m, i, name, have, reads, rounds),
                live,
                mark_from(t, i, name, live).1,
                kids_settle(m, i as int, name),
                some_rebinds(m.kids, i as int, name),
            )
        }),
    decreases t, t.kids.len() - i, 0nat,
{
    let m = Term { kids: mark_from(t, 0, name, live).0, ..t };
    marked_len(t, 0, name, live);
    if i < t.kids.len() {
        let rest = mark_from(t, i + 1, name, live);
        marked_kid(t, 0, i, name, live);
        marked_uses_leave(t.kids[i as int], name, live || rest.1, have, reads, rounds);
        let h = slot_left(m, i as int, name, have, reads, rounds);
        assert(h == have || h == left(m.kids[i as int], name, have, reads, rounds));
        assert(kids_left(m, i, name, have, reads, rounds) == kids_left(m, i + 1, name, h, reads, rounds));
        assert(just_read(m, i as int, name) ==> h == have);
        assert(kids_settle(m, i as int, name) ==> settles(m.kids[i as int], name) || just_read(
            m,
            i as int,
            name,
        ) || some_rebinds(m.kids, (i + 1) as int, name));
        assert(kids_settle(m, i as int, name) ==> kids_settle(m, (i + 1) as int, name));
        if some_rebinds(m.kids, i as int, name) && !rebinds(m.kids[i as int], name) {
            let j = choose|j: int| i <= j < m.kids.len() && rebinds(#[trigger] m.kids[j], name);
            assert(some_rebinds(m.kids, (i + 1) as int, name));
        }
        assert(rebinds(m.kids[i as int], name) ==> !is_var(m.kids[i as int], name));
        if h >= 0 {
            marked_kids_leave(t, i + 1, name, live, h, reads, rounds);
        }
    }
}

proof fn marked_rounds_leave(t: Term, m: Term, n: nat, name: Name, have: int, reads: bool, rounds: nat)
    requires
        shaped(t),
        t.op == Op::For,
        t.names[0] != name,
        steady(t.kids[2], name),
        m.kids.len() == 3,
        m.kids[2] == mark_loop(t, name).0,
        have >= 0,
    ensures
        have >= 1 ==> rounds_left(m, n, name, have, reads, rounds) >= 1,
        !mark_loop(t, name).1 ==> rounds_left(m, n, name, have, reads, rounds) >= 0,
    decreases t, 0nat, n,
{
    if n > 0 && (have >= 1 || !mark_loop(t, name).1) {
        let body = t.kids[2];
        marked_rounds_leave(t, m, (n - 1) as nat, name, have, reads, rounds);
        let h = rounds_left(m, (n - 1) as nat, name, have, reads, rounds);
        let once = mark(body, name, false);
        let again = mark(body, name, true);
        marked_uses_leave(body, name, false, h, reads, rounds);
        marked_uses_leave(body, name, true, h, reads, rounds);
        if !mentions(body, name) {
            unmentioned_is_unmarked(body, name, true);
        }
        assert(rounds_left(m, n, name, have, reads, rounds) == left(m.kids[2], name, h, reads, rounds));
    }
}

proof fn marked_arms_leave(t: Term, k: nat, name: Name, live: bool, have: int, reads: bool, rounds: nat)
    requires
        steady(t, name),
        k <= t.arms.len(),
        have >= 0,
    ensures
        ({
            let arms = mark_arms(t, 0, name, live);
            let s = mark(t.kids[0], name, live || arms.1);
            let m = Term { kids: seq![s.0], arms: arms.0, ..t };
            leaves(
                have,
                arms_left(m, k, name, have, reads, rounds),
                live,
                mark_arms(t, k, name, live).1,
                all_arms_settle(m.arms, k as int, name),
                k < t.arms.len() && arms_rebind(m.arms, k as int, name),
            )
        }),
    decreases t, t.arms.len() - k, 0nat,
{
    let arms = mark_arms(t, 0, name, live);
    let s = mark(t.kids[0], name, live || arms.1);
    let m = Term { kids: seq![s.0], arms: arms.0, ..t };
    marked_arms_len(t, 0, name, live);
    if k < t.arms.len() {
        let arm = t.arms[k as int];
        let rest = mark_arms(t, k + 1, name, live);
        arm_decreases(arm);
        assert(steady_arm(arm, name));
        marked_arm(t, 0, k, name, live);
        let done = m.arms[k as int];
        assert(all_arms_settle(m.arms, k as int, name) ==> settles_arm(
            done,
            arms_rebind(m.arms, (k + 1) as int, name),
            name,
        ));
        assert(all_arms_settle(m.arms, k as int, name) ==> all_arms_settle(
            m.arms,
            (k + 1) as int,
            name,
        ));
        assert(arms_rebind(m.arms, k as int, name) ==> rebinds_arm(done, name) && arms_rebind(
            m.arms,
            (k + 1) as int,
            name,
        ));
        if arm.bindings.contains(name) {
            marked_arms_leave(t, k + 1, name, live, have, reads, rounds);
        } else {
            let b = mark(arm.body, name, live);
            let h = match m.arms[k as int].guard {
                Some(g) => left(g, name, have, reads, rounds),
                None => have,
            };
            if let Some(g) = arm.guard {
                marked_uses_leave(g, name, live || b.1 || rest.1, have, reads, rounds);
            }
            if h >= 0 {
                marked_uses_leave(arm.body, name, live, h, reads, rounds);
                marked_arms_leave(t, k + 1, name, live, h, reads, rounds);
            }
        }
    }
}

proof fn marked_receivers_leave(t: Term, i: nat, name: Name, live: bool, have: int, reads: bool, rounds: nat)
    requires
        steady(t, name),
        t.op == Op::Select,
        have >= 0,
    ensures
        ({
            let b = mark_bodies(t, t.kids.len() / 2, name, live);
            let r = mark_receivers(t, 0, name, live || b.1);
            let m = Term { kids: interleave(r.0, b.0), ..t };
            leaves(
                have,
                receivers_left(m, i, name, have, reads, rounds),
                live || b.1,
                mark_receivers(t, i, name, live || b.1).1,
                all_settle(m.kids, 0, name),
                false,
            )
        }),
    decreases t, t.kids.len() - i, 0nat,
{
    let n = t.kids.len() / 2;
    let b = mark_bodies(t, n, name, live);
    let outer = live || b.1;
    let r = mark_receivers(t, 0, name, outer);
    let m = Term { kids: interleave(r.0, b.0), ..t };
    if n > 0 {
        marked_body(t, n, 0, name, live);
    }
    assert(m.kids.len() == t.kids.len());
    if 2 * i + 1 < t.kids.len() {
        let rest = mark_receivers(t, i + 1, name, outer);
        marked_receiver(t, 0, i, name, outer);
        assert(m.kids[2 * i as int] == r.0[i as int]);
        marked_uses_leave(t.kids[2 * i as int], name, outer || rest.1, have, reads, rounds);
        let h = left(m.kids[2 * i as int], name, have, reads, rounds);
        assert(receivers_left(m, i, name, have, reads, rounds) == receivers_left(
            m,
            i + 1,
            name,
            h,
            reads,
            rounds,
        ));
        if h >= 0 {
            marked_receivers_leave(t, i + 1, name, live, h, reads, rounds);
        }
    }
}

proof fn marked_bodies_leave(t: Term, i: nat, name: Name, live: bool, have: int, reads: bool, rounds: nat)
    requires
        steady(t, name),
        t.op == Op::Select,
        2 * i <= t.kids.len(),
        have >= 0,
    ensures
        ({
            let b = mark_bodies(t, t.kids.len() / 2, name, live);
            let r = mark_receivers(t, 0, name, live || b.1);
            let m = Term { kids: interleave(r.0, b.0), ..t };
            leaves(
                have,
                bodies_left(m, i, name, have, reads, rounds),
                live,
                b.1,
                all_settle(m.kids, 0, name),
                false,
            )
        }),
    decreases t, i, 0nat,
{
    let n = t.kids.len() / 2;
    let b = mark_bodies(t, n, name, live);
    let r = mark_receivers(t, 0, name, live || b.1);
    let m = Term { kids: interleave(r.0, b.0), ..t };
    if i > 0 {
        marked_bodies_leave(t, (i - 1) as nat, name, live, have, reads, rounds);
        marked_body(t, n, (i - 1) as nat, name, live);
        assert(m.kids.len() == t.kids.len());
        assert(m.kids[2 * i - 1] == b.0[i - 1]);
        marked_uses_leave(t.kids[2 * i - 1], name, live, have, reads, rounds);
    }
}

/// No reference is spent that is not there. Once a name's uses are marked, and there is a
/// reference to it to begin with, at no moment on any path is one spent when there is none,
/// however often the name is rebound and loops run; and if the name is needed afterwards, there
/// is one left.
pub proof fn marking_never_overdraws(t: Term, name: Name, live: bool, have: int, reads: bool, rounds: nat)
    requires
        steady(t, name),
        have >= 1,
    ensures
        left(mark(t, name, live).0, name, have, reads, rounds) >= 0,
        live ==> left(mark(t, name, live).0, name, have, reads, rounds) >= 1,
{
    marked_uses_leave(t, name, live, have, reads, rounds);
}

/// A term that only reads a name leaves a reference where there is one.
proof fn reading_leaves_one(t: Term, name: Name, have: int, rounds: nat)
    requires
        steady(t, name),
        borrowed(t, name),
        have >= 1,
    ensures
        left(t, name, have, false, rounds) >= 1,
    decreases t, t.kids.len() + t.arms.len() + 1, 0nat,
{
    match t.op {
        Op::Var | Op::Closure(_) => {},
        Op::Spawn => {
            assert(steady(t.kids[0], name));
            unmentioned_is_unmarked(t.kids[0], name, true);
            marked_uses_leave(t.kids[0], name, true, have, false, rounds);
            let h = slot_left(t, 0, name, have, false, rounds);
            assert(h == left(t.kids[0], name, have, false, rounds));
            assert(kids_left(t, 1, name, h, false, rounds) == h);
            assert(kids_left(t, 0, name, have, false, rounds) == h);
        },
        Op::RcAnnotated(_) => {
            assert(borrowed(t.kids[0], name));
            reading_leaves_one(t.kids[0], name, have, rounds);
        },
        Op::If => {
            assert(borrowed(t.kids[0], name) && borrowed(t.kids[1], name) && borrowed(
                t.kids[2],
                name,
            ));
            reading_leaves_one(t.kids[0], name, have, rounds);
            let c = left(t.kids[0], name, have, false, rounds);
            reading_leaves_one(t.kids[1], name, c, rounds);
            reading_leaves_one(t.kids[2], name, c, rounds);
        },
        Op::Match => {
            if !is_var(t.kids[0], name) {
                reading_leaves_one(t.kids[0], name, have, rounds);
            }
            let h = slot_left(t, 0, name, have, false, rounds);
            reading_arms_leave_one(t, 0, name, h, rounds);
        },
        Op::For => {
            assert(borrowed(t.kids[0], name) && borrowed(t.kids[1], name));
            reading_leaves_one(t.kids[0], name, have, rounds);
            let s = left(t.kids[0], name, have, false, rounds);
            reading_leaves_one(t.kids[1], name, s, rounds);
            let e = left(t.kids[1], name, s, false, rounds);
            if t.names[0] != name {
                assert(borrowed(t.kids[2], name));
                reading_rounds_leave_one(t, rounds, name, e, rounds);
            }
        },
        Op::Select => {
            reading_receivers_leave_one(t, 0, name, have, rounds);
            let h = receivers_left(t, 0, name, have, false, rounds);
            reading_bodies_leave_one(t, t.kids.len() / 2, name, h, rounds);
        },
        Op::Assign => {
            assert(borrowed(t.kids[0], name) && borrowed(t.kids[1], name));
            reading_leaves_one(t.kids[0], name, have, rounds);
            reading_leaves_one(
                t.kids[1],
                name,
                left(t.kids[0], name, have, false, rounds),
                rounds,
            );
        },
        _ => {
            reading_kids_leave_one(t, 0, name, have, rounds);
        },
    }
}

proof fn reading_kids_leave_one(t: Term, i: nat, name: Name, have: int, rounds: nat)
    requires
        steady(t, name),
        borrowed(t, name),
        t.op != Op::Var,
        t.op != Op::Spawn,
        !(t.op is Closure),
        have >= 1,
    ensures
        kids_left(t, i, name, have, false, rounds) >= 1,
    decreases t, t.kids.len() - i, 0nat,
{
    if i < t.kids.len() {
        let kid = t.kids[i as int];
        if in_scope(t, i as int, name) && !(borrows_children(t.op) && is_var(kid, name)) {
            reading_leaves_one(kid, name, have, rounds);
        }
        let h = slot_left(t, i as int, name, have, false, rounds);
        assert(h >= 1);
        reading_kids_leave_one(t, i + 1, name, h, rounds);
    }
}

proof fn reading_rounds_leave_one(t: Term, n: nat, name: Name, have: int, rounds: nat)
    requires
        steady(t, name),
        t.op == Op::For,
        t.names[0] != name,
        borrowed(t.kids[2], name),
        have >= 1,
    ensures
        rounds_left(t, n, name, have, false, rounds) >= 1,
    decreases t, 0nat, n,
{
    if n > 0 {
        reading_rounds_leave_one(t, (n - 1) as nat, name, have, rounds);
        assert(steady(t.kids[2], name));
        reading_leaves_one(
            t.kids[2],
            name,
            rounds_left(t, (n - 1) as nat, name, have, false, rounds),
            rounds,
        );
    }
}

proof fn reading_arms_leave_one(t: Term, k: nat, name: Name, have: int, rounds: nat)
    requires
        steady(t, name),
        borrowed(t, name),
        t.op == Op::Match,
        have >= 1,
    ensures
        arms_left(t, k, name, have, false, rounds) >= 1,
    decreases t, t.arms.len() - k, 0nat,
{
    if k < t.arms.len() {
        let arm = t.arms[k as int];
        arm_decreases(arm);
        assert(steady_arm(arm, name));
        assert(arm_borrowed(arm, name));
        if arm.bindings.contains(name) {
            reading_arms_leave_one(t, k + 1, name, have, rounds);
        } else {
            if let Some(g) = arm.guard {
                reading_leaves_one(g, name, have, rounds);
            }
            let h = match arm.guard {
                Some(g) => left(g, name, have, false, rounds),
                None => have,
            };
            reading_leaves_one(arm.body, name, h, rounds);
            reading_arms_leave_one(t, k + 1, name, h, rounds);
        }
    }
}

proof fn reading_receivers_leave_one(t: Term, i: nat, name: Name, have: int, rounds: nat)
    requires
        steady(t, name),
        borrowed(t, name),
        t.op == Op::Select,
        have >= 1,
    ensures
        receivers_left(t, i, name, have, false, rounds) >= 1,
    decreases t, t.kids.len() - i, 0nat,
{
    if 2 * i + 1 < t.kids.len() {
        assert(borrowed(t.kids[2 * i as int], name));
        reading_leaves_one(t.kids[2 * i as int], name, have, rounds);
        let h = left(t.kids[2 * i as int], name, have, false, rounds);
        reading_receivers_leave_one(t, i + 1, name, h, rounds);
    }
}

proof fn reading_bodies_leave_one(t: Term, i: nat, name: Name, have: int, rounds: nat)
    requires
        steady(t, name),
        borrowed(t, name),
        t.op == Op::Select,
        have >= 1,
    ensures
        bodies_left(t, i, name, have, false, rounds) >= 1,
    decreases t, i, 0nat,
{
    if i > 0 && 2 * i <= t.kids.len() {
        assert(borrowed(t.kids[2 * i - 1], name));
        reading_leaves_one(t.kids[2 * i - 1], name, have, rounds);
        reading_bodies_leave_one(t, (i - 1) as nat, name, have, rounds);
    }
}

/// A binding never spends a reference that is not there: the body of a binding, with its
/// adjustments, starts with one reference, and at no moment on any path is one spent when
/// there is none, however often the name is rebound and loops run.
pub proof fn a_binding_never_overdraws(
    name: Name,
    known: bool,
    value: Term,
    body: Term,
    rounds: nat,
)
    requires
        steady(body, name),
        known || (allocates(value.op) && borrowed_once(body, name)),
    ensures
        left(count_body(name, known, value, body), name, 1, false, rounds) >= 0,
{
    let m = mark(body, name, false);
    marked_uses_leave(body, name, false, 1, false, rounds);
    marked_uses_leave(body, name, false, 0, false, rounds);
    if borrowed_once(body, name) {
        let d = scope_end_drop(body, name);
        let last = t_rc(RcOp::Dec, name, t_var(drop_name(name)));
        drop_name_is_another(name);
        reading_leaves_one(body, name, 1, rounds);
        let h = left(body, name, 1, false, rounds);
        assert(d.kids[0] == body && d.kids[1] == last);
        assert(shaped(d) && shaped(last) && shaped(last.kids[0]));
        assert(left(last.kids[0], name, less_one(h), false, rounds) == less_one(h));
        assert(left(last, name, h, false, rounds) == less_one(h));
        assert(slot_left(d, 0, name, 1, false, rounds) == h);
        assert(slot_left(d, 1, name, h, false, rounds) == less_one(h));
        assert(kids_left(d, 2, name, less_one(h), false, rounds) == less_one(h));
        assert(kids_left(d, 1, name, h, false, rounds) == less_one(h));
        assert(kids_left(d, 0, name, 1, false, rounds) == less_one(h));
    } else if !m.1 {
        let d = t_rc(RcOp::Dec, name, m.0);
        assert(shaped(d));
        assert(d.kids[0] == m.0);
    }
}

/// Whether two terms leave the same, whatever there is before them.
spec fn leave_alike(a: Term, b: Term, name: Name, reads: bool, rounds: nat) -> bool {
    forall|h: int|
        #[trigger] left(a, name, h, reads, rounds) == left(b, name, h, reads, rounds)
}

/// Whether two nodes agree in everything but their children and arms, and these leave the
/// same.
spec fn parts_leave_alike(a: Term, b: Term, name: Name, reads: bool, rounds: nat) -> bool {
    &&& a.op == b.op
    &&& a.names == b.names
    &&& a.kids.len() == b.kids.len()
    &&& a.arms.len() == b.arms.len()
    &&& forall|i: int|
        0 <= i < a.kids.len() ==> leave_alike(#[trigger] a.kids[i], b.kids[i], name, reads, rounds)
            && is_var(a.kids[i], name) == is_var(b.kids[i], name)
    &&& may_take(a, 0, name) == may_take(b, 0, name)
    &&& forall|k: int|
        0 <= k < a.arms.len() ==> arms_leave_alike(
            #[trigger] a.arms[k],
            b.arms[k],
            name,
            reads,
            rounds,
        )
}

spec fn arms_leave_alike(a: ArmTerm, b: ArmTerm, name: Name, reads: bool, rounds: nat) -> bool {
    &&& a.bindings == b.bindings
    &&& leave_alike(a.body, b.body, name, reads, rounds)
    &&& match a.guard {
        Some(g) => b.guard is Some && leave_alike(g, b.guard->Some_0, name, reads, rounds),
        None => b.guard is None,
    }
}

proof fn alike_slot(a: Term, b: Term, i: int, name: Name, h: int, reads: bool, rounds: nat)
    requires
        parts_leave_alike(a, b, name, reads, rounds),
    ensures
        slot_left(a, i, name, h, reads, rounds) == slot_left(b, i, name, h, reads, rounds),
{
    if 0 <= i < a.kids.len() {
        assert(leave_alike(a.kids[i], b.kids[i], name, reads, rounds));
        assert(left(a.kids[i], name, h, reads, rounds) == left(b.kids[i], name, h, reads, rounds));
    }
}

proof fn alike_kids(a: Term, b: Term, i: nat, name: Name, h: int, reads: bool, rounds: nat)
    requires
        parts_leave_alike(a, b, name, reads, rounds),
    ensures
        kids_left(a, i, name, h, reads, rounds) == kids_left(b, i, name, h, reads, rounds),
    decreases a.kids.len() - i,
{
    if i < a.kids.len() {
        alike_slot(a, b, i as int, name, h, reads, rounds);
        let g = slot_left(a, i as int, name, h, reads, rounds);
        alike_kids(a, b, i + 1, name, g, reads, rounds);
    }
}

proof fn alike_rounds(a: Term, b: Term, n: nat, name: Name, h: int, reads: bool, rounds: nat)
    requires
        parts_leave_alike(a, b, name, reads, rounds),
    ensures
        rounds_left(a, n, name, h, reads, rounds) == rounds_left(b, n, name, h, reads, rounds),
    decreases n,
{
    if n > 0 && a.kids.len() == 3 {
        alike_rounds(a, b, (n - 1) as nat, name, h, reads, rounds);
        let g = rounds_left(a, (n - 1) as nat, name, h, reads, rounds);
        assert(leave_alike(a.kids[2], b.kids[2], name, reads, rounds));
        assert(left(a.kids[2], name, g, reads, rounds) == left(b.kids[2], name, g, reads, rounds));
    }
}

proof fn alike_arms(a: Term, b: Term, k: nat, name: Name, h: int, reads: bool, rounds: nat)
    requires
        parts_leave_alike(a, b, name, reads, rounds),
    ensures
        arms_left(a, k, name, h, reads, rounds) == arms_left(b, k, name, h, reads, rounds),
    decreases a.arms.len() - k,
{
    if k < a.arms.len() {
        let x = a.arms[k as int];
        let y = b.arms[k as int];
        assert(arms_leave_alike(x, y, name, reads, rounds));
        if x.bindings.contains(name) {
            alike_arms(a, b, k + 1, name, h, reads, rounds);
        } else {
            let g = match x.guard {
                Some(g) => left(g, name, h, reads, rounds),
                None => h,
            };
            if let Some(e) = x.guard {
                assert(left(e, name, h, reads, rounds) == left(
                    y.guard->Some_0,
                    name,
                    h,
                    reads,
                    rounds,
                ));
            }
            assert(left(x.body, name, g, reads, rounds) == left(y.body, name, g, reads, rounds));
            alike_arms(a, b, k + 1, name, g, reads, rounds);
        }
    }
}

proof fn alike_receivers(a: Term, b: Term, i: nat, name: Name, h: int, reads: bool, rounds: nat)
    requires
        parts_leave_alike(a, b, name, reads, rounds),
    ensures
        receivers_left(a, i, name, h, reads, rounds) == receivers_left(
            b,
            i,
            name,
            h,
            reads,
            rounds,
        ),
    decreases a.kids.len() - i,
{
    if 2 * i + 1 < a.kids.len() {
        let x = a.kids[2 * i as int];
        let y = b.kids[2 * i as int];
        assert(leave_alike(x, y, name, reads, rounds));
        assert(left(x, name, h, reads, rounds) == left(y, name, h, reads, rounds));
        alike_receivers(a, b, i + 1, name, left(x, name, h, reads, rounds), reads, rounds);
    }
}

proof fn alike_bodies(a: Term, b: Term, i: nat, name: Name, h: int, reads: bool, rounds: nat)
    requires
        parts_leave_alike(a, b, name, reads, rounds),
    ensures
        bodies_left(a, i, name, h, reads, rounds) == bodies_left(b, i, name, h, reads, rounds),
    decreases i,
{
    if i > 0 && 2 * i <= a.kids.len() {
        let x = a.kids[2 * i - 1];
        let y = b.kids[2 * i - 1];
        assert(leave_alike(x, y, name, reads, rounds));
        assert(left(x, name, h, reads, rounds) == left(y, name, h, reads, rounds));
        alike_bodies(a, b, (i - 1) as nat, name, h, reads, rounds);
    }
}

proof fn parts_decide(a: Term, b: Term, name: Name, h: int, reads: bool, rounds: nat)
    requires
        parts_leave_alike(a, b, name, reads, rounds),
        shaped(a),
        shaped(b),
    ensures
        left(a, name, h, reads, rounds) == left(b, name, h, reads, rounds),
{
    if h >= 0 {
        assert forall|i: int, g: int| 0 <= i < a.kids.len() implies #[trigger] left(
            a.kids[i],
            name,
            g,
            reads,
            rounds,
        ) == left(b.kids[i], name, g, reads, rounds) by {
            assert(leave_alike(a.kids[i], b.kids[i], name, reads, rounds));
        }
        match a.op {
            Op::RcAnnotated(_) => {
                assert(left(a.kids[0], name, h, reads, rounds) == left(
                    b.kids[0],
                    name,
                    h,
                    reads,
                    rounds,
                ));
                assert(left(a.kids[0], name, h + 1, reads, rounds) == left(
                    b.kids[0],
                    name,
                    h + 1,
                    reads,
                    rounds,
                ));
                assert(left(a.kids[0], name, less_one(h), reads, rounds) == left(
                    b.kids[0],
                    name,
                    less_one(h),
                    reads,
                    rounds,
                ));
            },
            Op::If => {
                let c = left(a.kids[0], name, h, reads, rounds);
                let x = left(a.kids[1], name, c, reads, rounds);
                let y = left(a.kids[2], name, c, reads, rounds);
            },
            Op::Match => {
                alike_slot(a, b, 0, name, h, reads, rounds);
                alike_arms(a, b, 0, name, slot_left(a, 0, name, h, reads, rounds), reads, rounds);
            },
            Op::For => {
                let s = left(a.kids[0], name, h, reads, rounds);
                let e = left(a.kids[1], name, s, reads, rounds);
                alike_rounds(a, b, rounds, name, e, reads, rounds);
            },
            Op::Assign => {
                let v = left(a.kids[0], name, h, reads, rounds);
                let x = left(a.kids[1], name, 1, reads, rounds);
                let y = left(a.kids[1], name, v, reads, rounds);
            },
            Op::Select => {
                alike_receivers(a, b, 0, name, h, reads, rounds);
                let g = receivers_left(a, 0, name, h, reads, rounds);
                alike_bodies(a, b, a.kids.len() / 2, name, g, reads, rounds);
            },
            _ => {
                alike_kids(a, b, 0, name, h, reads, rounds);
            },
        }
    }
}

/// Marking one name changes nothing in what is left of another.
pub proof fn marking_leaves_other_names_their_references(
    t: Term,
    name: Name,
    live: bool,
    other: Name,
    reads: bool,
    rounds: nat,
)
    requires
        name != other,
    ensures
        forall|h: int|
            #[trigger] left(mark(t, name, live).0, other, h, reads, rounds) == left(
                t,
                other,
                h,
                reads,
                rounds,
            ),
        is_var(mark(t, name, live).0, other) == is_var(t, other),
    decreases t,
{
    let m = mark(t, name, live).0;
    if !shaped(t) {
    } else if t.op == Op::Var {
        if t.names[0] == name && live {
            assert(m.kids[0] == t);
            assert(shaped(m));
            assert forall|h: int|
                #[trigger] left(m, other, h, reads, rounds) == left(t, other, h, reads, rounds) by {
                assert(left(m.kids[0], other, h, reads, rounds) == left(
                    t,
                    other,
                    h,
                    reads,
                    rounds,
                ));
            }
        }
    } else {
        marked_parts(t, name, live);
        assert forall|i: int| 0 <= i < m.kids.len() implies leave_alike(
            #[trigger] m.kids[i],
            t.kids[i],
            other,
            reads,
            rounds,
        ) && is_var(m.kids[i], other) == is_var(t.kids[i], other) by {
            assert(touched(t.kids[i], m.kids[i], name));
            if m.kids[i] != t.kids[i] {
                let l = choose|l: bool| m.kids[i] == (#[trigger] mark(t.kids[i], name, l)).0;
                marking_leaves_other_names_their_references(
                    t.kids[i],
                    name,
                    l,
                    other,
                    reads,
                    rounds,
                );
            }
        }
        assert forall|k: int| 0 <= k < m.arms.len() implies arms_leave_alike(
            #[trigger] m.arms[k],
            t.arms[k],
            other,
            reads,
            rounds,
        ) by {
            let a = t.arms[k];
            let b = m.arms[k];
            arm_decreases(a);
            assert(touched_arm(a, b, name));
            if b.body != a.body {
                let l = choose|l: bool| b.body == (#[trigger] mark(a.body, name, l)).0;
                marking_leaves_other_names_their_references(a.body, name, l, other, reads, rounds);
            }
            if let Some(g) = a.guard {
                if b.guard->Some_0 != g {
                    let l = choose|l: bool| b.guard->Some_0 == (#[trigger] mark(g, name, l)).0;
                    marking_leaves_other_names_their_references(g, name, l, other, reads, rounds);
                }
            }
        }
        marking_keeps_what_may_be_taken(t, name, live, other);
        assert forall|h: int|
            #[trigger] left(m, other, h, reads, rounds) == left(t, other, h, reads, rounds) by {
            parts_decide(m, t, other, h, reads, rounds);
        }
    }
}

/// Whether no binding in a term whose value is known to be a heap cell ever spends a reference
/// that is not there, when every loop runs `rounds` times. The names in `heap` are known to
/// hold heap cells.
pub open spec fn afloat(t: Term, heap: Set<Name>, rounds: nat) -> bool
    decreases t,
{
    if t.op == Op::Let && t.kids.len() == 2 {
        let known = is_heap(bare(t.kids[0]), heap);
        &&& known ==> left(t.kids[1], t.names[0], 1, false, rounds) >= 0
        &&& afloat(t.kids[0], heap, rounds)
        &&& afloat(t.kids[1], body_scope(heap, t.names[0], known), rounds)
    } else {
        &&& forall|i: int|
            0 <= i < t.kids.len() ==> afloat(#[trigger] t.kids[i], kid_scope(heap, t, i), rounds)
        &&& forall|k: int| 0 <= k < t.arms.len() ==> afloat_arm(#[trigger] t.arms[k], heap, rounds)
    }
}

/// Whether no binding in an arm ever spends a reference that is not there.
pub open spec fn afloat_arm(arm: ArmTerm, heap: Set<Name>, rounds: nat) -> bool
    decreases arm,
{
    &&& (arm.guard matches Some(g) ==> afloat(g, arm_scope(heap, arm), rounds))
    &&& afloat(arm.body, arm_scope(heap, arm), rounds)
}

/// Marking the uses of a name keeps the bindings inside afloat.
proof fn marking_keeps_afloat(t: Term, name: Name, live: bool, heap: Set<Name>, rounds: nat)
    requires
        afloat(t, heap, rounds),
    ensures
        afloat(mark(t, name, live).0, heap, rounds),
    decreases t,
{
    let m = mark(t, name, live).0;
    if !shaped(t) {
    } else if t.op == Op::Var {
        if t.names[0] == name && live {
            assert(m.kids[0] == t);
        }
    } else if t.op == Op::Let {
        marked_parts(t, name, live);
        let known = is_heap(bare(t.kids[0]), heap);
        let inner = body_scope(heap, t.names[0], known);
        assert(touched(t.kids[0], m.kids[0], name));
        assert(touched(t.kids[1], m.kids[1], name));
        if m.kids[0] != t.kids[0] {
            let l = choose|l: bool| m.kids[0] == (#[trigger] mark(t.kids[0], name, l)).0;
            marking_keeps_known(t.kids[0], name, l, heap);
            marking_keeps_afloat(t.kids[0], name, l, heap, rounds);
        }
        if t.names[0] == name {
            assert(m.kids[1] == t.kids[1]);
        } else if m.kids[1] != t.kids[1] {
            let l = choose|l: bool| m.kids[1] == (#[trigger] mark(t.kids[1], name, l)).0;
            marking_keeps_afloat(t.kids[1], name, l, inner, rounds);
            marking_leaves_other_names_their_references(
                t.kids[1],
                name,
                l,
                t.names[0],
                false,
                rounds,
            );
        }
    } else {
        marked_parts(t, name, live);
        assert forall|i: int| 0 <= i < m.kids.len() implies afloat(
            #[trigger] m.kids[i],
            kid_scope(heap, m, i),
            rounds,
        ) by {
            assert(touched(t.kids[i], m.kids[i], name));
            assert(afloat(t.kids[i], kid_scope(heap, t, i), rounds));
            if m.kids[i] != t.kids[i] {
                let l = choose|l: bool| m.kids[i] == (#[trigger] mark(t.kids[i], name, l)).0;
                marking_keeps_afloat(t.kids[i], name, l, kid_scope(heap, t, i), rounds);
            }
        }
        assert forall|k: int| 0 <= k < m.arms.len() implies afloat_arm(
            #[trigger] m.arms[k],
            heap,
            rounds,
        ) by {
            let a = t.arms[k];
            let b = m.arms[k];
            arm_decreases(a);
            assert(touched_arm(a, b, name));
            assert(afloat_arm(a, heap, rounds));
            if b.body != a.body {
                let l = choose|l: bool| b.body == (#[trigger] mark(a.body, name, l)).0;
                marking_keeps_afloat(a.body, name, l, arm_scope(heap, a), rounds);
            }
            if let Some(g) = a.guard {
                if b.guard->Some_0 != g {
                    let l = choose|l: bool| b.guard->Some_0 == (#[trigger] mark(g, name, l)).0;
                    marking_keeps_afloat(g, name, l, arm_scope(heap, a), rounds);
                }
            }
        }
    }
}

proof fn count_body_is_afloat(
    name: Name,
    known: bool,
    value: Term,
    body: Term,
    heap: Set<Name>,
    rounds: nat,
)
    requires
        afloat(body, heap, rounds),
    ensures
        afloat(count_body(name, known, value, body), heap, rounds),
{
    let m = mark(body, name, false);
    marking_keeps_afloat(body, name, false, heap, rounds);
    let temp = drop_name(name);
    let last = t_var(temp);
    let rc = t_rc(RcOp::Dec, name, last);
    let d = scope_end_drop(body, name);
    let inner = body_scope(heap, temp, is_heap(bare(body), heap));
    drop_name_is_another(name);
    assert(rc.kids[0] == last);
    assert(shaped(rc) && shaped(last));
    assert(left(last, temp, 1, false, rounds) == 0);
    assert(left(rc, temp, 1, false, rounds) == 0);
    assert(afloat(last, inner, rounds));
    assert(afloat(rc, inner, rounds));
    assert(d.kids[0] == body && d.kids[1] == rc);
    assert(afloat(d, heap, rounds));
    let e = t_rc(RcOp::Dec, name, m.0);
    assert(e.kids[0] == m.0);
    assert(afloat(e, heap, rounds));
}

/// Counting never spends a reference that is not there. In a counted expression every binding
/// whose value is known to be a heap cell starts with one reference, and at no moment on any
/// path is one spent when there is none, however often the name is rebound and loops run.
pub proof fn counting_never_overdraws(t: Term, heap: Set<Name>, rounds: nat)
    requires
        countable(t),
    ensures
        afloat(counted(t, heap), heap, rounds),
    decreases t,
{
    let c = counted(t, heap);
    if t.op == Op::AsCStr && t.kids[0].op == Op::Var && !heap.contains(t.kids[0].names[0]) {
        assert(c.kids[0] == t);
        assert(countable(t.kids[0]));
        assert(afloat(t.kids[0], heap, rounds));
        assert(afloat(t, heap, rounds));
    } else if t.op == Op::Let {
        let name = t.names[0];
        let known = is_heap(t.kids[0], heap);
        let inner = body_scope(heap, name, known);
        let value = counted(t.kids[0], heap);
        let body = counted(t.kids[1], inner);
        counting_never_overdraws(t.kids[0], heap, rounds);
        counting_never_overdraws(t.kids[1], inner, rounds);
        counting_keeps_steady(t.kids[1], inner, name);
        assert(countable(t.kids[0]));
        assert(is_heap(bare(value), heap) == known);
        count_body_is_afloat(name, known, value, body, inner, rounds);
        if known {
            a_binding_never_overdraws(name, known, value, body, rounds);
        }
        assert(c.kids[0] == value && c.kids[1] == count_body(name, known, value, body));
    } else {
        assert forall|i: int| 0 <= i < c.kids.len() implies afloat(
            #[trigger] c.kids[i],
            kid_scope(heap, c, i),
            rounds,
        ) by {
            assert(countable(t.kids[i]));
            counting_never_overdraws(t.kids[i], kid_scope(heap, t, i), rounds);
        }
        assert forall|k: int| 0 <= k < c.arms.len() implies afloat_arm(
            #[trigger] c.arms[k],
            heap,
            rounds,
        ) by {
            let arm = t.arms[k];
            arm_decreases(arm);
            assert(countable_arm(arm));
            assert(c.arms[k] == counted_arm(arm, heap));
            counting_never_overdraws(arm.body, arm_scope(heap, arm), rounds);
            if let Some(g) = arm.guard {
                counting_never_overdraws(g, arm_scope(heap, arm), rounds);
            }
        }
    }
}

} // verus!
