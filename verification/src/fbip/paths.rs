//! What the number of uses on a path says of where a name is used.

use vstd::prelude::*;
use crate::anf_laws::hides;
use crate::interp::ownership::{shaped_below, stands_in, stands_in_arm};
use crate::ir::{arm_decreases, shaped, ArmTerm, Name, Op, Term};
use super::params::{arm_confirms, confirms, needs_array_or_str};
use super::uses::{
    arm_mentions, arm_reuses, arms_uses, at_most_two, claims, in_scope, is_var, kids_uses, max_uses,
    mentions, reuses,
};

verus! {

/// Whether a term, as it is evaluated, reads the outer `x` or builds in its memory.
pub open spec fn used(t: Term, x: Name) -> bool
    decreases t,
{
    ||| t.op == Op::Var && t.names[0] == x
    ||| claims(t, x)
    ||| exists|i: int| 0 <= i < t.kids.len() && !hides(t, i, x) && used(#[trigger] t.kids[i], x)
    ||| exists|k: int| 0 <= k < t.arms.len() && arm_used(#[trigger] t.arms[k], x)
}

/// Whether an arm reads the outer `x` or builds in its memory.
pub open spec fn arm_used(arm: ArmTerm, x: Name) -> bool
    decreases arm,
{
    &&& !arm.bindings.contains(x)
    &&& {
        ||| (arm.guard matches Some(g) && used(g, x))
        ||| used(arm.body, x)
    }
}

/// Whether every part of a term has the names and children that it needs.
pub open spec fn all_shaped(t: Term) -> bool {
    forall|u: Term| #[trigger] stands_in(u, t) ==> shaped(u)
}

proof fn kid_shaped(t: Term, i: int)
    requires
        all_shaped(t),
        0 <= i < t.kids.len(),
    ensures
        all_shaped(t.kids[i]),
        shaped(t),
{
    assert(stands_in(t.kids[i], t.kids[i]));
    assert(stands_in(t.kids[i], t));
    shaped_below(t.kids[i], t);
    assert(stands_in(t, t));
}

proof fn arm_shaped(t: Term, k: int)
    requires
        all_shaped(t),
        0 <= k < t.arms.len(),
    ensures
        all_shaped(t.arms[k].body),
        t.arms[k].guard matches Some(g) ==> all_shaped(g),
{
    let arm = t.arms[k];
    assert(stands_in(arm.body, arm.body));
    assert(stands_in_arm(arm.body, t.arms[k]));
    assert(stands_in(arm.body, t));
    shaped_below(arm.body, t);
    if let Some(g) = arm.guard {
        assert(stands_in(g, g));
        assert(stands_in_arm(g, t.arms[k]));
        assert(stands_in(g, t));
        shaped_below(g, t);
    }
}

/// The uses in a child that sees the outer name count in the node.
proof fn kids_count(t: Term, n: nat, i: int, x: Name)
    requires
        0 <= i < n <= t.kids.len(),
        in_scope(t, i, x),
    ensures
        kids_uses(t, n, x) >= max_uses(t.kids[i], x),
    decreases n,
{
    if i < n - 1 {
        kids_count(t, (n - 1) as nat, i, x);
    }
}

proof fn kids_count_two(t: Term, n: nat, i: int, j: int, x: Name)
    requires
        0 <= i < j < n <= t.kids.len(),
        in_scope(t, i, x),
        in_scope(t, j, x),
    ensures
        kids_uses(t, n, x) >= max_uses(t.kids[i], x) + max_uses(t.kids[j], x),
    decreases n,
{
    if j < n - 1 {
        kids_count_two(t, (n - 1) as nat, i, j, x);
    } else {
        kids_count(t, (n - 1) as nat, i, x);
    }
}

proof fn arms_count(t: Term, k: nat, i: int, x: Name)
    requires
        k <= i < t.arms.len(),
        !t.arms[i].bindings.contains(x),
    ensures
        arms_uses(t, k, x) >= max_uses(t.arms[i].body, x) + (match t.arms[i].guard {
            Some(g) => max_uses(g, x),
            None => 0,
        }),
    decreases t.arms.len() - k,
{
    if k < i {
        arms_count(t, k + 1, i, x);
    }
}

proof fn kids_count_something(t: Term, n: nat, x: Name) -> (i: int)
    requires
        n <= t.kids.len(),
        kids_uses(t, n, x) > 0,
    ensures
        0 <= i < n,
        in_scope(t, i, x),
        max_uses(t.kids[i], x) > 0,
    decreases n,
{
    if in_scope(t, n - 1, x) && max_uses(t.kids[n - 1], x) > 0 {
        n - 1
    } else {
        kids_count_something(t, (n - 1) as nat, x)
    }
}

proof fn arms_count_something(t: Term, k: nat, x: Name) -> (i: int)
    requires
        arms_uses(t, k, x) > 0,
    ensures
        k <= i < t.arms.len(),
        !t.arms[i].bindings.contains(x),
        max_uses(t.arms[i].body, x) > 0 || (t.arms[i].guard matches Some(g) && max_uses(g, x) > 0),
    decreases t.arms.len() - k,
{
    let arm = t.arms[k as int];
    if !arm.bindings.contains(x) && (max_uses(arm.body, x) > 0 || (arm.guard matches Some(g)
        && max_uses(g, x) > 0)) {
        k as int
    } else {
        arms_count_something(t, k + 1, x)
    }
}

/// Whether child `i` may be evaluated more than once, or by someone else: the body of a loop
/// or of a closure.
pub open spec fn may_repeat(op: Op, i: int) -> bool {
    match op {
        Op::For => i == 2,
        Op::Closure(_) => true,
        _ => false,
    }
}

/// Whether a name is counted as used exactly where it is: the count is zero if and only if
/// nothing reads it. `__select_recv`, which a select binds for its arms, is left out.
pub proof fn nothing_is_counted_where_nothing_is_used(t: Term, x: Name)
    requires
        all_shaped(t),
        x != "__select_recv"@,
    ensures
        max_uses(t, x) > 0 <==> used(t, x),
    decreases t,
{
    assert(stands_in(t, t));
    assert forall|i: int| 0 <= i < t.kids.len() implies max_uses(#[trigger] t.kids[i], x) > 0
        <==> used(t.kids[i], x) by {
        kid_shaped(t, i);
        nothing_is_counted_where_nothing_is_used(t.kids[i], x);
    }
    assert forall|k: int| 0 <= k < t.arms.len() implies (max_uses((#[trigger] t.arms[k]).body, x)
        > 0 <==> used(t.arms[k].body, x)) && (t.arms[k].guard matches Some(g) ==> (max_uses(g, x)
        > 0 <==> used(g, x))) by {
        arm_shaped(t, k);
        arm_decreases(t.arms[k]);
        nothing_is_counted_where_nothing_is_used(t.arms[k].body, x);
        if let Some(g) = t.arms[k].guard {
            nothing_is_counted_where_nothing_is_used(g, x);
        }
    }
    if used(t, x) {
        a_use_is_counted(t, x);
    }
    if max_uses(t, x) > 0 {
        what_is_counted_is_used(t, x);
    }
}

proof fn a_use_is_counted(t: Term, x: Name)
    requires
        shaped(t),
        used(t, x),
        x != "__select_recv"@,
        forall|i: int|
            0 <= i < t.kids.len() ==> (max_uses(#[trigger] t.kids[i], x) > 0 <==> used(t.kids[i], x)),
        forall|k: int|
            0 <= k < t.arms.len() ==> (max_uses((#[trigger] t.arms[k]).body, x) > 0 <==> used(
                t.arms[k].body,
                x,
            )) && (t.arms[k].guard matches Some(g) ==> (max_uses(g, x) > 0 <==> used(g, x))),
    ensures
        max_uses(t, x) > 0,
{
    if exists|i: int| 0 <= i < t.kids.len() && !hides(t, i, x) && used(#[trigger] t.kids[i], x) {
        let i = choose|i: int|
            0 <= i < t.kids.len() && !hides(t, i, x) && used(#[trigger] t.kids[i], x);
        assert(max_uses(t.kids[i], x) > 0);
        if !(t.op is Closure) {
            assert(in_scope(t, i, x));
            kids_count(t, t.kids.len(), i, x);
        }
        if t.op == Op::If {
            assert(i == 0 || i == 1 || i == 2);
        }
    } else if exists|k: int| 0 <= k < t.arms.len() && arm_used(#[trigger] t.arms[k], x) {
        let k = choose|k: int| 0 <= k < t.arms.len() && arm_used(#[trigger] t.arms[k], x);
        arms_count(t, 0, k, x);
    }
}

proof fn what_is_counted_is_used(t: Term, x: Name)
    requires
        shaped(t),
        max_uses(t, x) > 0,
        x != "__select_recv"@,
        forall|i: int|
            0 <= i < t.kids.len() ==> (max_uses(#[trigger] t.kids[i], x) > 0 <==> used(t.kids[i], x)),
        forall|k: int|
            0 <= k < t.arms.len() ==> (max_uses((#[trigger] t.arms[k]).body, x) > 0 <==> used(
                t.arms[k].body,
                x,
            )) && (t.arms[k].guard matches Some(g) ==> (max_uses(g, x) > 0 <==> used(g, x))),
    ensures
        used(t, x),
{
    match t.op {
        Op::Var => {},
        Op::If => {
            if max_uses(t.kids[0], x) > 0 {
                assert(!hides(t, 0, x) && used(t.kids[0], x));
            } else if max_uses(t.kids[1], x) > 0 {
                assert(!hides(t, 1, x) && used(t.kids[1], x));
            } else {
                assert(!hides(t, 2, x) && used(t.kids[2], x));
            }
        },
        Op::Match => {
            if max_uses(t.kids[0], x) > 0 {
                assert(!hides(t, 0, x) && used(t.kids[0], x));
            } else {
                let k = arms_count_something(t, 0, x);
                assert(arm_used(t.arms[k], x));
            }
        },
        Op::For => {
            if max_uses(t.kids[0], x) > 0 {
                assert(!hides(t, 0, x) && used(t.kids[0], x));
            } else if max_uses(t.kids[1], x) > 0 {
                assert(!hides(t, 1, x) && used(t.kids[1], x));
            } else {
                assert(!hides(t, 2, x) && used(t.kids[2], x));
            }
        },
        Op::Closure(_) => {
            assert(!hides(t, 0, x) && used(t.kids[0], x));
        },
        _ => {
            if !claims(t, x) {
                let i = kids_count_something(t, t.kids.len(), x);
                assert(!hides(t, i, x) && used(t.kids[i], x));
            }
        },
    }
}

/// A use counts at least as often in the node round it, and as often as it may be evaluated:
/// a name that is read in the body of a loop or of a closure counts as used twice. So does one
/// that is read in two children both of which are evaluated, which is so of any two but the
/// branches of an `if`.
pub proof fn uses_on_one_path_add_up(t: Term, x: Name, i: int, j: int)
    requires
        shaped(t),
        0 <= i < t.kids.len(),
        !hides(t, i, x),
        x != "__select_recv"@,
    ensures
        max_uses(t.kids[i], x) <= 2 ==> max_uses(t, x) >= max_uses(t.kids[i], x),
        may_repeat(t.op, i) && max_uses(t.kids[i], x) > 0 ==> max_uses(t, x) == 2,
        i < j < t.kids.len() && !hides(t, j, x) && !(t.op == Op::If && i == 1) && max_uses(
            t.kids[i],
            x,
        ) > 0 && max_uses(t.kids[j], x) > 0 ==> max_uses(t, x) == 2,
        claims(t, x) && max_uses(t.kids[i], x) > 0 ==> max_uses(t, x) == 2,
{
    if !(t.op is Closure) {
        assert(in_scope(t, i, x));
        kids_count(t, t.kids.len(), i, x);
        if i < j < t.kids.len() && !hides(t, j, x) {
            assert(in_scope(t, j, x));
            kids_count_two(t, t.kids.len(), i, j, x);
        }
    }
    if t.op == Op::If {
        assert(i == 0 || i == 1 || i == 2);
        assert(j <= i || j >= t.kids.len() || j == 1 || j == 2);
    }
    if t.op == Op::For {
        assert(i == 0 || i == 1 || i == 2);
        assert(j <= i || j >= t.kids.len() || j == 1 || j == 2);
    }
    if t.op == Op::Match {
        assert(i == 0);
    }
}

/// What a match reads adds up along each arm: its scrutinee, the guard of an arm and the body
/// of that arm.
pub proof fn uses_along_an_arm_add_up(t: Term, x: Name, k: int)
    requires
        shaped(t),
        t.op == Op::Match,
        0 <= k < t.arms.len(),
        !t.arms[k].bindings.contains(x),
    ensures
        max_uses(t, x) >= at_most_two(
            max_uses(t.kids[0], x) + max_uses(t.arms[k].body, x) + (match t.arms[k].guard {
                Some(g) => max_uses(g, x),
                None => 0,
            }),
        ),
{
    arms_count(t, 0, k, x);
}

/// What shows a name to hold an array or a string is a use of that name, and not of an inner
/// binding that hides it.
pub proof fn what_is_confirmed_is_used(t: Term, x: Name)
    requires
        confirms(t, x),
        x != "__select_recv"@,
    ensures
        used(t, x),
    decreases t,
{
    if needs_array_or_str(t.op) && t.kids.len() > 0 && is_var(t.kids[0], x) {
        assert(used(t.kids[0], x));
        assert(!hides(t, 0, x));
    } else if exists|i: int|
        0 <= i < t.kids.len() && in_scope(t, i, x) && confirms(#[trigger] t.kids[i], x) {
        let i = choose|i: int|
            0 <= i < t.kids.len() && in_scope(t, i, x) && confirms(#[trigger] t.kids[i], x);
        what_is_confirmed_is_used(t.kids[i], x);
        assert(!hides(t, i, x) && used(t.kids[i], x));
    } else {
        let k = choose|k: int| 0 <= k < t.arms.len() && arm_confirms(#[trigger] t.arms[k], x);
        let arm = t.arms[k];
        arm_decreases(arm);
        if confirms(arm.body, x) {
            what_is_confirmed_is_used(arm.body, x);
        } else {
            what_is_confirmed_is_used(arm.guard->0, x);
        }
        assert(arm_used(t.arms[k], x));
    }
}

/// A name that is used is mentioned, or its memory is built in.
pub proof fn what_is_used_is_mentioned(t: Term, x: Name)
    requires
        used(t, x),
    ensures
        mentions(t, x) || reuses(t, x),
    decreases t,
{
    if exists|i: int| 0 <= i < t.kids.len() && !hides(t, i, x) && used(#[trigger] t.kids[i], x) {
        let i = choose|i: int|
            0 <= i < t.kids.len() && !hides(t, i, x) && used(#[trigger] t.kids[i], x);
        what_is_used_is_mentioned(t.kids[i], x);
    } else if exists|k: int| 0 <= k < t.arms.len() && arm_used(#[trigger] t.arms[k], x) {
        let k = choose|k: int| 0 <= k < t.arms.len() && arm_used(#[trigger] t.arms[k], x);
        let arm = t.arms[k];
        arm_decreases(arm);
        if used(arm.body, x) {
            what_is_used_is_mentioned(arm.body, x);
        } else {
            what_is_used_is_mentioned(arm.guard->0, x);
        }
        assert(arm_mentions(t.arms[k], x) || arm_reuses(t.arms[k], x));
    }
}

} // verus!
