//! What the passes keep: apart from reference counts, releases and the choice of memory, a
//! program is the same before and after.

use vstd::prelude::*;
use crate::ir::{
    arm_decreases, shaped, t_rc, t_var, ArmTerm, Name, Op, ProgramTerm, RcOp, Term,
};
use crate::names::without_leaves;
use super::balance::marked_arms_len;
use super::last_use::{mark, mark_arms, mark_bodies, mark_from, mark_loop, mark_receivers};
use super::refcount::{
    arm_scope, body_scope, count_body, counted, counted_arm, drop_name, is_heap, kid_scope,
    scope_end_drop,
};
use super::release::{counted_fields, release_upto, released, released_arm};
use super::reuse::{
    arm_target, hiding_adds_nothing, in_place, is_tracked_var, rebuild, reuse_scope, reused,
    reused_arm, strip,
};
use super::uses::{
    arm_mentions, arm_reuses, borrowed, in_scope, claims, is_reuse_op, max_uses, mentions, reuses,
};
use super::{optimized, optimized_program};

verus! {

/// Whether a binding only holds a result while a count is adjusted.
pub open spec fn ends_scope(t: Term) -> bool {
    t.op == Op::Let && t.kids.len() == 2 && adjusts_then_yields(t.kids[1], t.names[0])
}

/// Whether a term adjusts a count and then yields the variable `name`.
pub open spec fn adjusts_then_yields(t: Term, name: Name) -> bool {
    t.op is RcAnnotated && shaped(t) && is_just(t.kids[0], name)
}

/// Whether a term is the variable `name` and nothing more.
pub open spec fn is_just(t: Term, name: Name) -> bool {
    t == t_var(name)
}

/// The operator that does the same in fresh memory.
pub open spec fn in_fresh(op: Op) -> Option<Op> {
    match op {
        Op::ArrayPushReuse => Some(Op::ArrayPush),
        Op::ArrayPopReuse => Some(Op::ArrayPop),
        Op::ArraySetReuse => Some(Op::ArraySet),
        Op::ArrayRemoveReuse => Some(Op::ArrayRemove),
        Op::StrConcatReuse => Some(Op::StrConcat),
        Op::StrTrimReuse => Some(Op::StrTrim),
        Op::StrToUpperReuse => Some(Op::StrToUpper),
        Op::StrToLowerReuse => Some(Op::StrToLower),
        Op::StrReplaceReuse => Some(Op::StrReplace),
        _ => None,
    }
}

/// What a term computes, with reference counting and reuse of memory taken out.
pub open spec fn plain(t: Term) -> Term
    decreases t,
{
    if (t.op is RcAnnotated && t.kids.len() == 1) || ends_scope(t) {
        plain(t.kids[0])
    } else {
        let kids = Seq::new(
            t.kids.len(),
            |i: int|
                if 0 <= i < t.kids.len() {
                    plain(t.kids[i])
                } else {
                    t
                },
        );
        let arms = Seq::new(
            t.arms.len(),
            |k: int|
                if 0 <= k < t.arms.len() {
                    plain_arm(t.arms[k])
                } else {
                    arbitrary()
                },
        );
        if t.op == Op::CtorReuse {
            Term { op: Op::Ctor, names: t.names.skip(1), kids, arms, ..t }
        } else if in_fresh(t.op) is Some {
            Term {
                op: in_fresh(t.op)->0,
                names: t.names.skip(1),
                kids: seq![t_var(t.names[0])] + kids,
                arms,
                ..t
            }
        } else {
            Term { kids, arms, ..t }
        }
    }
}

/// What an arm computes, with reference counting and reuse of memory taken out.
pub open spec fn plain_arm(arm: ArmTerm) -> ArmTerm
    decreases arm,
{
    ArmTerm {
        guard: match arm.guard {
            Some(g) => Some(plain(g)),
            None => None,
        },
        body: plain(arm.body),
        ..arm
    }
}

/// Whether a term is free of reference counting and reuse.
pub open spec fn is_source(t: Term) -> bool
    decreases t,
{
    &&& !(t.op is RcAnnotated)
    &&& !is_reuse_op(t.op)
    &&& forall|i: int| 0 <= i < t.kids.len() ==> is_source(#[trigger] t.kids[i])
    &&& forall|k: int| 0 <= k < t.arms.len() ==> is_source_arm(#[trigger] t.arms[k])
}

/// Whether an arm is free of reference counting and reuse.
pub open spec fn is_source_arm(arm: ArmTerm) -> bool
    decreases arm,
{
    &&& (arm.guard matches Some(g) ==> is_source(g))
    &&& is_source(arm.body)
}

/// There is nothing to take out of a term that is free of reference counting and reuse.
pub proof fn plain_of_source(t: Term)
    requires
        is_source(t),
    ensures
        plain(t) == t,
    decreases t,
{
    let p = plain(t);
    if t.op == Op::Let && t.kids.len() == 2 {
        assert(is_source(t.kids[1]));
    }
    assert forall|i: int| 0 <= i < t.kids.len() implies plain(#[trigger] t.kids[i])
        == t.kids[i] by {
        plain_of_source(t.kids[i]);
    }
    assert forall|k: int| 0 <= k < t.arms.len() implies plain_arm(#[trigger] t.arms[k])
        == t.arms[k] by {
        let arm = t.arms[k];
        arm_decreases(arm);
        assert(is_source_arm(arm));
        if let Some(g) = arm.guard {
            plain_of_source(g);
        }
        plain_of_source(arm.body);
    }
    assert(p.kids =~= t.kids);
    assert(p.arms =~= t.arms);
}

/// Two nodes alike in everything but what their children compute the same.
proof fn plain_congruence(a: Term, b: Term)
    requires
        a.op == b.op,
        a.names == b.names,
        a.types == b.types,
        a.kids.len() == b.kids.len(),
        a.arms.len() == b.arms.len(),
        ends_scope(a) == ends_scope(b),
        forall|i: int| 0 <= i < a.kids.len() ==> plain(#[trigger] a.kids[i]) == plain(b.kids[i]),
        forall|k: int|
            0 <= k < a.arms.len() ==> plain_arm(#[trigger] a.arms[k]) == plain_arm(b.arms[k]),
    ensures
        plain(a) == plain(b),
{
    if (a.op is RcAnnotated && a.kids.len() == 1) || ends_scope(a) {
        assert(plain(a.kids[0]) == plain(b.kids[0]));
    } else {
        let pa = plain(a);
        let pb = plain(b);
        assert(pa.kids =~= pb.kids) by {
            if in_fresh(a.op) is Some {
                assert forall|i: int| 0 <= i < pa.kids.len() implies pa.kids[i] == pb.kids[i] by {
                    if i > 0 {
                        assert(pa.kids[i] == plain(a.kids[i - 1]));
                        assert(pb.kids[i] == plain(b.kids[i - 1]));
                    }
                }
            } else {
                assert forall|i: int| 0 <= i < pa.kids.len() implies pa.kids[i] == pb.kids[i] by {
                    assert(pa.kids[i] == plain(a.kids[i]));
                    assert(pb.kids[i] == plain(b.kids[i]));
                }
            }
        }
        assert(pa.arms =~= pb.arms) by {
            assert forall|k: int| 0 <= k < pa.arms.len() implies pa.arms[k] == pb.arms[k] by {
                assert(pa.arms[k] == plain_arm(a.arms[k]));
                assert(pb.arms[k] == plain_arm(b.arms[k]));
            }
        }
    }
}

/// Marking keeps the node.
proof fn mark_keeps_node(t: Term, name: Name, live: bool)
    requires
        t.op != Op::Var,
    ensures
        mark(t, name, live).0.op == t.op,
        mark(t, name, live).0.names == t.names,
        mark(t, name, live).0.types == t.types,
        mark(t, name, live).0.kids.len() == t.kids.len(),
        mark(t, name, live).0.arms.len() == t.arms.len(),
{
    mark_from_len(t, 0, name, live);
    marked_arms_len(t, 0, name, live);
    if t.op == Op::Select {
        mark_bodies_len(t, t.kids.len() / 2, name, live);
    }
}

proof fn mark_from_len(t: Term, i: nat, name: Name, live: bool)
    requires
        i <= t.kids.len(),
    ensures
        mark_from(t, i, name, live).0.len() == t.kids.len() - i,
    decreases t.kids.len() - i,
{
    if i < t.kids.len() {
        mark_from_len(t, i + 1, name, live);
    }
}

proof fn mark_bodies_len(t: Term, i: nat, name: Name, live: bool)
    requires
        2 * i <= t.kids.len(),
    ensures
        mark_bodies(t, i, name, live).0.len() == i,
    decreases i,
{
    if i > 0 {
        mark_bodies_len(t, (i - 1) as nat, name, live);
    }
}

/// Marking the uses of one name keeps whether a term yields another.
proof fn mark_keeps_yield(t: Term, name: Name, live: bool, other: Name)
    requires
        other != name,
    ensures
        adjusts_then_yields(mark(t, name, live).0, other) == adjusts_then_yields(t, other),
        is_just(mark(t, name, live).0, other) == is_just(t, other),
{
    if t.op != Op::Var {
        mark_keeps_node(t, name, live);
        if t.op is RcAnnotated && shaped(t) {
            let kid = t.kids[0];
            assert(mark_from(t, 1, name, live).0.len() == 0);
            assert(mark_from(t, 1, name, live).1 == false);
            let m = mark(t, name, live).0;
            assert(m.kids[0] == mark(kid, name, live).0) by {
                assert(m.kids == mark_from(t, 0, name, live).0);
            }
            if kid.op != Op::Var {
                mark_keeps_node(kid, name, live);
            }
        }
    }
}

/// Marking the uses of a name changes nothing but reference counts.
pub proof fn marking_only_counts(t: Term, name: Name, live: bool)
    ensures
        plain(mark(t, name, live).0) == plain(t),
    decreases t, t.kids.len() + t.arms.len() + 1,
{
    let m = mark(t, name, live).0;
    if !shaped(t) || t.op == Op::Var || t.op is Closure {
    } else {
        mark_keeps_node(t, name, live);
        match t.op {
            Op::If => {
                let a = mark(t.kids[1], name, live);
                let b = mark(t.kids[2], name, live);
                marking_only_counts(t.kids[1], name, live);
                marking_only_counts(t.kids[2], name, live);
                marking_only_counts(t.kids[0], name, live || a.1 || b.1);
            },
            Op::Match => {
                mark_arms_only_count(t, 0, name, live);
                marking_only_counts(t.kids[0], name, live || mark_arms(t, 0, name, live).1);
                assert forall|k: int| 0 <= k < m.arms.len() implies plain_arm(#[trigger] m.arms[k])
                    == plain_arm(t.arms[k]) by {
                    assert(plain_arm(mark_arms(t, 0, name, live).0[k]) == plain_arm(t.arms[k + 0]));
                }
            },
            Op::For => {
                let b = mark_loop(t, name);
                marking_only_counts(t.kids[2], name, false);
                marking_only_counts(t.kids[2], name, true);
                let e = mark(t.kids[1], name, live || b.1);
                marking_only_counts(t.kids[1], name, live || b.1);
                marking_only_counts(t.kids[0], name, live || b.1 || e.1);
            },
            Op::Spawn => {
                marking_only_counts(t.kids[0], name, true);
            },
            Op::Select => {
                let n = t.kids.len() / 2;
                mark_bodies_len(t, n, name, live);
                mark_bodies_only_count(t, n, name, live);
                let b = mark_bodies(t, n, name, live);
                let outer = live || b.1;
                mark_receivers_only_count(t, 0, name, outer);
                let r = mark_receivers(t, 0, name, outer);
                assert forall|i: int| 0 <= i < m.kids.len() implies plain(#[trigger] m.kids[i])
                    == plain(t.kids[i]) by {
                    if i % 2 == 0 {
                        assert(m.kids[i] == r.0[i / 2]);
                        assert(plain(r.0[i / 2]) == plain(t.kids[2 * (i / 2)]));
                    } else {
                        assert(m.kids[i] == b.0[i / 2]);
                        assert(plain(b.0[i / 2]) == plain(t.kids[2 * (i / 2) + 1]));
                    }
                }
            },
            Op::Assign => {
                let r = mark(t.kids[1], name, live);
                marking_only_counts(t.kids[1], name, live);
                marking_only_counts(t.kids[0], name, t.names[0] != name && (r.1 || live));
            },
            Op::Let => {
                let b = mark(t.kids[1], name, live);
                marking_only_counts(t.kids[1], name, live);
                marking_only_counts(t.kids[0], name, live);
                marking_only_counts(t.kids[0], name, live || b.1);
                if t.names[0] != name {
                    mark_keeps_yield(t.kids[1], name, live, t.names[0]);
                }
            },
            _ => {
                mark_from_only_counts(t, 0, name, live);
                assert forall|i: int| 0 <= i < m.kids.len() implies plain(#[trigger] m.kids[i])
                    == plain(t.kids[i]) by {
                    assert(plain(mark_from(t, 0, name, live).0[i]) == plain(t.kids[i + 0]));
                }
            },
        }
        plain_congruence(m, t);
    }
}

proof fn mark_from_only_counts(t: Term, i: nat, name: Name, live: bool)
    requires
        i <= t.kids.len(),
    ensures
        mark_from(t, i, name, live).0.len() == t.kids.len() - i,
        forall|j: int|
            0 <= j < t.kids.len() - i ==> plain(#[trigger] mark_from(t, i, name, live).0[j])
                == plain(t.kids[j + i]),
    decreases t, t.kids.len() - i,
{
    if i < t.kids.len() {
        mark_from_only_counts(t, i + 1, name, live);
        let rest = mark_from(t, i + 1, name, live);
        marking_only_counts(t.kids[i as int], name, live || rest.1);
        let all = mark_from(t, i, name, live).0;
        assert forall|j: int| 0 <= j < t.kids.len() - i implies plain(#[trigger] all[j]) == plain(
            t.kids[j + i],
        ) by {
            if j > 0 {
                assert(all[j] == rest.0[j - 1]);
                assert(plain(rest.0[j - 1]) == plain(t.kids[j - 1 + (i + 1)]));
            }
        }
    }
}

proof fn mark_arms_only_count(t: Term, i: nat, name: Name, live: bool)
    requires
        i <= t.arms.len(),
    ensures
        mark_arms(t, i, name, live).0.len() == t.arms.len() - i,
        forall|k: int|
            0 <= k < t.arms.len() - i ==> plain_arm(#[trigger] mark_arms(t, i, name, live).0[k])
                == plain_arm(t.arms[k + i]),
    decreases t, t.arms.len() - i,
{
    if i < t.arms.len() {
        mark_arms_only_count(t, i + 1, name, live);
        let rest = mark_arms(t, i + 1, name, live);
        let arm = t.arms[i as int];
        arm_decreases(arm);
        let b = mark(arm.body, name, live);
        marking_only_counts(arm.body, name, live);
        if let Some(g) = arm.guard {
            marking_only_counts(g, name, live || b.1 || rest.1);
        }
        let all = mark_arms(t, i, name, live).0;
        assert forall|k: int| 0 <= k < t.arms.len() - i implies plain_arm(#[trigger] all[k])
            == plain_arm(t.arms[k + i]) by {
            if k > 0 {
                assert(all[k] == rest.0[k - 1]);
                assert(plain_arm(rest.0[k - 1]) == plain_arm(t.arms[k - 1 + (i + 1)]));
            }
        }
    }
}

proof fn mark_bodies_only_count(t: Term, i: nat, name: Name, live: bool)
    requires
        2 * i <= t.kids.len(),
    ensures
        mark_bodies(t, i, name, live).0.len() == i,
        forall|j: int|
            0 <= j < i ==> plain(#[trigger] mark_bodies(t, i, name, live).0[j]) == plain(
                t.kids[2 * j + 1],
            ),
    decreases t, i,
{
    if i > 0 {
        mark_bodies_only_count(t, (i - 1) as nat, name, live);
        marking_only_counts(t.kids[2 * i - 1], name, live);
        let p = mark_bodies(t, (i - 1) as nat, name, live);
        let all = mark_bodies(t, i, name, live).0;
        assert forall|j: int| 0 <= j < i implies plain(#[trigger] all[j]) == plain(
            t.kids[2 * j + 1],
        ) by {
            if j < i - 1 {
                assert(all[j] == p.0[j]);
            }
        }
    }
}

proof fn mark_receivers_only_count(t: Term, i: nat, name: Name, live: bool)
    requires
        t.kids.len() % 2 == 0,
        2 * i <= t.kids.len(),
    ensures
        mark_receivers(t, i, name, live).0.len() == t.kids.len() / 2 - i,
        forall|j: int|
            0 <= j < t.kids.len() / 2 - i ==> plain(
                #[trigger] mark_receivers(t, i, name, live).0[j],
            ) == plain(t.kids[2 * (j + i)]),
    decreases t, t.kids.len() - i,
{
    if 2 * i + 1 < t.kids.len() {
        mark_receivers_only_count(t, i + 1, name, live);
        let rest = mark_receivers(t, i + 1, name, live);
        marking_only_counts(t.kids[2 * i as int], name, live || rest.1);
        let all = mark_receivers(t, i, name, live).0;
        assert forall|j: int| 0 <= j < t.kids.len() / 2 - i implies plain(#[trigger] all[j])
            == plain(t.kids[2 * (j + i)]) by {
            if j > 0 {
                assert(all[j] == rest.0[j - 1]);
                assert(plain(rest.0[j - 1]) == plain(t.kids[2 * (j - 1 + (i + 1))]));
            }
        }
    }
}

proof fn plain_scope_end_drop(body: Term, name: Name)
    ensures
        plain(scope_end_drop(body, name)) == plain(body),
{
    let d = scope_end_drop(body, name);
    assert(ends_scope(d));
    assert(d.kids[0] == body);
}

proof fn plain_t_rc(op: RcOp, name: Name, rest: Term)
    ensures
        plain(t_rc(op, name, rest)) == plain(rest),
{
    assert(t_rc(op, name, rest).kids[0] == rest);
}

/// Inserting adjustments keeps what a node is, except where it wraps one.
proof fn counted_keeps_yield(t: Term, heap: Set<Name>, other: Name)
    ensures
        adjusts_then_yields(counted(t, heap), other) == adjusts_then_yields(t, other),
        is_just(counted(t, heap), other) == is_just(t, other),
    decreases t,
{
    let c = counted(t, heap);
    assert(t_var(other).op == Op::Var && t_var(other).kids.len() == 0 && t_var(other).arms.len()
        == 0);
    if t.op is RcAnnotated && t.kids.len() == 1 {
        assert(c.kids[0] == counted(t.kids[0], heap));
        counted_keeps_yield(t.kids[0], heap, other);
    }
    if t.op == Op::Var && t.kids.len() == 0 && t.arms.len() == 0 {
        assert(c.kids =~= t.kids);
        assert(c.arms =~= t.arms);
        assert(c == t);
    }
}

/// Inserting reference count adjustments changes nothing but reference counts.
#[verifier::rlimit(30)]
pub proof fn counting_only_counts(t: Term, heap: Set<Name>)
    ensures
        plain(counted(t, heap)) == plain(t),
    decreases t,
{
    let c = counted(t, heap);
    if t.op == Op::AsCStr && t.kids.len() == 1 && t.kids[0].op == Op::Var && !heap.contains(
        t.kids[0].names[0],
    ) {
        plain_t_rc(RcOp::Inc, t.kids[0].names[0], t);
    } else if t.op == Op::Let && t.kids.len() == 2 {
        let name = t.names[0];
        let known = is_heap(t.kids[0], heap);
        let inner = body_scope(heap, name, known);
        let value = counted(t.kids[0], heap);
        let body = counted(t.kids[1], inner);
        counting_only_counts(t.kids[0], heap);
        counting_only_counts(t.kids[1], inner);
        counted_keeps_yield(t.kids[1], inner, name);
        let m = mark(body, name, false);
        marking_only_counts(body, name, false);
        plain_scope_end_drop(body, name);
        plain_t_rc(RcOp::Dec, name, m.0);
        let out = count_body(name, known, value, body);
        assert(plain(out) == plain(t.kids[1]));
        assert(adjusts_then_yields(out, name) == adjusts_then_yields(t.kids[1], name)) by {
            last_use_keeps_yield(body, name);
            if adjusts_then_yields(body, name) {
                assert(!borrowed(body.kids[0], name));
                assert(in_scope(body, 0, name));
                assert(!borrowed(body, name));
            }
            assert(t_rc(RcOp::Dec, name, m.0).kids[0] == m.0);
        }
        plain_congruence(c, t);
    } else {
        assert forall|i: int| 0 <= i < t.kids.len() implies plain(#[trigger] c.kids[i]) == plain(
            t.kids[i],
        ) by {
            counting_only_counts(t.kids[i], kid_scope(heap, t, i));
        }
        assert forall|k: int| 0 <= k < t.arms.len() implies plain_arm(#[trigger] c.arms[k])
            == plain_arm(t.arms[k]) by {
            let arm = t.arms[k];
            arm_decreases(arm);
            if let Some(g) = arm.guard {
                counting_only_counts(g, arm_scope(heap, arm));
            }
            counting_only_counts(arm.body, arm_scope(heap, arm));
            assert(c.arms[k] == counted_arm(arm, heap));
        }
        plain_congruence(c, t);
    }
}

/// When nothing follows, marking a name keeps whether a term yields it; and a name that is
/// not used is not yielded.
proof fn last_use_keeps_yield(t: Term, name: Name)
    ensures
        adjusts_then_yields(mark(t, name, false).0, name) == adjusts_then_yields(t, name),
        is_just(mark(t, name, false).0, name) ==> mark(t, name, false).1,
        !mark(t, name, false).1 ==> !adjusts_then_yields(t, name),
{
    if t.op != Op::Var {
        mark_keeps_node(t, name, false);
        if t.op is RcAnnotated && shaped(t) {
            let kid = t.kids[0];
            assert(mark_from(t, 1, name, false).0.len() == 0);
            assert(mark_from(t, 1, name, false).1 == false);
            let m = mark(t, name, false);
            assert(m.0.kids[0] == mark(kid, name, false).0) by {
                assert(m.0.kids == mark_from(t, 0, name, false).0);
            }
            assert(mark_from(t, 0, name, false).1 == mark(kid, name, false).1);
            if kid.op != Op::Var {
                mark_keeps_node(kid, name, false);
            }
            assert(shaped(t_var(name)));
        }
    }
}

proof fn reused_keeps_yield(t: Term, heap: Set<Name>, other: Name, given: Set<Name>)
    ensures
        adjusts_then_yields(reused(t, heap, given), other) == adjusts_then_yields(t, other),
        is_just(reused(t, heap, given), other) == is_just(t, other),
    decreases t,
{
    let c = reused(t, heap, given);
    assert(t_var(other).op == Op::Var && t_var(other).kids.len() == 0 && t_var(other).arms.len()
        == 0);
    if t.op is RcAnnotated && t.kids.len() == 1 {
        assert(c.kids[0] == reused(t.kids[0], heap, given));
        reused_keeps_yield(t.kids[0], heap, other, given);
    }
    if t.op == Op::Var && t.kids.len() == 0 && t.arms.len() == 0 {
        assert(c.kids =~= t.kids);
        assert(c.arms =~= t.arms);
        assert(c == t);
    }
}

proof fn released_keeps_yield(t: Term, tag_heap: Map<Name, Vec<bool>>, other: Name)
    ensures
        adjusts_then_yields(released(t, tag_heap), other) == adjusts_then_yields(t, other),
        is_just(released(t, tag_heap), other) == is_just(t, other),
    decreases t,
{
    let c = released(t, tag_heap);
    assert(t_var(other).op == Op::Var && t_var(other).kids.len() == 0 && t_var(other).arms.len()
        == 0);
    if t.op is RcAnnotated && t.kids.len() == 1 {
        assert(c.kids[0] == released(t.kids[0], tag_heap));
        released_keeps_yield(t.kids[0], tag_heap, other);
    }
    if t.op == Op::Var && t.kids.len() == 0 && t.arms.len() == 0 {
        assert(c.kids =~= t.kids);
        assert(c.arms =~= t.arms);
        assert(c == t);
    }
}

/// Marking reuse changes nothing but reference counts and the choice of memory.
#[verifier::rlimit(40)]
pub proof fn reusing_only_chooses_memory(t: Term, heap: Set<Name>, given: Set<Name>)
    ensures
        plain(reused(t, heap, given)) == plain(t),
    decreases t,
{
    let c = reused(t, heap, given);
    if t.op == Op::Let && t.kids.len() == 2 {
        let name = t.names[0];
        let inner = body_scope(heap, name, is_heap(t.kids[0], heap));
        let body = reused(t.kids[1], inner, given);
        reusing_only_chooses_memory(t.kids[0], heap, given);
        reusing_only_chooses_memory(t.kids[1], inner, given);
        reused_keeps_yield(t.kids[1], inner, name, given);
        if reuses(body, name) && body.kids.len() == 2 && body == scope_end_drop(
            body.kids[0],
            name,
        ) {
            let v = body.kids[0];
            plain_scope_end_drop(v, name);
            drop_reuses_in_value(v, name);
            assert(!adjusts_then_yields(v, name)) by {
                if adjusts_then_yields(v, name) {
                    yield_does_not_reuse(v, name);
                }
            }
        }
        plain_congruence(c, t);
    } else {
        assert forall|i: int| 0 <= i < t.kids.len() implies plain(
            reused(#[trigger] t.kids[i], reuse_scope(heap, t, i, given), given),
        ) == plain(t.kids[i]) by {
            reusing_only_chooses_memory(t.kids[i], reuse_scope(heap, t, i, given), given);
        }
        if in_place(t.op) is Some && t.kids.len() > 0 && is_tracked_var(t.kids[0], heap) {
            reused_in_place_is_plain(t, heap, given);
        } else {
            let target = if t.kids.len() > 0 && is_tracked_var(t.kids[0], heap) {
                Some(t.kids[0].names[0])
            } else {
                None
            };
            assert forall|i: int| 0 <= i < t.kids.len() implies plain(#[trigger] c.kids[i])
                == plain(t.kids[i]) by {
                assert(c.kids[i] == reused(t.kids[i], reuse_scope(heap, t, i, given), given));
            }
            assert forall|k: int| 0 <= k < t.arms.len() implies plain_arm(#[trigger] c.arms[k])
                == plain_arm(t.arms[k]) by {
                let arm = t.arms[k];
                arm_decreases(arm);
                if let Some(g) = arm.guard {
                    reusing_only_chooses_memory(g, arm_scope(heap, arm), given);
                }
                reusing_only_chooses_memory(arm.body, arm_scope(heap, arm), given);
                assert(c.arms[k] == reused_arm(arm, target, heap, given));
                plain_rebuild(
                    arm_target(target, arm),
                    arm.bindings.len(),
                    reused(arm.body, arm_scope(heap, arm), given),
                );
            }
            plain_congruence(c, t);
        }
    }
}

/// Building in place computes what building afresh computes.
proof fn reused_in_place_is_plain(t: Term, heap: Set<Name>, given: Set<Name>)
    requires
        in_place(t.op) is Some,
        t.kids.len() > 0,
        is_tracked_var(t.kids[0], heap),
        forall|i: int|
            0 <= i < t.kids.len() ==> plain(
                reused(#[trigger] t.kids[i], reuse_scope(heap, t, i, given), given),
            ) == plain(t.kids[i]),
    ensures
        plain(reused(t, heap, given)) == plain(t),
{
    let c = reused(t, heap, given);
    let pc = plain(c);
    let pt = plain(t);
    let name = t.kids[0].names[0];
    assert(c.names.skip(1) =~= t.names);
    assert(plain(t.kids[0]) == t_var(name)) by {
        assert(is_source(t_var(name)));
        plain_of_source(t_var(name));
    }
    assert(pc.kids =~= pt.kids) by {
        assert forall|i: int| 0 <= i < pt.kids.len() implies pc.kids[i] == pt.kids[i] by {
            assert(pt.kids[i] == plain(t.kids[i]));
            if i > 0 {
                assert(c.kids[i - 1] == reused(t.kids[i], reuse_scope(heap, t, i, given), given));
                assert(pc.kids[i] == plain(c.kids[i - 1]));
            }
        }
    }
    assert(pc.arms =~= pt.arms);
}

/// Rebuilding a cell in place computes what building it afresh computes.
proof fn plain_rebuild(target: Option<Name>, arity: nat, body: Term)
    ensures
        plain(rebuild(target, arity, body)) == plain(body),
{
    let r = rebuild(target, arity, body);
    if r.op == Op::CtorReuse && body.op == Op::Ctor {
        assert(r.names.skip(1) =~= body.names);
        assert(plain(r).kids =~= plain(body).kids);
        assert(plain(r).arms =~= plain(body).arms);
    }
}

/// If a release at the end of the scope goes with a reuse, the reuse is in the value.
proof fn drop_reuses_in_value(v: Term, name: Name)
    requires
        reuses(scope_end_drop(v, name), name),
    ensures
        reuses(v, name),
{
    let d = scope_end_drop(v, name);
    let i = choose|i: int| 0 <= i < d.kids.len() && reuses(#[trigger] d.kids[i], name);
    if i == 1 {
        let rc = d.kids[1];
        let j = choose|j: int| 0 <= j < rc.kids.len() && reuses(#[trigger] rc.kids[j], name);
        assert(rc.kids[j] == t_var(drop_name(name)));
    }
}

/// A term that only adjusts a count and yields a variable reuses nothing.
proof fn yield_does_not_reuse(v: Term, name: Name)
    requires
        adjusts_then_yields(v, name),
    ensures
        !reuses(v, name),
{
    assert(!reuses(v.kids[0], name));
}

/// Releasing match bindings changes nothing but releases.
pub proof fn releasing_only_releases(t: Term, tag_heap: Map<Name, Vec<bool>>)
    ensures
        plain(released(t, tag_heap)) == plain(t),
    decreases t,
{
    let c = released(t, tag_heap);
    assert forall|i: int| 0 <= i < t.kids.len() implies plain(#[trigger] c.kids[i]) == plain(
        t.kids[i],
    ) by {
        releasing_only_releases(t.kids[i], tag_heap);
    }
    assert forall|k: int| 0 <= k < t.arms.len() implies plain_arm(#[trigger] c.arms[k])
        == plain_arm(t.arms[k]) by {
        let arm = t.arms[k];
        arm_decreases(arm);
        if let Some(g) = arm.guard {
            releasing_only_releases(g, tag_heap);
        }
        releasing_only_releases(arm.body, tag_heap);
        let inner = ArmTerm {
            guard: match arm.guard {
                Some(g) => Some(released(g, tag_heap)),
                None => None,
            },
            body: released(arm.body, tag_heap),
            ..arm
        };
        plain_release_upto(inner, counted_fields(tag_heap, arm.tag), arm.bindings.len());
        assert(c.arms[k] == released_arm(arm, tag_heap));
    }
    if t.op == Op::Let && t.kids.len() == 2 {
        assert(c.kids[1] == released(t.kids[1], tag_heap));
        released_keeps_yield(t.kids[1], tag_heap, t.names[0]);
    }
    plain_congruence(c, t);
}

proof fn plain_release_upto(arm: ArmTerm, fields: Seq<bool>, i: nat)
    ensures
        plain(release_upto(arm, fields, i)) == plain(arm.body),
    decreases i,
{
    if i > 0 {
        plain_release_upto(arm, fields, (i - 1) as nat);
        plain_scope_end_drop(release_upto(arm, fields, (i - 1) as nat), arm.bindings[i - 1]);
    }
}

/// The optimised form of an expression computes what the expression computes: taking
/// reference counting and reuse out of it gives the expression back.
pub proof fn optimising_keeps_the_program(t: Term)
    requires
        is_source(t),
    ensures
        plain(optimized(t, Set::empty())) == t,
{
    optimising_only_counts_and_reuses(t, Set::empty());
    plain_of_source(t);
}

/// The optimised form of any expression differs from it in reference counting and the
/// choice of memory only.
pub proof fn optimising_only_counts_and_reuses(t: Term, seed: Set<Name>)
    ensures
        plain(optimized(t, seed)) == plain(t),
{
    counting_only_counts(t, Set::empty());
    reusing_only_chooses_memory(counted(t, Set::empty()), seed, seed);
}

/// Optimising a program keeps its functions and globals, their names, order and
/// parameters, and its foreign declarations.
pub proof fn optimising_keeps_declarations(p: ProgramTerm, seeds: Map<Name, Set<Name>>)
    ensures
        optimized_program(p, seeds).functions.len() == p.functions.len(),
        forall|j: int|
            0 <= j < p.functions.len() ==> {
                let f = #[trigger] optimized_program(p, seeds).functions[j];
                f.name == p.functions[j].name && f.params == p.functions[j].params && plain(f.body)
                    == plain(p.functions[j].body)
            },
        optimized_program(p, seeds).globals.len() == p.globals.len(),
        forall|j: int|
            0 <= j < p.globals.len() ==> {
                let g = #[trigger] optimized_program(p, seeds).globals[j];
                g.name == p.globals[j].name && plain(g.value) == plain(p.globals[j].value)
            },
        optimized_program(p, seeds).externs == p.externs,
{
    let o = optimized_program(p, seeds);
    assert forall|j: int| 0 <= j < p.functions.len() implies {
        let f = #[trigger] o.functions[j];
        f.name == p.functions[j].name && f.params == p.functions[j].params && plain(f.body)
            == plain(p.functions[j].body)
    } by {
        optimising_only_counts_and_reuses(
            p.functions[j].body,
            super::seed_of(seeds, p.functions[j].name),
        );
    }
    assert forall|j: int| 0 <= j < p.globals.len() implies {
        let g = #[trigger] o.globals[j];
        g.name == p.globals[j].name && plain(g.value) == plain(p.globals[j].value)
    } by {
        optimising_only_counts_and_reuses(p.globals[j].value, Set::empty());
    }
}

/// Taking a release at the end of the scope off again gives the body back.
pub proof fn strip_undoes_drop(body: Term, name: Name)
    ensures
        strip(scope_end_drop(body, name), name) == body,
{
    let d = scope_end_drop(body, name);
    assert(d.kids[0] == body);
}

/// Uses are counted no further than two.
pub proof fn uses_are_at_most_two(t: Term, name: Name)
    ensures
        max_uses(t, name) <= 2,
{
}

/// An expression that does not mention a name is left as it is, and reports no use of it.
pub proof fn unmentioned_is_unmarked(t: Term, name: Name, live: bool)
    requires
        !mentions(t, name),
    ensures
        mark(t, name, live).0 == t,
        !mark(t, name, live).1,
    decreases t, t.kids.len() + t.arms.len() + 1,
{
    let m = mark(t, name, live).0;
    if shaped(t) && t.op != Op::Var {
        assert forall|i: int| 0 <= i < t.kids.len() implies !mentions(#[trigger] t.kids[i], name) by {}
        match t.op {
            Op::If => {
                unmentioned_is_unmarked(t.kids[1], name, live);
                unmentioned_is_unmarked(t.kids[2], name, live);
                let a = mark(t.kids[1], name, live);
                let b = mark(t.kids[2], name, live);
                unmentioned_is_unmarked(t.kids[0], name, live || a.1 || b.1);
            },
            Op::Match => {
                unmentioned_arms(t, 0, name, live);
                unmentioned_is_unmarked(t.kids[0], name, live || mark_arms(t, 0, name, live).1);
                assert(t.arms.skip(0) =~= t.arms);
            },
            Op::For => {
                assert(mark_loop(t, name) == (t.kids[2], false));
                let e = mark(t.kids[1], name, live);
                unmentioned_is_unmarked(t.kids[1], name, live);
                unmentioned_is_unmarked(t.kids[0], name, live || e.1);
            },
            Op::Closure(_) | Op::Spawn => {},
            Op::Select => {
                let n = t.kids.len() / 2;
                unmentioned_bodies(t, n, name, live);
                let b = mark_bodies(t, n, name, live);
                let outer = live || b.1;
                unmentioned_receivers(t, 0, name, outer);
                let r = mark_receivers(t, 0, name, outer);
                assert forall|i: int| 0 <= i < t.kids.len() implies m.kids[i] == t.kids[i] by {
                    if i % 2 == 0 {
                        assert(r.0[i / 2] == t.kids[2 * (i / 2 + 0)]);
                    } else {
                        assert(b.0[i / 2] == t.kids[2 * (i / 2) + 1]);
                    }
                }
            },
            Op::Assign => {
                let r = mark(t.kids[1], name, live);
                unmentioned_is_unmarked(t.kids[1], name, live);
                unmentioned_is_unmarked(
                    t.kids[0],
                    name,
                    t.names[0] != name && (r.1 || live),
                );
            },
            Op::Let => {
                unmentioned_is_unmarked(t.kids[1], name, live);
                let b = mark(t.kids[1], name, live);
                unmentioned_is_unmarked(t.kids[0], name, live);
                unmentioned_is_unmarked(t.kids[0], name, live || b.1);
            },
            _ => {
                unmentioned_from(t, 0, name, live);
                assert(t.kids.skip(0) =~= t.kids);
            },
        }
        assert(m.kids =~= t.kids);
        assert(m.arms =~= t.arms);
    }
}

proof fn unmentioned_from(t: Term, i: nat, name: Name, live: bool)
    requires
        i <= t.kids.len(),
        !mentions(t, name),
    ensures
        mark_from(t, i, name, live).0 == t.kids.skip(i as int),
        !mark_from(t, i, name, live).1,
    decreases t, t.kids.len() - i,
{
    if i < t.kids.len() {
        unmentioned_from(t, i + 1, name, live);
        let rest = mark_from(t, i + 1, name, live);
        assert(!mentions(t.kids[i as int], name));
        unmentioned_is_unmarked(t.kids[i as int], name, live || rest.1);
        assert(seq![t.kids[i as int]] + t.kids.skip((i + 1) as int) =~= t.kids.skip(i as int));
    } else {
        assert(t.kids.skip(i as int) =~= Seq::<Term>::empty());
    }
}

proof fn unmentioned_arms(t: Term, i: nat, name: Name, live: bool)
    requires
        i <= t.arms.len(),
        !mentions(t, name),
    ensures
        mark_arms(t, i, name, live).0 == t.arms.skip(i as int),
        !mark_arms(t, i, name, live).1,
    decreases t, t.arms.len() - i,
{
    if i < t.arms.len() {
        unmentioned_arms(t, i + 1, name, live);
        let rest = mark_arms(t, i + 1, name, live);
        let arm = t.arms[i as int];
        arm_decreases(arm);
        assert(!arm_mentions(arm, name));
        let b = mark(arm.body, name, live);
        unmentioned_is_unmarked(arm.body, name, live);
        if let Some(g) = arm.guard {
            unmentioned_is_unmarked(g, name, live || b.1 || rest.1);
        }
        assert(seq![arm] + t.arms.skip((i + 1) as int) =~= t.arms.skip(i as int));
    } else {
        assert(t.arms.skip(i as int) =~= Seq::<ArmTerm>::empty());
    }
}

proof fn unmentioned_bodies(t: Term, i: nat, name: Name, live: bool)
    requires
        2 * i <= t.kids.len(),
        !mentions(t, name),
    ensures
        mark_bodies(t, i, name, live).0.len() == i,
        forall|j: int| 0 <= j < i ==> #[trigger] mark_bodies(t, i, name, live).0[j] == t.kids[2 * j + 1],
        !mark_bodies(t, i, name, live).1,
    decreases t, i,
{
    if i > 0 {
        unmentioned_bodies(t, (i - 1) as nat, name, live);
        assert(!mentions(t.kids[2 * i - 1], name));
        unmentioned_is_unmarked(t.kids[2 * i - 1], name, live);
        let p = mark_bodies(t, (i - 1) as nat, name, live);
        let all = mark_bodies(t, i, name, live).0;
        assert forall|j: int| 0 <= j < i implies #[trigger] all[j] == t.kids[2 * j + 1] by {
            if j < i - 1 {
                assert(all[j] == p.0[j]);
            }
        }
    }
}

proof fn unmentioned_receivers(t: Term, i: nat, name: Name, live: bool)
    requires
        t.kids.len() % 2 == 0,
        2 * i <= t.kids.len(),
        !mentions(t, name),
    ensures
        mark_receivers(t, i, name, live).0.len() == t.kids.len() / 2 - i,
        forall|j: int|
            0 <= j < t.kids.len() / 2 - i ==> #[trigger] mark_receivers(t, i, name, live).0[j]
                == t.kids[2 * (j + i)],
        !mark_receivers(t, i, name, live).1,
    decreases t, t.kids.len() - i,
{
    if 2 * i + 1 < t.kids.len() {
        unmentioned_receivers(t, i + 1, name, live);
        let rest = mark_receivers(t, i + 1, name, live);
        assert(!mentions(t.kids[2 * i as int], name));
        unmentioned_is_unmarked(t.kids[2 * i as int], name, live || rest.1);
        let all = mark_receivers(t, i, name, live).0;
        assert forall|j: int| 0 <= j < t.kids.len() / 2 - i implies #[trigger] all[j] == t.kids[2
            * (j + i)] by {
            if j > 0 {
                assert(all[j] == rest.0[j - 1]);
                assert(rest.0[j - 1] == t.kids[2 * (j - 1 + (i + 1))]);
            }
        }
    }
}

/// Whether a name counts as used in an expression does not depend on what follows it.
pub proof fn what_follows_does_not_change_what_is_used(t: Term, name: Name, live: bool)
    ensures
        mark(t, name, live).1 == mark(t, name, false).1,
    decreases t, t.kids.len() + t.arms.len() + 1,
{
    if shaped(t) {
        match t.op {
            Op::Var | Op::Closure(_) | Op::Spawn => {},
            Op::If => {
                let a = mark(t.kids[1], name, live);
                let b = mark(t.kids[2], name, live);
                let x = mark(t.kids[1], name, false);
                let y = mark(t.kids[2], name, false);
                what_follows_does_not_change_what_is_used(t.kids[1], name, live);
                what_follows_does_not_change_what_is_used(t.kids[2], name, live);
                what_follows_does_not_change_what_is_used(t.kids[0], name, live || a.1 || b.1);
                what_follows_does_not_change_what_is_used(t.kids[0], name, x.1 || y.1);
            },
            Op::Match => {
                let a = mark_arms(t, 0, name, live);
                let x = mark_arms(t, 0, name, false);
                used_in_arms(t, 0, name, live);
                what_follows_does_not_change_what_is_used(t.kids[0], name, live || a.1);
                what_follows_does_not_change_what_is_used(t.kids[0], name, x.1);
            },
            Op::For => {
                let b = mark_loop(t, name).1;
                let e = mark(t.kids[1], name, live || b);
                let y = mark(t.kids[1], name, b);
                what_follows_does_not_change_what_is_used(t.kids[1], name, live || b);
                what_follows_does_not_change_what_is_used(t.kids[1], name, b);
                what_follows_does_not_change_what_is_used(t.kids[0], name, live || b || e.1);
                what_follows_does_not_change_what_is_used(t.kids[0], name, b || y.1);
            },
            Op::Select => {
                let n = t.kids.len() / 2;
                let b = mark_bodies(t, n, name, live);
                let y = mark_bodies(t, n, name, false);
                used_in_bodies(t, n, name, live);
                used_in_receivers(t, 0, name, live || b.1);
                used_in_receivers(t, 0, name, y.1);
            },
            Op::Assign => {
                let r = mark(t.kids[1], name, live);
                let y = mark(t.kids[1], name, false);
                what_follows_does_not_change_what_is_used(t.kids[1], name, live);
                what_follows_does_not_change_what_is_used(
                    t.kids[0],
                    name,
                    t.names[0] != name && (r.1 || live),
                );
                what_follows_does_not_change_what_is_used(
                    t.kids[0],
                    name,
                    t.names[0] != name && (y.1 || false),
                );
            },
            Op::Let => {
                let b = mark(t.kids[1], name, live);
                let y = mark(t.kids[1], name, false);
                what_follows_does_not_change_what_is_used(t.kids[1], name, live);
                what_follows_does_not_change_what_is_used(t.kids[0], name, live);
                what_follows_does_not_change_what_is_used(t.kids[0], name, live || b.1);
                what_follows_does_not_change_what_is_used(t.kids[0], name, y.1);
            },
            _ => {
                used_in_kids(t, 0, name, live);
            },
        }
    }
}

proof fn used_in_kids(t: Term, i: nat, name: Name, live: bool)
    ensures
        mark_from(t, i, name, live).1 == mark_from(t, i, name, false).1,
    decreases t, t.kids.len() - i,
{
    if i < t.kids.len() {
        used_in_kids(t, i + 1, name, live);
        let a = mark_from(t, i + 1, name, live).1;
        let b = mark_from(t, i + 1, name, false).1;
        what_follows_does_not_change_what_is_used(t.kids[i as int], name, live || a);
        what_follows_does_not_change_what_is_used(t.kids[i as int], name, b);
    }
}

proof fn used_in_arms(t: Term, k: nat, name: Name, live: bool)
    ensures
        mark_arms(t, k, name, live).1 == mark_arms(t, k, name, false).1,
    decreases t, t.arms.len() - k,
{
    if k < t.arms.len() {
        used_in_arms(t, k + 1, name, live);
        let arm = t.arms[k as int];
        arm_decreases(arm);
        let a = mark_arms(t, k + 1, name, live).1;
        let b = mark_arms(t, k + 1, name, false).1;
        let x = mark(arm.body, name, live).1;
        let y = mark(arm.body, name, false).1;
        what_follows_does_not_change_what_is_used(arm.body, name, live);
        if let Some(g) = arm.guard {
            what_follows_does_not_change_what_is_used(g, name, live || x || a);
            what_follows_does_not_change_what_is_used(g, name, y || b);
        }
    }
}

proof fn used_in_bodies(t: Term, i: nat, name: Name, live: bool)
    ensures
        mark_bodies(t, i, name, live).1 == mark_bodies(t, i, name, false).1,
    decreases t, i,
{
    if 0 < i && 2 * i <= t.kids.len() {
        used_in_bodies(t, (i - 1) as nat, name, live);
        what_follows_does_not_change_what_is_used(t.kids[2 * i - 1], name, live);
    }
}

proof fn used_in_receivers(t: Term, i: nat, name: Name, live: bool)
    ensures
        mark_receivers(t, i, name, live).1 == mark_receivers(t, i, name, false).1,
    decreases t, t.kids.len() - i,
{
    if 2 * i + 1 < t.kids.len() {
        used_in_receivers(t, i + 1, name, live);
        let a = mark_receivers(t, i + 1, name, live).1;
        let b = mark_receivers(t, i + 1, name, false).1;
        what_follows_does_not_change_what_is_used(t.kids[2 * i as int], name, live || a);
        what_follows_does_not_change_what_is_used(t.kids[2 * i as int], name, b);
    }
}

/// Whether a term binds `name` with a `Let` anywhere.
pub open spec fn lets(t: Term, name: Name) -> bool
    decreases t,
{
    ||| t.op == Op::Let && t.names[0] == name
    ||| exists|i: int| 0 <= i < t.kids.len() && lets(#[trigger] t.kids[i], name)
    ||| exists|k: int| 0 <= k < t.arms.len() && arm_lets(#[trigger] t.arms[k], name)
}

/// Whether an arm binds `name` with a `Let` anywhere.
pub open spec fn arm_lets(arm: ArmTerm, name: Name) -> bool
    decreases arm,
{
    ||| (arm.guard matches Some(g) && lets(g, name))
    ||| lets(arm.body, name)
}

/// Memory is reused only of names that are known: given as known, or bound by a `Let`. In
/// particular the memory of a parameter that is not known is never reused.
pub proof fn only_known_names_are_reused(t: Term, heap: Set<Name>, name: Name, given: Set<Name>)
    requires
        !heap.contains(name),
        !lets(t, name),
        !reuses(t, name),
    ensures
        !reuses(reused(t, heap, given), name),
    decreases t,
{
    let c = reused(t, heap, given);
    assert forall|i: int| 0 <= i < t.kids.len() implies !lets(#[trigger] t.kids[i], name)
        && !reuses(t.kids[i], name) by {}
    if t.op == Op::Let && t.kids.len() == 2 {
        let inner = body_scope(heap, t.names[0], is_heap(t.kids[0], heap));
        assert(!lets(t.kids[0], name) && !lets(t.kids[1], name));
        only_known_names_are_reused(t.kids[0], heap, name, given);
        only_known_names_are_reused(t.kids[1], inner, name, given);
        let body = reused(t.kids[1], inner, given);
        if body.kids.len() == 2 && body == scope_end_drop(body.kids[0], t.names[0]) {
            assert(!reuses(body.kids[0], name));
        }
        assert(!reuses(c.kids[0], name) && !reuses(c.kids[1], name));
        assert forall|k: int| 0 <= k < c.arms.len() implies !arm_reuses(
            #[trigger] c.arms[k],
            name,
        ) by {
            assert(!arm_reuses(t.arms[k], name));
        }
    } else {
        assert forall|i: int| 0 <= i < t.kids.len() implies !reuses(
            reused(#[trigger] t.kids[i], reuse_scope(heap, t, i, given), given),
            name,
        ) by {
            hiding_adds_nothing(heap, t.names, given, name);
            only_known_names_are_reused(t.kids[i], reuse_scope(heap, t, i, given), name, given);
        }
        if in_place(t.op) is Some && t.kids.len() > 0 && is_tracked_var(t.kids[0], heap) {
            assert(c.names[0] == t.kids[0].names[0]);
            assert forall|i: int| 0 <= i < c.kids.len() implies !reuses(
                #[trigger] c.kids[i],
                name,
            ) by {
                assert(c.kids[i] == reused(t.kids[i + 1], heap, given));
            }
            assert forall|k: int| 0 <= k < c.arms.len() implies !arm_reuses(
                #[trigger] c.arms[k],
                name,
            ) by {
                assert(!arm_reuses(t.arms[k], name));
            }
        } else {
            let target = if t.kids.len() > 0 && is_tracked_var(t.kids[0], heap) {
                Some(t.kids[0].names[0])
            } else {
                None
            };
            assert forall|i: int| 0 <= i < c.kids.len() implies !reuses(
                #[trigger] c.kids[i],
                name,
            ) by {
                assert(c.kids[i] == reused(t.kids[i], reuse_scope(heap, t, i, given), given));
            }
            assert forall|k: int| 0 <= k < c.arms.len() implies !arm_reuses(
                #[trigger] c.arms[k],
                name,
            ) by {
                let arm = t.arms[k];
                arm_decreases(arm);
                assert(!arm_lets(arm, name) && !arm_reuses(arm, name));
                without_leaves(heap, arm.bindings, name);
                if let Some(g) = arm.guard {
                    only_known_names_are_reused(g, arm_scope(heap, arm), name, given);
                }
                only_known_names_are_reused(arm.body, arm_scope(heap, arm), name, given);
                assert(c.arms[k] == reused_arm(arm, target, heap, given));
                let b = reused(arm.body, arm_scope(heap, arm), given);
                let r = rebuild(arm_target(target, arm), arm.bindings.len(), b);
                assert(!reuses(r, name)) by {
                    assert(r.kids == b.kids && r.arms == b.arms);
                    assert forall|i: int| 0 <= i < r.kids.len() implies !reuses(
                        #[trigger] r.kids[i],
                        name,
                    ) by {
                        assert(!reuses(b.kids[i], name));
                    }
                    assert forall|j: int| 0 <= j < r.arms.len() implies !arm_reuses(
                        #[trigger] r.arms[j],
                        name,
                    ) by {
                        assert(!arm_reuses(b.arms[j], name));
                    }
                }
            }
        }
        assert(!claims(c, name));
    }
}

} // verus!
