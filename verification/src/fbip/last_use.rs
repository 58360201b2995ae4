//! Last-use analysis for one name.
//!
//! Liveness is threaded backward through an expression: a use that is followed by another
//! use gets an increment, and the last use takes the reference over without one.

use vstd::prelude::*;
use crate::ir::{
    arm_decreases, arm_term, arm_terms, mk_rc, shaped, t_rc, take_arm_at, take_at, terms, ArmTerm,
    Expr, MatchArm, Name, Op, Parts, RcOp, Term,
};
use crate::names::contains_name;
use super::balance::only_reads;
use super::reuse::{may_be_taken, may_take};
use super::uses::{
    assigns, claims, expr_assigns_var, expr_mentions_var, is_bare_var, is_reuse, is_var, mentions,
    reads_only,
};

verus! {

/// Whether a term rebinds the outer `name` on every path. A loop may not run, and what is
/// spawned runs elsewhere.
pub open spec fn rebinds(t: Term, name: Name) -> bool
    decreases t,
{
    &&& shaped(t)
    &&& match t.op {
        Op::Var | Op::Closure(_) | Op::Spawn | Op::Select => false,
        Op::Assign => t.names[0] == name || rebinds(t.kids[0], name) || rebinds(t.kids[1], name),
        Op::Let => rebinds(t.kids[0], name) || (t.names[0] != name && rebinds(t.kids[1], name)),
        Op::If => rebinds(t.kids[0], name) || (rebinds(t.kids[1], name) && rebinds(
            t.kids[2],
            name,
        )),
        Op::For => rebinds(t.kids[0], name) || rebinds(t.kids[1], name),
        Op::Match => rebinds(t.kids[0], name) || (t.arms.len() > 0 && forall|k: int|
            0 <= k < t.arms.len() ==> rebinds_arm(#[trigger] t.arms[k], name)),
        _ => exists|i: int| 0 <= i < t.kids.len() && rebinds(#[trigger] t.kids[i], name),
    }
}

/// Whether an arm rebinds the outer `name` on every path through it.
pub open spec fn rebinds_arm(arm: ArmTerm, name: Name) -> bool
    decreases arm,
{
    &&& !arm.bindings.contains(name)
    &&& {
        ||| (arm.guard matches Some(g) && rebinds(g, name))
        ||| rebinds(arm.body, name)
    }
}

/// Whether one of the terms from place `from` on rebinds the name on every path.
pub open spec fn some_rebinds(ts: Seq<Term>, from: int, name: Name) -> bool {
    exists|j: int| from <= j < ts.len() && rebinds(#[trigger] ts[j], name)
}

/// Whether all of the arms from place `from` on rebind the name on every path.
pub open spec fn arms_rebind(arms: Seq<ArmTerm>, from: int, name: Name) -> bool {
    forall|j: int| from <= j < arms.len() ==> rebinds_arm(#[trigger] arms[j], name)
}

/// Whether child `i` of a node is the variable `name`, and the node only reads it. An operand
/// whose memory can be built in is taken, not only read.
pub open spec fn just_read(t: Term, i: int, name: Name) -> bool {
    only_reads(t.op) && is_var(t.kids[i], name) && !may_take(t, i, name)
}

/// Whether every path through a marked term that spends the outer `name` rebinds it
/// afterwards. A use with an increment of its own spends nothing, and neither does one that
/// only reads.
pub open spec fn settles(t: Term, name: Name) -> bool
    decreases t,
{
    shaped(t) ==> match t.op {
        Op::Var => t.names[0] != name,
        Op::Closure(_) => true,
        Op::RcAnnotated(op) => if t.names[0] == name && op == RcOp::Inc && is_var(
            t.kids[0],
            name,
        ) {
            true
        } else {
            (t.names[0] == name ==> op == RcOp::Inc) && settles(t.kids[0], name)
        },
        Op::Assign => if t.names[0] == name {
            settles(t.kids[1], name)
        } else {
            (settles(t.kids[0], name) || rebinds(t.kids[1], name)) && settles(t.kids[1], name)
        },
        Op::Let => if t.names[0] == name {
            settles(t.kids[0], name)
        } else {
            (settles(t.kids[0], name) || rebinds(t.kids[1], name)) && settles(t.kids[1], name)
        },
        Op::If => {
            &&& settles(t.kids[0], name) || (rebinds(t.kids[1], name) && rebinds(t.kids[2], name))
            &&& settles(t.kids[1], name)
            &&& settles(t.kids[2], name)
        },
        Op::For => {
            &&& settles(t.kids[0], name) || rebinds(t.kids[1], name)
            &&& settles(t.kids[1], name)
            &&& t.names[0] != name ==> settles(t.kids[2], name)
        },
        Op::Match => {
            &&& just_read(t, 0, name) || settles(t.kids[0], name) || (t.arms.len() > 0
                && arms_rebind(t.arms, 0, name))
            &&& forall|k: int|
                0 <= k < t.arms.len() ==> settles_arm(
                    #[trigger] t.arms[k],
                    arms_rebind(t.arms, k + 1, name),
                    name,
                )
        },
        Op::Spawn | Op::Select => forall|i: int|
            0 <= i < t.kids.len() ==> settles(#[trigger] t.kids[i], name),
        _ => {
            &&& !claims(t, name)
            &&& forall|i: int|
                0 <= i < t.kids.len() ==> settles(#[trigger] t.kids[i], name) || just_read(
                    t,
                    i,
                    name,
                ) || some_rebinds(t.kids, i + 1, name)
        },
    }
}

/// Whether every path through a marked arm that spends the outer `name` rebinds it afterwards.
/// `later` says whether all later arms, which a guard that fails goes on to, rebind it.
pub open spec fn settles_arm(arm: ArmTerm, later: bool, name: Name) -> bool
    decreases arm,
{
    ||| arm.bindings.contains(name)
    ||| {
        &&& (arm.guard matches Some(g) ==> settles(g, name) || (later && rebinds(arm.body, name)))
        &&& settles(arm.body, name)
    }
}

/// Marks the uses of `name` in a term, when `live` says whether the name is needed
/// afterwards. Yields the marked term, and whether the name is used within it.
pub open spec fn mark(t: Term, name: Name, live: bool) -> (Term, bool)
    decreases t, t.kids.len() + t.arms.len() + 1,
{
    if !shaped(t) {
        (t, false)
    } else {
        match t.op {
            Op::Var => if t.names[0] != name {
                (t, false)
            } else if live {
                (t_rc(RcOp::Inc, name, t), true)
            } else {
                (t, true)
            },
            // Only one branch runs.
            Op::If => {
                let a = mark(t.kids[1], name, live);
                let b = mark(t.kids[2], name, live);
                let c = mark(t.kids[0], name, live || a.1 || b.1);
                (Term { kids: seq![c.0, a.0, b.0], ..t }, c.1 || a.1 || b.1)
            },
            Op::Match => {
                let arms = mark_arms(t, 0, name, live);
                let s = mark(t.kids[0], name, live || arms.1);
                (Term { kids: seq![s.0], arms: arms.0, ..t }, s.1 || arms.1)
            },
            // The body may run again, so a use in it is never the last one, unless the name is
            // rebound before the next round wherever it is spent.
            Op::For => {
                let b = mark_loop(t, name);
                let e = mark(t.kids[1], name, live || b.1);
                let s = mark(t.kids[0], name, live || b.1 || e.1);
                (Term { kids: seq![s.0, e.0, b.0], ..t }, s.1 || e.1 || b.1)
            },
            // A closure holds references of its own to what it captures.
            Op::Closure(_) => (t, mentions(t.kids[0], name)),
            Op::Spawn => if mentions(t.kids[0], name) {
                (Term { kids: seq![mark(t.kids[0], name, true).0], ..t }, true)
            } else {
                (t, false)
            },
            // One body runs, after every receiver.
            Op::Select => {
                let n = t.kids.len() / 2;
                let b = mark_bodies(t, n, name, live);
                let r = mark_receivers(t, 0, name, live || b.1);
                (Term { kids: interleave(r.0, b.0), ..t }, b.1 || r.1)
            },
            // What follows a rebinding of the name reads the new value.
            Op::Assign => {
                let r = mark(t.kids[1], name, live);
                let v = mark(t.kids[0], name, t.names[0] != name && (r.1 || live));
                (Term { kids: seq![v.0, r.0], ..t }, r.1 || v.1)
            },
            // A binding of the same name hides the outer one from its body.
            Op::Let => if t.names[0] == name {
                let v = mark(t.kids[0], name, live);
                (Term { kids: seq![v.0, t.kids[1]], ..t }, v.1)
            } else {
                let b = mark(t.kids[1], name, live);
                let v = mark(t.kids[0], name, live || b.1);
                (Term { kids: seq![v.0, b.0], ..t }, v.1 || b.1)
            },
            _ => {
                let k = mark_from(t, 0, name, live);
                (Term { kids: k.0, ..t }, k.1)
            },
        }
    }
}

/// Marks the body of a loop.
pub open spec fn mark_loop(t: Term, name: Name) -> (Term, bool)
    decreases t, 0nat,
{
    if t.kids.len() != 3 {
        (t, false)
    } else {
        let body = t.kids[2];
        let once = mark(body, name, false);
        if !mentions(body, name) {
            (body, false)
        } else if assigns(body, name) && settles(once.0, name) {
            once
        } else {
            (mark(body, name, true).0, true)
        }
    }
}

/// Marks the children from `i` on, the last one first.
pub open spec fn mark_from(t: Term, i: nat, name: Name, live: bool) -> (Seq<Term>, bool)
    decreases t, t.kids.len() - i,
{
    if i >= t.kids.len() {
        (Seq::empty(), false)
    } else {
        let rest = mark_from(t, i + 1, name, live);
        let k = mark(t.kids[i as int], name, live || rest.1);
        (seq![k.0] + rest.0, k.1 || rest.1)
    }
}

/// Marks the arms from `k` on, the last one first. The bodies are alternatives; a guard that
/// fails is followed by the later arms. An arm that binds the name is left as it is.
pub open spec fn mark_arms(t: Term, k: nat, name: Name, live: bool) -> (Seq<ArmTerm>, bool)
    decreases t, t.arms.len() - k,
{
    if k >= t.arms.len() {
        (Seq::empty(), false)
    } else {
        let rest = mark_arms(t, k + 1, name, live);
        let arm = t.arms[k as int];
        if arm.bindings.contains(name) {
            (seq![arm] + rest.0, rest.1)
        } else {
            let b = mark(arm.body, name, live);
            match arm.guard {
                Some(g) => {
                    let gm = mark(g, name, live || b.1 || rest.1);
                    (
                        seq![ArmTerm { guard: Some(gm.0), body: b.0, ..arm }] + rest.0,
                        gm.1 || b.1 || rest.1,
                    )
                },
                None => (seq![ArmTerm { body: b.0, ..arm }] + rest.0, b.1 || rest.1),
            }
        }
    }
}

/// Marks the first `i` bodies of a select, which are alternatives.
pub open spec fn mark_bodies(t: Term, i: nat, name: Name, live: bool) -> (Seq<Term>, bool)
    decreases t, i,
{
    if i == 0 || 2 * i > t.kids.len() {
        (Seq::empty(), false)
    } else {
        let p = mark_bodies(t, (i - 1) as nat, name, live);
        let b = mark(t.kids[2 * i - 1], name, live);
        (p.0.push(b.0), p.1 || b.1)
    }
}

/// Marks the receivers of a select from the `i`th on, the last one first.
pub open spec fn mark_receivers(t: Term, i: nat, name: Name, live: bool) -> (Seq<Term>, bool)
    decreases t, t.kids.len() - i,
{
    if 2 * i + 1 >= t.kids.len() {
        (Seq::empty(), false)
    } else {
        let rest = mark_receivers(t, i + 1, name, live);
        let r = mark(t.kids[2 * i as int], name, live || rest.1);
        (seq![r.0] + rest.0, r.1 || rest.1)
    }
}

/// The elements of two sequences in turn.
pub open spec fn interleave(a: Seq<Term>, b: Seq<Term>) -> Seq<Term> {
    Seq::new(
        2 * b.len(),
        |i: int|
            if i % 2 == 0 {
                a[i / 2]
            } else {
                b[i / 2]
            },
    )
}

/// Marks the uses of `name` in `expr`: each use that is followed by another one gets an
/// increment. `live_after` says whether the name is needed after `expr`; the result says
/// whether it is used anywhere within it.
#[verifier::rlimit(40)]
#[verifier::spinoff_prover]
pub fn mark_last_uses(expr: Expr, name: &String, live_after: bool) -> (r: (Expr, bool))
    ensures
        (r.0.term(), r.1) == mark(expr.term(), name@, live_after),
    decreases expr.term(), 1nat,
{
    let ghost t: Term = expr.term();
    let p: Parts = expr.into_parts();
    if p.names.len() > 0 {
        assert(p.names@[0]@ == t.names[0]);
    }
    proof {
        assert(p.kids@.len() == t.kids.len());
        assert forall|j: int| 0 <= j < p.kids@.len() implies (#[trigger] p.kids@[j]).term()
            == t.kids[j] by {}
    }
    match p.op {
        Op::Var => {
            if p.names[0] != *name {
                (Expr::from_parts(p), false)
            } else if live_after {
                (mk_rc(RcOp::Inc, name.clone(), Expr::from_parts(p)), true)
            } else {
                (Expr::from_parts(p), true)
            }
        },
        Op::If => {
            let mut kids: Vec<Expr> = p.kids;
            let els: Expr = kids.remove(2);
            let then: Expr = kids.remove(1);
            let cond: Expr = kids.remove(0);
            let (then, ua) = mark_last_uses(then, name, live_after);
            let (els, ub) = mark_last_uses(els, name, live_after);
            let (cond, uc) = mark_last_uses(cond, name, live_after || ua || ub);
            kids.push(cond);
            kids.push(then);
            kids.push(els);
            let q: Parts = Parts { op: p.op, names: p.names, types: p.types, kids, arms: p.arms };
            assert(terms(q.kids@) =~= mark(t, name@, live_after).0.kids);
            (Expr::from_parts(q), uc || ua || ub)
        },
        Op::Match => {
            let mut kids: Vec<Expr> = p.kids;
            let scrutinee: Expr = kids.remove(0);
            let (arms, any) = mark_match_arms(p.arms, name, live_after, Ghost(t));
            let (scrutinee, us) = mark_last_uses(scrutinee, name, live_after || any);
            kids.push(scrutinee);
            let q: Parts = Parts { op: p.op, names: p.names, types: p.types, kids, arms };
            assert(terms(q.kids@) =~= mark(t, name@, live_after).0.kids);
            (Expr::from_parts(q), us || any)
        },
        Op::For => {
            let mut kids: Vec<Expr> = p.kids;
            let body: Expr = kids.remove(2);
            let end: Expr = kids.remove(1);
            let start: Expr = kids.remove(0);
            let (body, ub) = mark_loop_body(body, name, Ghost(t));
            let (end, ue) = mark_last_uses(end, name, live_after || ub);
            let (start, us) = mark_last_uses(start, name, live_after || ub || ue);
            kids.push(start);
            kids.push(end);
            kids.push(body);
            let q: Parts = Parts { op: p.op, names: p.names, types: p.types, kids, arms: p.arms };
            assert(terms(q.kids@) =~= mark(t, name@, live_after).0.kids);
            (Expr::from_parts(q), us || ue || ub)
        },
        Op::Closure(_) => {
            let used: bool = expr_mentions_var(&p.kids[0], name);
            (Expr::from_parts(p), used)
        },
        Op::Spawn => {
            if expr_mentions_var(&p.kids[0], name) {
                let mut kids: Vec<Expr> = p.kids;
                let block: Expr = kids.remove(0);
                let (block, _u) = mark_last_uses(block, name, true);
                kids.push(block);
                let q: Parts = Parts {
                    op: p.op,
                    names: p.names,
                    types: p.types,
                    kids,
                    arms: p.arms,
                };
                assert(terms(q.kids@) =~= mark(t, name@, live_after).0.kids);
                (Expr::from_parts(q), true)
            } else {
                (Expr::from_parts(p), false)
            }
        },
        Op::Select => {
            let (kids, used) = mark_select(p.kids, name, live_after, Ghost(t));
            let q: Parts = Parts { op: p.op, names: p.names, types: p.types, kids, arms: p.arms };
            (Expr::from_parts(q), used)
        },
        Op::Assign => {
            let mut kids: Vec<Expr> = p.kids;
            let rest: Expr = kids.remove(1);
            let value: Expr = kids.remove(0);
            let (rest, ur) = mark_last_uses(rest, name, live_after);
            let live: bool = p.names[0] != *name && (ur || live_after);
            let (value, uv) = mark_last_uses(value, name, live);
            kids.push(value);
            kids.push(rest);
            let q: Parts = Parts { op: p.op, names: p.names, types: p.types, kids, arms: p.arms };
            assert(terms(q.kids@) =~= mark(t, name@, live_after).0.kids);
            (Expr::from_parts(q), ur || uv)
        },
        Op::Let => {
            let mut kids: Vec<Expr> = p.kids;
            let body: Expr = kids.remove(1);
            let value: Expr = kids.remove(0);
            let hidden: bool = p.names[0] == *name;
            let (body, ub) = if hidden {
                (body, false)
            } else {
                mark_last_uses(body, name, live_after)
            };
            let (value, uv) = mark_last_uses(value, name, live_after || ub);
            kids.push(value);
            kids.push(body);
            let q: Parts = Parts { op: p.op, names: p.names, types: p.types, kids, arms: p.arms };
            assert(terms(q.kids@) =~= mark(t, name@, live_after).0.kids);
            (Expr::from_parts(q), uv || ub)
        },
        _ => {
            let (kids, used) = mark_sequence(p.kids, name, live_after, Ghost(t));
            let q: Parts = Parts { op: p.op, names: p.names, types: p.types, kids, arms: p.arms };
            (Expr::from_parts(q), used)
        },
    }
}

/// Marks the body of a loop.
fn mark_loop_body(body: Expr, name: &String, Ghost(t): Ghost<Term>) -> (r: (Expr, bool))
    requires
        t.kids.len() == 3,
        body.term() == t.kids[2],
    ensures
        (r.0.term(), r.1) == mark_loop(t, name@),
    decreases t, 0nat,
{
    if !expr_mentions_var(&body, name) {
        return (body, false);
    }
    if expr_assigns_var(&body, name) {
        let (once, used) = mark_last_uses(body.clone(), name, false);
        if is_settled(&once, name) {
            return (once, used);
        }
    }
    let (body, _u) = mark_last_uses(body, name, true);
    (body, true)
}

/// Whether `expr` rebinds `name` on every path.
fn always_rebinds(expr: &Expr, name: &String) -> (r: bool)
    ensures
        r == rebinds(expr.term(), name@),
    decreases expr.term(),
{
    let ghost t: Term = expr.term();
    let p = expr.parts();
    if p.names.len() > 0 {
        assert(p.names@[0]@ == t.names[0]);
    }
    proof {
        assert forall|j: int| 0 <= j < p.kids@.len() implies (#[trigger] p.kids@[j]).term()
            == t.kids[j] by {}
    }
    match p.op {
        Op::Var | Op::Closure(_) | Op::Spawn | Op::Select => false,
        Op::Assign => *p.names[0] == *name || always_rebinds(p.kids[0], name) || always_rebinds(
            p.kids[1],
            name,
        ),
        Op::Let => always_rebinds(p.kids[0], name) || (*p.names[0] != *name && always_rebinds(
            p.kids[1],
            name,
        )),
        Op::If => always_rebinds(p.kids[0], name) || (always_rebinds(p.kids[1], name)
            && always_rebinds(p.kids[2], name)),
        Op::For => always_rebinds(p.kids[0], name) || always_rebinds(p.kids[1], name),
        Op::Match => {
            if always_rebinds(p.kids[0], name) {
                return true;
            }
            let mut k: usize = 0;
            while k < p.arms.len()
                invariant
                    t == expr.term(),
                    p.term() == t,
                    p.op == t.op,
                    t.op == Op::Match,
                    shaped(t),
                    !rebinds(t.kids[0], name@),
                    k <= p.arms@.len(),
                    forall|j: int| 0 <= j < k ==> rebinds_arm(#[trigger] t.arms[j], name@),
                decreases p.arms@.len() - k,
            {
                let arm: &MatchArm = p.arms[k];
                proof {
                    assert(t.arms[k as int] == arm_term(*arm));
                    assert(decreases_to!(t => t.arms[k as int]));
                    arm_decreases(t.arms[k as int]);
                }
                if !arm_always_rebinds(arm, name) {
                    return false;
                }
                k += 1;
            }
            p.arms.len() > 0
        },
        _ => {
            let mut i: usize = 0;
            while i < p.kids.len()
                invariant
                    t == expr.term(),
                    p.term() == t,
                    p.op == t.op,
                    shaped(t),
                    in_turn(t.op),
                    i <= p.kids@.len(),
                    forall|j: int| 0 <= j < i ==> !rebinds(#[trigger] t.kids[j], name@),
                decreases p.kids@.len() - i,
            {
                assert(p.kids@[i as int].term() == t.kids[i as int]);
                if always_rebinds(p.kids[i], name) {
                    return true;
                }
                i += 1;
            }
            false
        },
    }
}

/// Whether an arm rebinds `name` on every path through it.
fn arm_always_rebinds(arm: &MatchArm, name: &String) -> (r: bool)
    ensures
        r == rebinds_arm(arm_term(*arm), name@),
    decreases arm_term(*arm),
{
    proof {
        arm_decreases(arm_term(*arm));
    }
    if contains_name(&arm.bindings, name) {
        return false;
    }
    if let Some(g) = &arm.guard {
        if always_rebinds(g, name) {
            return true;
        }
    }
    always_rebinds(&arm.body, name)
}

/// The operators whose children are evaluated in turn, and nothing else with them.
spec fn in_turn(op: Op) -> bool {
    match op {
        Op::Var | Op::Closure(_) | Op::Spawn | Op::Select | Op::Assign | Op::Let | Op::If | Op::For
        | Op::Match => false,
        _ => true,
    }
}

/// Whether one of the children from place `from` on rebinds `name` on every path.
fn later_rebinds(kids: &Vec<&Expr>, from: usize, name: &String, Ghost(t): Ghost<Term>) -> (r: bool)
    requires
        kids@.len() == t.kids.len(),
        forall|j: int| 0 <= j < kids@.len() ==> (#[trigger] kids@[j]).term() == t.kids[j],
    ensures
        r == some_rebinds(t.kids, from as int, name@),
{
    let mut i: usize = from;
    while i < kids.len()
        invariant
            from <= i,
            i <= kids@.len() || i == from,
            kids@.len() == t.kids.len(),
            forall|j: int| 0 <= j < kids@.len() ==> (#[trigger] kids@[j]).term() == t.kids[j],
            forall|j: int| from <= j < i && j < kids@.len() ==> !rebinds(#[trigger] t.kids[j], name@),
        decreases kids@.len() - i,
    {
        assert(kids@[i as int].term() == t.kids[i as int]);
        if always_rebinds(kids[i], name) {
            return true;
        }
        i += 1;
    }
    false
}

/// Whether all of the arms from place `from` on rebind `name` on every path.
fn later_arms_rebind(arms: &Vec<&MatchArm>, from: usize, name: &String, Ghost(t): Ghost<Term>) -> (r:
    bool)
    requires
        arms@.len() == t.arms.len(),
        forall|j: int| 0 <= j < arms@.len() ==> arm_term(*#[trigger] arms@[j]) == t.arms[j],
    ensures
        r == arms_rebind(t.arms, from as int, name@),
{
    let mut k: usize = from;
    while k < arms.len()
        invariant
            from <= k,
            k <= arms@.len() || k == from,
            arms@.len() == t.arms.len(),
            forall|j: int| 0 <= j < arms@.len() ==> arm_term(*#[trigger] arms@[j]) == t.arms[j],
            forall|j: int| from <= j < k && j < arms@.len() ==> rebinds_arm(#[trigger] t.arms[j], name@),
        decreases arms@.len() - k,
    {
        assert(arm_term(*arms@[k as int]) == t.arms[k as int]);
        if !arm_always_rebinds(arms[k], name) {
            return false;
        }
        k += 1;
    }
    true
}

/// Whether child `i` of `expr` is the variable `name`, and only read.
fn is_just_read(expr: &Expr, i: usize, name: &String) -> (r: bool)
    requires
        i < expr.term().kids.len(),
    ensures
        r == just_read(expr.term(), i as int, name@),
{
    let ghost t: Term = expr.term();
    let p = expr.parts();
    assert(p.kids@[i as int].term() == t.kids[i as int]);
    reads_only(p.op) && is_bare_var(p.kids[i], name) && !may_be_taken(expr, i, name)
}

/// Whether `expr` rebinds `name` wherever it spends it.
#[verifier::rlimit(30)]
fn is_settled(expr: &Expr, name: &String) -> (r: bool)
    ensures
        r == settles(expr.term(), name@),
    decreases expr.term(),
{
    let ghost t: Term = expr.term();
    let p = expr.parts();
    if p.names.len() > 0 {
        assert(p.names@[0]@ == t.names[0]);
    }
    proof {
        assert forall|j: int| 0 <= j < p.kids@.len() implies (#[trigger] p.kids@[j]).term()
            == t.kids[j] by {}
        assert(p.arms@.len() == t.arms.len());
        assert forall|j: int| 0 <= j < p.arms@.len() implies arm_term(*#[trigger] p.arms@[j])
            == t.arms[j] by {}
    }
    match p.op {
        Op::Var => *p.names[0] != *name,
        Op::Closure(_) => true,
        Op::RcAnnotated(op) => {
            let own: bool = *p.names[0] == *name;
            if own && op == RcOp::Inc && is_bare_var(p.kids[0], name) {
                true
            } else {
                (!own || op == RcOp::Inc) && is_settled(p.kids[0], name)
            }
        },
        Op::Assign => {
            if *p.names[0] == *name {
                is_settled(p.kids[1], name)
            } else {
                (is_settled(p.kids[0], name) || always_rebinds(p.kids[1], name)) && is_settled(
                    p.kids[1],
                    name,
                )
            }
        },
        Op::Let => {
            if *p.names[0] == *name {
                is_settled(p.kids[0], name)
            } else {
                (is_settled(p.kids[0], name) || always_rebinds(p.kids[1], name)) && is_settled(
                    p.kids[1],
                    name,
                )
            }
        },
        Op::If => {
            (is_settled(p.kids[0], name) || (always_rebinds(p.kids[1], name) && always_rebinds(
                p.kids[2],
                name,
            ))) && is_settled(p.kids[1], name) && is_settled(p.kids[2], name)
        },
        Op::For => {
            (is_settled(p.kids[0], name) || always_rebinds(p.kids[1], name)) && is_settled(
                p.kids[1],
                name,
            ) && (*p.names[0] == *name || is_settled(p.kids[2], name))
        },
        Op::Match => {
            let first: bool = is_just_read(expr, 0, name) || is_settled(p.kids[0], name) || (
            p.arms.len() > 0 && later_arms_rebind(&p.arms, 0, name, Ghost(t)));
            if !first {
                return false;
            }
            let mut k: usize = 0;
            while k < p.arms.len()
                invariant
                    t == expr.term(),
                    p.term() == t,
                    p.op == t.op,
                    t.op == Op::Match,
                    shaped(t),
                    first == (just_read(t, 0, name@) || settles(t.kids[0], name@) || (t.arms.len()
                        > 0 && arms_rebind(t.arms, 0, name@))),
                    first,
                    k <= p.arms@.len(),
                    p.arms@.len() == t.arms.len(),
                    forall|j: int|
                        0 <= j < p.arms@.len() ==> arm_term(*#[trigger] p.arms@[j]) == t.arms[j],
                    forall|j: int|
                        0 <= j < k ==> settles_arm(
                            #[trigger] t.arms[j],
                            arms_rebind(t.arms, j + 1, name@),
                            name@,
                        ),
                decreases p.arms@.len() - k,
            {
                let arm: &MatchArm = p.arms[k];
                let later: bool = later_arms_rebind(&p.arms, k + 1, name, Ghost(t));
                proof {
                    assert(t.arms[k as int] == arm_term(*arm));
                    assert(settles(t, name@) ==> settles_arm(t.arms[k as int], later, name@));
                    assert(decreases_to!(t => t.arms[k as int]));
                    arm_decreases(t.arms[k as int]);
                }
                if !contains_name(&arm.bindings, name) {
                    if let Some(g) = &arm.guard {
                        if !is_settled(g, name) && !(later && always_rebinds(&arm.body, name)) {
                            return false;
                        }
                    }
                    if !is_settled(&arm.body, name) {
                        return false;
                    }
                }
                k += 1;
            }
            true
        },
        Op::Spawn | Op::Select => {
            let mut i: usize = 0;
            while i < p.kids.len()
                invariant
                    t == expr.term(),
                    p.term() == t,
                    p.op == t.op,
                    t.op == Op::Spawn || t.op == Op::Select,
                    shaped(t),
                    i <= p.kids@.len(),
                    forall|j: int| 0 <= j < i ==> settles(#[trigger] t.kids[j], name@),
                decreases p.kids@.len() - i,
            {
                assert(p.kids@[i as int].term() == t.kids[i as int]);
                if !is_settled(p.kids[i], name) {
                    return false;
                }
                i += 1;
            }
            true
        },
        _ => {
            if is_reuse(p.op) && *p.names[0] == *name {
                return false;
            }
            let mut i: usize = 0;
            while i < p.kids.len()
                invariant
                    t == expr.term(),
                    p.term() == t,
                    p.op == t.op,
                    in_turn(t.op) && !(t.op is RcAnnotated),
                    shaped(t),
                    !claims(t, name@),
                    i <= p.kids@.len(),
                    p.kids@.len() == t.kids.len(),
                    forall|j: int|
                        0 <= j < p.kids@.len() ==> (#[trigger] p.kids@[j]).term() == t.kids[j],
                    forall|j: int|
                        0 <= j < i ==> settles(#[trigger] t.kids[j], name@) || just_read(
                            t,
                            j,
                            name@,
                        ) || some_rebinds(t.kids, j + 1, name@),
                decreases p.kids@.len() - i,
            {
                assert(p.kids@[i as int].term() == t.kids[i as int]);
                assert(settles(t, name@) ==> settles(t.kids[i as int], name@) || just_read(
                    t,
                    i as int,
                    name@,
                ) || some_rebinds(t.kids, i + 1, name@));
                if !is_settled(p.kids[i], name) && !is_just_read(expr, i, name) && !later_rebinds(
                    &p.kids,
                    i + 1,
                    name,
                    Ghost(t),
                ) {
                    return false;
                }
                i += 1;
            }
            true
        },
    }
}

/// Marks children that are evaluated in order.
fn mark_sequence(kids: Vec<Expr>, name: &String, live: bool, Ghost(t): Ghost<Term>) -> (r: (
    Vec<Expr>,
    bool,
))
    requires
        terms(kids@) == t.kids,
    ensures
        (terms(r.0@), r.1) == mark_from(t, 0, name@, live),
        r.0@.len() == t.kids.len(),
    decreases t, 0nat,
{
    let mut kids: Vec<Expr> = kids;
    assert forall|j: int| 0 <= j < kids@.len() implies (#[trigger] kids@[j]).term() == t.kids[j] by {
        assert(terms(kids@)[j] == t.kids[j]);
    }
    assert(terms(kids@).len() == kids@.len());
    let mut used: bool = false;
    let mut i: usize = kids.len();
    while i > 0
        invariant
            i <= kids@.len(),
            kids@.len() == t.kids.len(),
            forall|j: int| 0 <= j < i ==> (#[trigger] kids@[j]).term() == t.kids[j],
            mark_from(t, i as nat, name@, live).0.len() == kids@.len() - i,
            forall|j: int|
                i <= j < kids@.len() ==> (#[trigger] kids@[j]).term() == mark_from(
                    t,
                    i as nat,
                    name@,
                    live,
                ).0[j - i],
            used == mark_from(t, i as nat, name@, live).1,
        decreases i,
    {
        let ghost after: (Seq<Term>, bool) = mark_from(t, i as nat, name@, live);
        i -= 1;
        let kid: Expr = take_at(&mut kids, i);
        assert(decreases_to!(t => t.kids[i as int]));
        let (kid, u) = mark_last_uses(kid, name, live || used);
        kids.set(i, kid);
        used = u || used;
        assert(mark_from(t, i as nat, name@, live).0 == seq![kid.term()] + after.0);
        assert forall|j: int| i <= j < kids@.len() implies (#[trigger] kids@[j]).term()
            == mark_from(t, i as nat, name@, live).0[j - i] by {
            if j > i {
                assert(kids@[j].term() == after.0[j - (i + 1)]);
            }
        }
    }
    assert(terms(kids@) =~= mark_from(t, 0, name@, live).0);
    (kids, used)
}

/// Marks the arms of a match.
fn mark_match_arms(arms: Vec<MatchArm>, name: &String, live: bool, Ghost(t): Ghost<Term>) -> (r: (
    Vec<MatchArm>,
    bool,
))
    requires
        arm_terms(arms@) == t.arms,
    ensures
        (arm_terms(r.0@), r.1) == mark_arms(t, 0, name@, live),
        r.0@.len() == t.arms.len(),
    decreases t, 0nat,
{
    let mut arms: Vec<MatchArm> = arms;
    assert forall|j: int| 0 <= j < arms@.len() implies arm_term(#[trigger] arms@[j])
        == t.arms[j] by {
        assert(arm_terms(arms@)[j] == t.arms[j]);
    }
    assert(arm_terms(arms@).len() == arms@.len());
    let mut any: bool = false;
    let mut k: usize = arms.len();
    while k > 0
        invariant
            k <= arms@.len(),
            arms@.len() == t.arms.len(),
            forall|j: int| 0 <= j < k ==> arm_term(#[trigger] arms@[j]) == t.arms[j],
            mark_arms(t, k as nat, name@, live).0.len() == arms@.len() - k,
            forall|j: int|
                k <= j < arms@.len() ==> arm_term(#[trigger] arms@[j]) == mark_arms(
                    t,
                    k as nat,
                    name@,
                    live,
                ).0[j - k],
            any == mark_arms(t, k as nat, name@, live).1,
        decreases k,
    {
        let ghost after: (Seq<ArmTerm>, bool) = mark_arms(t, k as nat, name@, live);
        k -= 1;
        proof {
            assert(decreases_to!(t => t.arms[k as int]));
            arm_decreases(t.arms[k as int]);
        }
        assert(arm_term(arms@[k as int]) == t.arms[k as int]);
        if !contains_name(&arms[k].bindings, name) {
            let arm: MatchArm = take_arm_at(&mut arms, k);
            let (body, ub) = mark_last_uses(arm.body, name, live);
            let (guard, ug) = match arm.guard {
                Some(g) => {
                    let (g, u) = mark_last_uses(*g, name, live || ub || any);
                    (Some(Box::new(g)), u)
                },
                None => (None, false),
            };
            let done: MatchArm = MatchArm { tag: arm.tag, bindings: arm.bindings, guard, body };
            arms.set(k, done);
            any = ug || ub || any;
        }
        assert(mark_arms(t, k as nat, name@, live).0 == seq![arm_term(arms@[k as int])] + after.0);
        assert forall|j: int| k <= j < arms@.len() implies arm_term(#[trigger] arms@[j])
            == mark_arms(t, k as nat, name@, live).0[j - k] by {
            if j > k {
                assert(arm_term(arms@[j]) == after.0[j - (k + 1)]);
            }
        }
    }
    assert(arm_terms(arms@) =~= mark_arms(t, 0, name@, live).0);
    (arms, any)
}

/// Marks the receivers and bodies of a select.
#[verifier::rlimit(40)]
#[verifier::spinoff_prover]
fn mark_select(kids: Vec<Expr>, name: &String, live: bool, Ghost(t): Ghost<Term>) -> (r: (
    Vec<Expr>,
    bool,
))
    requires
        terms(kids@) == t.kids,
        shaped(t),
        t.op == Op::Select,
    ensures
        terms(r.0@) == mark(t, name@, live).0.kids,
        r.1 == mark(t, name@, live).1,
    decreases t, 0nat,
{
    let mut kids: Vec<Expr> = kids;
    assert forall|j: int| 0 <= j < kids@.len() implies (#[trigger] kids@[j]).term() == t.kids[j] by {
        assert(terms(kids@)[j] == t.kids[j]);
    }
    assert(terms(kids@).len() == kids@.len());
    let len: usize = kids.len();
    let n: usize = len / 2;
    let mut any: bool = false;
    let mut i: usize = 0;
    while i < n
        invariant
            i <= n,
            len == 2 * n,
            kids@.len() == len,
            kids@.len() == t.kids.len(),
            forall|j: int|
                0 <= j < kids@.len() && (j >= 2 * i || j % 2 == 0) ==> (#[trigger] kids@[j]).term()
                    == t.kids[j],
            mark_bodies(t, i as nat, name@, live).0.len() == i,
            forall|j: int|
                0 <= j < 2 * i && j % 2 == 1 ==> (#[trigger] kids@[j]).term() == mark_bodies(
                    t,
                    i as nat,
                    name@,
                    live,
                ).0[j / 2],
            any == mark_bodies(t, i as nat, name@, live).1,
        decreases n - i,
    {
        let ghost before: (Seq<Term>, bool) = mark_bodies(t, i as nat, name@, live);
        let at: usize = 2 * i + 1;
        let kid: Expr = take_at(&mut kids, at);
        assert(decreases_to!(t => t.kids[at as int]));
        let (kid, u) = mark_last_uses(kid, name, live);
        kids.set(at, kid);
        any = any || u;
        i += 1;
        assert(mark_bodies(t, i as nat, name@, live).0 == before.0.push(kid.term()));
        assert forall|j: int| 0 <= j < 2 * i && j % 2 == 1 implies (#[trigger] kids@[j]).term()
            == mark_bodies(t, i as nat, name@, live).0[j / 2] by {
            if j < at {
                assert(kids@[j].term() == before.0[j / 2]);
            }
        }
    }
    let ghost b: (Seq<Term>, bool) = mark_bodies(t, n as nat, name@, live);
    let outer: bool = live || any;
    let mut used: bool = false;
    let mut i: usize = n;
    assert(mark_receivers(t, n as nat, name@, outer).0.len() == 0);
    while i > 0
        invariant
            i <= n,
            len == 2 * n,
            kids@.len() == len,
            kids@.len() == t.kids.len(),
            b == mark_bodies(t, n as nat, name@, live),
            b.0.len() == n,
            forall|j: int|
                0 <= j < kids@.len() && j % 2 == 1 ==> (#[trigger] kids@[j]).term() == b.0[j / 2],
            forall|j: int|
                0 <= j < 2 * i && j % 2 == 0 ==> (#[trigger] kids@[j]).term() == t.kids[j],
            mark_receivers(t, i as nat, name@, outer).0.len() == n - i,
            forall|j: int|
                2 * i <= j < kids@.len() && j % 2 == 0 ==> (#[trigger] kids@[j]).term()
                    == mark_receivers(t, i as nat, name@, outer).0[j / 2 - i],
            used == mark_receivers(t, i as nat, name@, outer).1,
        decreases i,
    {
        let ghost after: (Seq<Term>, bool) = mark_receivers(t, i as nat, name@, outer);
        i -= 1;
        let at: usize = 2 * i;
        let kid: Expr = take_at(&mut kids, at);
        assert(decreases_to!(t => t.kids[at as int]));
        let (kid, u) = mark_last_uses(kid, name, outer || used);
        kids.set(at, kid);
        used = u || used;
        assert(mark_receivers(t, i as nat, name@, outer).0 == seq![kid.term()] + after.0);
        assert forall|j: int| 2 * i <= j < kids@.len() && j % 2 == 0 implies (
        #[trigger] kids@[j]).term() == mark_receivers(t, i as nat, name@, outer).0[j / 2 - i] by {
            if j > at {
                assert(kids@[j].term() == after.0[j / 2 - (i + 1)]);
            }
        }
    }
    let ghost r: (Seq<Term>, bool) = mark_receivers(t, 0, name@, outer);
    assert(terms(kids@) =~= interleave(r.0, b.0));
    (kids, any || used)
}

} // verus!
