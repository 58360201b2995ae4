//! Release of values that a match arm took out of a cell.
//!
//! A match arm owns what it binds. A binding that is used once, and only read, is released
//! at the end of the arm. Which fields are counted is known from outside, by tag.

use vstd::prelude::*;
use crate::ir::{
    arm_decreases, arm_term, arm_terms, guard_term, names_of, take_arm_at, take_at, terms, ArmTerm,
    Expr, MatchArm, Name, Parts, Term,
};
use crate::names::NameMap;
use super::refcount::{borrowed_once, drop_at_scope_end, is_borrowed_once, scope_end_drop};
use super::uses::{expr_mentions_var, mentions};

verus! {

/// Which fields of a tag hold counted references; none of an unknown tag.
pub open spec fn counted_fields(tag_heap: Map<Name, Vec<bool>>, tag: Name) -> Seq<bool> {
    if tag_heap.dom().contains(tag) {
        tag_heap[tag]@
    } else {
        Seq::empty()
    }
}

/// The body of an arm with those of the first `i` bindings released that are counted, not
/// used in the guard, and read exactly once.
pub open spec fn release_upto(arm: ArmTerm, fields: Seq<bool>, i: nat) -> Term
    decreases i,
{
    if i == 0 {
        arm.body
    } else {
        let body = release_upto(arm, fields, (i - 1) as nat);
        let name = arm.bindings[i - 1];
        if i <= fields.len() && fields[i - 1] && !(arm.guard matches Some(g) && mentions(g, name))
            && borrowed_once(body, name) {
            scope_end_drop(body, name)
        } else {
            body
        }
    }
}

/// Releases match bindings throughout a term.
pub open spec fn released(t: Term, tag_heap: Map<Name, Vec<bool>>) -> Term
    decreases t,
{
    Term {
        kids: Seq::new(
            t.kids.len(),
            |i: int|
                if 0 <= i < t.kids.len() {
                    released(t.kids[i], tag_heap)
                } else {
                    t
                },
        ),
        arms: Seq::new(
            t.arms.len(),
            |k: int|
                if 0 <= k < t.arms.len() {
                    released_arm(t.arms[k], tag_heap)
                } else {
                    arbitrary()
                },
        ),
        ..t
    }
}

/// Releases the bindings of an arm, after those inside it.
pub open spec fn released_arm(arm: ArmTerm, tag_heap: Map<Name, Vec<bool>>) -> ArmTerm
    decreases arm,
{
    let inner = ArmTerm {
        guard: match arm.guard {
            Some(g) => Some(released(g, tag_heap)),
            None => None,
        },
        body: released(arm.body, tag_heap),
        ..arm
    };
    ArmTerm {
        body: release_upto(
            inner,
            counted_fields(tag_heap, arm.tag),
            arm.bindings.len(),
        ),
        ..inner
    }
}

/// Releases each binding of a match arm that is used once and only read, throughout
/// `expr`. `tag_heap` tells, by tag, which fields hold counted references.
pub fn release_match_bindings(expr: Expr, tag_heap: &NameMap<Vec<bool>>) -> (r: Expr)
    ensures
        r.term() == released(expr.term(), tag_heap@),
    decreases expr.term(), 1nat,
{
    let ghost t: Term = expr.term();
    let p: Parts = expr.into_parts();
    proof {
        assert(p.kids@.len() == t.kids.len());
        assert forall|j: int| 0 <= j < p.kids@.len() implies (#[trigger] p.kids@[j]).term()
            == t.kids[j] by {}
        assert(p.arms@.len() == t.arms.len());
        assert forall|j: int| 0 <= j < p.arms@.len() implies arm_term(#[trigger] p.arms@[j])
            == t.arms[j] by {}
    }
    let ghost goal: Term = released(t, tag_heap@);
    let mut kids: Vec<Expr> = p.kids;
    let mut i: usize = 0;
    while i < kids.len()
        invariant
            t == expr.term(),
            i <= kids@.len(),
            kids@.len() == t.kids.len(),
            forall|j: int| i <= j < kids@.len() ==> (#[trigger] kids@[j]).term() == t.kids[j],
            forall|j: int|
                0 <= j < i ==> (#[trigger] kids@[j]).term() == released(t.kids[j], tag_heap@),
        decreases kids@.len() - i,
    {
        let kid: Expr = take_at(&mut kids, i);
        let kid: Expr = release_match_bindings(kid, tag_heap);
        kids.set(i, kid);
        i += 1;
    }
    assert(terms(kids@) =~= goal.kids);
    let mut arms: Vec<MatchArm> = p.arms;
    let mut k: usize = 0;
    while k < arms.len()
        invariant
            t == expr.term(),
            k <= arms@.len(),
            arms@.len() == t.arms.len(),
            forall|j: int| k <= j < arms@.len() ==> arm_term(#[trigger] arms@[j]) == t.arms[j],
            forall|j: int|
                0 <= j < k ==> arm_term(#[trigger] arms@[j]) == released_arm(t.arms[j], tag_heap@),
        decreases arms@.len() - k,
    {
        let arm: MatchArm = take_arm_at(&mut arms, k);
        assert(decreases_to!(t => t.arms[k as int]));
        arms.set(k, release_arm(arm, tag_heap));
        k += 1;
    }
    assert(arm_terms(arms@) =~= goal.arms);
    let q: Parts = Parts { op: p.op, names: p.names, types: p.types, kids, arms };
    assert(q.term() == goal);
    Expr::from_parts(q)
}

fn release_arm(arm: MatchArm, tag_heap: &NameMap<Vec<bool>>) -> (r: MatchArm)
    ensures
        arm_term(r) == released_arm(arm_term(arm), tag_heap@),
    decreases arm_term(arm), 0nat,
{
    let ghost a: ArmTerm = arm_term(arm);
    proof {
        arm_decreases(a);
    }
    let guard: Option<Box<Expr>> = match arm.guard {
        Some(g) => Some(Box::new(release_match_bindings(*g, tag_heap))),
        None => None,
    };
    let mut body: Expr = release_match_bindings(arm.body, tag_heap);
    let ghost fields: Seq<bool> = counted_fields(tag_heap@, a.tag);
    let ghost inner: ArmTerm = ArmTerm { guard: guard_term(guard), body: body.term(), ..a };
    match tag_heap.get(&arm.tag) {
        Some(heap) => {
            let mut i: usize = 0;
            while i < arm.bindings.len()
                invariant
                    i <= arm.bindings@.len(),
                    inner.bindings == names_of(arm.bindings@),
                    inner.guard == guard_term(guard),
                    fields == heap@,
                    body.term() == release_upto(inner, fields, i as nat),
                decreases arm.bindings@.len() - i,
            {
                let name: &String = &arm.bindings[i];
                assert(inner.bindings[i as int] == name@);
                let in_guard: bool = match &guard {
                    Some(g) => expr_mentions_var(g, name),
                    None => false,
                };
                if i < heap.len() && heap[i] && !in_guard && is_borrowed_once(&body, name) {
                    body = drop_at_scope_end(body, name);
                }
                i += 1;
            }
        },
        None => {
            proof {
                nothing_counted(inner, a.bindings.len());
            }
        },
    }
    MatchArm { tag: arm.tag, bindings: arm.bindings, guard, body }
}

proof fn nothing_counted(arm: ArmTerm, i: nat)
    ensures
        release_upto(arm, Seq::empty(), i) == arm.body,
    decreases i,
{
    if i > 0 {
        nothing_counted(arm, (i - 1) as nat);
    }
}

} // verus!
