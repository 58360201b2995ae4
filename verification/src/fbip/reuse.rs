//! Reuse of memory in place.
//!
//! An operation that reads a known variable and yields a cell of the same kind may build
//! its result in the memory of that variable, if nothing else refers to it at run time.
//! Only known names qualify: for any other name no one has counted the references that a
//! second use would need.

use vstd::prelude::*;
use crate::ir::{
    arm_decreases, arm_term, arm_terms, names_of, shaped, t_rc, t_var, take_arm_at, take_at, terms,
    ArmTerm, Expr, MatchArm, Name, Op, Parts, RcOp, Term,
};
use crate::names::{contains_name, join_text, NameSet};
use super::refcount::{
    arm_scope, body_scope, drop_name, is_heap, is_syntactically_heap, known_in_body,
    scope_end_drop,
};
use super::uses::{reuses, reuses_name};

verus! {

/// The operator that does the same in the memory of its first operand.
pub open spec fn in_place(op: Op) -> Option<Op> {
    match op {
        Op::ArrayPush => Some(Op::ArrayPushReuse),
        Op::ArrayPop => Some(Op::ArrayPopReuse),
        Op::ArraySet => Some(Op::ArraySetReuse),
        Op::ArrayRemove => Some(Op::ArrayRemoveReuse),
        Op::StrConcat => Some(Op::StrConcatReuse),
        Op::StrTrim => Some(Op::StrTrimReuse),
        Op::StrToUpper => Some(Op::StrToUpperReuse),
        Op::StrToLower => Some(Op::StrToLowerReuse),
        Op::StrReplace => Some(Op::StrReplaceReuse),
        _ => None,
    }
}

/// Whether a term is a known variable.
pub open spec fn is_tracked_var(t: Term, heap: Set<Name>) -> bool {
    t == t_var(t.names[0]) && heap.contains(t.names[0])
}

/// Takes the release of `name` at the end of the scope off a term, if it has one.
pub open spec fn strip(t: Term, name: Name) -> Term {
    if t.kids.len() == 2 && t == scope_end_drop(t.kids[0], name) {
        t.kids[0]
    } else {
        t
    }
}

/// The body of an arm that took the cell `target` apart: a constructor with as many fields
/// as the arm bound is built in that cell.
pub open spec fn rebuild(target: Option<Name>, arity: nat, body: Term) -> Term {
    match target {
        Some(name) if body.op == Op::Ctor && arity > 0 && body.kids.len() == arity => Term {
            op: Op::CtorReuse,
            names: seq![name] + body.names,
            ..body
        },
        _ => body,
    }
}

/// `heap` without those of the parameters that are not in `given`.
pub open spec fn hiding(heap: Set<Name>, params: Seq<Name>, given: Set<Name>) -> Set<Name>
    decreases params.len(),
{
    if params.len() == 0 {
        heap
    } else {
        let rest = hiding(heap, params.drop_last(), given);
        if given.contains(params.last()) {
            rest
        } else {
            rest.remove(params.last())
        }
    }
}

/// Hiding adds no name.
pub proof fn hiding_adds_nothing(
    heap: Set<Name>,
    params: Seq<Name>,
    given: Set<Name>,
    name: Name,
)
    ensures
        hiding(heap, params, given).contains(name) ==> heap.contains(name),
    decreases params.len(),
{
    if params.len() > 0 {
        hiding_adds_nothing(heap, params.drop_last(), given, name);
    }
}

/// The names known to hold heap values in child `i` of a node other than a `Let`. A loop
/// variable hides an outer name, and so does a parameter of a closure, unless its name is
/// among those that were `given` as known.
pub open spec fn reuse_scope(heap: Set<Name>, t: Term, i: int, given: Set<Name>) -> Set<Name> {
    match t.op {
        Op::For if i == 2 => heap.remove(t.names[0]),
        Op::Closure(_) => hiding(heap, t.names, given),
        _ => heap,
    }
}

/// Whether the body of an arm can be built in a cell that the arm took apart.
pub open spec fn may_rebuild(arm: ArmTerm) -> bool {
    arm.body.op == Op::Ctor && arm.bindings.len() > 0 && arm.body.kids.len() == arm.bindings.len()
}

/// Whether the result of a node can be built in the memory of the variable `name` at place `i`.
pub open spec fn may_take(t: Term, i: int, name: Name) -> bool {
    &&& i == 0
    &&& {
        ||| in_place(t.op) is Some
        ||| t.op == Op::Match && exists|k: int|
            0 <= k < t.arms.len() && may_rebuild(#[trigger] t.arms[k])
                && !t.arms[k].bindings.contains(name)
    }
}

/// Marks the places in a term where memory can be reused, when the names in `heap` are
/// known, those in `given` from the outset. A value that is reused is not released at the end
/// of its scope as well.
pub open spec fn reused(t: Term, heap: Set<Name>, given: Set<Name>) -> Term
    decreases t,
{
    if t.op == Op::Let && t.kids.len() == 2 {
        let value = reused(t.kids[0], heap, given);
        let body = reused(t.kids[1], body_scope(heap, t.names[0], is_heap(t.kids[0], heap)), given);
        Term {
            kids: seq![
                value,
                if reuses(body, t.names[0]) {
                    strip(body, t.names[0])
                } else {
                    body
                },
            ],
            ..t
        }
    } else {
        let kids = Seq::new(
            t.kids.len(),
            |i: int|
                if 0 <= i < t.kids.len() {
                    reused(t.kids[i], reuse_scope(heap, t, i, given), given)
                } else {
                    t
                },
        );
        if in_place(t.op) is Some && t.kids.len() > 0 && is_tracked_var(t.kids[0], heap) {
            Term {
                op: in_place(t.op)->0,
                names: seq![t.kids[0].names[0]] + t.names,
                kids: kids.drop_first(),
                ..t
            }
        } else {
            let target = if t.kids.len() > 0 && is_tracked_var(t.kids[0], heap) {
                Some(t.kids[0].names[0])
            } else {
                None
            };
            Term {
                kids,
                arms: Seq::new(
                    t.arms.len(),
                    |k: int|
                        if 0 <= k < t.arms.len() {
                            reused_arm(t.arms[k], target, heap, given)
                        } else {
                            arbitrary()
                        },
                ),
                ..t
            }
        }
    }
}

/// The cell that the body of an arm can be built in: the one that the arm took apart, unless
/// the arm hides its name.
pub open spec fn arm_target(target: Option<Name>, arm: ArmTerm) -> Option<Name> {
    match target {
        Some(name) if arm.bindings.contains(name) => None,
        _ => target,
    }
}

/// Marks the places in an arm where memory can be reused.
pub open spec fn reused_arm(
    arm: ArmTerm,
    target: Option<Name>,
    heap: Set<Name>,
    given: Set<Name>,
) -> ArmTerm
    decreases arm,
{
    ArmTerm {
        guard: match arm.guard {
            Some(g) => Some(reused(g, arm_scope(heap, arm), given)),
            None => None,
        },
        body: rebuild(
            arm_target(target, arm),
            arm.bindings.len(),
            reused(arm.body, arm_scope(heap, arm), given),
        ),
        ..arm
    }
}

/// The model of an optional name.
pub open spec fn name_in(n: Option<String>) -> Option<Name> {
    match n {
        Some(s) => Some(s@),
        None => None,
    }
}

fn in_place_of(op: Op) -> (r: Option<Op>)
    ensures
        r == in_place(op),
{
    match op {
        Op::ArrayPush => Some(Op::ArrayPushReuse),
        Op::ArrayPop => Some(Op::ArrayPopReuse),
        Op::ArraySet => Some(Op::ArraySetReuse),
        Op::ArrayRemove => Some(Op::ArrayRemoveReuse),
        Op::StrConcat => Some(Op::StrConcatReuse),
        Op::StrTrim => Some(Op::StrTrimReuse),
        Op::StrToUpper => Some(Op::StrToUpperReuse),
        Op::StrToLower => Some(Op::StrToLowerReuse),
        Op::StrReplace => Some(Op::StrReplaceReuse),
        _ => None,
    }
}

/// Whether the result of `expr` can be built in the memory of the variable `name` at place
/// `i`.
pub fn may_be_taken(expr: &Expr, i: usize, name: &String) -> (r: bool)
    ensures
        r == may_take(expr.term(), i as int, name@),
{
    let ghost t: Term = expr.term();
    let p = expr.parts();
    if i != 0 {
        return false;
    }
    if in_place_of(p.op).is_some() {
        return true;
    }
    if p.op != Op::Match {
        return false;
    }
    let mut k: usize = 0;
    while k < p.arms.len()
        invariant
            i == 0,
            t == expr.term(),
            p.term() == t,
            t.op == Op::Match,
            k <= p.arms@.len(),
            forall|j: int|
                0 <= j < k ==> !(may_rebuild(#[trigger] t.arms[j]) && !t.arms[j].bindings.contains(
                    name@,
                )),
        decreases p.arms@.len() - k,
    {
        let arm: &MatchArm = p.arms[k];
        assert(t.arms[k as int] == arm_term(*arm));
        let body = arm.body.parts();
        if body.op == Op::Ctor && arm.bindings.len() > 0 && body.kids.len() == arm.bindings.len()
            && !contains_name(&arm.bindings, name) {
            assert(may_rebuild(t.arms[k as int]));
            return true;
        }
        k += 1;
    }
    false
}

/// A variable is determined by its name.
pub(crate) proof fn var_is_t_var(t: Term)
    requires
        shaped(t),
        t.op == Op::Var,
    ensures
        t == t_var(t.names[0]),
{
    assert(t.names =~= seq![t.names[0]]);
    assert(t.kids =~= Seq::empty());
    assert(t.arms =~= Seq::empty());
}

/// What makes a node a release at the end of the scope.
proof fn drop_is_scope_end_drop(t: Term, name: Name)
    requires
        shaped(t),
        t.op == Op::Let,
        t.names[0] == drop_name(name),
        shaped(t.kids[1]),
        t.kids[1].op == Op::RcAnnotated(RcOp::Dec),
        t.kids[1].names[0] == name,
        t.kids[1].kids[0] == t_var(drop_name(name)),
    ensures
        t == scope_end_drop(t.kids[0], name),
{
    let rc = t.kids[1];
    assert(rc.names =~= seq![name]);
    assert(rc.kids =~= seq![t_var(drop_name(name))]);
    assert(rc.arms =~= Seq::empty());
    assert(rc == t_rc(RcOp::Dec, name, t_var(drop_name(name))));
    assert(t.names =~= seq![drop_name(name)]);
    assert(t.kids =~= seq![t.kids[0], rc]);
    assert(t.arms =~= Seq::empty());
}

/// The name of a known variable.
fn tracked_name(expr: &Expr, known_heap: &NameSet) -> (r: Option<String>)
    ensures
        match r {
            Some(n) => is_tracked_var(expr.term(), known_heap@) && expr.term().names[0] == n@,
            None => !is_tracked_var(expr.term(), known_heap@),
        },
{
    let ghost t: Term = expr.term();
    let p = expr.parts();
    match p.op {
        Op::Var => {
            assert(p.names@[0]@ == t.names[0]);
            proof {
                var_is_t_var(t);
            }
            if known_heap.contains(p.names[0]) {
                Some(p.names[0].clone())
            } else {
                None
            }
        },
        _ => None,
    }
}

/// Takes the release of `name` at the end of the scope off `expr`, if it has one.
pub fn strip_scope_end_release(expr: Expr, name: &String) -> (r: Expr)
    ensures
        r.term() == strip(expr.term(), name@),
{
    let ghost t: Term = expr.term();
    let temp: String = join_text("drop$", name.as_str());
    let p: Parts = expr.into_parts();
    proof {
        assert(p.kids@.len() == t.kids.len());
        assert forall|j: int| 0 <= j < p.kids@.len() implies (#[trigger] p.kids@[j]).term()
            == t.kids[j] by {}
    }
    if p.op == Op::Let {
        assert(p.names@[0]@ == t.names[0]);
        if p.names[0] == temp {
            let ghost rc: Term = t.kids[1];
            let inner = p.kids[1].parts();
            if inner.op == Op::RcAnnotated(RcOp::Dec) {
                assert(inner.names@[0]@ == rc.names[0]);
                assert(inner.kids@[0].term() == rc.kids[0]);
                if *inner.names[0] == *name {
                    let last = inner.kids[0].parts();
                    if last.op == Op::Var {
                        assert(last.names@[0]@ == rc.kids[0].names[0]);
                        if *last.names[0] == temp {
                            let mut kids: Vec<Expr> = p.kids;
                            proof {
                                var_is_t_var(rc.kids[0]);
                                drop_is_scope_end_drop(t, name@);
                            }
                            return kids.remove(0);
                        }
                    }
                }
            }
        }
    }
    Expr::from_parts(p)
}

/// Marks the places in `expr` where memory can be reused, when the names in `known_heap`
/// are known.
pub fn mark_reuse_scoped(expr: Expr, known_heap: &NameSet) -> (r: Expr)
    ensures
        r.term() == reused(expr.term(), known_heap@, known_heap@),
{
    mark_reuse_in(expr, known_heap, known_heap)
}

/// The names known to hold heap values in child `i` of a node other than a `Let`.
fn known_for_reuse(
    known_heap: &NameSet,
    op: Op,
    names: &Vec<String>,
    i: usize,
    given: &NameSet,
    Ghost(t): Ghost<Term>,
) -> (r: NameSet)
    requires
        op == t.op,
        names_of(names@) == t.names,
        shaped(t),
    ensures
        r@ == reuse_scope(known_heap@, t, i as int, given@),
{
    let mut inner: NameSet = known_heap.copy();
    match op {
        Op::For => {
            if i == 2 {
                assert(names_of(names@)[0] == names@[0]@);
                inner.remove(&names[0]);
            }
        },
        Op::Closure(_) => {
            let mut k: usize = 0;
            assert(t.names.take(0) =~= Seq::<Name>::empty());
            while k < names.len()
                invariant
                    k <= names@.len(),
                    names_of(names@) == t.names,
                    t.names.len() == names@.len(),
                    inner@ == hiding(known_heap@, t.names.take(k as int), given@),
                decreases names@.len() - k,
            {
                proof {
                    assert(t.names[k as int] == names@[k as int]@);
                    assert(t.names.take(k + 1).drop_last() =~= t.names.take(k as int));
                }
                if !given.contains(&names[k]) {
                    inner.remove(&names[k]);
                }
                k += 1;
            }
            assert(t.names.take(k as int) =~= t.names);
        },
        _ => {},
    }
    inner
}

#[verifier::rlimit(40)]
#[verifier::spinoff_prover]
fn mark_reuse_in(expr: Expr, known_heap: &NameSet, given: &NameSet) -> (r: Expr)
    ensures
        r.term() == reused(expr.term(), known_heap@, given@),
    decreases expr.term(),
{
    let ghost t: Term = expr.term();
    let p: Parts = expr.into_parts();
    proof {
        assert(p.kids@.len() == t.kids.len());
        assert forall|j: int| 0 <= j < p.kids@.len() implies (#[trigger] p.kids@[j]).term()
            == t.kids[j] by {}
        assert(p.arms@.len() == t.arms.len());
        assert forall|j: int| 0 <= j < p.arms@.len() implies arm_term(#[trigger] p.arms@[j])
            == t.arms[j] by {}
    }
    let ghost goal: Term = reused(t, known_heap@, given@);
    if p.op == Op::Let {
        let mut kids: Vec<Expr> = p.kids;
        let body: Expr = kids.remove(1);
        let value: Expr = kids.remove(0);
        assert(p.names@[0]@ == t.names[0]);
        let name: &String = &p.names[0];
        let known: bool = is_syntactically_heap(&value, known_heap);
        let inner: NameSet = known_in_body(known_heap, name, known);
        let value: Expr = mark_reuse_in(value, known_heap, given);
        let body: Expr = mark_reuse_in(body, &inner, given);
        let body: Expr = if reuses_name(&body, name) {
            strip_scope_end_release(body, name)
        } else {
            body
        };
        kids.push(value);
        kids.push(body);
        let q: Parts = Parts { op: p.op, names: p.names, types: p.types, kids, arms: p.arms };
        assert(terms(q.kids@) =~= goal.kids);
        return Expr::from_parts(q);
    }
    let mut kids: Vec<Expr> = p.kids;
    let target: Option<String> = if kids.len() > 0 {
        tracked_name(&kids[0], known_heap)
    } else {
        None
    };
    let mut i: usize = 0;
    while i < kids.len()
        invariant
            t == expr.term(),
            i <= kids@.len(),
            kids@.len() == t.kids.len(),
            forall|j: int| i <= j < kids@.len() ==> (#[trigger] kids@[j]).term() == t.kids[j],
            forall|j: int|
                0 <= j < i ==> (#[trigger] kids@[j]).term() == reused(
                    t.kids[j],
                    reuse_scope(known_heap@, t, j, given@),
                    given@,
                ),
            p.op == t.op,
            names_of(p.names@) == t.names,
            shaped(t),
        decreases kids@.len() - i,
    {
        let kid: Expr = take_at(&mut kids, i);
        let inner: NameSet = known_for_reuse(known_heap, p.op, &p.names, i, given, Ghost(t));
        let kid: Expr = mark_reuse_in(kid, &inner, given);
        kids.set(i, kid);
        i += 1;
    }
    match in_place_of(p.op) {
        Some(op) => {
            match &target {
                Some(name) => {
                    let _first: Expr = kids.remove(0);
                    let mut names: Vec<String> = Vec::new();
                    names.push(name.clone());
                    assert(names_of(names@) =~= goal.names);
                    assert(terms(kids@) =~= goal.kids);
                    let q: Parts = Parts { op, names, types: p.types, kids, arms: p.arms };
                    return Expr::from_parts(q);
                },
                None => {},
            }
        },
        None => {},
    }
    assert(terms(kids@) =~= goal.kids);
    let ghost want: Option<Name> = name_in(target);
    let mut arms: Vec<MatchArm> = p.arms;
    let mut k: usize = 0;
    while k < arms.len()
        invariant
            t == expr.term(),
            k <= arms@.len(),
            arms@.len() == t.arms.len(),
            want == name_in(target),
            forall|j: int| k <= j < arms@.len() ==> arm_term(#[trigger] arms@[j]) == t.arms[j],
            forall|j: int|
                0 <= j < k ==> arm_term(#[trigger] arms@[j]) == reused_arm(
                    t.arms[j],
                    want,
                    known_heap@,
                    given@,
                ),
        decreases arms@.len() - k,
    {
        let arm: MatchArm = take_arm_at(&mut arms, k);
        proof {
            assert(decreases_to!(t => t.arms[k as int]));
            arm_decreases(t.arms[k as int]);
        }
        let inner: NameSet = known_heap.without(&arm.bindings);
        let guard: Option<Box<Expr>> = match arm.guard {
            Some(g) => Some(Box::new(mark_reuse_in(*g, &inner, given))),
            None => None,
        };
        let body: Expr = mark_reuse_in(arm.body, &inner, given);
        let cell: Option<String> = cell_for(&target, &arm.bindings);
        let body: Expr = rebuild_in(&cell, arm.bindings.len(), body);
        let done: MatchArm = MatchArm { tag: arm.tag, bindings: arm.bindings, guard, body };
        assert(t.arms[k as int].bindings.len() == arm.bindings@.len());
        assert(arm_term(done) == reused_arm(t.arms[k as int], want, known_heap@, given@));
        arms.set(k, done);
        k += 1;
    }
    assert(arm_terms(arms@) =~= goal.arms);
    let q: Parts = Parts { op: p.op, names: p.names, types: p.types, kids, arms };
    assert(q.term() == goal);
    Expr::from_parts(q)
}

/// The name of the cell that an arm took apart, unless the arm hides it.
fn cell_for(target: &Option<String>, bindings: &Vec<String>) -> (r: Option<String>)
    ensures
        forall|arm: ArmTerm|
            arm.bindings == names_of(bindings@) ==> name_in(r) == #[trigger] arm_target(
                name_in(*target),
                arm,
            ),
{
    match target {
        Some(name) => if contains_name(bindings, name) {
            None
        } else {
            Some(name.clone())
        },
        None => None,
    }
}

/// Builds the body of an arm in the cell that the arm took apart, where it fits.
fn rebuild_in(target: &Option<String>, arity: usize, body: Expr) -> (r: Expr)
    ensures
        r.term() == rebuild(name_in(*target), arity as nat, body.term()),
{
    let ghost t: Term = body.term();
    match target {
        Some(name) => {
            let p: Parts = body.into_parts();
            assert(p.kids@.len() == t.kids.len());
            if p.op == Op::Ctor && arity > 0 && p.kids.len() == arity {
                let mut old_names: Vec<String> = p.names;
                let ghost before: Seq<String> = old_names@;
                let mut names: Vec<String> = Vec::new();
                names.push(name.clone());
                names.append(&mut old_names);
                assert(names_of(names@) =~= seq![name@] + names_of(before));
                let q: Parts = Parts {
                    op: Op::CtorReuse,
                    names,
                    types: p.types,
                    kids: p.kids,
                    arms: p.arms,
                };
                return Expr::from_parts(q);
            }
            Expr::from_parts(p)
        },
        None => body,
    }
}

} // verus!
