//! Insertion of reference count adjustments.

use vstd::prelude::*;
use crate::ir::{
    arm_decreases, arm_term, arm_terms, mk_let, mk_rc, mk_var, names_of, shaped, t_let, t_rc, t_var,
    take_arm_at, take_at, terms, ArmTerm, Expr, MatchArm, Name, Op, Parts, RcOp, Term,
};
use crate::names::{join_text, without, NameSet};
use super::last_use::{mark, mark_last_uses};
use super::uses::{all_uses_are_borrows, borrowed, incs, incs_name};

verus! {

/// Whether a term is known to be a heap value by its form: a constructor, a string or an
/// empty array, or a variable that is known to hold one.
pub open spec fn is_heap(t: Term, heap: Set<Name>) -> bool {
    match t.op {
        Op::Ctor | Op::Str | Op::EmptyArray(_) => true,
        Op::Var => heap.contains(t.names[0]),
        _ => false,
    }
}

/// The names known to hold heap values in the body of a binding of `name`, whose value is
/// known to be one or not. A binding hides an outer one of the same name.
pub open spec fn body_scope(heap: Set<Name>, name: Name, known: bool) -> Set<Name> {
    if known {
        heap.insert(name)
    } else {
        heap.remove(name)
    }
}

/// The names known to hold heap values in child `i` of a node other than a `Let`. A loop
/// variable and the parameters of a closure hide outer names.
pub open spec fn kid_scope(heap: Set<Name>, t: Term, i: int) -> Set<Name> {
    match t.op {
        Op::For if i == 2 => heap.remove(t.names[0]),
        Op::Closure(_) => without(heap, t.names),
        _ => heap,
    }
}

/// The names known to hold heap values in an arm. What the arm binds hides outer names.
pub open spec fn arm_scope(heap: Set<Name>, arm: ArmTerm) -> Set<Name> {
    without(heap, arm.bindings)
}

/// The operators, besides those of [`is_heap`], that always yield a fresh heap cell.
pub open spec fn allocates(op: Op) -> bool {
    match op {
        Op::StrConcat | Op::StrTrim | Op::StrToUpper | Op::StrToLower | Op::StrReplace
        | Op::StrRunes | Op::StrSplit | Op::ToString | Op::ArrayPush | Op::ArrayPop | Op::ArraySet
        | Op::ArrayRemove => true,
        _ => false,
    }
}

/// The temporary that holds a scope's result while `name` is released.
pub open spec fn drop_name(name: Name) -> Name {
    "drop$"@ + name
}

/// `body`, with `name` released after it has produced its value.
pub open spec fn scope_end_drop(body: Term, name: Name) -> Term {
    t_let(drop_name(name), body, t_rc(RcOp::Dec, name, t_var(drop_name(name))))
}

/// Whether a name is used exactly once in `body`, and only read there.
pub open spec fn borrowed_once(body: Term, name: Name) -> bool {
    let m = mark(body, name, false);
    m.1 && !incs(m.0, name) && borrowed(body, name)
}

/// The body of a binding with its adjustments. A value that is read once is released at
/// the end of the scope. A known value that is not used at all is released at once;
/// otherwise its last use takes the reference over.
pub open spec fn count_body(name: Name, known: bool, value: Term, body: Term) -> Term {
    let m = mark(body, name, false);
    if (known || allocates(value.op)) && borrowed_once(body, name) {
        scope_end_drop(body, name)
    } else if !known {
        body
    } else if m.1 {
        m.0
    } else {
        t_rc(RcOp::Dec, name, m.0)
    }
}

/// Inserts adjustments for the bindings in a term, when the names in `heap` are known.
/// Handing a string to foreign code consumes it, so an untracked one is counted first.
pub open spec fn counted(t: Term, heap: Set<Name>) -> Term
    decreases t,
{
    if t.op == Op::AsCStr && t.kids.len() == 1 && t.kids[0].op == Op::Var && !heap.contains(
        t.kids[0].names[0],
    ) {
        t_rc(RcOp::Inc, t.kids[0].names[0], t)
    } else if t.op == Op::Let && t.kids.len() == 2 {
        let known = is_heap(t.kids[0], heap);
        let value = counted(t.kids[0], heap);
        let body = counted(t.kids[1], body_scope(heap, t.names[0], known));
        Term { kids: seq![value, count_body(t.names[0], known, value, body)], ..t }
    } else {
        Term {
            kids: Seq::new(
                t.kids.len(),
                |i: int|
                    if 0 <= i < t.kids.len() {
                        counted(t.kids[i], kid_scope(heap, t, i))
                    } else {
                        t
                    },
            ),
            arms: Seq::new(
                t.arms.len(),
                |k: int|
                    if 0 <= k < t.arms.len() {
                        counted_arm(t.arms[k], heap)
                    } else {
                        arbitrary()
                    },
            ),
            ..t
        }
    }
}

/// Inserts adjustments in an arm.
pub open spec fn counted_arm(arm: ArmTerm, heap: Set<Name>) -> ArmTerm
    decreases arm,
{
    ArmTerm {
        guard: match arm.guard {
            Some(g) => Some(counted(g, arm_scope(heap, arm))),
            None => None,
        },
        body: counted(arm.body, arm_scope(heap, arm)),
        ..arm
    }
}

/// Whether `expr` is known to be a heap value by its form.
pub fn is_syntactically_heap(expr: &Expr, known_heap: &NameSet) -> (r: bool)
    ensures
        r == is_heap(expr.term(), known_heap@),
{
    let p = expr.parts();
    match p.op {
        Op::Ctor | Op::Str | Op::EmptyArray(_) => true,
        Op::Var => {
            assert(p.names@[0]@ == expr.term().names[0]);
            known_heap.contains(p.names[0])
        },
        _ => false,
    }
}

fn allocates_fresh_heap(expr: &Expr) -> (r: bool)
    ensures
        r == allocates(expr.term().op),
{
    match expr.parts().op {
        Op::StrConcat | Op::StrTrim | Op::StrToUpper | Op::StrToLower | Op::StrReplace
        | Op::StrRunes | Op::StrSplit | Op::ToString | Op::ArrayPush | Op::ArrayPop | Op::ArraySet
        | Op::ArrayRemove => true,
        _ => false,
    }
}

/// Wraps `body` so that `name` is released after `body` has produced its value.
pub fn drop_at_scope_end(body: Expr, name: &String) -> (r: Expr)
    ensures
        r.term() == scope_end_drop(body.term(), name@),
{
    let temp: String = join_text("drop$", name.as_str());
    let last: Expr = mk_var(temp.clone());
    mk_let(temp, body, mk_rc(RcOp::Dec, name.clone(), last))
}

/// Whether `name` is used exactly once in `body`, and only read there.
pub fn is_borrowed_once(body: &Expr, name: &String) -> (r: bool)
    ensures
        r == borrowed_once(body.term(), name@),
{
    let (marked, used) = mark_last_uses(body.clone(), name, false);
    used && !incs_name(&marked, name) && all_uses_are_borrows(body, name)
}

/// The names known to hold heap values in the body of a binding.
pub fn known_in_body(known_heap: &NameSet, name: &String, known: bool) -> (r: NameSet)
    ensures
        r@ == body_scope(known_heap@, name@, known),
{
    let mut inner: NameSet = known_heap.copy();
    if known {
        inner.insert(name.clone());
    } else {
        inner.remove(name);
    }
    inner
}

/// The names known to hold heap values in child `i` of a node other than a `Let`.
pub(crate) fn known_in_kid(
    known_heap: &NameSet,
    op: Op,
    names: &Vec<String>,
    i: usize,
    Ghost(t): Ghost<Term>,
) -> (r: NameSet)
    requires
        op == t.op,
        names_of(names@) == t.names,
        shaped(t),
    ensures
        r@ == kid_scope(known_heap@, t, i as int),
{
    match op {
        Op::For if i == 2 => {
            assert(names_of(names@)[0] == names@[0]@);
            let mut inner: NameSet = known_heap.copy();
            inner.remove(&names[0]);
            inner
        },
        Op::Closure(_) => known_heap.without(names),
        _ => known_heap.copy(),
    }
}

/// Inserts reference count adjustments into `expr`, when the names in `known_heap` are
/// known.
#[verifier::rlimit(30)]
pub fn transform(expr: Expr, known_heap: &NameSet) -> (r: Expr)
    ensures
        r.term() == counted(expr.term(), known_heap@),
    decreases expr.term(),
{
    let ghost t: Term = expr.term();
    let p: Parts = expr.into_parts();
    proof {
        assert(p.kids@.len() == t.kids.len());
        assert forall|j: int| 0 <= j < p.kids@.len() implies (#[trigger] p.kids@[j]).term()
            == t.kids[j] by {}
        assert(p.arms@.len() == t.arms.len());
        assert forall|j: int| 0 <= j < p.arms@.len() implies arm_term(#[trigger] p.arms@[j])
            == t.arms[j] by {}
    }
    if p.op == Op::AsCStr {
        let kid = p.kids[0].parts();
        if kid.op == Op::Var {
            assert(kid.names@[0]@ == t.kids[0].names[0]);
            if !known_heap.contains(kid.names[0]) {
                let target: String = kid.names[0].clone();
                return mk_rc(RcOp::Inc, target, Expr::from_parts(p));
            }
        }
    }
    if p.op == Op::Let {
        let mut kids: Vec<Expr> = p.kids;
        let body: Expr = kids.remove(1);
        let value: Expr = kids.remove(0);
        assert(p.names@[0]@ == t.names[0]);
        let name: &String = &p.names[0];
        let known: bool = is_syntactically_heap(&value, known_heap);
        let value: Expr = transform(value, known_heap);
        let inner: NameSet = known_in_body(known_heap, name, known);
        let body: Expr = transform(body, &inner);
        let body: Expr = if (known || allocates_fresh_heap(&value)) && is_borrowed_once(
            &body,
            name,
        ) {
            drop_at_scope_end(body, name)
        } else if !known {
            body
        } else {
            let (marked, used) = mark_last_uses(body, name, false);
            if used {
                marked
            } else {
                mk_rc(RcOp::Dec, name.clone(), marked)
            }
        };
        kids.push(value);
        kids.push(body);
        let q: Parts = Parts { op: p.op, names: p.names, types: p.types, kids, arms: p.arms };
        assert(terms(q.kids@) =~= counted(t, known_heap@).kids);
        return Expr::from_parts(q);
    }
    let ghost goal: Term = counted(t, known_heap@);
    let mut kids: Vec<Expr> = p.kids;
    let mut i: usize = 0;
    while i < kids.len()
        invariant
            t == expr.term(),
            i <= kids@.len(),
            kids@.len() == t.kids.len(),
            forall|j: int| i <= j < kids@.len() ==> (#[trigger] kids@[j]).term() == t.kids[j],
            forall|j: int|
                0 <= j < i ==> (#[trigger] kids@[j]).term() == counted(
                    t.kids[j],
                    kid_scope(known_heap@, t, j),
                ),
            p.op == t.op,
            names_of(p.names@) == t.names,
            shaped(t),
        decreases kids@.len() - i,
    {
        let kid: Expr = take_at(&mut kids, i);
        let inner: NameSet = known_in_kid(known_heap, p.op, &p.names, i, Ghost(t));
        let kid: Expr = transform(kid, &inner);
        kids.set(i, kid);
        i += 1;
    }
    assert(terms(kids@) =~= goal.kids);
    let mut arms: Vec<MatchArm> = p.arms;
    let mut k: usize = 0;
    while k < arms.len()
        invariant
            t == expr.term(),
            k <= arms@.len(),
            arms@.len() == t.arms.len(),
            forall|j: int| k <= j < arms@.len() ==> arm_term(#[trigger] arms@[j]) == t.arms[j],
            forall|j: int|
                0 <= j < k ==> arm_term(#[trigger] arms@[j]) == counted_arm(
                    t.arms[j],
                    known_heap@,
                ),
        decreases arms@.len() - k,
    {
        let arm: MatchArm = take_arm_at(&mut arms, k);
        proof {
            assert(decreases_to!(t => t.arms[k as int]));
            arm_decreases(t.arms[k as int]);
        }
        let inner: NameSet = known_heap.without(&arm.bindings);
        let guard: Option<Box<Expr>> = match arm.guard {
            Some(g) => Some(Box::new(transform(*g, &inner))),
            None => None,
        };
        let body: Expr = transform(arm.body, &inner);
        let done: MatchArm = MatchArm { tag: arm.tag, bindings: arm.bindings, guard, body };
        assert(arm_term(done) == counted_arm(t.arms[k as int], known_heap@));
        arms.set(k, done);
        k += 1;
    }
    assert(arm_terms(arms@) =~= goal.arms);
    let q: Parts = Parts { op: p.op, names: p.names, types: p.types, kids, arms };
    assert(q.term() == goal);
    Expr::from_parts(q)
}

} // verus!
