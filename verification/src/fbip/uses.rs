//! How an expression uses a name.

use vstd::prelude::*;
use crate::ir::{arm_decreases, arm_term, shaped, ArmTerm, Expr, MatchArm, Name, Op, RcOp, Term};
use crate::names::contains_name;

verus! {

/// Whether the variable `name` is mentioned anywhere in a term. Shadowing is not looked at.
pub open spec fn mentions(t: Term, name: Name) -> bool
    decreases t,
{
    ||| t.op == Op::Var && t.names[0] == name
    ||| exists|i: int| 0 <= i < t.kids.len() && mentions(#[trigger] t.kids[i], name)
    ||| exists|k: int| 0 <= k < t.arms.len() && arm_mentions(#[trigger] t.arms[k], name)
}

/// Whether the variable `name` is mentioned anywhere in an arm.
pub open spec fn arm_mentions(arm: ArmTerm, name: Name) -> bool
    decreases arm,
{
    ||| (arm.guard matches Some(g) && mentions(g, name))
    ||| mentions(arm.body, name)
}

/// Whether a term increments the reference count of `name` anywhere.
pub open spec fn incs(t: Term, name: Name) -> bool
    decreases t,
{
    ||| t.op == Op::RcAnnotated(RcOp::Inc) && t.names[0] == name
    ||| exists|i: int| 0 <= i < t.kids.len() && incs(#[trigger] t.kids[i], name)
    ||| exists|k: int| 0 <= k < t.arms.len() && arm_incs(#[trigger] t.arms[k], name)
}

/// Whether an arm increments the reference count of `name` anywhere.
pub open spec fn arm_incs(arm: ArmTerm, name: Name) -> bool
    decreases arm,
{
    ||| (arm.guard matches Some(g) && incs(g, name))
    ||| incs(arm.body, name)
}

/// The operators that build in the memory of a named cell. That name is their first.
pub open spec fn is_reuse_op(op: Op) -> bool {
    match op {
        Op::CtorReuse | Op::ArrayPushReuse | Op::ArrayPopReuse | Op::ArraySetReuse
        | Op::ArrayRemoveReuse | Op::StrConcatReuse | Op::StrTrimReuse | Op::StrToUpperReuse
        | Op::StrToLowerReuse | Op::StrReplaceReuse => true,
        _ => false,
    }
}

/// Whether a node itself builds in the memory of `name`.
pub open spec fn claims(t: Term, name: Name) -> bool {
    is_reuse_op(t.op) && t.names[0] == name
}

/// Whether a term builds in the memory of `name` anywhere.
pub open spec fn reuses(t: Term, name: Name) -> bool
    decreases t,
{
    ||| claims(t, name)
    ||| exists|i: int| 0 <= i < t.kids.len() && reuses(#[trigger] t.kids[i], name)
    ||| exists|k: int| 0 <= k < t.arms.len() && arm_reuses(#[trigger] t.arms[k], name)
}

/// Whether an arm builds in the memory of `name` anywhere.
pub open spec fn arm_reuses(arm: ArmTerm, name: Name) -> bool
    decreases arm,
{
    ||| (arm.guard matches Some(g) && reuses(g, name))
    ||| reuses(arm.body, name)
}

/// Whether the outer binding of `name` is visible in child `i`: the body of a `Let` or a
/// `For` that binds the same name sees the inner binding instead.
pub open spec fn in_scope(t: Term, i: int, name: Name) -> bool {
    match t.op {
        Op::Let => i == 0 || t.names[0] != name,
        Op::For => i <= 1 || t.names[0] != name,
        _ => true,
    }
}

/// Whether a term rebinds the outer `name`. What a closure or a spawned block would do
/// when it runs does not count.
pub open spec fn assigns(t: Term, name: Name) -> bool
    decreases t,
{
    &&& !(t.op is Closure)
    &&& t.op != Op::Spawn
    &&& {
        ||| t.op == Op::Assign && t.names[0] == name
        ||| exists|i: int|
            0 <= i < t.kids.len() && in_scope(t, i, name) && assigns(#[trigger] t.kids[i], name)
        ||| exists|k: int| 0 <= k < t.arms.len() && arm_assigns(#[trigger] t.arms[k], name)
    }
}

/// Whether an arm rebinds the outer `name`.
pub open spec fn arm_assigns(arm: ArmTerm, name: Name) -> bool
    decreases arm,
{
    &&& !arm.bindings.contains(name)
    &&& {
        ||| (arm.guard matches Some(g) && assigns(g, name))
        ||| assigns(arm.body, name)
    }
}

/// The operators whose children are only read: the value in the slot stays owned by
/// whoever owned it. Of a match that is the scrutinee.
pub open spec fn borrows_children(op: Op) -> bool {
    match op {
        Op::Match | Op::ArrayLen | Op::StrConcat | Op::StrContains | Op::StrStartsWith
        | Op::StrEndsWith | Op::StrSplit | Op::StrReplace | Op::StrRunes | Op::StrTrim
        | Op::StrToUpper | Op::StrToLower | Op::ToString | Op::StrHash => true,
        _ => false,
    }
}

/// Whether a term is the variable `name`.
pub open spec fn is_var(t: Term, name: Name) -> bool {
    t.op == Op::Var && t.names[0] == name
}

/// Whether a node touches `name` in its own right, apart from its children: by building in
/// its memory, by counting references to it, or by rebinding it.
pub open spec fn takes(t: Term, name: Name) -> bool {
    ||| claims(t, name)
    ||| t.op is RcAnnotated && t.names[0] == name
    ||| t.op == Op::Assign && t.names[0] == name
}

/// Whether every use of the outer `name` in a term only reads the value and never takes
/// ownership of it. A closure or a spawned block that mentions the name takes it.
pub open spec fn borrowed(t: Term, name: Name) -> bool
    decreases t,
{
    if t.op == Op::Var {
        t.names[0] != name
    } else if t.op is Closure || t.op == Op::Spawn {
        !mentions(t.kids[0], name)
    } else {
        &&& !takes(t, name)
        &&& forall|i: int|
            0 <= i < t.kids.len() && in_scope(t, i, name) ==> (borrows_children(t.op) && is_var(
                #[trigger] t.kids[i],
                name,
            )) || borrowed(t.kids[i], name)
        &&& forall|k: int| 0 <= k < t.arms.len() ==> arm_borrowed(#[trigger] t.arms[k], name)
    }
}

/// Whether every use of the outer `name` in an arm only reads the value.
pub open spec fn arm_borrowed(arm: ArmTerm, name: Name) -> bool
    decreases arm,
{
    ||| arm.bindings.contains(name)
    ||| {
        &&& (arm.guard matches Some(g) ==> borrowed(g, name))
        &&& borrowed(arm.body, name)
    }
}

/// At most two: nothing needs to tell "twice" from "many".
pub open spec fn at_most_two(n: nat) -> nat {
    if n <= 2 {
        n
    } else {
        2
    }
}

/// The larger of two numbers.
pub open spec fn larger(a: nat, b: nat) -> nat {
    if a >= b {
        a
    } else {
        b
    }
}

/// The greatest number of times the outer `name` can be used on one path through a term,
/// counting no further than two. Branches are alternatives; a loop body or a closure body
/// may run more than once, so a use in one counts as two.
pub open spec fn max_uses(t: Term, name: Name) -> nat
    decreases t, t.kids.len() + t.arms.len() + 1,
{
    if !shaped(t) {
        0
    } else {
    match t.op {
        Op::Var => if t.names[0] == name {
            1
        } else {
            0
        },
        Op::If => at_most_two(
            max_uses(t.kids[0], name) + larger(
                max_uses(t.kids[1], name),
                max_uses(t.kids[2], name),
            ),
        ),
        Op::Match => at_most_two(
            max_uses(t.kids[0], name) + arms_uses(t, 0, name),
        ),
        Op::For => at_most_two(
            max_uses(t.kids[0], name) + max_uses(t.kids[1], name) + if t.names[0] != name
                && max_uses(t.kids[2], name) > 0 {
                2nat
            } else {
                0
            },
        ),
        Op::Closure(_) => if !t.names.contains(name) && max_uses(t.kids[0], name) > 0 {
            2
        } else {
            0
        },
        _ => at_most_two(
            (if claims(t, name) {
                1nat
            } else {
                0
            }) + kids_uses(t, t.kids.len(), name),
        ),
    }
    }
}

/// The uses of the outer `name` in the first `i` children, all of which run.
pub open spec fn kids_uses(t: Term, i: nat, name: Name) -> nat
    decreases t, i,
{
    if i == 0 || i > t.kids.len() {
        0
    } else {
        kids_uses(t, (i - 1) as nat, name) + if in_scope(t, i - 1, name) {
            max_uses(t.kids[i - 1], name)
        } else {
            0
        }
    }
}

/// The greatest number of uses of the outer `name` on any path that tries the arms from the
/// `k`th on: the guard of each arm that is tried, then the body of the one that is taken.
pub open spec fn arms_uses(t: Term, k: nat, name: Name) -> nat
    decreases t, t.arms.len() - k,
{
    if k >= t.arms.len() {
        0
    } else {
        let arm = t.arms[k as int];
        let later = arms_uses(t, k + 1, name);
        if arm.bindings.contains(name) {
            later
        } else {
            (match arm.guard {
                Some(g) => max_uses(g, name),
                None => 0,
            }) + larger(max_uses(arm.body, name), later)
        }
    }
}

/// Whether the variable `name` is mentioned anywhere in `expr`.
pub fn expr_mentions_var(expr: &Expr, name: &String) -> (r: bool)
    ensures
        r == mentions(expr.term(), name@),
    decreases expr.term(),
{
    let ghost t: Term = expr.term();
    let p = expr.parts();
    if p.op == Op::Var {
        assert(p.names@[0]@ == t.names[0]);
        if *p.names[0] == *name {
            return true;
        }
    }
    let mut i: usize = 0;
    while i < p.kids.len()
        invariant
            t == expr.term(),
            p.term() == t,
            i <= p.kids@.len(),
            forall|j: int| 0 <= j < i ==> !mentions(#[trigger] t.kids[j], name@),
        decreases p.kids@.len() - i,
    {
        assert(p.kids@[i as int].term() == t.kids[i as int]);
        if expr_mentions_var(p.kids[i], name) {
            return true;
        }
        i += 1;
    }
    let mut k: usize = 0;
    while k < p.arms.len()
        invariant
            t == expr.term(),
            p.term() == t,
            k <= p.arms@.len(),
            forall|j: int| 0 <= j < k ==> !arm_mentions(#[trigger] t.arms[j], name@),
        decreases p.arms@.len() - k,
    {
        let arm: &MatchArm = p.arms[k];
        proof {
            assert(t.arms[k as int] == arm_term(*arm));
            arm_decreases(t.arms[k as int]);
        }
        match &arm.guard {
            Some(g) => {
                if expr_mentions_var(g, name) {
                    assert(arm_mentions(t.arms[k as int], name@));
                    return true;
                }
            },
            None => {},
        }
        if expr_mentions_var(&arm.body, name) {
            assert(arm_mentions(t.arms[k as int], name@));
            return true;
        }
        k += 1;
    }
    false
}

/// Whether `expr` increments the reference count of `name` anywhere.
pub fn incs_name(expr: &Expr, name: &String) -> (r: bool)
    ensures
        r == incs(expr.term(), name@),
    decreases expr.term(),
{
    let ghost t: Term = expr.term();
    let p = expr.parts();
    if p.op == Op::RcAnnotated(RcOp::Inc) {
        assert(p.names@[0]@ == t.names[0]);
        if *p.names[0] == *name {
            return true;
        }
    }
    let mut i: usize = 0;
    while i < p.kids.len()
        invariant
            t == expr.term(),
            p.term() == t,
            i <= p.kids@.len(),
            forall|j: int| 0 <= j < i ==> !incs(#[trigger] t.kids[j], name@),
        decreases p.kids@.len() - i,
    {
        assert(p.kids@[i as int].term() == t.kids[i as int]);
        if incs_name(p.kids[i], name) {
            return true;
        }
        i += 1;
    }
    let mut k: usize = 0;
    while k < p.arms.len()
        invariant
            t == expr.term(),
            p.term() == t,
            k <= p.arms@.len(),
            forall|j: int| 0 <= j < k ==> !arm_incs(#[trigger] t.arms[j], name@),
        decreases p.arms@.len() - k,
    {
        let arm: &MatchArm = p.arms[k];
        proof {
            assert(t.arms[k as int] == arm_term(*arm));
            arm_decreases(t.arms[k as int]);
        }
        match &arm.guard {
            Some(g) => {
                if incs_name(g, name) {
                    assert(arm_incs(t.arms[k as int], name@));
                    return true;
                }
            },
            None => {},
        }
        if incs_name(&arm.body, name) {
            assert(arm_incs(t.arms[k as int], name@));
            return true;
        }
        k += 1;
    }
    false
}

/// Whether the operands of an operator, besides a cell it builds in, are only read.
pub(crate) fn reads_only(op: Op) -> (r: bool)
    ensures
        r == super::balance::only_reads(op),
{
    match op {
        Op::Match | Op::ArrayLen | Op::StrConcat | Op::StrContains | Op::StrStartsWith
        | Op::StrEndsWith | Op::StrSplit | Op::StrReplace | Op::StrRunes | Op::StrTrim
        | Op::StrToUpper | Op::StrToLower | Op::ToString | Op::StrHash | Op::StrConcatReuse
        | Op::StrReplaceReuse => true,
        _ => false,
    }
}

pub(crate) fn is_reuse(op: Op) -> (r: bool)
    ensures
        r == is_reuse_op(op),
{
    match op {
        Op::CtorReuse | Op::ArrayPushReuse | Op::ArrayPopReuse | Op::ArraySetReuse
        | Op::ArrayRemoveReuse | Op::StrConcatReuse | Op::StrTrimReuse | Op::StrToUpperReuse
        | Op::StrToLowerReuse | Op::StrReplaceReuse => true,
        _ => false,
    }
}

/// Whether `expr` builds in the memory of `name` anywhere.
pub fn reuses_name(expr: &Expr, name: &String) -> (r: bool)
    ensures
        r == reuses(expr.term(), name@),
    decreases expr.term(),
{
    let ghost t: Term = expr.term();
    let p = expr.parts();
    if is_reuse(p.op) {
        assert(p.names@[0]@ == t.names[0]);
        if *p.names[0] == *name {
            return true;
        }
    }
    let mut i: usize = 0;
    while i < p.kids.len()
        invariant
            t == expr.term(),
            p.term() == t,
            i <= p.kids@.len(),
            forall|j: int| 0 <= j < i ==> !reuses(#[trigger] t.kids[j], name@),
        decreases p.kids@.len() - i,
    {
        assert(p.kids@[i as int].term() == t.kids[i as int]);
        if reuses_name(p.kids[i], name) {
            return true;
        }
        i += 1;
    }
    let mut k: usize = 0;
    while k < p.arms.len()
        invariant
            t == expr.term(),
            p.term() == t,
            k <= p.arms@.len(),
            forall|j: int| 0 <= j < k ==> !arm_reuses(#[trigger] t.arms[j], name@),
        decreases p.arms@.len() - k,
    {
        let arm: &MatchArm = p.arms[k];
        proof {
            assert(t.arms[k as int] == arm_term(*arm));
            arm_decreases(t.arms[k as int]);
        }
        match &arm.guard {
            Some(g) => {
                if reuses_name(g, name) {
                    assert(arm_reuses(t.arms[k as int], name@));
                    return true;
                }
            },
            None => {},
        }
        if reuses_name(&arm.body, name) {
            assert(arm_reuses(t.arms[k as int], name@));
            return true;
        }
        k += 1;
    }
    false
}

/// Whether the outer `name` is visible in child `i` of a node.
pub fn visible(op: Op, names: &Vec<&String>, i: usize, name: &String) -> (r: bool)
    requires
        op == Op::Let || op == Op::For ==> names@.len() >= 1,
    ensures
        forall|t: Term|
            t.op == op && t.names == names@.map_values(|s: &String| s@) ==> r
                == #[trigger] in_scope(t, i as int, name@),
{
    assert(names@.len() >= 1 ==> names@.map_values(|s: &String| s@)[0] == names@[0]@);
    match op {
        Op::Let => i == 0 || *names[0] != *name,
        Op::For => i <= 1 || *names[0] != *name,
        _ => true,
    }
}

/// Whether `expr` rebinds the outer `name`.
pub fn expr_assigns_var(expr: &Expr, name: &String) -> (r: bool)
    ensures
        r == assigns(expr.term(), name@),
    decreases expr.term(),
{
    let ghost t: Term = expr.term();
    let p = expr.parts();
    match p.op {
        Op::Closure(_) | Op::Spawn => {
            return false;
        },
        Op::Assign => {
            assert(p.names@[0]@ == t.names[0]);
            if *p.names[0] == *name {
                return true;
            }
        },
        _ => {},
    }
    assert(p.names@.len() == t.names.len());
    let mut i: usize = 0;
    while i < p.kids.len()
        invariant
            t == expr.term(),
            p.term() == t,
            p.op == Op::Let || p.op == Op::For ==> p.names@.len() >= 1,
            i <= p.kids@.len(),
            !(t.op is Closure) && t.op != Op::Spawn,
            forall|j: int|
                0 <= j < i ==> !(in_scope(t, j, name@) && assigns(#[trigger] t.kids[j], name@)),
        decreases p.kids@.len() - i,
    {
        assert(p.kids@[i as int].term() == t.kids[i as int]);
        assert(t.names == p.names@.map_values(|s: &String| s@));
        let seen: bool = visible(p.op, &p.names, i, name);
        assert(seen == in_scope(t, i as int, name@));
        if seen && expr_assigns_var(p.kids[i], name) {
            return true;
        }
        i += 1;
    }
    let mut k: usize = 0;
    while k < p.arms.len()
        invariant
            t == expr.term(),
            p.term() == t,
            k <= p.arms@.len(),
            !(t.op is Closure) && t.op != Op::Spawn,
            forall|j: int| 0 <= j < k ==> !arm_assigns(#[trigger] t.arms[j], name@),
        decreases p.arms@.len() - k,
    {
        let arm: &MatchArm = p.arms[k];
        proof {
            assert(t.arms[k as int] == arm_term(*arm));
            arm_decreases(t.arms[k as int]);
        }
        if !contains_name(&arm.bindings, name) {
            match &arm.guard {
                Some(g) => {
                    if expr_assigns_var(g, name) {
                        assert(arm_assigns(t.arms[k as int], name@));
                        return true;
                    }
                },
                None => {},
            }
            if expr_assigns_var(&arm.body, name) {
                assert(arm_assigns(t.arms[k as int], name@));
                return true;
            }
        }
        k += 1;
    }
    false
}

fn reads_children(op: Op) -> (r: bool)
    ensures
        r == borrows_children(op),
{
    match op {
        Op::Match | Op::ArrayLen | Op::StrConcat | Op::StrContains | Op::StrStartsWith
        | Op::StrEndsWith | Op::StrSplit | Op::StrReplace | Op::StrRunes | Op::StrTrim
        | Op::StrToUpper | Op::StrToLower | Op::ToString | Op::StrHash => true,
        _ => false,
    }
}

/// Whether `expr` is the variable `name`.
pub fn is_bare_var(expr: &Expr, name: &String) -> (r: bool)
    ensures
        r == is_var(expr.term(), name@),
{
    let p = expr.parts();
    if p.op == Op::Var {
        assert(p.names@[0]@ == expr.term().names[0]);
        *p.names[0] == *name
    } else {
        false
    }
}

/// Whether every use of the outer `name` in `expr` only reads the value and never takes
/// ownership of it.
pub fn all_uses_are_borrows(expr: &Expr, name: &String) -> (r: bool)
    ensures
        r == borrowed(expr.term(), name@),
    decreases expr.term(),
{
    let ghost t: Term = expr.term();
    let p = expr.parts();
    if p.names.len() > 0 {
        assert(p.names@[0]@ == t.names[0]);
    }
    match p.op {
        Op::Var => {
            return *p.names[0] != *name;
        },
        Op::Closure(_) | Op::Spawn => {
            assert(p.kids@[0].term() == t.kids[0]);
            return !expr_mentions_var(p.kids[0], name);
        },
        Op::RcAnnotated(_) | Op::Assign => {
            if *p.names[0] == *name {
                return false;
            }
        },
        _ => {
            if is_reuse(p.op) && *p.names[0] == *name {
                return false;
            }
        },
    }
    assert(!takes(t, name@));
    let reads: bool = reads_children(p.op);
    assert(p.names@.len() == t.names.len());
    let mut i: usize = 0;
    while i < p.kids.len()
        invariant
            t == expr.term(),
            p.term() == t,
            p.op == Op::Let || p.op == Op::For ==> p.names@.len() >= 1,
            i <= p.kids@.len(),
            reads == borrows_children(t.op),
            t.op != Op::Var && !(t.op is Closure) && t.op != Op::Spawn,
            forall|j: int|
                0 <= j < i && in_scope(t, j, name@) ==> (borrows_children(t.op) && is_var(
                    #[trigger] t.kids[j],
                    name@,
                )) || borrowed(t.kids[j], name@),
        decreases p.kids@.len() - i,
    {
        assert(p.kids@[i as int].term() == t.kids[i as int]);
        assert(t.names == p.names@.map_values(|s: &String| s@));
        let seen: bool = visible(p.op, &p.names, i, name);
        assert(seen == in_scope(t, i as int, name@));
        if seen && !(reads && is_bare_var(p.kids[i], name)) && !all_uses_are_borrows(
            p.kids[i],
            name,
        ) {
            return false;
        }
        i += 1;
    }
    let mut k: usize = 0;
    while k < p.arms.len()
        invariant
            t == expr.term(),
            p.term() == t,
            k <= p.arms@.len(),
            t.op != Op::Var && !(t.op is Closure) && t.op != Op::Spawn,
            forall|j: int| 0 <= j < k ==> arm_borrowed(#[trigger] t.arms[j], name@),
        decreases p.arms@.len() - k,
    {
        let arm: &MatchArm = p.arms[k];
        proof {
            assert(t.arms[k as int] == arm_term(*arm));
            arm_decreases(t.arms[k as int]);
        }
        if !contains_name(&arm.bindings, name) {
            match &arm.guard {
                Some(g) => {
                    if !all_uses_are_borrows(g, name) {
                        assert(!arm_borrowed(t.arms[k as int], name@));
                        return false;
                    }
                },
                None => {},
            }
            if !all_uses_are_borrows(&arm.body, name) {
                assert(!arm_borrowed(t.arms[k as int], name@));
                return false;
            }
        }
        k += 1;
    }
    true
}

fn clamp(n: u8) -> (r: u8)
    ensures
        r == at_most_two(n as nat),
{
    if n <= 2 {
        n
    } else {
        2
    }
}

/// The greatest number of times the outer `name` can be used on one path through `expr`,
/// counting no further than two.
pub fn max_uses_on_path(expr: &Expr, name: &String) -> (r: u8)
    ensures
        r == max_uses(expr.term(), name@),
        r <= 2,
    decreases expr.term(),
{
    let ghost t: Term = expr.term();
    let p = expr.parts();
    if p.names.len() > 0 {
        assert(p.names@[0]@ == t.names[0]);
    }
    proof {
        assert forall|j: int| 0 <= j < p.kids@.len() implies (#[trigger] p.kids@[j]).term()
            == t.kids[j] by {}
    }
    match p.op {
        Op::Var => if *p.names[0] == *name {
            1
        } else {
            0
        },
        Op::If => {
            let c: u8 = max_uses_on_path(p.kids[0], name);
            let a: u8 = max_uses_on_path(p.kids[1], name);
            let b: u8 = max_uses_on_path(p.kids[2], name);
            clamp(c + if a >= b {
                a
            } else {
                b
            })
        },
        Op::Match => {
            let s: u8 = max_uses_on_path(p.kids[0], name);
            let mut most: u8 = 0;
            let mut k: usize = p.arms.len();
            while k > 0
                invariant
                    t == expr.term(),
                    p.term() == t,
                    k <= p.arms@.len(),
                    most == at_most_two(arms_uses(t, k as nat, name@)),
                decreases k,
            {
                let arm: &MatchArm = p.arms[k - 1];
                proof {
                    assert(t.arms[k - 1] == arm_term(*arm));
                    arm_decreases(t.arms[k - 1]);
                    assert(arms_uses(t, (k - 1) as nat, name@) >= 0);
                }
                if !contains_name(&arm.bindings, name) {
                    let g: u8 = match &arm.guard {
                        Some(g) => max_uses_on_path(g, name),
                        None => 0,
                    };
                    let body: u8 = max_uses_on_path(&arm.body, name);
                    most = clamp(g + if body >= most {
                        body
                    } else {
                        most
                    });
                }
                k -= 1;
            }
            clamp(s + most)
        },
        Op::For => {
            let head: u8 = max_uses_on_path(p.kids[0], name) + max_uses_on_path(p.kids[1], name);
            let inner: u8 = if *p.names[0] == *name {
                0
            } else {
                max_uses_on_path(p.kids[2], name)
            };
            clamp(head + if inner > 0 {
                2
            } else {
                0
            })
        },
        Op::Closure(_) => {
            let inner: u8 = max_uses_on_path(p.kids[0], name);
            if inner > 0 && !is_param(&p.names, name) {
                2
            } else {
                0
            }
        },
        _ => {
            let own: u8 = if is_reuse(p.op) && *p.names[0] == *name {
                1
            } else {
                0
            };
            let mut total: u8 = own;
            let mut i: usize = 0;
            assert(p.names@.len() == t.names.len());
            while i < p.kids.len()
                invariant
                    t == expr.term(),
                    p.term() == t,
                    p.op == Op::Let || p.op == Op::For ==> p.names@.len() >= 1,
                    i <= p.kids@.len(),
                    own <= 1,
                    total == at_most_two(own as nat + kids_uses(t, i as nat, name@)),
                decreases p.kids@.len() - i,
            {
                assert(p.kids@[i as int].term() == t.kids[i as int]);
                assert(t.names == p.names@.map_values(|s: &String| s@));
                let seen: bool = visible(p.op, &p.names, i, name);
                assert(seen == in_scope(t, i as int, name@));
                if seen {
                    total = clamp(total + max_uses_on_path(p.kids[i], name));
                }
                i += 1;
            }
            total
        },
    }
}

/// Whether a list of borrowed names holds `name`.
pub fn is_param(v: &Vec<&String>, name: &String) -> (r: bool)
    ensures
        r == v@.map_values(|s: &String| s@).contains(name@),
{
    let ghost names: Seq<Name> = v@.map_values(|s: &String| s@);
    let mut i: usize = 0;
    while i < v.len()
        invariant
            i <= v@.len(),
            names == v@.map_values(|s: &String| s@),
            forall|j: int| 0 <= j < i ==> #[trigger] names[j] != name@,
        decreases v@.len() - i,
    {
        assert(names[i as int] == v@[i as int]@);
        if *v[i] == *name {
            return true;
        }
        i += 1;
    }
    false
}

} // verus!
