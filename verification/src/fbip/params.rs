//! Which parameters hold values that a function may reuse in place.
//!
//! A parameter is not known to be counted, so reusing its memory is safe only where nothing
//! else needs the cell: the function itself uses the parameter at most once on any path,
//! and every call passes a value that nothing else refers to. A function that is mentioned
//! other than to call it has calls that cannot be seen, so none of its parameters qualify.

use vstd::prelude::*;
use crate::ir::{
    arm_decreases, arm_term, names_of, ArmTerm, Expr, Function, FunctionTerm, MatchArm, Name, Op,
    Program, ProgramTerm, Term,
};
use crate::names::{contains_name, NameMap, NameSet};
use super::uses::{in_scope, is_bare_var, is_var, max_uses, max_uses_on_path};

verus! {

/// Whether an operator yields a cell that nothing else refers to.
pub open spec fn unique_op(op: Op) -> bool {
    match op {
        Op::Ctor | Op::Str | Op::EmptyArray(_) | Op::StrConcat | Op::StrTrim | Op::StrToUpper
        | Op::StrToLower | Op::StrReplace | Op::StrRunes | Op::StrSplit | Op::ToString
        | Op::ArrayPush | Op::ArrayPop | Op::ArraySet | Op::ArrayRemove | Op::CtorReuse
        | Op::ArrayPushReuse | Op::ArrayPopReuse | Op::ArraySetReuse | Op::ArrayRemoveReuse
        | Op::StrConcatReuse | Op::StrTrimReuse | Op::StrToUpperReuse | Op::StrToLowerReuse
        | Op::StrReplaceReuse => true,
        _ => false,
    }
}

/// Whether a node calls a function by name.
pub open spec fn is_direct_call(t: Term) -> bool {
    t.op == Op::Call && t.kids.len() > 0 && t.kids[0].op == Op::Var
}

/// Whether a term mentions the function `f` other than to call it.
pub open spec fn escapes(t: Term, f: Name) -> bool
    decreases t,
{
    ||| is_var(t, f)
    ||| exists|i: int|
        (if is_direct_call(t) {
            1int
        } else {
            0
        }) <= i < t.kids.len() && escapes(#[trigger] t.kids[i], f)
    ||| exists|k: int| 0 <= k < t.arms.len() && arm_escapes(#[trigger] t.arms[k], f)
}

/// Whether an arm mentions the function `f` other than to call it.
pub open spec fn arm_escapes(arm: ArmTerm, f: Name) -> bool
    decreases arm,
{
    ||| (arm.guard matches Some(g) && escapes(g, f))
    ||| escapes(arm.body, f)
}

/// Whether every call of `f` in a term passes `arity` arguments, and a unique value as the
/// `i`th.
pub open spec fn passes_unique(t: Term, f: Name, arity: nat, i: int) -> bool
    decreases t,
{
    &&& is_direct_call(t) && t.kids[0].names[0] == f ==> t.kids.len() == arity + 1 && unique_op(
        t.kids[i + 1].op,
    )
    &&& forall|j: int| 0 <= j < t.kids.len() ==> passes_unique(#[trigger] t.kids[j], f, arity, i)
    &&& forall|k: int| 0 <= k < t.arms.len() ==> arm_passes_unique(#[trigger] t.arms[k], f, arity, i)
}

/// Whether every call of `f` in an arm passes a unique value as the `i`th argument.
pub open spec fn arm_passes_unique(arm: ArmTerm, f: Name, arity: nat, i: int) -> bool
    decreases arm,
{
    &&& (arm.guard matches Some(g) ==> passes_unique(g, f, arity, i))
    &&& passes_unique(arm.body, f, arity, i)
}

/// Whether a program mentions the function `f` other than to call it.
pub open spec fn program_escapes(p: ProgramTerm, f: Name) -> bool {
    ||| exists|j: int| 0 <= j < p.functions.len() && escapes(#[trigger] p.functions[j].body, f)
    ||| exists|j: int| 0 <= j < p.globals.len() && escapes(#[trigger] p.globals[j].value, f)
}

/// Whether every call of `f` in a program passes a unique value as the `i`th argument.
pub open spec fn program_passes_unique(p: ProgramTerm, f: Name, arity: nat, i: int) -> bool {
    &&& forall|j: int|
        0 <= j < p.functions.len() ==> passes_unique(#[trigger] p.functions[j].body, f, arity, i)
    &&& forall|j: int|
        0 <= j < p.globals.len() ==> passes_unique(#[trigger] p.globals[j].value, f, arity, i)
}

/// The number of parameters of the last of the first `n` functions that is named `f`.
pub open spec fn arity_of(p: ProgramTerm, f: Name, n: nat) -> nat
    decreases n,
{
    if n == 0 || n > p.functions.len() {
        0
    } else if p.functions[n - 1].name == f {
        p.functions[n - 1].params.len()
    } else {
        arity_of(p, f, (n - 1) as nat)
    }
}

/// Whether the `i`th parameter of a function may be reused in place.
pub open spec fn reusable_at(p: ProgramTerm, f: FunctionTerm, i: int) -> bool {
    let arity = arity_of(p, f.name, p.functions.len());
    &&& !program_escapes(p, f.name)
    &&& i < arity
    &&& program_passes_unique(p, f.name, arity, i)
    &&& max_uses(f.body, f.params[i]) <= 1
}

/// The parameters of a function that may be reused in place.
pub open spec fn reusable_in(p: ProgramTerm, f: FunctionTerm) -> Set<Name> {
    Set::new(
        |x: Name|
            exists|i: int|
                0 <= i < f.params.len() && #[trigger] f.params[i] == x && reusable_at(p, f, i),
    )
}

/// The parameters that may be reused in place, of each of the first `n` functions that has
/// any.
pub open spec fn reusable_upto(p: ProgramTerm, n: nat) -> Map<Name, Set<Name>>
    decreases n,
{
    if n == 0 {
        Map::empty()
    } else {
        let f = p.functions[n - 1];
        let m = reusable_upto(p, (n - 1) as nat);
        if reusable_in(p, f) == Set::<Name>::empty() {
            m
        } else {
            m.insert(f.name, reusable_in(p, f))
        }
    }
}

/// The model of a map from names to sets of names.
pub open spec fn sets_of(m: Map<Name, NameSet>) -> Map<Name, Set<Name>> {
    m.map_values(|s: NameSet| s@)
}

/// The operators whose first operand must be an array or a string.
pub open spec fn needs_array_or_str(op: Op) -> bool {
    match op {
        Op::AsCStr | Op::Index | Op::ArrayLen | Op::ArrayPush | Op::ArrayPop | Op::ArraySet
        | Op::ArrayRemove | Op::StrConcat | Op::StrRunes | Op::StrTrim | Op::StrSplit
        | Op::StrToUpper | Op::StrToLower | Op::StrContains | Op::StrStartsWith | Op::StrEndsWith
        | Op::StrReplace => true,
        _ => false,
    }
}

/// Whether a term uses the outer `name` where only an array or a string can stand.
pub open spec fn confirms(t: Term, name: Name) -> bool
    decreases t,
{
    &&& t.op is Closure ==> !t.names.contains(name)
    &&& {
        ||| needs_array_or_str(t.op) && t.kids.len() > 0 && is_var(t.kids[0], name)
        ||| exists|i: int|
            0 <= i < t.kids.len() && in_scope(t, i, name) && confirms(#[trigger] t.kids[i], name)
        ||| exists|k: int| 0 <= k < t.arms.len() && arm_confirms(#[trigger] t.arms[k], name)
    }
}

/// Whether an arm uses the outer `name` where only an array or a string can stand.
pub open spec fn arm_confirms(arm: ArmTerm, name: Name) -> bool
    decreases arm,
{
    &&& !arm.bindings.contains(name)
    &&& {
        ||| (arm.guard matches Some(g) && confirms(g, name))
        ||| confirms(arm.body, name)
    }
}

fn is_uniquely_owned(expr: &Expr) -> (r: bool)
    ensures
        r == unique_op(expr.term().op),
{
    match expr.parts().op {
        Op::Ctor | Op::Str | Op::EmptyArray(_) | Op::StrConcat | Op::StrTrim | Op::StrToUpper
        | Op::StrToLower | Op::StrReplace | Op::StrRunes | Op::StrSplit | Op::ToString
        | Op::ArrayPush | Op::ArrayPop | Op::ArraySet | Op::ArrayRemove | Op::CtorReuse
        | Op::ArrayPushReuse | Op::ArrayPopReuse | Op::ArraySetReuse | Op::ArrayRemoveReuse
        | Op::StrConcatReuse | Op::StrTrimReuse | Op::StrToUpperReuse | Op::StrToLowerReuse
        | Op::StrReplaceReuse => true,
        _ => false,
    }
}

/// Whether `expr` mentions the function `f` other than to call it.
fn scan_escapes(expr: &Expr, f: &String) -> (r: bool)
    ensures
        r == escapes(expr.term(), f@),
    decreases expr.term(),
{
    let ghost t: Term = expr.term();
    if is_bare_var(expr, f) {
        return true;
    }
    let p = expr.parts();
    let mut i: usize = 0;
    if p.op == Op::Call {
        assert(p.kids@[0].term() == t.kids[0]);
        if p.kids[0].parts().op == Op::Var {
            i = 1;
        }
    }
    let from: usize = i;
    while i < p.kids.len()
        invariant
            t == expr.term(),
            p.term() == t,
            from == (if is_direct_call(t) {
                1int
            } else {
                0
            }),
            from <= i,
            forall|j: int| from <= j < i ==> !escapes(#[trigger] t.kids[j], f@),
        decreases p.kids@.len() - i,
    {
        assert(p.kids@[i as int].term() == t.kids[i as int]);
        if scan_escapes(p.kids[i], f) {
            return true;
        }
        i += 1;
    }
    let mut k: usize = 0;
    while k < p.arms.len()
        invariant
            t == expr.term(),
            p.term() == t,
            k <= p.arms@.len(),
            forall|j: int| 0 <= j < k ==> !arm_escapes(#[trigger] t.arms[j], f@),
        decreases p.arms@.len() - k,
    {
        let arm: &MatchArm = p.arms[k];
        proof {
            assert(t.arms[k as int] == arm_term(*arm));
            arm_decreases(t.arms[k as int]);
        }
        match &arm.guard {
            Some(g) => {
                if scan_escapes(g, f) {
                    assert(arm_escapes(t.arms[k as int], f@));
                    return true;
                }
            },
            None => {},
        }
        if scan_escapes(&arm.body, f) {
            assert(arm_escapes(t.arms[k as int], f@));
            return true;
        }
        k += 1;
    }
    false
}

/// Whether every call of `f` in `expr` passes `arity` arguments, and a unique value as the
/// `at`th.
fn scan_calls(expr: &Expr, f: &String, arity: usize, at: usize) -> (r: bool)
    requires
        at < arity,
    ensures
        r == passes_unique(expr.term(), f@, arity as nat, at as int),
    decreases expr.term(),
{
    let ghost t: Term = expr.term();
    let p = expr.parts();
    proof {
        assert forall|j: int| 0 <= j < p.kids@.len() implies (#[trigger] p.kids@[j]).term()
            == t.kids[j] by {}
    }
    if p.op == Op::Call {
        if is_bare_var(p.kids[0], f) {
            if p.kids.len() - 1 != arity {
                return false;
            }
            if !is_uniquely_owned(p.kids[at + 1]) {
                return false;
            }
        }
    }
    let mut i: usize = 0;
    while i < p.kids.len()
        invariant
            t == expr.term(),
            p.term() == t,
            at < arity,
            i <= p.kids@.len(),
            forall|j: int|
                0 <= j < i ==> passes_unique(#[trigger] t.kids[j], f@, arity as nat, at as int),
        decreases p.kids@.len() - i,
    {
        assert(p.kids@[i as int].term() == t.kids[i as int]);
        if !scan_calls(p.kids[i], f, arity, at) {
            return false;
        }
        i += 1;
    }
    let mut k: usize = 0;
    while k < p.arms.len()
        invariant
            t == expr.term(),
            p.term() == t,
            at < arity,
            k <= p.arms@.len(),
            forall|j: int|
                0 <= j < k ==> arm_passes_unique(#[trigger] t.arms[j], f@, arity as nat, at as int),
        decreases p.arms@.len() - k,
    {
        let arm: &MatchArm = p.arms[k];
        proof {
            assert(t.arms[k as int] == arm_term(*arm));
            arm_decreases(t.arms[k as int]);
        }
        match &arm.guard {
            Some(g) => {
                if !scan_calls(g, f, arity, at) {
                    assert(!arm_passes_unique(t.arms[k as int], f@, arity as nat, at as int));
                    return false;
                }
            },
            None => {},
        }
        if !scan_calls(&arm.body, f, arity, at) {
            assert(!arm_passes_unique(t.arms[k as int], f@, arity as nat, at as int));
            return false;
        }
        k += 1;
    }
    true
}

fn scan_program_escapes(program: &Program, f: &String) -> (r: bool)
    ensures
        r == program_escapes(program.term(), f@),
{
    let ghost t: ProgramTerm = program.term();
    let mut j: usize = 0;
    while j < program.functions.len()
        invariant
            t == program.term(),
            j <= program.functions@.len(),
            forall|i: int| 0 <= i < j ==> !escapes(#[trigger] t.functions[i].body, f@),
        decreases program.functions@.len() - j,
    {
        assert(t.functions[j as int] == program.functions@[j as int].term());
        if scan_escapes(&program.functions[j].body, f) {
            return true;
        }
        j += 1;
    }
    let mut j: usize = 0;
    while j < program.globals.len()
        invariant
            t == program.term(),
            j <= program.globals@.len(),
            forall|i: int| 0 <= i < j ==> !escapes(#[trigger] t.globals[i].value, f@),
        decreases program.globals@.len() - j,
    {
        assert(t.globals[j as int] == program.globals@[j as int].term());
        if scan_escapes(&program.globals[j].value, f) {
            return true;
        }
        j += 1;
    }
    false
}

fn scan_program_calls(program: &Program, f: &String, arity: usize, at: usize) -> (r: bool)
    requires
        at < arity,
    ensures
        r == program_passes_unique(program.term(), f@, arity as nat, at as int),
{
    let ghost t: ProgramTerm = program.term();
    let mut j: usize = 0;
    while j < program.functions.len()
        invariant
            t == program.term(),
            at < arity,
            j <= program.functions@.len(),
            forall|i: int|
                0 <= i < j ==> passes_unique(
                    #[trigger] t.functions[i].body,
                    f@,
                    arity as nat,
                    at as int,
                ),
        decreases program.functions@.len() - j,
    {
        assert(t.functions[j as int] == program.functions@[j as int].term());
        if !scan_calls(&program.functions[j].body, f, arity, at) {
            return false;
        }
        j += 1;
    }
    let mut j: usize = 0;
    while j < program.globals.len()
        invariant
            t == program.term(),
            at < arity,
            j <= program.globals@.len(),
            forall|i: int|
                0 <= i < j ==> passes_unique(
                    #[trigger] t.globals[i].value,
                    f@,
                    arity as nat,
                    at as int,
                ),
        decreases program.globals@.len() - j,
    {
        assert(t.globals[j as int] == program.globals@[j as int].term());
        if !scan_calls(&program.globals[j].value, f, arity, at) {
            return false;
        }
        j += 1;
    }
    true
}

fn arity(program: &Program, f: &String) -> (r: usize)
    ensures
        r == arity_of(program.term(), f@, program.functions@.len()),
{
    let ghost t: ProgramTerm = program.term();
    let mut j: usize = program.functions.len();
    while j > 0
        invariant
            t == program.term(),
            j <= program.functions@.len(),
            arity_of(t, f@, j as nat) == arity_of(t, f@, program.functions@.len()),
        decreases j,
    {
        assert(t.functions[j - 1] == program.functions@[j - 1].term());
        if program.functions[j - 1].name == *f {
            return program.functions[j - 1].params.len();
        }
        j -= 1;
    }
    0
}

/// The parameters, by function, that may be reused in place. A function without any has no
/// entry.
pub fn reusable_params(program: &Program) -> (r: NameMap<NameSet>)
    ensures
        sets_of(r@) == reusable_upto(program.term(), program.functions@.len()),
{
    let ghost t: ProgramTerm = program.term();
    let mut out: NameMap<NameSet> = NameMap::new();
    assert(sets_of(out@) =~= Map::<Name, Set<Name>>::empty());
    let mut j: usize = 0;
    while j < program.functions.len()
        invariant
            t == program.term(),
            j <= program.functions@.len(),
            sets_of(out@) == reusable_upto(t, j as nat),
        decreases program.functions@.len() - j,
    {
        let f: &Function = &program.functions[j];
        assert(t.functions[j as int] == f.term());
        let eligible: NameSet = reusable_of(program, f);
        if !eligible.is_empty() {
            let ghost before: Map<Name, NameSet> = out@;
            out.insert(f.name.clone(), eligible);
            assert(sets_of(out@) =~= sets_of(before).insert(f.name@, eligible@));
        }
        j += 1;
    }
    out
}

fn reusable_of(program: &Program, f: &Function) -> (r: NameSet)
    ensures
        r@ == reusable_in(program.term(), f.term()),
{
    let ghost t: ProgramTerm = program.term();
    let ghost ft: FunctionTerm = f.term();
    let mut eligible: NameSet = NameSet::new();
    if scan_program_escapes(program, &f.name) {
        assert(eligible@ =~= reusable_in(t, ft));
        return eligible;
    }
    let n: usize = arity(program, &f.name);
    let mut i: usize = 0;
    while i < f.params.len()
        invariant
            t == program.term(),
            ft == f.term(),
            i <= f.params@.len(),
            !program_escapes(t, ft.name),
            n == arity_of(t, ft.name, t.functions.len()),
            forall|x: Name|
                #[trigger] eligible@.contains(x) <==> exists|j: int|
                    0 <= j < i && #[trigger] ft.params[j] == x && reusable_at(t, ft, j),
        decreases f.params@.len() - i,
    {
        let ghost before: Set<Name> = eligible@;
        assert(ft.params[i as int] == f.params@[i as int]@);
        if i < n && scan_program_calls(program, &f.name, n, i) && max_uses_on_path(
            &f.body,
            &f.params[i],
        ) <= 1 {
            assert(reusable_at(t, ft, i as int));
            eligible.insert(f.params[i].clone());
        } else {
            assert(!reusable_at(t, ft, i as int));
        }
        i += 1;
        assert forall|x: Name| #[trigger] eligible@.contains(x) <==> exists|j: int|
            0 <= j < i && #[trigger] ft.params[j] == x && reusable_at(t, ft, j) by {
            if before.contains(x) {
                let j = choose|j: int|
                    0 <= j < i - 1 && #[trigger] ft.params[j] == x && reusable_at(t, ft, j);
                assert(0 <= j < i && ft.params[j] == x);
            }
            if reusable_at(t, ft, i - 1) && ft.params[i - 1] == x {
                assert(eligible@.contains(x));
            }
        }
    }
    assert(eligible@ =~= reusable_in(t, ft));
    eligible
}

fn is_array_or_str_op(op: Op) -> (r: bool)
    ensures
        r == needs_array_or_str(op),
{
    match op {
        Op::AsCStr | Op::Index | Op::ArrayLen | Op::ArrayPush | Op::ArrayPop | Op::ArraySet
        | Op::ArrayRemove | Op::StrConcat | Op::StrRunes | Op::StrTrim | Op::StrSplit
        | Op::StrToUpper | Op::StrToLower | Op::StrContains | Op::StrStartsWith | Op::StrEndsWith
        | Op::StrReplace => true,
        _ => false,
    }
}

/// Whether `expr` uses the outer `name` where only an array or a string can stand.
pub fn confirms_param(expr: &Expr, name: &String) -> (r: bool)
    ensures
        r == confirms(expr.term(), name@),
    decreases expr.term(),
{
    let ghost t: Term = expr.term();
    let p = expr.parts();
    proof {
        assert(p.names@.len() == t.names.len());
        assert forall|j: int| 0 <= j < p.kids@.len() implies (#[trigger] p.kids@[j]).term()
            == t.kids[j] by {}
    }
    match p.op {
        Op::Closure(_) => {
            if super::uses::is_param(&p.names, name) {
                return false;
            }
        },
        _ => {},
    }
    if is_array_or_str_op(p.op) && p.kids.len() > 0 && is_bare_var(p.kids[0], name) {
        return true;
    }
    let mut i: usize = 0;
    while i < p.kids.len()
        invariant
            t == expr.term(),
            p.term() == t,
            p.op == Op::Let || p.op == Op::For ==> p.names@.len() >= 1,
            t.op is Closure ==> !t.names.contains(name@),
            i <= p.kids@.len(),
            forall|j: int|
                0 <= j < i ==> !(in_scope(t, j, name@) && confirms(#[trigger] t.kids[j], name@)),
        decreases p.kids@.len() - i,
    {
        assert(p.kids@[i as int].term() == t.kids[i as int]);
        assert(t.names == p.names@.map_values(|s: &String| s@));
        let seen: bool = super::uses::visible(p.op, &p.names, i, name);
        assert(seen == in_scope(t, i as int, name@));
        if seen && confirms_param(p.kids[i], name) {
            return true;
        }
        i += 1;
    }
    let mut k: usize = 0;
    while k < p.arms.len()
        invariant
            t == expr.term(),
            p.term() == t,
            t.op is Closure ==> !t.names.contains(name@),
            k <= p.arms@.len(),
            forall|j: int| 0 <= j < k ==> !arm_confirms(#[trigger] t.arms[j], name@),
        decreases p.arms@.len() - k,
    {
        let arm: &MatchArm = p.arms[k];
        proof {
            assert(t.arms[k as int] == arm_term(*arm));
            arm_decreases(t.arms[k as int]);
        }
        if !contains_name(&arm.bindings, name) {
            match &arm.guard {
                Some(g) => {
                    if confirms_param(g, name) {
                        assert(arm_confirms(t.arms[k as int], name@));
                        return true;
                    }
                },
                None => {},
            }
            if confirms_param(&arm.body, name) {
                assert(arm_confirms(t.arms[k as int], name@));
                return true;
            }
        }
        k += 1;
    }
    false
}

/// Those of `params` that `body` uses where only an array or a string can stand. A
/// shadowed parameter is not confirmed by uses of the inner binding.
pub fn confirmed_array_or_str_params(body: &Expr, params: &Vec<String>) -> (r: NameSet)
    ensures
        r@ == Set::new(|x: Name| names_of(params@).contains(x) && confirms(body.term(), x)),
{
    let ghost t: Term = body.term();
    let ghost all: Seq<Name> = names_of(params@);
    let mut out: NameSet = NameSet::new();
    let mut i: usize = 0;
    assert(out@ =~= Set::new(|x: Name| all.take(0).contains(x) && confirms(t, x)));
    while i < params.len()
        invariant
            i <= params@.len(),
            t == body.term(),
            all == names_of(params@),
            out@ == Set::new(|x: Name| all.take(i as int).contains(x) && confirms(t, x)),
        decreases params@.len() - i,
    {
        let ghost before: Set<Name> = out@;
        if confirms_param(body, &params[i]) {
            out.insert(params[i].clone());
        }
        i += 1;
        assert(all.take(i as int) =~= all.take(i - 1).push(all[i - 1]));
        assert forall|x: Name|
            all.take(i as int).contains(x) <==> all.take(i - 1).contains(x) || x == all[i - 1] by {
            if all.take(i - 1).contains(x) {
                let shorter = all.take(i - 1);
                let j = choose|j: int| 0 <= j < shorter.len() && shorter[j] == x;
                assert(all.take(i as int)[j] == x);
            }
            if x == all[i - 1] {
                assert(all.take(i as int)[i - 1] == x);
            }
        }
        assert(out@ =~= Set::new(|x: Name| all.take(i as int).contains(x) && confirms(t, x)));
    }
    assert(all.take(i as int) =~= all);
    out
}

} // verus!
