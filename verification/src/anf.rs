//! Binds unnamed heap-allocating intermediates to temporaries, so that a later pass can
//! release them at the end of a scope.
//!
//! Only a fresh allocation over atoms is hoisted. Hoisting moves evaluation ahead of every
//! sibling to the left, which is harmless only for an expression whose one effect is to
//! allocate. Children are processed first, so an inner allocation has become an atom by
//! the time its parent is considered.
//!
//! A slot that is evaluated conditionally, later, or more than once is a region of its
//! own: nothing is hoisted out of it. That holds of the branches of an `If`, of match
//! arms, loop bodies, closure bodies and spawned blocks, of what follows a binding, and
//! of the right operand of a short-circuiting operator.

use vstd::prelude::*;
use crate::ir::{
    arm_decreases, arm_term, arm_terms, binds_of, mk_var, t_let, t_var, take_arm_at, take_at,
    terms, wrap, wrap_in, ArmTerm, BinOp, Expr, Function, FunctionTerm, Global, GlobalTerm, MatchArm,
    Name, Op, Parts, Program, ProgramTerm, Term,
};
use crate::names::{decimal, decimal_injective, NameSupply};

verus! {

/// A value that needs no evaluation. A string literal is not one: it allocates.
pub open spec fn is_atom_op(op: Op) -> bool {
    match op {
        Op::Var | Op::Int(_) | Op::Float(_) | Op::Bool(_) | Op::Unit => true,
        _ => false,
    }
}

/// The operators that always yield a freshly allocated heap cell.
pub open spec fn is_fresh_alloc_op(op: Op) -> bool {
    match op {
        Op::Ctor | Op::Str | Op::EmptyArray(_) | Op::StrConcat | Op::StrTrim | Op::StrToUpper
        | Op::StrToLower | Op::StrReplace | Op::StrRunes | Op::StrSplit | Op::ToString
        | Op::ArrayPush | Op::ArrayPop | Op::ArraySet | Op::ArrayRemove => true,
        _ => false,
    }
}

/// A fresh allocation whose only remaining work is the allocation itself.
pub open spec fn hoistable_term(t: Term) -> bool {
    is_fresh_alloc_op(t.op) && forall|i: int|
        0 <= i < t.kids.len() ==> is_atom_op(#[trigger] t.kids[i].op)
}

/// What happens to a child slot.
#[derive(Clone, Copy, PartialEq, Eq, Structural)]
pub enum Slot {
    /// Evaluated unconditionally as part of the node: a fresh allocation there is hoisted.
    Inline,
    /// The value of a `Let`: it has a name already, but what is inside it is hoisted.
    Bound,
    /// Evaluated conditionally, later, or more than once: a region of its own.
    Region,
}

/// What happens to child slot `i` of an operator.
pub open spec fn slot_of(op: Op, i: int) -> Slot {
    match op {
        Op::If | Op::Assign | Op::Binary(BinOp::And) | Op::Binary(BinOp::Or) => if i == 0 {
            Slot::Inline
        } else {
            Slot::Region
        },
        Op::For => if i <= 1 {
            Slot::Inline
        } else {
            Slot::Region
        },
        Op::Let => if i == 0 {
            Slot::Bound
        } else {
            Slot::Region
        },
        Op::Closure(_) | Op::Spawn | Op::Select | Op::RcAnnotated(_) => Slot::Region,
        _ => Slot::Inline,
    }
}

/// The name of the `n`th temporary.
pub open spec fn temp_name(n: nat) -> Name {
    "anf$"@ + decimal(n)
}

/// A flattened term: what is left of it, the bindings it was relieved of in evaluation
/// order, and the number of temporaries handed out so far.
pub struct Flat {
    pub term: Term,
    pub binds: Seq<(Name, Term)>,
    pub count: nat,
}

/// A list of flattened children, with the bindings of all of them.
pub struct FlatKids {
    pub kids: Seq<Term>,
    pub binds: Seq<(Name, Term)>,
    pub count: nat,
}

/// A list of flattened arms.
pub struct FlatArms {
    pub arms: Seq<ArmTerm>,
    pub count: nat,
}

/// Flattens a term, when `n` temporaries have been handed out before it.
pub open spec fn flatten_term(t: Term, n: nat) -> Flat
    decreases t, t.kids.len() + t.arms.len() + 1,
{
    let k = flatten_kids(t, t.kids.len(), n);
    let a = flatten_arms(t, t.arms.len(), k.count);
    Flat { term: Term { kids: k.kids, arms: a.arms, ..t }, binds: k.binds, count: a.count }
}

/// Flattens the first `i` children of a term, left to right.
pub open spec fn flatten_kids(t: Term, i: nat, n: nat) -> FlatKids
    decreases t, i,
{
    if i == 0 || i > t.kids.len() {
        FlatKids { kids: Seq::empty(), binds: Seq::empty(), count: n }
    } else {
        let p = flatten_kids(t, (i - 1) as nat, n);
        let kid = t.kids[i - 1];
        let f = match slot_of(t.op, i - 1) {
            Slot::Inline => hoist_term(kid, p.count),
            Slot::Bound => flatten_term(kid, p.count),
            Slot::Region => region_term(kid, p.count),
        };
        FlatKids { kids: p.kids.push(f.term), binds: p.binds + f.binds, count: f.count }
    }
}

/// Flattens the first `i` arms of a term, each guard and each body as a region.
pub open spec fn flatten_arms(t: Term, i: nat, n: nat) -> FlatArms
    decreases t, i,
{
    if i == 0 || i > t.arms.len() {
        FlatArms { arms: Seq::empty(), count: n }
    } else {
        let p = flatten_arms(t, (i - 1) as nat, n);
        let arm = t.arms[i - 1];
        match arm.guard {
            Some(g) => {
                let gf = region_term(g, p.count);
                let bf = region_term(arm.body, gf.count);
                FlatArms {
                    arms: p.arms.push(ArmTerm { guard: Some(gf.term), body: bf.term, ..arm }),
                    count: bf.count,
                }
            },
            None => {
                let bf = region_term(arm.body, p.count);
                FlatArms { arms: p.arms.push(ArmTerm { body: bf.term, ..arm }), count: bf.count }
            },
        }
    }
}

/// Flattens a term and, if what is left is hoistable, replaces it by a temporary.
pub open spec fn hoist_term(t: Term, n: nat) -> Flat
    decreases t, t.kids.len() + t.arms.len() + 2,
{
    let f = flatten_term(t, n);
    if hoistable_term(f.term) {
        Flat {
            term: t_var(temp_name(f.count + 1)),
            binds: f.binds.push((temp_name(f.count + 1), f.term)),
            count: f.count + 1,
        }
    } else {
        f
    }
}

/// Flattens a term and keeps its bindings around it. No bindings escape.
pub open spec fn region_term(t: Term, n: nat) -> Flat
    decreases t, t.kids.len() + t.arms.len() + 2,
{
    let f = flatten_term(t, n);
    Flat { term: wrap(f.binds, f.term), binds: Seq::empty(), count: f.count }
}

/// Flattens the first `i` functions of a program.
pub open spec fn flatten_functions(p: ProgramTerm, i: nat) -> (Seq<FunctionTerm>, nat)
    decreases i,
{
    if i == 0 {
        (Seq::empty(), 0)
    } else {
        let (done, n) = flatten_functions(p, (i - 1) as nat);
        let f = p.functions[i - 1];
        let r = region_term(f.body, n);
        (done.push(FunctionTerm { body: r.term, ..f }), r.count)
    }
}

/// Flattens the first `i` globals of a program, after all of its functions.
pub open spec fn flatten_globals(p: ProgramTerm, i: nat) -> (Seq<GlobalTerm>, nat)
    decreases i,
{
    if i == 0 {
        (Seq::empty(), flatten_functions(p, p.functions.len()).1)
    } else {
        let (done, n) = flatten_globals(p, (i - 1) as nat);
        let g = p.globals[i - 1];
        let r = region_term(g.value, n);
        (done.push(GlobalTerm { value: r.term, ..g }), r.count)
    }
}

/// Flattens a program: each body and each initial value is a region.
pub open spec fn flatten_program(p: ProgramTerm) -> ProgramTerm {
    ProgramTerm {
        functions: flatten_functions(p, p.functions.len()).0,
        globals: flatten_globals(p, p.globals.len()).0,
        externs: p.externs,
    }
}

fn is_atom(op: Op) -> (r: bool)
    ensures
        r == is_atom_op(op),
{
    match op {
        Op::Var | Op::Int(_) | Op::Float(_) | Op::Bool(_) | Op::Unit => true,
        _ => false,
    }
}

fn is_fresh_alloc(op: Op) -> (r: bool)
    ensures
        r == is_fresh_alloc_op(op),
{
    match op {
        Op::Ctor | Op::Str | Op::EmptyArray(_) | Op::StrConcat | Op::StrTrim | Op::StrToUpper
        | Op::StrToLower | Op::StrReplace | Op::StrRunes | Op::StrSplit | Op::ToString
        | Op::ArrayPush | Op::ArrayPop | Op::ArraySet | Op::ArrayRemove => true,
        _ => false,
    }
}

fn hoistable(expr: &Expr) -> (r: bool)
    ensures
        r == hoistable_term(expr.term()),
{
    let p = expr.parts();
    if !is_fresh_alloc(p.op) {
        return false;
    }
    let mut i: usize = 0;
    while i < p.kids.len()
        invariant
            i <= p.kids@.len(),
            p.term() == expr.term(),
            forall|j: int| 0 <= j < i ==> is_atom_op(#[trigger] expr.term().kids[j].op),
        decreases p.kids@.len() - i,
    {
        assert(p.kids@[i as int].term() == expr.term().kids[i as int]);
        if !is_atom(p.kids[i].parts().op) {
            return false;
        }
        i += 1;
    }
    true
}

fn slot(op: Op, i: usize) -> (r: Slot)
    ensures
        r == slot_of(op, i as int),
{
    match op {
        Op::If | Op::Assign | Op::Binary(BinOp::And) | Op::Binary(BinOp::Or) => if i == 0 {
            Slot::Inline
        } else {
            Slot::Region
        },
        Op::For => if i <= 1 {
            Slot::Inline
        } else {
            Slot::Region
        },
        Op::Let => if i == 0 {
            Slot::Bound
        } else {
            Slot::Region
        },
        Op::Closure(_) | Op::Spawn | Op::Select | Op::RcAnnotated(_) => Slot::Region,
        _ => Slot::Inline,
    }
}

/// A-normalises every function body and every global of a program.
pub fn anf_program(program: Program) -> (r: Program)
    ensures
        r.term() == flatten_program(program.term()),
{
    let ghost t: ProgramTerm = program.term();
    let mut supply: NameSupply = NameSupply::new();
    let mut functions: Vec<Function> = Vec::new();
    let mut from: Vec<Function> = program.functions;
    let ghost all: Seq<Function> = from@;
    let mut i: usize = 0;
    let n: usize = from.len();
    while i < n
        invariant
            i <= n,
            n == all.len(),
            from@ == all.skip(i as int),
            t.functions == all.map_values(|f: Function| f.term()),
            functions@.map_values(|f: Function| f.term()) == flatten_functions(t, i as nat).0,
            supply@ == flatten_functions(t, i as nat).1,
        decreases n - i,
    {
        let f: Function = from.remove(0);
        let ghost before: Seq<Function> = functions@;
        assert(f.term() == t.functions[i as int]);
        let g: Function = Function {
            name: f.name,
            params: f.params,
            body: region(f.body, &mut supply),
        };
        functions.push(g);
        i += 1;
        assert(from@ =~= all.skip(i as int));
        assert(functions@.map_values(|f: Function| f.term()) =~= before.map_values(
            |f: Function| f.term(),
        ).push(g.term()));
        assert(g.term() == FunctionTerm {
            body: region_term(f.body.term(), flatten_functions(t, (i - 1) as nat).1).term,
            ..t.functions[i - 1]
        });
    }
    let mut globals: Vec<Global> = Vec::new();
    let mut from: Vec<Global> = program.globals;
    let ghost all: Seq<Global> = from@;
    let mut i: usize = 0;
    let n: usize = from.len();
    while i < n
        invariant
            i <= n,
            n == all.len(),
            from@ == all.skip(i as int),
            t.globals == all.map_values(|g: Global| g.term()),
            globals@.map_values(|g: Global| g.term()) == flatten_globals(t, i as nat).0,
            supply@ == flatten_globals(t, i as nat).1,
        decreases n - i,
    {
        let g: Global = from.remove(0);
        let ghost before: Seq<Global> = globals@;
        assert(g.term() == t.globals[i as int]);
        let h: Global = Global { name: g.name, value: region(g.value, &mut supply) };
        globals.push(h);
        i += 1;
        assert(from@ =~= all.skip(i as int));
        assert(globals@.map_values(|g: Global| g.term()) =~= before.map_values(
            |g: Global| g.term(),
        ).push(h.term()));
        assert(h.term() == GlobalTerm {
            value: region_term(g.value.term(), flatten_globals(t, (i - 1) as nat).1).term,
            ..t.globals[i - 1]
        });
    }
    Program { functions, globals, externs: program.externs }
}

/// Flattens `expr` as a region: its bindings stay around it, and its own result is never
/// hoisted.
fn region(expr: Expr, supply: &mut NameSupply) -> (r: Expr)
    ensures
        r.term() == region_term(expr.term(), old(supply)@).term,
        final(supply)@ == region_term(expr.term(), old(supply)@).count,
    decreases expr.term(), expr.term().kids.len() + expr.term().arms.len() + 2,
{
    let ghost t: Term = expr.term();
    let ghost n: nat = supply@;
    let mut binds: Vec<(String, Expr)> = Vec::new();
    let flat: Expr = flatten(expr, &mut binds, supply);
    assert(binds_of(binds@) =~= flatten_term(t, n).binds);
    wrap_in(binds, flat)
}

/// Flattens `child` and hoists what is left of it if it qualifies, returning what stands
/// in its place.
fn hoist(child: Expr, binds: &mut Vec<(String, Expr)>, supply: &mut NameSupply) -> (r: Expr)
    ensures
        r.term() == hoist_term(child.term(), old(supply)@).term,
        binds_of(final(binds)@) == binds_of(old(binds)@) + hoist_term(
            child.term(),
            old(supply)@,
        ).binds,
        final(supply)@ == hoist_term(child.term(), old(supply)@).count,
    decreases child.term(), child.term().kids.len() + child.term().arms.len() + 2,
{
    let ghost f: Flat = flatten_term(child.term(), supply@);
    let flat: Expr = flatten(child, binds, supply);
    if !hoistable(&flat) {
        return flat;
    }
    let name: String = supply.fresh("anf$");
    let ghost before: Seq<(String, Expr)> = binds@;
    binds.push((name.clone(), flat));
    assert(binds_of(binds@) =~= binds_of(before).push((name@, flat.term())));
    mk_var(name)
}

/// Hoists what qualifies out of the inline slots of `expr` into `binds`, in evaluation
/// order, and flattens the other slots as regions.
fn flatten(expr: Expr, binds: &mut Vec<(String, Expr)>, supply: &mut NameSupply) -> (r: Expr)
    ensures
        r.term() == flatten_term(expr.term(), old(supply)@).term,
        binds_of(final(binds)@) == binds_of(old(binds)@) + flatten_term(
            expr.term(),
            old(supply)@,
        ).binds,
        final(supply)@ == flatten_term(expr.term(), old(supply)@).count,
    decreases expr.term(), expr.term().kids.len() + expr.term().arms.len() + 1,
{
    let ghost t: Term = expr.term();
    let ghost n: nat = supply@;
    let ghost outer: Seq<(Name, Term)> = binds_of(binds@);
    let p: Parts = expr.into_parts();
    let op: Op = p.op;
    let mut kids: Vec<Expr> = p.kids;
    let mut i: usize = 0;
    assert(binds_of(binds@) =~= outer + flatten_kids(t, 0, n).binds);
    while i < kids.len()
        invariant
            t == expr.term(),
            t.op == op,
            i <= kids@.len(),
            kids@.len() == t.kids.len(),
            forall|j: int| i <= j < kids@.len() ==> (#[trigger] kids@[j]).term() == t.kids[j],
            flatten_kids(t, i as nat, n).kids.len() == i,
            forall|j: int|
                0 <= j < i ==> (#[trigger] kids@[j]).term() == flatten_kids(t, i as nat, n).kids[j],
            binds_of(binds@) == outer + flatten_kids(t, i as nat, n).binds,
            supply@ == flatten_kids(t, i as nat, n).count,
        decreases kids@.len() - i,
    {
        let ghost prev: FlatKids = flatten_kids(t, i as nat, n);
        let kid: Expr = take_at(&mut kids, i);
        assert(kid.term() == t.kids[i as int]);
        assert(decreases_to!(t => t.kids[i as int]));
        let flat: Expr = match slot(op, i) {
            Slot::Inline => hoist(kid, binds, supply),
            Slot::Bound => flatten(kid, binds, supply),
            Slot::Region => region(kid, supply),
        };
        kids.set(i, flat);
        i += 1;
        let ghost next: FlatKids = flatten_kids(t, i as nat, n);
        assert(next.kids == prev.kids.push(flat.term()));
        assert(binds_of(binds@) =~= outer + next.binds);
    }
    assert(terms(kids@) =~= flatten_kids(t, t.kids.len(), n).kids);
    let ghost m: nat = supply@;
    let mut arms: Vec<MatchArm> = p.arms;
    let mut k: usize = 0;
    while k < arms.len()
        invariant
            t == expr.term(),
            k <= arms@.len(),
            arms@.len() == t.arms.len(),
            forall|j: int| k <= j < arms@.len() ==> arm_term(#[trigger] arms@[j]) == t.arms[j],
            flatten_arms(t, k as nat, m).arms.len() == k,
            forall|j: int|
                0 <= j < k ==> arm_term(#[trigger] arms@[j]) == flatten_arms(t, k as nat, m).arms[j],
            supply@ == flatten_arms(t, k as nat, m).count,
        decreases arms@.len() - k,
    {
        let ghost prev: FlatArms = flatten_arms(t, k as nat, m);
        let arm: MatchArm = take_arm_at(&mut arms, k);
        assert(arm_term(arm) == t.arms[k as int]);
        proof {
            assert(decreases_to!(t => t.arms[k as int]));
            arm_decreases(t.arms[k as int]);
        }
        let guard: Option<Box<Expr>> = match arm.guard {
            Some(g) => Some(Box::new(region(*g, supply))),
            None => None,
        };
        let body: Expr = region(arm.body, supply);
        let flat: MatchArm = MatchArm { tag: arm.tag, bindings: arm.bindings, guard, body };
        arms.set(k, flat);
        k += 1;
        assert(flatten_arms(t, k as nat, m).arms == prev.arms.push(arm_term(flat)));
    }
    assert(arm_terms(arms@) =~= flatten_arms(t, t.arms.len(), m).arms);
    let q: Parts = Parts { op, names: p.names, types: p.types, kids, arms };
    assert(q.term() == flatten_term(t, n).term);
    Expr::from_parts(q)
}

/// Whether there is nothing left to hoist in a term.
pub open spec fn settled(t: Term) -> bool
    decreases t,
{
    &&& forall|i: int|
        0 <= i < t.kids.len() ==> settled(#[trigger] t.kids[i]) && (slot_of(t.op, i)
            == Slot::Inline ==> !hoistable_term(t.kids[i]))
    &&& forall|k: int| 0 <= k < t.arms.len() ==> settled_arm(#[trigger] t.arms[k])
}

/// Whether there is nothing left to hoist in an arm.
pub open spec fn settled_arm(arm: ArmTerm) -> bool
    decreases arm,
{
    &&& (arm.guard matches Some(g) ==> settled(g))
    &&& settled(arm.body)
}

/// Whether every binding is of a fresh allocation over atoms.
pub open spec fn allocations(binds: Seq<(Name, Term)>) -> bool {
    forall|i: int|
        0 <= i < binds.len() ==> hoistable_term(#[trigger] binds[i].1) && settled(binds[i].1)
}

/// A term with nothing to hoist is left as it is, and no temporary is used up.
pub proof fn nothing_to_hoist_is_unchanged(t: Term, n: nat)
    requires
        settled(t),
    ensures
        region_term(t, n) == (Flat { term: t, binds: Seq::empty(), count: n }),
{
    flatten_settled(t, n);
}

proof fn flatten_settled(t: Term, n: nat)
    requires
        settled(t),
    ensures
        flatten_term(t, n) == (Flat { term: t, binds: Seq::empty(), count: n }),
    decreases t, t.kids.len() + t.arms.len() + 1,
{
    flatten_settled_kids(t, t.kids.len(), n);
    flatten_settled_arms(t, t.arms.len(), n);
    assert(t.kids.take(t.kids.len() as int) =~= t.kids);
    assert(t.arms.take(t.arms.len() as int) =~= t.arms);
}

proof fn flatten_settled_kids(t: Term, i: nat, n: nat)
    requires
        settled(t),
        i <= t.kids.len(),
    ensures
        flatten_kids(t, i, n) == (FlatKids {
            kids: t.kids.take(i as int),
            binds: Seq::empty(),
            count: n,
        }),
    decreases t, i,
{
    if i > 0 {
        flatten_settled_kids(t, (i - 1) as nat, n);
        let kid = t.kids[i - 1];
        assert(settled(kid));
        flatten_settled(kid, n);
        let f = match slot_of(t.op, i - 1) {
            Slot::Inline => hoist_term(kid, n),
            Slot::Bound => flatten_term(kid, n),
            Slot::Region => region_term(kid, n),
        };
        assert(wrap(Seq::empty(), kid) == kid);
        assert(f == (Flat { term: kid, binds: Seq::empty(), count: n }));
        assert(t.kids.take(i - 1).push(kid) =~= t.kids.take(i as int));
        assert(Seq::<(Name, Term)>::empty() + Seq::<(Name, Term)>::empty() =~= Seq::<
            (Name, Term),
        >::empty());
    } else {
        assert(t.kids.take(0) =~= Seq::<Term>::empty());
    }
}

proof fn flatten_settled_arms(t: Term, i: nat, n: nat)
    requires
        settled(t),
        i <= t.arms.len(),
    ensures
        flatten_arms(t, i, n) == (FlatArms { arms: t.arms.take(i as int), count: n }),
    decreases t, i,
{
    if i > 0 {
        flatten_settled_arms(t, (i - 1) as nat, n);
        let arm = t.arms[i - 1];
        arm_decreases(arm);
        assert(settled_arm(arm));
        if let Some(g) = arm.guard {
            flatten_settled(g, n);
            assert(region_term(g, n) == (Flat { term: g, binds: Seq::empty(), count: n }));
        }
        flatten_settled(arm.body, n);
        assert(region_term(arm.body, n) == (Flat {
            term: arm.body,
            binds: Seq::empty(),
            count: n,
        }));
        assert(t.arms.take(i - 1).push(arm) =~= t.arms.take(i as int));
    } else {
        assert(t.arms.take(0) =~= Seq::<ArmTerm>::empty());
    }
}

proof fn wrap_settled(binds: Seq<(Name, Term)>, body: Term)
    requires
        allocations(binds),
        settled(body),
    ensures
        settled(wrap(binds, body)),
    decreases binds.len(),
{
    if binds.len() > 0 {
        let inner = t_let(binds.last().0, binds.last().1, body);
        assert(settled(binds.last().1));
        assert(settled(inner));
        assert(allocations(binds.drop_last()));
        wrap_settled(binds.drop_last(), inner);
    }
}

/// Every hoisted binding is a fresh allocation over atoms, and what is left of the term
/// keeps its operator and names: a region's own result is never hoisted. Nothing is left
/// to hoist.
pub proof fn only_allocations_are_hoisted(t: Term, n: nat)
    ensures
        allocations(flatten_term(t, n).binds),
        flatten_term(t, n).term.op == t.op,
        flatten_term(t, n).term.names == t.names,
        flatten_term(t, n).term.kids.len() == t.kids.len(),
        region_term(t, n).term == wrap(flatten_term(t, n).binds, flatten_term(t, n).term),
        settled(flatten_term(t, n).term),
        settled(region_term(t, n).term),
    decreases t, t.kids.len() + t.arms.len() + 1,
{
    flatten_kids_settles(t, t.kids.len(), n);
    flatten_arms_settles(t, t.arms.len(), flatten_kids(t, t.kids.len(), n).count);
    wrap_settled(flatten_term(t, n).binds, flatten_term(t, n).term);
}

proof fn flatten_kids_settles(t: Term, i: nat, n: nat)
    requires
        i <= t.kids.len(),
    ensures
        allocations(flatten_kids(t, i, n).binds),
        flatten_kids(t, i, n).kids.len() == i,
        forall|j: int|
            0 <= j < i ==> settled(#[trigger] flatten_kids(t, i, n).kids[j]) && (slot_of(t.op, j)
                == Slot::Inline ==> !hoistable_term(flatten_kids(t, i, n).kids[j])),
    decreases t, i,
{
    if i > 0 {
        flatten_kids_settles(t, (i - 1) as nat, n);
        let p = flatten_kids(t, (i - 1) as nat, n);
        let kid = t.kids[i - 1];
        only_allocations_are_hoisted(kid, p.count);
        let f = match slot_of(t.op, i - 1) {
            Slot::Inline => hoist_term(kid, p.count),
            Slot::Bound => flatten_term(kid, p.count),
            Slot::Region => region_term(kid, p.count),
        };
        assert(allocations(f.binds) && settled(f.term));
        let r = flatten_kids(t, i, n);
        assert(r.kids == p.kids.push(f.term) && r.binds == p.binds + f.binds);
        assert forall|j: int| 0 <= j < i implies settled(#[trigger] r.kids[j]) && (slot_of(t.op, j)
            == Slot::Inline ==> !hoistable_term(r.kids[j])) by {
            if j < i - 1 {
                assert(r.kids[j] == p.kids[j]);
            }
        }
        assert forall|j: int| 0 <= j < r.binds.len() implies hoistable_term(#[trigger] r.binds[j].1)
            && settled(r.binds[j].1) by {
            if j < p.binds.len() {
                assert(r.binds[j] == p.binds[j]);
            } else {
                assert(r.binds[j] == f.binds[j - p.binds.len()]);
            }
        }
    }
}

proof fn flatten_arms_settles(t: Term, i: nat, n: nat)
    requires
        i <= t.arms.len(),
    ensures
        flatten_arms(t, i, n).arms.len() == i,
        forall|j: int| 0 <= j < i ==> settled_arm(#[trigger] flatten_arms(t, i, n).arms[j]),
    decreases t, i,
{
    if i > 0 {
        flatten_arms_settles(t, (i - 1) as nat, n);
        let p = flatten_arms(t, (i - 1) as nat, n);
        let arm = t.arms[i - 1];
        arm_decreases(arm);
        match arm.guard {
            Some(g) => {
                only_allocations_are_hoisted(g, p.count);
                only_allocations_are_hoisted(arm.body, region_term(g, p.count).count);
            },
            None => {
                only_allocations_are_hoisted(arm.body, p.count);
            },
        }
    }
}

/// A-normalising is idempotent: a region that has been flattened once is not changed by
/// flattening it again.
pub proof fn flattening_twice_is_flattening_once(t: Term, n: nat, m: nat)
    ensures
        region_term(region_term(t, n).term, m).term == region_term(t, n).term,
        region_term(region_term(t, n).term, m).count == m,
{
    only_allocations_are_hoisted(t, n);
    nothing_to_hoist_is_unchanged(region_term(t, n).term, m);
}

/// Different temporaries have different names.
pub proof fn temp_names_are_distinct(a: nat, b: nat)
    requires
        temp_name(a) == temp_name(b),
    ensures
        a == b,
{
    let prefix = "anf$"@;
    assert(temp_name(a).skip(prefix.len() as int) =~= decimal(a));
    assert(temp_name(b).skip(prefix.len() as int) =~= decimal(b));
    decimal_injective(a, b);
}

} // verus!
