//! Lifts an assignment out of value position into statement position.
//!
//! `N(.., { n = v; rest }, ..)` becomes `n = v; N(.., rest, ..)`. The assignment moves
//! ahead of everything in the node that is evaluated before its slot, so each of those
//! slots must commute with it: a literal, or a variable other than the one assigned. A
//! slot that does not commute is first bound to a temporary where it stands.
//!
//! Only slots that are evaluated unconditionally are considered. An assignment inside a
//! branch, a match arm, a loop body, a closure body, a spawned block or the right operand
//! of a short-circuiting operator stays where it is.

use vstd::prelude::*;
use crate::ir::{
    arm_decreases, arm_term, arm_terms, binds_of, mk_assign, mk_var, t_assign, t_let, t_var,
    take_arm_at, take_at, terms, wrap, wrap_in, ArmTerm, BinOp, Expr, Function, FunctionTerm,
    Global, GlobalTerm, MatchArm, Name, Op, Parts, Program, ProgramTerm, Term,
};
use crate::names::{decimal, NameSupply};

verus! {

/// Whether evaluating a term commutes with an assignment to `name`.
pub open spec fn commutes(t: Term, name: Name) -> bool {
    match t.op {
        Op::Var => t.names[0] != name,
        Op::Int(_) | Op::Float(_) | Op::Bool(_) | Op::Unit | Op::Str | Op::EmptyArray(_) => true,
        _ => false,
    }
}

/// Whether every child of an operator is evaluated unconditionally, exactly once.
pub open spec fn is_strict(op: Op) -> bool {
    match op {
        Op::Let | Op::If | Op::For | Op::Match | Op::Assign | Op::Closure(_) | Op::Spawn
        | Op::Select | Op::RcAnnotated(_) | Op::Binary(BinOp::And) | Op::Binary(BinOp::Or) => false,
        _ => true,
    }
}

/// How many of a term's leading children are evaluated unconditionally, exactly once.
pub open spec fn value_slots(t: Term) -> int {
    match t.op {
        Op::Let | Op::If | Op::Match | Op::Assign | Op::Binary(BinOp::And)
        | Op::Binary(BinOp::Or) => 1,
        Op::For => 2,
        _ => if is_strict(t.op) {
            t.kids.len() as int
        } else {
            0
        },
    }
}

/// Whether a term is an assignment.
pub open spec fn is_assign(t: Term) -> bool {
    t.op == Op::Assign && t.names.len() == 1 && t.kids.len() == 2
}

/// Whether child `j` is the first assignment in a value slot.
pub open spec fn is_target(t: Term, j: int) -> bool {
    &&& 0 <= j < value_slots(t)
    &&& j < t.kids.len()
    &&& is_assign(t.kids[j])
    &&& forall|i: int| 0 <= i < j ==> !is_assign(#[trigger] t.kids[i])
}

/// Whether all children before `j` commute with an assignment to `name`.
pub open spec fn all_commute(t: Term, j: int, name: Name) -> bool {
    forall|i: int| 0 <= i < j ==> commutes(#[trigger] t.kids[i], name)
}

/// Whether the assignment at child `j` can be lifted. What precedes it is bound to
/// temporaries where needed, except in a loop, whose bounds are not bound.
pub open spec fn can_lift(t: Term, j: int) -> bool {
    &&& is_target(t, j)
    &&& (t.op == Op::For ==> all_commute(t, j, t.kids[j].names[0]))
}

/// The name of the `n`th temporary.
pub open spec fn temp_name(n: nat) -> Name {
    "liftassign$"@ + decimal(n)
}

/// The first `i` children of a term with those that do not commute replaced by
/// temporaries, and the bindings of the temporaries.
pub struct Pinned {
    pub kids: Seq<Term>,
    pub binds: Seq<(Name, Term)>,
    pub count: nat,
}

/// Binds to temporaries those of the first `i` children that do not commute with an
/// assignment to `name`.
pub open spec fn pin(t: Term, name: Name, i: nat, n: nat) -> Pinned
    decreases i,
{
    if i == 0 {
        Pinned { kids: Seq::empty(), binds: Seq::empty(), count: n }
    } else {
        let p = pin(t, name, (i - 1) as nat, n);
        let kid = t.kids[i - 1];
        if commutes(kid, name) {
            Pinned { kids: p.kids.push(kid), ..p }
        } else {
            Pinned {
                kids: p.kids.push(t_var(temp_name(p.count + 1))),
                binds: p.binds.push((temp_name(p.count + 1), kid)),
                count: p.count + 1,
            }
        }
    }
}

/// How many assignments a term starts with.
pub open spec fn chain(t: Term) -> nat
    decreases t,
{
    if is_assign(t) {
        1 + chain(t.kids[1])
    } else {
        0
    }
}

/// How many assignments the first `i` children start with, taken together.
pub open spec fn chains(kids: Seq<Term>, i: nat) -> nat
    decreases i,
{
    if i == 0 {
        0
    } else {
        chains(kids, (i - 1) as nat) + chain(kids[i - 1])
    }
}

/// The node that remains when the assignment at child `j` has been lifted.
pub open spec fn remainder(t: Term, j: int, n: nat) -> Term {
    let p = pin(t, t.kids[j].names[0], j as nat, n);
    Term { kids: p.kids + seq![t.kids[j].kids[1]] + t.kids.skip(j + 1), ..t }
}

/// Lifts assignments out of a node whose children have been lifted already.
pub open spec fn settle_term(t: Term, n: nat) -> (Term, nat)
    decreases chains(t.kids, t.kids.len()),
{
    if exists|j: int| can_lift(t, j) {
        let j = choose|j: int| can_lift(t, j);
        let a = t.kids[j];
        let p = pin(t, a.names[0], j as nat, n);
        proof {
            remainder_shrinks(t, j, n);
        }
        let r = settle_term(remainder(t, j, n), p.count);
        (wrap(p.binds, t_assign(a.names[0], a.kids[0], r.0)), r.1)
    } else {
        (t, n)
    }
}

/// Lifts the first `i` children of a term, left to right.
pub open spec fn lift_kids(t: Term, i: nat, n: nat) -> (Seq<Term>, nat)
    decreases t, i,
{
    if i == 0 || i > t.kids.len() {
        (Seq::empty(), n)
    } else {
        let p = lift_kids(t, (i - 1) as nat, n);
        let r = lift_term(t.kids[i - 1], p.1);
        (p.0.push(r.0), r.1)
    }
}

/// Lifts the first `i` arms of a term, each guard before its body.
pub open spec fn lift_arms(t: Term, i: nat, n: nat) -> (Seq<ArmTerm>, nat)
    decreases t, i,
{
    if i == 0 || i > t.arms.len() {
        (Seq::empty(), n)
    } else {
        let p = lift_arms(t, (i - 1) as nat, n);
        let arm = t.arms[i - 1];
        match arm.guard {
            Some(g) => {
                let gr = lift_term(g, p.1);
                let br = lift_term(arm.body, gr.1);
                (p.0.push(ArmTerm { guard: Some(gr.0), body: br.0, ..arm }), br.1)
            },
            None => {
                let br = lift_term(arm.body, p.1);
                (p.0.push(ArmTerm { body: br.0, ..arm }), br.1)
            },
        }
    }
}

/// Lifts assignments throughout a term, children first, when `n` temporaries have been
/// handed out before it.
pub open spec fn lift_term(t: Term, n: nat) -> (Term, nat)
    decreases t, t.kids.len() + t.arms.len() + 1,
{
    let k = lift_kids(t, t.kids.len(), n);
    let a = lift_arms(t, t.arms.len(), k.1);
    settle_term(Term { kids: k.0, arms: a.0, ..t }, a.1)
}

/// Lifts the first `i` functions of a program.
pub open spec fn lift_functions(p: ProgramTerm, i: nat) -> (Seq<FunctionTerm>, nat)
    decreases i,
{
    if i == 0 {
        (Seq::empty(), 0)
    } else {
        let (done, n) = lift_functions(p, (i - 1) as nat);
        let f = p.functions[i - 1];
        let r = lift_term(f.body, n);
        (done.push(FunctionTerm { body: r.0, ..f }), r.1)
    }
}

/// Lifts the first `i` globals of a program, after all of its functions.
pub open spec fn lift_globals(p: ProgramTerm, i: nat) -> (Seq<GlobalTerm>, nat)
    decreases i,
{
    if i == 0 {
        (Seq::empty(), lift_functions(p, p.functions.len()).1)
    } else {
        let (done, n) = lift_globals(p, (i - 1) as nat);
        let g = p.globals[i - 1];
        let r = lift_term(g.value, n);
        (done.push(GlobalTerm { value: r.0, ..g }), r.1)
    }
}

/// Lifts assignments throughout a program.
pub open spec fn lift_program(p: ProgramTerm) -> ProgramTerm {
    ProgramTerm {
        functions: lift_functions(p, p.functions.len()).0,
        globals: lift_globals(p, p.globals.len()).0,
        externs: p.externs,
    }
}

pub(crate) proof fn pin_lengths(t: Term, name: Name, i: nat, n: nat)
    requires
        i <= t.kids.len(),
    ensures
        pin(t, name, i, n).kids.len() == i,
        forall|k: int|
            0 <= k < i ==> (#[trigger] pin(t, name, i, n).kids[k]) == t.kids[k] || pin(
                t,
                name,
                i,
                n,
            ).kids[k].op == Op::Var,
    decreases i,
{
    if i > 0 {
        pin_lengths(t, name, (i - 1) as nat, n);
        let p = pin(t, name, (i - 1) as nat, n);
        let q = pin(t, name, i, n);
        assert forall|k: int| 0 <= k < i implies (#[trigger] q.kids[k]) == t.kids[k]
            || q.kids[k].op == Op::Var by {
            if k < i - 1 {
                assert(q.kids[k] == p.kids[k]);
            }
        }
    }
}

proof fn chains_below(a: Seq<Term>, b: Seq<Term>, i: nat)
    requires
        i <= a.len(),
        i <= b.len(),
        forall|k: int| 0 <= k < i ==> chain(#[trigger] a[k]) <= chain(b[k]),
    ensures
        chains(a, i) <= chains(b, i),
    decreases i,
{
    if i > 0 {
        chains_below(a, b, (i - 1) as nat);
        assert(chain(a[i - 1]) <= chain(b[i - 1]));
    }
}

proof fn chains_strictly_below(a: Seq<Term>, b: Seq<Term>, i: nat, j: int)
    requires
        i <= a.len(),
        i <= b.len(),
        0 <= j < i,
        forall|k: int| 0 <= k < i ==> chain(#[trigger] a[k]) <= chain(b[k]),
        chain(a[j]) < chain(b[j]),
    ensures
        chains(a, i) < chains(b, i),
    decreases i,
{
    if j == i - 1 {
        chains_below(a, b, (i - 1) as nat);
    } else {
        chains_strictly_below(a, b, (i - 1) as nat, j);
        assert(chain(a[i - 1]) <= chain(b[i - 1]));
    }
}

/// Lifting an assignment leaves fewer of them to lift.
pub proof fn remainder_shrinks(t: Term, j: int, n: nat)
    requires
        can_lift(t, j),
    ensures
        remainder(t, j, n).kids.len() == t.kids.len(),
        chains(remainder(t, j, n).kids, t.kids.len()) < chains(t.kids, t.kids.len()),
{
    pin_lengths(t, t.kids[j].names[0], j as nat, n);
    let r = remainder(t, j, n);
    let p = pin(t, t.kids[j].names[0], j as nat, n);
    assert forall|k: int| 0 <= k < t.kids.len() implies chain(#[trigger] r.kids[k]) <= chain(
        t.kids[k],
    ) by {
        if k < j {
            assert(r.kids[k] == p.kids[k]);
        } else if k > j {
            assert(r.kids[k] == t.kids[k]);
        }
    }
    assert(r.kids[j] == t.kids[j].kids[1]);
    chains_strictly_below(r.kids, t.kids, t.kids.len(), j);
}

/// There is only one assignment that can be lifted first.
pub proof fn target_is_unique(t: Term, i: int, j: int)
    requires
        is_target(t, i),
        is_target(t, j),
    ensures
        i == j,
{
    if i < j {
        assert(!is_assign(t.kids[i]));
    } else if j < i {
        assert(!is_assign(t.kids[j]));
    }
}

fn commutes_with_assign(expr: &Expr, name: &String) -> (r: bool)
    ensures
        r == commutes(expr.term(), name@),
{
    let p = expr.parts();
    match p.op {
        Op::Var => {
            assert(p.names@[0]@ == expr.term().names[0]);
            *p.names[0] != *name
        },
        Op::Int(_) | Op::Float(_) | Op::Bool(_) | Op::Unit | Op::Str | Op::EmptyArray(_) => true,
        _ => false,
    }
}

fn slots(op: Op, n: usize) -> (r: usize)
    ensures
        forall|t: Term| t.op == op && t.kids.len() == n ==> r == #[trigger] value_slots(t),
{
    match op {
        Op::Let | Op::If | Op::Match | Op::Assign | Op::Binary(BinOp::And)
        | Op::Binary(BinOp::Or) => 1,
        Op::For => 2,
        Op::Closure(_) | Op::Spawn | Op::Select | Op::RcAnnotated(_) => 0,
        _ => n,
    }
}

/// Lifts value-position assignments throughout a program.
pub fn lift_value_assigns(program: Program) -> (r: Program)
    ensures
        r.term() == lift_program(program.term()),
{
    let ghost t: ProgramTerm = program.term();
    let mut supply: NameSupply = NameSupply::new();
    let mut functions: Vec<Function> = Vec::new();
    let mut from: Vec<Function> = program.functions;
    let ghost all: Seq<Function> = from@;
    let mut i: usize = 0;
    let n: usize = from.len();
    while i < n
        invariant
            i <= n,
            n == all.len(),
            from@ == all.skip(i as int),
            t.functions == all.map_values(|f: Function| f.term()),
            functions@.map_values(|f: Function| f.term()) == lift_functions(t, i as nat).0,
            supply@ == lift_functions(t, i as nat).1,
        decreases n - i,
    {
        let f: Function = from.remove(0);
        let ghost before: Seq<Function> = functions@;
        assert(f.term() == t.functions[i as int]);
        let g: Function = Function {
            name: f.name,
            params: f.params,
            body: lift(f.body, &mut supply),
        };
        functions.push(g);
        i += 1;
        assert(from@ =~= all.skip(i as int));
        assert(functions@.map_values(|f: Function| f.term()) =~= before.map_values(
            |f: Function| f.term(),
        ).push(g.term()));
        assert(g.term() == FunctionTerm {
            body: lift_term(f.body.term(), lift_functions(t, (i - 1) as nat).1).0,
            ..t.functions[i - 1]
        });
    }
    let mut globals: Vec<Global> = Vec::new();
    let mut from: Vec<Global> = program.globals;
    let ghost all: Seq<Global> = from@;
    let mut i: usize = 0;
    let n: usize = from.len();
    while i < n
        invariant
            i <= n,
            n == all.len(),
            from@ == all.skip(i as int),
            t.globals == all.map_values(|g: Global| g.term()),
            globals@.map_values(|g: Global| g.term()) == lift_globals(t, i as nat).0,
            supply@ == lift_globals(t, i as nat).1,
        decreases n - i,
    {
        let g: Global = from.remove(0);
        let ghost before: Seq<Global> = globals@;
        assert(g.term() == t.globals[i as int]);
        let h: Global = Global { name: g.name, value: lift(g.value, &mut supply) };
        globals.push(h);
        i += 1;
        assert(from@ =~= all.skip(i as int));
        assert(globals@.map_values(|g: Global| g.term()) =~= before.map_values(
            |g: Global| g.term(),
        ).push(h.term()));
        assert(h.term() == GlobalTerm {
            value: lift_term(g.value.term(), lift_globals(t, (i - 1) as nat).1).0,
            ..t.globals[i - 1]
        });
    }
    Program { functions, globals, externs: program.externs }
}

/// Lifts assignments throughout `expr`, children first, so that an inner lift has already
/// brought its assignment into a slot that the outer node can see.
pub fn lift(expr: Expr, supply: &mut NameSupply) -> (r: Expr)
    ensures
        (r.term(), final(supply)@) == lift_term(expr.term(), old(supply)@),
    decreases expr.term(),
{
    let ghost t: Term = expr.term();
    let ghost n: nat = supply@;
    let p: Parts = expr.into_parts();
    let mut kids: Vec<Expr> = p.kids;
    let mut i: usize = 0;
    while i < kids.len()
        invariant
            t == expr.term(),
            i <= kids@.len(),
            kids@.len() == t.kids.len(),
            forall|j: int| i <= j < kids@.len() ==> (#[trigger] kids@[j]).term() == t.kids[j],
            lift_kids(t, i as nat, n).0.len() == i,
            forall|j: int|
                0 <= j < i ==> (#[trigger] kids@[j]).term() == lift_kids(t, i as nat, n).0[j],
            supply@ == lift_kids(t, i as nat, n).1,
        decreases kids@.len() - i,
    {
        let ghost prev: (Seq<Term>, nat) = lift_kids(t, i as nat, n);
        let kid: Expr = take_at(&mut kids, i);
        assert(kid.term() == t.kids[i as int]);
        assert(decreases_to!(t => t.kids[i as int]));
        let done: Expr = lift(kid, supply);
        kids.set(i, done);
        i += 1;
        assert(lift_kids(t, i as nat, n).0 == prev.0.push(done.term()));
    }
    assert(terms(kids@) =~= lift_kids(t, t.kids.len(), n).0);
    let ghost m: nat = supply@;
    let mut arms: Vec<MatchArm> = p.arms;
    let mut k: usize = 0;
    while k < arms.len()
        invariant
            t == expr.term(),
            k <= arms@.len(),
            arms@.len() == t.arms.len(),
            forall|j: int| k <= j < arms@.len() ==> arm_term(#[trigger] arms@[j]) == t.arms[j],
            lift_arms(t, k as nat, m).0.len() == k,
            forall|j: int|
                0 <= j < k ==> arm_term(#[trigger] arms@[j]) == lift_arms(t, k as nat, m).0[j],
            supply@ == lift_arms(t, k as nat, m).1,
        decreases arms@.len() - k,
    {
        let ghost prev: (Seq<ArmTerm>, nat) = lift_arms(t, k as nat, m);
        let arm: MatchArm = take_arm_at(&mut arms, k);
        assert(arm_term(arm) == t.arms[k as int]);
        proof {
            assert(decreases_to!(t => t.arms[k as int]));
            arm_decreases(t.arms[k as int]);
        }
        let guard: Option<Box<Expr>> = match arm.guard {
            Some(g) => Some(Box::new(lift(*g, supply))),
            None => None,
        };
        let body: Expr = lift(arm.body, supply);
        let done: MatchArm = MatchArm { tag: arm.tag, bindings: arm.bindings, guard, body };
        arms.set(k, done);
        k += 1;
        assert(lift_arms(t, k as nat, m).0 == prev.0.push(arm_term(done)));
    }
    assert(arm_terms(arms@) =~= lift_arms(t, t.arms.len(), m).0);
    let q: Parts = Parts { op: p.op, names: p.names, types: p.types, kids, arms };
    settle(q, supply)
}

/// The place of the assignment to lift out of a node first, if there is one.
fn try_lift(p: &Parts) -> (r: Option<usize>)
    ensures
        match r {
            Some(j) => can_lift(p.term(), j as int),
            None => forall|j: int| !can_lift(p.term(), j),
        },
{
    let ghost t: Term = p.term();
    let limit: usize = slots(p.op, p.kids.len());
    let mut j: usize = 0;
    while j < p.kids.len() && j < limit
        invariant
            t == p.term(),
            j <= p.kids@.len(),
            limit == value_slots(t),
            forall|i: int| 0 <= i < j ==> !is_assign(#[trigger] t.kids[i]),
        decreases p.kids@.len() - j,
    {
        assert(p.kids@[j as int].term() == t.kids[j as int]);
        let kid = p.kids[j].parts();
        if kid.op == Op::Assign {
            assert(is_target(t, j as int));
            if p.op == Op::For {
                let mut i: usize = 0;
                while i < j
                    invariant
                        i <= j,
                        j < p.kids@.len(),
                        t == p.term(),
                        t.op == Op::For,
                        is_target(t, j as int),
                        kid.term() == t.kids[j as int],
                        forall|k: int|
                            0 <= k < i ==> commutes(
                                #[trigger] t.kids[k],
                                t.kids[j as int].names[0],
                            ),
                    decreases j - i,
                {
                    assert(p.kids@[i as int].term() == t.kids[i as int]);
                    assert(kid.names@[0]@ == t.kids[j as int].names[0]);
                    if !commutes_with_assign(&p.kids[i], kid.names[0]) {
                        proof {
                            assert forall|k: int| !can_lift(t, k) by {
                                if can_lift(t, k) {
                                    target_is_unique(t, j as int, k);
                                }
                            }
                        }
                        return None;
                    }
                    i += 1;
                }
            }
            return Some(j);
        }
        j += 1;
    }
    None
}

/// Lifts assignments out of a node whose children have been lifted already.
fn settle(p: Parts, supply: &mut NameSupply) -> (r: Expr)
    requires
        crate::ir::shaped(p.term()),
    ensures
        (r.term(), final(supply)@) == settle_term(p.term(), old(supply)@),
    decreases chains(p.term().kids, p.term().kids.len()),
{
    let ghost t: Term = p.term();
    let ghost n: nat = supply@;
    let j: usize = match try_lift(&p) {
        Some(j) => j,
        None => {
            return Expr::from_parts(p);
        },
    };
    proof {
        assert(can_lift(t, j as int));
        let c = choose|c: int| can_lift(t, c);
        target_is_unique(t, j as int, c);
        remainder_shrinks(t, j as int, n);
    }
    let mut kids: Vec<Expr> = p.kids;
    let target: Expr = take_at(&mut kids, j);
    assert(target.term() == t.kids[j as int]);
    let mut a: Parts = target.into_parts();
    let ghost at: Term = t.kids[j as int];
    assert(a.kids@[1].term() == at.kids[1] && a.kids@[0].term() == at.kids[0]);
    assert(a.names@[0]@ == at.names[0]);
    let name: String = a.names.remove(0);
    let rest: Expr = a.kids.remove(1);
    let value: Expr = a.kids.remove(0);
    kids.set(j, rest);
    let mut binds: Vec<(String, Expr)> = Vec::new();
    let mut i: usize = 0;
    assert(binds_of(binds@) =~= pin(t, name@, 0, n).binds);
    while i < j
        invariant
            i <= j,
            j < kids@.len(),
            kids@.len() == t.kids.len(),
            kids@[j as int].term() == at.kids[1],
            forall|k: int|
                i <= k < kids@.len() && k != j ==> (#[trigger] kids@[k]).term() == t.kids[k],
            pin(t, name@, i as nat, n).kids.len() == i,
            forall|k: int|
                0 <= k < i ==> (#[trigger] kids@[k]).term() == pin(t, name@, i as nat, n).kids[k],
            binds_of(binds@) == pin(t, name@, i as nat, n).binds,
            supply@ == pin(t, name@, i as nat, n).count,
        decreases j - i,
    {
        let ghost prev: Pinned = pin(t, name@, i as nat, n);
        assert(kids@[i as int].term() == t.kids[i as int]);
        if !commutes_with_assign(&kids[i], &name) {
            let temp: String = supply.fresh("liftassign$");
            let kid: Expr = take_at(&mut kids, i);
            let ghost before: Seq<(String, Expr)> = binds@;
            binds.push((temp.clone(), kid));
            assert(binds_of(binds@) =~= binds_of(before).push((temp@, kid.term())));
            kids.set(i, mk_var(temp));
        }
        i += 1;
        assert(pin(t, name@, i as nat, n).kids == prev.kids.push(kids@[i - 1].term()));
    }
    assert(terms(kids@) =~= remainder(t, j as int, n).kids);
    let q: Parts = Parts { op: p.op, names: p.names, types: p.types, kids, arms: p.arms };
    assert(q.term() == remainder(t, j as int, n));
    let inner: Expr = settle(q, supply);
    wrap_in(binds, mk_assign(name, value, inner))
}

/// Whether no node of a term has an assignment to lift.
pub open spec fn lifted(t: Term) -> bool
    decreases t,
{
    &&& forall|j: int| !can_lift(t, j)
    &&& forall|i: int| 0 <= i < t.kids.len() ==> lifted(#[trigger] t.kids[i])
    &&& forall|k: int| 0 <= k < t.arms.len() ==> lifted_arm(#[trigger] t.arms[k])
}

/// Whether no node of an arm has an assignment to lift.
pub open spec fn lifted_arm(arm: ArmTerm) -> bool
    decreases arm,
{
    &&& (arm.guard matches Some(g) ==> lifted(g))
    &&& lifted(arm.body)
}

/// A term without an assignment in a value slot is left as it is, and no temporary is
/// used up. In particular an assignment in a branch, an arm or a body stays there.
pub proof fn nothing_to_lift_is_unchanged(t: Term, n: nat)
    requires
        lifted(t),
    ensures
        lift_term(t, n) == (t, n),
    decreases t, t.kids.len() + t.arms.len() + 1,
{
    lift_kids_unchanged(t, t.kids.len(), n);
    lift_arms_unchanged(t, t.arms.len(), n);
    assert(t.kids.take(t.kids.len() as int) =~= t.kids);
    assert(t.arms.take(t.arms.len() as int) =~= t.arms);
    assert(Term { kids: t.kids, arms: t.arms, ..t } == t);
    assert(settle_term(t, n) == (t, n));
}

proof fn lift_kids_unchanged(t: Term, i: nat, n: nat)
    requires
        lifted(t),
        i <= t.kids.len(),
    ensures
        lift_kids(t, i, n) == (t.kids.take(i as int), n),
    decreases t, i,
{
    if i > 0 {
        lift_kids_unchanged(t, (i - 1) as nat, n);
        assert(lifted(t.kids[i - 1]));
        nothing_to_lift_is_unchanged(t.kids[i - 1], n);
        assert(t.kids.take(i - 1).push(t.kids[i - 1]) =~= t.kids.take(i as int));
    } else {
        assert(t.kids.take(0) =~= Seq::<Term>::empty());
    }
}

proof fn lift_arms_unchanged(t: Term, i: nat, n: nat)
    requires
        lifted(t),
        i <= t.arms.len(),
    ensures
        lift_arms(t, i, n) == (t.arms.take(i as int), n),
    decreases t, i,
{
    if i > 0 {
        lift_arms_unchanged(t, (i - 1) as nat, n);
        let arm = t.arms[i - 1];
        arm_decreases(arm);
        assert(lifted_arm(arm));
        if let Some(g) = arm.guard {
            nothing_to_lift_is_unchanged(g, n);
        }
        nothing_to_lift_is_unchanged(arm.body, n);
        assert(t.arms.take(i - 1).push(arm) =~= t.arms.take(i as int));
    } else {
        assert(t.arms.take(0) =~= Seq::<ArmTerm>::empty());
    }
}

/// What is pinned has been lifted, and is not an assignment.
proof fn pin_lifted(t: Term, name: Name, i: nat, n: nat)
    requires
        i <= t.kids.len(),
        forall|k: int| 0 <= k < i ==> lifted(#[trigger] t.kids[k]) && !is_assign(t.kids[k]),
    ensures
        pin(t, name, i, n).kids.len() == i,
        forall|k: int| 0 <= k < i ==> lifted(#[trigger] pin(t, name, i, n).kids[k]),
        forall|k: int|
            0 <= k < pin(t, name, i, n).binds.len() ==> lifted(
                (#[trigger] pin(t, name, i, n).binds[k]).1,
            ) && !is_assign(pin(t, name, i, n).binds[k].1),
    decreases i,
{
    if i > 0 {
        pin_lifted(t, name, (i - 1) as nat, n);
        let p = pin(t, name, (i - 1) as nat, n);
        let q = pin(t, name, i, n);
        let kid = t.kids[i - 1];
        let v = t_var(temp_name(p.count + 1));
        assert(lifted(v));
        assert forall|k: int| 0 <= k < i implies lifted(#[trigger] q.kids[k]) by {
            if k < i - 1 {
                assert(q.kids[k] == p.kids[k]);
            }
        }
        assert forall|k: int| 0 <= k < q.binds.len() implies lifted((#[trigger] q.binds[k]).1)
            && !is_assign(q.binds[k].1) by {
            if k < p.binds.len() {
                assert(q.binds[k] == p.binds[k]);
            }
        }
    }
}

proof fn wrap_lifted(binds: Seq<(Name, Term)>, body: Term)
    requires
        lifted(body),
        forall|k: int|
            0 <= k < binds.len() ==> lifted((#[trigger] binds[k]).1) && !is_assign(binds[k].1),
    ensures
        lifted(wrap(binds, body)),
    decreases binds.len(),
{
    if binds.len() > 0 {
        let inner = t_let(binds.last().0, binds.last().1, body);
        assert(lifted(binds.last().1));
        assert(lifted(inner)) by {
            assert(inner.kids[0] == binds.last().1);
            assert(inner.kids[1] == body);
        }
        wrap_lifted(binds.drop_last(), inner);
    }
}

proof fn settle_lifts(t: Term, n: nat)
    requires
        forall|i: int| 0 <= i < t.kids.len() ==> lifted(#[trigger] t.kids[i]),
        forall|k: int| 0 <= k < t.arms.len() ==> lifted_arm(#[trigger] t.arms[k]),
    ensures
        lifted(settle_term(t, n).0),
    decreases chains(t.kids, t.kids.len()),
{
    if exists|j: int| can_lift(t, j) {
        let j = choose|j: int| can_lift(t, j);
        let a = t.kids[j];
        assert(lifted(a));
        assert(lifted(a.kids[0]) && lifted(a.kids[1]));
        assert(!is_assign(a.kids[0])) by {
            if is_assign(a.kids[0]) {
                assert(can_lift(a, 0));
            }
        }
        let p = pin(t, a.names[0], j as nat, n);
        pin_lifted(t, a.names[0], j as nat, n);
        remainder_shrinks(t, j, n);
        let r = remainder(t, j, n);
        assert forall|i: int| 0 <= i < r.kids.len() implies lifted(#[trigger] r.kids[i]) by {
            if i < j {
                assert(r.kids[i] == p.kids[i]);
            } else if i > j {
                assert(r.kids[i] == t.kids[i]);
            }
        }
        settle_lifts(r, p.count);
        let inner = t_assign(a.names[0], a.kids[0], settle_term(r, p.count).0);
        assert(lifted(inner)) by {
            assert(inner.kids[0] == a.kids[0]);
            assert(inner.kids[1] == settle_term(r, p.count).0);
        }
        wrap_lifted(p.binds, inner);
    }
}

/// After lifting there is nothing left to lift.
pub proof fn lifting_is_complete(t: Term, n: nat)
    ensures
        lifted(lift_term(t, n).0),
    decreases t, t.kids.len() + t.arms.len() + 1,
{
    lift_kids_complete(t, t.kids.len(), n);
    let k = lift_kids(t, t.kids.len(), n);
    lift_arms_complete(t, t.arms.len(), k.1);
    let a = lift_arms(t, t.arms.len(), k.1);
    settle_lifts(Term { kids: k.0, arms: a.0, ..t }, a.1);
}

proof fn lift_kids_complete(t: Term, i: nat, n: nat)
    requires
        i <= t.kids.len(),
    ensures
        lift_kids(t, i, n).0.len() == i,
        forall|j: int| 0 <= j < i ==> lifted(#[trigger] lift_kids(t, i, n).0[j]),
    decreases t, i,
{
    if i > 0 {
        lift_kids_complete(t, (i - 1) as nat, n);
        lifting_is_complete(t.kids[i - 1], lift_kids(t, (i - 1) as nat, n).1);
    }
}

proof fn lift_arms_complete(t: Term, i: nat, n: nat)
    requires
        i <= t.arms.len(),
    ensures
        lift_arms(t, i, n).0.len() == i,
        forall|j: int| 0 <= j < i ==> lifted_arm(#[trigger] lift_arms(t, i, n).0[j]),
    decreases t, i,
{
    if i > 0 {
        lift_arms_complete(t, (i - 1) as nat, n);
        let p = lift_arms(t, (i - 1) as nat, n);
        let arm = t.arms[i - 1];
        arm_decreases(arm);
        match arm.guard {
            Some(g) => {
                lifting_is_complete(g, p.1);
                lifting_is_complete(arm.body, lift_term(g, p.1).1);
            },
            None => {
                lifting_is_complete(arm.body, p.1);
            },
        }
    }
}

/// Lifting is idempotent: an expression that has been lifted once is not changed by
/// lifting it again.
pub proof fn lifting_twice_is_lifting_once(t: Term, n: nat, m: nat)
    ensures
        lift_term(lift_term(t, n).0, m) == (lift_term(t, n).0, m),
{
    lifting_is_complete(t, n);
    nothing_to_lift_is_unchanged(lift_term(t, n).0, m);
}

} // verus!
