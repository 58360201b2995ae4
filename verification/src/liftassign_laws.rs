//! Where lifting assignments leaves what need not be evaluated.

use vstd::prelude::*;
use crate::anf_laws::comes_later;
use crate::ir::{t_assign, t_let, wrap, ArmTerm, Name, Op, ProgramTerm, Term};
use crate::liftassign::{
    can_lift, lift_arms, lift_functions, lift_globals, lift_kids, lift_program, lift_term, pin,
    remainder, remainder_shrinks, settle_term,
};

verus! {

/// Whether a term comes down to another one after bindings and assignments.
pub open spec fn ends_in(s: Term, r: Term) -> bool
    decreases s,
{
    ||| s == r
    ||| (s.op == Op::Let || s.op == Op::Assign) && s.kids.len() == 2 && ends_in(s.kids[1], r)
}

/// Whether a term is the lifted form of another, with some temporaries handed out before it.
pub open spec fn lifts(t: Term, s: Term) -> bool {
    exists|m: nat| s == (#[trigger] lift_term(t, m)).0
}

/// Whether an arm is the lifted form of another.
pub open spec fn lifts_arm(t: ArmTerm, s: ArmTerm) -> bool {
    &&& s.tag == t.tag
    &&& s.bindings == t.bindings
    &&& lifts(t.body, s.body)
    &&& match (t.guard, s.guard) {
        (Some(g), Some(h)) => lifts(g, h),
        (None, None) => true,
        _ => false,
    }
}

proof fn wrapped_ends_in(binds: Seq<(Name, Term)>, body: Term, r: Term)
    requires
        ends_in(body, r),
    ensures
        ends_in(wrap(binds, body), r),
    decreases binds.len(),
{
    if binds.len() > 0 {
        let (name, value) = binds.last();
        let t = t_let(name, value, body);
        assert(t.kids[1] == body);
        assert(ends_in(t, r));
        wrapped_ends_in(binds.drop_last(), t, r);
    }
}

/// Whether two nodes are alike but for what is evaluated first in them.
pub open spec fn alike(r: Term, t: Term) -> bool {
    &&& r.op == t.op
    &&& r.names == t.names
    &&& r.arms == t.arms
    &&& r.kids.len() == t.kids.len()
    &&& forall|i: int|
        0 <= i < t.kids.len() && comes_later(t.op, i) ==> #[trigger] r.kids[i] == t.kids[i]
}

proof fn settling_keeps_what_comes_later(t: Term, n: nat) -> (r: Term)
    ensures
        ends_in(settle_term(t, n).0, r),
        alike(r, t),
    decreases crate::liftassign::chains(t.kids, t.kids.len()),
{
    if exists|j: int| can_lift(t, j) {
        let j = choose|j: int| can_lift(t, j);
        let a = t.kids[j];
        let p = pin(t, a.names[0], j as nat, n);
        remainder_shrinks(t, j, n);
        crate::liftassign::pin_lengths(t, a.names[0], j as nat, n);
        let s = remainder(t, j, n);
        let rest = settle_term(s, p.count).0;
        let r = settling_keeps_what_comes_later(s, p.count);
        let body = t_assign(a.names[0], a.kids[0], rest);
        assert(body.kids[1] == rest);
        assert(ends_in(body, r));
        wrapped_ends_in(p.binds, body, r);
        assert forall|i: int| 0 <= i < t.kids.len() && comes_later(t.op, i) implies #[trigger] r.kids[i]
            == t.kids[i] by {
            assert(i > j);
            assert(r.kids[i] == s.kids[i]);
        }
        r
    } else {
        t
    }
}

/// No assignment leaves a place that need not be evaluated: lifting only puts bindings and
/// assignments before a node, and whatever is evaluated later in it, or in one of its arms,
/// stands where it stood, itself lifted.
pub proof fn what_comes_later_stays_in_its_place(t: Term, n: nat) -> (r: Term)
    ensures
        ends_in(lift_term(t, n).0, r),
        r.op == t.op,
        r.names == t.names,
        r.kids.len() == t.kids.len(),
        r.arms.len() == t.arms.len(),
        forall|i: int|
            0 <= i < t.kids.len() && comes_later(t.op, i) ==> lifts(
                t.kids[i],
                #[trigger] r.kids[i],
            ),
        forall|k: int| 0 <= k < t.arms.len() ==> lifts_arm(t.arms[k], #[trigger] r.arms[k]),
{
    let k = lift_kids(t, t.kids.len(), n);
    let a = lift_arms(t, t.arms.len(), k.1);
    kids_are_lifted(t, t.kids.len(), n);
    arms_are_lifted(t, t.arms.len(), k.1);
    let s = Term { kids: k.0, arms: a.0, ..t };
    let r = settling_keeps_what_comes_later(s, a.1);
    assert forall|i: int| 0 <= i < t.kids.len() && comes_later(t.op, i) implies lifts(
        t.kids[i],
        #[trigger] r.kids[i],
    ) by {
        assert(r.kids[i] == s.kids[i]);
        assert(lifts(t.kids[i], k.0[i]));
    }
    r
}

proof fn kids_are_lifted(t: Term, i: nat, n: nat)
    requires
        i <= t.kids.len(),
    ensures
        lift_kids(t, i, n).0.len() == i,
        forall|j: int|
            0 <= j < i ==> lifts(t.kids[j], #[trigger] lift_kids(t, i, n).0[j]),
    decreases i,
{
    if i > 0 {
        kids_are_lifted(t, (i - 1) as nat, n);
        let p = lift_kids(t, (i - 1) as nat, n);
        let all = lift_kids(t, i, n).0;
        assert forall|j: int| 0 <= j < i implies lifts(t.kids[j], #[trigger] all[j]) by {
            if j < i - 1 {
                assert(all[j] == p.0[j]);
            } else {
                assert(all[j] == lift_term(t.kids[j], p.1).0);
            }
        }
    }
}

proof fn arms_are_lifted(t: Term, i: nat, n: nat)
    requires
        i <= t.arms.len(),
    ensures
        lift_arms(t, i, n).0.len() == i,
        forall|j: int|
            0 <= j < i ==> lifts_arm(t.arms[j], #[trigger] lift_arms(t, i, n).0[j]),
    decreases i,
{
    if i > 0 {
        arms_are_lifted(t, (i - 1) as nat, n);
        let p = lift_arms(t, (i - 1) as nat, n);
        let all = lift_arms(t, i, n).0;
        let arm = t.arms[i - 1];
        let at = match arm.guard {
            Some(g) => lift_term(g, p.1).1,
            None => p.1,
        };
        assert forall|j: int| 0 <= j < i implies lifts_arm(t.arms[j], #[trigger] all[j]) by {
            if j < i - 1 {
                assert(all[j] == p.0[j]);
            } else {
                assert(all[j].body == lift_term(arm.body, at).0);
                if let Some(g) = arm.guard {
                    assert(all[j].guard == Some(lift_term(g, p.1).0));
                }
            }
        }
    }
}

/// Lifting keeps what a program declares: every function has its name, its parameters and its
/// own body, lifted, and every global its name and its own value, lifted.
pub proof fn lifting_keeps_the_declarations(p: ProgramTerm)
    ensures
        ({
            let r = lift_program(p);
            &&& r.externs == p.externs
            &&& r.functions.len() == p.functions.len()
            &&& r.globals.len() == p.globals.len()
            &&& forall|j: int|
                0 <= j < p.functions.len() ==> (#[trigger] r.functions[j]).name
                    == p.functions[j].name && r.functions[j].params == p.functions[j].params
                    && lifts(p.functions[j].body, r.functions[j].body)
            &&& forall|j: int|
                0 <= j < p.globals.len() ==> (#[trigger] r.globals[j]).name == p.globals[j].name
                    && lifts(p.globals[j].value, r.globals[j].value)
        }),
{
    functions_are_kept(p, p.functions.len());
    globals_are_kept(p, p.globals.len());
}

proof fn functions_are_kept(p: ProgramTerm, i: nat)
    requires
        i <= p.functions.len(),
    ensures
        ({
            let r = lift_functions(p, i).0;
            &&& r.len() == i
            &&& forall|j: int|
                0 <= j < i ==> (#[trigger] r[j]).name == p.functions[j].name && r[j].params
                    == p.functions[j].params && lifts(p.functions[j].body, r[j].body)
        }),
    decreases i,
{
    if i > 0 {
        functions_are_kept(p, (i - 1) as nat);
        let (done, n) = lift_functions(p, (i - 1) as nat);
        let r = lift_functions(p, i).0;
        assert forall|j: int| 0 <= j < i implies (#[trigger] r[j]).name == p.functions[j].name
            && r[j].params == p.functions[j].params && lifts(p.functions[j].body, r[j].body) by {
            if j < i - 1 {
                assert(r[j] == done[j]);
            } else {
                assert(r[j].body == lift_term(p.functions[j].body, n).0);
            }
        }
    }
}

proof fn globals_are_kept(p: ProgramTerm, i: nat)
    requires
        i <= p.globals.len(),
    ensures
        ({
            let r = lift_globals(p, i).0;
            &&& r.len() == i
            &&& forall|j: int|
                0 <= j < i ==> (#[trigger] r[j]).name == p.globals[j].name && lifts(p.globals[j].value, r[j].value)
        }),
    decreases i,
{
    if i > 0 {
        globals_are_kept(p, (i - 1) as nat);
        let (done, n) = lift_globals(p, (i - 1) as nat);
        let r = lift_globals(p, i).0;
        assert forall|j: int| 0 <= j < i implies (#[trigger] r[j]).name == p.globals[j].name
            && lifts(p.globals[j].value, r[j].value) by {
            if j < i - 1 {
                assert(r[j] == done[j]);
            } else {
                assert(r[j].value == lift_term(p.globals[j].value, n).0);
            }
        }
    }
}

} // verus!
