//! What naming allocations keeps of the names in a program, and where it names none.

use vstd::prelude::*;
use crate::anf::{
    flatten_arms, flatten_functions, flatten_globals, flatten_kids, flatten_program, flatten_term,
    hoist_term, hoistable_term, region_term, slot_of, temp_name, Slot,
};
use crate::ir::{
    arm_decreases, shaped, t_let, t_var, wrap, ArmTerm, BinOp, Name, Op, ProgramTerm, Term,
};

verus! {

/// Whether child `i` of a node is evaluated where the outer `x` is hidden: the body of a
/// binding, of a loop or of a closure that binds the same name, or what a select runs with
/// what it received.
pub open spec fn hides(t: Term, i: int, x: Name) -> bool {
    match t.op {
        Op::Let => i == 1 && t.names[0] == x,
        Op::For => i == 2 && t.names[0] == x,
        Op::Closure(_) => t.names.contains(x),
        Op::Select => i % 2 == 1 && x == "__select_recv"@,
        _ => false,
    }
}

/// Whether a term, as it is evaluated, reads or changes a binding of `x` from outside it.
pub open spec fn free(t: Term, x: Name) -> bool
    decreases t,
{
    ||| names_outside(t, x)
    ||| exists|i: int| 0 <= i < t.kids.len() && !hides(t, i, x) && free(#[trigger] t.kids[i], x)
    ||| exists|k: int| 0 <= k < t.arms.len() && arm_free(#[trigger] t.arms[k], x)
}

/// Whether a node itself speaks of a binding of `x`, apart from its children.
pub open spec fn names_outside(t: Term, x: Name) -> bool {
    match t.op {
        Op::Var | Op::Assign | Op::RcAnnotated(_) | Op::CtorReuse | Op::ArrayPushReuse
        | Op::ArrayPopReuse | Op::ArraySetReuse | Op::ArrayRemoveReuse | Op::StrConcatReuse
        | Op::StrTrimReuse | Op::StrToUpperReuse | Op::StrToLowerReuse | Op::StrReplaceReuse => {
            t.names[0] == x
        },
        _ => false,
    }
}

/// Whether an arm reads or changes a binding of `x` from outside it.
pub open spec fn arm_free(arm: ArmTerm, x: Name) -> bool
    decreases arm,
{
    &&& !arm.bindings.contains(x)
    &&& {
        ||| (arm.guard matches Some(g) && free(g, x))
        ||| free(arm.body, x)
    }
}

/// Whether one of the bindings from place `i` on, or the body they stand round, reads `x` from
/// outside.
pub open spec fn free_from(binds: Seq<(Name, Term)>, i: nat, body: Term, x: Name) -> bool
    decreases binds.len() - i,
{
    if i >= binds.len() {
        free(body, x)
    } else {
        free(binds[i as int].1, x) || (binds[i as int].0 != x && free_from(binds, i + 1, body, x))
    }
}

proof fn let_is_free(name: Name, value: Term, body: Term, x: Name)
    ensures
        free(t_let(name, value, body), x) == (free(value, x) || (name != x && free(body, x))),
{
    let t = t_let(name, value, body);
    assert(t.kids[0] == value && t.kids[1] == body && t.names[0] == name);
    if free(t, x) {
        let i = choose|i: int| 0 <= i < t.kids.len() && !hides(t, i, x) && free(
            #[trigger] t.kids[i],
            x,
        );
        assert(i == 0 || i == 1);
    }
    if free(value, x) {
        assert(!hides(t, 0, x) && free(t.kids[0], x));
    }
    if name != x && free(body, x) {
        assert(!hides(t, 1, x) && free(t.kids[1], x));
    }
}

proof fn wrap_is_free(binds: Seq<(Name, Term)>, body: Term, x: Name)
    ensures
        free(wrap(binds, body), x) == free_from(binds, 0, body, x),
    decreases binds.len(),
{
    if binds.len() > 0 {
        let (name, value) = binds.last();
        let first = binds.drop_last();
        wrap_is_free(first, t_let(name, value, body), x);
        let_is_free(name, value, body, x);
        free_from_split(binds, 0, body, x);
    }
}

proof fn free_from_split(binds: Seq<(Name, Term)>, i: nat, body: Term, x: Name)
    requires
        i < binds.len(),
    ensures
        free_from(binds, i, body, x) == free_from(
            binds.drop_last(),
            i,
            t_let(binds.last().0, binds.last().1, body),
            x,
        ),
    decreases binds.len() - i,
{
    let first = binds.drop_last();
    let_is_free(binds.last().0, binds.last().1, body, x);
    if i == first.len() {
        assert(free_from(binds, i + 1, body, x) == free(body, x));
    } else {
        assert(first[i as int] == binds[i as int]);
        free_from_split(binds, i + 1, body, x);
    }
}

/// Whether a name is that of a temporary.
pub open spec fn is_temp(x: Name) -> bool {
    exists|c: nat| x == #[trigger] temp_name(c)
}

/// What the bindings and the rest of a flattened term read from outside, other than
/// temporaries.
spec fn reads_somewhere(binds: Seq<(Name, Term)>, body: Term, x: Name) -> bool {
    ||| free(body, x)
    ||| exists|i: int| 0 <= i < binds.len() && free((#[trigger] binds[i]).1, x)
}

proof fn free_from_is_somewhere(binds: Seq<(Name, Term)>, i: nat, body: Term, x: Name)
    requires
        !is_temp(x),
        forall|k: int| 0 <= k < binds.len() ==> is_temp((#[trigger] binds[k]).0),
        i <= binds.len(),
    ensures
        free_from(binds, i, body, x) == (free(body, x) || exists|k: int|
            i <= k < binds.len() && free((#[trigger] binds[k]).1, x)),
    decreases binds.len() - i,
{
    if i < binds.len() {
        free_from_is_somewhere(binds, i + 1, body, x);
        assert(is_temp(binds[i as int].0));
        if free(binds[i as int].1, x) {
            assert(i <= i as int && free(binds[i as int].1, x));
        }
    }
}

/// What a flattened term reads from outside, other than temporaries: in all what the term did.
proof fn flattening_keeps_free(t: Term, n: nat, x: Name)
    requires
        !is_temp(x),
    ensures
        ({
            let f = flatten_term(t, n);
            &&& reads_somewhere(f.binds, f.term, x) == free(t, x)
            &&& forall|k: int| 0 <= k < f.binds.len() ==> is_temp((#[trigger] f.binds[k]).0)
        }),
    decreases t, t.kids.len() + t.arms.len() + 1,
{
    let k = flatten_kids(t, t.kids.len(), n);
    let a = flatten_arms(t, t.arms.len(), k.count);
    let f = flatten_term(t, n);
    kids_keep_free(t, t.kids.len(), n, x);
    arms_keep_free(t, t.arms.len(), k.count, x);
    let r = f.term;
    assert(r.kids == k.kids && r.arms == a.arms);
    assert forall|i: int| 0 <= i < t.kids.len() implies hides(r, i, x) == hides(t, i, x) by {}
    if free(t, x) {
        if exists|i: int| 0 <= i < t.kids.len() && !hides(t, i, x) && free(#[trigger] t.kids[i], x) {
            assert(kids_read(t, k.kids, k.binds, t.kids.len(), x));
            if exists|i: int|
                0 <= i < k.kids.len() && !hides(t, i, x) && free(#[trigger] k.kids[i], x) {
                let i = choose|i: int|
                    0 <= i < k.kids.len() && !hides(t, i, x) && free(#[trigger] k.kids[i], x);
                assert(free(r.kids[i], x) && !hides(r, i, x));
            }
        } else if exists|j: int| 0 <= j < t.arms.len() && arm_free(#[trigger] t.arms[j], x) {
            let j = choose|j: int| 0 <= j < t.arms.len() && arm_free(#[trigger] t.arms[j], x);
            assert(arm_free(r.arms[j], x));
        }
    }
    if reads_somewhere(f.binds, r, x) {
        if free(r, x) && !names_outside(r, x) {
            if exists|i: int| 0 <= i < r.kids.len() && !hides(r, i, x) && free(#[trigger] r.kids[i], x) {
                let i = choose|i: int|
                    0 <= i < r.kids.len() && !hides(r, i, x) && free(#[trigger] r.kids[i], x);
                assert(free(k.kids[i], x) && !hides(t, i, x));
                assert(kids_read(t, k.kids, k.binds, t.kids.len(), x));
            } else {
                let j = choose|j: int| 0 <= j < r.arms.len() && arm_free(#[trigger] r.arms[j], x);
                assert(arm_free(t.arms[j], x));
            }
        } else if !free(r, x) {
            assert(kids_read(t, k.kids, k.binds, t.kids.len(), x));
        }
    }
}

/// Whether the flattened children or the bindings read `x` from outside the node.
spec fn kids_read(t: Term, kids: Seq<Term>, binds: Seq<(Name, Term)>, n: nat, x: Name) -> bool {
    ||| exists|i: int| 0 <= i < kids.len() && !hides(t, i, x) && free(#[trigger] kids[i], x)
    ||| exists|i: int| 0 <= i < binds.len() && free((#[trigger] binds[i]).1, x)
}

proof fn kids_keep_free(t: Term, i: nat, n: nat, x: Name)
    requires
        i <= t.kids.len(),
        !is_temp(x),
    ensures
        ({
            let k = flatten_kids(t, i, n);
            &&& k.kids.len() == i
            &&& kids_read(t, k.kids, k.binds, i, x) == (exists|j: int|
                0 <= j < i && !hides(t, j, x) && free(#[trigger] t.kids[j], x))
            &&& forall|c: int| 0 <= c < k.binds.len() ==> is_temp((#[trigger] k.binds[c]).0)
        }),
    decreases t, i,
{
    if i > 0 {
        let l = (i - 1) as nat;
        let p = flatten_kids(t, l, n);
        let k = flatten_kids(t, i, n);
        let kid = t.kids[i - 1];
        kids_keep_free(t, l, n, x);
        let f = match slot_of(t.op, i - 1) {
            Slot::Inline => hoist_term(kid, p.count),
            Slot::Bound => flatten_term(kid, p.count),
            Slot::Region => region_term(kid, p.count),
        };
        match slot_of(t.op, i - 1) {
            Slot::Inline => {
                hoisting_keeps_free(kid, p.count, x);
            },
            Slot::Bound => {
                flattening_keeps_free(kid, p.count, x);
            },
            Slot::Region => {
                region_keeps_free(kid, p.count, x);
            },
        }
        assert(k.kids == p.kids.push(f.term) && k.binds == p.binds + f.binds);
        // Nothing is hoisted past a binding of its names.
        assert(hides(t, i - 1, x) ==> f.binds.len() == 0);
        assert forall|c: int| 0 <= c < k.binds.len() implies is_temp((#[trigger] k.binds[c]).0) by {
            if c < p.binds.len() {
                assert(k.binds[c] == p.binds[c]);
            } else {
                assert(k.binds[c] == f.binds[c - p.binds.len()]);
            }
        }
        if kids_read(t, k.kids, k.binds, i, x) {
            if exists|j: int| 0 <= j < k.kids.len() && !hides(t, j, x) && free(#[trigger] k.kids[j], x) {
                let j = choose|j: int|
                    0 <= j < k.kids.len() && !hides(t, j, x) && free(#[trigger] k.kids[j], x);
                if j < l {
                    assert(p.kids[j] == k.kids[j]);
                    assert(kids_read(t, p.kids, p.binds, l, x));
                } else {
                    assert(free(t.kids[i - 1], x));
                }
            } else {
                let c = choose|c: int| 0 <= c < k.binds.len() && free((#[trigger] k.binds[c]).1, x);
                if c < p.binds.len() {
                    assert(p.binds[c] == k.binds[c]);
                    assert(kids_read(t, p.kids, p.binds, l, x));
                } else {
                    assert(f.binds[c - p.binds.len()] == k.binds[c]);
                    assert(free(t.kids[i - 1], x));
                    assert(!hides(t, i - 1, x));
                }
            }
        }
        if exists|j: int| 0 <= j < i && !hides(t, j, x) && free(#[trigger] t.kids[j], x) {
            let j = choose|j: int| 0 <= j < i && !hides(t, j, x) && free(#[trigger] t.kids[j], x);
            if j < l {
                assert(kids_read(t, p.kids, p.binds, l, x));
                if exists|c: int|
                    0 <= c < p.kids.len() && !hides(t, c, x) && free(#[trigger] p.kids[c], x) {
                    let c = choose|c: int|
                        0 <= c < p.kids.len() && !hides(t, c, x) && free(#[trigger] p.kids[c], x);
                    assert(k.kids[c] == p.kids[c]);
                } else {
                    let c = choose|c: int| 0 <= c < p.binds.len() && free(
                        (#[trigger] p.binds[c]).1,
                        x,
                    );
                    assert(k.binds[c] == p.binds[c]);
                }
            } else {
                if free(f.term, x) {
                    assert(k.kids[i - 1] == f.term);
                } else {
                    let c = choose|c: int| 0 <= c < f.binds.len() && free(
                        (#[trigger] f.binds[c]).1,
                        x,
                    );
                    assert(k.binds[c + p.binds.len()] == f.binds[c]);
                }
            }
        }
    }
}

proof fn hoisting_keeps_free(t: Term, n: nat, x: Name)
    requires
        !is_temp(x),
    ensures
        ({
            let f = hoist_term(t, n);
            &&& reads_somewhere(f.binds, f.term, x) == free(t, x)
            &&& forall|k: int| 0 <= k < f.binds.len() ==> is_temp((#[trigger] f.binds[k]).0)
        }),
    decreases t, t.kids.len() + t.arms.len() + 2,
{
    let f = flatten_term(t, n);
    flattening_keeps_free(t, n, x);
    if hoistable_term(f.term) {
        let h = hoist_term(t, n);
        let name = temp_name(f.count + 1);
        assert(h.term == t_var(name));
        assert(h.term.names[0] == name);
        assert(!free(h.term, x));
        assert(h.binds == f.binds.push((name, f.term)));
        if reads_somewhere(f.binds, f.term, x) {
            if free(f.term, x) {
                assert(h.binds[f.binds.len() as int].1 == f.term);
            } else {
                let c = choose|c: int| 0 <= c < f.binds.len() && free((#[trigger] f.binds[c]).1, x);
                assert(h.binds[c] == f.binds[c]);
            }
        }
        if reads_somewhere(h.binds, h.term, x) {
            let c = choose|c: int| 0 <= c < h.binds.len() && free((#[trigger] h.binds[c]).1, x);
            if c < f.binds.len() {
                assert(h.binds[c] == f.binds[c]);
            }
        }
        assert forall|k: int| 0 <= k < h.binds.len() implies is_temp((#[trigger] h.binds[k]).0) by {
            if k < f.binds.len() {
                assert(h.binds[k] == f.binds[k]);
            }
        }
    }
}

proof fn region_keeps_free(t: Term, n: nat, x: Name)
    requires
        !is_temp(x),
    ensures
        free(region_term(t, n).term, x) == free(t, x),
        region_term(t, n).binds.len() == 0,
    decreases t, t.kids.len() + t.arms.len() + 2,
{
    let f = flatten_term(t, n);
    flattening_keeps_free(t, n, x);
    wrap_is_free(f.binds, f.term, x);
    free_from_is_somewhere(f.binds, 0, f.term, x);
}

proof fn arms_keep_free(t: Term, i: nat, n: nat, x: Name)
    requires
        i <= t.arms.len(),
        !is_temp(x),
    ensures
        ({
            let a = flatten_arms(t, i, n);
            &&& a.arms.len() == i
            &&& forall|j: int|
                0 <= j < i ==> arm_free(#[trigger] a.arms[j], x) == arm_free(t.arms[j], x)
        }),
    decreases t, i,
{
    if i > 0 {
        let l = (i - 1) as nat;
        let p = flatten_arms(t, l, n);
        let a = flatten_arms(t, i, n);
        let arm = t.arms[i - 1];
        arm_decreases(arm);
        arms_keep_free(t, l, n, x);
        match arm.guard {
            Some(g) => {
                region_keeps_free(g, p.count, x);
                let gf = region_term(g, p.count);
                region_keeps_free(arm.body, gf.count, x);
            },
            None => {
                region_keeps_free(arm.body, p.count, x);
            },
        }
        assert forall|j: int| 0 <= j < i implies arm_free(#[trigger] a.arms[j], x) == arm_free(
            t.arms[j],
            x,
        ) by {
            if j < l {
                assert(a.arms[j] == p.arms[j]);
            }
        }
    }
}

/// Naming allocations keeps the free names: a flattened body reads and changes the same
/// bindings from outside it as the body. In particular no allocation is moved out of the scope
/// of a name that it is made from: out of a closure, a loop, a binding or an arm that binds it.
pub proof fn naming_keeps_the_free_names(t: Term, n: nat, x: Name)
    requires
        !is_temp(x),
    ensures
        free(region_term(t, n).term, x) == free(t, x),
{
    region_keeps_free(t, n, x);
}

/// Whether child `i` of a node need not be evaluated whenever the node is: only one branch of
/// an `if` is, the right operand of `&&` or `||` may not be, a loop may not run, and what
/// stands in a closure, a spawned block or the arms of a select is evaluated elsewhere or later
/// or not at all. What follows a binding, an assignment or an adjustment comes after it.
pub open spec fn comes_later(op: Op, i: int) -> bool {
    match op {
        Op::If => i == 1 || i == 2,
        Op::Binary(BinOp::And) | Op::Binary(BinOp::Or) => i == 1,
        Op::For => i == 2,
        Op::Closure(_) | Op::Spawn | Op::Select | Op::RcAnnotated(_) => true,
        Op::Let | Op::Assign => i == 1,
        _ => false,
    }
}

/// Nothing is hoisted out of what need not be evaluated: whatever stands in such a place, and
/// whatever the arms are, the same is hoisted out of the node, as if nothing stood there.
pub proof fn nothing_conditional_is_hoisted(t: Term, s: Term, n: nat)
    requires
        s.op == t.op,
        shaped(s),
        shaped(t),
        s.kids.len() == t.kids.len(),
        forall|i: int|
            0 <= i < t.kids.len() && !comes_later(t.op, i) ==> s.kids[i] == #[trigger] t.kids[i],
    ensures
        flatten_term(s, n).binds == flatten_term(t, n).binds,
{
    same_binds(t, s, t.kids.len(), n);
}

proof fn same_binds(t: Term, s: Term, i: nat, n: nat)
    requires
        i <= t.kids.len(),
        s.op == t.op,
        s.kids.len() == t.kids.len(),
        forall|k: int|
            0 <= k < t.kids.len() && !comes_later(t.op, k) ==> s.kids[k] == #[trigger] t.kids[k],
        shaped(t),
    ensures
        flatten_kids(s, i, n).binds == flatten_kids(t, i, n).binds,
        (forall|k: int| 0 <= k < i ==> !comes_later(t.op, k)) ==> flatten_kids(s, i, n)
            == flatten_kids(t, i, n),
    decreases i,
{
    if i > 0 {
        same_binds(t, s, (i - 1) as nat, n);
        let a = flatten_kids(s, (i - 1) as nat, n);
        let b = flatten_kids(t, (i - 1) as nat, n);
        if comes_later(t.op, i - 1) {
            assert(slot_of(t.op, i - 1) == Slot::Region);
            let x = region_term(s.kids[i - 1], a.count);
            let y = region_term(t.kids[i - 1], b.count);
            assert(x.binds =~= Seq::<(Name, Term)>::empty());
            assert(y.binds =~= Seq::<(Name, Term)>::empty());
            assert(flatten_kids(s, i, n).binds == a.binds + x.binds);
            assert(flatten_kids(t, i, n).binds == b.binds + y.binds);
            let none = Seq::<(Name, Term)>::empty();
            assert(a.binds + none =~= a.binds);
            assert(b.binds + none =~= b.binds);
        } else {
            assert forall|k: int| 0 <= k < i - 1 implies !comes_later(t.op, k) by {
                if comes_later(t.op, k) {
                    assert(comes_later(t.op, i - 1));
                }
            }
            assert(s.kids[i - 1] == t.kids[i - 1]);
        }
    }
}

/// Whether a term speaks of `x` anywhere.
pub open spec fn speaks(t: Term, x: Name) -> bool
    decreases t,
{
    ||| names_outside(t, x)
    ||| exists|i: int| 0 <= i < t.kids.len() && speaks(#[trigger] t.kids[i], x)
    ||| exists|k: int| 0 <= k < t.arms.len() && arm_speaks(#[trigger] t.arms[k], x)
}

/// Whether an arm speaks of `x` anywhere.
pub open spec fn arm_speaks(arm: ArmTerm, x: Name) -> bool
    decreases arm,
{
    ||| (arm.guard matches Some(g) && speaks(g, x))
    ||| speaks(arm.body, x)
}

spec fn binds_it(binds: Seq<(Name, Term)>, i: int, x: Name) -> bool {
    exists|k: int| 0 <= k < i && (#[trigger] binds[k]).0 == x
}

/// Whether what is free of `x` in bindings and a term is bound by an earlier binding.
spec fn scoped(binds: Seq<(Name, Term)>, body: Term, x: Name) -> bool {
    &&& free(body, x) ==> binds_it(binds, binds.len() as int, x)
    &&& binds_scoped(binds, x)
}

spec fn binds_scoped(binds: Seq<(Name, Term)>, x: Name) -> bool {
    forall|i: int| 0 <= i < binds.len() && free((#[trigger] binds[i]).1, x) ==> binds_it(binds, i, x)
}

proof fn binds_more(a: Seq<(Name, Term)>, b: Seq<(Name, Term)>, x: Name)
    requires
        binds_scoped(a, x),
        binds_scoped(b, x),
    ensures
        binds_scoped(a + b, x),
        binds_it(a, a.len() as int, x) ==> binds_it(a + b, (a + b).len() as int, x),
        binds_it(b, b.len() as int, x) ==> binds_it(a + b, (a + b).len() as int, x),
{
    let c = a + b;
    assert forall|i: int| 0 <= i < a.len() implies c[i] == a[i] by {}
    assert forall|i: int| 0 <= i < b.len() implies c[i + a.len()] == b[i] by {}
    assert forall|i: int| 0 <= i < c.len() && free((#[trigger] c[i]).1, x) implies binds_it(
        c,
        i,
        x,
    ) by {
        if i < a.len() {
            assert(free(a[i].1, x));
            let k = choose|k: int| 0 <= k < i && (#[trigger] a[k]).0 == x;
            assert(c[k].0 == x);
        } else {
            let j = i - a.len();
            assert(free(b[j].1, x));
            let k = choose|k: int| 0 <= k < j && (#[trigger] b[k]).0 == x;
            assert(c[k + a.len()].0 == x);
        }
    }
    if binds_it(a, a.len() as int, x) {
        let k = choose|k: int| 0 <= k < a.len() && (#[trigger] a[k]).0 == x;
        assert(c[k].0 == x);
    }
    if binds_it(b, b.len() as int, x) {
        let k = choose|k: int| 0 <= k < b.len() && (#[trigger] b[k]).0 == x;
        assert(c[k + a.len()].0 == x);
    }
}

proof fn scoped_is_closed(binds: Seq<(Name, Term)>, i: nat, body: Term, x: Name)
    requires
        scoped(binds, body, x),
        !binds_it(binds, i as int, x),
        i <= binds.len(),
    ensures
        !free_from(binds, i, body, x),
    decreases binds.len() - i,
{
    if i < binds.len() {
        if binds[i as int].0 != x {
            assert(!binds_it(binds, i as int + 1, x)) by {
                if binds_it(binds, i as int + 1, x) {
                    let k = choose|k: int| 0 <= k < i + 1 && (#[trigger] binds[k]).0 == x;
                    assert(k < i);
                }
            }
            scoped_is_closed(binds, i + 1, body, x);
        }
    }
}

proof fn flattening_is_scoped(t: Term, n: nat, x: Name)
    requires
        !speaks(t, x),
    ensures
        scoped(flatten_term(t, n).binds, flatten_term(t, n).term, x),
    decreases t, t.kids.len() + t.arms.len() + 1,
{
    let k = flatten_kids(t, t.kids.len(), n);
    let a = flatten_arms(t, t.arms.len(), k.count);
    let r = flatten_term(t, n).term;
    kids_are_scoped(t, t.kids.len(), n, x);
    arms_are_closed(t, t.arms.len(), k.count, x);
    assert(r.kids == k.kids && r.arms == a.arms);
    if free(r, x) {
        if exists|i: int| 0 <= i < r.kids.len() && !hides(r, i, x) && free(#[trigger] r.kids[i], x) {
            let i = choose|i: int|
                0 <= i < r.kids.len() && !hides(r, i, x) && free(#[trigger] r.kids[i], x);
            assert(free(k.kids[i], x));
        } else {
            let j = choose|j: int| 0 <= j < r.arms.len() && arm_free(#[trigger] r.arms[j], x);
            assert(arm_free(a.arms[j], x));
        }
    }
}

proof fn kids_are_scoped(t: Term, i: nat, n: nat, x: Name)
    requires
        i <= t.kids.len(),
        !speaks(t, x),
    ensures
        ({
            let k = flatten_kids(t, i, n);
            &&& k.kids.len() == i
            &&& binds_scoped(k.binds, x)
            &&& forall|j: int|
                0 <= j < i && free(#[trigger] k.kids[j], x) ==> binds_it(
                    k.binds,
                    k.binds.len() as int,
                    x,
                )
        }),
    decreases t, i,
{
    if i > 0 {
        let l = (i - 1) as nat;
        let p = flatten_kids(t, l, n);
        let k = flatten_kids(t, i, n);
        let kid = t.kids[i - 1];
        assert(!speaks(kid, x));
        kids_are_scoped(t, l, n, x);
        let f = match slot_of(t.op, i - 1) {
            Slot::Inline => hoist_term(kid, p.count),
            Slot::Bound => flatten_term(kid, p.count),
            Slot::Region => region_term(kid, p.count),
        };
        match slot_of(t.op, i - 1) {
            Slot::Inline => {
                hoisting_is_scoped(kid, p.count, x);
            },
            Slot::Bound => {
                flattening_is_scoped(kid, p.count, x);
            },
            Slot::Region => {
                region_is_closed(kid, p.count, x);
            },
        }
        assert(k.kids == p.kids.push(f.term) && k.binds == p.binds + f.binds);
        assert(scoped(f.binds, f.term, x));
        binds_more(p.binds, f.binds, x);
        assert forall|j: int| 0 <= j < i && free(#[trigger] k.kids[j], x) implies binds_it(
            k.binds,
            k.binds.len() as int,
            x,
        ) by {
            if j < l {
                assert(k.kids[j] == p.kids[j]);
            }
        }
    }
}

proof fn hoisting_is_scoped(t: Term, n: nat, x: Name)
    requires
        !speaks(t, x),
    ensures
        scoped(hoist_term(t, n).binds, hoist_term(t, n).term, x),
    decreases t, t.kids.len() + t.arms.len() + 2,
{
    let f = flatten_term(t, n);
    flattening_is_scoped(t, n, x);
    if hoistable_term(f.term) {
        let h = hoist_term(t, n);
        let name = temp_name(f.count + 1);
        assert(h.term == t_var(name) && h.term.names[0] == name);
        assert(h.binds == f.binds.push((name, f.term)));
        assert(h.binds[f.binds.len() as int].0 == name);
        assert forall|i: int| 0 <= i < h.binds.len() && free((#[trigger] h.binds[i]).1, x) implies binds_it(
            h.binds,
            i,
            x,
        ) by {
            let k = if i < f.binds.len() {
                assert(free(f.binds[i].1, x));
                choose|k: int| 0 <= k < i && (#[trigger] f.binds[k]).0 == x
            } else {
                choose|k: int| 0 <= k < f.binds.len() && (#[trigger] f.binds[k]).0 == x
            };
            assert(h.binds[k].0 == x);
        }
    }
}

proof fn region_is_closed(t: Term, n: nat, x: Name)
    requires
        !speaks(t, x),
    ensures
        !free(region_term(t, n).term, x),
        region_term(t, n).binds.len() == 0,
    decreases t, t.kids.len() + t.arms.len() + 2,
{
    let f = flatten_term(t, n);
    flattening_is_scoped(t, n, x);
    wrap_is_free(f.binds, f.term, x);
    scoped_is_closed(f.binds, 0, f.term, x);
}

proof fn arms_are_closed(t: Term, i: nat, n: nat, x: Name)
    requires
        i <= t.arms.len(),
        !speaks(t, x),
    ensures
        ({
            let a = flatten_arms(t, i, n);
            &&& a.arms.len() == i
            &&& forall|j: int| 0 <= j < i ==> !arm_free(#[trigger] a.arms[j], x)
        }),
    decreases t, i,
{
    if i > 0 {
        let l = (i - 1) as nat;
        let p = flatten_arms(t, l, n);
        let a = flatten_arms(t, i, n);
        let arm = t.arms[i - 1];
        arm_decreases(arm);
        assert(!arm_speaks(arm, x));
        arms_are_closed(t, l, n, x);
        match arm.guard {
            Some(g) => {
                region_is_closed(g, p.count, x);
                let gf = region_term(g, p.count);
                region_is_closed(arm.body, gf.count, x);
            },
            None => {
                region_is_closed(arm.body, p.count, x);
            },
        }
        assert forall|j: int| 0 <= j < i implies !arm_free(#[trigger] a.arms[j], x) by {
            if j < l {
                assert(a.arms[j] == p.arms[j]);
            }
        }
    }
}

/// Every temporary is bound where it is used: a name that a body does not speak of, such as that
/// of a temporary, its flattened form does not read from outside.
pub proof fn every_temporary_is_bound(t: Term, n: nat, x: Name)
    requires
        !speaks(t, x),
    ensures
        !free(region_term(t, n).term, x),
{
    region_is_closed(t, n, x);
}

/// Naming allocations keeps what a program declares: every function has its name, its
/// parameters and the free names of its body, and every global its name and those of its
/// value.
pub proof fn naming_keeps_the_declarations(p: ProgramTerm, x: Name)
    requires
        !is_temp(x),
    ensures
        ({
            let r = flatten_program(p);
            &&& r.externs == p.externs
            &&& r.functions.len() == p.functions.len()
            &&& r.globals.len() == p.globals.len()
            &&& forall|j: int|
                0 <= j < p.functions.len() ==> (#[trigger] r.functions[j]).name
                    == p.functions[j].name && r.functions[j].params == p.functions[j].params && free(
                    r.functions[j].body,
                    x,
                ) == free(p.functions[j].body, x)
            &&& forall|j: int|
                0 <= j < p.globals.len() ==> (#[trigger] r.globals[j]).name == p.globals[j].name
                    && free(r.globals[j].value, x) == free(p.globals[j].value, x)
        }),
{
    functions_are_kept(p, p.functions.len(), x);
    globals_are_kept(p, p.globals.len(), x);
}

proof fn functions_are_kept(p: ProgramTerm, i: nat, x: Name)
    requires
        !is_temp(x),
        i <= p.functions.len(),
    ensures
        ({
            let r = flatten_functions(p, i).0;
            &&& r.len() == i
            &&& forall|j: int|
                0 <= j < i ==> (#[trigger] r[j]).name == p.functions[j].name && r[j].params
                    == p.functions[j].params && free(r[j].body, x) == free(p.functions[j].body, x)
        }),
    decreases i,
{
    if i > 0 {
        functions_are_kept(p, (i - 1) as nat, x);
        let (done, n) = flatten_functions(p, (i - 1) as nat);
        naming_keeps_the_free_names(p.functions[i - 1].body, n, x);
        let r = flatten_functions(p, i).0;
        assert forall|j: int| 0 <= j < i implies (#[trigger] r[j]).name == p.functions[j].name
            && r[j].params == p.functions[j].params && free(r[j].body, x) == free(
            p.functions[j].body,
            x,
        ) by {
            if j < i - 1 {
                assert(r[j] == done[j]);
            }
        }
    }
}

proof fn globals_are_kept(p: ProgramTerm, i: nat, x: Name)
    requires
        !is_temp(x),
        i <= p.globals.len(),
    ensures
        ({
            let r = flatten_globals(p, i).0;
            &&& r.len() == i
            &&& forall|j: int|
                0 <= j < i ==> (#[trigger] r[j]).name == p.globals[j].name && free(r[j].value, x)
                    == free(p.globals[j].value, x)
        }),
    decreases i,
{
    if i > 0 {
        globals_are_kept(p, (i - 1) as nat, x);
        let (done, n) = flatten_globals(p, (i - 1) as nat);
        naming_keeps_the_free_names(p.globals[i - 1].value, n, x);
        let r = flatten_globals(p, i).0;
        assert forall|j: int| 0 <= j < i implies (#[trigger] r[j]).name == p.globals[j].name && free(
            r[j].value,
            x,
        ) == free(p.globals[j].value, x) by {
            if j < i - 1 {
                assert(r[j] == done[j]);
            }
        }
    }
}

} // verus!
