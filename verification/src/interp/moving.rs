//! Moving an assignment ahead of what stands before it.
//!
//! What an assignment is moved past does not notice it. What would notice is evaluated first,
//! and its value kept in a temporary.

use vstd::prelude::*;
use crate::anf::is_atom_op;
use crate::ir::{
    arm_decreases, shaped, t_assign, t_let, t_var, wrap, ArmTerm, BinOp, Name, Op, Term,
};
use crate::liftassign::{
    can_lift, commutes, is_assign, lift_arms, lift_kids, lift_term, lifted, lifted_arm,
    lifting_is_complete, nothing_to_lift_is_unchanged, pin, remainder, remainder_shrinks,
    settle_term, target_is_unique, temp_name,
};
use crate::names::{decimal, decimal_injective};
use super::context::{an_evaluation_is_local, applied_over, over};
use super::direct::{
    direct, direct_arm, ev, ev_arms, ev_either, ev_kids, first_values, handing_on, one_step,
    running_comes_to,
};
use super::heap::{Cells, Contents, with_new};
use super::laws::{found_is_bound, steps_add_up};
use super::lifting::{calls_by_name, takes_operands};
use super::naming::{
    applied_anywhere, applied_comes_to_the_same, at_rest, find_before, first_settled, held_up,
    held_up_stays, unbinds,
};
use super::semantics::{
    adjusted, applied, demand, find, lookup, meets, operands, run, settled, started, step, zipped,
    Progress,
};
use super::state::{ControlTerm, FrameTerm, Machine, Scope};
use super::step::settled_stays;
use super::value::Val;

verus! {

/// A machine in which the binding at place `at` has been given another value.
pub open spec fn rebound(m: Machine, at: int, name: Name, w: Val) -> Machine {
    Machine { env: m.env.update(at, (name, w)), ..m }
}

/// What an assignment to a name may be moved past does not notice the assignment and does
/// nothing that the assignment could notice: it is done in one step, which reads no value
/// that was assigned, changes nothing that is in scope or shared, and at most adds a cell.
pub proof fn what_commutes_does_not_notice(m: Machine, t: Term, name: Name, at: int, w: Val)
    requires
        shaped(t),
        commutes(t, name),
        m == m.idle(),
        find(m.env, name) == Some(at),
    ensures
        ({
            let r = step(m.evaluate(t));
            let s = step(rebound(m, at, name, w).evaluate(t));
            &&& r.control is Return || r.control is Failed
            &&& s == rebound(r, at, name, w)
            &&& r == (Machine { heap: r.heap, control: r.control, ..m })
            &&& r.heap == m.heap || exists|c: Contents| r.heap == with_new(m.heap, c)
        }),
{
    found_is_bound(m.env, name);
    if t.op == Op::Var {
        let y = t.names[0];
        same_but_one(m.env, at, name, w, y);
    }
    if t.op == Op::Str {
        assert(step(m.evaluate(t)).heap == with_new(m.heap, Contents::Str(t.names[0])));
    }
}

/// Another name is found where it was, with what it was bound to.
proof fn same_but_one(env: Scope, at: int, name: Name, w: Val, y: Name)
    requires
        0 <= at < env.len(),
        env[at].0 == name,
        y != name,
    ensures
        find(env.update(at, (name, w)), y) == find(env, y),
        find(env, y) matches Some(i) ==> 0 <= i < env.len() && i != at && env.update(
            at,
            (name, w),
        )[i] == env[i],
    decreases env.len(),
{
    found_is_bound(env, y);
    let new = env.update(at, (name, w));
    if at == env.len() - 1 {
        assert(new.drop_last() =~= env.drop_last());
        assert(new.last().0 == name);
    } else {
        assert(new.drop_last() =~= env.drop_last().update(at, (name, w)));
        same_but_one(env.drop_last(), at, name, w, y);
    }
}

/// Whether a term looks at a name anywhere.
pub open spec fn says(t: Term, n: Name) -> bool
    decreases t,
{
    ||| (t.op == Op::Var || t.op is RcAnnotated) && t.names[0] == n
    ||| exists|i: int| 0 <= i < t.kids.len() && says(#[trigger] t.kids[i], n)
    ||| exists|k: int| 0 <= k < t.arms.len() && arm_says(#[trigger] t.arms[k], n)
}

/// Whether an arm looks at a name anywhere.
pub open spec fn arm_says(arm: ArmTerm, n: Name) -> bool
    decreases arm,
{
    ||| (arm.guard matches Some(g) && says(g, n))
    ||| says(arm.body, n)
}

/// Whether a term looks at no temporary.
pub open spec fn says_no_temp(t: Term) -> bool {
    forall|c: nat| !says(t, #[trigger] temp_name(c))
}

spec fn unsaid(t: Term, more: Scope) -> bool {
    forall|j: int| 0 <= j < more.len() ==> !says(t, (#[trigger] more[j]).0)
}

spec fn bound_value(env: Scope, y: Name) -> Option<Val> {
    match find(env, y) {
        Some(i) => Some(env[i].1),
        None => None,
    }
}

proof fn found_past(pre: Scope, more: Scope, post: Scope, y: Name)
    requires
        forall|j: int| 0 <= j < more.len() ==> (#[trigger] more[j]).0 != y,
    ensures
        bound_value(pre + more + post, y) == bound_value(pre + post, y),
    decreases post.len(),
{
    let a = pre + more + post;
    let b = pre + post;
    found_is_bound(a, y);
    found_is_bound(b, y);
    if post.len() == 0 {
        assert(a =~= pre + more);
        assert(b =~= pre);
        find_before(pre, more, y);
        found_is_bound(pre, y);
    } else {
        assert(a.last() == post.last() && b.last() == post.last());
        assert(a.drop_last() =~= pre + more + post.drop_last());
        assert(b.drop_last() =~= pre + post.drop_last());
        found_past(pre, more, post.drop_last(), y);
        found_is_bound(a.drop_last(), y);
        found_is_bound(b.drop_last(), y);
    }
}

proof fn looked_up_past(q: Machine, pre: Scope, more: Scope, post: Scope, y: Name)
    requires
        forall|j: int| 0 <= j < more.len() ==> (#[trigger] more[j]).0 != y,
    ensures
        lookup(Machine { env: pre + more + post, ..q }, y) == lookup(
            Machine { env: pre + post, ..q },
            y,
        ),
{
    found_past(pre, more, post, y);
    found_is_bound(pre + more + post, y);
    found_is_bound(pre + post, y);
}

spec fn wide(q: Machine, pre: Scope, more: Scope, post: Scope) -> Machine {
    Machine { env: pre + more + post, ..q }
}

spec fn narrow(q: Machine, pre: Scope, post: Scope) -> Machine {
    Machine { env: pre + post, ..q }
}

/// A term evaluates to the same with more in scope that it does not look at.
proof fn more_in_scope(q: Machine, pre: Scope, more: Scope, post: Scope, t: Term)
    requires
        direct(t),
        unsaid(t, more),
    ensures
        ev(wide(q, pre, more, post), t) == ev(narrow(q, pre, post), t),
    decreases t, t.kids.len() + t.arms.len() + 1,
{
    let a = wide(q, pre, more, post);
    let b = narrow(q, pre, post);
    assert forall|i: int| 0 <= i < t.kids.len() implies direct(#[trigger] t.kids[i]) && unsaid(
        t.kids[i],
        more,
    ) by {
        assert forall|j: int| 0 <= j < more.len() implies !says(
            t.kids[i],
            (#[trigger] more[j]).0,
        ) by {
            assert(!says(t, more[j].0));
        }
    }
    if t.op == Op::Var || t.op is RcAnnotated {
        assert forall|j: int| 0 <= j < more.len() implies (#[trigger] more[j]).0 != t.names[0] by {
            assert(!says(t, more[j].0));
        }
        looked_up_past(q, pre, more, post, t.names[0]);
    }
    match t.op {
        Op::Str => {},
        Op::RcAnnotated(op) => {
            let r = adjusted(a, op, t.names[0], t.kids[0]);
            let s = adjusted(b, op, t.names[0], t.kids[0]);
            let q2 = Machine { heap: r.heap, ..q };
            assert(Machine { heap: r.heap, ..a } == wide(q2, pre, more, post));
            assert(Machine { heap: s.heap, ..b } == narrow(q2, pre, post));
            more_in_scope(q2, pre, more, post, t.kids[0]);
        },
        Op::Let => {
            more_in_scope(q, pre, more, post, t.kids[0]);
            if let Some((h, v)) = ev(b, t.kids[0]) {
                let q2 = Machine { heap: h, ..q };
                let n = t.names[0];
                assert(a.env.push((n, v)) =~= pre + more + post.push((n, v)));
                assert(b.env.push((n, v)) =~= pre + post.push((n, v)));
                more_in_scope(q2, pre, more, post.push((n, v)), t.kids[1]);
            }
        },
        Op::If => {
            more_in_scope(q, pre, more, post, t.kids[0]);
            if let Some((h, v)) = ev(b, t.kids[0]) {
                let q2 = Machine { heap: h, ..q };
                more_in_scope(q2, pre, more, post, t.kids[1]);
                more_in_scope(q2, pre, more, post, t.kids[2]);
            }
        },
        Op::Binary(BinOp::And) => {
            more_for_either(q, pre, more, post, t, true);
        },
        Op::Binary(BinOp::Or) => {
            more_for_either(q, pre, more, post, t, false);
        },
        Op::Match => {
            more_in_scope(q, pre, more, post, t.kids[0]);
            if let Some((h, Val::HeapRef(addr))) = ev(b, t.kids[0]) {
                if let Ok((tag, fields)) = super::heap::ctor_at(h, addr) {
                    more_for_arms(Machine { heap: h, ..q }, pre, more, post, t, 0, tag, fields);
                }
            }
        },
        _ => {
            if !is_atom_op(t.op) {
                more_for_kids(q, pre, more, post, t, t.kids.len());
                if let Some((h, vs)) = ev_kids(b, t, t.kids.len()) {
                    let q2 = Machine { heap: h, ..q };
                    applied_anywhere(q2, pre + more + post, t.op, t.names, vs);
                    applied_anywhere(q2, pre + post, t.op, t.names, vs);
                }
            }
        },
    }
}

proof fn more_for_kids(q: Machine, pre: Scope, more: Scope, post: Scope, t: Term, n: nat)
    requires
        n <= t.kids.len(),
        forall|i: int| 0 <= i < n ==> direct(#[trigger] t.kids[i]) && unsaid(t.kids[i], more),
    ensures
        ev_kids(wide(q, pre, more, post), t, n) == ev_kids(narrow(q, pre, post), t, n),
    decreases t, n,
{
    if n > 0 {
        more_for_kids(q, pre, more, post, t, (n - 1) as nat);
        if let Some((h, _)) = ev_kids(narrow(q, pre, post), t, (n - 1) as nat) {
            assert(direct(t.kids[n - 1]));
            more_in_scope(Machine { heap: h, ..q }, pre, more, post, t.kids[n - 1]);
        }
    }
}

proof fn more_for_either(q: Machine, pre: Scope, more: Scope, post: Scope, t: Term, and: bool)
    requires
        t.kids.len() == 2,
        forall|i: int|
            0 <= i < t.kids.len() ==> direct(#[trigger] t.kids[i]) && unsaid(t.kids[i], more),
    ensures
        ev_either(wide(q, pre, more, post), t, and) == ev_either(narrow(q, pre, post), t, and),
    decreases t, 0nat,
{
    assert(direct(t.kids[0]) && direct(t.kids[1]));
    more_in_scope(q, pre, more, post, t.kids[0]);
    if let Some((h, _)) = ev(narrow(q, pre, post), t.kids[0]) {
        more_in_scope(Machine { heap: h, ..q }, pre, more, post, t.kids[1]);
    }
}

proof fn more_for_arms(
    q: Machine,
    pre: Scope,
    more: Scope,
    post: Scope,
    t: Term,
    k: nat,
    tag: Name,
    fields: Seq<Val>,
)
    requires
        direct(t),
        unsaid(t, more),
    ensures
        ev_arms(wide(q, pre, more, post), t, k, tag, fields) == ev_arms(
            narrow(q, pre, post),
            t,
            k,
            tag,
            fields,
        ),
    decreases t, t.arms.len() - k,
{
    if k < t.arms.len() {
        let arm = t.arms[k as int];
        arm_decreases(arm);
        assert(direct_arm(arm));
        assert forall|j: int| 0 <= j < more.len() implies !arm_says(arm, (#[trigger] more[j]).0) by {
            assert(!says(t, more[j].0));
        }
        more_for_arms(q, pre, more, post, t, k + 1, tag, fields);
        let z = zipped(arm.bindings, fields);
        let post2 = post + z;
        assert(pre + more + post + z =~= pre + more + post2);
        assert(pre + post + z =~= pre + post2);
        assert(unsaid(arm.body, more));
        more_in_scope(q, pre, more, post2, arm.body);
        if let Some(g) = arm.guard {
            assert(unsaid(g, more));
            more_in_scope(q, pre, more, post2, g);
            if let Some((h, _)) = ev(narrow(q, pre, post2), g) {
                let q2 = Machine { heap: h, ..q };
                more_in_scope(q2, pre, more, post2, arm.body);
                more_for_arms(q2, pre, more, post, t, k + 1, tag, fields);
            }
        }
    }
}

/// Different numbers make different temporaries.
proof fn temps_differ(a: nat, b: nat)
    requires
        temp_name(a) == temp_name(b),
    ensures
        a == b,
{
    let prefix = "liftassign$"@;
    assert(temp_name(a).skip(prefix.len() as int) =~= decimal(a));
    assert(temp_name(b).skip(prefix.len() as int) =~= decimal(b));
    decimal_injective(a, b);
}

/// Temporaries with their values, numbered on from `n`.
spec fn temp_scope(vals: Seq<Val>, n: nat) -> Scope {
    Seq::new(vals.len(), |j: int| (temp_name((n + 1 + j) as nat), vals[j]))
}

proof fn a_temp_is_found(q: Machine, vals: Seq<Val>, n: nat, j: int)
    requires
        0 <= j < vals.len(),
    ensures
        lookup(
            Machine { env: q.env + temp_scope(vals, n), ..q },
            temp_name((n + 1 + j) as nat),
        ) == Ok::<Val, super::error::Fault>(vals[j]),
{
    let name = temp_name((n + 1 + j) as nat);
    let temps = temp_scope(vals, n);
    let env = q.env + temps;
    let upto = q.env + temps.take(j + 1);
    let more = temps.skip(j + 1);
    assert(env =~= upto + more);
    assert forall|k: int| 0 <= k < more.len() implies (#[trigger] more[k]).0 != name by {
        assert(more[k].0 == temp_name((n + 1 + (j + 1 + k)) as nat));
        if more[k].0 == name {
            temps_differ((n + 1 + (j + 1 + k)) as nat, (n + 1 + j) as nat);
        }
    }
    find_before(upto, more, name);
    assert(upto.last() == (name, vals[j]));
    assert(find(upto, name) == Some(upto.len() - 1));
    assert(env[upto.len() - 1] == upto[upto.len() - 1]);
}

proof fn temps_are_unsaid(t: Term, vals: Seq<Val>, n: nat)
    requires
        says_no_temp(t),
    ensures
        unsaid(t, temp_scope(vals, n)),
{
    let more = temp_scope(vals, n);
    assert forall|j: int| 0 <= j < more.len() implies !says(t, (#[trigger] more[j]).0) by {
        assert(!says(t, temp_name((n + 1 + j) as nat)));
    }
}

/// A term evaluates to the same with temporaries in scope.
proof fn temps_do_not_matter(q: Machine, vals: Seq<Val>, n: nat, t: Term)
    requires
        direct(t),
        says_no_temp(t),
    ensures
        ev(Machine { env: q.env + temp_scope(vals, n), ..q }, t) == ev(q, t),
{
    let none = Seq::<(Name, Val)>::empty();
    let more = temp_scope(vals, n);
    temps_are_unsaid(t, vals, n);
    more_in_scope(q, q.env, more, none, t);
    assert(q.env + more + none =~= q.env + more);
    assert(q.env + none =~= q.env);
}

/// The machine after `i` bindings, or nothing if one of them fails or asks the host.
spec fn after(q: Machine, binds: Seq<(Name, Term)>, i: nat) -> Option<Machine>
    decreases i,
{
    if i == 0 || i > binds.len() {
        Some(q)
    } else {
        match after(q, binds, (i - 1) as nat) {
            None => None,
            Some(b) => match ev(b, binds[i - 1].1) {
                None => None,
                Some((h, v)) => Some(
                    Machine { heap: h, env: b.env.push((binds[i - 1].0, v)), ..b },
                ),
            },
        }
    }
}

proof fn after_prefix(q: Machine, a: Seq<(Name, Term)>, b: Seq<(Name, Term)>, i: nat)
    requires
        i <= a.len(),
        i <= b.len(),
        forall|j: int| 0 <= j < i ==> #[trigger] a[j] == b[j],
    ensures
        after(q, a, i) == after(q, b, i),
    decreases i,
{
    if i > 0 {
        after_prefix(q, a, b, (i - 1) as nat);
        assert(a[i - 1] == b[i - 1]);
    }
}

proof fn after_stays_at_rest(q: Machine, binds: Seq<(Name, Term)>, i: nat)
    requires
        q == at_rest(q),
    ensures
        after(q, binds, i) matches Some(b) ==> b == at_rest(b),
    decreases i,
{
    if 0 < i <= binds.len() {
        after_stays_at_rest(q, binds, (i - 1) as nat);
    }
}

/// Bindings round a term are evaluated one after another, and then the term.
proof fn bindings_run(
    q: Machine,
    below: Seq<FrameTerm>,
    binds: Seq<(Name, Term)>,
    body: Term,
) -> (n: nat)
    requires
        q == at_rest(q),
        forall|j: int| 0 <= j < binds.len() ==> direct((#[trigger] binds[j]).1),
        after(q, binds, binds.len()) is Some,
    ensures
        run(over(q, below).evaluate(wrap(binds, body)), n) == over(
            after(q, binds, binds.len())->0,
            below + unbinds(binds.len()),
        ).evaluate(body),
    decreases binds.len(),
{
    let start = over(q, below).evaluate(wrap(binds, body));
    one_step(start);
    if binds.len() == 0 {
        assert(below + unbinds(0) =~= below);
        0
    } else {
        let k = (binds.len() - 1) as nat;
        let first = binds.drop_last();
        let (name, value) = binds.last();
        let inner = t_let(name, value, body);
        assert(wrap(binds, body) == wrap(first, inner));
        assert forall|j: int| 0 <= j < first.len() implies direct((#[trigger] first[j]).1) by {
            assert(first[j] == binds[j]);
        }
        after_prefix(q, first, binds, k);
        after_stays_at_rest(q, binds, k);
        let a = bindings_run(q, below, first, inner);
        let b = after(q, first, k)->0;
        let s = below + unbinds(k);
        let m = over(b, s);
        let c = m.evaluate(inner);
        let f = FrameTerm::LetBody { name, body };
        let u = FrameTerm::Unbind { count: 1 };
        assert(inner.kids[0] == value && inner.kids[1] == body && inner.names[0] == name);
        assert(c.idle() == m);
        handing_on(b, s, f, Val::Unit);
        assert(step(c) == over(b, s.push(f)).evaluate(value));
        one_step(c);
        assert(binds[binds.len() - 1] == (name, value));
        let d = running_comes_to(b, s.push(f), value);
        let (h, v) = ev(b, value)->0;
        steps_add_up(c, 1, d);
        steps_add_up(start, a, 1 + d);
        let now = Machine { heap: h, ..b };
        let next = Machine { env: b.env.push((name, v)), ..now };
        let r = over(now, s.push(f)).give(v);
        handing_on(now, s, f, v);
        assert(over(now, s).bind(name, v) == over(next, s));
        handing_on(next, s, u, v);
        assert(below + unbinds(binds.len()) =~= s.push(u));
        assert(step(r) == over(next, below + unbinds(binds.len())).evaluate(body));
        one_step(r);
        steps_add_up(start, a + (1 + d), 1);
        a + (1 + d) + 1
    }
}

/// Whether a term stands for a value: the operand itself, which is a variable other than the
/// assigned one or a literal, or a temporary that holds the value.
spec fn stands_for(a: Term, kid: Term, x: Name, vals: Seq<Val>, n: nat, w: Val) -> bool {
    ||| a == kid && is_atom_op(kid.op) && (kid.op == Op::Var ==> kid.names[0] != x)
    ||| exists|c: int|
        0 <= c < vals.len() && a == t_var(#[trigger] temp_name((n + 1 + c) as nat)) && vals[c] == w
}

/// What can stand before an assignment: an expression without calls, loops, assignments,
/// closures and requests to the host that looks at no temporary, and is no string literal.
pub open spec fn can_precede(t: Term) -> bool {
    direct(t) && says_no_temp(t) && t.op != Op::Str
}

/// Keeping operands in temporaries: the bindings leave the heap that the operands would leave,
/// and every operand is stood for.
#[verifier::rlimit(60)]
#[verifier::spinoff_prover]
proof fn pinning_keeps_values(q: Machine, t: Term, x: Name, n: nat, i: nat) -> (vals: Seq<Val>)
    requires
        i <= t.kids.len(),
        forall|k: int| 0 <= k < i ==> can_precede(#[trigger] t.kids[k]),
        ev_kids(q, t, i) is Some,
    ensures
        ({
            let p = pin(t, x, i, n);
            let (h, ws) = ev_kids(q, t, i)->0;
            &&& p.count == n + vals.len()
            &&& p.binds.len() == vals.len()
            &&& p.kids.len() == i
            &&& ws.len() == i
            &&& after(q, p.binds, p.binds.len()) == Some(
                Machine { heap: h, env: q.env + temp_scope(vals, n), ..q },
            )
            &&& forall|c: int| 0 <= c < p.binds.len() ==> direct((#[trigger] p.binds[c]).1)
            &&& forall|k: int|
                0 <= k < i ==> stands_for(#[trigger] p.kids[k], t.kids[k], x, vals, n, ws[k])
        }),
    decreases i,
{
    if i == 0 {
        assert(q.env + temp_scope(Seq::empty(), n) =~= q.env);
        Seq::empty()
    } else {
        let l = (i - 1) as nat;
        let vals = pinning_keeps_values(q, t, x, n, l);
        let p = pin(t, x, l, n);
        let all = pin(t, x, i, n);
        let (h, ws) = ev_kids(q, t, l)->0;
        let kid = t.kids[i - 1];
        assert(can_precede(kid));
        let now = Machine { heap: h, ..q };
        let (h2, w) = ev(now, kid)->0;
        let ws2 = ws.push(w);
        if commutes(kid, x) {
            assert(is_atom_op(kid.op));
            assert(h2 == h);
            assert forall|k: int| 0 <= k < i implies stands_for(
                #[trigger] all.kids[k],
                t.kids[k],
                x,
                vals,
                n,
                ws2[k],
            ) by {
                if k < l {
                    assert(all.kids[k] == p.kids[k]);
                    assert(stands_for(p.kids[k], t.kids[k], x, vals, n, ws[k]));
                }
            }
            vals
        } else {
            let name = temp_name(p.count + 1);
            let more = vals.push(w);
            let mid = Machine { env: q.env + temp_scope(vals, n), ..now };
            temps_do_not_matter(now, vals, n, kid);
            assert(ev(mid, kid) == ev(now, kid));
            after_prefix(q, p.binds, all.binds, p.binds.len());
            assert(all.binds[all.binds.len() - 1] == (name, kid));
            assert(temp_scope(more, n) =~= temp_scope(vals, n).push((name, w)));
            assert(mid.env.push((name, w)) =~= q.env + temp_scope(more, n));
            assert forall|c: int| 0 <= c < all.binds.len() implies direct(
                (#[trigger] all.binds[c]).1,
            ) by {
                if c < p.binds.len() {
                    assert(all.binds[c] == p.binds[c]);
                }
            }
            assert forall|k: int| 0 <= k < i implies stands_for(
                #[trigger] all.kids[k],
                t.kids[k],
                x,
                more,
                n,
                ws2[k],
            ) by {
                if k < l {
                    assert(all.kids[k] == p.kids[k]);
                    assert(stands_for(p.kids[k], t.kids[k], x, vals, n, ws[k]));
                    if exists|c: int|
                        0 <= c < vals.len() && p.kids[k] == t_var(
                            #[trigger] temp_name((n + 1 + c) as nat),
                        ) && vals[c] == ws[k] {
                        let c = choose|c: int|
                            0 <= c < vals.len() && p.kids[k] == t_var(
                                #[trigger] temp_name((n + 1 + c) as nat),
                            ) && vals[c] == ws[k];
                        assert(more[c] == ws[k]);
                    }
                } else {
                    let c = vals.len() as int;
                    assert(all.kids[k] == t_var(temp_name((n + 1 + c) as nat)));
                    assert(more[c] == w);
                }
            }
            more
        }
    }
}

/// The operands of a node from place `i` to place `e` run to what they evaluate to.
proof fn operands_run(
    q: Machine,
    below: Seq<FrameTerm>,
    t: Term,
    i: nat,
    e: nat,
    h: Cells,
    done: Seq<Val>,
) -> (n: nat)
    requires
        forall|k: int| i <= k < e ==> direct(#[trigger] t.kids[k]),
        q == at_rest(q),
        i <= e <= t.kids.len(),
        ev_kids(q, t, i) == Some((h, done)),
        done.len() == i,
    ensures
        ({
            let len = t.kids.len() as int;
            let start = operands(
                over(Machine { heap: h, ..q }, below),
                t.op,
                t.names,
                done,
                t.kids.subrange(i as int, len),
            );
            match ev_kids(q, t, e) {
                Some((h2, vs)) => run(start, n) == operands(
                    over(Machine { heap: h2, ..q }, below),
                    t.op,
                    t.names,
                    vs,
                    t.kids.subrange(e as int, len),
                ),
                None => held_up(run(start, n)),
            }
        }),
    decreases e - i,
{
    let len = t.kids.len() as int;
    let now = Machine { heap: h, ..q };
    let m = over(now, below);
    let todo = t.kids.subrange(i as int, len);
    let start = operands(m, t.op, t.names, done, todo);
    one_step(start);
    if i == e {
        0
    } else {
        let kid = t.kids[i as int];
        let rest = t.kids.subrange((i + 1) as int, len);
        let f = FrameTerm::Operands { op: t.op, names: t.names, done, todo: rest };
        assert(todo[0] == kid);
        assert(todo.subrange(1, todo.len() as int) =~= rest);
        handing_on(now, below, f, Val::Unit);
        assert(start == over(now, below.push(f)).evaluate(kid));
        let a = running_comes_to(now, below.push(f), kid);
        match ev(now, kid) {
            None => {
                assert(ev_kids(q, t, i + 1) is None);
                if ev_kids(q, t, e) is Some {
                    first_values(q, t, i + 1, e);
                }
                a
            },
            Some((h2, v)) => {
                let after = Machine { heap: h2, ..q };
                let r = run(start, a);
                assert(Machine { heap: h2, ..now } == after);
                handing_on(after, below, f, v);
                one_step(r);
                steps_add_up(start, a, 1);
                if meets(v, demand(t.op, i)) {
                    assert(ev_kids(q, t, i + 1) == Some((h2, done.push(v))));
                    let b = operands_run(q, below, t, i + 1, e, h2, done.push(v));
                    steps_add_up(start, a + 1, b);
                    a + 1 + b
                } else {
                    assert(ev_kids(q, t, i + 1) is None);
                    if ev_kids(q, t, e) is Some {
                        first_values(q, t, i + 1, e);
                    }
                    a + 1
                }
            },
        }
    }
}

/// A node starts with its operands; the function that it calls by name is there at once.
proof fn a_node_starts(q: Machine, below: Seq<FrameTerm>, t: Term, e: nat) -> (n: nat)
    requires
        shaped(t),
        takes_operands(t.op),
        t.op != Op::CtorReuse,
        e <= t.kids.len(),
        t.op == Op::Call ==> e >= 1,
        forall|k: int| 0 <= k < e ==> direct(#[trigger] t.kids[k]),
        q == at_rest(q),
    ensures
        match ev_kids(q, t, e) {
            Some((h, vs)) => run(over(q, below).evaluate(t), n) == operands(
                over(Machine { heap: h, ..q }, below),
                t.op,
                t.names,
                vs,
                t.kids.subrange(e as int, t.kids.len() as int),
            ),
            None => held_up(run(over(q, below).evaluate(t), n)),
        },
{
    let m = over(q, below);
    let c = m.evaluate(t);
    let len = t.kids.len() as int;
    assert(m.stack =~= below);
    assert(c.idle() == m);
    assert(Machine { heap: q.heap, ..q } == q);
    one_step(c);
    if t.op == Op::Call && calls_by_name(m, t) {
        let f = Val::Function(t.kids[0].names[0]);
        assert(lookup(q, t.kids[0].names[0]) == lookup(m, t.kids[0].names[0]));
        assert(direct(t.kids[0]));
        assert(is_atom_op(t.kids[0].op));
        assert(ev(q, t.kids[0]) == Some((q.heap, f)));
        assert(ev_kids(q, t, 0) == Some((q.heap, Seq::<Val>::empty())));
        assert(Seq::<Val>::empty().push(f) =~= seq![f]);
        assert(ev_kids(q, t, 1) == Some((q.heap, seq![f])));
        assert(step(c) == operands(m, t.op, t.names, seq![f], t.kids.subrange(1, len)));
        let n = operands_run(q, below, t, 1, e, q.heap, seq![f]);
        steps_add_up(c, 1, n);
        1 + n
    } else {
        assert(t.kids.subrange(0, len) =~= t.kids);
        assert(step(c) == operands(m, t.op, t.names, Seq::empty(), t.kids));
        let n = operands_run(q, below, t, 0, e, q.heap, Seq::empty());
        steps_add_up(c, 1, n);
        1 + n
    }
}

/// An assignment runs its value, assigns it, and goes on with the rest.
proof fn an_assignment_runs(q: Machine, below: Seq<FrameTerm>, a: Term, at: int) -> (n: nat)
    requires
        q == at_rest(q),
        a.op == Op::Assign,
        a.names.len() == 1,
        a.kids.len() == 2,
        direct(a.kids[0]),
        find(q.env, a.names[0]) == Some(at),
    ensures
        match ev(q, a.kids[0]) {
            Some((h, w)) => run(over(q, below).evaluate(a), n) == over(
                rebound(Machine { heap: h, ..q }, at, a.names[0], w),
                below,
            ).evaluate(a.kids[1]),
            None => held_up(run(over(q, below).evaluate(a), n)),
        },
{
    let m = over(q, below);
    let c = m.evaluate(a);
    let f = FrameTerm::AssignRest { name: a.names[0], rest: a.kids[1] };
    assert(c.idle() == m);
    handing_on(q, below, f, Val::Unit);
    assert(step(c) == over(q, below.push(f)).evaluate(a.kids[0]));
    one_step(c);
    let d = running_comes_to(q, below.push(f), a.kids[0]);
    steps_add_up(c, 1, d);
    match ev(q, a.kids[0]) {
        None => 1 + d,
        Some((h, w)) => {
            let now = Machine { heap: h, ..q };
            let r = over(now, below.push(f)).give(w);
            handing_on(now, below, f, w);
            one_step(r);
            steps_add_up(c, 1 + d, 1);
            1 + d + 1
        },
    }
}

/// What stands for the operands evaluates to their values after the assignment.
proof fn stand_ins_hold(
    q2: Machine,
    env: Scope,
    at: int,
    w: Val,
    x: Name,
    s: Term,
    t: Term,
    q: Machine,
    vals: Seq<Val>,
    n: nat,
    i: nat,
    ws: Seq<Val>,
)
    requires
        q.env == env,
        find(env, x) == Some(at),
        q2 == (Machine { heap: q2.heap, env: env.update(at, (x, w)), ..q }),
        i <= t.kids.len(),
        s.kids.len() == t.kids.len(),
        s.op == t.op,
        ws.len() == i,
        forall|k: int|
            0 <= k < i ==> stands_for(#[trigger] s.kids[k], t.kids[k], x, vals, n, ws[k]),
        forall|k: int| 0 <= k < i ==> can_precede(#[trigger] t.kids[k]),
        ev_kids(q, t, i) matches Some((_, vs)) && vs == ws,
    ensures
        ev_kids(Machine { env: q2.env + temp_scope(vals, n), ..q2 }, s, i) == Some((q2.heap, ws)),
    decreases i,
{
    let wideq = Machine { env: q2.env + temp_scope(vals, n), ..q2 };
    if i == 0 {
        assert(ws =~= Seq::<Val>::empty());
    } else {
        let l = (i - 1) as nat;
        let before = (ev_kids(q, t, l)->0).1;
        first_values(q, t, l, i);
        assert(before =~= ws.take(l as int));
        assert forall|k: int| 0 <= k < l implies stands_for(
            #[trigger] s.kids[k],
            t.kids[k],
            x,
            vals,
            n,
            before[k],
        ) by {
            assert(stands_for(s.kids[k], t.kids[k], x, vals, n, ws[k]));
        }
        stand_ins_hold(q2, env, at, w, x, s, t, q, vals, n, l, before);
        let a = s.kids[l as int];
        let kid = t.kids[l as int];
        let v = ws[l as int];
        assert(stands_for(a, kid, x, vals, n, v));
        assert(can_precede(kid));
        assert(Machine { heap: q2.heap, ..wideq } == wideq);
        let hk = (ev_kids(q, t, l)->0).0;
        let now = Machine { heap: hk, ..q };
        assert(ev(now, kid) matches Some((_, u)) && u == v);
        assert(ev(wideq, a) == Some((q2.heap, v))) by {
            if exists|c: int|
                0 <= c < vals.len() && a == t_var(#[trigger] temp_name((n + 1 + c) as nat))
                    && vals[c] == v {
                let c = choose|c: int|
                    0 <= c < vals.len() && a == t_var(#[trigger] temp_name((n + 1 + c) as nat))
                        && vals[c] == v;
                a_temp_is_found(q2, vals, n, c);
                assert(a.names[0] == temp_name((n + 1 + c) as nat));
                assert(shaped(a));
            } else {
                if kid.op == Op::Var {
                    let y = kid.names[0];
                    found_is_bound(env, x);
                    same_but_one(env, at, x, w, y);
                    temps_are_unsaid(kid, vals, n);
                    let more = temp_scope(vals, n);
                    assert forall|j: int| 0 <= j < more.len() implies (#[trigger] more[j]).0 != y by {
                        assert(!says(kid, more[j].0));
                    }
                    find_before(q2.env, more, y);
                    found_is_bound(q2.env, y);
                    assert(lookup(now, y) == lookup(wideq, y));
                }
            }
        }
        assert(before.push(v) =~= ws);
    }
}

/// Leaving the scopes of temporaries with a value leaves the scope round them.
proof fn temps_are_left(z: Machine, vals: Seq<Val>, n: nat, v: Val)
    requires
        z.stack.len() == 0,
        z.control == ControlTerm::Return(v),
    ensures
        run(
            over(Machine { env: z.env + temp_scope(vals, n), ..z }, unbinds(vals.len())),
            vals.len(),
        ) == z,
    decreases vals.len(),
{
    let c = over(Machine { env: z.env + temp_scope(vals, n), ..z }, unbinds(vals.len()));
    one_step(c);
    if vals.len() == 0 {
        assert(c.env =~= z.env);
        assert(c.stack =~= z.stack);
    } else {
        let fewer = vals.drop_last();
        let d = over(Machine { env: z.env + temp_scope(fewer, n), ..z }, unbinds(fewer.len()));
        assert(c.stack.last() == FrameTerm::Unbind { count: 1 });
        assert(c.stack.drop_last() =~= d.stack);
        assert(c.env.take(c.env.len() - 1) =~= d.env);
        assert(step(c) == d);
        temps_are_left(z, fewer, n, v);
        assert(run(c, vals.len()) == run(step(c), (vals.len() - 1) as nat));
    }
}

/// What the operands of a node from place `i` to place `e` evaluate to, after `done`.
spec fn ev_from(q: Machine, t: Term, i: nat, e: nat, h: Cells, done: Seq<Val>) -> Option<
    (Cells, Seq<Val>),
>
    decreases e - i,
{
    if i >= e {
        Some((h, done))
    } else {
        match ev(Machine { heap: h, ..q }, t.kids[i as int]) {
            Some((h2, v)) => if meets(v, demand(t.op, i)) {
                ev_from(q, t, i + 1, e, h2, done.push(v))
            } else {
                None
            },
            None => None,
        }
    }
}

/// The operands of a node from place `i` on run to what they evaluate to, and then the operator
/// is applied.
proof fn remaining_operands_run(
    q: Machine,
    below: Seq<FrameTerm>,
    t: Term,
    i: nat,
    h: Cells,
    done: Seq<Val>,
) -> (n: nat)
    requires
        forall|k: int| i <= k < t.kids.len() ==> direct(#[trigger] t.kids[k]),
        q == at_rest(q),
        i <= t.kids.len(),
        done.len() == i,
    ensures
        ({
            let len = t.kids.len();
            let start = operands(
                over(Machine { heap: h, ..q }, below),
                t.op,
                t.names,
                done,
                t.kids.subrange(i as int, len as int),
            );
            match ev_from(q, t, i, len, h, done) {
                Some((h2, vs)) => run(start, n) == applied(
                    over(Machine { heap: h2, ..q }, below),
                    t.op,
                    t.names,
                    vs,
                ),
                None => held_up(run(start, n)),
            }
        }),
    decreases t.kids.len() - i,
{
    let len = t.kids.len() as int;
    let now = Machine { heap: h, ..q };
    let m = over(now, below);
    let todo = t.kids.subrange(i as int, len);
    let start = operands(m, t.op, t.names, done, todo);
    one_step(start);
    if i == t.kids.len() {
        0
    } else {
        let kid = t.kids[i as int];
        let rest = t.kids.subrange((i + 1) as int, len);
        let f = FrameTerm::Operands { op: t.op, names: t.names, done, todo: rest };
        assert(todo[0] == kid);
        assert(todo.subrange(1, todo.len() as int) =~= rest);
        handing_on(now, below, f, Val::Unit);
        assert(start == over(now, below.push(f)).evaluate(kid));
        let a = running_comes_to(now, below.push(f), kid);
        match ev(now, kid) {
            None => a,
            Some((h2, v)) => {
                let after = Machine { heap: h2, ..q };
                let r = run(start, a);
                assert(Machine { heap: h2, ..now } == after);
                handing_on(after, below, f, v);
                one_step(r);
                steps_add_up(start, a, 1);
                if meets(v, demand(t.op, i)) {
                    let b = remaining_operands_run(q, below, t, i + 1, h2, done.push(v));
                    steps_add_up(start, a + 1, b);
                    a + 1 + b
                } else {
                    a + 1
                }
            },
        }
    }
}

/// Operands that look at no temporary evaluate alike with and without temporaries.
proof fn same_from(
    q: Machine,
    vals: Seq<Val>,
    n: nat,
    s: Term,
    t: Term,
    i: nat,
    h: Cells,
    done: Seq<Val>,
)
    requires
        i <= t.kids.len(),
        s.kids.len() == t.kids.len(),
        s.op == t.op,
        forall|k: int|
            i <= k < t.kids.len() ==> s.kids[k] == (#[trigger] t.kids[k]) && direct(t.kids[k])
                && says_no_temp(t.kids[k]),
    ensures
        ev_from(
            Machine { env: q.env + temp_scope(vals, n), ..q },
            s,
            i,
            t.kids.len(),
            h,
            done,
        ) == ev_from(q, t, i, t.kids.len(), h, done),
    decreases t.kids.len() - i,
{
    if i < t.kids.len() {
        let now = Machine { heap: h, ..q };
        let kid = t.kids[i as int];
        assert(s.kids[i as int] == kid && direct(kid));
        temps_do_not_matter(now, vals, n, kid);
        assert(Machine { env: now.env + temp_scope(vals, n), ..now } == Machine {
            heap: h,
            ..(Machine { env: q.env + temp_scope(vals, n), ..q })
        });
        if let Some((h2, v)) = ev(now, kid) {
            same_from(q, vals, n, s, t, i + 1, h2, done.push(v));
        }
    }
}

proof fn done_is_not_held_up(c: Machine, n: nat, k: nat, v: Val)
    requires
        run(c, k).progress() == Progress::Done(v),
    ensures
        !held_up(run(c, n)),
{
    if held_up(run(c, n)) {
        if k >= n {
            steps_add_up(c, n, (k - n) as nat);
            held_up_stays(run(c, n), (k - n) as nat);
        } else {
            steps_add_up(c, k, (n - k) as nat);
            settled_stays(run(c, k), (n - k) as nat);
        }
    }
}

/// Whether the parts of a node round an assignment at place `j` are expressions without calls,
/// loops, further assignments, closures and requests to the host, and look at no temporary. No
/// string literal stands before the assignment.
pub open spec fn simple_round(t: Term, j: int) -> bool {
    let a = t.kids[j];
    &&& forall|i: int| 0 <= i < j ==> can_precede(#[trigger] t.kids[i])
    &&& forall|i: int|
        j < i < t.kids.len() ==> direct(#[trigger] t.kids[i]) && says_no_temp(t.kids[i])
    &&& direct(a.kids[0]) && says_no_temp(a.kids[0])
    &&& direct(a.kids[1]) && says_no_temp(a.kids[1])
    &&& forall|c: nat| a.names[0] != #[trigger] temp_name(c)
}

/// A node with an assignment in place of an operand, up to where its operator is applied.
#[verifier::rlimit(60)]
#[verifier::spinoff_prover]
proof fn a_node_with_an_assignment(m: Machine, t: Term, j: int, k: nat, v: Val) -> (r: (
    nat,
    Cells,
    Seq<Val>,
    Cells,
    Val,
    Cells,
    Seq<Val>,
))
    requires
        shaped(t),
        takes_operands(t.op),
        t.op != Op::CtorReuse,
        t.op == Op::Call ==> j > 0,
        can_lift(t, j),
        simple_round(t, j),
        find(m.env, t.kids[j].names[0]) is Some,
        run(started(m, t), k).progress() == Progress::Done(v),
    ensures
        ({
            let (n, h1, ws, h2, w, h4, vs) = r;
            let q = at_rest(m);
            let a = t.kids[j];
            let q3 = rebound(
                Machine { heap: h2, ..q },
                find(m.env, a.names[0])->0,
                a.names[0],
                w,
            );
            let tail = Term { kids: t.kids.update(j, a.kids[1]), ..t };
            &&& ev_kids(q, t, j as nat) == Some((h1, ws))
            &&& ev(Machine { heap: h1, ..q }, a.kids[0]) == Some((h2, w))
            &&& ev_from(q3, tail, j as nat, t.kids.len(), h2, ws) == Some((h4, vs))
            &&& run(started(m, t), n) == applied(Machine { heap: h4, ..q3 }, t.op, t.names, vs)
        }),
{
    let q = at_rest(m);
    let none = Seq::<FrameTerm>::empty();
    let len = t.kids.len() as int;
    let a = t.kids[j];
    let x = a.names[0];
    let at = find(m.env, x)->0;
    let start = started(m, t);
    let tail = Term { kids: t.kids.update(j, a.kids[1]), ..t };
    assert(over(q, none).stack =~= q.stack);
    assert(start == over(q, none).evaluate(t));
    assert forall|i: int| 0 <= i < j implies direct(#[trigger] t.kids[i]) by {
        assert(can_precede(t.kids[i]));
    }
    let n1 = a_node_starts(q, none, t, j as nat);
    done_is_not_held_up(start, n1, k, v);
    let (h1, ws) = ev_kids(q, t, j as nat)->0;
    first_values(q, t, 0, j as nat);
    let now = Machine { heap: h1, ..q };
    let todo = t.kids.subrange(j, len);
    let after = t.kids.subrange(j + 1, len);
    let f = FrameTerm::Operands { op: t.op, names: t.names, done: ws, todo: after };
    assert(todo[0] == a);
    assert(todo.subrange(1, todo.len() as int) =~= after);
    handing_on(now, none, f, Val::Unit);
    assert(run(start, n1) == over(now, none.push(f)).evaluate(a));
    let n2 = an_assignment_runs(now, none.push(f), a, at);
    steps_add_up(start, n1, n2);
    done_is_not_held_up(start, n1 + n2, k, v);
    let (h2, w) = ev(now, a.kids[0])->0;
    let q2 = Machine { heap: h2, ..q };
    let q3 = rebound(q2, at, x, w);
    assert(rebound(Machine { heap: h2, ..now }, at, x, w) == q3);
    assert(q3 == at_rest(q3));
    let tail_todo = tail.kids.subrange(j, len);
    assert(tail_todo[0] == a.kids[1]);
    assert(tail_todo.subrange(1, tail_todo.len() as int) =~= after);
    handing_on(q3, none, f, Val::Unit);
    let go = operands(over(q3, none), t.op, t.names, ws, tail_todo);
    assert(go == over(q3, none.push(f)).evaluate(a.kids[1]));
    assert(run(start, n1 + n2) == go);
    assert forall|i: int| j <= i < tail.kids.len() implies direct(#[trigger] tail.kids[i]) by {
        if i > j {
            assert(tail.kids[i] == t.kids[i]);
        }
    }
    assert(Machine { heap: h2, ..q3 } == q3);
    let n3 = remaining_operands_run(q3, none, tail, j as nat, h2, ws);
    steps_add_up(start, n1 + n2, n3);
    done_is_not_held_up(start, n1 + n2 + n3, k, v);
    let (h4, vs) = ev_from(q3, tail, j as nat, t.kids.len(), h2, ws)->0;
    let end = Machine { heap: h4, ..q3 };
    assert(over(end, none).stack =~= end.stack);
    assert(over(end, none) == end);
    (n1 + n2 + n3, h1, ws, h2, w, h4, vs)
}

/// The lifted form of a node, up to where its operator is applied.
#[verifier::rlimit(60)]
#[verifier::spinoff_prover]
proof fn the_lifted_form(
    m: Machine,
    t: Term,
    j: int,
    n: nat,
    h1: Cells,
    ws: Seq<Val>,
    h2: Cells,
    w: Val,
    h4: Cells,
    vs: Seq<Val>,
) -> (r: (nat, Seq<Val>))
    requires
        shaped(t),
        takes_operands(t.op),
        t.op != Op::CtorReuse,
        t.op == Op::Call ==> j > 0,
        can_lift(t, j),
        simple_round(t, j),
        find(m.env, t.kids[j].names[0]) is Some,
        ev_kids(at_rest(m), t, j as nat) == Some((h1, ws)),
        ev(Machine { heap: h1, ..at_rest(m) }, t.kids[j].kids[0]) == Some((h2, w)),
        ev_from(
            rebound(
                Machine { heap: h2, ..at_rest(m) },
                find(m.env, t.kids[j].names[0])->0,
                t.kids[j].names[0],
                w,
            ),
            Term { kids: t.kids.update(j, t.kids[j].kids[1]), ..t },
            j as nat,
            t.kids.len(),
            h2,
            ws,
        ) == Some((h4, vs)),
    ensures
        ({
            let (b, vals) = r;
            let a = t.kids[j];
            let x = a.names[0];
            let q3 = rebound(Machine { heap: h2, ..at_rest(m) }, find(m.env, x)->0, x, w);
            let lifted = wrap(
                pin(t, x, j as nat, n).binds,
                t_assign(x, a.kids[0], remainder(t, j, n)),
            );
            run(started(m, lifted), b) == applied(
                over(
                    Machine { heap: h4, env: q3.env + temp_scope(vals, n), ..q3 },
                    unbinds(vals.len()),
                ),
                t.op,
                t.names,
                vs,
            )
        }),
{
    let q = at_rest(m);
    let none = Seq::<FrameTerm>::empty();
    let len = t.kids.len();
    let a = t.kids[j];
    let x = a.names[0];
    let at = find(m.env, x)->0;
    let p = pin(t, x, j as nat, n);
    let t2 = remainder(t, j, n);
    let set = t_assign(x, a.kids[0], t2);
    let lifted = wrap(p.binds, set);
    let start = started(m, lifted);
    let tail = Term { kids: t.kids.update(j, a.kids[1]), ..t };
    assert(over(q, none).stack =~= q.stack);
    assert(start == over(q, none).evaluate(lifted));
    // What has to be is kept in temporaries.
    let vals = pinning_keeps_values(q, t, x, n, j as nat);
    let temps = temp_scope(vals, n);
    let u = unbinds(vals.len());
    let b1 = bindings_run(q, none, p.binds, set);
    assert(none + unbinds(p.binds.len()) =~= u);
    let now = Machine { heap: h1, ..q };
    let held = Machine { env: now.env + temps, ..now };
    assert(run(start, b1) == over(held, u).evaluate(set));
    // The assignment.
    assert forall|i: int| 0 <= i < temps.len() implies (#[trigger] temps[i]).0 != x by {
        assert(temps[i].0 == temp_name((n + 1 + i) as nat));
    }
    find_before(q.env, temps, x);
    found_is_bound(q.env, x);
    temps_do_not_matter(now, vals, n, a.kids[0]);
    assert(set.kids[0] == a.kids[0] && set.kids[1] == t2 && set.names[0] == x);
    assert(held == at_rest(held));
    let b2 = an_assignment_runs(held, u, set, at);
    steps_add_up(start, b1, b2);
    let q3 = rebound(Machine { heap: h2, ..q }, at, x, w);
    let set3 = Machine { env: q3.env + temps, ..q3 };
    assert((q.env + temps).update(at, (x, w)) =~= q.env.update(at, (x, w)) + temps);
    assert(rebound(Machine { heap: h2, ..held }, at, x, w) == set3);
    assert(run(start, b1 + b2) == over(set3, u).evaluate(t2));
    // What is left of the node.
    assert(t2.kids.len() == len);
    assert forall|i: int| 0 <= i < j implies stands_for(
        #[trigger] t2.kids[i],
        t.kids[i],
        x,
        vals,
        n,
        ws[i],
    ) by {
        assert(t2.kids[i] == p.kids[i]);
    }
    stand_ins_hold(q3, q.env, at, w, x, t2, t, q, vals, n, j as nat, ws);
    assert forall|i: int| 0 <= i < j implies direct(#[trigger] t2.kids[i]) by {
        assert(stands_for(t2.kids[i], t.kids[i], x, vals, n, ws[i]));
        assert(can_precede(t.kids[i]));
        if t2.kids[i] != t.kids[i] {
            let c = choose|c: int|
                0 <= c < vals.len() && t2.kids[i] == t_var(
                    #[trigger] temp_name((n + 1 + c) as nat),
                ) && vals[c] == ws[i];
            assert(shaped(t_var(temp_name((n + 1 + c) as nat))));
        }
    }
    assert(shaped(t2));
    assert(set3 == at_rest(set3));
    let b3 = a_node_starts(set3, u, t2, j as nat);
    steps_add_up(start, b1 + b2, b3);
    assert(Machine { heap: q3.heap, ..set3 } == set3);
    assert forall|i: int| j <= i < len implies t2.kids[i] == (#[trigger] tail.kids[i]) && direct(
        tail.kids[i],
    ) && says_no_temp(tail.kids[i]) by {
        if i > j {
            assert(tail.kids[i] == t.kids[i]);
            assert(t2.kids[i] == t.kids[i]);
        } else {
            assert(t2.kids[j] == a.kids[1]);
        }
    }
    assert forall|i: int| j <= i < t2.kids.len() implies direct(#[trigger] t2.kids[i]) by {
        assert(t2.kids[i] == tail.kids[i]);
    }
    same_from(q3, vals, n, t2, tail, j as nat, h2, ws);
    first_values(q, t, 0, j as nat);
    let b4 = remaining_operands_run(set3, u, t2, j as nat, h2, ws);
    steps_add_up(start, b1 + b2 + b3, b4);
    assert(Machine { heap: h4, ..set3 } == Machine { heap: h4, env: q3.env + temps, ..q3 });
    (b1 + b2 + b3 + b4, vals)
}

#[verifier::rlimit(60)]
#[verifier::spinoff_prover]
proof fn lifting_once_keeps_the_meaning(
    m: Machine,
    t: Term,
    j: int,
    n: nat,
    k: nat,
    v: Val,
) -> (b: nat)
    requires
        shaped(t),
        takes_operands(t.op),
        t.op != Op::CtorReuse,
        t.op == Op::Call ==> j > 0,
        can_lift(t, j),
        simple_round(t, j),
        find(m.env, t.kids[j].names[0]) is Some,
        run(started(m, t), k).progress() == Progress::Done(v),
    ensures
        ({
            let a = t.kids[j];
            let x = a.names[0];
            let lifted = wrap(
                pin(t, x, j as nat, n).binds,
                t_assign(x, a.kids[0], remainder(t, j, n)),
            );
            run(started(m, lifted), b) == run(started(m, t), k)
        }),
{
    let a = t.kids[j];
    let x = a.names[0];
    let start = started(m, t);
    let end = run(start, k);
    let (c, h1, ws, h2, w, h4, vs) = a_node_with_an_assignment(m, t, j, k, v);
    let (d, vals) = the_lifted_form(m, t, j, n, h1, ws, h2, w, h4, vs);
    let q3 = rebound(Machine { heap: h2, ..at_rest(m) }, find(m.env, x)->0, x, w);
    let now = Machine { heap: h4, ..q3 };
    let r = applied(now, t.op, t.names, vs);
    let i: nat = if k >= c {
        (k - c) as nat
    } else {
        0
    };
    one_step(r);
    if k >= c {
        steps_add_up(start, c, i);
    } else {
        steps_add_up(start, k, (c - k) as nat);
        settled_stays(end, (c - k) as nat);
    }
    assert(run(r, i) == end);
    let env = q3.env + temp_scope(vals, n);
    let wide = Machine { env, ..now };
    let u = unbinds(vals.len());
    assert(now == at_rest(now));
    applied_comes_to_the_same(now, env, t.op, t.names, vs, i, v);
    let there = applied(wide, t.op, t.names, vs);
    let last = Machine { env, ..end };
    assert(run(there, i) == last);
    assert(settled(last));
    let s = first_settled(there, i);
    an_evaluation_is_local(there, u, s);
    applied_over(wide, u, t.op, t.names, vs);
    assert(last == Machine { env: end.env + temp_scope(vals, n), ..end });
    temps_are_left(end, vals, n, v);
    let lifted = started(
        m,
        wrap(pin(t, x, j as nat, n).binds, t_assign(x, a.kids[0], remainder(t, j, n))),
    );
    assert(wide == Machine { heap: h4, env: q3.env + temp_scope(vals, n), ..q3 });
    steps_add_up(lifted, d, s);
    steps_add_up(lifted, d + s, vals.len());
    d + s + vals.len()
}

/// An expression without assignments has nothing to lift.
proof fn direct_is_lifted(t: Term)
    requires
        direct(t),
    ensures
        lifted(t),
        t.op != Op::Assign,
    decreases t,
{
    assert forall|i: int| 0 <= i < t.kids.len() implies lifted(#[trigger] t.kids[i]) && !is_assign(
        t.kids[i],
    ) by {
        assert(direct(t.kids[i]));
        direct_is_lifted(t.kids[i]);
    }
    assert forall|k: int| 0 <= k < t.arms.len() implies lifted_arm(#[trigger] t.arms[k]) by {
        let arm = t.arms[k];
        arm_decreases(arm);
        assert(direct_arm(arm));
        direct_is_lifted(arm.body);
        if let Some(g) = arm.guard {
            direct_is_lifted(g);
        }
    }
}

/// Where an operator takes operands, lifting leaves no assignment in place of an operand.
pub proof fn lifting_leaves_no_assignment_as_an_operand(t: Term, n: nat, i: int)
    requires
        takes_operands(lift_term(t, n).0.op),
        0 <= i < lift_term(t, n).0.kids.len(),
    ensures
        !is_assign(lift_term(t, n).0.kids[i]),
{
    lifting_is_complete(t, n);
    let r = lift_term(t, n).0;
    if is_assign(r.kids[i]) {
        first_assignment(r, i);
    }
}

proof fn first_assignment(r: Term, i: int)
    requires
        takes_operands(r.op),
        0 <= i < r.kids.len(),
        is_assign(r.kids[i]),
    ensures
        exists|j: int| can_lift(r, j),
    decreases i,
{
    if exists|k: int| 0 <= k < i && is_assign(#[trigger] r.kids[k]) {
        let k = choose|k: int| 0 <= k < i && is_assign(#[trigger] r.kids[k]);
        first_assignment(r, k);
    } else {
        assert(can_lift(r, i));
    }
}

/// Lifting an assignment keeps the meaning, whatever stands before it: what a node with an
/// assignment in place of an operand evaluates to, its lifted form evaluates to as well, and
/// leaves the very same machine. Operands that could notice the assignment, such as a
/// computation with the assigned name, still see the value from before it.
pub proof fn lifting_past_operands_keeps_the_meaning(
    m: Machine,
    t: Term,
    j: int,
    n: nat,
    k: nat,
    v: Val,
) -> (b: nat)
    requires
        shaped(t),
        takes_operands(t.op),
        t.op != Op::CtorReuse,
        t.op == Op::Call ==> j > 0,
        0 <= j < t.kids.len(),
        is_assign(t.kids[j]),
        shaped(t.kids[j]),
        simple_round(t, j),
        find(m.env, t.kids[j].names[0]) is Some,
        run(started(m, t), k).progress() == Progress::Done(v),
    ensures
        run(started(m, lift_term(t, n).0), b) == run(started(m, t), k),
{
    let a = t.kids[j];
    let x = a.names[0];
    // Only the one assignment is there to be lifted.
    assert forall|i: int| 0 <= i < t.kids.len() && i != j implies lifted(#[trigger] t.kids[i])
        && !is_assign(t.kids[i]) by {
        if i < j {
            assert(can_precede(t.kids[i]));
        }
        direct_is_lifted(t.kids[i]);
    }
    direct_is_lifted(a.kids[0]);
    direct_is_lifted(a.kids[1]);
    assert(lifted(a)) by {
        assert forall|i: int| 0 <= i < a.kids.len() implies lifted(#[trigger] a.kids[i]) by {
            assert(i == 0 || i == 1);
        }
    }
    lifting_kids_changes_nothing(t, t.kids.len(), n);
    assert(t.kids.take(t.kids.len() as int) =~= t.kids);
    let arms = lift_arms(t, t.arms.len(), n);
    assert(arms.0 =~= t.arms);
    assert(lift_term(t, n) == settle_term(t, n));
    assert(can_lift(t, j)) by {
        assert(t.op != Op::For);
    }
    let i = choose|i: int| can_lift(t, i);
    target_is_unique(t, i, j);
    let p = pin(t, x, j as nat, n);
    let r = remainder(t, j, n);
    remainder_shrinks(t, j, n);
    assert forall|c: int| 0 <= c < r.kids.len() implies !is_assign(#[trigger] r.kids[c]) by {
        if c < j {
            no_stand_in_assigns(t, x, j as nat, n, c);
            assert(r.kids[c] == p.kids[c]);
        } else if c == j {
            assert(r.kids[c] == a.kids[1]);
        } else {
            assert(r.kids[c] == t.kids[c]);
        }
    }
    assert(settle_term(r, p.count) == (r, p.count));
    lifting_once_keeps_the_meaning(m, t, j, n, k, v)
}

proof fn no_stand_in_assigns(t: Term, x: Name, i: nat, n: nat, c: int)
    requires
        0 <= c < i <= t.kids.len(),
        forall|k: int| 0 <= k < i ==> !is_assign(#[trigger] t.kids[k]),
    ensures
        pin(t, x, i, n).kids.len() == i,
        !is_assign(pin(t, x, i, n).kids[c]),
    decreases i,
{
    if c < i - 1 {
        no_stand_in_assigns(t, x, (i - 1) as nat, n, c);
    } else if i > 1 {
        no_stand_in_assigns(t, x, (i - 1) as nat, n, 0);
    } else {
        assert(pin(t, x, 0, n).kids.len() == 0);
    }
    assert(!is_assign(t.kids[i - 1]));
}

proof fn lifting_kids_changes_nothing(t: Term, i: nat, n: nat)
    requires
        i <= t.kids.len(),
        forall|k: int| 0 <= k < t.kids.len() ==> lifted(#[trigger] t.kids[k]),
    ensures
        lift_kids(t, i, n) == (t.kids.take(i as int), n),
    decreases i,
{
    if i > 0 {
        lifting_kids_changes_nothing(t, (i - 1) as nat, n);
        assert(lifted(t.kids[i - 1]));
        nothing_to_lift_is_unchanged(t.kids[i - 1], n);
        assert(t.kids.take(i - 1).push(t.kids[i - 1]) =~= t.kids.take(i as int));
    } else {
        assert(t.kids.take(0) =~= Seq::<Term>::empty());
    }
}

} // verus!
