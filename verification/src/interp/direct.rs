//! What an expression without calls, loops, assignments, closures and requests to the host
//! evaluates to, in one go.

use vstd::prelude::*;
use crate::anf::is_atom_op;
use crate::ir::{arm_decreases, shaped, ArmTerm, BinOp, Name, Op, Term};
use super::context::{applied_over, over};
use super::erasure::applied_answers;
use super::heap::{ctor_at, with_new, Cells, Contents};
use super::laws::steps_add_up;
use super::lifting::{seen_value, takes_operands};
use super::naming::{at_rest, held_up, held_up_stays, outcome};
use super::semantics::{
    adjusted, applied, chosen, demand, given, lookup, meets, operands, run, started, step, zipped,
};
use super::state::{FrameTerm, Machine};
use super::value::Val;

verus! {

/// The operators that are applied to their operands and change nothing but the heap.
pub open spec fn is_direct_op(op: Op) -> bool {
    takes_operands(op) && match op {
        Op::Call | Op::CtorReuse | Op::RefNew | Op::RefGet | Op::RefSet | Op::TaskJoin
        | Op::ChannelSend | Op::ChannelRecv => false,
        _ => true,
    }
}

/// Whether a term holds no call, loop, assignment, closure or request to the host.
pub open spec fn direct(t: Term) -> bool
    decreases t,
{
    &&& shaped(t)
    &&& match t.op {
        Op::Str | Op::RcAnnotated(_) | Op::Let | Op::If | Op::Match => true,
        Op::Binary(_) => true,
        op => is_atom_op(op) || is_direct_op(op),
    }
    &&& forall|i: int| 0 <= i < t.kids.len() ==> direct(#[trigger] t.kids[i])
    &&& forall|k: int| 0 <= k < t.arms.len() ==> direct_arm(#[trigger] t.arms[k])
}

/// Whether an arm holds no call, loop, assignment, closure or request to the host.
pub open spec fn direct_arm(arm: ArmTerm) -> bool
    decreases arm,
{
    &&& (arm.guard matches Some(g) ==> direct(g))
    &&& direct(arm.body)
}

/// What a direct term evaluates to in a machine at rest: its value, and the heap with it.
/// Nothing if it fails or asks the host.
pub open spec fn ev(q: Machine, t: Term) -> Option<(Cells, Val)>
    decreases t, t.kids.len() + t.arms.len() + 1,
{
    if !shaped(t) {
        None
    } else {
        match t.op {
            Op::Str => Some(
                (with_new(q.heap, Contents::Str(t.names[0])), Val::HeapRef(q.heap.len() as usize)),
            ),
            Op::RcAnnotated(op) => {
                let r = adjusted(q, op, t.names[0], t.kids[0]);
                if r.control is Eval {
                    ev(Machine { heap: r.heap, ..q }, t.kids[0])
                } else {
                    None
                }
            },
            Op::Let => match ev(q, t.kids[0]) {
                None => None,
                Some((h, v)) => ev(
                    Machine { heap: h, env: q.env.push((t.names[0], v)), ..q },
                    t.kids[1],
                ),
            },
            Op::If => match ev(q, t.kids[0]) {
                Some((h, Val::Bool(b))) => if b {
                    ev(Machine { heap: h, ..q }, t.kids[1])
                } else {
                    ev(Machine { heap: h, ..q }, t.kids[2])
                },
                _ => None,
            },
            Op::Binary(BinOp::And) => ev_either(q, t, true),
            Op::Binary(BinOp::Or) => ev_either(q, t, false),
            Op::Match => match ev(q, t.kids[0]) {
                Some((h, Val::HeapRef(addr))) => match ctor_at(h, addr) {
                    Ok((tag, fields)) => ev_arms(Machine { heap: h, ..q }, t, 0, tag, fields),
                    Err(_) => None,
                },
                _ => None,
            },
            _ => if is_atom_op(t.op) {
                match seen_value(q, t) {
                    Some(v) => Some((q.heap, v)),
                    None => None,
                }
            } else {
                match ev_kids(q, t, t.kids.len()) {
                    None => None,
                    Some((h, vs)) => outcome(applied(Machine { heap: h, ..q }, t.op, t.names, vs)),
                }
            },
        }
    }
}

/// What the first `n` operands of a node evaluate to, one after another.
pub open spec fn ev_kids(q: Machine, t: Term, n: nat) -> Option<(Cells, Seq<Val>)>
    decreases t, n,
{
    if n == 0 || n > t.kids.len() {
        Some((q.heap, Seq::empty()))
    } else {
        match ev_kids(q, t, (n - 1) as nat) {
            None => None,
            Some((h, vs)) => match ev(Machine { heap: h, ..q }, t.kids[n - 1]) {
                None => None,
                Some((h2, v)) => if meets(v, demand(t.op, (n - 1) as nat)) {
                    Some((h2, vs.push(v)))
                } else {
                    None
                },
            },
        }
    }
}

/// What `&&` or `||` evaluates to.
pub open spec fn ev_either(q: Machine, t: Term, and: bool) -> Option<(Cells, Val)>
    decreases t, 0nat,
{
    if t.kids.len() != 2 {
        None
    } else {
        match ev(q, t.kids[0]) {
            Some((h, Val::Bool(b))) => if b != and {
                Some((h, Val::Bool(b)))
            } else {
                match ev(Machine { heap: h, ..q }, t.kids[1]) {
                    Some((h2, Val::Bool(c))) => Some((h2, Val::Bool(c))),
                    _ => None,
                }
            },
            _ => None,
        }
    }
}

/// What the arms of a match from place `k` on evaluate to.
pub open spec fn ev_arms(q: Machine, t: Term, k: nat, tag: Name, fields: Seq<Val>) -> Option<
    (Cells, Val),
>
    decreases t, t.arms.len() - k,
{
    if k >= t.arms.len() {
        None
    } else {
        let arm = t.arms[k as int];
        if arm.tag != tag {
            ev_arms(q, t, k + 1, tag, fields)
        } else if arm.bindings.len() != fields.len() {
            None
        } else {
            let inner = Machine { env: q.env + zipped(arm.bindings, fields), ..q };
            match arm.guard {
                None => ev(inner, arm.body),
                Some(g) => match ev(inner, g) {
                    Some((h, Val::Bool(b))) => if b {
                        ev(Machine { heap: h, ..inner }, arm.body)
                    } else {
                        ev_arms(Machine { heap: h, ..q }, t, k + 1, tag, fields)
                    },
                    _ => None,
                },
            }
        }
    }
}

/// Whether a run from `c` comes to what was expected: a value with a heap on the machine `q`
/// above the frames `below`, or to nothing.
pub(crate) open spec fn comes_to(c: Machine, n: nat, q: Machine, below: Seq<FrameTerm>, r: Option<(Cells, Val)>) -> bool {
    match r {
        Some((h, v)) => run(c, n) == over(Machine { heap: h, ..q }, below).give(v),
        None => held_up(run(c, n)),
    }
}

pub(crate) proof fn one_step(c: Machine)
    ensures
        run(c, 1) == step(c),
        run(c, 0) == c,
{
    assert(run(step(c), 0) == step(c));
}

/// Handing a value to the frame on top.
pub(crate) proof fn handing_on(q: Machine, below: Seq<FrameTerm>, f: FrameTerm, v: Val)
    requires
        q == at_rest(q),
    ensures
        step(over(q, below.push(f)).give(v)) == given(over(q, below), f, v),
        over(q, below).push(f) == over(q, below.push(f)),
{
    let r = over(q, below.push(f)).give(v);
    assert(r.stack =~= below.push(f));
    assert(r.stack.drop_last() =~= below);
    assert(over(q, below).stack =~= below);
    assert(r.idle().pop() == over(q, below));
    assert(over(q, below).push(f).stack =~= over(q, below.push(f)).stack);
}

/// Leaving a scope with a value.
pub(crate) proof fn leaving(
    q: Machine,
    more: super::state::Scope,
    h: Cells,
    below: Seq<FrameTerm>,
    v: Val,
)
    requires
        q == at_rest(q),
    ensures
        step(
            over(
                Machine { heap: h, env: q.env + more, ..q },
                below.push(FrameTerm::Unbind { count: more.len() }),
            ).give(v),
        ) == over(Machine { heap: h, ..q }, below).give(v),
{
    let inner = Machine { heap: h, env: q.env + more, ..q };
    let f = FrameTerm::Unbind { count: more.len() };
    handing_on(inner, below, f, v);
    assert((q.env + more).take((q.env + more).len() - more.len()) =~= q.env);
}

/// A direct term runs to what it evaluates to.
#[verifier::rlimit(40)]
#[verifier::spinoff_prover]
pub(crate) proof fn running_comes_to(q: Machine, below: Seq<FrameTerm>, t: Term) -> (n: nat)
    requires
        direct(t),
        q == at_rest(q),
    ensures
        comes_to(over(q, below).evaluate(t), n, q, below, ev(q, t)),
    decreases t, t.kids.len() + t.arms.len() + 1,
{
    let m = over(q, below);
    let c = m.evaluate(t);
    assert(m.stack =~= below);
    assert(c.idle() == m);
    one_step(c);
    match t.op {
        Op::Str => 1,
        Op::RcAnnotated(op) => {
            let r = adjusted(q, op, t.names[0], t.kids[0]);
            assert(lookup(m, t.names[0]) == lookup(q, t.names[0]));
            if r.control is Eval {
                let next = Machine { heap: r.heap, ..q };
                assert(step(c) == over(next, below).evaluate(t.kids[0]));
                let n = running_comes_to(next, below, t.kids[0]);
                steps_add_up(c, 1, n);
                assert(forall|h: Cells| Machine { heap: h, ..next } == Machine { heap: h, ..q });
                1 + n
            } else {
                1
            }
        },
        Op::Let => {
            let name = t.names[0];
            let f = FrameTerm::LetBody { name, body: t.kids[1] };
            handing_on(q, below, f, Val::Unit);
            assert(step(c) == over(q, below.push(f)).evaluate(t.kids[0]));
            let a = running_comes_to(q, below.push(f), t.kids[0]);
            steps_add_up(c, 1, a);
            match ev(q, t.kids[0]) {
                None => 1 + a,
                Some((h, v)) => {
                    let now = Machine { heap: h, ..q };
                    let u = FrameTerm::Unbind { count: 1 };
                    let inner = Machine { env: q.env.push((name, v)), ..now };
                    handing_on(now, below, f, v);
                    assert(over(now, below).bind(name, v) == over(inner, below));
                    handing_on(inner, below, u, v);
                    let r = run(c, 1 + a);
                    one_step(r);
                    assert(step(r) == over(inner, below.push(u)).evaluate(t.kids[1]));
                    steps_add_up(c, 1 + a, 1);
                    let b = running_comes_to(inner, below.push(u), t.kids[1]);
                    steps_add_up(c, 1 + a + 1, b);
                    match ev(inner, t.kids[1]) {
                        None => 1 + a + 1 + b,
                        Some((h2, w)) => {
                            let more = seq![(name, v)];
                            assert(q.env + more =~= inner.env);
                            leaving(q, more, h2, below, w);
                            assert(Machine { heap: h2, env: q.env + more, ..q } == Machine {
                                heap: h2,
                                ..inner
                            });
                            one_step(run(c, 1 + a + 1 + b));
                            steps_add_up(c, 1 + a + 1 + b, 1);
                            1 + a + 1 + b + 1
                        },
                    }
                },
            }
        },
        Op::If => {
            let f = FrameTerm::Branches { then_branch: t.kids[1], else_branch: t.kids[2] };
            handing_on(q, below, f, Val::Unit);
            assert(step(c) == over(q, below.push(f)).evaluate(t.kids[0]));
            let a = running_comes_to(q, below.push(f), t.kids[0]);
            steps_add_up(c, 1, a);
            match ev(q, t.kids[0]) {
                None => 1 + a,
                Some((h, v)) => {
                    let now = Machine { heap: h, ..q };
                    handing_on(now, below, f, v);
                    let r = run(c, 1 + a);
                    one_step(r);
                    steps_add_up(c, 1 + a, 1);
                    if let Val::Bool(b) = v {
                        let kid = if b {
                            t.kids[1]
                        } else {
                            t.kids[2]
                        };
                        assert(direct(kid));
                        assert(step(r) == over(now, below).evaluate(kid));
                        let d = running_comes_to(now, below, kid);
                        steps_add_up(c, 1 + a + 1, d);
                        assert(forall|h2: Cells|
                            Machine { heap: h2, ..now } == Machine { heap: h2, ..q });
                        1 + a + 1 + d
                    } else {
                        1 + a + 1
                    }
                },
            }
        },
        Op::Binary(BinOp::And) => running_either(q, below, t, true),
        Op::Binary(BinOp::Or) => running_either(q, below, t, false),
        Op::Match => {
            let f = FrameTerm::Arms { arms: t.arms };
            handing_on(q, below, f, Val::Unit);
            assert(step(c) == over(q, below.push(f)).evaluate(t.kids[0]));
            let a = running_comes_to(q, below.push(f), t.kids[0]);
            steps_add_up(c, 1, a);
            match ev(q, t.kids[0]) {
                None => 1 + a,
                Some((h, v)) => {
                    let now = Machine { heap: h, ..q };
                    handing_on(now, below, f, v);
                    let r = run(c, 1 + a);
                    one_step(r);
                    steps_add_up(c, 1 + a, 1);
                    if let Val::HeapRef(addr) = v {
                        if let Ok((tag, fields)) = ctor_at(h, addr) {
                            assert(t.arms.subrange(0, t.arms.len() as int) =~= t.arms);
                            let d = running_arms(now, below, t, 0, tag, fields);
                            steps_add_up(c, 1 + a + 1, d);
                            assert(forall|h2: Cells|
                                Machine { heap: h2, ..now } == Machine { heap: h2, ..q });
                            1 + a + 1 + d
                        } else {
                            1 + a + 1
                        }
                    } else {
                        1 + a + 1
                    }
                },
            }
        },
        _ => {
            if is_atom_op(t.op) {
                assert(lookup(m, t.names[0]) == lookup(q, t.names[0]));
                1
            } else {
                assert(t.kids.subrange(0, t.kids.len() as int) =~= t.kids);
                assert(Machine { heap: q.heap, ..q } == q);
                assert(step(c) == operands(m, t.op, t.names, Seq::empty(), t.kids));
                let n = running_kids(q, below, t, 0, q.heap, Seq::empty());
                steps_add_up(c, 1, n);
                if let Some((h, vs)) = ev_kids(q, t, t.kids.len()) {
                    let end = Machine { heap: h, ..q };
                    applied_over(end, below, t.op, t.names, vs);
                    applied_answers(end, t.op, t.names, vs);
                }
                1 + n
            }
        },
    }
}

proof fn running_either(q: Machine, below: Seq<FrameTerm>, t: Term, and: bool) -> (n: nat)
    requires
        direct(t),
        t.op == Op::Binary(if and { BinOp::And } else { BinOp::Or }),
        q == at_rest(q),
    ensures
        comes_to(over(q, below).evaluate(t), n, q, below, ev_either(q, t, and)),
    decreases t, 0nat,
{
    let m = over(q, below);
    let c = m.evaluate(t);
    assert(m.stack =~= below);
    assert(c.idle() == m);
    one_step(c);
    let f = FrameTerm::Rhs { and, rhs: t.kids[1] };
    let g = FrameTerm::RhsCheck { and };
    handing_on(q, below, f, Val::Unit);
    assert(step(c) == over(q, below.push(f)).evaluate(t.kids[0]));
    let a = running_comes_to(q, below.push(f), t.kids[0]);
    steps_add_up(c, 1, a);
    match ev(q, t.kids[0]) {
        None => 1 + a,
        Some((h, v)) => {
            let now = Machine { heap: h, ..q };
            handing_on(now, below, f, v);
            let r = run(c, 1 + a);
            one_step(r);
            steps_add_up(c, 1 + a, 1);
            if let Val::Bool(b) = v {
                if b == and {
                    handing_on(now, below, g, v);
                    assert(step(r) == over(now, below.push(g)).evaluate(t.kids[1]));
                    let d = running_comes_to(now, below.push(g), t.kids[1]);
                    steps_add_up(c, 1 + a + 1, d);
                    match ev(now, t.kids[1]) {
                        None => 1 + a + 1 + d,
                        Some((h2, w)) => {
                            let end = Machine { heap: h2, ..now };
                            handing_on(end, below, g, w);
                            one_step(run(c, 1 + a + 1 + d));
                            steps_add_up(c, 1 + a + 1 + d, 1);
                            assert(end == Machine { heap: h2, ..q });
                            1 + a + 1 + d + 1
                        },
                    }
                } else {
                    1 + a + 1
                }
            } else {
                1 + a + 1
            }
        },
    }
}

proof fn running_arms(
    q: Machine,
    below: Seq<FrameTerm>,
    t: Term,
    k: nat,
    tag: Name,
    fields: Seq<Val>,
) -> (n: nat)
    requires
        direct(t),
        k <= t.arms.len(),
        q == at_rest(q),
    ensures
        comes_to(
            chosen(
                over(q, below),
                tag,
                fields,
                t.arms.subrange(k as int, t.arms.len() as int),
            ),
            n,
            q,
            below,
            ev_arms(q, t, k, tag, fields),
        ),
    decreases t, t.arms.len() - k,
{
    let arms = t.arms.subrange(k as int, t.arms.len() as int);
    let m = over(q, below);
    let c = chosen(m, tag, fields, arms);
    one_step(c);
    if k == t.arms.len() {
        0
    } else {
        let arm = t.arms[k as int];
        let rest = t.arms.subrange((k + 1) as int, t.arms.len() as int);
        arm_decreases(arm);
        assert(arms[0] == arm);
        assert(arms.subrange(1, arms.len() as int) =~= rest);
        assert(direct_arm(arm));
        if arm.tag != tag {
            running_arms(q, below, t, k + 1, tag, fields)
        } else if arm.bindings.len() != fields.len() {
            0
        } else {
            let more = zipped(arm.bindings, fields);
            let inner = Machine { env: q.env + more, ..q };
            assert(Machine { env: m.env + more, ..m } == over(inner, below));
            let u = FrameTerm::Unbind { count: fields.len() };
            match arm.guard {
                None => {
                    handing_on(inner, below, u, Val::Unit);
                    assert(c == over(inner, below.push(u)).evaluate(arm.body));
                    let a = running_comes_to(inner, below.push(u), arm.body);
                    match ev(inner, arm.body) {
                        None => a,
                        Some((h, v)) => {
                            leaving(q, more, h, below, v);
                            assert(Machine { heap: h, env: q.env + more, ..q } == Machine {
                                heap: h,
                                ..inner
                            });
                            one_step(run(c, a));
                            steps_add_up(c, a, 1);
                            a + 1
                        },
                    }
                },
                Some(g) => {
                    let f = FrameTerm::Guard {
                        tag,
                        fields,
                        bound: fields.len(),
                        body: arm.body,
                        rest,
                    };
                    handing_on(inner, below, f, Val::Unit);
                    assert(c == over(inner, below.push(f)).evaluate(g));
                    let a = running_comes_to(inner, below.push(f), g);
                    match ev(inner, g) {
                        None => a,
                        Some((h, v)) => {
                            let now = Machine { heap: h, ..inner };
                            handing_on(now, below, f, v);
                            let r = run(c, a);
                            one_step(r);
                            steps_add_up(c, a, 1);
                            let back = Machine { heap: h, ..q };
                            assert((q.env + more).take((q.env + more).len() - more.len())
                                =~= q.env);
                            assert(over(now, below).unbind(fields.len()) == over(back, below));
                            if let Val::Bool(b) = v {
                                if b {
                                    handing_on(now, below, u, v);
                                    assert(step(r) == over(now, below.push(u)).evaluate(arm.body));
                                    let d = running_comes_to(now, below.push(u), arm.body);
                                    steps_add_up(c, a + 1, d);
                                    match ev(now, arm.body) {
                                        None => a + 1 + d,
                                        Some((h2, w)) => {
                                            leaving(q, more, h2, below, w);
                                            assert(Machine { heap: h2, env: q.env + more, ..q }
                                                == Machine { heap: h2, ..now });
                                            one_step(run(c, a + 1 + d));
                                            steps_add_up(c, a + 1 + d, 1);
                                            a + 1 + d + 1
                                        },
                                    }
                                } else {
                                    assert(step(r) == chosen(over(back, below), tag, fields, rest));
                                    let d = running_arms(back, below, t, k + 1, tag, fields);
                                    steps_add_up(c, a + 1, d);
                                    assert(forall|h2: Cells|
                                        Machine { heap: h2, ..back } == Machine { heap: h2, ..q });
                                    a + 1 + d
                                }
                            } else {
                                a + 1
                            }
                        },
                    }
                },
            }
        }
    }
}

pub(crate) proof fn first_values(q: Machine, t: Term, i: nat, n: nat)
    requires
        i <= n <= t.kids.len(),
        ev_kids(q, t, n) is Some,
    ensures
        ev_kids(q, t, i) is Some,
        (ev_kids(q, t, i)->0).1.len() == i,
        (ev_kids(q, t, n)->0).1.len() == n,
    decreases n,
{
    if i < n {
        first_values(q, t, i, (n - 1) as nat);
    } else if n > 0 {
        first_values(q, t, (n - 1) as nat, (n - 1) as nat);
    }
}

proof fn running_kids(
    q: Machine,
    below: Seq<FrameTerm>,
    t: Term,
    i: nat,
    h: Cells,
    done: Seq<Val>,
) -> (n: nat)
    requires
        direct(t),
        q == at_rest(q),
        i <= t.kids.len(),
        ev_kids(q, t, i) == Some((h, done)),
        done.len() == i,
    ensures
        ({
            let start = operands(
                over(Machine { heap: h, ..q }, below),
                t.op,
                t.names,
                done,
                t.kids.subrange(i as int, t.kids.len() as int),
            );
            match ev_kids(q, t, t.kids.len()) {
                Some((h2, vs)) => run(start, n) == applied(
                    over(Machine { heap: h2, ..q }, below),
                    t.op,
                    t.names,
                    vs,
                ),
                None => held_up(run(start, n)),
            }
        }),
    decreases t, t.kids.len() - i,
{
    let now = Machine { heap: h, ..q };
    let m = over(now, below);
    let todo = t.kids.subrange(i as int, t.kids.len() as int);
    let start = operands(m, t.op, t.names, done, todo);
    one_step(start);
    if i == t.kids.len() {
        0
    } else {
        let kid = t.kids[i as int];
        let rest = t.kids.subrange((i + 1) as int, t.kids.len() as int);
        let f = FrameTerm::Operands { op: t.op, names: t.names, done, todo: rest };
        assert(todo[0] == kid);
        assert(todo.subrange(1, todo.len() as int) =~= rest);
        handing_on(now, below, f, Val::Unit);
        assert(start == over(now, below.push(f)).evaluate(kid));
        let a = running_comes_to(now, below.push(f), kid);
        match ev(now, kid) {
            None => {
                assert(ev_kids(q, t, i + 1) is None);
                if ev_kids(q, t, t.kids.len()) is Some {
                    first_values(q, t, i + 1, t.kids.len());
                }
                a
            },
            Some((h2, v)) => {
                let after = Machine { heap: h2, ..q };
                let r = run(start, a);
                assert(Machine { heap: h2, ..now } == after);
                handing_on(after, below, f, v);
                one_step(r);
                steps_add_up(start, a, 1);
                if meets(v, demand(t.op, i)) {
                    assert(ev_kids(q, t, i + 1) == Some((h2, done.push(v))));
                    let b = running_kids(q, below, t, i + 1, h2, done.push(v));
                    steps_add_up(start, a + 1, b);
                    a + 1 + b
                } else {
                    assert(ev_kids(q, t, i + 1) is None);
                    if ev_kids(q, t, t.kids.len()) is Some {
                        first_values(q, t, i + 1, t.kids.len());
                    }
                    a + 1
                }
            },
        }
    }
}

/// A direct term runs to a value exactly if it evaluates to one in one go.
pub proof fn direct_terms_come_to_their_value(m: Machine, t: Term) -> (n: nat)
    requires
        direct(t),
    ensures
        match ev(at_rest(m), t) {
            Some((h, v)) => run(started(m, t), n) == (Machine { heap: h, ..at_rest(m) }).give(v),
            None => forall|k: nat| !((#[trigger] run(started(m, t), k)).progress() is Done),
        },
{
    let q = at_rest(m);
    let none = Seq::<FrameTerm>::empty();
    assert(over(q, none).stack =~= q.stack);
    let c = started(m, t);
    assert(c == over(q, none).evaluate(t));
    let n = running_comes_to(q, none, t);
    match ev(q, t) {
        Some((h, v)) => {
            assert(over(Machine { heap: h, ..q }, none).stack =~= q.stack);
        },
        None => {
            assert forall|k: nat| !((#[trigger] run(c, k)).progress() is Done) by {
                if k >= n {
                    steps_add_up(c, n, (k - n) as nat);
                    held_up_stays(run(c, n), (k - n) as nat);
                } else if run(c, k).progress() is Done {
                    steps_add_up(c, k, (n - k) as nat);
                    super::step::settled_stays(run(c, k), (n - k) as nat);
                }
            }
        },
    }
    n
}

} // verus!
