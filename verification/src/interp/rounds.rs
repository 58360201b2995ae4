//! How loops, bindings, assignments and calls evaluate, in terms of how their parts do.

use vstd::prelude::*;
use crate::ir::{shaped, t_assign, t_let, FunctionTerm, Name, Op, Term};
use super::context::{an_evaluation_is_local, over};
use super::direct::{direct, ev, handing_on, one_step, running_comes_to};
use super::heap::Cells;
use super::laws::steps_add_up;
use super::lifting::calls_by_name;
use super::naming::{at_rest, first_settled};
use super::semantics::{
    applied, demand, find, find_function, looped, meets, operands, run, step, zipped,
};
use super::state::{FrameTerm, Machine};
use super::value::Val;

verus! {

/// Whether a machine at rest that evaluates a term comes to rest as another, with a value.
pub open spec fn comes(q: Machine, t: Term, z: Machine, v: Val) -> bool {
    &&& q == at_rest(q)
    &&& z == at_rest(z)
    &&& exists|n: nat| #[trigger] run(q.evaluate(t), n) == z.give(v)
}

/// An evaluation comes to the same over other frames.
pub(crate) proof fn comes_over(
    q: Machine,
    t: Term,
    z: Machine,
    v: Val,
    below: Seq<FrameTerm>,
) -> (n: nat)
    requires
        comes(q, t, z, v),
    ensures
        run(over(q, below).evaluate(t), n) == over(z, below).give(v),
{
    let a = choose|n: nat| #[trigger] run(q.evaluate(t), n) == z.give(v);
    let k = first_settled(q.evaluate(t), a);
    an_evaluation_is_local(q.evaluate(t), below, k);
    k
}

/// What a run over no frames comes to.
proof fn over_nothing(q: Machine)
    ensures
        over(q, Seq::empty()) == q,
{
    assert(Seq::<FrameTerm>::empty() + q.stack =~= q.stack);
}

/// A run that goes on from where another one came to.
proof fn then_runs(c: Machine, a: nat, d: Machine, b: nat, e: Machine) -> (n: nat)
    requires
        run(c, a) == d,
        run(d, b) == e,
    ensures
        run(c, n) == e,
{
    steps_add_up(c, a, b);
    a + b
}

/// A direct term comes to what it evaluates to.
pub proof fn a_direct_term_comes(q: Machine, t: Term, h: Cells, v: Val)
    requires
        q == at_rest(q),
        direct(t),
        ev(q, t) == Some((h, v)),
    ensures
        comes(q, t, Machine { heap: h, ..q }, v),
{
    let none = Seq::<FrameTerm>::empty();
    let n = running_comes_to(q, none, t);
    over_nothing(q);
    over_nothing(Machine { heap: h, ..q });
    assert(run(q.evaluate(t), n) == Machine { heap: h, ..q }.give(v));
}

/// A binding evaluates its body where the name stands for the value, and is gone after it.
pub proof fn a_binding_comes(
    q: Machine,
    x: Name,
    a: Term,
    b: Term,
    q1: Machine,
    v: Val,
    q2: Machine,
    w: Val,
)
    requires
        comes(q, a, q1, v),
        comes(q1.bind(x, v), b, q2, w),
    ensures
        comes(q, t_let(x, a, b), q2.unbind(1), w),
{
    let none = Seq::<FrameTerm>::empty();
    let t = t_let(x, a, b);
    let c = q.evaluate(t);
    let f = FrameTerm::LetBody { name: x, body: b };
    let u = FrameTerm::Unbind { count: 1 };
    assert(t.kids[0] == a && t.kids[1] == b && t.names[0] == x);
    over_nothing(q);
    over_nothing(q1);
    over_nothing(q2);
    handing_on(q, none, f, v);
    assert(c.idle() == q);
    assert(step(c) == over(q, none.push(f)).evaluate(a));
    one_step(c);
    let k = comes_over(q, a, q1, v, none.push(f));
    let d = over(q1, none.push(f)).give(v);
    let n1 = then_runs(c, 1, step(c), k, d);
    handing_on(q1, none, f, v);
    let inner = q1.bind(x, v);
    over_nothing(inner);
    handing_on(inner, none, u, v);
    assert(step(d) == over(inner, none.push(u)).evaluate(b));
    one_step(d);
    let n2 = then_runs(c, n1, d, 1, step(d));
    let k2 = comes_over(inner, b, q2, w, none.push(u));
    let e = over(q2, none.push(u)).give(w);
    let n3 = then_runs(c, n2, step(d), k2, e);
    handing_on(q2, none, u, w);
    one_step(e);
    assert(step(e) == q2.unbind(1).give(w));
    let n4 = then_runs(c, n3, e, 1, step(e));
}

/// An assignment gives the innermost binding of the name its value, and goes on.
pub proof fn an_assignment_comes(
    q: Machine,
    x: Name,
    a: Term,
    b: Term,
    q1: Machine,
    v: Val,
    i: int,
    q2: Machine,
    w: Val,
)
    requires
        comes(q, a, q1, v),
        find(q1.env, x) == Some(i),
        comes(Machine { env: q1.env.update(i, (x, v)), ..q1 }, b, q2, w),
    ensures
        comes(q, t_assign(x, a, b), q2, w),
{
    let none = Seq::<FrameTerm>::empty();
    let t = t_assign(x, a, b);
    let c = q.evaluate(t);
    let f = FrameTerm::AssignRest { name: x, rest: b };
    assert(t.kids[0] == a && t.kids[1] == b && t.names[0] == x);
    over_nothing(q);
    over_nothing(q1);
    handing_on(q, none, f, v);
    assert(c.idle() == q);
    assert(step(c) == over(q, none.push(f)).evaluate(a));
    one_step(c);
    let k = comes_over(q, a, q1, v, none.push(f));
    let d = over(q1, none.push(f)).give(v);
    let n1 = then_runs(c, 1, step(c), k, d);
    handing_on(q1, none, f, v);
    let inner = Machine { env: q1.env.update(i, (x, v)), ..q1 };
    assert(step(d) == inner.evaluate(b));
    one_step(d);
    let n2 = then_runs(c, n1, d, 1, step(d));
    let k2 = choose|n: nat| #[trigger] run(inner.evaluate(b), n) == q2.give(w);
    let n3 = then_runs(c, n2, step(d), k2, q2.give(w));
}

/// Whether a round of a loop, with the variable at `i`, takes one machine to another.
pub open spec fn round(a: Machine, var: Name, i: int, body: Term, b: Machine) -> bool {
    exists|z: Machine, v: Val| #[trigger]
        comes(a.bind(var, Val::Int(i as i64)), body, z, v) && b == z.unbind(1)
}

proof fn rounds_run(ms: Seq<Machine>, var: Name, lo: i64, hi: i64, body: Term, k: int) -> (n: nat)
    requires
        0 <= k < ms.len(),
        ms.len() == (if lo < hi {
            hi - lo
        } else {
            0
        }) + 1,
        forall|j: int| 0 <= j < ms.len() ==> #[trigger] ms[j] == at_rest(ms[j]),
        forall|j: int| 0 <= j < ms.len() - 1 ==> #[trigger] round(ms[j], var, lo + j, body, ms[j + 1]),
    ensures
        run(looped(ms[k], var, (lo + k) as i64, hi, body), n) == ms.last().give(Val::Unit),
    decreases ms.len() - k,
{
    let none = Seq::<FrameTerm>::empty();
    let i = (lo + k) as i64;
    let c = looped(ms[k], var, i, hi, body);
    if k == ms.len() - 1 {
        assert(run(c, 0) == c);
        0
    } else {
        assert(round(ms[k], var, lo + k, body, ms[k + 1]));
        assert(lo + k == i);
        let a = ms[k].bind(var, Val::Int(i));
        let (z, v) = choose|z: Machine, v: Val| #[trigger] comes(a, body, z, v) && ms[k + 1] == z.unbind(1);
        let f = FrameTerm::LoopNext { var, next: (i + 1) as i64, end: hi, body };
        over_nothing(a);
        over_nothing(z);
        handing_on(a, none, f, v);
        handing_on(z, none, f, v);
        assert(c == over(a, none.push(f)).evaluate(body));
        let n1 = comes_over(a, body, z, v, none.push(f));
        let d = over(z, none.push(f)).give(v);
        one_step(d);
        assert(step(d) == looped(ms[k + 1], var, (i + 1) as i64, hi, body));
        let n2 = then_runs(c, n1, d, 1, step(d));
        let n3 = rounds_run(ms, var, lo, hi, body, k + 1);
        then_runs(c, n2, step(d), n3, ms.last().give(Val::Unit))
    }
}

/// A loop evaluates its bounds, and then its body once for each integer from the first up to
/// but without the second, in order, with the variable bound to it. It gives nothing.
pub proof fn a_loop_runs_a_round_for_each_index(
    q: Machine,
    t: Term,
    q1: Machine,
    lo: i64,
    hi: i64,
    ms: Seq<Machine>,
)
    requires
        t.op == Op::For,
        shaped(t),
        comes(q, t.kids[0], q1, Val::Int(lo)),
        ms.len() == (if lo < hi {
            hi - lo
        } else {
            0
        }) + 1,
        comes(q1, t.kids[1], ms[0], Val::Int(hi)),
        forall|j: int| 0 <= j < ms.len() ==> #[trigger] ms[j] == at_rest(ms[j]),
        forall|j: int|
            0 <= j < ms.len() - 1 ==> #[trigger] round(
                ms[j],
                t.names[0],
                lo + j,
                t.kids[2],
                ms[j + 1],
            ),
    ensures
        comes(q, t, ms.last(), Val::Unit),
{
    let none = Seq::<FrameTerm>::empty();
    let var = t.names[0];
    let body = t.kids[2];
    let c = q.evaluate(t);
    let f = FrameTerm::LoopStart { var, end: t.kids[1], body };
    let g = FrameTerm::LoopEnd { var, start: lo, body };
    let m0 = ms[0];
    over_nothing(q);
    over_nothing(q1);
    over_nothing(m0);
    handing_on(q, none, f, Val::Unit);
    assert(c.idle() == q);
    assert(step(c) == over(q, none.push(f)).evaluate(t.kids[0]));
    one_step(c);
    let k = comes_over(q, t.kids[0], q1, Val::Int(lo), none.push(f));
    let d = over(q1, none.push(f)).give(Val::Int(lo));
    let n1 = then_runs(c, 1, step(c), k, d);
    handing_on(q1, none, f, Val::Int(lo));
    handing_on(q1, none, g, Val::Int(lo));
    one_step(d);
    assert(step(d) == over(q1, none.push(g)).evaluate(t.kids[1]));
    let n2 = then_runs(c, n1, d, 1, step(d));
    let k2 = comes_over(q1, t.kids[1], m0, Val::Int(hi), none.push(g));
    let e = over(m0, none.push(g)).give(Val::Int(hi));
    let n3 = then_runs(c, n2, step(d), k2, e);
    handing_on(m0, none, g, Val::Int(hi));
    one_step(e);
    assert(step(e) == looped(m0, var, lo, hi, body));
    let n4 = then_runs(c, n3, e, 1, step(e));
    let n5 = rounds_run(ms, var, lo, hi, body, 0);
    let n6 = then_runs(c, n4, step(e), n5, ms.last().give(Val::Unit));
}

proof fn arguments_run(
    q: Machine,
    t: Term,
    qs: Seq<Machine>,
    vs: Seq<Val>,
    f: Name,
    i: int,
) -> (n: nat)
    requires
        t.op == Op::Call,
        qs.len() == t.kids.len(),
        vs.len() + 1 == t.kids.len(),
        0 <= i < qs.len(),
        forall|j: int|
            0 <= j < vs.len() ==> #[trigger] comes(qs[j], t.kids[j + 1], qs[j + 1], vs[j]),
    ensures
        run(
            operands(
                qs[i],
                Op::Call,
                t.names,
                seq![Val::Function(f)] + vs.take(i),
                t.kids.subrange(i + 1, t.kids.len() as int),
            ),
            n,
        ) == applied(qs.last(), Op::Call, t.names, seq![Val::Function(f)] + vs),
    decreases qs.len() - i,
{
    let none = Seq::<FrameTerm>::empty();
    let len = t.kids.len() as int;
    let done = seq![Val::Function(f)] + vs.take(i);
    let todo = t.kids.subrange(i + 1, len);
    let c = operands(qs[i], Op::Call, t.names, done, todo);
    if i == qs.len() - 1 {
        assert(vs.take(i) =~= vs);
        assert(run(c, 0) == c);
        0
    } else {
        let rest = todo.subrange(1, todo.len() as int);
        let g = FrameTerm::Operands { op: Op::Call, names: t.names, done, todo: rest };
        assert(comes(qs[i], t.kids[i + 1], qs[i + 1], vs[i]));
        assert(todo[0] == t.kids[i + 1]);
        let a = qs[i];
        let b = qs[i + 1];
        over_nothing(a);
        over_nothing(b);
        handing_on(a, none, g, vs[i]);
        handing_on(b, none, g, vs[i]);
        assert(c == over(a, none.push(g)).evaluate(t.kids[i + 1]));
        let n1 = comes_over(a, t.kids[i + 1], b, vs[i], none.push(g));
        let d = over(b, none.push(g)).give(vs[i]);
        one_step(d);
        assert(done.push(vs[i]) =~= seq![Val::Function(f)] + vs.take(i + 1));
        assert(rest =~= t.kids.subrange(i + 2, len));
        assert(meets(vs[i], demand(Op::Call, done.len())));
        let e = operands(
            b,
            Op::Call,
            t.names,
            seq![Val::Function(f)] + vs.take(i + 1),
            t.kids.subrange(i + 2, len),
        );
        assert(step(d) == e);
        let n2 = then_runs(c, n1, d, 1, e);
        let n3 = arguments_run(q, t, qs, vs, f, i + 1);
        then_runs(c, n2, e, n3, applied(qs.last(), Op::Call, t.names, seq![Val::Function(f)] + vs))
    }
}

/// A call by name evaluates the arguments in order, and then the body of the function where
/// its parameters, and nothing else, are in scope. The scope of the caller is there again
/// after it.
pub proof fn a_call_comes(
    q: Machine,
    t: Term,
    qs: Seq<Machine>,
    vs: Seq<Val>,
    f: FunctionTerm,
    z: Machine,
    w: Val,
)
    requires
        calls_by_name(q, t),
        t.names.len() == 0,
        qs.len() == t.kids.len(),
        vs.len() + 1 == t.kids.len(),
        qs[0] == q,
        q == at_rest(q),
        qs.last() == at_rest(qs.last()),
        forall|j: int|
            0 <= j < vs.len() ==> #[trigger] comes(qs[j], t.kids[j + 1], qs[j + 1], vs[j]),
        find_function(qs.last().functions, t.kids[0].names[0]) == Some(f),
        f.params.len() == vs.len(),
        comes(Machine { env: zipped(f.params, vs), ..qs.last() }, f.body, z, w),
    ensures
        comes(q, t, Machine { env: qs.last().env, ..z }, w),
{
    let none = Seq::<FrameTerm>::empty();
    let name = t.kids[0].names[0];
    let c = q.evaluate(t);
    let len = t.kids.len() as int;
    let last = qs.last();
    assert(c.idle() == q);
    assert(seq![Val::Function(name)] + vs.take(0) =~= seq![Val::Function(name)]);
    let c1 = operands(
        q,
        Op::Call,
        t.names,
        seq![Val::Function(name)] + vs.take(0),
        t.kids.subrange(1, len),
    );
    assert(step(c) == c1);
    one_step(c);
    let k = arguments_run(q, t, qs, vs, name, 0);
    let all = seq![Val::Function(name)] + vs;
    let d = applied(last, Op::Call, t.names, all);
    let n1 = then_runs(c, 1, c1, k, d);
    assert(all.subrange(1, all.len() as int) =~= vs);
    let r = FrameTerm::Restore { env: last.env };
    let inner = Machine { env: zipped(f.params, vs), ..last };
    over_nothing(last);
    over_nothing(inner);
    over_nothing(z);
    handing_on(inner, none, r, w);
    assert(d == over(inner, none.push(r)).evaluate(f.body));
    let k2 = comes_over(inner, f.body, z, w, none.push(r));
    let e = over(z, none.push(r)).give(w);
    let n2 = then_runs(c, n1, d, k2, e);
    handing_on(z, none, r, w);
    one_step(e);
    let end = Machine { env: last.env, ..z };
    assert(step(e) == end.give(w));
    let n3 = then_runs(c, n2, e, 1, step(e));
}

} // verus!
