//! What the loops that stand for methods on arrays evaluate to.

use vstd::prelude::*;
use crate::ast::{BinaryOp, Expr as Source};
use crate::interp::direct::{direct, ev, ev_kids};
use crate::interp::heap::{ctor_at, HeapError};
use crate::interp::laws::{found_at, found_before};
use crate::interp::naming::{at_rest, outcome};
use crate::interp::rounds::{
    a_binding_comes, a_call_comes, a_direct_term_comes, a_loop_runs_a_round_for_each_index,
    an_assignment_comes, comes, round,
};
use crate::interp::semantics::{applied, find, find_function, lookup, zipped};
use crate::interp::state::{Machine, Scope};
use crate::interp::value::Val;
use crate::ir::{leaf, node, shaped, t_assign, t_let, t_var, FunctionTerm, Name, Op, Term};
use super::context::LoweringContext;
use super::expr::{lowered, lowered_block, lowered_for, t_call, t_element, t_fold, t_index_loop};

verus! {

/// Whether a machine has an array at an address.
pub open spec fn has_array(m: Machine, a: usize, tag: Name, xs: Seq<Val>) -> bool {
    ctor_at(m.heap, a) == Ok::<(Name, Seq<Val>), HeapError>((tag, xs)) && xs.len() <= i64::MAX
}

proof fn a_variable_comes(m: Machine, x: Name, at: int)
    requires
        m == at_rest(m),
        find(m.env, x) == Some(at),
    ensures
        comes(m, t_var(x), m, m.env[at].1),
{
    let t = t_var(x);
    assert(t.names[0] == x);
    assert(shaped(t) && direct(t));
    assert(lookup(m, x) is Ok);
    assert(ev(m, t) == Some((m.heap, m.env[at].1)));
    assert(Machine { heap: m.heap, ..m } == m);
    a_direct_term_comes(m, t, m.heap, m.env[at].1);
}

proof fn an_element_comes(
    m: Machine,
    arr: Name,
    i: Name,
    at: int,
    bt: int,
    a: usize,
    k: int,
    tag: Name,
    xs: Seq<Val>,
)
    requires
        m == at_rest(m),
        find(m.env, arr) == Some(at),
        find(m.env, i) == Some(bt),
        m.env[at].1 == Val::HeapRef(a),
        m.env[bt].1 == Val::Int(k as i64),
        0 <= k < xs.len(),
        has_array(m, a, tag, xs),
    ensures
        comes(m, t_element(arr, i), m, xs[k]),
{
    let t = t_element(arr, i);
    let v = t_var(arr);
    let w = t_var(i);
    assert(t.kids[0] == v && t.kids[1] == w);
    assert(v.names[0] == arr && w.names[0] == i);
    assert(shaped(v) && direct(v) && shaped(w) && direct(w));
    assert(shaped(t) && direct(t));
    assert(ev(m, v) == Some((m.heap, Val::HeapRef(a))));
    assert(ev(m, w) == Some((m.heap, Val::Int(k as i64))));
    assert(Machine { heap: m.heap, ..m } == m);
    let none = Seq::<Val>::empty();
    assert(ev_kids(m, t, 0) == Some((m.heap, none)));
    assert(ev_kids(m, t, 1) == Some((m.heap, none.push(Val::HeapRef(a)))));
    let vs = none.push(Val::HeapRef(a)).push(Val::Int(k as i64));
    assert(ev_kids(m, t, 2) == Some((m.heap, vs)));
    assert(vs[0] == Val::HeapRef(a) && vs[1] == Val::Int(k as i64));
    assert(outcome(applied(m, Op::Index, t.names, vs)) == Some((m.heap, xs[k])));
    a_direct_term_comes(m, t, m.heap, xs[k]);
}

proof fn a_length_comes(m: Machine, arr: Name, at: int, a: usize, tag: Name, xs: Seq<Val>)
    requires
        m == at_rest(m),
        find(m.env, arr) == Some(at),
        m.env[at].1 == Val::HeapRef(a),
        has_array(m, a, tag, xs),
    ensures
        comes(
            m,
            node(Op::ArrayLen, Seq::empty(), seq![t_var(arr)]),
            m,
            Val::Int(xs.len() as i64),
        ),
{
    let t = node(Op::ArrayLen, Seq::empty(), seq![t_var(arr)]);
    let v = t_var(arr);
    assert(t.kids[0] == v);
    assert(v.names[0] == arr);
    assert(shaped(v) && direct(v));
    assert(shaped(t) && direct(t));
    assert(ev(m, v) == Some((m.heap, Val::HeapRef(a))));
    assert(Machine { heap: m.heap, ..m } == m);
    let none = Seq::<Val>::empty();
    assert(ev_kids(m, t, 0) == Some((m.heap, none)));
    let vs = none.push(Val::HeapRef(a));
    assert(ev_kids(m, t, 1) == Some((m.heap, vs)));
    assert(vs[0] == Val::HeapRef(a));
    assert(outcome(applied(m, Op::ArrayLen, t.names, vs)) == Some(
        (m.heap, Val::Int(xs.len() as i64)),
    ));
    a_direct_term_comes(m, t, m.heap, Val::Int(xs.len() as i64));
}

proof fn a_leaf_comes(m: Machine, op: Op, v: Val)
    requires
        m == at_rest(m),
        (op == Op::Unit && v == Val::Unit) || (op matches Op::Int(n) && v == Val::Int(n)),
    ensures
        comes(m, leaf(op), m, v),
{
    let t = leaf(op);
    assert(shaped(t) && direct(t));
    assert(Machine { heap: m.heap, ..m } == m);
    a_direct_term_comes(m, t, m.heap, v);
}

/// A loop over the indices of an array runs a round for each of them.
proof fn an_index_loop_comes(
    var: Name,
    arr: Name,
    body: Term,
    at: int,
    a: usize,
    tag: Name,
    xs: Seq<Val>,
    ms: Seq<Machine>,
)
    requires
        ms.len() == xs.len() + 1,
        has_array(ms[0], a, tag, xs),
        find(ms[0].env, arr) == Some(at),
        ms[0].env[at].1 == Val::HeapRef(a),
        forall|j: int| 0 <= j < ms.len() ==> #[trigger] ms[j] == at_rest(ms[j]),
        forall|j: int| 0 <= j < ms.len() - 1 ==> #[trigger] round(ms[j], var, 0 + j, body, ms[j + 1]),
    ensures
        comes(ms[0], t_index_loop(var, arr, body), ms.last(), Val::Unit),
{
    let t = t_index_loop(var, arr, body);
    let m = ms[0];
    assert(t.kids[0] == leaf(Op::Int(0)));
    assert(t.kids[1] == node(Op::ArrayLen, Seq::empty(), seq![t_var(arr)]));
    assert(t.kids[2] == body);
    assert(t.names[0] == var);
    assert(shaped(t));
    a_leaf_comes(m, Op::Int(0), Val::Int(0));
    a_length_comes(m, arr, at, a, tag, xs);
    let hi = xs.len() as i64;
    assert forall|j: int| 0 <= j < ms.len() - 1 implies #[trigger] round(
        ms[j],
        t.names[0],
        0i64 + j,
        t.kids[2],
        ms[j + 1],
    ) by {
        assert(round(ms[j], var, 0 + j, body, ms[j + 1]));
    }
    a_loop_runs_a_round_for_each_index(m, t, m, 0, hi, ms);
}

/// The scope in which a fold goes on.
spec fn fold_scope(env: Scope, a: usize, acc: Val) -> Scope {
    env.push(("__fold_arr"@, Val::HeapRef(a))).push(("__fold_acc"@, acc))
}

/// Whether calling a function takes a machine, but for its scope, to another, with a result.
pub open spec fn calling(a: Machine, f: FunctionTerm, vs: Seq<Val>, b: Machine, r: Val) -> bool {
    f.params.len() == vs.len() && exists|z: Machine| #[trigger]
        comes(Machine { env: zipped(f.params, vs), ..a }, f.body, z, r) && b == (Machine {
            env: a.env,
            ..z
        })
}

/// Whether a call with what came before and the element at `k` gives what comes next.
pub open spec fn folds(
    ws: Seq<Machine>,
    f: FunctionTerm,
    accs: Seq<Val>,
    xs: Seq<Val>,
    k: int,
) -> bool {
    calling(ws[k], f, seq![accs[k], xs[k]], ws[k + 1], accs[k + 1])
}

/// Whether a name stands for a function, whatever the loop binds.
pub open spec fn names_function(m: Machine, name: Name, f: FunctionTerm) -> bool {
    &&& name != "__fold_arr"@
    &&& name != "__fold_acc"@
    &&& name != "__fold_i"@
    &&& find(m.env, name) is None
    &&& find(m.globals, name) is None
    &&& find_function(m.functions, name) == Some(f)
}

proof fn names_of_a_fold()
    ensures
        "__fold_arr"@ != "__fold_acc"@,
        "__fold_arr"@ != "__fold_i"@,
        "__fold_acc"@ != "__fold_i"@,
        "__fold_arr"@ != "_"@,
        "__fold_acc"@ != "_"@,
{
    reveal_strlit("__fold_arr");
    reveal_strlit("__fold_acc");
    reveal_strlit("__fold_i");
    reveal_strlit("_");
    assert("__fold_arr"@[8] != "__fold_acc"@[8]);
    assert("__fold_i"@.len() == 8);
    assert("__fold_arr"@.len() == 10);
    assert("__fold_acc"@.len() == 10);
    assert("_"@.len() == 1);
}

proof fn a_fold_round(
    m: Machine,
    next: Machine,
    name: Name,
    f: FunctionTerm,
    a: usize,
    tag: Name,
    xs: Seq<Val>,
    k: int,
    acc: Val,
    new: Val,
)
    requires
        m == at_rest(m),
        0 <= k < xs.len(),
        has_array(m, a, tag, xs),
        names_function(m, name, f),
        calling(m, f, seq![acc, xs[k]], next, new),
    ensures
        round(
            Machine { env: fold_scope(m.env, a, acc), ..m },
            "__fold_i"@,
            k,
            t_assign(
                "__fold_acc"@,
                t_call(
                    t_var(name),
                    seq![t_var("__fold_acc"@), t_element("__fold_arr"@, "__fold_i"@)],
                ),
                leaf(Op::Unit),
            ),
            Machine { env: fold_scope(m.env, a, new), ..next },
        ),
{
    names_of_a_fold();
    let e = m.env;
    let n = e.len() as int;
    let at = Machine { env: fold_scope(e, a, acc), ..m };
    let i = Val::Int(k as i64);
    let c = at.bind("__fold_i"@, i);
    let t = t_call(t_var(name), seq![t_var("__fold_acc"@), t_element("__fold_arr"@, "__fold_i"@)]);
    assert(c.env[n] == ("__fold_arr"@, Val::HeapRef(a)));
    assert(c.env[n + 1] == ("__fold_acc"@, acc));
    assert(c.env[n + 2] == ("__fold_i"@, i));
    assert(c.env.len() == n + 3);
    found_at(c.env, "__fold_arr"@, n);
    found_at(c.env, "__fold_acc"@, n + 1);
    found_at(c.env, "__fold_i"@, n + 2);
    let more = seq![("__fold_arr"@, Val::HeapRef(a)), ("__fold_acc"@, acc), ("__fold_i"@, i)];
    assert(c.env =~= e + more);
    found_before(e, more, name);
    a_variable_comes(c, "__fold_acc"@, n + 1);
    an_element_comes(c, "__fold_arr"@, "__fold_i"@, n, n + 2, a, k, tag, xs);
    assert(t.kids[0] == t_var(name));
    assert(t.kids[1] == t_var("__fold_acc"@));
    assert(t.kids[2] == t_element("__fold_arr"@, "__fold_i"@));
    assert(t_var(name).names[0] == name);
    let qs = seq![c, c, c];
    let vs = seq![acc, xs[k]];
    assert forall|j: int| 0 <= j < vs.len() implies #[trigger] comes(
        qs[j],
        t.kids[j + 1],
        qs[j + 1],
        vs[j],
    ) by {
        assert(j == 0 || j == 1);
    }
    let z = choose|z: Machine| #[trigger]
        comes(Machine { env: zipped(f.params, vs), ..m }, f.body, z, new) && next == (Machine {
            env: m.env,
            ..z
        });
    assert(Machine { env: zipped(f.params, vs), ..c } == Machine { env: zipped(f.params, vs), ..m });
    a_call_comes(c, t, qs, vs, f, z, new);
    let d = Machine { env: c.env, ..z };
    assert(comes(c, t, d, new));
    let s = Machine { env: d.env.update(n + 1, ("__fold_acc"@, new)), ..d };
    a_leaf_comes(s, Op::Unit, Val::Unit);
    an_assignment_comes(c, "__fold_acc"@, t, leaf(Op::Unit), d, new, n + 1, s, Val::Unit);
    assert(s.env.take(s.env.len() - 1) =~= fold_scope(e, a, new));
    assert(s.unbind(1) == Machine { env: fold_scope(e, a, new), ..next });
}

/// A fold calls the function for each element of the array in order, with what the call before
/// it gave and the element, starting from the initial value, and gives what the last call
/// gave. The scope is as it was before.
pub proof fn a_fold_calls_the_function_for_each_element(
    q: Machine,
    arr: Term,
    init: Term,
    name: Name,
    f: FunctionTerm,
    q1: Machine,
    a: usize,
    tag: Name,
    xs: Seq<Val>,
    q2: Machine,
    ws: Seq<Machine>,
    accs: Seq<Val>,
)
    requires
        comes(q, arr, q1, Val::HeapRef(a)),
        q1.env == q.env,
        comes(q1.bind("__fold_arr"@, Val::HeapRef(a)), init, q2, accs[0]),
        q2.env == q1.bind("__fold_arr"@, Val::HeapRef(a)).env,
        ws.len() == xs.len() + 1,
        accs.len() == xs.len() + 1,
        ws[0] == (Machine { env: q.env, ..q2 }),
        forall|k: int|
            0 <= k < ws.len() ==> (#[trigger] ws[k]) == at_rest(ws[k]) && ws[k].env == q.env
                && has_array(ws[k], a, tag, xs) && names_function(ws[k], name, f),
        forall|k: int| 0 <= k < xs.len() ==> #[trigger] folds(ws, f, accs, xs, k),
    ensures
        comes(q, t_fold(arr, init, t_var(name)), ws.last(), accs.last()),
{
    names_of_a_fold();
    let e = q.env;
    let n = e.len() as int;
    let body = t_assign(
        "__fold_acc"@,
        t_call(t_var(name), seq![t_var("__fold_acc"@), t_element("__fold_arr"@, "__fold_i"@)]),
        leaf(Op::Unit),
    );
    let loop_ = t_index_loop("__fold_i"@, "__fold_arr"@, body);
    let ms = Seq::new(
        ws.len(),
        |k: int| Machine { env: fold_scope(e, a, accs[k]), ..ws[k] },
    );
    let m0 = ms[0];
    assert(ws[0].env == e);
    assert(m0.env[n] == ("__fold_arr"@, Val::HeapRef(a)));
    assert(m0.env[n + 1] == ("__fold_acc"@, accs[0]));
    assert(m0.env.len() == n + 2);
    found_at(m0.env, "__fold_arr"@, n);
    assert forall|j: int| 0 <= j < ms.len() implies #[trigger] ms[j] == at_rest(ms[j]) by {
        assert(ws[j] == at_rest(ws[j]));
    }
    assert forall|j: int| 0 <= j < ms.len() - 1 implies #[trigger] round(
        ms[j],
        "__fold_i"@,
        0 + j,
        body,
        ms[j + 1],
    ) by {
        assert(ws[j] == at_rest(ws[j]));
        assert(folds(ws, f, accs, xs, j));
        a_fold_round(ws[j], ws[j + 1], name, f, a, tag, xs, j, accs[j], accs[j + 1]);
    }
    assert(ws[0] == at_rest(ws[0]));
    an_index_loop_comes("__fold_i"@, "__fold_arr"@, body, n, a, tag, xs, ms);
    let last = ms.last();
    let w = ws[xs.len() as int];
    assert(last == Machine { env: fold_scope(e, a, accs.last()), ..w });
    assert(w == at_rest(w) && w.env == e);
    let after = last.bind("_"@, Val::Unit);
    assert(after.env[n + 1] == ("__fold_acc"@, accs.last()));
    assert(after.env[n + 2] == ("_"@, Val::Unit));
    assert(after.env.len() == n + 3);
    found_at(after.env, "__fold_acc"@, n + 1);
    a_variable_comes(after, "__fold_acc"@, n + 1);
    let inner = t_let("_"@, loop_, t_var("__fold_acc"@));
    a_binding_comes(m0, "_"@, loop_, t_var("__fold_acc"@), last, Val::Unit, after, accs.last());
    assert(after.unbind(1).env =~= last.env);
    assert(after.unbind(1) == last);
    let first = q1.bind("__fold_arr"@, Val::HeapRef(a));
    assert(q2.bind("__fold_acc"@, accs[0]) == m0);
    a_binding_comes(first, "__fold_acc"@, init, inner, q2, accs[0], last, accs.last());
    let one = last.unbind(1);
    assert(one.env =~= e.push(("__fold_arr"@, Val::HeapRef(a))));
    a_binding_comes(
        q,
        "__fold_arr"@,
        arr,
        t_let("__fold_acc"@, init, inner),
        q1,
        Val::HeapRef(a),
        one,
        accs.last(),
    );
    assert(one.unbind(1).env =~= e);
    assert(one.unbind(1) == w);
}

/// The scope of a round of a loop over an array.
pub open spec fn round_scope(env: Scope, a: usize, k: int) -> Scope {
    env.push(("__for_arr"@, Val::HeapRef(a))).push(("__for_i"@, Val::Int(k as i64)))
}

/// Whether evaluating the body of a loop, with the variable bound to `x`, takes a machine and
/// its scope to another.
pub open spec fn turns(
    a: Machine,
    addr: usize,
    k: int,
    var: Name,
    x: Val,
    body: Term,
    b: Machine,
) -> bool {
    exists|z: Machine, v: Val, y: Val| #[trigger]
        comes(Machine { env: round_scope(a.env, addr, k).push((var, x)), ..a }, body, z, v) && z
            == (Machine { env: #[trigger] round_scope(b.env, addr, k).push((var, y)), ..b })
}

/// Whether round `k` of a loop over an array takes one machine to the next.
pub open spec fn turn(
    ws: Seq<Machine>,
    addr: usize,
    var: Name,
    xs: Seq<Val>,
    body: Term,
    k: int,
) -> bool {
    turns(ws[k], addr, k, var, xs[k], body, ws[k + 1])
}

proof fn a_turn_is_a_round(
    m: Machine,
    next: Machine,
    a: usize,
    tag: Name,
    xs: Seq<Val>,
    k: int,
    var: Name,
    body: Term,
)
    requires
        m == at_rest(m),
        0 <= k < xs.len(),
        has_array(m, a, tag, xs),
        turns(m, a, k, var, xs[k], body, next),
    ensures
        round(
            Machine { env: m.env.push(("__for_arr"@, Val::HeapRef(a))), ..m },
            "__for_i"@,
            k,
            t_let(var, t_element("__for_arr"@, "__for_i"@), body),
            Machine { env: next.env.push(("__for_arr"@, Val::HeapRef(a))), ..next },
        ),
{
    reveal_strlit("__for_arr");
    reveal_strlit("__for_i");
    assert("__for_arr"@.len() != "__for_i"@.len());
    let n = m.env.len() as int;
    let i = Val::Int(k as i64);
    let elem = t_element("__for_arr"@, "__for_i"@);
    let at = Machine { env: m.env.push(("__for_arr"@, Val::HeapRef(a))), ..m };
    let c = at.bind("__for_i"@, i);
    assert(c.env == round_scope(m.env, a, k));
    assert(c.env[n] == ("__for_arr"@, Val::HeapRef(a)));
    assert(c.env[n + 1] == ("__for_i"@, i));
    assert(c.env.len() == n + 2);
    found_at(c.env, "__for_arr"@, n);
    found_at(c.env, "__for_i"@, n + 1);
    an_element_comes(c, "__for_arr"@, "__for_i"@, n, n + 1, a, k, tag, xs);
    let (z, v, y) = choose|z: Machine, v: Val, y: Val| #[trigger]
        comes(Machine { env: round_scope(m.env, a, k).push((var, xs[k])), ..m }, body, z, v) && z
            == (Machine { env: #[trigger] round_scope(next.env, a, k).push((var, y)), ..next });
    assert(c.bind(var, xs[k]) == Machine {
        env: round_scope(m.env, a, k).push((var, xs[k])),
        ..m
    });
    a_binding_comes(c, var, elem, body, c, xs[k], z, v);
    let d = z.unbind(1);
    assert(d.env =~= round_scope(next.env, a, k));
    let end = Machine { env: next.env.push(("__for_arr"@, Val::HeapRef(a))), ..next };
    assert(d.unbind(1).env =~= end.env);
    assert(d.unbind(1) == end);
}

/// `for x in a` over an array evaluates the body once for each element, in order, with the
/// variable bound to it.
pub proof fn a_loop_over_an_array_takes_each_element(
    q: Machine,
    e: Source,
    ctx: LoweringContext,
    q1: Machine,
    a: usize,
    tag: Name,
    xs: Seq<Val>,
    ws: Seq<Machine>,
)
    requires
        e is For,
        e->For_pattern is Ident,
        !(*e->iter is Binary && (*e->iter)->Binary_op == BinaryOp::Range),
        ctx.loops_over_array(e->For_span),
        lowered(e, ctx) is Ok,
        comes(q, lowered(*e->iter, ctx)->Ok_0, q1, Val::HeapRef(a)),
        ws.len() == xs.len() + 1,
        ws[0] == q1,
        forall|k: int|
            0 <= k < ws.len() ==> (#[trigger] ws[k]) == at_rest(ws[k]) && has_array(
                ws[k],
                a,
                tag,
                xs,
            ),
        forall|k: int|
            0 <= k < xs.len() ==> #[trigger] turn(
                ws,
                a,
                e->For_pattern->Ident_0@,
                xs,
                lowered_block(*e->For_body, ctx)->Ok_0,
                k,
            ),
    ensures
        comes(q, lowered(e, ctx)->Ok_0, ws.last(), Val::Unit),
{
    let var = e->For_pattern->Ident_0@;
    let over = lowered(*e->iter, ctx)->Ok_0;
    let b = lowered_block(*e->For_body, ctx)->Ok_0;
    assert(lowered(e, ctx) == lowered_for(e, ctx));
    assert(lowered_for(e, ctx) is Ok);
    let body = t_let(var, t_element("__for_arr"@, "__for_i"@), b);
    let inner = t_index_loop("__for_i"@, "__for_arr"@, body);
    assert(lowered(e, ctx)->Ok_0 == t_let("__for_arr"@, over, inner));
    let ms = Seq::new(
        ws.len(),
        |k: int| Machine { env: ws[k].env.push(("__for_arr"@, Val::HeapRef(a))), ..ws[k] },
    );
    let m0 = ms[0];
    let n = q1.env.len() as int;
    assert(m0.env[n] == ("__for_arr"@, Val::HeapRef(a)));
    found_at(m0.env, "__for_arr"@, n);
    assert forall|j: int| 0 <= j < ms.len() implies #[trigger] ms[j] == at_rest(ms[j]) by {
        assert(ws[j] == at_rest(ws[j]));
    }
    assert forall|j: int| 0 <= j < ms.len() - 1 implies #[trigger] round(
        ms[j],
        "__for_i"@,
        0 + j,
        body,
        ms[j + 1],
    ) by {
        assert(ws[j] == at_rest(ws[j]));
        assert(turn(ws, a, var, xs, b, j));
        a_turn_is_a_round(ws[j], ws[j + 1], a, tag, xs, j, var, b);
    }
    assert(ws[0] == at_rest(ws[0]));
    an_index_loop_comes("__for_i"@, "__for_arr"@, body, n, a, tag, xs, ms);
    let last = ms.last();
    let w = ws[xs.len() as int];
    assert(w == at_rest(w));
    assert(q1.bind("__for_arr"@, Val::HeapRef(a)) == m0);
    a_binding_comes(q, "__for_arr"@, over, inner, q1, Val::HeapRef(a), last, Val::Unit);
    assert(last.unbind(1).env =~= w.env);
    assert(last.unbind(1) == w);
}

} // verus!
