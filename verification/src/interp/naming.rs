//! Naming intermediate allocations keeps the order in which a node's operands are evaluated,
//! and with it what the node evaluates to.

use vstd::prelude::*;
use crate::anf::{
    flatten_arms, flatten_kids, flatten_term, hoist_term, hoistable_term, is_atom_op,
    is_fresh_alloc_op, region_term, slot_of, temp_name, temp_names_are_distinct, Slot,
};
use crate::fbip::uses::mentions;
use crate::ir::{shaped, t_let, t_var, wrap, BinOp, Name, Op, Term};
use super::context::{an_evaluation_is_local, applied_over, over, steps_within_a_call, takes_steps};
use super::heap::{with_new, Cells, Contents};
use super::laws::steps_add_up;
use super::lifting::{calls_by_name, seen_value, takes_operands};
use super::semantics::{
    applied, binary, demand, exchanged, find, given, lookup, meets, on_array, on_ref, on_text,
    operands, run, settled, shown, started, step, Progress,
};
use super::state::{ControlTerm, FrameTerm, Machine, Scope};
use super::step::settled_stays;
use super::value::Val;

verus! {

/// Whether a term is an atom, or a fresh allocation whose operands are such terms again.
pub open spec fn builds(t: Term) -> bool
    decreases t,
{
    &&& shaped(t)
    &&& is_atom_op(t.op) || (is_fresh_alloc_op(t.op) && forall|i: int|
        0 <= i < t.kids.len() ==> builds(#[trigger] t.kids[i]))
}

/// Whether a term mentions no temporary.
pub open spec fn no_temps(t: Term) -> bool {
    forall|n: nat| !mentions(t, #[trigger] temp_name(n))
}

/// A machine at rest, with nothing on its stack.
pub open spec fn at_rest(m: Machine) -> Machine {
    Machine { stack: Seq::empty(), control: ControlTerm::Return(Val::Unit), ..m }
}

/// What a building term is worth in a machine at rest: its value, and the heap with it. Nothing
/// if it fails or asks the host.
pub open spec fn worth(q: Machine, t: Term) -> Option<(Cells, Val)>
    decreases t, t.kids.len() + 1,
{
    if is_atom_op(t.op) {
        match seen_value(q, t) {
            Some(v) => Some((q.heap, v)),
            None => None,
        }
    } else if t.op == Op::Str {
        Some((with_new(q.heap, Contents::Str(t.names[0])), Val::HeapRef(q.heap.len() as usize)))
    } else if t.op is EmptyArray {
        None
    } else {
        match worths(q, t, t.kids.len()) {
            None => None,
            Some((h, vs)) => outcome(applied(Machine { heap: h, ..q }, t.op, t.names, vs)),
        }
    }
}

/// What a machine came to at once: a value and its heap, or nothing.
pub open spec fn outcome(r: Machine) -> Option<(Cells, Val)> {
    match r.control {
        ControlTerm::Return(v) => Some((r.heap, v)),
        _ => None,
    }
}

/// What the first `n` operands of a node are worth, one after another.
pub open spec fn worths(q: Machine, t: Term, n: nat) -> Option<(Cells, Seq<Val>)>
    decreases t, n,
{
    if n == 0 || n > t.kids.len() {
        Some((q.heap, Seq::empty()))
    } else {
        match worths(q, t, (n - 1) as nat) {
            None => None,
            Some((h, vs)) => match worth(Machine { heap: h, ..q }, t.kids[n - 1]) {
                None => None,
                Some((h2, v)) => if meets(v, demand(t.op, (n - 1) as nat)) {
                    Some((h2, vs.push(v)))
                } else {
                    None
                },
            },
        }
    }
}

/// Whether a machine has failed or waits for the host.
pub(crate) open spec fn held_up(m: Machine) -> bool {
    m.control is Failed || m.control is Waiting
}

pub(crate) proof fn held_up_stays(m: Machine, n: nat)
    requires
        held_up(m),
    ensures
        held_up(run(m, n)),
    decreases n,
{
    if n > 0 {
        held_up_stays(step(m), (n - 1) as nat);
    }
}

pub(crate) proof fn first_worths(q: Machine, t: Term, i: nat, n: nat)
    requires
        i <= n <= t.kids.len(),
        worths(q, t, n) is Some,
    ensures
        worths(q, t, i) is Some,
        (worths(q, t, i)->0).1 == (worths(q, t, n)->0).1.take(i as int),
        (worths(q, t, n)->0).1.len() == n,
    decreases n,
{
    if i < n {
        first_worths(q, t, i, (n - 1) as nat);
        let vs = (worths(q, t, (n - 1) as nat)->0).1;
        let all = (worths(q, t, n)->0).1;
        assert(all.take(i as int) =~= vs.take(i as int));
    } else {
        if n > 0 {
            first_worths(q, t, (n - 1) as nat, (n - 1) as nat);
        }
        assert((worths(q, t, n)->0).1.take(i as int) =~= (worths(q, t, n)->0).1);
    }
}

/// A building term evaluates to what it is worth.
pub(crate) proof fn building_gives_its_worth(q: Machine, below: Seq<FrameTerm>, t: Term) -> (n: nat)
    requires
        builds(t),
        q == at_rest(q),
    ensures
        match worth(q, t) {
            Some((h, v)) => run(over(q, below).evaluate(t), n) == over(
                Machine { heap: h, ..q },
                below,
            ).give(v),
            None => held_up(run(over(q, below).evaluate(t), n)),
        },
    decreases t, t.kids.len() + 1,
{
    let m = over(q, below);
    let c = m.evaluate(t);
    assert(m.stack =~= below);
    assert(c.idle() == m);
    assert(run(c, 1) == step(c)) by {
        assert(run(step(c), 0) == step(c));
    }
    assert(lookup(m, t.names[0]) == lookup(q, t.names[0]));
    if is_atom_op(t.op) || t.op == Op::Str || t.op is EmptyArray {
        1
    } else {
        assert(t.kids.subrange(0, t.kids.len() as int) =~= t.kids);
        assert(step(c) == operands(m, t.op, t.names, Seq::empty(), t.kids));
        let n = operands_give_their_worths(q, below, t, 0, q.heap, Seq::empty());
        steps_add_up(c, 1, n);
        if let Some((h, vs)) = worths(q, t, t.kids.len()) {
            let end = Machine { heap: h, ..q };
            applied_over(end, below, t.op, t.names, vs);
            crate::interp::erasure::applied_answers(end, t.op, t.names, vs);
        }
        n + 1
    }
}

/// The operands of a node from place `i` on evaluate to what they are worth, and then the
/// operator is applied.
proof fn operands_give_their_worths(
    q: Machine,
    below: Seq<FrameTerm>,
    t: Term,
    i: nat,
    h: Cells,
    done: Seq<Val>,
) -> (n: nat)
    requires
        forall|j: int| 0 <= j < t.kids.len() ==> builds(#[trigger] t.kids[j]),
        q == at_rest(q),
        i <= t.kids.len(),
        worths(q, t, i) == Some((h, done)),
        done.len() == i,
    ensures
        ({
            let start = operands(
                over(Machine { heap: h, ..q }, below),
                t.op,
                t.names,
                done,
                t.kids.subrange(i as int, t.kids.len() as int),
            );
            match worths(q, t, t.kids.len()) {
                Some((h2, vs)) => run(start, n) == applied(
                    over(Machine { heap: h2, ..q }, below),
                    t.op,
                    t.names,
                    vs,
                ),
                None => held_up(run(start, n)),
            }
        }),
    decreases t, t.kids.len() - i,
{
    let now = Machine { heap: h, ..q };
    let m = over(now, below);
    let todo = t.kids.subrange(i as int, t.kids.len() as int);
    let start = operands(m, t.op, t.names, done, todo);
    if i == t.kids.len() {
        assert(run(start, 0) == start);
        0
    } else {
        let kid = t.kids[i as int];
        let rest = t.kids.subrange((i + 1) as int, t.kids.len() as int);
        let f = FrameTerm::Operands { op: t.op, names: t.names, done, todo: rest };
        assert(todo[0] == kid);
        assert(todo.subrange(1, todo.len() as int) =~= rest);
        assert(m.push(f).stack =~= over(now, below.push(f)).stack);
        assert(start == over(now, below.push(f)).evaluate(kid));
        assert(now == at_rest(now));
        let a = building_gives_its_worth(now, below.push(f), kid);
        match worth(now, kid) {
            None => {
                assert(worths(q, t, i + 1) is None);
                if worths(q, t, t.kids.len()) is Some {
                    first_worths(q, t, i + 1, t.kids.len());
                }
                a
            },
            Some((h2, v)) => {
                let after = Machine { heap: h2, ..q };
                let r = over(after, below.push(f)).give(v);
                assert(run(start, a) == r);
                assert(r.stack =~= below.push(f));
                assert(r.stack.drop_last() =~= below);
                assert(over(after, below).stack =~= below);
                assert(r.idle().pop() == over(after, below));
                assert(step(r) == given(over(after, below), f, v));
                assert(run(r, 1) == step(r)) by {
                    assert(run(step(r), 0) == step(r));
                }
                steps_add_up(start, a, 1);
                if meets(v, demand(t.op, i)) {
                    assert(worths(q, t, i + 1) == Some((h2, done.push(v))));
                    let b = operands_give_their_worths(q, below, t, i + 1, h2, done.push(v));
                    steps_add_up(start, a + 1, b);
                    a + 1 + b
                } else {
                    assert(worths(q, t, i + 1) is None);
                    if worths(q, t, t.kids.len()) is Some {
                        first_worths(q, t, i + 1, t.kids.len());
                    }
                    a + 1
                }
            },
        }
    }
}

/// The machine at rest after `i` bindings, or nothing if one of them fails or asks the host.
pub open spec fn after(q: Machine, binds: Seq<(Name, Term)>, i: nat) -> Option<Machine>
    decreases i,
{
    if i == 0 || i > binds.len() {
        Some(q)
    } else {
        match after(q, binds, (i - 1) as nat) {
            None => None,
            Some(b) => match worth(b, binds[i - 1].1) {
                None => None,
                Some((h, v)) => Some(
                    Machine { heap: h, env: b.env.push((binds[i - 1].0, v)), ..b },
                ),
            },
        }
    }
}

/// As many scopes of one binding to leave.
pub open spec fn unbinds(n: nat) -> Seq<FrameTerm> {
    Seq::new(n, |i: int| FrameTerm::Unbind { count: 1 })
}

proof fn after_prefix(q: Machine, a: Seq<(Name, Term)>, b: Seq<(Name, Term)>, i: nat)
    requires
        i <= a.len(),
        i <= b.len(),
        forall|j: int| 0 <= j < i ==> #[trigger] a[j] == b[j],
    ensures
        after(q, a, i) == after(q, b, i),
    decreases i,
{
    if i > 0 {
        after_prefix(q, a, b, (i - 1) as nat);
        assert(a[i - 1] == b[i - 1]);
    }
}

proof fn after_more(q: Machine, a: Seq<(Name, Term)>, b: Seq<(Name, Term)>, i: nat)
    requires
        i <= b.len(),
        after(q, a, a.len()) is Some,
    ensures
        after(q, a + b, a.len() + i) == after(after(q, a, a.len())->0, b, i),
    decreases i,
{
    if i == 0 {
        after_prefix(q, a, a + b, a.len());
    } else {
        after_more(q, a, b, (i - 1) as nat);
        assert((a + b)[a.len() + i - 1] == b[i - 1]);
    }
}

proof fn after_stays_at_rest(q: Machine, binds: Seq<(Name, Term)>, i: nat)
    requires
        q == at_rest(q),
    ensures
        after(q, binds, i) matches Some(b) ==> b == at_rest(b),
    decreases i,
{
    if 0 < i <= binds.len() {
        after_stays_at_rest(q, binds, (i - 1) as nat);
    }
}

/// Bindings round a term are evaluated one after another, and then the term.
proof fn bindings_come_first(
    q: Machine,
    below: Seq<FrameTerm>,
    binds: Seq<(Name, Term)>,
    body: Term,
) -> (n: nat)
    requires
        q == at_rest(q),
        forall|j: int| 0 <= j < binds.len() ==> builds((#[trigger] binds[j]).1),
    ensures
        match after(q, binds, binds.len()) {
            Some(b) => run(over(q, below).evaluate(wrap(binds, body)), n) == over(
                b,
                below + unbinds(binds.len()),
            ).evaluate(body),
            None => held_up(run(over(q, below).evaluate(wrap(binds, body)), n)),
        },
    decreases binds.len(),
{
    let start = over(q, below).evaluate(wrap(binds, body));
    if binds.len() == 0 {
        assert(below + unbinds(0) =~= below);
        assert(run(start, 0) == start);
        0
    } else {
        let k = (binds.len() - 1) as nat;
        let first = binds.drop_last();
        let (name, value) = binds.last();
        let inner = t_let(name, value, body);
        assert(wrap(binds, body) == wrap(first, inner));
        assert forall|j: int| 0 <= j < first.len() implies builds((#[trigger] first[j]).1) by {
            assert(first[j] == binds[j]);
        }
        let a = bindings_come_first(q, below, first, inner);
        after_prefix(q, first, binds, k);
        after_stays_at_rest(q, binds, k);
        match after(q, first, k) {
            None => a,
            Some(b) => {
                let s = below + unbinds(k);
                let m = over(b, s);
                let c = m.evaluate(inner);
                assert(run(start, a) == c);
                let f = FrameTerm::LetBody { name, body };
                assert(inner.kids[0] == value && inner.kids[1] == body && inner.names[0] == name);
                assert(c.idle() == m);
                assert(m.push(f).stack =~= over(b, s.push(f)).stack);
                assert(step(c) == over(b, s.push(f)).evaluate(value));
                assert(run(c, 1) == step(c)) by {
                    assert(run(step(c), 0) == step(c));
                }
                assert(binds[binds.len() - 1] == (name, value));
                let d = building_gives_its_worth(b, s.push(f), value);
                steps_add_up(c, 1, d);
                steps_add_up(start, a, 1 + d);
                match worth(b, value) {
                    None => a + (1 + d),
                    Some((h, v)) => {
                        let now = Machine { heap: h, ..b };
                        let r = over(now, s.push(f)).give(v);
                        let u = FrameTerm::Unbind { count: 1 };
                        let next = Machine { env: b.env.push((name, v)), ..now };
                        assert(r.stack =~= s.push(f));
                        assert(r.stack.drop_last() =~= s);
                        assert(over(now, s).stack =~= s);
                        assert(r.idle().pop() == over(now, s));
                        assert(step(r) == given(over(now, s), f, v));
                        assert(over(now, s).bind(name, v).push(u).stack =~= s.push(u));
                        assert(below + unbinds(binds.len()) =~= s.push(u));
                        assert(over(next, below + unbinds(binds.len())).stack =~= s.push(u));
                        assert(step(r) == over(next, below + unbinds(binds.len())).evaluate(body));
                        assert(run(r, 1) == step(r)) by {
                            assert(run(step(r), 0) == step(r));
                        }
                        steps_add_up(start, a + (1 + d), 1);
                        a + (1 + d) + 1
                    },
                }
            },
        }
    }
}

/// Temporaries with their values, numbered on from `n`.
pub open spec fn temp_scope(temps: Seq<Val>, n: nat) -> Scope {
    Seq::new(temps.len(), |j: int| (temp_name((n + 1 + j) as nat), temps[j]))
}

/// A machine with temporaries in scope.
pub open spec fn with_temps(q: Machine, temps: Seq<Val>, n: nat) -> Machine {
    Machine { env: q.env + temp_scope(temps, n), ..q }
}

pub(crate) proof fn find_before(env: Scope, more: Scope, name: Name)
    requires
        forall|j: int| 0 <= j < more.len() ==> (#[trigger] more[j]).0 != name,
    ensures
        find(env + more, name) == find(env, name),
    decreases more.len(),
{
    if more.len() == 0 {
        assert(env + more =~= env);
    } else {
        assert((env + more).last() == more.last());
        assert((env + more).drop_last() =~= env + more.drop_last());
        assert(more.last() == more[more.len() - 1]);
        assert forall|j: int| 0 <= j < more.drop_last().len() implies (
        #[trigger] more.drop_last()[j]).0 != name by {
            assert(more.drop_last()[j] == more[j]);
        }
        find_before(env, more.drop_last(), name);
    }
}

/// A name that is not that of a temporary is found past the temporaries.
proof fn temps_hide_nothing(q: Machine, temps: Seq<Val>, n: nat, name: Name)
    requires
        forall|c: nat| name != #[trigger] temp_name(c),
    ensures
        find(with_temps(q, temps, n).env, name) == find(q.env, name),
        lookup(with_temps(q, temps, n), name) == lookup(q, name),
{
    let more = temp_scope(temps, n);
    find_before(q.env, more, name);
    super::laws::found_is_bound(q.env, name);
}

/// A temporary is found.
proof fn a_temp_is_found(q: Machine, temps: Seq<Val>, n: nat, j: int)
    requires
        0 <= j < temps.len(),
    ensures
        lookup(with_temps(q, temps, n), temp_name((n + 1 + j) as nat)) == Ok::<
            Val,
            super::error::Fault,
        >(temps[j]),
{
    let name = temp_name((n + 1 + j) as nat);
    let env = q.env + temp_scope(temps, n);
    let upto = q.env + temp_scope(temps, n).take(j + 1);
    let more = temp_scope(temps, n).skip(j + 1);
    assert(env =~= upto + more);
    assert forall|k: int| 0 <= k < more.len() implies (#[trigger] more[k]).0 != name by {
        assert(more[k].0 == temp_name((n + 1 + (j + 1 + k)) as nat));
        if more[k].0 == name {
            temp_names_are_distinct((n + 1 + (j + 1 + k)) as nat, (n + 1 + j) as nat);
        }
    }
    find_before(upto, more, name);
    assert(upto.last() == (name, temps[j]));
    assert(find(upto, name) == Some(upto.len() - 1));
    assert(env[upto.len() - 1] == upto[upto.len() - 1]);
}

/// Whether a term is an atom of the program, or a temporary with a number up to `c`.
spec fn is_named(a: Term, n: nat, c: nat) -> bool {
    &&& shaped(a)
    &&& is_atom_op(a.op)
    &&& no_temps(a) || exists|j: nat| n < j <= c && a == t_var(#[trigger] temp_name(j))
}

/// What is named is seen alike with more temporaries in scope.
proof fn named_stays_seen(
    q: Machine,
    h: Cells,
    temps: Seq<Val>,
    more: Seq<Val>,
    n: nat,
    a: Term,
)
    requires
        is_named(a, n, n + temps.len()),
    ensures
        seen_value(with_temps(Machine { heap: h, ..q }, temps + more, n), a) == seen_value(
            with_temps(q, temps, n),
            a,
        ),
        no_temps(a) ==> seen_value(with_temps(q, temps, n), a) == seen_value(q, a),
{
    let q2 = Machine { heap: h, ..q };
    if a.op == Op::Var {
        if no_temps(a) {
            let name = a.names[0];
            assert forall|c: nat| name != #[trigger] temp_name(c) by {
                assert(!mentions(a, temp_name(c)));
            }
            temps_hide_nothing(q, temps, n, name);
            temps_hide_nothing(q2, temps + more, n, name);
            assert(lookup(q2, name) == lookup(q, name));
        } else {
            let j = choose|j: nat| n < j <= n + temps.len() && a == t_var(#[trigger] temp_name(j));
            let k = j - n - 1;
            assert(temp_name((n + 1 + k) as nat) == temp_name(j));
            a_temp_is_found(q, temps, n, k);
            a_temp_is_found(q2, temps + more, n, k);
            assert((temps + more)[k] == temps[k]);
            assert(a.names[0] == temp_name(j));
        }
    }
}

proof fn binary_anywhere(q: Machine, env: Scope, op: BinOp, a: Val, b: Val)
    ensures
        binary(Machine { env, ..q }, op, a, b) == (Machine { env, ..binary(q, op, a, b) }),
{
}

proof fn exchanged_anywhere(q: Machine, env: Scope, op: Op, vs: Seq<Val>)
    ensures
        exchanged(Machine { env, ..q }, op, vs) == (Machine { env, ..exchanged(q, op, vs) }),
{
}

proof fn on_ref_anywhere(q: Machine, env: Scope, op: Op, vs: Seq<Val>)
    ensures
        on_ref(Machine { env, ..q }, op, vs) == (Machine { env, ..on_ref(q, op, vs) }),
{
}

proof fn on_array_anywhere(q: Machine, env: Scope, op: Op, vs: Seq<Val>)
    ensures
        on_array(Machine { env, ..q }, op, vs) == (Machine { env, ..on_array(q, op, vs) }),
{
}

proof fn shown_anywhere(q: Machine, env: Scope, v: Val)
    ensures
        shown(Machine { env, ..q }, v) == (Machine { env, ..shown(q, v) }),
{
}

proof fn on_text_anywhere(q: Machine, env: Scope, op: Op, vs: Seq<Val>)
    ensures
        on_text(Machine { env, ..q }, op, vs) == (Machine { env, ..on_text(q, op, vs) }),
{
}

/// An operator does not look at the scope it is applied in.
pub(crate) proof fn applied_anywhere(q: Machine, env: Scope, op: Op, names: Seq<Name>, vs: Seq<Val>)
    requires
        op != Op::Call,
        op != Op::CtorReuse,
    ensures
        applied(Machine { env, ..q }, op, names, vs) == (Machine {
            env,
            ..applied(q, op, names, vs)
        }),
{
    match op {
        Op::Binary(o) => {
            binary_anywhere(q, env, o, vs[0], vs[1]);
        },
        Op::Unary(_) | Op::Ctor => {},
        Op::TaskJoin | Op::ChannelSend | Op::ChannelRecv => {
            exchanged_anywhere(q, env, op, vs);
        },
        Op::RefNew | Op::RefGet | Op::RefSet => {
            on_ref_anywhere(q, env, op, vs);
        },
        Op::ArrayPush | Op::ArrayPop | Op::ArraySet | Op::ArrayRemove | Op::ArrayPushReuse
        | Op::ArrayPopReuse | Op::ArraySetReuse | Op::ArrayRemoveReuse => {
            on_array_anywhere(q, env, op, vs);
        },
        Op::ToString => {
            shown_anywhere(q, env, vs[0]);
        },
        _ => {
            on_text_anywhere(q, env, op, vs);
        },
    }
}

/// Operands that are seen to be `vs` are worth `vs`.
proof fn atoms_are_worth_what_is_seen(q: Machine, t: Term, vs: Seq<Val>, n: nat)
    requires
        n <= t.kids.len(),
        vs.len() == t.kids.len(),
        forall|j: int| 0 <= j < n ==> is_atom_op((#[trigger] t.kids[j]).op) && seen_value(
            q,
            t.kids[j],
        ) == Some(vs[j]) && meets(vs[j], demand(t.op, j as nat)),
    ensures
        worths(q, t, n) == Some((q.heap, vs.take(n as int))),
    decreases n,
{
    if n > 0 {
        atoms_are_worth_what_is_seen(q, t, vs, (n - 1) as nat);
        assert(is_atom_op(t.kids[n - 1].op));
        assert(Machine { heap: q.heap, ..q } == q);
        assert(worth(q, t.kids[n - 1]) == Some((q.heap, vs[n - 1])));
        assert(vs.take(n - 1).push(vs[n - 1]) =~= vs.take(n as int));
    } else {
        assert(vs.take(0) =~= Seq::<Val>::empty());
    }
}

proof fn worths_fit(q: Machine, t: Term, n: nat, j: int)
    requires
        0 <= j < n <= t.kids.len(),
        worths(q, t, n) is Some,
    ensures
        (worths(q, t, n)->0).1.len() == n,
        meets((worths(q, t, n)->0).1[j], demand(t.op, j as nat)),
    decreases n,
{
    first_worths(q, t, (n - 1) as nat, n);
    if j < n - 1 {
        worths_fit(q, t, (n - 1) as nat, j);
        assert((worths(q, t, (n - 1) as nat)->0).1[j] == (worths(q, t, n)->0).1[j]);
    }
}

/// Whether the operands of a node are building terms without temporaries, evaluated as part of
/// the node.
pub open spec fn operands_build(t: Term) -> bool {
    forall|j: int|
        0 <= j < t.kids.len() ==> builds(#[trigger] t.kids[j]) && no_temps(t.kids[j]) && slot_of(
            t.op,
            j,
        ) == Slot::Inline
}

/// Naming the allocations in a building term: its bindings leave the heap that it would leave,
/// and what is left of it is seen to be what it is worth.
proof fn hoisting_keeps_the_worth(q: Machine, n: nat, temps: Seq<Val>, t: Term) -> (more: Seq<Val>)
    requires
        builds(t),
        no_temps(t),
        q == at_rest(q),
        worth(q, t) is Some,
    ensures
        ({
            let f = hoist_term(t, n + temps.len());
            let (h, v) = worth(q, t)->0;
            let end = with_temps(Machine { heap: h, ..q }, temps + more, n);
            &&& f.count == n + temps.len() + more.len()
            &&& f.binds.len() == more.len()
            &&& after(with_temps(q, temps, n), f.binds, f.binds.len()) == Some(end)
            &&& forall|j: int| 0 <= j < f.binds.len() ==> builds((#[trigger] f.binds[j]).1)
            &&& is_named(f.term, n, f.count)
            &&& seen_value(end, f.term) == Some(v)
        }),
    decreases t, t.kids.len() + 2,
{
    let c = n + temps.len();
    let start = with_temps(q, temps, n);
    let f = hoist_term(t, c);
    let flat = flatten_term(t, c);
    let (h, v) = worth(q, t)->0;
    if is_atom_op(t.op) {
        assert(t.kids.len() == 0 && t.arms.len() == 0);
        assert(flat.term.kids =~= t.kids);
        assert(flat.term.arms =~= t.arms);
        assert(flat.term == t);
        assert(f == flat);
        assert(temps + Seq::<Val>::empty() =~= temps);
        assert(Machine { heap: h, ..q } == q);
        named_stays_seen(q, h, temps, Seq::empty(), n, t);
        Seq::empty()
    } else {
        assert(t.arms.len() == 0);
        let len = t.kids.len();
        assert forall|i: int| 0 <= i < len implies builds(#[trigger] t.kids[i]) && no_temps(
            t.kids[i],
        ) && slot_of(t.op, i) == Slot::Inline by {
            assert forall|c: nat| !mentions(t.kids[i], #[trigger] temp_name(c)) by {
                assert(!mentions(t, temp_name(c)));
            }
        }
        if t.op == Op::Str {
            assert(len == 0);
            assert(worths(q, t, len) is Some);
        }
        assert(operands_build(t));
        let some = hoisting_keeps_the_worths(q, n, temps, t, len);
        let k = flatten_kids(t, len, c);
        let (h1, vs) = worths(q, t, len)->0;
        let all = temps + some;
        let now = Machine { heap: h1, ..q };
        let mid = with_temps(now, all, n);
        let arms = flatten_arms(t, 0, k.count);
        assert(flat.term == Term { kids: k.kids, arms: arms.arms, ..t });
        assert(arms.arms =~= t.arms);
        assert(flat.count == k.count);
        assert forall|i: int| 0 <= i < flat.term.kids.len() implies is_atom_op(
            #[trigger] flat.term.kids[i].op,
        ) by {
            assert(is_named(k.kids[i], n, k.count));
        }
        assert(hoistable_term(flat.term));
        assert(shaped(flat.term));
        assert(builds(flat.term)) by {
            assert forall|i: int| 0 <= i < flat.term.kids.len() implies builds(
                #[trigger] flat.term.kids[i],
            ) by {
                assert(is_named(k.kids[i], n, k.count));
            }
        }
        // The rest of the term is worth the same with its operands named.
        assert(worth(mid, flat.term) == Some((h, v))) by {
            if t.op != Op::Str {
                first_worths(q, t, len, len);
                assert forall|j: int| 0 <= j < len implies is_atom_op(
                    (#[trigger] flat.term.kids[j]).op,
                ) && seen_value(mid, flat.term.kids[j]) == Some(vs[j]) && meets(
                    vs[j],
                    demand(t.op, j as nat),
                ) by {
                    assert(is_named(k.kids[j], n, k.count));
                    worths_fit(q, t, len, j);
                }
                atoms_are_worth_what_is_seen(mid, flat.term, vs, len);
                assert(vs.take(len as int) =~= vs);
                assert(Machine { heap: mid.heap, ..mid } == mid);
                applied_anywhere(now, mid.env, t.op, t.names, vs);
                assert(mid == Machine { env: mid.env, ..now });
            }
        }
        let name = temp_name(k.count + 1);
        let binds = k.binds.push((name, flat.term));
        assert(f.binds == binds);
        after_prefix(start, k.binds, binds, k.binds.len());
        assert(binds[binds.len() - 1] == (name, flat.term));
        let more = some.push(v);
        let end = with_temps(Machine { heap: h, ..q }, temps + more, n);
        assert(temp_scope(temps + more, n) =~= temp_scope(all, n).push((name, v)));
        assert(end.env =~= mid.env.push((name, v)));
        assert(after(start, binds, binds.len()) == Some(end));
        assert forall|j: int| 0 <= j < binds.len() implies builds((#[trigger] binds[j]).1) by {
            if j < k.binds.len() {
                assert(binds[j] == k.binds[j]);
            }
        }
        a_temp_is_found(Machine { heap: h, ..q }, temps + more, n, (temps + more).len() - 1);
        assert(temp_name((n + 1 + ((temps + more).len() - 1)) as nat) == name);
        assert(shaped(t_var(name)));
        assert(f.term == t_var(temp_name(f.count)));
        more
    }
}

/// Naming the allocations in the first `i` operands of a node.
#[verifier::rlimit(40)]
#[verifier::spinoff_prover]
proof fn hoisting_keeps_the_worths(q: Machine, n: nat, temps: Seq<Val>, t: Term, i: nat) -> (more:
    Seq<Val>)
    requires
        i <= t.kids.len(),
        operands_build(t),
        q == at_rest(q),
        worths(q, t, i) is Some,
    ensures
        ({
            let k = flatten_kids(t, i, n + temps.len());
            let (h, vs) = worths(q, t, i)->0;
            let end = with_temps(Machine { heap: h, ..q }, temps + more, n);
            &&& k.count == n + temps.len() + more.len()
            &&& k.binds.len() == more.len()
            &&& k.kids.len() == i
            &&& vs.len() == i
            &&& after(with_temps(q, temps, n), k.binds, k.binds.len()) == Some(end)
            &&& forall|j: int| 0 <= j < k.binds.len() ==> builds((#[trigger] k.binds[j]).1)
            &&& forall|j: int|
                0 <= j < i ==> is_named(#[trigger] k.kids[j], n, k.count) && seen_value(
                    end,
                    k.kids[j],
                ) == Some(vs[j])
        }),
    decreases t, i,
{
    let c = n + temps.len();
    let start = with_temps(q, temps, n);
    if i == 0 {
        assert(temps + Seq::<Val>::empty() =~= temps);
        assert(Machine { heap: q.heap, ..q } == q);
        Seq::empty()
    } else {
        let p = (i - 1) as nat;
        let some = hoisting_keeps_the_worths(q, n, temps, t, p);
        let kp = flatten_kids(t, p, c);
        let (h1, ws) = worths(q, t, p)->0;
        let all = temps + some;
        let now = Machine { heap: h1, ..q };
        let mid = with_temps(now, all, n);
        let kid = t.kids[i - 1];
        assert(builds(kid) && no_temps(kid) && slot_of(t.op, i - 1) == Slot::Inline);
        assert(n + all.len() == kp.count);
        let rest = hoisting_keeps_the_worth(now, n, all, kid);
        let f = hoist_term(kid, kp.count);
        let k = flatten_kids(t, i, c);
        let (h, v) = worth(now, kid)->0;
        let more = some + rest;
        let end = with_temps(Machine { heap: h, ..q }, temps + more, n);
        assert(temps + more =~= all + rest);
        assert(k.binds == kp.binds + f.binds);
        assert(k.kids == kp.kids.push(f.term));
        after_more(start, kp.binds, f.binds, f.binds.len());
        assert(k.binds.len() == kp.binds.len() + f.binds.len());
        assert forall|j: int| 0 <= j < k.binds.len() implies builds((#[trigger] k.binds[j]).1) by {
            if j < kp.binds.len() {
                assert(k.binds[j] == kp.binds[j]);
            } else {
                assert(k.binds[j] == f.binds[j - kp.binds.len()]);
            }
        }
        assert forall|j: int| 0 <= j < i implies is_named(#[trigger] k.kids[j], n, k.count)
            && seen_value(end, k.kids[j]) == Some(ws.push(v)[j]) by {
            if j < p {
                assert(k.kids[j] == kp.kids[j]);
                assert(is_named(kp.kids[j], n, kp.count));
                named_stays_seen(now, h, all, rest, n, kp.kids[j]);
                if !no_temps(kp.kids[j]) {
                    let x = choose|x: nat| n < x <= kp.count && kp.kids[j] == t_var(
                        #[trigger] temp_name(x),
                    );
                    assert(n < x <= k.count && k.kids[j] == t_var(temp_name(x)));
                }
            }
        }
        more
    }
}

/// A node evaluates its operands to what they are worth, and is then applied to them.
proof fn a_node_is_applied(q: Machine, below: Seq<FrameTerm>, t: Term) -> (n: nat)
    requires
        shaped(t),
        takes_operands(t.op),
        t.op != Op::CtorReuse,
        forall|j: int| 0 <= j < t.kids.len() ==> builds(#[trigger] t.kids[j]),
        q == at_rest(q),
    ensures
        match worths(q, t, t.kids.len()) {
            Some((h, vs)) => run(over(q, below).evaluate(t), n) == applied(
                over(Machine { heap: h, ..q }, below),
                t.op,
                t.names,
                vs,
            ),
            None => held_up(run(over(q, below).evaluate(t), n)),
        },
{
    let m = over(q, below);
    let c = m.evaluate(t);
    let len = t.kids.len();
    assert(m.stack =~= below);
    assert(c.idle() == m);
    assert(Machine { heap: q.heap, ..q } == q);
    assert(run(c, 1) == step(c)) by {
        assert(run(step(c), 0) == step(c));
    }
    if t.op == Op::Call && calls_by_name(m, t) {
        let f = Val::Function(t.kids[0].names[0]);
        assert(lookup(q, t.kids[0].names[0]) == lookup(m, t.kids[0].names[0]));
        assert(is_atom_op(t.kids[0].op));
        assert(worth(q, t.kids[0]) == Some((q.heap, f)));
        assert(worths(q, t, 0) == Some((q.heap, Seq::<Val>::empty())));
        assert(Seq::<Val>::empty().push(f) =~= seq![f]);
        assert(worths(q, t, 1) == Some((q.heap, seq![f])));
        assert(step(c) == operands(m, t.op, t.names, seq![f], t.kids.subrange(1, len as int)));
        let n = operands_give_their_worths(q, below, t, 1, q.heap, seq![f]);
        steps_add_up(c, 1, n);
        1 + n
    } else {
        assert(t.kids.subrange(0, len as int) =~= t.kids);
        assert(step(c) == operands(m, t.op, t.names, Seq::empty(), t.kids));
        let n = operands_give_their_worths(q, below, t, 0, q.heap, Seq::empty());
        steps_add_up(c, 1, n);
        1 + n
    }
}

/// Naming intermediate allocations keeps the order of evaluation. A node on atoms and
/// allocations, one inside another, comes to apply its operator to the same operands as its
/// flattened form, with the same heap: the allocations were made in the same order. The
/// flattened form has its temporaries in scope then.
pub proof fn naming_keeps_the_order_of_evaluation(m: Machine, t: Term, n: nat) -> (r: (
    nat,
    nat,
    Seq<Val>,
))
    requires
        shaped(t),
        takes_operands(t.op),
        t.op != Op::CtorReuse,
        operands_build(t),
        worths(at_rest(m), t, t.kids.len()) is Some,
    ensures
        ({
            let (a, b, temps) = r;
            let (h, vs) = worths(at_rest(m), t, t.kids.len())->0;
            let now = Machine { heap: h, ..at_rest(m) };
            &&& run(started(m, t), a) == applied(now, t.op, t.names, vs)
            &&& run(started(m, region_term(t, n).term), b) == applied(
                over(with_temps(now, temps, n), unbinds(temps.len())),
                t.op,
                t.names,
                vs,
            )
        }),
{
    let q = at_rest(m);
    let len = t.kids.len();
    let (h, vs) = worths(q, t, len)->0;
    let now = Machine { heap: h, ..q };
    let none = Seq::<FrameTerm>::empty();
    assert(over(q, none).stack =~= q.stack);
    assert(over(now, none).stack =~= now.stack);
    assert(started(m, t) == over(q, none).evaluate(t));
    assert(over(now, none) == now);
    let a = a_node_is_applied(q, none, t);
    let k = flatten_kids(t, len, n);
    let temps = hoisting_keeps_the_worths(q, n, Seq::empty(), t, len);
    let flat = flatten_term(t, n);
    assert(t.arms.len() == 0);
    assert(flat.term == Term { kids: k.kids, arms: flatten_arms(t, 0, k.count).arms, ..t });
    assert(flat.term.arms =~= t.arms);
    assert(with_temps(q, Seq::empty(), n).env =~= q.env);
    assert(Seq::<Val>::empty() + temps =~= temps);
    let end = with_temps(now, temps, n);
    let b = bindings_come_first(q, none, k.binds, flat.term);
    assert(none + unbinds(k.binds.len()) =~= unbinds(temps.len()));
    let u = unbinds(temps.len());
    first_worths(q, t, len, len);
    assert forall|j: int| 0 <= j < len implies is_atom_op((#[trigger] flat.term.kids[j]).op)
        && seen_value(end, flat.term.kids[j]) == Some(vs[j]) && meets(
        vs[j],
        demand(t.op, j as nat),
    ) && builds(flat.term.kids[j]) by {
        assert(is_named(k.kids[j], n, k.count));
        worths_fit(q, t, len, j);
    }
    atoms_are_worth_what_is_seen(end, flat.term, vs, len);
    assert(vs.take(len as int) =~= vs);
    assert(end == at_rest(end));
    let c = a_node_is_applied(end, u, flat.term);
    assert(Machine { heap: end.heap, ..end } == end);
    let start = started(m, region_term(t, n).term);
    assert(start == over(q, none).evaluate(wrap(k.binds, flat.term)));
    steps_add_up(start, b, c);
    (a, b + c, temps)
}

/// Leaving the scopes of temporaries with a value leaves the scope round them.
proof fn temps_are_left(x: Machine, temps: Seq<Val>, n: nat, v: Val)
    requires
        x.stack.len() == 0,
        x.control == ControlTerm::Return(v),
    ensures
        run(over(with_temps(x, temps, n), unbinds(temps.len())), temps.len()) == x,
    decreases temps.len(),
{
    let c = over(with_temps(x, temps, n), unbinds(temps.len()));
    if temps.len() == 0 {
        assert(c.env =~= x.env);
        assert(c.stack =~= x.stack);
        assert(run(c, 0) == c);
    } else {
        let fewer = temps.drop_last();
        let d = over(with_temps(x, fewer, n), unbinds(fewer.len()));
        assert(c.stack.last() == FrameTerm::Unbind { count: 1 });
        assert(c.stack.drop_last() =~= d.stack);
        assert(c.env.take(c.env.len() - 1) =~= d.env);
        assert(step(c) == d);
        temps_are_left(x, fewer, n, v);
        assert(run(c, temps.len()) == run(step(c), (temps.len() - 1) as nat));
    }
}

pub(crate) proof fn first_settled(m: Machine, n: nat) -> (k: nat)
    requires
        settled(run(m, n)),
    ensures
        k <= n,
        takes_steps(m, k),
        run(m, k) == run(m, n),
    decreases n,
{
    if settled(m) {
        settled_stays(m, n);
        assert(run(m, 0) == m);
        0
    } else {
        let k = first_settled(step(m), (n - 1) as nat);
        assert(run(m, k + 1) == run(step(m), k));
        assert forall|i: nat| i < k + 1 implies !settled(#[trigger] run(m, i)) by {
            if i > 0 {
                assert(run(m, i) == run(step(m), (i - 1) as nat));
            } else {
                assert(run(m, 0) == m);
            }
        }
        k + 1
    }
}

/// What an application comes to in one scope, it comes to in another.
pub(crate) proof fn applied_comes_to_the_same(
    now: Machine,
    env: Scope,
    op: Op,
    names: Seq<Name>,
    vs: Seq<Val>,
    j: nat,
    v: Val,
)
    requires
        op != Op::CtorReuse,
        now == at_rest(now),
        run(applied(now, op, names, vs), j).progress() == Progress::Done(v),
    ensures
        ({
            let end = run(applied(now, op, names, vs), j);
            &&& end.env == now.env
            &&& run(applied(Machine { env, ..now }, op, names, vs), j) == (Machine { env, ..end })
        }),
{
    let r = applied(now, op, names, vs);
    let elsewhere = applied(Machine { env, ..now }, op, names, vs);
    if op == Op::Call && r.control is Eval {
        let x = Machine { stack: Seq::empty(), ..r };
        let f = FrameTerm::Restore { env: now.env };
        let g = FrameTerm::Restore { env };
        assert(over(x, seq![f]).stack =~= r.stack);
        assert(over(x, seq![g]).stack =~= elsewhere.stack);
        let y = steps_within_a_call(x, now.env, env, false, j);
        assert(y.1) by {
            if !y.1 {
                assert(over(y.0, seq![f]).stack.len() > 0);
            }
        }
    } else {
        if op == Op::Call {
            assert(r.control is Failed);
        } else {
            super::erasure::applied_answers(now, op, names, vs);
            applied_anywhere(now, env, op, names, vs);
        }
        if held_up(r) {
            held_up_stays(r, j);
        }
        settled_stays(r, j);
        settled_stays(elsewhere, j);
    }
}

/// Naming intermediate allocations keeps the meaning: what a node on atoms and allocations
/// evaluates to, its flattened form evaluates to as well, and leaves the same machine.
pub proof fn naming_keeps_the_meaning(m: Machine, t: Term, n: nat, k: nat, v: Val) -> (b: nat)
    requires
        shaped(t),
        takes_operands(t.op),
        t.op != Op::CtorReuse,
        operands_build(t),
        run(started(m, t), k).progress() == Progress::Done(v),
    ensures
        run(started(m, region_term(t, n).term), b) == run(started(m, t), k),
{
    let q = at_rest(m);
    let start = started(m, t);
    let end = run(start, k);
    let none = Seq::<FrameTerm>::empty();
    assert(over(q, none).stack =~= q.stack);
    assert(start == over(q, none).evaluate(t));
    let a = a_node_is_applied(q, none, t);
    if worths(q, t, t.kids.len()) is None {
        if k >= a {
            steps_add_up(start, a, (k - a) as nat);
            held_up_stays(run(start, a), (k - a) as nat);
        } else {
            steps_add_up(start, k, (a - k) as nat);
            settled_stays(end, (a - k) as nat);
        }
    }
    let (a, b, temps) = naming_keeps_the_order_of_evaluation(m, t, n);
    let (h, vs) = worths(q, t, t.kids.len())->0;
    let now = Machine { heap: h, ..q };
    let r = applied(now, t.op, t.names, vs);
    let j: nat = if k >= a {
        (k - a) as nat
    } else {
        0
    };
    if k >= a {
        steps_add_up(start, a, j);
    } else {
        steps_add_up(start, k, (a - k) as nat);
        settled_stays(end, (a - k) as nat);
        assert(run(r, 0) == r);
    }
    assert(run(r, j) == end);
    let scope = with_temps(now, temps, n);
    let u = unbinds(temps.len());
    assert(scope == Machine { env: scope.env, ..now });
    applied_comes_to_the_same(now, scope.env, t.op, t.names, vs, j, v);
    let there = applied(scope, t.op, t.names, vs);
    let last = Machine { env: scope.env, ..end };
    assert(run(there, j) == last);
    assert(settled(last));
    let i = first_settled(there, j);
    an_evaluation_is_local(there, u, i);
    applied_over(scope, u, t.op, t.names, vs);
    assert(last == with_temps(end, temps, n)) by {
        assert(last.env =~= with_temps(end, temps, n).env);
    }
    temps_are_left(end, temps, n, v);
    let flat = started(m, region_term(t, n).term);
    steps_add_up(flat, b, i);
    steps_add_up(flat, b + i, temps.len());
    b + i + temps.len()
}

} // verus!
