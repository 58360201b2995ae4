//! Lifting an assignment out of an operand keeps what a program does.

use vstd::prelude::*;
use crate::ir::{shaped, t_assign, ArmTerm, BinOp, Name, Op, Term};
use crate::liftassign::{all_commute, can_lift, commutes, pin, remainder};
use super::context::{an_evaluation_is_local, over, takes_steps};
use super::erasure::applied_answers;
use super::laws::{bound_names, evaluating_leaves_the_scope, found_is_bound, steps_add_up};
use super::semantics::{
    chosen, demand, find, find_function, lookup, meets, operands, run, started, step, Progress,
};
use super::state::{ControlTerm, FrameTerm, Machine, Scope};
use super::value::Val;

verus! {

/// The operators that evaluate all their operands in order and are then applied.
pub open spec fn takes_operands(op: Op) -> bool {
    match op {
        Op::Binary(BinOp::And) | Op::Binary(BinOp::Or) => false,
        Op::Unary(_) | Op::Binary(_) | Op::Call | Op::Ctor | Op::CtorReuse | Op::TaskJoin
        | Op::ChannelSend | Op::ChannelRecv | Op::RefNew | Op::RefGet | Op::RefSet | Op::Index
        | Op::ArrayLen | Op::ArrayPush | Op::ArrayPop | Op::ArraySet | Op::ArrayRemove
        | Op::StrConcat | Op::StrRunes | Op::StrTrim | Op::StrSplit | Op::StrToUpper
        | Op::StrToLower | Op::StrContains | Op::StrStartsWith | Op::StrEndsWith | Op::StrReplace
        | Op::ToString => true,
        _ => false,
    }
}

/// Whether a node calls a function by its name.
pub open spec fn calls_by_name(m: Machine, t: Term) -> bool {
    &&& t.op == Op::Call
    &&& t.kids.len() > 0
    &&& t.kids[0].op == Op::Var
    &&& find(m.env, t.kids[0].names[0]) is None
    &&& find(m.globals, t.kids[0].names[0]) is None
    &&& find_function(m.functions, t.kids[0].names[0]) is Some
}

/// How many operands of a node need no evaluation at all: the function that it calls by name.
pub open spec fn ready_operands(m: Machine, t: Term) -> Seq<Val> {
    if calls_by_name(m, t) {
        seq![Val::Function(t.kids[0].names[0])]
    } else {
        Seq::empty()
    }
}

/// The value of a term whose evaluation is one look: a variable that is bound, or a literal
/// that needs no memory.
pub open spec fn seen_value(m: Machine, t: Term) -> Option<Val> {
    match t.op {
        Op::Var => match lookup(m, t.names[0]) {
            Ok(v) => Some(v),
            Err(_) => None,
        },
        Op::Int(n) => Some(Val::Int(n)),
        Op::Float(b) => Some(Val::Float(b)),
        Op::Bool(b) => Some(Val::Bool(b)),
        Op::Unit => Some(Val::Unit),
        _ => None,
    }
}

/// Whether the operands of a node before place `j` are seen to be `ws`, and fit.
pub open spec fn sees(m: Machine, t: Term, j: int, ws: Seq<Val>) -> bool {
    &&& ws.len() == j
    &&& forall|i: int|
        ready_operands(m, t).len() <= i < j ==> seen_value(m, #[trigger] t.kids[i]) == Some(ws[i])
    &&& forall|i: int|
        ready_operands(m, t).len() <= i < j ==> meets(#[trigger] ws[i], demand(t.op, i as nat))
    &&& ready_operands(m, t).len() <= j
    &&& (calls_by_name(m, t) ==> ws[0] == ready_operands(m, t)[0])
}

/// A machine that is about to evaluate operand `i` of a node, when those before it are `ws`.
pub open spec fn at_operand(m: Machine, t: Term, i: int, ws: Seq<Val>) -> Machine {
    m.push(
        FrameTerm::Operands {
            op: t.op,
            names: t.names,
            done: ws.take(i),
            todo: t.kids.subrange(i + 1, t.kids.len() as int),
        },
    ).evaluate(t.kids[i])
}

proof fn two_steps(m: Machine)
    ensures
        run(m, 1) == step(m),
        run(m, 2) == step(step(m)),
{
    reveal_with_fuel(run, 3);
}

/// Operands that are seen take two steps each.
proof fn seen_operands_take_two_steps(m: Machine, t: Term, j: int, ws: Seq<Val>)
    requires
        takes_operands(t.op),
        0 <= j < t.kids.len(),
        sees(m, t, j, ws),
    ensures
        run(m.evaluate(t), (1 + 2 * (j - ready_operands(m, t).len())) as nat) == at_operand(
            m,
            t,
            j,
            ws,
        ),
    decreases j,
{
    let start = m.evaluate(t);
    let first = ready_operands(m, t).len() as int;
    two_steps(start);
    if j == first {
        assert(m.idle().push(
            FrameTerm::Operands {
                op: t.op,
                names: t.names,
                done: ws.take(j),
                todo: t.kids.subrange(j + 1, t.kids.len() as int),
            },
        ).evaluate(t.kids[j]) == at_operand(m, t, j, ws));
        if calls_by_name(m, t) {
            let todo = t.kids.subrange(1, t.kids.len() as int);
            assert(ws.take(j) =~= ready_operands(m, t));
            assert(todo[0] == t.kids[1]);
            assert(todo.subrange(1, todo.len() as int) =~= t.kids.subrange(
                2,
                t.kids.len() as int,
            ));
        } else {
            assert(ws.take(j) =~= Seq::<Val>::empty());
        }
    } else {
        let i = j - 1;
        let before = ws.take(i);
        assert(before.take(i) =~= ws.take(i));
        assert forall|x: int| first <= x < i implies seen_value(m, #[trigger] t.kids[x]) == Some(
            before[x],
        ) by {
            assert(ws[x] == before[x]);
        }
        assert forall|x: int| first <= x < i implies meets(
            #[trigger] before[x],
            demand(t.op, x as nat),
        ) by {
            assert(ws[x] == before[x]);
        }
        seen_operands_take_two_steps(m, t, i, before);
        let q = at_operand(m, t, i, before);
        let w = ws[i];
        let rest = t.kids.subrange(i + 1, t.kids.len() as int);
        assert(seen_value(m, t.kids[i]) == Some(w));
        let f = FrameTerm::Operands { op: t.op, names: t.names, done: ws.take(i), todo: rest };
        let q1 = step(q);
        assert(q1 == m.push(f).give(w));
        assert(q1.stack.drop_last() =~= m.stack);
        assert(rest[0] == t.kids[j]);
        assert(rest.subrange(1, rest.len() as int) =~= t.kids.subrange(
            j + 1,
            t.kids.len() as int,
        ));
        assert(ws.take(i).push(w) =~= ws.take(j));
        assert(meets(w, demand(t.op, i as nat)));
        assert(ws.take(i).len() == i);
        assert(step(q1) == at_operand(m, t, j, ws));
        two_steps(q);
        steps_add_up(start, (1 + 2 * (i - first)) as nat, 2);
    }
}

/// Whether no globals are being loaded.
pub open spec fn loads_nothing(s: Seq<FrameTerm>) -> bool {
    forall|i: int| 0 <= i < s.len() ==> !(#[trigger] s[i] is Globals)
}

/// Whether a machine has the functions and globals of another, and loads nothing.
spec fn same_definitions(r: Machine, m: Machine) -> bool {
    &&& r.functions == m.functions
    &&& r.globals == m.globals
    &&& loads_nothing(r.stack)
}

proof fn choosing_keeps_definitions(m: Machine, tag: Name, fields: Seq<Val>, arms: Seq<ArmTerm>)
    requires
        loads_nothing(m.stack),
    ensures
        same_definitions(chosen(m, tag, fields, arms), m),
    decreases arms.len(),
{
    if arms.len() > 0 {
        choosing_keeps_definitions(m, tag, fields, arms.subrange(1, arms.len() as int));
    }
}

proof fn operands_keep_definitions(
    m: Machine,
    op: Op,
    names: Seq<Name>,
    done: Seq<Val>,
    todo: Seq<Term>,
)
    requires
        loads_nothing(m.stack),
    ensures
        same_definitions(operands(m, op, names, done, todo), m),
{
    if todo.len() == 0 && op != Op::Call {
        applied_answers(m, op, names, done);
    }
}

/// No step changes which functions and globals there are, unless globals are being loaded.
#[verifier::rlimit(40)]
proof fn a_step_keeps_the_definitions(m: Machine)
    requires
        loads_nothing(m.stack),
    ensures
        same_definitions(step(m), m),
{
    match m.control {
        ControlTerm::Eval(t) => {
            let q = m.idle();
            operands_keep_definitions(q, t.op, t.names, Seq::empty(), t.kids);
            operands_keep_definitions(
                q,
                t.op,
                t.names,
                seq![Val::Function(t.kids[0].names[0])],
                t.kids.subrange(1, t.kids.len() as int),
            );
            assert forall|addr: usize| same_definitions(
                #[trigger] operands(q, t.op, t.names, seq![Val::HeapRef(addr)], t.kids),
                q,
            ) by {
                operands_keep_definitions(q, t.op, t.names, seq![Val::HeapRef(addr)], t.kids);
            }
        },
        ControlTerm::Return(v) => {
            if m.stack.len() > 0 {
                let q = m.idle().pop();
                assert(!(m.stack[m.stack.len() - 1] is Globals));
                match m.stack.last() {
                    FrameTerm::Operands { op, names, done, todo } => {
                        operands_keep_definitions(q, op, names, done.push(v), todo);
                    },
                    FrameTerm::Arms { arms } => {
                        assert forall|tag: Name, fields: Seq<Val>| same_definitions(
                            #[trigger] chosen(q, tag, fields, arms),
                            q,
                        ) by {
                            choosing_keeps_definitions(q, tag, fields, arms);
                        }
                    },
                    FrameTerm::Guard { tag, fields, bound, rest, .. } => {
                        choosing_keeps_definitions(q.unbind(bound), tag, fields, rest);
                    },
                    _ => {},
                }
            }
        },
        _ => {},
    }
}

/// No evaluation changes which functions and globals there are.
pub proof fn steps_keep_the_definitions(m: Machine, n: nat)
    requires
        loads_nothing(m.stack),
    ensures
        run(m, n).functions == m.functions,
        run(m, n).globals == m.globals,
    decreases n,
{
    if n > 0 {
        a_step_keeps_the_definitions(m);
        steps_keep_the_definitions(step(m), (n - 1) as nat);
    }
}

/// Where a name is bound depends on which names are bound, not on their values.
pub(crate) proof fn same_names_are_found_alike(a: Scope, b: Scope, name: Name)
    requires
        bound_names(a) == bound_names(b),
    ensures
        find(a, name) == find(b, name),
    decreases a.len(),
{
    assert(a.len() == bound_names(a).len() && b.len() == bound_names(b).len());
    if a.len() > 0 {
        assert(a.last().0 == bound_names(a).last() && b.last().0 == bound_names(b).last());
        assert(bound_names(a.drop_last()) =~= bound_names(a).drop_last());
        assert(bound_names(b.drop_last()) =~= bound_names(b).drop_last());
        same_names_are_found_alike(a.drop_last(), b.drop_last(), name);
    }
}

/// Rebinding a name keeps which names are bound.
proof fn rebinding_keeps_names(s: Scope, i: int, name: Name, v: Val)
    requires
        0 <= i < s.len(),
        s[i].0 == name,
    ensures
        bound_names(s.update(i, (name, v))) == bound_names(s),
{
    assert(bound_names(s.update(i, (name, v))) =~= bound_names(s));
}

/// A machine in which a value has been computed and assigned to the name bound at `at`.
pub open spec fn assigned(m: Machine, end: Machine, at: int, name: Name, value: Val) -> Machine {
    Machine { stack: m.stack, env: end.env.update(at, (name, value)), control: m.control, ..end }
}

/// Assigning a value and going on, in any context, takes two steps more than computing it.
proof fn assigning_takes_two_steps_more(
    m: Machine,
    name: Name,
    v: Term,
    rest: Term,
    steps: nat,
    value: Val,
    at: int,
)
    requires
        takes_steps(started(m, v), steps),
        run(started(m, v), steps).progress() == Progress::Done(value),
        find(run(started(m, v), steps).env, name) == Some(at),
    ensures
        run(m.evaluate(t_assign(name, v, rest)), steps + 2) == assigned(
            m,
            run(started(m, v), steps),
            at,
            name,
            value,
        ).evaluate(rest),
{
    let t = t_assign(name, v, rest);
    let alone = started(m, v);
    let end = run(alone, steps);
    let below = m.stack.push(FrameTerm::AssignRest { name, rest });
    assert(below + alone.stack =~= below);
    assert(t.kids[0] == v && t.kids[1] == rest && t.names[0] == name);
    assert(step(m.evaluate(t)) == over(alone, below));
    an_evaluation_is_local(alone, below, steps);
    assert(below + end.stack =~= below);
    let u = over(end, below);
    assert(u.stack.drop_last() =~= m.stack);
    assert(step(u) == assigned(m, end, at, name, value).evaluate(rest));
    two_steps(m.evaluate(t));
    two_steps(u);
    steps_add_up(m.evaluate(t), 1, steps);
    steps_add_up(m.evaluate(t), 1 + steps, 1);
}

/// Lifting an assignment keeps the meaning: where the operands before it commute with it, a
/// node and its lifted form come to the very same state once the assigned value has been
/// computed and assigned, and go on alike from there.
///
/// The operands before the assignment are variables or literals that need no memory, they
/// fit the operator, and computing the assigned value leaves the variables among them as they
/// were. The assigned value is computed without the host, and the assignment does not stand
/// in the place of a callee.
#[verifier::rlimit(40)]
pub proof fn lifting_keeps_the_meaning(
    m: Machine,
    t: Term,
    j: int,
    n: nat,
    ws: Seq<Val>,
    steps: nat,
    value: Val,
    after: nat,
)
    requires
        takes_operands(t.op),
        t.op == Op::Call ==> j > 0,
        can_lift(t, j),
        all_commute(t, j, t.kids[j].names[0]),
        sees(m, t, j, ws),
        takes_steps(started(m, t.kids[j].kids[0]), steps),
        run(started(m, t.kids[j].kids[0]), steps).progress() == Progress::Done(value),
        sees(run(started(m, t.kids[j].kids[0]), steps), t, j, ws),
        find(m.env, t.kids[j].names[0]) is Some,
    ensures
        ({
            let a = t.kids[j];
            let lifted = t_assign(a.names[0], a.kids[0], remainder(t, j, n));
            let count = steps + 3 + 2 * (j - ready_operands(m, t).len()) + after;
            run(m.evaluate(t), count as nat) == run(m.evaluate(lifted), count as nat)
        }),
{
    let a = t.kids[j];
    let x = a.names[0];
    let v = a.kids[0];
    let r = a.kids[1];
    let t2 = remainder(t, j, n);
    let lifted = t_assign(x, v, t2);
    let d = 2 * (j - ready_operands(m, t).len());
    let alone = started(m, v);
    let end = run(alone, steps);
    // What remains is the node with the assignment's result in its place.
    pinning_nothing(t, x, j as nat, n);
    assert(t2.kids =~= t.kids.update(j, r));
    assert(a.kids =~= seq![v, r] && a.names =~= seq![x]);
    // The scope and the functions are what they were.
    evaluating_leaves_the_scope(m, v, steps);
    steps_keep_the_definitions(alone, steps);
    same_names_are_found_alike(m.env, end.env, x);
    found_is_bound(end.env, x);
    let at = find(end.env, x)->Some_0;
    let m2 = assigned(m, end, at, x, value);
    // The node itself: its operands, then the assignment.
    seen_operands_take_two_steps(m, t, j, ws);
    let f = FrameTerm::Operands {
        op: t.op,
        names: t.names,
        done: ws.take(j),
        todo: t.kids.subrange(j + 1, t.kids.len() as int),
    };
    let inner = m.push(f);
    let goal = m2.push(f).evaluate(r);
    assert(started(inner, v) == alone);
    assigning_takes_two_steps_more(inner, x, v, r, steps, value, at);
    entering_an_assignment(inner, a, x, v, r, steps);
    assert(assigned(inner, end, at, x, value).evaluate(r) == goal);
    steps_add_up(m.evaluate(t), (1 + d) as nat, steps + 2);
    // Its lifted form: the assignment, then the operands.
    assigning_takes_two_steps_more(m, x, v, t2, steps, value, at);
    remaining_operands_are_seen(m, end, m2, t, t2, j, x, at, value, ws);
    seen_operands_take_two_steps(m2, t2, j, ws);
    assert(t2.kids.subrange(j + 1, t2.kids.len() as int) =~= t.kids.subrange(
        j + 1,
        t.kids.len() as int,
    ));
    steps_add_up(m.evaluate(lifted), steps + 2, (1 + d) as nat);
    // From here on they are alike.
    steps_add_up(m.evaluate(t), (3 + d + steps) as nat, after);
    steps_add_up(m.evaluate(lifted), (3 + d + steps) as nat, after);
}

/// An assignment runs by its name, value and rest alone.
proof fn entering_an_assignment(m: Machine, a: Term, name: Name, v: Term, rest: Term, steps: nat)
    requires
        a.op == Op::Assign,
        a.names == seq![name],
        a.kids == seq![v, rest],
    ensures
        run(m.evaluate(a), steps + 2) == run(m.evaluate(t_assign(name, v, rest)), steps + 2),
{
    let t = t_assign(name, v, rest);
    assert(t.kids[0] == v && t.kids[1] == rest && t.names[0] == name);
    assert(step(m.evaluate(a)) == step(m.evaluate(t)));
}

/// Operands that all commute are not bound to temporaries.
proof fn pinning_nothing(t: Term, name: Name, i: nat, n: nat)
    requires
        i <= t.kids.len(),
        all_commute(t, i as int, name),
    ensures
        pin(t, name, i, n).kids == t.kids.take(i as int),
        pin(t, name, i, n).binds.len() == 0,
    decreases i,
{
    if i > 0 {
        assert(all_commute(t, i - 1, name));
        pinning_nothing(t, name, (i - 1) as nat, n);
        assert(commutes(t.kids[i - 1], name));
        assert(t.kids.take(i - 1).push(t.kids[i - 1]) =~= t.kids.take(i as int));
    } else {
        assert(t.kids.take(0) =~= Seq::<Term>::empty());
    }
}

/// After the assignment, what remains of a node sees the operands that the node saw.
proof fn remaining_operands_are_seen(
    m: Machine,
    end: Machine,
    m2: Machine,
    t: Term,
    t2: Term,
    j: int,
    x: Name,
    at: int,
    value: Val,
    ws: Seq<Val>,
)
    requires
        0 <= j < t.kids.len(),
        t.op == Op::Call ==> j > 0,
        t2 == (Term { kids: t.kids.update(j, t2.kids[j]), ..t }),
        t.kids[j].op == Op::Assign,
        all_commute(t, j, x),
        sees(m, t, j, ws),
        sees(end, t, j, ws),
        bound_names(end.env) == bound_names(m.env),
        end.functions == m.functions,
        end.globals == m.globals,
        0 <= at < end.env.len(),
        end.env[at].0 == x,
        m2 == (Machine {
            stack: m.stack,
            env: end.env.update(at, (x, value)),
            control: m.control,
            ..end
        }),
    ensures
        sees(m2, t2, j, ws),
        ready_operands(m2, t2).len() == ready_operands(m, t).len(),
{
    rebinding_keeps_names(end.env, at, x, value);
    let callee = t.kids[0].names[0];
    same_names_are_found_alike(m.env, m2.env, callee);
    if j == 0 {
        assert(ready_operands(m, t).len() == 0);
    }
    if j > 0 {
        assert(t2.kids[0] == t.kids[0]);
        assert(calls_by_name(m2, t2) == calls_by_name(m, t));
        assert(calls_by_name(end, t) == calls_by_name(m, t)) by {
            same_names_are_found_alike(m.env, end.env, callee);
        }
    }
    let first = ready_operands(m, t).len() as int;
    assert forall|i: int| first <= i < j implies seen_value(m2, #[trigger] t2.kids[i]) == Some(
        ws[i],
    ) by {
        assert(t2.kids[i] == t.kids[i]);
        assert(seen_value(end, t.kids[i]) == Some(ws[i]));
        assert(commutes(t.kids[i], x));
        if t.kids[i].op == Op::Var {
            let name = t.kids[i].names[0];
            same_names_are_found_alike(end.env, m2.env, name);
            found_is_bound(end.env, name);
        }
    }
}

/// The operators that evaluate their first child before anything else, and then decide how to
/// go on.
pub open spec fn looks_first(op: Op) -> bool {
    match op {
        Op::Let | Op::If | Op::Match | Op::For | Op::Assign | Op::Binary(BinOp::And)
        | Op::Binary(BinOp::Or) => true,
        _ => false,
    }
}

/// What a node with such an operator waits with while its first child is evaluated.
pub open spec fn waiting_frame(t: Term) -> FrameTerm {
    match t.op {
        Op::Let => FrameTerm::LetBody { name: t.names[0], body: t.kids[1] },
        Op::If => FrameTerm::Branches { then_branch: t.kids[1], else_branch: t.kids[2] },
        Op::Match => FrameTerm::Arms { arms: t.arms },
        Op::For => FrameTerm::LoopStart { var: t.names[0], end: t.kids[1], body: t.kids[2] },
        Op::Assign => FrameTerm::AssignRest { name: t.names[0], rest: t.kids[1] },
        Op::Binary(BinOp::And) => FrameTerm::Rhs { and: true, rhs: t.kids[1] },
        _ => FrameTerm::Rhs { and: false, rhs: t.kids[1] },
    }
}

/// Lifting an assignment out of what a node looks at first keeps the meaning: the node and
/// its lifted form come to the same state once the value has been computed and assigned, and
/// go on alike from there. The assigned value is computed without the host.
pub proof fn lifting_from_the_first_slot_keeps_the_meaning(
    m: Machine,
    t: Term,
    n: nat,
    steps: nat,
    value: Val,
    after: nat,
)
    requires
        looks_first(t.op),
        shaped(t),
        can_lift(t, 0),
        takes_steps(started(m, t.kids[0].kids[0]), steps),
        run(started(m, t.kids[0].kids[0]), steps).progress() == Progress::Done(value),
        find(m.env, t.kids[0].names[0]) is Some,
    ensures
        ({
            let a = t.kids[0];
            let lifted = t_assign(a.names[0], a.kids[0], remainder(t, 0, n));
            run(m.evaluate(t), steps + 3 + after) == run(m.evaluate(lifted), steps + 3 + after)
        }),
{
    let a = t.kids[0];
    let x = a.names[0];
    let v = a.kids[0];
    let r = a.kids[1];
    let t2 = remainder(t, 0, n);
    let lifted = t_assign(x, v, t2);
    let alone = started(m, v);
    let end = run(alone, steps);
    pinning_nothing(t, x, 0, n);
    assert(t2.kids =~= t.kids.update(0, r));
    assert(a.kids =~= seq![v, r] && a.names =~= seq![x]);
    evaluating_leaves_the_scope(m, v, steps);
    same_names_are_found_alike(m.env, end.env, x);
    let at = find(end.env, x)->Some_0;
    let m2 = assigned(m, end, at, x, value);
    let f = waiting_frame(t);
    let inner = m.push(f);
    // The node itself waits, then assigns.
    assert(step(m.evaluate(t)) == inner.evaluate(a));
    assert(started(inner, v) == alone);
    assigning_takes_two_steps_more(inner, x, v, r, steps, value, at);
    entering_an_assignment(inner, a, x, v, r, steps);
    two_steps(m.evaluate(t));
    steps_add_up(m.evaluate(t), 1, steps + 2);
    assert(run(m.evaluate(t), steps + 3) == m2.push(f).evaluate(r));
    // Its lifted form assigns, then waits.
    assigning_takes_two_steps_more(m, x, v, t2, steps, value, at);
    assert(waiting_frame(t2) == f);
    assert(step(m2.evaluate(t2)) == m2.push(f).evaluate(r));
    two_steps(m2.evaluate(t2));
    steps_add_up(m.evaluate(lifted), steps + 2, 1);
    steps_add_up(m.evaluate(t), steps + 3, after);
    steps_add_up(m.evaluate(lifted), steps + 3, after);
}

} // verus!
