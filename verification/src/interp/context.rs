//! What an evaluation does, it does in every context: the frames below it wait untouched.

use vstd::prelude::*;
use crate::ir::{ArmTerm, BinOp, GlobalTerm, Name, Op, Term, UnOp};
use super::semantics::{
    applied, binary, called, chosen, entered, exchanged, given, loaded, looped, next_receiver,
    on_array, on_ref, on_text, operands, polled, run, settled, shown, started_call, step, unary,
    with_global, zipped,
};
use super::state::{FrameTerm, Machine, Scope};
use super::value::{ReceiverHandle, Val};

verus! {

/// A machine with frames below those on its stack.
pub open spec fn over(m: Machine, below: Seq<FrameTerm>) -> Machine {
    Machine { stack: below + m.stack, ..m }
}

/// Whether a machine takes `n` steps before it is done or waits.
pub open spec fn takes_steps(m: Machine, n: nat) -> bool {
    forall|i: nat| i < n ==> !settled(#[trigger] run(m, i))
}

proof fn push_over(m: Machine, below: Seq<FrameTerm>)
    ensures
        forall|f: FrameTerm| #[trigger] over(m, below).push(f) == over(m.push(f), below),
{
    assert forall|f: FrameTerm| #[trigger] over(m, below).push(f) == over(m.push(f), below) by {
        assert(over(m, below).push(f).stack =~= over(m.push(f), below).stack);
    }
}

proof fn called_over(m: Machine, below: Seq<FrameTerm>, callee: Val, args: Seq<Val>)
    ensures
        called(over(m, below), callee, args) == over(called(m, callee, args), below),
{
    push_over(m, below);
    let f = FrameTerm::Restore { env: m.env };
    assert(over(m, below).push(f) == over(m.push(f), below));
}

proof fn unary_over(m: Machine, below: Seq<FrameTerm>, op: UnOp, v: Val)
    ensures
        unary(over(m, below), op, v) == over(unary(m, op, v), below),
{
}

proof fn binary_over(m: Machine, below: Seq<FrameTerm>, op: BinOp, a: Val, b: Val)
    ensures
        binary(over(m, below), op, a, b) == over(binary(m, op, a, b), below),
{
}

proof fn exchanged_over(m: Machine, below: Seq<FrameTerm>, op: Op, vs: Seq<Val>)
    ensures
        exchanged(over(m, below), op, vs) == over(exchanged(m, op, vs), below),
{
}

proof fn on_ref_over(m: Machine, below: Seq<FrameTerm>, op: Op, vs: Seq<Val>)
    ensures
        on_ref(over(m, below), op, vs) == over(on_ref(m, op, vs), below),
{
}

proof fn on_array_over(m: Machine, below: Seq<FrameTerm>, op: Op, vs: Seq<Val>)
    ensures
        on_array(over(m, below), op, vs) == over(on_array(m, op, vs), below),
{
}

proof fn shown_over(m: Machine, below: Seq<FrameTerm>, v: Val)
    ensures
        shown(over(m, below), v) == over(shown(m, v), below),
{
}

proof fn on_text_over(m: Machine, below: Seq<FrameTerm>, op: Op, vs: Seq<Val>)
    ensures
        on_text(over(m, below), op, vs) == over(on_text(m, op, vs), below),
{
}

pub(crate) proof fn applied_over(m: Machine, below: Seq<FrameTerm>, op: Op, names: Seq<Name>, vs: Seq<Val>)
    ensures
        applied(over(m, below), op, names, vs) == over(applied(m, op, names, vs), below),
{
    match op {
        Op::Unary(o) => {
            unary_over(m, below, o, vs[0]);
        },
        Op::Binary(o) => {
            binary_over(m, below, o, vs[0], vs[1]);
        },
        Op::Call => {
            called_over(m, below, vs[0], vs.subrange(1, vs.len() as int));
        },
        Op::Ctor | Op::CtorReuse => {},
        Op::TaskJoin | Op::ChannelSend | Op::ChannelRecv => {
            exchanged_over(m, below, op, vs);
        },
        Op::RefNew | Op::RefGet | Op::RefSet => {
            on_ref_over(m, below, op, vs);
        },
        Op::ArrayPush | Op::ArrayPop | Op::ArraySet | Op::ArrayRemove | Op::ArrayPushReuse
        | Op::ArrayPopReuse | Op::ArraySetReuse | Op::ArrayRemoveReuse => {
            on_array_over(m, below, op, vs);
        },
        Op::ToString => {
            shown_over(m, below, vs[0]);
        },
        _ => {
            on_text_over(m, below, op, vs);
        },
    }
}

proof fn operands_over(
    m: Machine,
    below: Seq<FrameTerm>,
    op: Op,
    names: Seq<Name>,
    done: Seq<Val>,
    todo: Seq<Term>,
)
    ensures
        operands(over(m, below), op, names, done, todo) == over(
            operands(m, op, names, done, todo),
            below,
        ),
{
    applied_over(m, below, op, names, done);
    let f = FrameTerm::Operands { op, names, done, todo: todo.subrange(1, todo.len() as int) };
    push_over(m, below);
    assert(over(m, below).push(f) == over(m.push(f), below));
}

proof fn polled_over(
    m: Machine,
    below: Seq<FrameTerm>,
    ready: Seq<ReceiverHandle>,
    kids: Seq<Term>,
    at: nat,
    open: bool,
)
    ensures
        polled(over(m, below), ready, kids, at, open) == over(
            polled(m, ready, kids, at, open),
            below,
        ),
{
    let f = FrameTerm::Poll { ready, kids, at, open };
    push_over(m, below);
    assert(over(m, below).push(f) == over(m.push(f), below));
}

proof fn next_receiver_over(
    m: Machine,
    below: Seq<FrameTerm>,
    ready: Seq<ReceiverHandle>,
    kids: Seq<Term>,
)
    ensures
        next_receiver(over(m, below), ready, kids) == over(next_receiver(m, ready, kids), below),
{
    polled_over(m, below, ready, kids, 0, false);
    let f = FrameTerm::Receivers { ready, kids };
    push_over(m, below);
    assert(over(m, below).push(f) == over(m.push(f), below));
}

proof fn chosen_over(
    m: Machine,
    below: Seq<FrameTerm>,
    tag: Name,
    fields: Seq<Val>,
    arms: Seq<ArmTerm>,
)
    ensures
        chosen(over(m, below), tag, fields, arms) == over(chosen(m, tag, fields, arms), below),
    decreases arms.len(),
{
    if arms.len() > 0 {
        let arm = arms[0];
        let rest = arms.subrange(1, arms.len() as int);
        chosen_over(m, below, tag, fields, rest);
        let inner = Machine { env: m.env + zipped(arm.bindings, fields), ..m };
        push_over(inner, below);
        let f = FrameTerm::Guard { tag, fields, bound: fields.len(), body: arm.body, rest };
        assert(over(inner, below).push(f) == over(inner.push(f), below));
        let f = FrameTerm::Unbind { count: fields.len() };
        assert(over(inner, below).push(f) == over(inner.push(f), below));
    }
}

proof fn looped_over(m: Machine, below: Seq<FrameTerm>, var: Name, i: i64, end: i64, body: Term)
    ensures
        looped(over(m, below), var, i, end, body) == over(looped(m, var, i, end, body), below),
{
    let inner = m.bind(var, Val::Int(i));
    let f = FrameTerm::LoopNext { var, next: (i + 1) as i64, end, body };
    push_over(inner, below);
    assert(over(inner, below).push(f) == over(inner.push(f), below));
}

proof fn loaded_over(m: Machine, below: Seq<FrameTerm>, rest: Seq<GlobalTerm>)
    ensures
        loaded(over(m, below), rest) == over(loaded(m, rest), below),
{
    if rest.len() > 0 {
        let f = FrameTerm::Globals {
            name: rest[0].name,
            rest: rest.subrange(1, rest.len() as int),
        };
        push_over(m, below);
        assert(over(m, below).push(f) == over(m.push(f), below));
    }
}

proof fn entered_over(m: Machine, below: Seq<FrameTerm>, t: Term)
    ensures
        entered(over(m, below), t) == over(entered(m, t), below),
{
    push_over(m, below);
    next_receiver_over(m, below, Seq::empty(), t.kids);
    operands_over(m, below, t.op, t.names, Seq::empty(), t.kids);
    operands_over(
        m,
        below,
        t.op,
        t.names,
        seq![Val::Function(t.kids[0].names[0])],
        t.kids.subrange(1, t.kids.len() as int),
    );
    assert forall|addr: usize| #[trigger]
        operands(over(m, below), t.op, t.names, seq![Val::HeapRef(addr)], t.kids) == over(
            operands(m, t.op, t.names, seq![Val::HeapRef(addr)], t.kids),
            below,
        ) by {
        operands_over(m, below, t.op, t.names, seq![Val::HeapRef(addr)], t.kids);
    }
}

proof fn given_over(m: Machine, below: Seq<FrameTerm>, f: FrameTerm, v: Val)
    ensures
        given(over(m, below), f, v) == over(given(m, f, v), below),
{
    push_over(m, below);
    match f {
        FrameTerm::Operands { op, names, done, todo } => {
            operands_over(m, below, op, names, done.push(v), todo);
        },
        FrameTerm::LetBody { name, .. } => {
            push_over(m.bind(name, v), below);
            assert(over(m, below).bind(name, v) == over(m.bind(name, v), below));
        },
        FrameTerm::Arms { arms } => {
            assert forall|tag: Name, fields: Seq<Val>| #[trigger]
                chosen(over(m, below), tag, fields, arms) == over(
                    chosen(m, tag, fields, arms),
                    below,
                ) by {
                chosen_over(m, below, tag, fields, arms);
            }
        },
        FrameTerm::Guard { tag, fields, bound, rest, .. } => {
            chosen_over(m.unbind(bound), below, tag, fields, rest);
            assert(over(m, below).unbind(bound) == over(m.unbind(bound), below));
        },
        FrameTerm::LoopEnd { var, start, body } => {
            if let Val::Int(end) = v {
                looped_over(m, below, var, start, end, body);
            }
        },
        FrameTerm::LoopNext { var, next, end, body } => {
            looped_over(m.unbind(1), below, var, next, end, body);
            assert(over(m, below).unbind(1) == over(m.unbind(1), below));
        },
        FrameTerm::Receivers { ready, kids } => {
            if let Val::Receiver(r) = v {
                next_receiver_over(m, below, ready.push(r), kids);
            }
        },
        FrameTerm::Globals { name, rest } => {
            let inner = Machine {
                globals: with_global(m.globals, name, v),
                ..m
            };
            loaded_over(inner, below, rest);
        },
        _ => {},
    }
}

/// A step leaves the frames below untouched and does not depend on them.
pub proof fn a_step_is_local(m: Machine, below: Seq<FrameTerm>)
    requires
        !settled(m),
    ensures
        step(over(m, below)) == over(step(m), below),
{
    entered_over(m.idle(), below, m.control->Eval_0);
    if m.stack.len() > 0 {
        assert(over(m, below).stack.drop_last() =~= below + m.stack.drop_last());
        assert(over(m, below).stack.last() == m.stack.last());
        given_over(m.idle().pop(), below, m.stack.last(), m.control->Return_0);
        assert(over(m.idle(), below).pop() == over(m.idle().pop(), below));
        assert(over(m, below).pop() == over(m.pop(), below));
    }
}

/// As long as it is neither done nor waits, an evaluation takes the same steps in every
/// context.
pub proof fn an_evaluation_is_local(m: Machine, below: Seq<FrameTerm>, n: nat)
    requires
        takes_steps(m, n),
    ensures
        run(over(m, below), n) == over(run(m, n), below),
    decreases n,
{
    if n > 0 {
        assert(!settled(run(m, 0)));
        a_step_is_local(m, below);
        assert forall|i: nat| i < n - 1 implies !settled(#[trigger] run(step(m), i)) by {
            assert(run(m, i + 1) == run(step(m), i));
            assert(!settled(run(m, i + 1)));
        }
        an_evaluation_is_local(step(m), below, (n - 1) as nat);
    }
}

/// A machine that calls a function for a caller with the scope `env`: everything above the
/// frame that will give the scope back, or the end of the call.
pub(crate) open spec fn within_call(x: Machine, env: Scope, back: bool) -> Machine {
    if back {
        Machine { env, ..x }
    } else {
        over(x, seq![FrameTerm::Restore { env }])
    }
}

proof fn a_step_within_a_call(x: Machine, env: Scope, other: Scope, back: bool) -> (r: (
    Machine,
    bool,
))
    requires
        back ==> settled(x) && !(x.control is Waiting),
    ensures
        step(within_call(x, env, back)) == within_call(r.0, env, r.1),
        step(within_call(x, other, back)) == within_call(r.0, other, r.1),
        r.1 ==> settled(r.0) && !(r.0.control is Waiting),
{
    if back {
        (x, true)
    } else if !settled(x) {
        a_step_is_local(x, seq![FrameTerm::Restore { env }]);
        a_step_is_local(x, seq![FrameTerm::Restore { env: other }]);
        (step(x), false)
    } else if x.control is Waiting {
        (x, false)
    } else {
        let f = FrameTerm::Restore { env };
        let g = FrameTerm::Restore { env: other };
        assert(over(x, seq![f]).stack =~= seq![f]);
        assert(over(x, seq![g]).stack =~= seq![g]);
        assert(over(x, seq![f]).stack.drop_last() =~= Seq::<FrameTerm>::empty());
        assert(over(x, seq![g]).stack.drop_last() =~= Seq::<FrameTerm>::empty());
        assert(x.stack =~= Seq::<FrameTerm>::empty());
        (x, true)
    }
}

pub(crate) proof fn steps_within_a_call(x: Machine, env: Scope, other: Scope, back: bool, n: nat) -> (r: (
    Machine,
    bool,
))
    requires
        back ==> settled(x) && !(x.control is Waiting),
    ensures
        run(within_call(x, env, back), n) == within_call(r.0, env, r.1),
        run(within_call(x, other, back), n) == within_call(r.0, other, r.1),
        r.1 ==> settled(r.0) && !(r.0.control is Waiting),
    decreases n,
{
    if n == 0 {
        (x, back)
    } else {
        let y = a_step_within_a_call(x, env, other, back);
        steps_within_a_call(y.0, env, other, y.1, (n - 1) as nat)
    }
}

/// A call does not depend on its caller's scope. Two machines that differ in nothing but what
/// is in scope come equally far with a call, to the same value, error or request, and with the
/// same heap, globals, closures, references and tasks. When the call is over, by a value or by
/// an error, each has its own scope back.
pub proof fn calls_do_not_depend_on_the_callers_scope(
    m: Machine,
    other: Scope,
    name: Name,
    args: Seq<Val>,
    n: nat,
)
    ensures
        ({
            let a = run(started_call(m, name, args), n);
            let b = run(started_call(Machine { env: other, ..m }, name, args), n);
            &&& a.progress() == b.progress()
            &&& a.control == b.control
            &&& a.heap == b.heap
            &&& a.globals == b.globals
            &&& a.functions == b.functions
            &&& a.closures == b.closures
            &&& a.refs == b.refs
            &&& a.tasks == b.tasks
            &&& (a.progress() is Done || a.progress() is Failed) ==> a.env == m.env && b.env
                == other
        }),
{
    let empty = Machine { stack: Seq::empty(), ..m };
    let a = started_call(m, name, args);
    let b = started_call(Machine { env: other, ..m }, name, args);
    if a.control is Eval {
        let x = Machine { stack: Seq::empty(), ..a };
        assert(over(x, seq![FrameTerm::Restore { env: m.env }]).stack =~= a.stack);
        assert(over(x, seq![FrameTerm::Restore { env: other }]).stack =~= b.stack);
        let r = steps_within_a_call(x, m.env, other, false, n);
    } else {
        let r = steps_within_a_call(a, m.env, other, true, n);
    }
}

} // verus!
