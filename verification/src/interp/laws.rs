//! What holds of every evaluation.

use vstd::prelude::*;
use crate::ir::{ArmTerm, GlobalTerm, Name, Op, Term};
use super::error::Fault;
use super::heap::{ctor_at, HeapError};
use super::semantics::{
    applied, called, chosen, entered, find, given, loaded, lookup, looped, next_receiver, on_ref,
    operands, polled, resumed, run, started, step, zipped, Progress,
};
use super::state::{ControlTerm, FrameTerm, Machine, ReplyTerm, Scope};
use super::value::{RefHandle, ReceiverHandle, Val};

verus! {

/// The names that are bound, innermost last.
pub open spec fn bound_names(s: Scope) -> Seq<Name> {
    s.map_values(|b: (Name, Val)| b.0)
}

/// Names without the innermost `n`.
pub open spec fn cut(names: Seq<Name>, n: nat) -> Seq<Name> {
    if n <= names.len() {
        names.take(names.len() - n)
    } else {
        Seq::empty()
    }
}

/// The names that are bound once a frame is left.
pub open spec fn names_after(names: Seq<Name>, f: FrameTerm) -> Seq<Name> {
    match f {
        FrameTerm::Unbind { count } => cut(names, count),
        FrameTerm::Guard { bound, .. } => cut(names, bound),
        FrameTerm::LoopNext { .. } => cut(names, 1),
        FrameTerm::Restore { env } => bound_names(env),
        _ => names,
    }
}

/// The names that are bound once every frame is left.
pub open spec fn outer_names(names: Seq<Name>, stack: Seq<FrameTerm>) -> Seq<Name>
    decreases stack.len(),
{
    if stack.len() == 0 {
        names
    } else {
        outer_names(names_after(names, stack.last()), stack.drop_last())
    }
}

/// The names that a machine will be left with.
pub open spec fn outermost(m: Machine) -> Seq<Name> {
    outer_names(bound_names(m.env), m.stack)
}

proof fn pushing(m: Machine, f: FrameTerm)
    ensures
        outermost(m.push(f)) == outer_names(names_after(bound_names(m.env), f), m.stack),
{
    assert(m.push(f).stack.drop_last() =~= m.stack);
}

proof fn unbinding(m: Machine, n: nat)
    ensures
        bound_names(m.unbind(n).env) == cut(bound_names(m.env), n),
{
    assert(bound_names(m.unbind(n).env) =~= cut(bound_names(m.env), n));
}

proof fn binding(m: Machine, more: Scope)
    ensures
        cut(bound_names(m.env + more), more.len()) == bound_names(m.env),
{
    assert(cut(bound_names(m.env + more), more.len()) =~= bound_names(m.env));
}

proof fn binding_one(m: Machine, name: Name, v: Val)
    ensures
        cut(bound_names(m.bind(name, v).env), 1) == bound_names(m.env),
{
    assert(cut(bound_names(m.bind(name, v).env), 1) =~= bound_names(m.env));
}

proof fn applying_keeps(m: Machine, op: Op, names: Seq<Name>, vs: Seq<Val>)
    ensures
        outermost(applied(m, op, names, vs)) == outermost(m),
{
    if op == Op::Call && vs.len() >= 1 {
        let r = called(m, vs[0], vs.subrange(1, vs.len() as int));
        pushing(m, FrameTerm::Restore { env: m.env });
        if r.control is Eval {
            let f = FrameTerm::Restore { env: m.env };
            assert(r.stack.drop_last() =~= m.stack);
            assert(r.stack.last() == f);
        }
    }
}

proof fn operands_keep(m: Machine, op: Op, names: Seq<Name>, done: Seq<Val>, todo: Seq<Term>)
    ensures
        outermost(operands(m, op, names, done, todo)) == outermost(m),
{
    if todo.len() == 0 {
        applying_keeps(m, op, names, done);
    } else {
        pushing(
            m,
            FrameTerm::Operands { op, names, done, todo: todo.subrange(1, todo.len() as int) },
        );
    }
}

proof fn polling_keeps(
    m: Machine,
    ready: Seq<ReceiverHandle>,
    kids: Seq<Term>,
    at: nat,
    open: bool,
)
    ensures
        outermost(polled(m, ready, kids, at, open)) == outermost(m),
{
    pushing(m, FrameTerm::Poll { ready, kids, at, open });
}

proof fn receivers_keep(m: Machine, ready: Seq<ReceiverHandle>, kids: Seq<Term>)
    ensures
        outermost(next_receiver(m, ready, kids)) == outermost(m),
{
    pushing(m, FrameTerm::Receivers { ready, kids });
    polling_keeps(m, ready, kids, 0, false);
}

proof fn choosing_keeps(m: Machine, tag: Name, fields: Seq<Val>, arms: Seq<ArmTerm>)
    ensures
        outermost(chosen(m, tag, fields, arms)) == outermost(m),
    decreases arms.len(),
{
    if arms.len() > 0 {
        let arm = arms[0];
        let rest = arms.subrange(1, arms.len() as int);
        if arm.tag != tag {
            choosing_keeps(m, tag, fields, rest);
        } else if arm.bindings.len() == fields.len() {
            let more = super::semantics::zipped(arm.bindings, fields);
            let inner = Machine { env: m.env + more, ..m };
            binding(m, more);
            if let Some(_) = arm.guard {
                pushing(
                    inner,
                    FrameTerm::Guard { tag, fields, bound: fields.len(), body: arm.body, rest },
                );
            } else {
                pushing(inner, FrameTerm::Unbind { count: fields.len() });
            }
        }
    }
}

proof fn looping_keeps(m: Machine, var: Name, i: i64, end: i64, body: Term)
    ensures
        outermost(looped(m, var, i, end, body)) == outermost(m),
{
    if i < end {
        let inner = m.bind(var, Val::Int(i));
        binding_one(m, var, Val::Int(i));
        pushing(inner, FrameTerm::LoopNext { var, next: (i + 1) as i64, end, body });
    }
}

proof fn entering_keeps(m: Machine, t: Term)
    ensures
        outermost(entered(m, t)) == outermost(m),
{
    match t.op {
        Op::Binary(_) => {
            pushing(m, FrameTerm::Rhs { and: true, rhs: t.kids[1] });
            pushing(m, FrameTerm::Rhs { and: false, rhs: t.kids[1] });
        },
        Op::Let => {
            pushing(m, FrameTerm::LetBody { name: t.names[0], body: t.kids[1] });
        },
        Op::If => {
            pushing(m, FrameTerm::Branches { then_branch: t.kids[1], else_branch: t.kids[2] });
        },
        Op::Match => {
            pushing(m, FrameTerm::Arms { arms: t.arms });
        },
        Op::For => {
            pushing(m, FrameTerm::LoopStart { var: t.names[0], end: t.kids[1], body: t.kids[2] });
        },
        Op::Assign => {
            pushing(m, FrameTerm::AssignRest { name: t.names[0], rest: t.kids[1] });
        },
        Op::Select => {
            receivers_keep(m, Seq::empty(), t.kids);
        },
        Op::Call => {
            operands_keep(
                m,
                t.op,
                t.names,
                seq![Val::Function(t.kids[0].names[0])],
                t.kids.subrange(1, t.kids.len() as int),
            );
        },
        _ => {},
    }
    operands_keep(m, t.op, t.names, Seq::empty(), t.kids);
    if let Ok(Val::HeapRef(addr)) = super::semantics::lookup(m, t.names[0]) {
        operands_keep(m, t.op, t.names, seq![Val::HeapRef(addr)], t.kids);
    }
}

proof fn loading_keeps(m: Machine, rest: Seq<GlobalTerm>)
    ensures
        outermost(loaded(m, rest)) == outermost(m),
{
    if rest.len() > 0 {
        pushing(
            m,
            FrameTerm::Globals { name: rest[0].name, rest: rest.subrange(1, rest.len() as int) },
        );
    }
}

/// Finding a name points at a binding of that name.
pub proof fn found_is_bound(s: Scope, name: Name)
    ensures
        find(s, name) matches Some(i) ==> 0 <= i < s.len() && s[i].0 == name,
    decreases s.len(),
{
    if s.len() > 0 && s.last().0 != name {
        found_is_bound(s.drop_last(), name);
    }
}

proof fn giving_keeps(m: Machine, f: FrameTerm, v: Val)
    ensures
        outermost(given(m, f, v)) == outer_names(names_after(bound_names(m.env), f), m.stack),
{
    match f {
        FrameTerm::Operands { op, names, done, todo } => {
            operands_keep(m, op, names, done.push(v), todo);
        },
        FrameTerm::Rhs { and, .. } => {
            pushing(m, FrameTerm::RhsCheck { and });
        },
        FrameTerm::LetBody { name, .. } => {
            binding_one(m, name, v);
            pushing(m.bind(name, v), FrameTerm::Unbind { count: 1 });
        },
        FrameTerm::Arms { arms } => {
            if let Val::HeapRef(addr) = v {
                if let Ok((tag, fields)) = super::heap::ctor_at(m.heap, addr) {
                    choosing_keeps(m, tag, fields, arms);
                }
            }
        },
        FrameTerm::Guard { tag, fields, bound, rest, .. } => {
            unbinding(m, bound);
            pushing(m, FrameTerm::Unbind { count: bound });
            choosing_keeps(m.unbind(bound), tag, fields, rest);
        },
        FrameTerm::Unbind { count } => {
            unbinding(m, count);
        },
        FrameTerm::LoopStart { var, body, .. } => {
            if let Val::Int(start) = v {
                pushing(m, FrameTerm::LoopEnd { var, start, body });
            }
        },
        FrameTerm::LoopEnd { var, start, body } => {
            if let Val::Int(end) = v {
                looping_keeps(m, var, start, end, body);
            }
        },
        FrameTerm::LoopNext { var, next, end, body } => {
            unbinding(m, 1);
            looping_keeps(m.unbind(1), var, next, end, body);
        },
        FrameTerm::AssignRest { name, .. } => {
            found_is_bound(m.env, name);
            if let Some(i) = find(m.env, name) {
                assert(bound_names(m.env.update(i, (name, v))) =~= bound_names(m.env));
            }
        },
        FrameTerm::Receivers { ready, kids } => {
            if let Val::Receiver(r) = v {
                receivers_keep(m, ready.push(r), kids);
            }
        },
        FrameTerm::Globals { name, rest } => {
            loading_keeps(
                Machine { globals: super::semantics::with_global(m.globals, name, v), ..m },
                rest,
            );
        },
        _ => {},
    }
}

/// No step changes which names will be bound when everything is done: every scope that is
/// entered is left, by a value or by an error.
pub proof fn a_step_keeps_the_scope(m: Machine)
    ensures
        outermost(step(m)) == outermost(m),
{
    match m.control {
        ControlTerm::Eval(t) => {
            entering_keeps(m.idle(), t);
        },
        ControlTerm::Return(v) => {
            if m.stack.len() > 0 {
                giving_keeps(m.idle().pop(), m.stack.last(), v);
            }
        },
        ControlTerm::Failed(_) => {
            if m.stack.len() > 0 {
                let f = m.stack.last();
                match f {
                    FrameTerm::Unbind { count } => {
                        unbinding(m.pop(), count);
                    },
                    FrameTerm::Guard { bound, .. } => {
                        unbinding(m.pop(), bound);
                    },
                    FrameTerm::LoopNext { .. } => {
                        unbinding(m.pop(), 1);
                    },
                    _ => {},
                }
            }
        },
        ControlTerm::Waiting(_) => {},
    }
}

/// Nor does a reply of the host.
pub proof fn a_reply_keeps_the_scope(m: Machine, r: ReplyTerm)
    ensures
        outermost(resumed(m, r)) == outermost(m),
{
    if m.control is Waiting && m.stack.len() > 0 {
        let q = m.idle().pop();
        if let FrameTerm::Poll { ready, kids, at, open } = m.stack.last() {
            assert(outermost(q) == outermost(m));
            polling_keeps(q, ready, kids, 0, false);
            polling_keeps(q, ready, kids, at + 1, true);
            polling_keeps(q, ready, kids, at + 1, open);
            if let ReplyTerm::Received(p) = r {
                let (h, v) = super::portable::placed(q.heap, p);
                let q2 = Machine { heap: h, ..q };
                binding_one(q2, "__select_recv"@, v);
                pushing(q2.bind("__select_recv"@, v), FrameTerm::Unbind { count: 1 });
            }
        }
    }
}

/// Nor do several steps.
pub proof fn steps_keep_the_scope(m: Machine, n: nat)
    ensures
        outermost(run(m, n)) == outermost(m),
    decreases n,
{
    if n > 0 {
        a_step_keeps_the_scope(m);
        steps_keep_the_scope(step(m), (n - 1) as nat);
    }
}

/// An evaluation that is done, with a value or with an error, leaves exactly the names bound
/// that were bound before it.
pub proof fn evaluating_leaves_the_scope(m: Machine, t: Term, n: nat)
    ensures
        match run(started(m, t), n).progress() {
            Progress::Done(_) | Progress::Failed(_) => bound_names(run(started(m, t), n).env)
                == bound_names(m.env),
            _ => true,
        },
{
    steps_keep_the_scope(started(m, t), n);
}

/// Taking steps and then more steps is taking all of them.
pub proof fn steps_add_up(m: Machine, a: nat, b: nat)
    ensures
        run(run(m, a), b) == run(m, a + b),
    decreases a,
{
    if a > 0 {
        steps_add_up(step(m), (a - 1) as nat, b);
    }
}

/// The right operand of `&&` is not evaluated after `false`, nor that of `||` after `true`.
pub proof fn short_circuit(m: Machine, and: bool, rhs: Term)
    ensures
        given(m, FrameTerm::Rhs { and, rhs }, Val::Bool(!and)) == m.give(Val::Bool(!and)),
{
}

/// A reference cell gives what it was last set to, through every handle to it.
pub proof fn a_reference_gives_what_it_was_set_to(m: Machine, r: RefHandle, v: Val)
    requires
        r.id < m.refs.len(),
    ensures
        on_ref(on_ref(m, Op::RefSet, seq![Val::Ref(r), v]), Op::RefGet, seq![Val::Ref(r)]).control
            == ControlTerm::Return(v),
{
}

/// A name stands for its innermost binding, and a binding changes no other name.
pub proof fn the_innermost_binding_counts(m: Machine, x: Name, v: Val, y: Name)
    ensures
        lookup(m.bind(x, v), x) == Ok::<Val, Fault>(v),
        y != x ==> lookup(m.bind(x, v), y) == lookup(m, y),
{
    let env = m.bind(x, v).env;
    assert(env.drop_last() =~= m.env);
    assert(env.last() == (x, v));
    found_is_bound(m.env, y);
}

/// The last binding of a name is the one that is found.
pub(crate) proof fn found_at(env: Scope, x: Name, at: int)
    requires
        0 <= at < env.len(),
        env[at].0 == x,
        forall|j: int| at < j < env.len() ==> (#[trigger] env[j]).0 != x,
    ensures
        find(env, x) == Some(at),
    decreases env.len(),
{
    let last = env.len() - 1;
    if at < last {
        assert(env[last].0 != x);
        found_at(env.drop_last(), x, at);
    }
}

/// Bindings of other names change nothing.
pub(crate) proof fn found_before(env: Scope, more: Scope, x: Name)
    requires
        forall|j: int| 0 <= j < more.len() ==> (#[trigger] more[j]).0 != x,
    ensures
        find(env + more, x) == find(env, x),
    decreases more.len(),
{
    if more.len() == 0 {
        assert(env + more =~= env);
    } else {
        let less = more.drop_last();
        assert((env + more).drop_last() =~= env + less);
        assert((env + more).last() == more.last());
        assert(more[more.len() - 1].0 != x);
        assert forall|j: int| 0 <= j < less.len() implies (#[trigger] less[j]).0 != x by {
            assert(more[j].0 != x);
        }
        found_before(env, less, x);
    }
}

/// A match goes on with the first arm that has the tag of the value: with its guard if it has
/// one, and else with its body. Each of the arm's names stands for the field at the same
/// place, and every other name for what it stood for.
pub proof fn the_first_arm_with_the_tag_is_tried(
    m: Machine,
    addr: usize,
    tag: Name,
    fields: Seq<Val>,
    arms: Seq<ArmTerm>,
    k: int,
)
    requires
        ctor_at(m.heap, addr) == Ok::<(Name, Seq<Val>), HeapError>((tag, fields)),
        0 <= k < arms.len(),
        arms[k].tag == tag,
        forall|i: int| 0 <= i < k ==> (#[trigger] arms[i]).tag != tag,
        arms[k].bindings.len() == fields.len(),
    ensures
        ({
            let r = given(m, FrameTerm::Arms { arms }, Val::HeapRef(addr));
            let bound = arms[k].bindings;
            &&& r.control == ControlTerm::Eval(
                match arms[k].guard {
                    Some(g) => g,
                    None => arms[k].body,
                },
            )
            &&& r.heap == m.heap
            &&& forall|i: int|
                0 <= i < bound.len() && (forall|j: int|
                    i < j < bound.len() ==> #[trigger] bound[j] != bound[i]) ==> lookup(
                    r,
                    #[trigger] bound[i],
                ) == Ok::<Val, Fault>(fields[i])
            &&& forall|x: Name| !bound.contains(x) ==> #[trigger] lookup(r, x) == lookup(m, x)
        }),
{
    arms_are_skipped(m, tag, fields, arms, k);
    let r = given(m, FrameTerm::Arms { arms }, Val::HeapRef(addr));
    let bound = arms[k].bindings;
    let more = zipped(bound, fields);
    assert(arms.subrange(k, arms.len() as int)[0] == arms[k]);
    assert(r.env == m.env + more);
    assert forall|i: int|
        0 <= i < bound.len() && (forall|j: int|
            i < j < bound.len() ==> #[trigger] bound[j] != bound[i]) implies lookup(
        r,
        #[trigger] bound[i],
    ) == Ok::<Val, Fault>(fields[i]) by {
        let at = m.env.len() + i;
        assert(r.env[at] == more[i]);
        assert forall|j: int| at < j < r.env.len() implies (#[trigger] r.env[j]).0 != bound[i] by {
            assert(r.env[j] == more[j - m.env.len()]);
            assert(bound[j - m.env.len()] != bound[i]);
        }
        found_at(r.env, bound[i], at);
    }
    assert forall|x: Name| !bound.contains(x) implies #[trigger] lookup(r, x) == lookup(m, x) by {
        assert forall|j: int| 0 <= j < more.len() implies (#[trigger] more[j]).0 != x by {
            assert(bound[j] != x);
        }
        found_before(m.env, more, x);
        found_is_bound(m.env, x);
    }
}

proof fn arms_are_skipped(m: Machine, tag: Name, fields: Seq<Val>, arms: Seq<ArmTerm>, k: int)
    requires
        0 <= k < arms.len(),
        forall|i: int| 0 <= i < k ==> (#[trigger] arms[i]).tag != tag,
    ensures
        chosen(m, tag, fields, arms) == chosen(
            m,
            tag,
            fields,
            arms.subrange(k, arms.len() as int),
        ),
    decreases k,
{
    if k == 0 {
        assert(arms.subrange(0, arms.len() as int) =~= arms);
    } else {
        let rest = arms.subrange(1, arms.len() as int);
        assert(arms[0].tag != tag);
        assert forall|i: int| 0 <= i < k - 1 implies (#[trigger] rest[i]).tag != tag by {
            assert(arms[i + 1].tag != tag);
        }
        arms_are_skipped(m, tag, fields, rest, k - 1);
        assert(rest.subrange(k - 1, rest.len() as int) =~= arms.subrange(k, arms.len() as int));
    }
}

/// Where no arm has the tag of the value, the match fails.
pub proof fn a_match_without_the_tag_fails(
    m: Machine,
    tag: Name,
    fields: Seq<Val>,
    arms: Seq<ArmTerm>,
)
    requires
        forall|i: int| 0 <= i < arms.len() ==> (#[trigger] arms[i]).tag != tag,
    ensures
        chosen(m, tag, fields, arms) == m.fail(Fault::NoArm(tag)),
    decreases arms.len(),
{
    if arms.len() > 0 {
        let rest = arms.subrange(1, arms.len() as int);
        assert(arms[0].tag != tag);
        assert forall|i: int| 0 <= i < rest.len() implies (#[trigger] rest[i]).tag != tag by {
            assert(arms[i + 1].tag != tag);
        }
        a_match_without_the_tag_fails(m, tag, fields, rest);
    }
}

/// An arm whose guard holds is taken, with the fields still bound; past one whose guard does
/// not, the later arms are tried as if there were no earlier ones.
pub proof fn a_guard_decides_over_its_arm(
    m: Machine,
    addr: usize,
    tag: Name,
    fields: Seq<Val>,
    arms: Seq<ArmTerm>,
    b: bool,
)
    requires
        ctor_at(m.heap, addr) == Ok::<(Name, Seq<Val>), HeapError>((tag, fields)),
        arms.len() > 0,
        arms[0].tag == tag,
        arms[0].bindings.len() == fields.len(),
        arms[0].guard is Some,
    ensures
        ({
            let r = given(m, FrameTerm::Arms { arms }, Val::HeapRef(addr));
            let s = step(r.give(Val::Bool(b)));
            &&& b ==> s.control == ControlTerm::Eval(arms[0].body) && s.env == r.env && s.heap
                == m.heap
            &&& !b ==> s == given(
                m.idle(),
                FrameTerm::Arms { arms: arms.subrange(1, arms.len() as int) },
                Val::HeapRef(addr),
            )
        }),
{
    let r = given(m, FrameTerm::Arms { arms }, Val::HeapRef(addr));
    let inner = m.env + zipped(arms[0].bindings, fields);
    assert(r.env == inner);
    assert(inner.take(inner.len() - fields.len()) =~= m.env);
    assert(r.stack.drop_last() =~= m.stack);
}

} // verus!
