//! Reference counting keeps what a program computes.
//!
//! An evaluation with adjustments is followed by one without: the same steps but for the
//! adjustments, on a heap where nothing is freed.

use vstd::prelude::*;
use crate::fbip::laws::{
    adjusts_then_yields, ends_scope, plain, plain_arm, releasing_only_releases,
};
use crate::fbip::release::released;
use crate::fbip::uses::is_reuse_op;
use crate::ir::{shaped, t_var, ArmTerm, BinOp, FunctionTerm, GlobalTerm, Name, Op, Term};
use super::error::Fault;
use super::heap::{live, Cells, HeapError};
use super::laws::steps_add_up;
use super::memory::same_contents;
use super::semantics::{
    applied, binary, built, called, chosen, entered, find, find_function, given, in_place, loaded,
    lookup, looped, next_receiver, on_array, on_text, operands, run, settled, shown, started, step,
    text_of, with_strings, zipped, Progress,
};
use super::state::{ClosureTerm, ControlTerm, FrameTerm, Machine};
use super::step::settled_stays;
use super::value::Val;

verus! {

/// Whether a term builds nothing in place, and calls nothing whose count it adjusts.
pub open spec fn transparent(t: Term) -> bool
    decreases t,
{
    &&& shaped(t)
    &&& !is_reuse_op(t.op)
    &&& t.op == Op::Call && plain(t.kids[0]).op == Op::Var ==> t.kids[0].op == Op::Var
    &&& forall|i: int| 0 <= i < t.kids.len() ==> transparent(#[trigger] t.kids[i])
    &&& forall|k: int| 0 <= k < t.arms.len() ==> transparent_arm(#[trigger] t.arms[k])
}

/// Whether an arm builds nothing in place, and calls nothing whose count it adjusts.
pub open spec fn transparent_arm(arm: ArmTerm) -> bool
    decreases arm,
{
    &&& (arm.guard matches Some(g) ==> transparent(g))
    &&& transparent(arm.body)
}

pub open spec fn all_transparent(s: Seq<Term>) -> bool {
    forall|i: int| 0 <= i < s.len() ==> transparent(#[trigger] s[i])
}

pub open spec fn arms_transparent(s: Seq<ArmTerm>) -> bool {
    forall|k: int| 0 <= k < s.len() ==> transparent_arm(#[trigger] s[k])
}

/// Whether all terms in a frame are transparent.
pub open spec fn frame_transparent(f: FrameTerm) -> bool {
    match f {
        FrameTerm::Operands { op, todo, .. } => !is_reuse_op(op) && all_transparent(todo),
        FrameTerm::Rhs { rhs, .. } => transparent(rhs),
        FrameTerm::LetBody { body, .. } => transparent(body),
        FrameTerm::Branches { then_branch, else_branch } => transparent(then_branch)
            && transparent(else_branch),
        FrameTerm::Arms { arms } => arms_transparent(arms),
        FrameTerm::Guard { body, rest, .. } => transparent(body) && arms_transparent(rest),
        FrameTerm::LoopStart { end, body, .. } => transparent(end) && transparent(body),
        FrameTerm::LoopEnd { body, .. } => transparent(body),
        FrameTerm::LoopNext { body, .. } => transparent(body),
        FrameTerm::AssignRest { rest, .. } => transparent(rest),
        FrameTerm::Receivers { kids, .. } => all_transparent(kids) && kids.len() % 2 == 0,
        FrameTerm::Globals { rest, .. } => forall|i: int|
            0 <= i < rest.len() ==> transparent((#[trigger] rest[i]).value),
        _ => true,
    }
}

/// Whether all terms in a machine are transparent.
pub open spec fn machine_transparent(m: Machine) -> bool {
    &&& (m.control matches ControlTerm::Eval(t) ==> transparent(t))
    &&& forall|i: int| 0 <= i < m.stack.len() ==> frame_transparent(#[trigger] m.stack[i])
    &&& forall|i: int|
        0 <= i < m.closures.len() ==> transparent((#[trigger] m.closures[i]).body)
    &&& forall|i: int|
        0 <= i < m.functions.len() ==> transparent((#[trigger] m.functions[i]).body)
}

/// Terms without their adjustments.
pub open spec fn plain_terms(s: Seq<Term>) -> Seq<Term> {
    s.map_values(|t: Term| plain(t))
}

/// Arms without their adjustments.
pub open spec fn plain_arms(s: Seq<ArmTerm>) -> Seq<ArmTerm> {
    s.map_values(|a: ArmTerm| plain_arm(a))
}

/// Functions without their adjustments.
pub open spec fn plain_functions(s: Seq<FunctionTerm>) -> Seq<FunctionTerm> {
    s.map_values(|f: FunctionTerm| FunctionTerm { body: plain(f.body), ..f })
}

/// Closures without their adjustments.
pub open spec fn plain_closures(s: Seq<ClosureTerm>) -> Seq<ClosureTerm> {
    s.map_values(|c: ClosureTerm| ClosureTerm { body: plain(c.body), ..c })
}

/// Globals without their adjustments.
pub open spec fn plain_globals(s: Seq<GlobalTerm>) -> Seq<GlobalTerm> {
    s.map_values(|g: GlobalTerm| GlobalTerm { value: plain(g.value), ..g })
}

/// A frame without adjustments.
pub open spec fn plain_frame(f: FrameTerm) -> FrameTerm {
    match f {
        FrameTerm::Operands { op, names, done, todo } => FrameTerm::Operands {
            op,
            names,
            done,
            todo: plain_terms(todo),
        },
        FrameTerm::Rhs { and, rhs } => FrameTerm::Rhs { and, rhs: plain(rhs) },
        FrameTerm::LetBody { name, body } => FrameTerm::LetBody { name, body: plain(body) },
        FrameTerm::Branches { then_branch, else_branch } => FrameTerm::Branches {
            then_branch: plain(then_branch),
            else_branch: plain(else_branch),
        },
        FrameTerm::Arms { arms } => FrameTerm::Arms { arms: plain_arms(arms) },
        FrameTerm::Guard { tag, fields, bound, body, rest } => FrameTerm::Guard {
            tag,
            fields,
            bound,
            body: plain(body),
            rest: plain_arms(rest),
        },
        FrameTerm::LoopStart { var, end, body } => FrameTerm::LoopStart {
            var,
            end: plain(end),
            body: plain(body),
        },
        FrameTerm::LoopEnd { var, start, body } => FrameTerm::LoopEnd {
            var,
            start,
            body: plain(body),
        },
        FrameTerm::LoopNext { var, next, end, body } => FrameTerm::LoopNext {
            var,
            next,
            end,
            body: plain(body),
        },
        FrameTerm::AssignRest { name, rest } => FrameTerm::AssignRest { name, rest: plain(rest) },
        FrameTerm::Receivers { ready, kids } => FrameTerm::Receivers {
            ready,
            kids: plain_terms(kids),
        },
        FrameTerm::Poll { ready, kids, at, open } => FrameTerm::Poll {
            ready,
            kids: plain_terms(kids),
            at,
            open,
        },
        FrameTerm::Globals { name, rest } => FrameTerm::Globals { name, rest: plain_globals(rest) },
        _ => f,
    }
}

/// Whether a frame only holds a result while a count is adjusted.
pub open spec fn only_adjusts(f: FrameTerm) -> bool {
    f matches FrameTerm::LetBody { name, body } && adjusts_then_yields(body, name)
}

/// A stack without adjustments.
pub open spec fn plain_stack(s: Seq<FrameTerm>) -> Seq<FrameTerm>
    decreases s.len(),
{
    if s.len() == 0 {
        Seq::empty()
    } else if only_adjusts(s.last()) {
        plain_stack(s.drop_last())
    } else {
        plain_stack(s.drop_last()).push(plain_frame(s.last()))
    }
}

/// What a machine does, without adjustments.
pub open spec fn plain_control(c: ControlTerm) -> ControlTerm {
    match c {
        ControlTerm::Eval(t) => ControlTerm::Eval(plain(t)),
        _ => c,
    }
}

/// A machine without adjustments, on a given heap.
pub open spec fn plain_machine(c: Machine, heap: Cells) -> Machine {
    Machine {
        heap,
        functions: plain_functions(c.functions),
        closures: plain_closures(c.closures),
        stack: plain_stack(c.stack),
        control: plain_control(c.control),
        ..c
    }
}

/// Whether a machine follows another: it is the other one without adjustments, on a heap with
/// the same contents where perhaps less has been freed.
pub open spec fn follows(m: Machine, c: Machine) -> bool {
    &&& m == plain_machine(c, m.heap)
    &&& same_contents(m.heap, c.heap)
}

/// Whether a machine has failed or waits for the host.
pub open spec fn stuck(m: Machine) -> bool {
    m.control is Failed || m.control is Waiting
}

/// Whether a machine has failed where only a machine with adjustments does: a cell that it
/// needs has been freed, a count is at its limit, or a name is not bound whose count it is to
/// adjust.
pub open spec fn at_fault(m: Machine) -> bool {
    m.control matches ControlTerm::Failed(e) && match e {
        Fault::Heap(HeapError::UseAfterFree(_)) | Fault::Heap(HeapError::InvalidAddress(_)) => true,
        Fault::NoText(Val::HeapRef(addr)) => !live(m.heap, addr as int),
        Fault::CountOverflow(_) | Fault::UnboundVariable(_) => true,
        _ => false,
    }
}

/// Whether a machine keeps up with another: it follows it, or where the other one can go no
/// further, neither can it, unless the adjustments are at fault.
pub open spec fn keeps_up(m: Machine, c: Machine) -> bool {
    ||| follows(m, c)
    ||| stuck(c) && (stuck(m) || at_fault(c))
}

/// A term that is no adjustment keeps its node.
proof fn plain_node(t: Term)
    requires
        transparent(t),
        !(t.op is RcAnnotated),
        !ends_scope(t),
    ensures
        plain(t).op == t.op,
        plain(t).names == t.names,
        plain(t).kids == plain_terms(t.kids),
        plain(t).arms == plain_arms(t.arms),
{
    assert(plain(t).kids =~= plain_terms(t.kids));
    assert(plain(t).arms =~= plain_arms(t.arms));
}

proof fn plain_push(s: Seq<FrameTerm>, f: FrameTerm)
    ensures
        !only_adjusts(f) ==> plain_stack(s.push(f)) == plain_stack(s).push(plain_frame(f)),
        only_adjusts(f) ==> plain_stack(s.push(f)) == plain_stack(s),
{
    assert(s.push(f).drop_last() =~= s);
}

proof fn plain_function_found(s: Seq<FunctionTerm>, name: Name)
    ensures
        find_function(plain_functions(s), name) == match find_function(s, name) {
            Some(f) => Some(FunctionTerm { body: plain(f.body), ..f }),
            None => None,
        },
    decreases s.len(),
{
    if s.len() > 0 {
        assert(plain_functions(s).drop_last() =~= plain_functions(s.drop_last()));
        plain_function_found(s.drop_last(), name);
    }
}

proof fn plain_lookup(c: Machine, m: Machine, name: Name)
    requires
        m.env == c.env,
        m.globals == c.globals,
        m.functions == plain_functions(c.functions),
    ensures
        lookup(m, name) == lookup(c, name),
{
    plain_function_found(c.functions, name);
}

proof fn binary_follows(c: Machine, m: Machine, op: BinOp, a: Val, b: Val)
    requires
        follows(m, c),
    ensures
        keeps_up(binary(m, op, a, b), binary(c, op, a, b)),
{
}

proof fn called_follows(c: Machine, m: Machine, callee: Val, args: Seq<Val>)
    requires
        follows(m, c),
    ensures
        keeps_up(called(m, callee, args), called(c, callee, args)),
{
    if let Val::Function(name) = callee {
        plain_function_found(c.functions, name);
    }
    plain_push(c.stack, FrameTerm::Restore { env: c.env });
}

proof fn array_follows(c: Machine, m: Machine, op: Op, vs: Seq<Val>)
    requires
        follows(m, c),
        !in_place(op),
    ensures
        keeps_up(on_array(m, op, vs), on_array(c, op, vs)),
{
}

proof fn shown_follows(c: Machine, m: Machine, v: Val)
    requires
        follows(m, c),
    ensures
        keeps_up(shown(m, v), shown(c, v)),
{
}

pub(crate) proof fn strings_follow(h: Cells, h2: Cells, ss: Seq<Name>, n: nat)
    requires
        same_contents(h, h2),
    ensures
        same_contents(with_strings(h, ss, n).0, with_strings(h2, ss, n).0),
        with_strings(h, ss, n).1 == with_strings(h2, ss, n).1,
    decreases n,
{
    if 0 < n <= ss.len() {
        strings_follow(h, h2, ss, (n - 1) as nat);
    }
}

proof fn text_follows(c: Machine, m: Machine, op: Op, vs: Seq<Val>)
    requires
        follows(m, c),
        !in_place(op),
    ensures
        keeps_up(on_text(m, op, vs), on_text(c, op, vs)),
{
    assert forall|place: nat| #[trigger] text_of(c.heap, op, vs, place) is Ok implies text_of(
        m.heap,
        op,
        vs,
        place,
    ) == text_of(c.heap, op, vs, place) by {}
    if op == Op::StrSplit {
        assert forall|ss: Seq<Name>| same_contents(
            #[trigger] with_strings(m.heap, ss, ss.len()).0,
            with_strings(c.heap, ss, ss.len()).0,
        ) && with_strings(m.heap, ss, ss.len()).1 == with_strings(c.heap, ss, ss.len()).1 by {
            strings_follow(m.heap, c.heap, ss, ss.len());
        }
    } else if built(c.heap, op, vs) is Ok {
        assert(built(m.heap, op, vs) == built(c.heap, op, vs));
    }
}

proof fn applied_follows(c: Machine, m: Machine, op: Op, names: Seq<Name>, vs: Seq<Val>)
    requires
        follows(m, c),
        !is_reuse_op(op),
    ensures
        keeps_up(
            applied(m, op, names, vs),
            applied(c, op, names, vs),
        ),
{
    match op {
        Op::Unary(_) | Op::Ctor => {},
        Op::Binary(o) => {
            binary_follows(c, m, o, vs[0], vs[1]);
        },
        Op::Call => {
            called_follows(c, m, vs[0], vs.subrange(1, vs.len() as int));
        },
        Op::TaskJoin | Op::ChannelSend | Op::ChannelRecv => {},
        Op::RefNew | Op::RefGet | Op::RefSet => {},
        Op::ArrayPush | Op::ArrayPop | Op::ArraySet | Op::ArrayRemove => {
            array_follows(c, m, op, vs);
        },
        Op::ToString => {
            shown_follows(c, m, vs[0]);
        },
        _ => {
            text_follows(c, m, op, vs);
        },
    }
}

proof fn operands_follow(
    c: Machine,
    m: Machine,
    op: Op,
    names: Seq<Name>,
    done: Seq<Val>,
    todo: Seq<Term>,
)
    requires
        follows(m, c),
        !is_reuse_op(op),
    ensures
        keeps_up(
            operands(m, op, names, done, plain_terms(todo)),
            operands(c, op, names, done, todo),
        ),
{
    if todo.len() == 0 {
        applied_follows(c, m, op, names, done);
    } else {
        let rest = todo.subrange(1, todo.len() as int);
        let f = FrameTerm::Operands { op, names, done, todo: rest };
        plain_push(c.stack, f);
        assert(plain_terms(rest) =~= plain_terms(todo).subrange(1, todo.len() as int));
    }
}

proof fn chosen_follows(
    c: Machine,
    m: Machine,
    tag: Name,
    fields: Seq<Val>,
    arms: Seq<ArmTerm>,
)
    requires
        follows(m, c),
    ensures
        keeps_up(
            chosen(m, tag, fields, plain_arms(arms)),
            chosen(c, tag, fields, arms),
        ),
    decreases arms.len(),
{
    if arms.len() > 0 {
        let arm = arms[0];
        let rest = arms.subrange(1, arms.len() as int);
        let ps = plain_arms(arms);
        assert(ps[0] == plain_arm(arm));
        assert(ps.subrange(1, ps.len() as int) =~= plain_arms(rest));
        chosen_follows(c, m, tag, fields, rest);
        plain_push(
            c.stack,
            FrameTerm::Guard { tag, fields, bound: fields.len(), body: arm.body, rest },
        );
        plain_push(c.stack, FrameTerm::Unbind { count: fields.len() });
    }
}

proof fn looped_follows(c: Machine, m: Machine, var: Name, i: i64, end: i64, body: Term)
    requires
        follows(m, c),
    ensures
        keeps_up(
            looped(m, var, i, end, plain(body)),
            looped(c, var, i, end, body),
        ),
{
    plain_push(c.stack, FrameTerm::LoopNext { var, next: (i + 1) as i64, end, body });
}

proof fn loaded_follows(c: Machine, m: Machine, rest: Seq<GlobalTerm>)
    requires
        follows(m, c),
    ensures
        keeps_up(loaded(m, plain_globals(rest)), loaded(c, rest)),
{
    if rest.len() > 0 {
        let tail = rest.subrange(1, rest.len() as int);
        assert(plain_globals(rest).subrange(1, rest.len() as int) =~= plain_globals(tail));
        plain_push(c.stack, FrameTerm::Globals { name: rest[0].name, rest: tail });
    }
}

proof fn receivers_follow(
    c: Machine,
    m: Machine,
    ready: Seq<super::value::ReceiverHandle>,
    kids: Seq<Term>,
)
    requires
        follows(m, c),
    ensures
        keeps_up(
            next_receiver(m, ready, plain_terms(kids)),
            next_receiver(c, ready, kids),
        ),
{
    plain_push(c.stack, FrameTerm::Receivers { ready, kids });
}

/// Starting to evaluate a term that is no adjustment.
proof fn entered_follows(c: Machine, m: Machine, t: Term)
    requires
        follows(m, c),
        transparent(t),
        !(t.op is RcAnnotated),
        !ends_scope(t),
    ensures
        keeps_up(entered(m, plain(t)), entered(c, t)),
{
    plain_node(t);
    let p = plain(t);
    match t.op {
        Op::Var => {
            plain_lookup(c, m, t.names[0]);
        },
        Op::Binary(BinOp::And) => {
            plain_push(c.stack, FrameTerm::Rhs { and: true, rhs: t.kids[1] });
        },
        Op::Binary(BinOp::Or) => {
            plain_push(c.stack, FrameTerm::Rhs { and: false, rhs: t.kids[1] });
        },
        Op::Let => {
            plain_push(c.stack, FrameTerm::LetBody { name: t.names[0], body: t.kids[1] });
        },
        Op::If => {
            plain_push(
                c.stack,
                FrameTerm::Branches { then_branch: t.kids[1], else_branch: t.kids[2] },
            );
        },
        Op::Match => {
            plain_push(c.stack, FrameTerm::Arms { arms: t.arms });
        },
        Op::For => {
            plain_push(
                c.stack,
                FrameTerm::LoopStart { var: t.names[0], end: t.kids[1], body: t.kids[2] },
            );
        },
        Op::Assign => {
            plain_push(c.stack, FrameTerm::AssignRest { name: t.names[0], rest: t.kids[1] });
        },
        Op::Closure(_) => {
            let new = ClosureTerm { params: t.names, body: t.kids[0], captured: c.env };
            assert(plain_closures(c.closures.push(new)) =~= plain_closures(c.closures).push(
                ClosureTerm { body: plain(t.kids[0]), ..new },
            ));
        },
        Op::Spawn | Op::Channel => {},
        Op::Select => {
            receivers_follow(c, m, Seq::empty(), t.kids);
        },
        Op::Call => {
            let callee = t.kids[0];
            plain_function_found(c.functions, callee.names[0]);
            if callee.op == Op::Var {
                plain_node(callee);
                assert(transparent(callee));
            }
            let rest = t.kids.subrange(1, t.kids.len() as int);
            assert(plain_terms(rest) =~= p.kids.subrange(1, p.kids.len() as int));
            operands_follow(c, m, t.op, t.names, seq![Val::Function(callee.names[0])], rest);
            operands_follow(c, m, t.op, t.names, Seq::empty(), t.kids);
        },
        _ => {
            operands_follow(c, m, t.op, t.names, Seq::empty(), t.kids);
        },
    }
}

/// Handing a value to a frame that is no adjustment.
proof fn given_follows(c: Machine, m: Machine, f: FrameTerm, v: Val)
    requires
        follows(m, c),
        frame_transparent(f),
        !only_adjusts(f),
    ensures
        keeps_up(given(m, plain_frame(f), v), given(c, f, v)),
{
    match f {
        FrameTerm::Operands { op, names, done, todo } => {
            operands_follow(c, m, op, names, done.push(v), todo);
        },
        FrameTerm::Rhs { and, .. } => {
            plain_push(c.stack, FrameTerm::RhsCheck { and });
        },
        FrameTerm::LetBody { .. } => {
            plain_push(c.stack, FrameTerm::Unbind { count: 1 });
        },
        FrameTerm::Arms { arms } => {
            assert forall|tag: Name, fields: Seq<Val>| keeps_up(
                chosen(m, tag, fields, plain_arms(arms)),
                #[trigger] chosen(c, tag, fields, arms),
            ) by {
                chosen_follows(c, m, tag, fields, arms);
            }
        },
        FrameTerm::Guard { tag, fields, bound, rest, .. } => {
            plain_push(c.stack, FrameTerm::Unbind { count: bound });
            assert(follows(m.unbind(bound), c.unbind(bound)));
            chosen_follows(c.unbind(bound), m.unbind(bound), tag, fields, rest);
        },
        FrameTerm::LoopStart { var, body, .. } => {
            if let Val::Int(start) = v {
                plain_push(c.stack, FrameTerm::LoopEnd { var, start, body });
            }
        },
        FrameTerm::LoopEnd { var, start, body } => {
            if let Val::Int(end) = v {
                looped_follows(c, m, var, start, end, body);
            }
        },
        FrameTerm::LoopNext { var, next, end, body } => {
            assert(follows(m.unbind(1), c.unbind(1)));
            looped_follows(c.unbind(1), m.unbind(1), var, next, end, body);
        },
        FrameTerm::Receivers { ready, kids } => {
            if let Val::Receiver(r) = v {
                receivers_follow(c, m, ready.push(r), kids);
            }
        },
        FrameTerm::Globals { name, rest } => {
            let c2 = Machine { globals: super::semantics::with_global(c.globals, name, v), ..c };
            let m2 = Machine { globals: super::semantics::with_global(m.globals, name, v), ..m };
            assert(follows(m2, c2));
            loaded_follows(c2, m2, rest);
        },
        _ => {},
    }
}

/// An adjustment changes nothing that is followed.
proof fn adjusting_is_not_followed(c: Machine, m: Machine, t: Term)
    requires
        follows(m, c.evaluate(t)),
        transparent(t),
        t.op is RcAnnotated,
    ensures
        keeps_up(m, step(c.evaluate(t))),
{
    assert(plain(t) == plain(t.kids[0]));
}

/// Neither does setting a result aside while a count is adjusted.
proof fn setting_aside_is_not_followed(c: Machine, m: Machine, t: Term)
    requires
        follows(m, c.evaluate(t)),
        transparent(t),
        ends_scope(t),
    ensures
        follows(m, step(c.evaluate(t))),
{
    assert(plain(t) == plain(t.kids[0]));
    plain_push(c.stack, FrameTerm::LetBody { name: t.names[0], body: t.kids[1] });
}

/// Adjusting a count while a result is set aside takes four steps, and gives the result.
proof fn setting_aside_takes_four_steps(c: Machine, m: Machine, v: Val)
    requires
        follows(m, c),
        c.control == ControlTerm::Return(v),
        c.stack.len() > 0,
        only_adjusts(c.stack.last()),
    ensures
        run(c, 1).control is Eval,
        stuck(run(c, 2)) ==> at_fault(run(c, 2)),
        stuck(run(c, 2)) || (run(c, 2).control is Eval && run(c, 3).control is Return && run(
            c,
            3,
        ).stack.len() > 0 && follows(m, run(c, 4))),
{
    reveal_with_fuel(run, 5);
    if let FrameTerm::LetBody { name, body } = c.stack.last() {
        let q = c.idle().pop();
        let c1 = step(c);
        let f = FrameTerm::Unbind { count: 1 };
        assert(c1 == q.bind(name, v).push(f).evaluate(body));
        let c2 = step(c1);
        if !stuck(c2) {
            let rest = body.kids[0];
            assert(rest == t_var(name));
            assert(c2.control == ControlTerm::Eval(rest));
            assert(c2.env.last() == (name, v));
            assert(find(c2.env, name) == Some(c2.env.len() - 1));
            assert(rest.names[0] == name);
            let c3 = step(c2);
            assert(c3.control == ControlTerm::Return(v));
            assert(c3.stack == c1.stack);
            assert(c3.stack.last() == f);
            assert(c3.stack.drop_last() =~= q.stack);
            let c4 = step(c3);
            assert(c4.env =~= c.env);
            assert(c4.stack == q.stack);
            assert(plain_stack(c.stack) == plain_stack(q.stack));
            assert(same_contents(c.heap, c2.heap));
        }
    }
}

/// A machine that has failed or waits never comes to a value by itself.
proof fn stuck_is_never_done(m: Machine, n: nat)
    requires
        stuck(m),
    ensures
        stuck(run(m, n)),
    decreases n,
{
    if n > 0 {
        stuck_is_never_done(step(m), (n - 1) as nat);
    }
}

proof fn transparent_push(m: Machine, f: FrameTerm, t: Term)
    requires
        machine_transparent(m),
        frame_transparent(f),
        transparent(t),
    ensures
        machine_transparent(m.push(f).evaluate(t)),
{
    let r = m.push(f).evaluate(t);
    assert forall|i: int| 0 <= i < r.stack.len() implies frame_transparent(
        #[trigger] r.stack[i],
    ) by {
        if i < m.stack.len() {
            assert(frame_transparent(m.stack[i]));
        }
    }
}

proof fn transparent_function_found(s: Seq<FunctionTerm>, name: Name)
    requires
        forall|i: int| 0 <= i < s.len() ==> transparent((#[trigger] s[i]).body),
    ensures
        find_function(s, name) matches Some(f) ==> transparent(f.body),
    decreases s.len(),
{
    if s.len() > 0 && s.last().name != name {
        assert forall|i: int| 0 <= i < s.drop_last().len() implies transparent(
            (#[trigger] s.drop_last()[i]).body,
        ) by {
            assert(s.drop_last()[i] == s[i]);
        }
        transparent_function_found(s.drop_last(), name);
    }
}

/// Whether a machine is another one on a perhaps different heap, with nothing to evaluate.
pub open spec fn answers(r: Machine, m: Machine) -> bool {
    &&& r.stack == m.stack
    &&& r.closures == m.closures
    &&& r.functions == m.functions
    &&& !(r.control is Eval)
}

proof fn text_answers(m: Machine, op: Op, vs: Seq<Val>)
    ensures
        answers(on_text(m, op, vs), m),
{
}

proof fn array_answers(m: Machine, op: Op, vs: Seq<Val>)
    ensures
        answers(on_array(m, op, vs), m),
{
}

proof fn binary_answers(m: Machine, op: BinOp, a: Val, b: Val)
    ensures
        answers(binary(m, op, a, b), m),
{
}

pub(crate) proof fn applied_answers(m: Machine, op: Op, names: Seq<Name>, vs: Seq<Val>)
    requires
        op != Op::Call,
    ensures
        answers(applied(m, op, names, vs), m),
{
    match op {
        Op::Binary(o) => {
            binary_answers(m, o, vs[0], vs[1]);
        },
        Op::Unary(_) | Op::Ctor | Op::CtorReuse | Op::TaskJoin | Op::ChannelSend | Op::ChannelRecv
        | Op::RefNew | Op::RefGet | Op::RefSet | Op::ToString => {},
        Op::ArrayPush | Op::ArrayPop | Op::ArraySet | Op::ArrayRemove | Op::ArrayPushReuse
        | Op::ArrayPopReuse | Op::ArraySetReuse | Op::ArrayRemoveReuse => {
            array_answers(m, op, vs);
        },
        _ => {
            text_answers(m, op, vs);
        },
    }
}

proof fn called_stays_transparent(m: Machine, callee: Val, args: Seq<Val>)
    requires
        machine_transparent(m),
        m.control is Return,
    ensures
        machine_transparent(called(m, callee, args)),
{
    let f = FrameTerm::Restore { env: m.env };
    match callee {
        Val::Function(name) => {
            transparent_function_found(m.functions, name);
            if let Some(g) = find_function(m.functions, name) {
                transparent_push(m, f, g.body);
            }
        },
        Val::Closure(id) => {
            if id < m.closures.len() {
                transparent_push(m, f, m.closures[id as int].body);
            }
        },
        _ => {},
    }
}

proof fn applied_stays_transparent(m: Machine, op: Op, names: Seq<Name>, vs: Seq<Val>)
    requires
        machine_transparent(m),
        m.control is Return,
    ensures
        machine_transparent(applied(m, op, names, vs)),
{
    if op == Op::Call {
        called_stays_transparent(m, vs[0], vs.subrange(1, vs.len() as int));
    } else {
        applied_answers(m, op, names, vs);
    }
}

proof fn operands_stay_transparent(
    m: Machine,
    op: Op,
    names: Seq<Name>,
    done: Seq<Val>,
    todo: Seq<Term>,
)
    requires
        machine_transparent(m),
        m.control is Return,
        !is_reuse_op(op),
        all_transparent(todo),
    ensures
        machine_transparent(operands(m, op, names, done, todo)),
{
    if todo.len() == 0 {
        applied_stays_transparent(m, op, names, done);
    } else {
        let rest = todo.subrange(1, todo.len() as int);
        assert forall|i: int| 0 <= i < rest.len() implies transparent(#[trigger] rest[i]) by {
            assert(rest[i] == todo[i + 1]);
        }
        transparent_push(m, FrameTerm::Operands { op, names, done, todo: rest }, todo[0]);
    }
}

proof fn receivers_stay_transparent(
    m: Machine,
    ready: Seq<super::value::ReceiverHandle>,
    kids: Seq<Term>,
)
    requires
        machine_transparent(m),
        m.control is Return,
        all_transparent(kids),
        kids.len() % 2 == 0,
    ensures
        machine_transparent(next_receiver(m, ready, kids)) || stuck(next_receiver(m, ready, kids)),
{
    if ready.len() < kids.len() / 2 {
        transparent_push(
            m,
            FrameTerm::Receivers { ready, kids },
            kids[2 * ready.len() as int],
        );
    }
}

proof fn chosen_stays_transparent(
    m: Machine,
    tag: Name,
    fields: Seq<Val>,
    arms: Seq<ArmTerm>,
)
    requires
        machine_transparent(m),
        m.control is Return,
        arms_transparent(arms),
    ensures
        machine_transparent(chosen(m, tag, fields, arms)),
    decreases arms.len(),
{
    if arms.len() > 0 {
        let arm = arms[0];
        let rest = arms.subrange(1, arms.len() as int);
        assert(transparent_arm(arm));
        assert forall|k: int| 0 <= k < rest.len() implies transparent_arm(#[trigger] rest[k]) by {
            assert(rest[k] == arms[k + 1]);
        }
        chosen_stays_transparent(m, tag, fields, rest);
        let inner = Machine { env: m.env + zipped(arm.bindings, fields), ..m };
        assert(machine_transparent(inner));
        if let Some(g) = arm.guard {
            transparent_push(
                inner,
                FrameTerm::Guard { tag, fields, bound: fields.len(), body: arm.body, rest },
                g,
            );
        }
        transparent_push(inner, FrameTerm::Unbind { count: fields.len() }, arm.body);
    }
}

proof fn looped_stays_transparent(m: Machine, var: Name, i: i64, end: i64, body: Term)
    requires
        machine_transparent(m),
        m.control is Return,
        transparent(body),
    ensures
        machine_transparent(looped(m, var, i, end, body)),
{
    let inner = m.bind(var, Val::Int(i));
    assert(machine_transparent(inner));
    transparent_push(inner, FrameTerm::LoopNext { var, next: (i + 1) as i64, end, body }, body);
}

proof fn loaded_stays_transparent(m: Machine, rest: Seq<GlobalTerm>)
    requires
        machine_transparent(m),
        m.control is Return,
        forall|i: int| 0 <= i < rest.len() ==> transparent((#[trigger] rest[i]).value),
    ensures
        machine_transparent(loaded(m, rest)),
{
    if rest.len() > 0 {
        let tail = rest.subrange(1, rest.len() as int);
        assert forall|i: int| 0 <= i < tail.len() implies transparent(
            (#[trigger] tail[i]).value,
        ) by {
            assert(tail[i] == rest[i + 1]);
        }
        transparent_push(
            m,
            FrameTerm::Globals { name: rest[0].name, rest: tail },
            rest[0].value,
        );
    }
}

proof fn entered_stays_transparent(m: Machine, t: Term)
    requires
        machine_transparent(m),
        m.control is Return,
        transparent(t),
    ensures
        machine_transparent(entered(m, t)) || stuck(entered(m, t)),
{
    match t.op {
        Op::Binary(BinOp::And) => {
            transparent_push(m, FrameTerm::Rhs { and: true, rhs: t.kids[1] }, t.kids[0]);
        },
        Op::Binary(BinOp::Or) => {
            transparent_push(m, FrameTerm::Rhs { and: false, rhs: t.kids[1] }, t.kids[0]);
        },
        Op::Let => {
            transparent_push(
                m,
                FrameTerm::LetBody { name: t.names[0], body: t.kids[1] },
                t.kids[0],
            );
        },
        Op::If => {
            transparent_push(
                m,
                FrameTerm::Branches { then_branch: t.kids[1], else_branch: t.kids[2] },
                t.kids[0],
            );
        },
        Op::Match => {
            transparent_push(m, FrameTerm::Arms { arms: t.arms }, t.kids[0]);
        },
        Op::For => {
            transparent_push(
                m,
                FrameTerm::LoopStart { var: t.names[0], end: t.kids[1], body: t.kids[2] },
                t.kids[0],
            );
        },
        Op::Assign => {
            transparent_push(
                m,
                FrameTerm::AssignRest { name: t.names[0], rest: t.kids[1] },
                t.kids[0],
            );
        },
        Op::Select => {
            receivers_stay_transparent(m, Seq::empty(), t.kids);
        },
        Op::Call => {
            let rest = t.kids.subrange(1, t.kids.len() as int);
            assert forall|i: int| 0 <= i < rest.len() implies transparent(#[trigger] rest[i]) by {
                assert(rest[i] == t.kids[i + 1]);
            }
            operands_stay_transparent(
                m,
                t.op,
                t.names,
                seq![Val::Function(t.kids[0].names[0])],
                rest,
            );
            operands_stay_transparent(m, t.op, t.names, Seq::empty(), t.kids);
        },
        Op::RcAnnotated(_) => {
            assert(transparent(t.kids[0]));
        },
        Op::Closure(_) => {
            assert(transparent(t.kids[0]));
        },
        _ => {
            operands_stay_transparent(m, t.op, t.names, Seq::empty(), t.kids);
        },
    }
}

proof fn given_stays_transparent(m: Machine, f: FrameTerm, v: Val)
    requires
        machine_transparent(m),
        m.control is Return,
        frame_transparent(f),
    ensures
        machine_transparent(given(m, f, v)) || stuck(given(m, f, v)),
{
    match f {
        FrameTerm::Operands { op, names, done, todo } => {
            operands_stay_transparent(m, op, names, done.push(v), todo);
        },
        FrameTerm::Rhs { and, rhs } => {
            transparent_push(m, FrameTerm::RhsCheck { and }, rhs);
        },
        FrameTerm::LetBody { name, body } => {
            let inner = m.bind(name, v);
            assert(machine_transparent(inner));
            transparent_push(inner, FrameTerm::Unbind { count: 1 }, body);
        },
        FrameTerm::Arms { arms } => {
            assert forall|tag: Name, fields: Seq<Val>| machine_transparent(
                #[trigger] chosen(m, tag, fields, arms),
            ) by {
                chosen_stays_transparent(m, tag, fields, arms);
            }
        },
        FrameTerm::Guard { tag, fields, bound, body, rest } => {
            transparent_push(m, FrameTerm::Unbind { count: bound }, body);
            assert(machine_transparent(m.unbind(bound)));
            chosen_stays_transparent(m.unbind(bound), tag, fields, rest);
        },
        FrameTerm::LoopStart { var, end, body } => {
            if let Val::Int(start) = v {
                transparent_push(m, FrameTerm::LoopEnd { var, start, body }, end);
            }
        },
        FrameTerm::LoopEnd { var, start, body } => {
            if let Val::Int(end) = v {
                looped_stays_transparent(m, var, start, end, body);
            }
        },
        FrameTerm::LoopNext { var, next, end, body } => {
            assert(machine_transparent(m.unbind(1)));
            looped_stays_transparent(m.unbind(1), var, next, end, body);
        },
        FrameTerm::Receivers { ready, kids } => {
            if let Val::Receiver(r) = v {
                receivers_stay_transparent(m, ready.push(r), kids);
            }
        },
        FrameTerm::Globals { name, rest } => {
            let inner = Machine {
                globals: super::semantics::with_global(m.globals, name, v),
                ..m
            };
            assert(machine_transparent(inner));
            loaded_stays_transparent(inner, rest);
        },
        _ => {},
    }
}

/// A step keeps the terms in a machine transparent.
proof fn a_step_stays_transparent(m: Machine)
    requires
        machine_transparent(m),
        !stuck(m),
    ensures
        machine_transparent(step(m)) || stuck(step(m)),
{
    match m.control {
        ControlTerm::Eval(t) => {
            assert(machine_transparent(m.idle()));
            entered_stays_transparent(m.idle(), t);
        },
        ControlTerm::Return(v) => {
            if m.stack.len() > 0 {
                let q = m.idle().pop();
                assert forall|i: int| 0 <= i < q.stack.len() implies frame_transparent(
                    #[trigger] q.stack[i],
                ) by {
                    assert(q.stack[i] == m.stack[i]);
                }
                assert(frame_transparent(m.stack[m.stack.len() - 1]));
                given_stays_transparent(q, m.stack.last(), v);
            }
        },
        _ => {},
    }
}

/// A machine that comes to a value is followed to that value.
proof fn a_value_is_followed(c: Machine, m: Machine, n: nat, v: Val) -> (k: nat)
    requires
        follows(m, c),
        machine_transparent(c),
        run(c, n).progress() == Progress::Done(v),
    ensures
        k <= n,
        run(m, k).progress() == Progress::Done(v),
        run(m, k).env == run(c, n).env,
        same_contents(run(m, k).heap, run(c, n).heap),
    decreases n,
{
    if settled(c) {
        settled_stays(c, n);
        assert(run(m, 0) == m);
        0
    } else {
        if stuck(c) {
            stuck_is_never_done(c, n);
        }
        assert(n > 0);
        let next = step(c);
        if stuck(next) {
            stuck_is_never_done(next, (n - 1) as nat);
        }
        a_step_stays_transparent(c);
        match c.control {
            ControlTerm::Eval(t) => {
                assert(c == c.evaluate(t));
                if t.op is RcAnnotated {
                    adjusting_is_not_followed(c, m, t);
                    a_value_is_followed(next, m, (n - 1) as nat, v)
                } else if ends_scope(t) {
                    setting_aside_is_not_followed(c, m, t);
                    a_value_is_followed(next, m, (n - 1) as nat, v)
                } else {
                    assert(follows(m.idle(), c.idle()));
                    entered_follows(c.idle(), m.idle(), t);
                    assert(step(m) == entered(m.idle(), plain(t)));
                    let k = a_value_is_followed(next, step(m), (n - 1) as nat, v);
                    assert(run(m, k + 1) == run(step(m), k));
                    k + 1
                }
            },
            ControlTerm::Return(w) => {
                if only_adjusts(c.stack.last()) {
                    setting_aside_takes_four_steps(c, m, w);
                    steps_add_up(c, 1, 1);
                    four_steps_stay_transparent(c);
                    if stuck(run(c, 2)) {
                        if n >= 2 {
                            steps_add_up(c, 2, (n - 2) as nat);
                            stuck_is_never_done(run(c, 2), (n - 2) as nat);
                        }
                    }
                    assert(n >= 4);
                    steps_add_up(c, 4, (n - 4) as nat);
                    assert(machine_transparent(run(c, 4)));
                    a_value_is_followed(run(c, 4), m, (n - 4) as nat, v)
                } else {
                    let f = c.stack.last();
                    let q = c.idle().pop();
                    let p = m.idle().pop();
                    assert(plain_stack(c.stack) == plain_stack(q.stack).push(plain_frame(f)));
                    assert(m.stack.last() == plain_frame(f));
                    assert(m.stack.drop_last() =~= plain_stack(q.stack));
                    assert(follows(p, q));
                    assert(frame_transparent(c.stack[c.stack.len() - 1]));
                    given_follows(q, p, f, w);
                    assert(step(m) == given(p, plain_frame(f), w));
                    let k = a_value_is_followed(next, step(m), (n - 1) as nat, v);
                    assert(run(m, k + 1) == run(step(m), k));
                    k + 1
                }
            },
            _ => 0,
        }
    }
}

/// How many adjustments stand before what a term does.
spec fn adjustments_before(t: Term) -> nat
    decreases t,
{
    if (t.op is RcAnnotated || ends_scope(t)) && t.kids.len() > 0 {
        1 + adjustments_before(t.kids[0])
    } else {
        0
    }
}

/// A bound on how many adjustments come next.
spec fn adjustments_next(c: Machine) -> nat {
    match c.control {
        ControlTerm::Eval(t) => adjustments_before(t),
        _ => c.stack.len(),
    }
}

/// An error leaves every frame.
proof fn a_failure_comes_through(c: Machine, e: Fault)
    requires
        c.control == ControlTerm::Failed(e),
    ensures
        run(c, c.stack.len()).progress() == Progress::Failed(e),
        run(c, c.stack.len()).heap == c.heap,
    decreases c.stack.len(),
{
    if c.stack.len() > 0 {
        let next = step(c);
        assert(next.stack.len() == c.stack.len() - 1);
        assert(run(c, c.stack.len()) == run(next, next.stack.len()));
        a_failure_comes_through(next, e);
    }
}

/// Whether a machine has come to an end because of its adjustments.
pub open spec fn ended_at_fault(c: Machine) -> bool {
    at_fault(c) && c.progress() is Failed
}

proof fn a_fault_comes_through(c: Machine) -> (n: nat)
    requires
        at_fault(c),
    ensures
        ended_at_fault(run(c, n)),
{
    a_failure_comes_through(c, c.control->Failed_0);
    c.stack.len()
}

/// Whether a machine adjusts a count next, or sets a result aside to do so.
spec fn adjusts_next(c: Machine) -> bool {
    c.control matches ControlTerm::Eval(t) && (t.op is RcAnnotated || ends_scope(t))
}

/// Whether a machine has set a result aside and adjusts a count now.
spec fn releases_next(c: Machine) -> bool {
    c.control is Return && c.stack.len() > 0 && only_adjusts(c.stack.last())
}

proof fn a_followed_step(c: Machine, m: Machine)
    requires
        follows(m, c),
        machine_transparent(c),
        !settled(c),
        !stuck(c),
        !adjusts_next(c),
        !releases_next(c),
    ensures
        keeps_up(step(m), step(c)),
        !settled(m),
{
    match c.control {
        ControlTerm::Eval(t) => {
            assert(follows(m.idle(), c.idle()));
            entered_follows(c.idle(), m.idle(), t);
            assert(step(m) == entered(m.idle(), plain(t)));
        },
        ControlTerm::Return(w) => {
            let f = c.stack.last();
            let q = c.idle().pop();
            let p = m.idle().pop();
            assert(plain_stack(c.stack) == plain_stack(q.stack).push(plain_frame(f)));
            assert(m.stack.last() == plain_frame(f));
            assert(m.stack.drop_last() =~= plain_stack(q.stack));
            assert(follows(p, q));
            assert(frame_transparent(c.stack[c.stack.len() - 1]));
            given_follows(q, p, f, w);
            assert(step(m) == given(p, plain_frame(f), w));
        },
        _ => {},
    }
}

proof fn an_adjusting_step(c: Machine, m: Machine)
    requires
        follows(m, c),
        machine_transparent(c),
        adjusts_next(c),
    ensures
        stuck(step(c)) ==> at_fault(step(c)),
        !stuck(step(c)) ==> follows(m, step(c)) && step(c).control is Eval && adjustments_next(
            step(c),
        ) < adjustments_next(c),
{
    let t = c.control->Eval_0;
    assert(c == c.evaluate(t));
    assert(shaped(t));
    if t.op is RcAnnotated {
        adjusting_is_not_followed(c, m, t);
        assert(stuck(step(c)) || step(c).control == ControlTerm::Eval(t.kids[0]));
        assert(stuck(step(c)) ==> at_fault(step(c)));
    } else {
        setting_aside_is_not_followed(c, m, t);
        assert(step(c).control == ControlTerm::Eval(t.kids[0]));
    }
}

proof fn a_release_steps(c: Machine, m: Machine)
    requires
        follows(m, c),
        machine_transparent(c),
        releases_next(c),
    ensures
        stuck(run(c, 2)) ==> at_fault(run(c, 2)),
        !stuck(run(c, 2)) ==> {
            let r = run(c, 4);
            follows(m, r) && machine_transparent(r) && r.control is Return && adjustments_next(r)
                < adjustments_next(c)
        },
{
    let w = c.control->Return_0;
    setting_aside_takes_four_steps(c, m, w);
    four_steps_stay_transparent(c);
    if !stuck(run(c, 2)) {
        reveal_with_fuel(run, 5);
        if let FrameTerm::LetBody { name, body } = c.stack.last() {
            let c1 = step(c);
            let c2 = step(c1);
            let c3 = step(c2);
            let f = FrameTerm::Unbind { count: 1 };
            assert(c1 == c.idle().pop().bind(name, w).push(f).evaluate(body));
            assert(c2.stack == c1.stack);
            assert(c3.stack == c1.stack);
            assert(c3.stack.last() == f);
        }
    }
}

/// A value that is come to without adjustments is come to with them, unless they are at
/// fault.
proof fn a_value_is_reached(c: Machine, m: Machine, k: nat, v: Val) -> (n: nat)
    requires
        follows(m, c),
        machine_transparent(c),
        run(m, k).progress() == Progress::Done(v),
    ensures
        ended_at_fault(run(c, n)) || {
            &&& run(c, n).progress() == Progress::Done(v)
            &&& run(c, n).env == run(m, k).env
            &&& same_contents(run(m, k).heap, run(c, n).heap)
        },
    decreases k, (if c.control is Eval { 2nat } else { 1 }), adjustments_next(c),
{
    if stuck(c) {
        stuck_is_never_done(m, k);
        0
    } else if settled(c) {
        assert(plain_stack(c.stack) =~= Seq::empty());
        settled_stays(m, k);
        assert(run(c, 0) == c);
        0
    } else if adjusts_next(c) {
        let next = step(c);
        a_step_stays_transparent(c);
        an_adjusting_step(c, m);
        let n = if stuck(next) {
            a_fault_comes_through(next)
        } else {
            a_value_is_reached(next, m, k, v)
        };
        assert(run(c, n + 1) == run(next, n));
        n + 1
    } else if releases_next(c) {
        a_release_steps(c, m);
        if stuck(run(c, 2)) {
            let n = a_fault_comes_through(run(c, 2));
            steps_add_up(c, 2, n);
            n + 2
        } else {
            let n = a_value_is_reached(run(c, 4), m, k, v);
            steps_add_up(c, 4, n);
            n + 4
        }
    } else {
        a_followed_step(c, m);
        a_step_stays_transparent(c);
        if k == 0 {
            assert(run(m, 0) == m);
        }
        followed_or_at_fault(c, m, k, v)
    }
}

/// One step of each, and then on to the value.
proof fn followed_or_at_fault(c: Machine, m: Machine, k: nat, v: Val) -> (n: nat)
    requires
        k > 0,
        machine_transparent(step(c)) || stuck(step(c)),
        keeps_up(step(m), step(c)),
        run(m, k).progress() == Progress::Done(v),
    ensures
        ended_at_fault(run(c, n)) || {
            &&& run(c, n).progress() == Progress::Done(v)
            &&& run(c, n).env == run(m, k).env
            &&& same_contents(run(m, k).heap, run(c, n).heap)
        },
    decreases k, 0nat, 0nat,
{
    let next = step(c);
    assert(run(m, k) == run(step(m), (k - 1) as nat));
    if stuck(next) && !at_fault(next) {
        stuck_is_never_done(step(m), (k - 1) as nat);
    }
    let n = if at_fault(next) {
        a_fault_comes_through(next)
    } else {
        a_value_is_reached(next, step(m), (k - 1) as nat, v)
    };
    assert(run(c, n + 1) == run(next, n));
    n + 1
}

/// Four steps one after another stay transparent, as long as none fails or waits.
proof fn four_steps_stay_transparent(c: Machine)
    requires
        machine_transparent(c),
        !stuck(c),
    ensures
        !stuck(run(c, 1)) && !stuck(run(c, 2)) && !stuck(run(c, 3)) && !stuck(run(c, 4))
            ==> machine_transparent(run(c, 4)),
{
    reveal_with_fuel(run, 5);
    let c1 = step(c);
    let c2 = step(c1);
    let c3 = step(c2);
    a_step_stays_transparent(c);
    if !stuck(c1) {
        a_step_stays_transparent(c1);
        if !stuck(c2) {
            a_step_stays_transparent(c2);
            if !stuck(c3) {
                a_step_stays_transparent(c3);
            }
        }
    }
}

/// Adjusting reference counts keeps the meaning: what an expression evaluates to with its
/// adjustments, it evaluates to without them, and every cell that is left then holds the
/// same. The functions and closures that it calls may hold adjustments as well.
pub proof fn adjustments_keep_the_meaning(m: Machine, t: Term, n: nat, v: Val) -> (k: nat)
    requires
        machine_transparent(m),
        transparent(t),
        run(started(m, t), n).progress() == Progress::Done(v),
    ensures
        ({
            let source = run(started(plain_machine(m, m.heap), plain(t)), k);
            &&& source.progress() == Progress::Done(v)
            &&& source.env == run(started(m, t), n).env
            &&& same_contents(source.heap, run(started(m, t), n).heap)
        }),
{
    let c = started(m, t);
    let s = started(plain_machine(m, m.heap), plain(t));
    assert(plain_stack(c.stack) =~= s.stack);
    assert(follows(s, c));
    a_value_is_followed(c, s, n, v)
}

/// Adjusting reference counts loses no value: what an expression evaluates to without its
/// adjustments, it evaluates to with them, and every cell that is left then holds the same,
/// unless the adjustments are at fault: a cell that is needed has been freed, a count is at its
/// limit, or a name whose count is to be adjusted is not bound.
pub proof fn adjustments_lose_no_value(m: Machine, t: Term, k: nat, v: Val) -> (n: nat)
    requires
        machine_transparent(m),
        transparent(t),
        run(started(plain_machine(m, m.heap), plain(t)), k).progress() == Progress::Done(v),
    ensures
        ({
            let source = run(started(plain_machine(m, m.heap), plain(t)), k);
            let adjusting = run(started(m, t), n);
            ended_at_fault(adjusting) || {
                &&& adjusting.progress() == Progress::Done(v)
                &&& adjusting.env == source.env
                &&& same_contents(source.heap, adjusting.heap)
            }
        }),
{
    let c = started(m, t);
    let s = started(plain_machine(m, m.heap), plain(t));
    assert(plain_stack(c.stack) =~= s.stack);
    assert(follows(s, c));
    a_value_is_reached(c, s, k, v)
}

/// Releasing match bindings keeps the meaning.
pub proof fn releasing_keeps_the_meaning(
    m: Machine,
    t: Term,
    tag_heap: Map<Name, Vec<bool>>,
    n: nat,
    v: Val,
) -> (k: nat)
    requires
        machine_transparent(m),
        transparent(released(t, tag_heap)),
        run(started(m, released(t, tag_heap)), n).progress() == Progress::Done(v),
    ensures
        ({
            let source = run(started(plain_machine(m, m.heap), plain(t)), k);
            let releasing = run(started(m, released(t, tag_heap)), n);
            &&& source.progress() == Progress::Done(v)
            &&& source.env == releasing.env
            &&& same_contents(source.heap, releasing.heap)
        }),
{
    releasing_only_releases(t, tag_heap);
    adjustments_keep_the_meaning(m, released(t, tag_heap), n, v)
}

} // verus!
