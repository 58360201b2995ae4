//! What crosses between a machine and its host.

use vstd::prelude::*;
use crate::ir::{shaped, Name, Op, Term};
use super::direct::one_step;
use super::error::Fault;
use super::heap::Cells;
use super::laws::{bound_names, found_is_bound, steps_add_up};
use super::lifting::{same_names_are_found_alike, seen_value};
use super::portable::{
    crossing_gives_the_value_back, detached, detaching_from_more, height_is_at_most_nodes, kept,
    placed, placing_adds_a_cell_for_each_part, placing_keeps_the_heap, what_came_can_leave,
};
use super::semantics::{
    applied, detached_scope, entered, lookup, next_receiver, placed_scope, polled, resumed, run,
    spawned, started, step, task_machine,
};
use super::state::{ControlTerm, FrameTerm, Machine, ReplyTerm, RequestTerm, Scope};
use super::value::{Portable, ReceiverHandle, SenderHandle, Val};

verus! {

/// The machine that a select has become when it asks whether its `k`th channel has something.
spec fn asking(m: Machine, t: Term, rs: Seq<ReceiverHandle>, k: nat, open: bool) -> Machine {
    polled(Machine { stack: Seq::empty(), ..m }.idle(), rs, t.kids, k, open)
}

/// A machine after several replies.
pub open spec fn resumed_by(m: Machine, replies: Seq<ReplyTerm>, k: nat) -> Machine
    decreases k,
{
    if k == 0 {
        m
    } else {
        resumed(resumed_by(m, replies, (k - 1) as nat), replies[k - 1])
    }
}

/// Whether a reply says that a channel has nothing now.
pub open spec fn has_nothing(r: ReplyTerm) -> bool {
    r == ReplyTerm::Empty || r == ReplyTerm::Disconnected
}

proof fn receivers_are_evaluated(m: Machine, t: Term, rs: Seq<ReceiverHandle>, i: nat)
    requires
        t.op == Op::Select,
        shaped(t),
        rs.len() == t.kids.len() / 2,
        i <= rs.len(),
        rs.len() > 0,
        forall|j: int|
            0 <= j < rs.len() ==> seen_value(m, #[trigger] t.kids[2 * j]) == Some(Val::Receiver(rs[j])),
    ensures
        run(started(m, t), 1 + 2 * i) == next_receiver(
            Machine { stack: Seq::empty(), ..m }.idle(),
            rs.take(i as int),
            t.kids,
        ),
    decreases i,
{
    let q = Machine { stack: Seq::empty(), ..m }.idle();
    let c = started(m, t);
    if i == 0 {
        one_step(c);
        assert(c.idle() == q);
        assert(rs.take(0) =~= Seq::<ReceiverHandle>::empty());
    } else {
        let p = (i - 1) as nat;
        receivers_are_evaluated(m, t, rs, p);
        let ready = rs.take(p as int);
        let a = run(c, 1 + 2 * p);
        let kid = t.kids[2 * p as int];
        let f = FrameTerm::Receivers { ready, kids: t.kids };
        assert(a == q.push(f).evaluate(kid));
        assert(seen_value(m, t.kids[2 * p as int]) == Some(Val::Receiver(rs[p as int])));
        assert(kid.op == Op::Var);
        assert(lookup(a.idle(), kid.names[0]) == lookup(m, kid.names[0]));
        let b = q.push(f).give(Val::Receiver(rs[p as int]));
        one_step(a);
        assert(a.idle() == q.push(f).idle());
        assert(step(a) == b);
        one_step(b);
        assert(b.stack.last() == f);
        assert(b.stack.drop_last() =~= q.stack);
        assert(b.idle().pop() == q);
        assert(ready.push(rs[p as int]) =~= rs.take(i as int));
        steps_add_up(c, 1 + 2 * p, 1);
        steps_add_up(c, 1 + 2 * p + 1, 1);
    }
}

proof fn replies_move_on(
    m: Machine,
    t: Term,
    rs: Seq<ReceiverHandle>,
    replies: Seq<ReplyTerm>,
    k: nat,
) -> (open: bool)
    requires
        t.op == Op::Select,
        rs.len() == t.kids.len() / 2,
        k < rs.len(),
        k <= replies.len(),
        forall|i: int| 0 <= i < k ==> has_nothing(#[trigger] replies[i]),
    ensures
        resumed_by(asking(m, t, rs, 0, false), replies, k) == asking(m, t, rs, k, open),
    decreases k,
{
    if k == 0 {
        false
    } else {
        let p = (k - 1) as nat;
        let before = replies_move_on(m, t, rs, replies, p);
        let q = Machine { stack: Seq::empty(), ..m }.idle();
        let a = asking(m, t, rs, p, before);
        let f = FrameTerm::Poll { ready: rs, kids: t.kids, at: p, open: before };
        assert(has_nothing(replies[p as int]));
        assert(a.stack.last() == f);
        assert(a.stack.drop_last() =~= q.stack);
        assert(a.idle().pop() == q);
        if replies[p as int] == ReplyTerm::Empty {
            true
        } else {
            before
        }
    }
}

/// A select asks its channels in the order in which they are written, and evaluates the body
/// that is written with the channel that had something, where what came is bound to
/// `__select_recv`. What came is what was sent.
pub proof fn a_select_runs_the_arm_that_received(
    m: Machine,
    t: Term,
    rs: Seq<ReceiverHandle>,
    replies: Seq<ReplyTerm>,
    k: nat,
    p: Portable,
) -> (n: nat)
    requires
        t.op == Op::Select,
        shaped(t),
        rs.len() == t.kids.len() / 2,
        forall|j: int|
            0 <= j < rs.len() ==> seen_value(m, #[trigger] t.kids[2 * j]) == Some(Val::Receiver(rs[j])),
        k < rs.len(),
        k <= replies.len(),
        forall|i: int| 0 <= i < k ==> has_nothing(#[trigger] replies[i]),
        placed(m.heap, p).0.len() <= usize::MAX,
    ensures
        ({
            let s = resumed_by(run(started(m, t), n), replies, k);
            let r = resumed(s, ReplyTerm::Received(p));
            &&& s.control == ControlTerm::Waiting(RequestTerm::TryRecv { from: rs[k as int] })
            &&& s.heap == m.heap
            &&& s.env == m.env
            &&& r.control == ControlTerm::Eval(t.kids[2 * k as int + 1])
            &&& r.globals == m.globals
            &&& lookup(r, "__select_recv"@) matches Ok(v) && detached(r.heap, v, r.heap.len()) == Ok::<
                Portable,
                Fault,
            >(p)
            &&& forall|x: Name| x != "__select_recv"@ ==> #[trigger] lookup(r, x) == lookup(m, x)
        }),
{
    let n = 1 + 2 * rs.len();
    receivers_are_evaluated(m, t, rs, rs.len());
    assert(rs.take(rs.len() as int) =~= rs);
    assert(run(started(m, t), n) == asking(m, t, rs, 0, false));
    let open = replies_move_on(m, t, rs, replies, k);
    let s = asking(m, t, rs, k, open);
    let q = Machine { stack: Seq::empty(), ..m }.idle();
    let r = resumed(s, ReplyTerm::Received(p));
    let f = FrameTerm::Poll { ready: rs, kids: t.kids, at: k, open };
    assert(s.stack.last() == f);
    assert(s.stack.drop_last() =~= q.stack);
    assert(s.idle().pop() == q);
    what_came_can_leave(m.heap, p);
    let v = placed(m.heap, p).1;
    assert(r.env == m.env.push(("__select_recv"@, v)));
    assert forall|x: Name| x != "__select_recv"@ implies #[trigger] lookup(r, x) == lookup(m, x) by {
        assert(r.env.drop_last() =~= m.env);
        found_is_bound(m.env, x);
    }
    n
}

/// What is sent is the value as the host can hold it, and what is received is what was sent:
/// a value that one machine sends and another receives is the same there.
pub proof fn what_is_received_is_what_was_sent(
    a: Machine,
    b: Machine,
    s: SenderHandle,
    r: ReceiverHandle,
    v: Val,
)
    requires
        applied(a, Op::ChannelSend, Seq::empty(), seq![Val::Sender(s), v]).control is Waiting,
        detached(a.heap, v, a.heap.len()) matches Ok(p) ==> placed(b.heap, p).0.len() <= usize::MAX,
    ensures
        ({
            let sent = applied(a, Op::ChannelSend, Seq::empty(), seq![Val::Sender(s), v]).control;
            let asked = applied(b, Op::ChannelRecv, Seq::empty(), seq![Val::Receiver(r)]);
            &&& sent matches ControlTerm::Waiting(RequestTerm::Send { to, value }) && {
                let got = resumed(asked, ReplyTerm::Received(value));
                &&& to == s
                &&& detached(a.heap, v, a.heap.len()) == Ok::<Portable, Fault>(value)
                &&& asked.control == ControlTerm::Waiting(RequestTerm::Recv { from: r })
                &&& got.control matches ControlTerm::Return(w) && detached(
                    got.heap,
                    w,
                    got.heap.len(),
                ) == Ok::<Portable, Fault>(value)
                &&& got.env == b.env
                &&& kept(b.heap, got.heap)
            }
        }),
{
    let sent = applied(a, Op::ChannelSend, Seq::empty(), seq![Val::Sender(s), v]);
    assert(seq![Val::Sender(s), v][0] == Val::Sender(s));
    assert(seq![Val::Sender(s), v][1] == v);
    assert(seq![Val::Receiver(r)][0] == Val::Receiver(r));
    if let ControlTerm::Waiting(RequestTerm::Send { to, value }) = sent.control {
        assert(placed(b.heap, value).0.len() <= usize::MAX);
        what_came_can_leave(b.heap, value);
        placing_keeps_the_heap(b.heap, value);
    }
}

/// Whether a scope has the names of another, and portable copies of its values.
spec fn copies(h: Cells, s: Scope, ps: Seq<(Name, Portable)>, n: nat) -> bool {
    &&& ps.len() == n
    &&& n <= s.len()
    &&& forall|i: int|
        0 <= i < n ==> (#[trigger] ps[i]).0 == s[i].0 && detached(h, s[i].1, h.len()) == Ok::<
            Portable,
            Fault,
        >(ps[i].1)
}

proof fn detaching_copies(h: Cells, s: Scope, n: nat)
    requires
        n <= s.len(),
        detached_scope(h, s, n) is Ok,
    ensures
        copies(h, s, detached_scope(h, s, n)->Ok_0, n),
    decreases n,
{
    if n > 0 {
        let before = detached_scope(h, s, (n - 1) as nat);
        assert(before is Ok);
        detaching_copies(h, s, (n - 1) as nat);
        let ps = detached_scope(h, s, n)->Ok_0;
        assert forall|i: int| 0 <= i < n implies (#[trigger] ps[i]).0 == s[i].0 && detached(
            h,
            s[i].1,
            h.len(),
        ) == Ok::<Portable, Fault>(ps[i].1) by {
            if i < n - 1 {
                assert(ps[i] == before->Ok_0[i]);
            }
        }
    }
}

proof fn kept_and_kept(a: Cells, b: Cells, c: Cells)
    requires
        kept(a, b),
        kept(b, c),
    ensures
        kept(a, c),
{
    assert forall|i: int| 0 <= i < a.len() implies c[i] == #[trigger] a[i] by {
        assert(b[i] == a[i]);
    }
}

proof fn placing_copies(h: Cells, ps: Seq<(Name, Portable)>, n: nat, end: Cells)
    requires
        n <= ps.len(),
        kept(placed_scope(h, ps, n).0, end),
        end.len() <= usize::MAX,
    ensures
        kept(h, end),
        placed_scope(h, ps, n).1.len() == n,
        forall|i: int|
            0 <= i < n ==> (#[trigger] placed_scope(h, ps, n).1[i]).0 == ps[i].0 && detached(
                end,
                placed_scope(h, ps, n).1[i].1,
                end.len(),
            ) == Ok::<Portable, Fault>(ps[i].1),
    decreases n,
{
    if n > 0 {
        let (h2, done) = placed_scope(h, ps, (n - 1) as nat);
        let p = ps[n - 1].1;
        let (h3, v) = placed(h2, p);
        placing_keeps_the_heap(h2, p);
        kept_and_kept(h2, h3, end);
        placing_copies(h, ps, (n - 1) as nat, end);
        placing_adds_a_cell_for_each_part(h2, p);
        height_is_at_most_nodes(p);
        crossing_gives_the_value_back(h2, p, end.len());
        detaching_from_more(h3, end, v, end.len());
        let all = placed_scope(h, ps, n).1;
        assert forall|i: int| 0 <= i < n implies (#[trigger] all[i]).0 == ps[i].0 && detached(
            end,
            all[i].1,
            end.len(),
        ) == Ok::<Portable, Fault>(ps[i].1) by {
            if i < n - 1 {
                assert(all[i] == done[i]);
            }
        }
    }
}

/// A spawned task evaluates the block, and every name that is bound where it was spawned, in
/// scope or as a global, stands for the same value there: detached, it is the same. Functions
/// are the same functions.
pub proof fn a_task_starts_with_what_was_in_scope(m: Machine, t: Term, x: Name)
    requires
        t.op == Op::Spawn,
        entered(m, t).control is Waiting,
        entered(m, t).control->Waiting_0 matches RequestTerm::Spawn { task, .. }
            ==> task_machine(task).heap.len() <= usize::MAX,
    ensures
        entered(m, t).control->Waiting_0 matches RequestTerm::Spawn { task, .. } && {
            let k = task_machine(task);
            &&& k.control == ControlTerm::Eval(t.kids[0])
            &&& match lookup(m, x) {
                Ok(v) => lookup(k, x) matches Ok(w) && (w == v || detached(
                    m.heap,
                    v,
                    m.heap.len(),
                ) is Ok && detached(k.heap, w, k.heap.len()) == detached(m.heap, v, m.heap.len())),
                Err(_) => lookup(k, x) is Err,
            }
        },
{
    assert(entered(m, t) == spawned(m, t.kids[0]));
    let env = detached_scope(m.heap, m.env, m.env.len())->Ok_0;
    let globals = detached_scope(m.heap, m.globals, m.globals.len())->Ok_0;
    detaching_copies(m.heap, m.env, m.env.len());
    detaching_copies(m.heap, m.globals, m.globals.len());
    let k = task_machine(entered(m, t).control->Waiting_0->task);
    let none = Seq::<Option<super::heap::Cell>>::empty();
    let (h, gs) = placed_scope(none, globals, globals.len());
    let (h2, es) = placed_scope(h, env, env.len());
    assert(k.heap == h2 && k.env == es && k.globals == gs);
    assert(kept(h2, h2));
    placing_copies(h, env, env.len(), h2);
    placing_copies(none, globals, globals.len(), h2);
    assert(bound_names(m.env) =~= bound_names(es));
    assert(bound_names(m.globals) =~= bound_names(gs));
    same_names_are_found_alike(m.env, es, x);
    same_names_are_found_alike(m.globals, gs, x);
    found_is_bound(m.env, x);
    found_is_bound(m.globals, x);
}

} // verus!
