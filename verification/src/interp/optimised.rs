//! A cell that is made and used up at once is built in place, and nobody can tell.

use vstd::prelude::*;
use crate::fbip::laws::strip_undoes_drop;
use crate::fbip::last_use::{mark, mark_from};
use crate::fbip::optimized;
use crate::fbip::refcount::{body_scope, borrowed_once, count_body, counted, drop_name, is_heap, scope_end_drop};
use crate::fbip::reuse::{in_place, is_tracked_var, reused, strip};
use crate::fbip::uses::{is_var, reuses};
use crate::ir::{shaped, t_let, t_rc, t_var, Name, Op, RcOp, Term};
use super::agreement::{
    agree_in_place, evaluating_in_place_agrees, gives_fresh, is_literal, same_fault, takes_over,
};
use super::context::{an_evaluation_is_local, over};
use super::heap::{live, with_new, Cells, Contents};
use super::laws::steps_add_up;
use super::naming::{
    at_rest, builds, building_gives_its_worth, first_settled, outcome, worth, worths,
};
use super::portable::kept;
use super::semantics::{
    applied, demand, find, meets, run, settled, started, step, Progress,
};
use super::state::{FrameTerm, Machine};
use super::value::Val;

verus! {

/// Whether a term is a literal, or a constructor of literals.
pub open spec fn is_made_of_literals(t: Term) -> bool {
    ||| t.op == Op::Str && shaped(t)
    ||| t.op == Op::Ctor && shaped(t) && forall|i: int|
        0 <= i < t.kids.len() ==> is_literal(#[trigger] t.kids[i])
}

/// Whether a term applies an operator that can build in place to a variable and literals.
pub open spec fn uses_up(t: Term, x: Name) -> bool {
    &&& shaped(t)
    &&& in_place(t.op) is Some
    &&& t.kids[0] == t_var(x)
    &&& forall|i: int| 1 <= i < t.kids.len() ==> is_literal(#[trigger] t.kids[i])
}

/// The term that does the same in the memory of the variable.
pub open spec fn in_its_memory(t: Term, x: Name) -> Term {
    Term { op: in_place(t.op)->0, names: seq![x] + t.names, kids: t.kids.drop_first(), ..t }
}

proof fn a_leaf_is_kept(t: Term, heap: Set<Name>, given: Set<Name>)
    requires
        t.kids.len() == 0,
        t.arms.len() == 0,
    ensures
        counted(t, heap) == t,
        reused(t, heap, given) == t,
{
    assert(counted(t, heap).kids =~= t.kids);
    assert(counted(t, heap).arms =~= t.arms);
    assert(reused(t, heap, given).kids =~= t.kids);
    assert(reused(t, heap, given).arms =~= t.arms);
}

proof fn a_node_on_leaves_is_kept(t: Term, heap: Set<Name>, given: Set<Name>)
    requires
        t.op != Op::Let,
        t.op != Op::AsCStr,
        t.op != Op::For,
        !(t.op is Closure),
        t.arms.len() == 0,
        forall|i: int|
            0 <= i < t.kids.len() ==> (#[trigger] t.kids[i]).kids.len() == 0
                && t.kids[i].arms.len() == 0,
    ensures
        counted(t, heap) == t,
        in_place(t.op) is None ==> reused(t, heap, given) == t,
        in_place(t.op) is Some && t.kids.len() > 0 && is_tracked_var(t.kids[0], heap) ==> reused(
            t,
            heap,
            given,
        ) == in_its_memory(t, t.kids[0].names[0]),
{
    let c = counted(t, heap);
    assert forall|i: int| 0 <= i < t.kids.len() implies #[trigger] c.kids[i] == t.kids[i] by {
        a_leaf_is_kept(t.kids[i], heap, given);
    }
    assert(c.kids =~= t.kids);
    assert(c.arms =~= t.arms);
    let r = reused(t, heap, given);
    assert forall|i: int| 0 <= i < t.kids.len() implies reused(
        #[trigger] t.kids[i],
        heap,
        given,
    ) == t.kids[i] by {
        a_leaf_is_kept(t.kids[i], heap, given);
    }
    if in_place(t.op) is None {
        assert(r.kids =~= t.kids);
        assert(r.arms =~= t.arms);
    } else if t.kids.len() > 0 && is_tracked_var(t.kids[0], heap) {
        assert(r.kids =~= t.kids.drop_first());
    }
}

proof fn literals_are_not_marked(t: Term, i: nat, x: Name)
    requires
        1 <= i <= t.kids.len(),
        forall|j: int| 1 <= j < t.kids.len() ==> is_literal(#[trigger] t.kids[j]),
    ensures
        mark_from(t, i, x, false) == (t.kids.skip(i as int), false),
    decreases t.kids.len() - i,
{
    if i < t.kids.len() {
        literals_are_not_marked(t, i + 1, x);
        let kid = t.kids[i as int];
        assert(is_literal(kid));
        let k = mark(kid, x, false);
        let none = mark_from(kid, 0, x, false);
        assert(kid.kids.len() == 0);
        assert(none.0 =~= kid.kids);
        assert(k == (kid, false));
        assert(seq![kid] + t.kids.skip((i + 1) as int) =~= t.kids.skip(i as int));
    } else {
        assert(t.kids.skip(i as int) =~= Seq::<Term>::empty());
    }
}

/// A cell that is made and used up at once is built in place.
pub proof fn what_is_used_up_is_built_in(x: Name, value: Term, node: Term)
    requires
        is_made_of_literals(value),
        uses_up(node, x),
    ensures
        optimized(t_let(x, value, node), Set::empty()) == t_let(x, value, in_its_memory(node, x)),
{
    let none = Set::<Name>::empty();
    let t = t_let(x, value, node);
    let here = in_its_memory(node, x);
    let known = none.insert(x);
    let var = t_var(x);
    assert(t.kids[0] == value && t.kids[1] == node && t.names[0] == x);
    assert(node.arms.len() == 0 && value.arms.len() == 0);
    assert forall|i: int| 0 <= i < node.kids.len() implies (#[trigger] node.kids[i]).kids.len() == 0
        && node.kids[i].arms.len() == 0 by {
        if i > 0 {
            assert(is_literal(node.kids[i]));
        }
    }
    assert forall|i: int| 0 <= i < value.kids.len() implies (
    #[trigger] value.kids[i]).kids.len() == 0 && value.kids[i].arms.len() == 0 by {
        assert(is_literal(value.kids[i]));
    }
    a_node_on_leaves_is_kept(value, none, none);
    a_node_on_leaves_is_kept(node, known, none);
    assert(body_scope(none, x, true) == known);
    // The one use is the last, and takes the reference over.
    literals_are_not_marked(node, 1, x);
    let m = mark(node, x, false);
    let first = mark(var, x, false);
    assert(first == (var, true));
    assert(mark_from(node, 0, x, false).0 =~= node.kids);
    assert(m.0.kids =~= node.kids);
    assert(m == (node, true));
    let c = counted(t, none);
    let out = count_body(x, true, value, node);
    assert(c.kids =~= seq![value, out]);
    assert(c == t_let(x, value, out));
    assert(c.kids[0] == value && c.kids[1] == out && c.names[0] == x);
    assert(is_tracked_var(var, known));
    assert(here.names[0] == x);
    assert(reuses(here, x));
    let r = reused(c, none, none);
    if borrowed_once(node, x) {
        let temp = drop_name(x);
        let last = t_var(temp);
        let rc = t_rc(RcOp::Dec, x, last);
        let drop = scope_end_drop(node, x);
        assert(out == drop);
        assert(drop.kids[0] == node && drop.kids[1] == rc && drop.names[0] == temp);
        assert(rc.kids[0] == last);
        let inner = body_scope(known, temp, is_heap(node, known));
        a_leaf_is_kept(last, inner, none);
        assert(reused(rc, inner, none) == rc) by {
            assert(reused(rc, inner, none).kids =~= rc.kids);
            assert(reused(rc, inner, none).arms =~= rc.arms);
        }
        assert(!reuses(last, temp));
        assert forall|i: int| 0 <= i < rc.kids.len() implies !reuses(#[trigger] rc.kids[i], temp) by {}
        assert(!reuses(rc, temp));
        let body = reused(drop, known, none);
        assert(body.kids =~= seq![here, rc]);
        assert(body == scope_end_drop(here, x));
        assert(body.kids[0] == here);
        assert(reuses(body.kids[0], x));
        assert(reuses(body, x));
        strip_undoes_drop(here, x);
        assert(r.kids =~= seq![value, here]);
    } else {
        assert(out == node);
        assert(strip(here, x) == here) by {
            assert(here.op != Op::Let);
        }
        assert(r.kids =~= seq![value, here]);
    }
    assert(r == t_let(x, value, here));
}

/// What literals are worth, one after another.
proof fn literals_have_worth(q: Machine, t: Term, n: nat)
    requires
        t.op == Op::Ctor,
        n <= t.kids.len(),
        forall|i: int| 0 <= i < t.kids.len() ==> is_literal(#[trigger] t.kids[i]),
    ensures
        worths(q, t, n) matches Some((h, vs)) && vs.len() == n && kept(q.heap, h) && h.len()
            <= q.heap.len() + n,
    decreases n,
{
    if n > 0 {
        literals_have_worth(q, t, (n - 1) as nat);
        let (h, vs) = worths(q, t, (n - 1) as nat)->0;
        let kid = t.kids[n - 1];
        assert(is_literal(kid));
        let now = Machine { heap: h, ..q };
        assert(worth(now, kid) is Some);
        let (h2, v) = worth(now, kid)->0;
        assert(meets(v, demand(t.op, (n - 1) as nat)));
        assert forall|i: int| 0 <= i < q.heap.len() implies h2[i] == #[trigger] q.heap[i] by {
            assert(h[i] == q.heap[i]);
        }
    }
}

/// What is made of literals is a fresh cell, counted once.
proof fn what_is_made_is_fresh(q: Machine, t: Term)
    requires
        is_made_of_literals(t),
        q.heap.len() + t.kids.len() < usize::MAX,
    ensures
        builds(t),
        worth(q, t) matches Some((h, Val::HeapRef(a))) && kept(q.heap, h) && a == h.len() - 1 && a
            >= q.heap.len() && live(h, a as int) && h[a as int]->0.refcount == 1 && h.len()
            <= q.heap.len() + t.kids.len() + 1,
{
    if t.op == Op::Ctor {
        assert forall|i: int| 0 <= i < t.kids.len() implies builds(#[trigger] t.kids[i]) by {
            assert(is_literal(t.kids[i]));
        }
        literals_have_worth(q, t, t.kids.len());
        let (h, vs) = worths(q, t, t.kids.len())->0;
        let now = Machine { heap: h, ..q };
        assert(applied(now, t.op, t.names, vs) == now.store(Contents::Ctor(t.names[0], vs)));
        assert(outcome(applied(now, t.op, t.names, vs)) == Some(
            (with_new(h, Contents::Ctor(t.names[0], vs)), Val::HeapRef(h.len() as usize)),
        ));
        let h2 = with_new(h, Contents::Ctor(t.names[0], vs));
        assert forall|i: int| 0 <= i < q.heap.len() implies h2[i] == #[trigger] q.heap[i] by {
            assert(h[i] == q.heap[i]);
        }
    }
}

/// The machine in which the body of a binding is evaluated.
spec fn bound_in(m: Machine, x: Name, h: Cells, v: Val) -> Machine {
    Machine { heap: h, env: m.env.push((x, v)), ..at_rest(m) }
}

/// A binding runs its value, then its body, and gives its scope back.
proof fn a_binding_runs(
    m: Machine,
    x: Name,
    value: Term,
    body: Term,
    h: Cells,
    v: Val,
    k: nat,
) -> (n: nat)
    requires
        builds(value),
        worth(at_rest(m), value) == Some((h, v)),
        settled(run(started(bound_in(m, x, h, v), body), k)),
        !(run(started(bound_in(m, x, h, v), body), k).control is Waiting),
        run(started(bound_in(m, x, h, v), body), k).env == m.env.push((x, v)),
    ensures
        run(started(m, t_let(x, value, body)), n) == (Machine {
            env: m.env,
            ..run(started(bound_in(m, x, h, v), body), k)
        }),
{
    let q = at_rest(m);
    let t = t_let(x, value, body);
    let f = FrameTerm::LetBody { name: x, body };
    let u = FrameTerm::Unbind { count: 1 };
    let inner = bound_in(m, x, h, v);
    let start = started(m, t);
    assert(t.kids[0] == value && t.kids[1] == body && t.names[0] == x);
    assert(start.idle() == q);
    assert(q.push(f).stack =~= over(q, seq![f]).stack);
    assert(step(start) == over(q, seq![f]).evaluate(value));
    assert(run(step(start), 0) == step(start));
    assert(run(start, 1) == step(start));
    let a = building_gives_its_worth(q, seq![f], value);
    steps_add_up(start, 1, a);
    let r = run(start, 1 + a);
    let now = Machine { heap: h, ..q };
    assert(r == over(now, seq![f]).give(v));
    assert(r.stack =~= seq![f]);
    assert(r.stack.drop_last() =~= Seq::<FrameTerm>::empty());
    assert(r.idle().pop() == now);
    let y = started(inner, body);
    assert(now.bind(x, v).push(u).stack =~= over(y, seq![u]).stack);
    assert(step(r) == over(y, seq![u]));
    assert(run(step(r), 0) == step(r));
    assert(run(r, 1) == step(r));
    steps_add_up(start, 1 + a, 1);
    let j = first_settled(y, k);
    an_evaluation_is_local(y, seq![u], j);
    steps_add_up(start, 1 + a + 1, j);
    let end = run(y, k);
    let z = over(end, seq![u]);
    assert(run(start, 1 + a + 1 + j) == z);
    assert(end.stack =~= Seq::<FrameTerm>::empty());
    assert(z.stack =~= seq![u]);
    assert(z.stack.drop_last() =~= end.stack);
    assert(end.env.take(end.env.len() - 1) =~= m.env);
    assert(step(z) == Machine { env: m.env, ..end });
    assert(run(step(z), 0) == step(z));
    assert(run(z, 1) == step(z));
    steps_add_up(start, 1 + a + 1 + j, 1);
    1 + a + 1 + j + 1
}

/// Whether two machines came to the same: to fresh contents alike, or to the same error. What
/// stood on the heap of `m` is as it was in both, and both have its scope.
pub open spec fn came_to_the_same(m: Machine, a: Machine, b: Machine) -> bool {
    &&& a.env == m.env
    &&& b.env == m.env
    &&& kept(m.heap, a.heap)
    &&& kept(m.heap, b.heap)
    &&& match a.progress() {
        Progress::Done(Val::HeapRef(x)) => b.progress() matches Progress::Done(Val::HeapRef(y)) && x
            >= m.heap.len() && y >= m.heap.len() && live(a.heap, x as int) && live(b.heap, y as int)
            && a.heap[x as int] == b.heap[y as int],
        Progress::Failed(e) => b.progress() matches Progress::Failed(f) && same_fault(e, f),
        _ => false,
    }
}

proof fn what_agrees_came_to_the_same(
    m: Machine,
    end: Machine,
    fresh: Machine,
    taken: Machine,
    addr: usize,
)
    requires
        agree_in_place(end, fresh, taken, addr),
        end.stack.len() == 0,
        end.heap.len() < usize::MAX,
        kept(m.heap, end.heap),
        m.heap.len() <= addr < end.heap.len(),
        live(end.heap, addr as int),
        end.heap[addr as int]->0.refcount == 1,
    ensures
        fresh.env == end.env,
        taken.env == end.env,
        !(fresh.control is Waiting),
        !(taken.control is Waiting),
        came_to_the_same(
            m,
            Machine { env: m.env, ..fresh },
            Machine { env: m.env, ..taken },
        ),
{
    if !(fresh.control is Failed) {
        let c = (fresh.heap[end.heap.len() as int]->0).contents;
        let at = end.heap.len() as usize;
        assert(gives_fresh(end, fresh, c));
        assert(takes_over(end, taken, addr, c));
        assert(fresh.heap[at as int]->0 == taken.heap[addr as int]->0);
        assert forall|i: int| 0 <= i < m.heap.len() implies fresh.heap[i] == #[trigger] m.heap[i]
            && taken.heap[i] == m.heap[i] by {
            assert(end.heap[i] == m.heap[i]);
            assert(taken.heap[i] == end.heap[i]);
        }
    }
}

/// Optimising keeps the meaning where a cell is made and used up at once. The expression and
/// its optimised form, which builds in the cell, come to the same contents with one reference,
/// or to the same error, and leave everything else as it was.
pub proof fn building_in_what_is_used_up_keeps_the_meaning(
    m: Machine,
    x: Name,
    value: Term,
    node: Term,
) -> (r: (nat, nat))
    requires
        is_made_of_literals(value),
        uses_up(node, x),
        m.heap.len() + value.kids.len() + node.kids.len() + 1 < usize::MAX,
    ensures
        ({
            let t = t_let(x, value, node);
            came_to_the_same(
                m,
                run(started(m, t), r.0),
                run(started(m, optimized(t, Set::empty())), r.1),
            )
        }),
{
    let q = at_rest(m);
    let here = in_its_memory(node, x);
    what_is_used_up_is_built_in(x, value, node);
    what_is_made_is_fresh(q, value);
    let (h, v) = worth(q, value)->0;
    let addr = v->HeapRef_0;
    let inner = bound_in(m, x, h, v);
    assert(find(inner.env, x) == Some(m.env.len() as int));
    assert(is_var(node.kids[0], x));
    let (a, b, end) = evaluating_in_place_agrees(inner, node, x, addr);
    let fresh = run(started(inner, node), a);
    let taken = run(started(inner, here), b);
    assert(end.heap[addr as int] == h[addr as int]);
    assert(kept(m.heap, end.heap)) by {
        assert forall|i: int| 0 <= i < m.heap.len() implies end.heap[i] == #[trigger] m.heap[i] by {
            assert(h[i] == m.heap[i]);
        }
    }
    what_agrees_came_to_the_same(m, end, fresh, taken, addr);
    let n = a_binding_runs(m, x, value, node, h, v, a);
    let k = a_binding_runs(m, x, value, here, h, v, b);
    (n, k)
}

} // verus!
