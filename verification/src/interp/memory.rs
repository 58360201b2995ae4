//! What evaluation does to the heap.

use vstd::prelude::*;
use crate::ir::{ArmTerm, Name, Op, RcOp, Term};
use super::heap::{live, Cells};
use super::portable::{kept, placing_keeps_the_heap};
use super::semantics::{
    adjusted, applied, chosen, entered, given, in_place, lookup, on_text, operands, resumed, run,
    step, with_strings,
};
use super::state::{ControlTerm, FrameTerm, Machine, ReplyTerm};
use super::value::Val;

verus! {

/// Whether one heap can have become another: addresses are only added, and what has been
/// freed stays freed.
pub open spec fn grown(h: Cells, h2: Cells) -> bool {
    &&& h.len() <= h2.len()
    &&& forall|i: int| 0 <= i < h.len() && #[trigger] h[i] is None ==> h2[i] is None
}

proof fn strings_keep_the_heap(h: Cells, ss: Seq<Name>, n: nat)
    ensures
        kept(h, with_strings(h, ss, n).0),
    decreases n,
{
    if 0 < n <= ss.len() {
        strings_keep_the_heap(h, ss, (n - 1) as nat);
    }
}

proof fn on_text_keeps(m: Machine, op: Op, vs: Seq<Val>)
    ensures
        !in_place(op) ==> kept(m.heap, on_text(m, op, vs).heap),
        grown(m.heap, on_text(m, op, vs).heap),
{
    if op == Op::StrSplit {
        assert forall|ss: Seq<Name>| kept(
            m.heap,
            #[trigger] with_strings(m.heap, ss, ss.len()).0,
        ) by {
            strings_keep_the_heap(m.heap, ss, ss.len());
        }
    }
}

/// Only an operator that builds in place changes a cell. Every other one leaves all that is
/// on the heap as it was, counts included.
pub proof fn only_reuse_changes_cells(m: Machine, op: Op, names: Seq<Name>, vs: Seq<Val>)
    requires
        op != Op::CtorReuse,
        !in_place(op),
    ensures
        kept(m.heap, applied(m, op, names, vs).heap),
{
    on_text_keeps(m, op, vs);
}

proof fn applying_revives_nothing(m: Machine, op: Op, names: Seq<Name>, vs: Seq<Val>)
    ensures
        grown(m.heap, applied(m, op, names, vs).heap),
{
    on_text_keeps(m, op, vs);
}

proof fn operands_revive_nothing(
    m: Machine,
    op: Op,
    names: Seq<Name>,
    done: Seq<Val>,
    todo: Seq<Term>,
)
    ensures
        grown(m.heap, operands(m, op, names, done, todo).heap),
{
    applying_revives_nothing(m, op, names, done);
}

proof fn choosing_changes_no_cell(m: Machine, tag: Name, fields: Seq<Val>, arms: Seq<ArmTerm>)
    ensures
        chosen(m, tag, fields, arms).heap == m.heap,
    decreases arms.len(),
{
    if arms.len() > 0 {
        choosing_changes_no_cell(m, tag, fields, arms.subrange(1, arms.len() as int));
    }
}

proof fn entering_revives_nothing(m: Machine, t: Term)
    ensures
        grown(m.heap, entered(m, t).heap),
{
    operands_revive_nothing(m, t.op, t.names, Seq::empty(), t.kids);
    operands_revive_nothing(
        m,
        t.op,
        t.names,
        seq![Val::Function(t.kids[0].names[0])],
        t.kids.subrange(1, t.kids.len() as int),
    );
    assert forall|addr: usize| grown(
        m.heap,
        #[trigger] operands(m, t.op, t.names, seq![Val::HeapRef(addr)], t.kids).heap,
    ) by {
        operands_revive_nothing(m, t.op, t.names, seq![Val::HeapRef(addr)], t.kids);
    }
}

proof fn giving_revives_nothing(m: Machine, f: FrameTerm, v: Val)
    ensures
        grown(m.heap, given(m, f, v).heap),
{
    match f {
        FrameTerm::Operands { op, names, done, todo } => {
            operands_revive_nothing(m, op, names, done.push(v), todo);
        },
        FrameTerm::Arms { arms } => {
            assert forall|tag: Name, fields: Seq<Val>| #[trigger]
                chosen(m, tag, fields, arms).heap == m.heap by {
                choosing_changes_no_cell(m, tag, fields, arms);
            }
        },
        FrameTerm::Guard { tag, fields, bound, rest, .. } => {
            choosing_changes_no_cell(m.unbind(bound), tag, fields, rest);
        },
        _ => {},
    }
}

/// No step revives a freed cell, and none takes an address back.
pub proof fn no_step_revives_a_cell(m: Machine)
    ensures
        grown(m.heap, step(m).heap),
{
    match m.control {
        ControlTerm::Eval(t) => {
            entering_revives_nothing(m.idle(), t);
        },
        ControlTerm::Return(v) => {
            if m.stack.len() > 0 {
                giving_revives_nothing(m.idle().pop(), m.stack.last(), v);
            }
        },
        _ => {},
    }
}

/// No reply of the host changes a cell.
pub proof fn no_reply_changes_a_cell(m: Machine, r: ReplyTerm)
    ensures
        kept(m.heap, resumed(m, r).heap),
{
    match r {
        ReplyTerm::Joined(p) | ReplyTerm::Received(p) => {
            placing_keeps_the_heap(m.heap, p);
        },
        _ => {},
    }
}

/// What is freed stays freed: after any number of steps every use of the address is still an
/// error, and it is never given out again.
pub proof fn freed_cells_stay_freed(m: Machine, n: nat)
    ensures
        grown(m.heap, run(m, n).heap),
    decreases n,
{
    if n > 0 {
        no_step_revives_a_cell(m);
        freed_cells_stay_freed(step(m), (n - 1) as nat);
    }
}

/// Whether two heaps hold the same, apart from counts and from what the second has freed.
pub open spec fn same_contents(h: Cells, h2: Cells) -> bool {
    &&& h.len() == h2.len()
    &&& forall|i: int|
        0 <= i < h.len() && #[trigger] h2[i] is Some ==> h[i] is Some && h2[i]->0.contents
            == h[i]->0.contents
}

/// Adjusting a reference count changes nothing else: what is bound stays bound, and every
/// cell that is still there holds what it held. If the name is bound, and to a live cell or
/// to no cell at all, what follows runs.
pub proof fn adjusting_changes_only_counts(m: Machine, op: RcOp, name: Name, rest: Term)
    ensures
        ({
            let r = adjusted(m, op, name, rest);
            &&& r == (Machine { heap: r.heap, control: r.control, ..m })
            &&& same_contents(m.heap, r.heap)
            &&& match lookup(m, name) {
                Ok(Val::HeapRef(addr)) => live(m.heap, addr as int) && m.heap[addr as int]->0.refcount
                    < usize::MAX ==> r.control == ControlTerm::Eval(rest),
                Ok(_) => r.control == ControlTerm::Eval(rest),
                Err(e) => r.control == ControlTerm::Failed(e),
            }
        }),
{
}

} // verus!
