//! Where values come from: a step hands on the values that a machine holds, and makes no
//! address but those of the cells that it adds.

use vstd::prelude::*;
use crate::ir::{ArmTerm, BinOp, Name, Op, Term};
use super::heap::{ctor_at, live, with_dec, with_inc, with_new, with_reuse, Cells, Contents};
use super::laws::found_is_bound;
use super::semantics::{
    applied, built, called, changed, chosen, entered, find, given, in_place, looped, lookup,
    next_receiver, on_array, on_ref, on_text, operands, polled, step, text_of, with_global,
    with_strings, zipped,
};
use super::state::{ClosureTerm, ControlTerm, FrameTerm, Machine, Scope};
use super::value::{ReceiverHandle, Val};

verus! {

/// Whether all values in a list are of a kind.
pub open spec fn all_ok(vs: Seq<Val>, ok: spec_fn(Val) -> bool) -> bool {
    forall|i: int| 0 <= i < vs.len() ==> ok(#[trigger] vs[i])
}

/// Whether all values in a scope are of a kind.
pub open spec fn scope_ok(s: Scope, ok: spec_fn(Val) -> bool) -> bool {
    forall|i: int| 0 <= i < s.len() ==> ok((#[trigger] s[i]).1)
}

/// Whether all fields of all live cells are of a kind.
pub open spec fn heap_ok(h: Cells, ok: spec_fn(Val) -> bool) -> bool {
    forall|i: int|
        live(h, i) ==> ((#[trigger] h[i])->0.contents matches Contents::Ctor(_, fields) ==> all_ok(
            fields,
            ok,
        ))
}

/// Whether all values that a frame holds are of a kind.
pub open spec fn frame_ok(f: FrameTerm, ok: spec_fn(Val) -> bool) -> bool {
    match f {
        FrameTerm::Operands { done, .. } => all_ok(done, ok),
        FrameTerm::Guard { fields, .. } => all_ok(fields, ok),
        FrameTerm::Restore { env } => scope_ok(env, ok),
        _ => true,
    }
}

pub open spec fn stack_ok(s: Seq<FrameTerm>, ok: spec_fn(Val) -> bool) -> bool {
    forall|i: int| 0 <= i < s.len() ==> frame_ok(#[trigger] s[i], ok)
}

pub open spec fn closures_ok(s: Seq<ClosureTerm>, ok: spec_fn(Val) -> bool) -> bool {
    forall|i: int| 0 <= i < s.len() ==> scope_ok((#[trigger] s[i]).captured, ok)
}

/// Whether all values that a machine holds are of a kind, apart from the one that it is about
/// to hand on.
pub open spec fn held_ok(m: Machine, ok: spec_fn(Val) -> bool) -> bool {
    &&& scope_ok(m.env, ok)
    &&& scope_ok(m.globals, ok)
    &&& all_ok(m.refs, ok)
    &&& closures_ok(m.closures, ok)
    &&& heap_ok(m.heap, ok)
    &&& stack_ok(m.stack, ok)
}

/// Whether all values that a machine holds are of a kind.
pub open spec fn values_ok(m: Machine, ok: spec_fn(Val) -> bool) -> bool {
    &&& held_ok(m, ok)
    &&& (m.control matches ControlTerm::Return(v) ==> ok(v))
}

/// Whether a kind holds every value that is no address, and the addresses from `from` to
/// `upto`.
pub open spec fn admits(ok: spec_fn(Val) -> bool, from: nat, upto: nat) -> bool {
    &&& forall|v: Val| !(v is HeapRef) ==> #[trigger] ok(v)
    &&& forall|a: usize| from <= a < upto ==> #[trigger] ok(Val::HeapRef(a))
}

/// What a heap becomes: it has no cell fewer, and its fields are of the kind.
pub(crate) open spec fn grows_ok(h: Cells, h2: Cells, ok: spec_fn(Val) -> bool) -> bool {
    h.len() <= h2.len() && heap_ok(h2, ok)
}

pub(crate) proof fn new_cell_ok(h: Cells, c: Contents, ok: spec_fn(Val) -> bool)
    requires
        heap_ok(h, ok),
        c matches Contents::Ctor(_, fields) ==> all_ok(fields, ok),
    ensures
        grows_ok(h, with_new(h, c), ok),
{
    let h2 = with_new(h, c);
    assert forall|i: int| live(h2, i) implies ((#[trigger] h2[i])->0.contents matches Contents::Ctor(
        _,
        fields,
    ) ==> all_ok(fields, ok)) by {
        if i < h.len() {
            assert(h2[i] == h[i]);
            assert(live(h, i));
        }
    }
}

proof fn counted_ok(h: Cells, addr: usize, ok: spec_fn(Val) -> bool)
    requires
        heap_ok(h, ok),
        live(h, addr as int),
    ensures
        grows_ok(h, with_dec(h, addr), ok),
        grows_ok(h, with_inc(h, addr), ok),
{
    let a = with_dec(h, addr);
    let b = with_inc(h, addr);
    assert forall|i: int| live(a, i) implies ((#[trigger] a[i])->0.contents matches Contents::Ctor(
        _,
        fields,
    ) ==> all_ok(fields, ok)) by {
        assert(live(h, i));
        assert(a[i]->0.contents == h[i]->0.contents);
    }
    assert forall|i: int| live(b, i) implies ((#[trigger] b[i])->0.contents matches Contents::Ctor(
        _,
        fields,
    ) ==> all_ok(fields, ok)) by {
        assert(live(h, i));
        assert(b[i]->0.contents == h[i]->0.contents);
    }
}

proof fn reused_cell_ok(h: Cells, addr: usize, c: Contents, ok: spec_fn(Val) -> bool)
    requires
        heap_ok(h, ok),
        live(h, addr as int),
        c matches Contents::Ctor(_, fields) ==> all_ok(fields, ok),
    ensures
        grows_ok(h, with_reuse(h, addr, c).0, ok),
{
    let h2 = with_reuse(h, addr, c).0;
    if h[addr as int]->0.refcount == 1 {
        assert forall|i: int| live(h2, i) implies ((
        #[trigger] h2[i])->0.contents matches Contents::Ctor(_, fields) ==> all_ok(fields, ok)) by {
            if i != addr {
                assert(h2[i] == h[i]);
                assert(live(h, i));
            }
        }
    } else {
        counted_ok(h, addr, ok);
        new_cell_ok(with_dec(h, addr), c, ok);
    }
}

/// Whether what an operation came to holds values of the kind: its result as well, and no cell
/// has gone from the end of the heap.
pub(crate) open spec fn goes_ok(m: Machine, r: Machine, ok: spec_fn(Val) -> bool) -> bool {
    values_ok(r, ok) && m.heap.len() <= r.heap.len()
}

pub(crate) proof fn stored_ok(m: Machine, c: Contents, ok: spec_fn(Val) -> bool)
    requires
        held_ok(m, ok),
        c matches Contents::Ctor(_, fields) ==> all_ok(fields, ok),
        m.heap.len() < usize::MAX,
        ok(Val::HeapRef(m.heap.len() as usize)),
    ensures
        goes_ok(m, m.store(c), ok),
{
    new_cell_ok(m.heap, c, ok);
}

proof fn stored_over_ok(m: Machine, addr: usize, c: Contents, ok: spec_fn(Val) -> bool)
    requires
        held_ok(m, ok),
        c matches Contents::Ctor(_, fields) ==> all_ok(fields, ok),
        m.store_over(addr, c).heap.len() <= usize::MAX,
        admits(ok, m.heap.len(), m.store_over(addr, c).heap.len()),
        ok(Val::HeapRef(addr)),
    ensures
        goes_ok(m, m.store_over(addr, c), ok),
{
    if live(m.heap, addr as int) {
        reused_cell_ok(m.heap, addr, c, ok);
    }
}

pub(crate) proof fn changed_ok(op: Op, fields: Seq<Val>, vs: Seq<Val>, ok: spec_fn(Val) -> bool)
    requires
        all_ok(fields, ok),
        all_ok(vs, ok),
        op == Op::ArraySet || op == Op::ArraySetReuse ==> vs.len() >= 3,
        op == Op::ArrayPush || op == Op::ArrayPushReuse ==> vs.len() >= 2,
    ensures
        changed(op, fields, vs) matches Ok(new) ==> all_ok(new, ok),
{
    if let Ok(new) = changed(op, fields, vs) {
        assert forall|j: int| 0 <= j < new.len() implies ok(#[trigger] new[j]) by {
            match op {
                Op::ArrayPush | Op::ArrayPushReuse => {
                    if j < fields.len() {
                        assert(new[j] == fields[j]);
                    } else {
                        assert(new[j] == vs[1]);
                    }
                },
                Op::ArrayPop | Op::ArrayPopReuse => {
                    assert(new[j] == fields[j]);
                },
                Op::ArraySet | Op::ArraySetReuse => {
                    if new[j] != fields[j] {
                        assert(new[j] == vs[2]);
                    }
                },
                _ => {
                    let i = vs[1]->Int_0 as int;
                    if j < i {
                        assert(new[j] == fields[j]);
                    } else {
                        assert(new[j] == fields[j + 1]);
                    }
                },
            }
        }
    }
}

pub(crate) proof fn strings_ok(h: Cells, ss: Seq<Name>, n: nat, ok: spec_fn(Val) -> bool)
    requires
        heap_ok(h, ok),
        with_strings(h, ss, n).0.len() <= usize::MAX,
        admits(ok, h.len(), with_strings(h, ss, n).0.len()),
    ensures
        grows_ok(h, with_strings(h, ss, n).0, ok),
        all_ok(with_strings(h, ss, n).1, ok),
    decreases n,
{
    if 0 < n <= ss.len() {
        let (h1, vs) = with_strings(h, ss, (n - 1) as nat);
        strings_grow(h, ss, (n - 1) as nat);
        strings_ok(h, ss, (n - 1) as nat, ok);
        new_cell_ok(h1, Contents::Str(ss[n - 1]), ok);
        assert(ok(Val::HeapRef(h1.len() as usize)));
    }
}

pub(crate) proof fn strings_grow(h: Cells, ss: Seq<Name>, n: nat)
    ensures
        h.len() <= with_strings(h, ss, n).0.len(),
    decreases n,
{
    if 0 < n <= ss.len() {
        strings_grow(h, ss, (n - 1) as nat);
    }
}

proof fn array_ok(m: Machine, op: Op, vs: Seq<Val>, ok: spec_fn(Val) -> bool)
    requires
        held_ok(m, ok),
        all_ok(vs, ok),
        vs.len() >= 1,
        op == Op::ArraySet || op == Op::ArraySetReuse ==> vs.len() >= 3,
        op == Op::ArrayPush || op == Op::ArrayPushReuse ==> vs.len() >= 2,
        on_array(m, op, vs).heap.len() <= usize::MAX,
        admits(ok, m.heap.len(), on_array(m, op, vs).heap.len()),
    ensures
        goes_ok(m, on_array(m, op, vs), ok),
{
    if let Val::HeapRef(addr) = vs[0] {
        if let Ok((tag, fields)) = ctor_at(m.heap, addr) {
            assert(live(m.heap, addr as int));
            assert(all_ok(fields, ok));
            changed_ok(op, fields, vs, ok);
            if let Ok(new) = changed(op, fields, vs) {
                assert(ok(vs[0]));
                if in_place(op) {
                    stored_over_ok(m, addr, Contents::Ctor(tag, new), ok);
                } else {
                    stored_ok(m, Contents::Ctor(tag, new), ok);
                }
            }
        }
    }
}

proof fn text_ok(m: Machine, op: Op, vs: Seq<Val>, ok: spec_fn(Val) -> bool)
    requires
        held_ok(m, ok),
        all_ok(vs, ok),
        vs.len() >= 1,
        on_text(m, op, vs).heap.len() <= usize::MAX,
        admits(ok, m.heap.len(), on_text(m, op, vs).heap.len()),
    ensures
        goes_ok(m, on_text(m, op, vs), ok),
{
    assert(ok(vs[0]));
    match op {
        Op::Index => {
            if let Val::HeapRef(addr) = vs[0] {
                if live(m.heap, addr as int) {
                    if let Contents::Ctor(_, fields) = m.heap[addr as int]->0.contents {
                        assert(all_ok(fields, ok));
                    }
                }
            }
        },
        Op::ArrayLen => {},
        Op::StrRunes => {
            if let Ok(s) = text_of(m.heap, op, vs, 0) {
                let ps = super::text::code_points(s);
                assert forall|j: int| 0 <= j < ps.len() implies ok(#[trigger] ps[j]) by {}
                stored_ok(m, Contents::Ctor("0Array"@, ps), ok);
            }
        },
        Op::StrSplit => {
            if let Ok(s) = text_of(m.heap, op, vs, 0) {
                if let Ok(t) = text_of(m.heap, op, vs, 1) {
                    let ss = super::text::pieces(s, t);
                    let (h, parts) = with_strings(m.heap, ss, ss.len());
                    strings_grow(m.heap, ss, ss.len());
                    strings_ok(m.heap, ss, ss.len(), ok);
                    let m2 = Machine { heap: h, ..m };
                    assert(ok(Val::HeapRef(h.len() as usize)));
                    stored_ok(m2, Contents::Ctor("0Array"@, parts), ok);
                }
            }
        },
        Op::StrContains | Op::StrStartsWith | Op::StrEndsWith => {},
        _ => {
            if let Ok(s) = built(m.heap, op, vs) {
                if let Val::HeapRef(addr) = vs[0] {
                    if in_place(op) {
                        stored_over_ok(m, addr, Contents::Str(s), ok);
                    } else {
                        stored_ok(m, Contents::Str(s), ok);
                    }
                }
            }
        },
    }
}

pub(crate) proof fn zipped_ok(names: Seq<Name>, vs: Seq<Val>, ok: spec_fn(Val) -> bool)
    requires
        all_ok(vs, ok),
        names.len() == vs.len(),
    ensures
        scope_ok(zipped(names, vs), ok),
{
}

proof fn scopes_ok(a: Scope, b: Scope, ok: spec_fn(Val) -> bool)
    requires
        scope_ok(a, ok),
        scope_ok(b, ok),
    ensures
        scope_ok(a + b, ok),
{
    assert forall|i: int| 0 <= i < (a + b).len() implies ok((#[trigger] (a + b)[i]).1) by {
        if i < a.len() {
            assert((a + b)[i] == a[i]);
        } else {
            assert((a + b)[i] == b[i - a.len()]);
        }
    }
}

proof fn pushed_ok(m: Machine, f: FrameTerm, ok: spec_fn(Val) -> bool)
    requires
        held_ok(m, ok),
        frame_ok(f, ok),
    ensures
        held_ok(m.push(f), ok),
{
    assert forall|i: int| 0 <= i < m.push(f).stack.len() implies frame_ok(
        #[trigger] m.push(f).stack[i],
        ok,
    ) by {
        if i < m.stack.len() {
            assert(m.push(f).stack[i] == m.stack[i]);
        }
    }
}

proof fn called_ok(m: Machine, callee: Val, args: Seq<Val>, ok: spec_fn(Val) -> bool)
    requires
        held_ok(m, ok),
        all_ok(args, ok),
    ensures
        goes_ok(m, called(m, callee, args), ok),
{
    let f = FrameTerm::Restore { env: m.env };
    pushed_ok(m, f, ok);
    match callee {
        Val::Function(name) => {
            if let Some(g) = super::semantics::find_function(m.functions, name) {
                if g.params.len() == args.len() {
                    zipped_ok(g.params, args, ok);
                }
            }
        },
        Val::Closure(id) => {
            if id < m.closures.len() {
                let c = m.closures[id as int];
                assert(scope_ok(c.captured, ok));
                if c.params.len() == args.len() {
                    zipped_ok(c.params, args, ok);
                    scopes_ok(c.captured, zipped(c.params, args), ok);
                }
            }
        },
        _ => {},
    }
}

proof fn looked_up_ok(m: Machine, name: Name, ok: spec_fn(Val) -> bool)
    requires
        held_ok(m, ok),
        forall|v: Val| !(v is HeapRef) ==> #[trigger] ok(v),
    ensures
        lookup(m, name) matches Ok(v) ==> ok(v),
{
    found_is_bound(m.env, name);
    found_is_bound(m.globals, name);
}

proof fn ref_ok(m: Machine, op: Op, vs: Seq<Val>, ok: spec_fn(Val) -> bool)
    requires
        held_ok(m, ok),
        all_ok(vs, ok),
        vs.len() >= 1,
        op == Op::RefSet ==> vs.len() >= 2,
        forall|v: Val| !(v is HeapRef) ==> #[trigger] ok(v),
    ensures
        goes_ok(m, on_ref(m, op, vs), ok),
{
    assert(ok(vs[0]));
    let r = on_ref(m, op, vs);
    assert(all_ok(r.refs, ok)) by {
        assert forall|i: int| 0 <= i < r.refs.len() implies ok(#[trigger] r.refs[i]) by {
            if i < m.refs.len() {
                assert(ok(m.refs[i]));
            }
            if op == Op::RefSet {
                assert(ok(vs[1]));
            }
        }
    }
}

proof fn applied_ok(m: Machine, op: Op, names: Seq<Name>, vs: Seq<Val>, ok: spec_fn(Val) -> bool)
    requires
        held_ok(m, ok),
        all_ok(vs, ok),
        applied(m, op, names, vs).heap.len() <= usize::MAX,
        admits(ok, m.heap.len(), applied(m, op, names, vs).heap.len()),
    ensures
        goes_ok(m, applied(m, op, names, vs), ok),
{
    if super::semantics::complete(op, names.len(), vs.len()) {
        match op {
            Op::Unary(_) | Op::Binary(_) => {},
            Op::Call => {
                let args = vs.subrange(1, vs.len() as int);
                assert forall|i: int| 0 <= i < args.len() implies ok(#[trigger] args[i]) by {
                    assert(args[i] == vs[i + 1]);
                }
                called_ok(m, vs[0], args, ok);
            },
            Op::Ctor => {
                stored_ok(m, Contents::Ctor(names[0], vs), ok);
            },
            Op::CtorReuse => {
                looked_up_ok(m, names[0], ok);
                if let Ok(Val::HeapRef(addr)) = lookup(m, names[0]) {
                    stored_over_ok(m, addr, Contents::Ctor(names[1], vs), ok);
                }
            },
            Op::TaskJoin | Op::ChannelSend | Op::ChannelRecv => {},
            Op::RefNew | Op::RefGet | Op::RefSet => {
                ref_ok(m, op, vs, ok);
            },
            Op::ArrayPush | Op::ArrayPop | Op::ArraySet | Op::ArrayRemove | Op::ArrayPushReuse
            | Op::ArrayPopReuse | Op::ArraySetReuse | Op::ArrayRemoveReuse => {
                array_ok(m, op, vs, ok);
            },
            Op::ToString => {
                match vs[0] {
                    Val::Int(n) => {
                        stored_ok(m, Contents::Str(crate::names::signed_decimal(n as int)), ok);
                    },
                    Val::Bool(b) => {
                        stored_ok(m, Contents::Str(super::error::bool_text(b)), ok);
                    },
                    Val::HeapRef(addr) => {
                        if let Ok(s) = super::heap::str_at(m.heap, addr) {
                            stored_ok(m, Contents::Str(s), ok);
                        }
                    },
                    _ => {},
                }
            },
            _ => {
                text_ok(m, op, vs, ok);
            },
        }
    }
}

proof fn operands_ok(
    m: Machine,
    op: Op,
    names: Seq<Name>,
    done: Seq<Val>,
    todo: Seq<Term>,
    ok: spec_fn(Val) -> bool,
)
    requires
        held_ok(m, ok),
        all_ok(done, ok),
        operands(m, op, names, done, todo).heap.len() <= usize::MAX,
        admits(ok, m.heap.len(), operands(m, op, names, done, todo).heap.len()),
    ensures
        goes_ok(m, operands(m, op, names, done, todo), ok),
{
    if todo.len() == 0 {
        applied_ok(m, op, names, done, ok);
    } else {
        pushed_ok(
            m,
            FrameTerm::Operands { op, names, done, todo: todo.subrange(1, todo.len() as int) },
            ok,
        );
    }
}

proof fn polled_ok(
    m: Machine,
    ready: Seq<ReceiverHandle>,
    kids: Seq<Term>,
    at: nat,
    open: bool,
    ok: spec_fn(Val) -> bool,
)
    requires
        held_ok(m, ok),
    ensures
        goes_ok(m, polled(m, ready, kids, at, open), ok),
        goes_ok(m, next_receiver(m, ready, kids), ok),
{
    pushed_ok(m, FrameTerm::Poll { ready, kids, at, open }, ok);
    pushed_ok(m, FrameTerm::Poll { ready, kids, at: 0, open: false }, ok);
    pushed_ok(m, FrameTerm::Receivers { ready, kids }, ok);
}

proof fn entered_ok(m: Machine, t: Term, ok: spec_fn(Val) -> bool)
    requires
        held_ok(m, ok),
        entered(m, t).heap.len() <= usize::MAX,
        admits(ok, m.heap.len(), entered(m, t).heap.len()),
    ensures
        goes_ok(m, entered(m, t), ok),
{
    let none = Seq::<Val>::empty();
    match t.op {
        Op::Int(_) | Op::Float(_) | Op::Bool(_) | Op::Unit => {},
        Op::Str => {
            stored_ok(m, Contents::Str(t.names[0]), ok);
        },
        Op::Var => {
            looked_up_ok(m, t.names[0], ok);
        },
        Op::Binary(BinOp::And) => {
            pushed_ok(m, FrameTerm::Rhs { and: true, rhs: t.kids[1] }, ok);
        },
        Op::Binary(BinOp::Or) => {
            pushed_ok(m, FrameTerm::Rhs { and: false, rhs: t.kids[1] }, ok);
        },
        Op::Let => {
            pushed_ok(m, FrameTerm::LetBody { name: t.names[0], body: t.kids[1] }, ok);
        },
        Op::If => {
            pushed_ok(
                m,
                FrameTerm::Branches { then_branch: t.kids[1], else_branch: t.kids[2] },
                ok,
            );
        },
        Op::Match => {
            pushed_ok(m, FrameTerm::Arms { arms: t.arms }, ok);
        },
        Op::For => {
            pushed_ok(
                m,
                FrameTerm::LoopStart { var: t.names[0], end: t.kids[1], body: t.kids[2] },
                ok,
            );
        },
        Op::Assign => {
            pushed_ok(m, FrameTerm::AssignRest { name: t.names[0], rest: t.kids[1] }, ok);
        },
        Op::Closure(_) => {
            let r = entered(m, t);
            assert forall|i: int| 0 <= i < r.closures.len() implies scope_ok(
                (#[trigger] r.closures[i]).captured,
                ok,
            ) by {
                if i < m.closures.len() {
                    assert(r.closures[i] == m.closures[i]);
                }
            }
        },
        Op::RcAnnotated(op) => {
            if let Ok(Val::HeapRef(addr)) = lookup(m, t.names[0]) {
                if live(m.heap, addr as int) {
                    counted_ok(m.heap, addr, ok);
                }
            }
        },
        Op::Spawn | Op::Channel => {},
        Op::Select => {
            polled_ok(m, Seq::empty(), t.kids, 0, false, ok);
        },
        Op::Call => {
            let f = Val::Function(t.kids[0].names[0]);
            assert(ok(f));
            assert(all_ok(seq![f], ok));
            if t.kids[0].op == Op::Var && find(m.env, t.kids[0].names[0]) is None && find(
                m.globals,
                t.kids[0].names[0],
            ) is None && super::semantics::find_function(
                m.functions,
                t.kids[0].names[0],
            ) is Some {
                operands_ok(
                    m,
                    t.op,
                    t.names,
                    seq![f],
                    t.kids.subrange(1, t.kids.len() as int),
                    ok,
                );
            } else {
                operands_ok(m, t.op, t.names, none, t.kids, ok);
            }
        },
        Op::EmptyArray(_) | Op::AsCStr | Op::AsString | Op::ToIntTrunc | Op::ToIntRound
        | Op::ToFloat | Op::ExternCall | Op::ReadFileRaw | Op::WriteFileRaw | Op::EnvVarRaw
        | Op::ArgsRaw | Op::RandomRaw | Op::PanicRaw | Op::StrHash => {},
        _ => {
            if in_place(t.op) {
                looked_up_ok(m, t.names[0], ok);
                if let Ok(Val::HeapRef(addr)) = lookup(m, t.names[0]) {
                    assert(all_ok(seq![Val::HeapRef(addr)], ok));
                    operands_ok(m, t.op, t.names, seq![Val::HeapRef(addr)], t.kids, ok);
                }
            } else {
                operands_ok(m, t.op, t.names, none, t.kids, ok);
            }
        },
    }
}

proof fn chosen_ok(
    m: Machine,
    tag: Name,
    fields: Seq<Val>,
    arms: Seq<ArmTerm>,
    ok: spec_fn(Val) -> bool,
)
    requires
        held_ok(m, ok),
        all_ok(fields, ok),
    ensures
        goes_ok(m, chosen(m, tag, fields, arms), ok),
    decreases arms.len(),
{
    if arms.len() > 0 {
        let arm = arms[0];
        let rest = arms.subrange(1, arms.len() as int);
        if arm.tag != tag {
            chosen_ok(m, tag, fields, rest, ok);
        } else if arm.bindings.len() == fields.len() {
            zipped_ok(arm.bindings, fields, ok);
            scopes_ok(m.env, zipped(arm.bindings, fields), ok);
            let inner = Machine { env: m.env + zipped(arm.bindings, fields), ..m };
            pushed_ok(
                inner,
                FrameTerm::Guard { tag, fields, bound: fields.len(), body: arm.body, rest },
                ok,
            );
            pushed_ok(inner, FrameTerm::Unbind { count: fields.len() }, ok);
        }
    }
}

proof fn unbound_ok(m: Machine, n: nat, ok: spec_fn(Val) -> bool)
    requires
        held_ok(m, ok),
    ensures
        held_ok(m.unbind(n), ok),
{
    let r = m.unbind(n);
    assert forall|i: int| 0 <= i < r.env.len() implies ok((#[trigger] r.env[i]).1) by {
        assert(r.env[i] == m.env[i]);
    }
}

proof fn bound_ok(m: Machine, name: Name, v: Val, ok: spec_fn(Val) -> bool)
    requires
        held_ok(m, ok),
        ok(v),
    ensures
        held_ok(m.bind(name, v), ok),
{
    let r = m.bind(name, v);
    assert forall|i: int| 0 <= i < r.env.len() implies ok((#[trigger] r.env[i]).1) by {
        if i < m.env.len() {
            assert(r.env[i] == m.env[i]);
        }
    }
}

proof fn looped_ok(m: Machine, var: Name, i: i64, end: i64, body: Term, ok: spec_fn(Val) -> bool)
    requires
        held_ok(m, ok),
        forall|v: Val| !(v is HeapRef) ==> #[trigger] ok(v),
    ensures
        goes_ok(m, looped(m, var, i, end, body), ok),
{
    assert(ok(Val::Int(i)));
    bound_ok(m, var, Val::Int(i), ok);
    pushed_ok(
        m.bind(var, Val::Int(i)),
        FrameTerm::LoopNext { var, next: (i + 1) as i64, end, body },
        ok,
    );
}

proof fn given_ok(m: Machine, f: FrameTerm, v: Val, ok: spec_fn(Val) -> bool)
    requires
        held_ok(m, ok),
        frame_ok(f, ok),
        ok(v),
        given(m, f, v).heap.len() <= usize::MAX,
        admits(ok, m.heap.len(), given(m, f, v).heap.len()),
    ensures
        goes_ok(m, given(m, f, v), ok),
{
    match f {
        FrameTerm::Operands { op, names, done, todo } => {
            assert forall|i: int| 0 <= i < done.push(v).len() implies ok(
                #[trigger] done.push(v)[i],
            ) by {
                if i < done.len() {
                    assert(done.push(v)[i] == done[i]);
                }
            }
            if super::semantics::meets(v, super::semantics::demand(op, done.len())) {
                operands_ok(m, op, names, done.push(v), todo, ok);
            }
        },
        FrameTerm::Rhs { and, .. } => {
            pushed_ok(m, FrameTerm::RhsCheck { and }, ok);
        },
        FrameTerm::LetBody { name, .. } => {
            bound_ok(m, name, v, ok);
            pushed_ok(m.bind(name, v), FrameTerm::Unbind { count: 1 }, ok);
        },
        FrameTerm::Arms { arms } => {
            if let Val::HeapRef(addr) = v {
                if let Ok((tag, fields)) = ctor_at(m.heap, addr) {
                    assert(live(m.heap, addr as int));
                    assert(all_ok(fields, ok));
                    chosen_ok(m, tag, fields, arms, ok);
                }
            }
        },
        FrameTerm::Guard { tag, fields, bound, rest, .. } => {
            pushed_ok(m, FrameTerm::Unbind { count: bound }, ok);
            unbound_ok(m, bound, ok);
            chosen_ok(m.unbind(bound), tag, fields, rest, ok);
        },
        FrameTerm::Unbind { count } => {
            unbound_ok(m, count, ok);
        },
        FrameTerm::LoopStart { var, body, .. } => {
            if let Val::Int(start) = v {
                pushed_ok(m, FrameTerm::LoopEnd { var, start, body }, ok);
            }
        },
        FrameTerm::LoopEnd { var, start, body } => {
            if let Val::Int(end) = v {
                looped_ok(m, var, start, end, body, ok);
            }
        },
        FrameTerm::LoopNext { var, next, end, body } => {
            unbound_ok(m, 1, ok);
            looped_ok(m.unbind(1), var, next, end, body, ok);
        },
        FrameTerm::AssignRest { name, .. } => {
            found_is_bound(m.env, name);
            if let Some(i) = find(m.env, name) {
                let env = m.env.update(i, (name, v));
                assert forall|k: int| 0 <= k < env.len() implies ok((#[trigger] env[k]).1) by {
                    if k != i {
                        assert(env[k] == m.env[k]);
                    }
                }
            }
        },
        FrameTerm::Receivers { ready, kids } => {
            if let Val::Receiver(r) = v {
                polled_ok(m, ready.push(r), kids, 0, false, ok);
            }
        },
        FrameTerm::Globals { name, rest } => {
            let globals = with_global(m.globals, name, v);
            found_is_bound(m.globals, name);
            assert forall|k: int| 0 <= k < globals.len() implies ok((#[trigger] globals[k]).1) by {
                if k < m.globals.len() {
                    assert(ok(m.globals[k].1));
                }
            }
            let inner = Machine { globals, ..m };
            if rest.len() > 0 {
                pushed_ok(
                    inner,
                    FrameTerm::Globals {
                        name: rest[0].name,
                        rest: rest.subrange(1, rest.len() as int),
                    },
                    ok,
                );
            }
        },
        _ => {},
    }
}

/// A step hands on what a machine holds: if all its values are of a kind, and so are the
/// addresses of the cells that the step adds and everything that is no address, all are after
/// the step. No step takes an address back.
pub proof fn a_step_hands_on(m: Machine, ok: spec_fn(Val) -> bool)
    requires
        values_ok(m, ok),
        step(m).heap.len() <= usize::MAX,
        admits(ok, m.heap.len(), step(m).heap.len()),
    ensures
        values_ok(step(m), ok),
        m.heap.len() <= step(m).heap.len(),
{
    match m.control {
        ControlTerm::Eval(t) => {
            entered_ok(m.idle(), t, ok);
        },
        ControlTerm::Return(v) => {
            if m.stack.len() > 0 {
                let q = m.idle().pop();
                assert(stack_ok(q.stack, ok)) by {
                    assert forall|i: int| 0 <= i < q.stack.len() implies frame_ok(
                        #[trigger] q.stack[i],
                        ok,
                    ) by {
                        assert(q.stack[i] == m.stack[i]);
                    }
                }
                assert(frame_ok(m.stack[m.stack.len() - 1], ok));
                given_ok(q, m.stack.last(), v, ok);
            }
        },
        ControlTerm::Failed(_) => {
            if m.stack.len() > 0 {
                let q = m.pop();
                assert(stack_ok(q.stack, ok)) by {
                    assert forall|i: int| 0 <= i < q.stack.len() implies frame_ok(
                        #[trigger] q.stack[i],
                        ok,
                    ) by {
                        assert(q.stack[i] == m.stack[i]);
                    }
                }
                assert(frame_ok(m.stack[m.stack.len() - 1], ok));
                match m.stack.last() {
                    FrameTerm::Unbind { count } => {
                        unbound_ok(q, count, ok);
                    },
                    FrameTerm::Guard { bound, .. } => {
                        unbound_ok(q, bound, ok);
                    },
                    FrameTerm::LoopNext { .. } => {
                        unbound_ok(q, 1, ok);
                    },
                    _ => {},
                }
            }
        },
        ControlTerm::Waiting(_) => {},
    }
}

} // verus!
