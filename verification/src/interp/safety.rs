//! Counting frees nothing that is still needed.
//!
//! A counted binding is released in two ways only: at once, if nothing looks at it, or at the
//! end of its scope, if its value is read there and goes nowhere else. Either way the cell is
//! one that the binding's own value allocated, and nothing else refers to it.

use vstd::prelude::*;
use crate::anf::is_atom_op;
use crate::fbip::laws::{ends_scope, plain, plain_arm};
use crate::fbip::refcount::{allocates, drop_name, scope_end_drop};
use crate::fbip::uses::{arm_borrowed, borrowed, borrows_children, in_scope, is_reuse_op, is_var};
use crate::ir::{arm_decreases, shaped, t_rc, t_var, ArmTerm, BinOp, Name, Op, RcOp, Term};
use super::direct::{direct, direct_arm, ev, ev_arms, ev_either, ev_kids, is_direct_op};
use super::heap::{ctor_at, live, with_dec, with_inc, with_new, Cells, Contents};
use super::laws::found_is_bound;
use super::memory::same_contents;
use super::naming::outcome;
use super::semantics::{
    adjusted, applied, binary, built, changed, complete, equal, find, lookup, on_array, on_text,
    text_of, with_strings, zipped,
};
use super::state::{Machine, Scope};
use super::value::Val;

verus! {

/// Whether a value is no address, or that of a live cell.
pub open spec fn good(h: Cells, v: Val) -> bool {
    v matches Val::HeapRef(a) ==> live(h, a as int)
}

/// Whether a value is no address, or one that has been given out.
pub open spec fn in_range(h: Cells, v: Val) -> bool {
    v matches Val::HeapRef(a) ==> a < h.len()
}

pub open spec fn all_good(h: Cells, vs: Seq<Val>) -> bool {
    forall|i: int| 0 <= i < vs.len() ==> good(h, #[trigger] vs[i])
}

/// Whether every field of every live cell is good.
pub open spec fn sound(h: Cells) -> bool {
    forall|i: int|
        live(h, i) ==> ((#[trigger] h[i])->0.contents matches Contents::Ctor(_, fields) ==> all_good(
            h,
            fields,
        ))
}

pub open spec fn absent(vs: Seq<Val>, a: usize) -> bool {
    forall|i: int| 0 <= i < vs.len() ==> #[trigger] vs[i] != Val::HeapRef(a)
}

/// Whether no live cell has an address in a field.
pub open spec fn no_field(h: Cells, a: usize) -> bool {
    forall|i: int|
        live(h, i) ==> ((#[trigger] h[i])->0.contents matches Contents::Ctor(_, fields) ==> absent(
            fields,
            a,
        ))
}

/// Whether every live cell is counted, and no count is larger than `b`.
pub open spec fn counts_upto(h: Cells, b: nat) -> bool {
    forall|i: int| live(h, i) ==> 1 <= (#[trigger] h[i])->0.refcount <= b
}

/// Whether a heap goes on from another: what was live still is.
pub open spec fn goes_on(h: Cells, h2: Cells) -> bool {
    &&& h.len() <= h2.len()
    &&& forall|i: int| live(h, i) ==> live(h2, i)
}

/// Whether a heap only has cells added, each counted once.
spec fn only_adds(h: Cells, h2: Cells) -> bool {
    &&& h.len() <= h2.len()
    &&& forall|i: int| 0 <= i < h.len() ==> h2[i] == #[trigger] h[i]
    &&& forall|i: int| h.len() <= i < h2.len() ==> (#[trigger] h2[i]) is Some && h2[i]->0.refcount == 1
}

/// The operators that give a cell of their own.
pub open spec fn is_fresh_op(op: Op) -> bool {
    op == Op::Ctor || op == Op::Str || allocates(op)
}

/// What holds of an operator that is applied to operands.
spec fn behaves(q: Machine, op: Op, vs: Seq<Val>, h: Cells, v: Val) -> bool {
    &&& only_adds(q.heap, h)
    &&& sound(q.heap) && all_good(q.heap, vs) && h.len() <= usize::MAX ==> sound(h) && good(h, v)
    &&& forall|a: usize|
        a < q.heap.len() && no_field(q.heap, a) && (borrows_children(op) || absent(vs, a))
            && h.len() <= usize::MAX ==> #[trigger] no_field(h, a) && v != Val::HeapRef(a)
    &&& is_fresh_op(op) && h.len() <= usize::MAX ==> h.len() > q.heap.len() && v == Val::HeapRef(
        (h.len() - 1) as usize,
    )
    &&& is_fresh_op(op) && sound(q.heap) && all_good(q.heap, vs) && h.len() <= usize::MAX
        ==> no_field(h, (h.len() - 1) as usize)
}

proof fn a_new_cell_behaves(q: Machine, op: Op, vs: Seq<Val>, c: Contents)
    requires
        c matches Contents::Ctor(_, fields) ==> {
            &&& sound(q.heap) && all_good(q.heap, vs) ==> all_good(q.heap, fields)
            &&& forall|a: usize|
                no_field(q.heap, a) && (borrows_children(op) || absent(vs, a)) && a < q.heap.len()
                    ==> #[trigger] absent(fields, a)
        },
    ensures
        behaves(
            q,
            op,
            vs,
            with_new(q.heap, c),
            Val::HeapRef(q.heap.len() as usize),
        ),
{
    let h = with_new(q.heap, c);
    if sound(q.heap) && all_good(q.heap, vs) && h.len() <= usize::MAX {
        assert forall|i: int| live(h, i) implies ((#[trigger] h[i])->0.contents matches Contents::Ctor(
            _,
            fields,
        ) ==> all_good(h, fields)) by {
            if i < q.heap.len() {
                assert(live(q.heap, i));
                assert(h[i] == q.heap[i]);
                if let Contents::Ctor(_, fields) = h[i]->0.contents {
                    assert(all_good(q.heap, fields));
                    assert forall|j: int| 0 <= j < fields.len() implies good(
                        h,
                        #[trigger] fields[j],
                    ) by {
                        assert(good(q.heap, fields[j]));
                    }
                }
            } else {
                if let Contents::Ctor(_, fields) = c {
                    assert forall|j: int| 0 <= j < fields.len() implies good(
                        h,
                        #[trigger] fields[j],
                    ) by {
                        assert(good(q.heap, fields[j]));
                    }
                }
            }
        }
    }
    if sound(q.heap) && all_good(q.heap, vs) && h.len() <= usize::MAX {
        let own = (h.len() - 1) as usize;
        assert forall|i: int| live(h, i) implies ((#[trigger] h[i])->0.contents matches Contents::Ctor(
            _,
            fields,
        ) ==> absent(fields, own)) by {
            if let Contents::Ctor(_, fields) = h[i]->0.contents {
                if i < q.heap.len() {
                    assert(live(q.heap, i));
                    assert(h[i] == q.heap[i]);
                }
                assert(all_good(q.heap, fields));
                assert forall|j: int| 0 <= j < fields.len() implies #[trigger] fields[j]
                    != Val::HeapRef(own) by {
                    assert(good(q.heap, fields[j]));
                }
            }
        }
    }
    assert forall|a: usize|
        a < q.heap.len() && no_field(q.heap, a) && (borrows_children(op) || absent(vs, a))
            && h.len() <= usize::MAX implies #[trigger] no_field(h, a) by {
        if let Contents::Ctor(_, fields) = c {
            assert(absent(fields, a));
        }
        assert forall|i: int| live(h, i) implies ((#[trigger] h[i])->0.contents matches Contents::Ctor(
            _,
            fields,
        ) ==> absent(fields, a)) by {
            if i < q.heap.len() {
                assert(live(q.heap, i));
                assert(h[i] == q.heap[i]);
            }
        }
    }
}

proof fn an_array_behaves(q: Machine, op: Op, vs: Seq<Val>)
    requires
        complete(op, 0, vs.len()),
        op == Op::ArrayPush || op == Op::ArrayPop || op == Op::ArraySet || op == Op::ArrayRemove,
    ensures
        outcome(on_array(q, op, vs)) matches Some((h, v)) ==> behaves(q, op, vs, h, v),
{
    if let Val::HeapRef(addr) = vs[0] {
        if let Ok((tag, fields)) = ctor_at(q.heap, addr) {
            if let Ok(new) = changed(op, fields, vs) {
                let c = Contents::Ctor(tag, new);
                assert(live(q.heap, addr as int));
                assert(forall|j: int|
                    0 <= j < new.len() ==> (exists|i: int|
                        0 <= i < fields.len() && fields[i] == #[trigger] new[j]) || (exists|i: int|
                        0 <= i < vs.len() && vs[i] == new[j])) by {
                    assert forall|j: int| 0 <= j < new.len() implies (exists|i: int|
                        0 <= i < fields.len() && fields[i] == #[trigger] new[j]) || (exists|i: int|
                        0 <= i < vs.len() && vs[i] == new[j]) by {
                        match op {
                            Op::ArrayPush => {
                                if j < fields.len() {
                                    assert(fields[j] == new[j]);
                                } else {
                                    assert(vs[1] == new[j]);
                                }
                            },
                            Op::ArrayPop => {
                                assert(fields[j] == new[j]);
                            },
                            Op::ArraySet => {
                                if new[j] != fields[j] {
                                    assert(vs[2] == new[j]);
                                } else {
                                    assert(fields[j] == new[j]);
                                }
                            },
                            _ => {
                                let i = vs[1]->Int_0 as int;
                                if j < i {
                                    assert(fields[j] == new[j]);
                                } else {
                                    assert(fields[j + 1] == new[j]);
                                }
                            },
                        }
                    }
                }
                if sound(q.heap) && all_good(q.heap, vs) {
                    assert(all_good(q.heap, fields));
                    assert(all_good(q.heap, new));
                }
                assert forall|a: usize|
                    no_field(q.heap, a) && (borrows_children(op) || absent(vs, a)) && a
                        < q.heap.len() implies #[trigger] absent(new, a) by {
                    assert(absent(fields, a));
                }
                a_new_cell_behaves(q, op, vs, c);
            }
        }
    }
}

proof fn strings_only_add(h: Cells, ss: Seq<Name>, n: nat)
    ensures
        ({
            let (h2, vs) = with_strings(h, ss, n);
            &&& only_adds(h, h2)
            &&& sound(h) ==> sound(h2)
            &&& h2.len() <= usize::MAX ==> all_good(h2, vs)
            &&& forall|a: usize| no_field(h, a) ==> #[trigger] no_field(h2, a)
            &&& forall|a: usize| a < h.len() && h2.len() <= usize::MAX ==> #[trigger] absent(vs, a)
        }),
    decreases n,
{
    if 0 < n <= ss.len() {
        strings_only_add(h, ss, (n - 1) as nat);
        let (h1, vs) = with_strings(h, ss, (n - 1) as nat);
        let h2 = with_new(h1, Contents::Str(ss[n - 1]));
        assert forall|i: int| live(h2, i) && i < h1.len() implies live(h1, i) && h2[i] == h1[i] by {}
        if sound(h) {
            assert forall|i: int| live(h2, i) implies ((
            #[trigger] h2[i])->0.contents matches Contents::Ctor(_, fields) ==> all_good(
                h2,
                fields,
            )) by {
                if i < h1.len() {
                    assert(live(h1, i));
                    assert(h2[i] == h1[i]);
                    if let Contents::Ctor(_, fields) = h2[i]->0.contents {
                        assert(all_good(h1, fields));
                        assert forall|j: int| 0 <= j < fields.len() implies good(
                            h2,
                            #[trigger] fields[j],
                        ) by {
                            assert(good(h1, fields[j]));
                        }
                    }
                }
            }
        }
        if h2.len() <= usize::MAX {
            let all = vs.push(Val::HeapRef(h1.len() as usize));
            assert forall|j: int| 0 <= j < all.len() implies good(h2, #[trigger] all[j]) by {
                if j < vs.len() {
                    assert(good(h1, vs[j]));
                }
            }
            assert forall|a: usize| a < h.len() implies #[trigger] absent(all, a) by {
                assert(absent(vs, a));
            }
        }
        assert forall|a: usize| no_field(h, a) implies #[trigger] no_field(h2, a) by {
            assert(no_field(h1, a));
            assert forall|i: int| live(h2, i) implies ((
            #[trigger] h2[i])->0.contents matches Contents::Ctor(_, fields) ==> absent(
                fields,
                a,
            )) by {
                if i < h1.len() {
                    assert(live(h1, i));
                    assert(h2[i] == h1[i]);
                }
            }
        }
    }
}

proof fn splitting_behaves(q: Machine, vs: Seq<Val>, ss: Seq<Name>, tag: Name)
    ensures
        ({
            let (h, parts) = with_strings(q.heap, ss, ss.len());
            behaves(
                q,
                Op::StrSplit,
                vs,
                with_new(h, Contents::Ctor(tag, parts)),
                Val::HeapRef(h.len() as usize),
            )
        }),
{
    let (h, parts) = with_strings(q.heap, ss, ss.len());
    strings_only_add(q.heap, ss, ss.len());
    let c = Contents::Ctor(tag, parts);
    let q2 = Machine { heap: h, ..q };
    let h2 = with_new(h, c);
    if h2.len() <= usize::MAX {
        assert(all_good(h, parts));
        assert forall|a: usize| a < q.heap.len() implies #[trigger] absent(parts, a) by {}
        if sound(q.heap) {
            assert forall|i: int| live(h2, i) implies ((
            #[trigger] h2[i])->0.contents matches Contents::Ctor(_, fields) ==> all_good(
                h2,
                fields,
            )) by {
                if i < h.len() {
                    assert(live(h, i));
                    assert(h2[i] == h[i]);
                }
                if let Contents::Ctor(_, fields) = h2[i]->0.contents {
                    assert(all_good(h, fields));
                    assert forall|j: int| 0 <= j < fields.len() implies good(
                        h2,
                        #[trigger] fields[j],
                    ) by {
                        assert(good(h, fields[j]));
                    }
                }
            }
        }
        if sound(q.heap) {
            let own = h.len() as usize;
            assert forall|i: int| live(h2, i) implies ((
            #[trigger] h2[i])->0.contents matches Contents::Ctor(_, fields) ==> absent(
                fields,
                own,
            )) by {
                if let Contents::Ctor(_, fields) = h2[i]->0.contents {
                    if i < h.len() {
                        assert(live(h, i));
                        assert(h2[i] == h[i]);
                    }
                    assert(all_good(h, fields));
                    assert forall|j: int| 0 <= j < fields.len() implies #[trigger] fields[j]
                        != Val::HeapRef(own) by {
                        assert(good(h, fields[j]));
                    }
                }
            }
        }
        assert forall|a: usize| a < q.heap.len() && no_field(q.heap, a) implies #[trigger] no_field(
            h2,
            a,
        ) by {
            assert(no_field(h, a));
            assert(absent(parts, a));
            assert forall|i: int| live(h2, i) implies ((
            #[trigger] h2[i])->0.contents matches Contents::Ctor(_, fields) ==> absent(
                fields,
                a,
            )) by {
                if i < h.len() {
                    assert(live(h, i));
                    assert(h2[i] == h[i]);
                }
            }
        }
    }
}

proof fn text_behaves(q: Machine, op: Op, vs: Seq<Val>)
    requires
        is_direct_op(op),
        complete(op, 0, vs.len()),
        op != Op::Ctor && op != Op::ToString,
        !(op is Unary) && !(op is Binary),
        op != Op::ArrayPush && op != Op::ArrayPop && op != Op::ArraySet && op != Op::ArrayRemove,
    ensures
        outcome(on_text(q, op, vs)) matches Some((h, v)) ==> behaves(q, op, vs, h, v),
{
    match op {
        Op::Index => {
            if let Some((h, v)) = outcome(on_text(q, op, vs)) {
                let addr = vs[0]->HeapRef_0;
                assert(live(q.heap, addr as int));
                if let Contents::Ctor(_, fields) = q.heap[addr as int]->0.contents {
                    let i = vs[1]->Int_0 as int;
                    assert(v == fields[i]);
                    assert(sound(q.heap) ==> all_good(q.heap, fields));
                    assert forall|a: usize| no_field(q.heap, a) implies v != Val::HeapRef(a) by {
                        assert(absent(fields, a));
                    }
                }
            }
        },
        Op::ArrayLen | Op::StrContains | Op::StrStartsWith | Op::StrEndsWith => {},
        Op::StrRunes => {
            if let Ok(s) = text_of(q.heap, op, vs, 0) {
                let ps = super::text::code_points(s);
                let c = Contents::Ctor("0Array"@, ps);
                assert forall|j: int| 0 <= j < ps.len() implies !(#[trigger] ps[j] is HeapRef) by {}
                a_new_cell_behaves(q, op, vs, c);
            }
        },
        Op::StrSplit => {
            if let Ok(s) = text_of(q.heap, op, vs, 0) {
                if let Ok(t) = text_of(q.heap, op, vs, 1) {
                    splitting_behaves(q, vs, super::text::pieces(s, t), "0Array"@);
                }
            }
        },
        _ => {
            if let Ok(s) = built(q.heap, op, vs) {
                a_new_cell_behaves(q, op, vs, Contents::Str(s));
            }
        },
    }
}

/// An operator builds nothing but cells of its own, from what it was given.
proof fn applying_behaves(q: Machine, op: Op, names: Seq<Name>, vs: Seq<Val>)
    requires
        is_direct_op(op),
    ensures
        outcome(applied(q, op, names, vs)) matches Some((h, v)) ==> behaves(q, op, vs, h, v),
{
    if complete(op, names.len(), vs.len()) {
        match op {
            Op::Unary(_) => {},
            Op::Binary(o) => {
                if let Some((h, v)) = outcome(binary(q, o, vs[0], vs[1])) {
                    assert(h == q.heap);
                    assert(!(v is HeapRef));
                }
            },
            Op::Ctor => {
                a_new_cell_behaves(q, op, vs, Contents::Ctor(names[0], vs));
            },
            Op::ArrayPush | Op::ArrayPop | Op::ArraySet | Op::ArrayRemove => {
                an_array_behaves(q, op, vs);
            },
            Op::ToString => {
                if let Val::Int(n) = vs[0] {
                    a_new_cell_behaves(
                        q,
                        op,
                        vs,
                        Contents::Str(crate::names::signed_decimal(n as int)),
                    );
                } else if let Val::Bool(b) = vs[0] {
                    a_new_cell_behaves(q, op, vs, Contents::Str(super::error::bool_text(b)));
                } else if let Val::HeapRef(addr) = vs[0] {
                    if let Ok(s) = super::heap::str_at(q.heap, addr) {
                        a_new_cell_behaves(q, op, vs, Contents::Str(s));
                    }
                }
            },
            _ => {
                text_behaves(q, op, vs);
            },
        }
    }
}

proof fn evaluating_adds(q: Machine, t: Term)
    requires
        direct(t),
    ensures
        ev(q, t) matches Some((h, _)) ==> q.heap.len() <= h.len(),
    decreases t, t.kids.len() + t.arms.len() + 1,
{
    match t.op {
        Op::Str => {},
        Op::RcAnnotated(op) => {
            let r = adjusted(q, op, t.names[0], t.kids[0]);
            assert(r.heap.len() == q.heap.len());
            evaluating_adds(Machine { heap: r.heap, ..q }, t.kids[0]);
        },
        Op::Let => {
            evaluating_adds(q, t.kids[0]);
            if let Some((h, v)) = ev(q, t.kids[0]) {
                evaluating_adds(
                    Machine { heap: h, env: q.env.push((t.names[0], v)), ..q },
                    t.kids[1],
                );
            }
        },
        Op::If => {
            evaluating_adds(q, t.kids[0]);
            if let Some((h, v)) = ev(q, t.kids[0]) {
                evaluating_adds(Machine { heap: h, ..q }, t.kids[1]);
                evaluating_adds(Machine { heap: h, ..q }, t.kids[2]);
            }
        },
        Op::Binary(BinOp::And) => {
            either_adds(q, t, true);
        },
        Op::Binary(BinOp::Or) => {
            either_adds(q, t, false);
        },
        Op::Match => {
            evaluating_adds(q, t.kids[0]);
            if let Some((h, Val::HeapRef(addr))) = ev(q, t.kids[0]) {
                if let Ok((tag, fields)) = ctor_at(h, addr) {
                    arms_add(Machine { heap: h, ..q }, t, 0, tag, fields);
                }
            }
        },
        _ => {
            if !is_atom_op(t.op) {
                kids_add(q, t, t.kids.len());
                if let Some((h, vs)) = ev_kids(q, t, t.kids.len()) {
                    applying_behaves(Machine { heap: h, ..q }, t.op, t.names, vs);
                }
            }
        },
    }
}

proof fn kids_add(q: Machine, t: Term, n: nat)
    requires
        direct(t),
    ensures
        ev_kids(q, t, n) matches Some((h, _)) ==> q.heap.len() <= h.len(),
    decreases t, n,
{
    if 0 < n <= t.kids.len() {
        kids_add(q, t, (n - 1) as nat);
        if let Some((h, _)) = ev_kids(q, t, (n - 1) as nat) {
            evaluating_adds(Machine { heap: h, ..q }, t.kids[n - 1]);
        }
    }
}

proof fn either_adds(q: Machine, t: Term, and: bool)
    requires
        direct(t),
    ensures
        ev_either(q, t, and) matches Some((h, _)) ==> q.heap.len() <= h.len(),
    decreases t, 0nat,
{
    if t.kids.len() == 2 {
        evaluating_adds(q, t.kids[0]);
        if let Some((h, _)) = ev(q, t.kids[0]) {
            evaluating_adds(Machine { heap: h, ..q }, t.kids[1]);
        }
    }
}

proof fn arms_add(q: Machine, t: Term, k: nat, tag: Name, fields: Seq<Val>)
    requires
        direct(t),
    ensures
        ev_arms(q, t, k, tag, fields) matches Some((h, _)) ==> q.heap.len() <= h.len(),
    decreases t, t.arms.len() - k,
{
    if k < t.arms.len() {
        let arm = t.arms[k as int];
        arm_decreases(arm);
        assert(direct_arm(arm));
        arms_add(q, t, k + 1, tag, fields);
        let inner = Machine { env: q.env + zipped(arm.bindings, fields), ..q };
        evaluating_adds(inner, arm.body);
        if let Some(g) = arm.guard {
            evaluating_adds(inner, g);
            if let Some((h, _)) = ev(inner, g) {
                evaluating_adds(Machine { heap: h, ..inner }, arm.body);
                arms_add(Machine { heap: h, ..q }, t, k + 1, tag, fields);
            }
        }
    }
}

/// Whether a name is bound to an address.
spec fn bound_to(env: Scope, x: Name, a: usize) -> bool {
    find(env, x) matches Some(i) && env[i].1 == Val::HeapRef(a)
}

/// Whether a term only reads what is at an address, under whatever name.
spec fn only_reads_at(env: Scope, t: Term, a: usize) -> bool {
    forall|x: Name| #[trigger] bound_to(env, x, a) ==> borrowed(t, x)
}

spec fn no_global(globals: Scope, a: usize) -> bool {
    forall|i: int| 0 <= i < globals.len() ==> (#[trigger] globals[i]).1 != Val::HeapRef(a)
}

/// Binding another value changes nothing in what is bound to an address.
proof fn binding_another(env: Scope, y: Name, v: Val, a: usize, x: Name)
    requires
        v != Val::HeapRef(a),
    ensures
        bound_to(env.push((y, v)), x, a) ==> x != y && bound_to(env, x, a),
{
    let more = env.push((y, v));
    assert(more.drop_last() =~= env);
    found_is_bound(env, x);
}

proof fn binding_others(env: Scope, names: Seq<Name>, vs: Seq<Val>, a: usize, x: Name)
    requires
        absent(vs, a),
        names.len() == vs.len(),
    ensures
        bound_to(env + zipped(names, vs), x, a) ==> !names.contains(x) && bound_to(env, x, a),
    decreases names.len(),
{
    if names.len() == 0 {
        assert(env + zipped(names, vs) =~= env);
    } else {
        let n = names.len() - 1;
        let more = env + zipped(names, vs);
        let ns = names.drop_last();
        let ws = vs.drop_last();
        assert(more.last() == (names[n], vs[n]));
        assert(more.drop_last() =~= env + zipped(ns, ws));
        assert(absent(ws, a)) by {
            assert forall|i: int| 0 <= i < ws.len() implies #[trigger] ws[i] != Val::HeapRef(a) by {
                assert(ws[i] == vs[i]);
            }
        }
        binding_others(env, ns, ws, a, x);
        if bound_to(more, x, a) {
            assert(vs[n] != Val::HeapRef(a));
            found_is_bound(more.drop_last(), x);
            assert(x != names[n]);
            assert(bound_to(more.drop_last(), x, a));
            if names.contains(x) {
                let i = names.index_of(x);
                assert(i < n);
                assert(ns[i] == x);
            }
        }
    }
}

/// Whether the memory holds an address nowhere but in the scope.
spec fn only_in_scope(q: Machine, a: usize) -> bool {
    &&& a < q.heap.len()
    &&& no_field(q.heap, a)
    &&& no_global(q.globals, a)
}

/// What is only read goes nowhere: the value is another one, and no cell has it in a field.
proof fn nothing_leaks(q: Machine, t: Term, a: usize)
    requires
        direct(t),
        only_in_scope(q, a),
        only_reads_at(q.env, t, a),
        ev(q, t) matches Some((h, _)) && h.len() <= usize::MAX,
    ensures
        ({
            let (h, v) = ev(q, t)->0;
            no_field(h, a) && v != Val::HeapRef(a)
        }),
    decreases t, t.kids.len() + t.arms.len() + 1,
{
    assert forall|i: int, x: Name|
        0 <= i < t.kids.len() && !(borrows_children(t.op) && is_var(t.kids[i], x)) && in_scope(
            t,
            i,
            x,
        ) && #[trigger] bound_to(q.env, x, a) && t.op != Op::Var implies borrowed(
        #[trigger] t.kids[i],
        x,
    ) by {
        assert(borrowed(t, x));
    }
    match t.op {
        Op::Str => {
            let h = (ev(q, t)->0).0;
            assert forall|i: int| live(h, i) implies ((
            #[trigger] h[i])->0.contents matches Contents::Ctor(_, fields) ==> absent(
                fields,
                a,
            )) by {
                if i < q.heap.len() {
                    assert(live(q.heap, i));
                    assert(h[i] == q.heap[i]);
                }
            }
        },
        Op::RcAnnotated(op) => {
            let r = adjusted(q, op, t.names[0], t.kids[0]);
            let next = Machine { heap: r.heap, ..q };
            assert(no_field(r.heap, a)) by {
                assert forall|i: int| live(r.heap, i) implies ((
                #[trigger] r.heap[i])->0.contents matches Contents::Ctor(_, fields) ==> absent(
                    fields,
                    a,
                )) by {
                    assert(live(q.heap, i));
                    assert(r.heap[i]->0.contents == q.heap[i]->0.contents);
                }
            }
            assert(only_reads_at(next.env, t.kids[0], a));
            nothing_leaks(next, t.kids[0], a);
        },
        Op::Let => {
            let name = t.names[0];
            let (h, v) = ev(q, t.kids[0])->0;
            let inner = Machine { heap: h, env: q.env.push((name, v)), ..q };
            evaluating_adds(q, t.kids[0]);
            evaluating_adds(inner, t.kids[1]);
            assert(only_reads_at(q.env, t.kids[0], a));
            nothing_leaks(q, t.kids[0], a);
            assert forall|x: Name| #[trigger] bound_to(inner.env, x, a) implies borrowed(
                t.kids[1],
                x,
            ) by {
                binding_another(q.env, name, v, a, x);
            }
            nothing_leaks(inner, t.kids[1], a);
        },
        Op::If => {
            let (h, v) = ev(q, t.kids[0])->0;
            let now = Machine { heap: h, ..q };
            let kid = if v == Val::Bool(true) {
                t.kids[1]
            } else {
                t.kids[2]
            };
            assert(direct(kid));
            evaluating_adds(q, t.kids[0]);
            evaluating_adds(now, kid);
            assert(only_reads_at(q.env, t.kids[0], a));
            nothing_leaks(q, t.kids[0], a);
            assert(only_reads_at(now.env, t.kids[1], a) && only_reads_at(now.env, t.kids[2], a));
            nothing_leaks(now, kid, a);
        },
        Op::Binary(BinOp::And) | Op::Binary(BinOp::Or) => {
            let and = t.op == Op::Binary(BinOp::And);
            let (h, v) = ev(q, t.kids[0])->0;
            let now = Machine { heap: h, ..q };
            either_adds(q, t, and);
            evaluating_adds(q, t.kids[0]);
            evaluating_adds(now, t.kids[1]);
            assert(only_reads_at(q.env, t.kids[0], a));
            assert(only_reads_at(q.env, t.kids[1], a));
            assert(ev_either(q, t, and) == ev(q, t));
            nothing_leaks(q, t.kids[0], a);
            if v == Val::Bool(and) {
                nothing_leaks(now, t.kids[1], a);
            }
        },
        Op::Match => {
            let (h, v) = ev(q, t.kids[0])->0;
            let addr = v->HeapRef_0;
            let now = Machine { heap: h, ..q };
            let (tag, fields) = ctor_at(h, addr)->Ok_0;
            evaluating_adds(q, t.kids[0]);
            arms_add(now, t, 0, tag, fields);
            if t.kids[0].op == Op::Var {
                assert(h == q.heap);
            } else {
                assert(only_reads_at(q.env, t.kids[0], a));
                nothing_leaks(q, t.kids[0], a);
            }
            assert(live(h, addr as int));
            assert(absent(fields, a));
            arms_leak_nothing(now, t, 0, tag, fields, a);
        },
        Op::Var => {
            let name = t.names[0];
            found_is_bound(q.globals, name);
            if bound_to(q.env, name, a) {
                assert(borrowed(t, name));
            }
        },
        _ => {
            if !is_atom_op(t.op) {
                let (h, vs) = ev_kids(q, t, t.kids.len())->0;
                let now = Machine { heap: h, ..q };
                applying_behaves(now, t.op, t.names, vs);
                kids_add(q, t, t.kids.len());
                kids_leak_nothing(q, t, t.kids.len(), a);
            }
        },
    }
}

proof fn kids_leak_nothing(q: Machine, t: Term, n: nat, a: usize)
    requires
        direct(t),
        n <= t.kids.len(),
        only_in_scope(q, a),
        only_reads_at(q.env, t, a),
        t.op != Op::Let && t.op != Op::For && t.op != Op::Var && t.op != Op::Match,
        !(t.op is Closure) && t.op != Op::Spawn,
        ev_kids(q, t, n) matches Some((h, _)) && h.len() <= usize::MAX,
    ensures
        ({
            let (h, vs) = ev_kids(q, t, n)->0;
            no_field(h, a) && (borrows_children(t.op) || absent(vs, a))
        }),
    decreases t, n,
{
    if n > 0 {
        let (h, vs) = ev_kids(q, t, (n - 1) as nat)->0;
        let now = Machine { heap: h, ..q };
        let kid = t.kids[n - 1];
        evaluating_adds(now, kid);
        kids_add(q, t, (n - 1) as nat);
        kids_leak_nothing(q, t, (n - 1) as nat, a);
        assert(direct(kid));
        if borrows_children(t.op) && kid.op == Op::Var {
            assert((ev(now, kid)->0).0 == h);
        } else {
            assert forall|x: Name| #[trigger] bound_to(now.env, x, a) implies borrowed(kid, x) by {
                assert(borrowed(t, x));
                assert(in_scope(t, n - 1, x));
            }
            nothing_leaks(now, kid, a);
        }
    }
}

proof fn arms_leak_nothing(q: Machine, t: Term, k: nat, tag: Name, fields: Seq<Val>, a: usize)
    requires
        direct(t),
        t.op == Op::Match,
        only_in_scope(q, a),
        only_reads_at(q.env, t, a),
        absent(fields, a),
        ev_arms(q, t, k, tag, fields) matches Some((h, _)) && h.len() <= usize::MAX,
    ensures
        ({
            let (h, v) = ev_arms(q, t, k, tag, fields)->0;
            no_field(h, a) && v != Val::HeapRef(a)
        }),
    decreases t, t.arms.len() - k,
{
    let arm = t.arms[k as int];
    arm_decreases(arm);
    assert(direct_arm(arm));
    if arm.tag != tag {
        arms_leak_nothing(q, t, k + 1, tag, fields, a);
    } else {
        let inner = Machine { env: q.env + zipped(arm.bindings, fields), ..q };
        assert forall|x: Name| #[trigger] bound_to(inner.env, x, a) implies borrowed(arm.body, x)
            && (arm.guard matches Some(g) ==> borrowed(g, x)) by {
            binding_others(q.env, arm.bindings, fields, a, x);
            assert(borrowed(t, x));
            assert(arm_borrowed(arm, x));
        }
        assert(only_reads_at(inner.env, arm.body, a));
        match arm.guard {
            None => {
                nothing_leaks(inner, arm.body, a);
            },
            Some(g) => {
                assert(only_reads_at(inner.env, g, a));
                let (h, v) = ev(inner, g)->0;
                evaluating_adds(inner, g);
                let now = Machine { heap: h, ..inner };
                let back = Machine { heap: h, ..q };
                evaluating_adds(now, arm.body);
                arms_add(back, t, k + 1, tag, fields);
                nothing_leaks(inner, g, a);
                if v == Val::Bool(true) {
                    nothing_leaks(now, arm.body, a);
                } else {
                    arms_leak_nothing(back, t, k + 1, tag, fields, a);
                }
            },
        }
    }
}

/// Whether a term looks up the outer `x`, to use its value or to adjust its count.
pub open spec fn looks_up(t: Term, x: Name) -> bool
    decreases t,
{
    ||| (t.op == Op::Var || t.op is RcAnnotated) && t.names[0] == x
    ||| exists|i: int| 0 <= i < t.kids.len() && in_scope(t, i, x) && looks_up(#[trigger] t.kids[i], x)
    ||| exists|k: int| 0 <= k < t.arms.len() && arm_looks_up(#[trigger] t.arms[k], x)
}

/// Whether an arm looks up the outer `x`.
pub open spec fn arm_looks_up(arm: ArmTerm, x: Name) -> bool
    decreases arm,
{
    &&& !arm.bindings.contains(x)
    &&& {
        ||| (arm.guard matches Some(g) && looks_up(g, x))
        ||| looks_up(arm.body, x)
    }
}

/// Whether a binding is released at once.
pub open spec fn releases_at_once(t: Term) -> bool {
    t.op == Op::Let && t.kids.len() == 2 && t.kids[1].op == Op::RcAnnotated(RcOp::Dec)
        && t.kids[1].names[0] == t.names[0] && t.kids[1].kids.len() == 1
}

/// Whether a binding is released at the end of its scope.
pub open spec fn releases_at_the_end(t: Term) -> bool {
    t.op == Op::Let && t.kids.len() == 2 && t.kids[1].kids.len() == 2 && t.kids[1]
        == scope_end_drop(t.kids[1].kids[0], t.names[0])
}

/// Whether a term releases only what its own bindings allocated: at once if nothing looks at
/// it, or at the end of the scope if it is only read there. Counts go up only where a variable
/// is used.
pub open spec fn tidy(t: Term) -> bool
    decreases t,
{
    if releases_at_once(t) {
        &&& is_fresh_op(t.kids[0].op)
        &&& tidy(t.kids[0])
        &&& tidy(t.kids[1].kids[0])
        &&& !looks_up(t.kids[1].kids[0], t.names[0])
    } else if releases_at_the_end(t) {
        &&& is_fresh_op(t.kids[0].op)
        &&& tidy(t.kids[0])
        &&& tidy(t.kids[1].kids[0])
        &&& borrowed(t.kids[1].kids[0], t.names[0])
    } else if t.op is RcAnnotated {
        t == t_rc(RcOp::Inc, t.names[0], t_var(t.names[0]))
    } else {
        &&& !is_reuse_op(t.op)
        &&& forall|i: int| 0 <= i < t.kids.len() ==> tidy(#[trigger] t.kids[i])
        &&& forall|k: int| 0 <= k < t.arms.len() ==> tidy_arm(#[trigger] t.arms[k])
    }
}

/// Whether an arm releases only what its own bindings allocated.
pub open spec fn tidy_arm(arm: ArmTerm) -> bool
    decreases arm,
{
    &&& (arm.guard matches Some(g) ==> tidy(g))
    &&& tidy(arm.body)
}

/// How many increments a term holds.
pub open spec fn weight(t: Term) -> nat
    decreases t, t.kids.len() + t.arms.len() + 1,
{
    (if t.op == Op::RcAnnotated(RcOp::Inc) {
        1nat
    } else {
        0
    }) + weight_kids(t, t.kids.len()) + weight_arms(t, 0)
}

/// How many increments the first `n` children hold.
pub open spec fn weight_kids(t: Term, n: nat) -> nat
    decreases t, n,
{
    if n == 0 || n > t.kids.len() {
        0
    } else {
        weight_kids(t, (n - 1) as nat) + weight(t.kids[n - 1])
    }
}

/// How many increments the arms from place `k` on hold.
pub open spec fn weight_arms(t: Term, k: nat) -> nat
    decreases t, t.arms.len() - k,
{
    if k >= t.arms.len() {
        0
    } else {
        let arm = t.arms[k as int];
        (match arm.guard {
            Some(g) => weight(g),
            None => 0,
        }) + weight(arm.body) + weight_arms(t, k + 1)
    }
}

proof fn two_kids_weigh(t: Term)
    requires
        t.kids.len() == 2,
    ensures
        weight_kids(t, 2) == weight(t.kids[0]) + weight(t.kids[1]),
{
    assert(weight_kids(t, 1) == weight_kids(t, 0) + weight(t.kids[0]));
}

proof fn three_kids_weigh(t: Term)
    requires
        t.kids.len() == 3,
    ensures
        weight_kids(t, 3) == weight(t.kids[0]) + weight(t.kids[1]) + weight(t.kids[2]),
{
    assert(weight_kids(t, 1) == weight_kids(t, 0) + weight(t.kids[0]));
    assert(weight_kids(t, 2) == weight_kids(t, 1) + weight(t.kids[1]));
}

/// Whether the memory of a machine is in order, beside a heap where less has been freed.
pub(crate) open spec fn in_order(q: Machine, hs: Cells, b: nat) -> bool {
    &&& sound(q.heap)
    &&& same_contents(hs, q.heap)
    &&& counts_upto(q.heap, b)
    &&& forall|i: int| 0 <= i < q.env.len() ==> in_range(q.heap, (#[trigger] q.env[i]).1)
    &&& forall|i: int| 0 <= i < q.globals.len() ==> good(q.heap, (#[trigger] q.globals[i]).1)
}

/// Whether everything that a term looks up is live.
pub(crate) open spec fn names_good(q: Machine, t: Term) -> bool {
    forall|x: Name| #[trigger]
        looks_up(t, x) ==> (find(q.env, x) matches Some(i) ==> good(q.heap, q.env[i].1))
}

/// What an evaluation has to leave behind.
pub(crate) open spec fn ends_well(q: Machine, hs: Cells, h: Cells, v: Val, b: nat) -> bool {
    &&& sound(h)
    &&& same_contents(hs, h)
    &&& counts_upto(h, b)
    &&& goes_on(q.heap, h)
    &&& good(h, v)
}

proof fn order_goes_on(q: Machine, hs: Cells, h: Cells, b: nat, b2: nat)
    requires
        in_order(q, hs, b),
        sound(h),
        goes_on(q.heap, h),
        counts_upto(h, b2),
    ensures
        forall|hs2: Cells|
            #[trigger] same_contents(hs2, h) ==> in_order(Machine { heap: h, ..q }, hs2, b2),
{
    let now = Machine { heap: h, ..q };
    assert forall|i: int| 0 <= i < now.globals.len() implies good(
        h,
        (#[trigger] now.globals[i]).1,
    ) by {
        assert(good(q.heap, q.globals[i].1));
    }
    assert forall|i: int| 0 <= i < now.env.len() implies in_range(h, (#[trigger] now.env[i]).1) by {
        assert(in_range(q.heap, q.env[i].1));
    }
}

proof fn names_go_on(q: Machine, h: Cells, t: Term, kid: Term)
    requires
        names_good(q, t),
        goes_on(q.heap, h),
        forall|x: Name| #[trigger] looks_up(kid, x) ==> looks_up(t, x),
    ensures
        names_good(Machine { heap: h, ..q }, kid),
{
    let now = Machine { heap: h, ..q };
    assert forall|x: Name| #[trigger] looks_up(kid, x) implies (find(now.env, x) matches Some(i)
        ==> good(h, now.env[i].1)) by {
        assert(looks_up(t, x));
        if let Some(i) = find(q.env, x) {
            assert(good(q.heap, q.env[i].1));
        }
    }
}

proof fn a_kid_looks_up(t: Term, i: int)
    requires
        0 <= i < t.kids.len(),
    ensures
        forall|x: Name| in_scope(t, i, x) && #[trigger] looks_up(t.kids[i], x) ==> looks_up(t, x),
{
}

/// A name in a longer scope.
proof fn found_in_longer(env: Scope, y: Name, v: Val, x: Name)
    ensures
        ({
            let more = env.push((y, v));
            if x == y {
                find(more, x) == Some(env.len() as int) && more[env.len() as int].1 == v
            } else {
                find(more, x) == find(env, x) && (find(env, x) matches Some(i) ==> more[i] == env[i])
            }
        }),
{
    let more = env.push((y, v));
    assert(more.drop_last() =~= env);
    found_is_bound(env, x);
}

proof fn found_in_zipped(env: Scope, names: Seq<Name>, vs: Seq<Val>, x: Name)
    requires
        names.len() == vs.len(),
    ensures
        ({
            let more = env + zipped(names, vs);
            find(more, x) matches Some(i) ==> 0 <= i < more.len() && if names.contains(x) {
                exists|j: int| 0 <= j < vs.len() && more[i].1 == #[trigger] vs[j]
            } else {
                find(env, x) == Some(i) && more[i] == env[i]
            }
        }),
    decreases names.len(),
{
    let more = env + zipped(names, vs);
    if names.len() == 0 {
        assert(more =~= env);
        found_is_bound(env, x);
    } else {
        let n = names.len() - 1;
        let ns = names.drop_last();
        let ws = vs.drop_last();
        let less = env + zipped(ns, ws);
        assert(more.last() == (names[n], vs[n]));
        assert(more.drop_last() =~= less);
        found_in_zipped(env, ns, ws, x);
        found_is_bound(more, x);
        if names[n] == x {
            assert(more[more.len() - 1].1 == vs[n]);
        } else {
            if names.contains(x) {
                let i = names.index_of(x);
                assert(ns[i] == x);
                if let Some(k) = find(less, x) {
                    assert(ns.contains(x));
                    let j = choose|j: int| 0 <= j < ws.len() && less[k].1 == #[trigger] ws[j];
                    assert(vs[j] == ws[j]);
                    assert(more[k] == less[k]);
                }
            } else {
                if ns.contains(x) {
                    let i = ns.index_of(x);
                    assert(names[i] == x);
                }
                if let Some(k) = find(less, x) {
                    assert(more[k] == less[k]);
                }
            }
        }
    }
}

proof fn text_agrees(q: Machine, hs: Cells, op: Op, vs: Seq<Val>)
    requires
        same_contents(hs, q.heap),
        all_good(q.heap, vs),
        is_direct_op(op),
        complete(op, 0, vs.len()),
    ensures
        ({
            let s = Machine { heap: hs, ..q };
            outcome(on_text(s, op, vs)) matches Some((h2s, v)) ==> (outcome(
                on_text(q, op, vs),
            ) matches Some((h2, w)) && w == v && same_contents(h2s, h2))
        }),
{
    assert forall|place: nat| place < vs.len() implies #[trigger] text_of(hs, op, vs, place)
        == text_of(q.heap, op, vs, place) by {
        assert(good(q.heap, vs[place as int]));
    }
    assert(good(q.heap, vs[0]));
    if op == Op::StrSplit {
        assert forall|ss: Seq<Name>| same_contents(
            #[trigger] with_strings(hs, ss, ss.len()).0,
            with_strings(q.heap, ss, ss.len()).0,
        ) && with_strings(hs, ss, ss.len()).1 == with_strings(q.heap, ss, ss.len()).1 by {
            super::erasure::strings_follow(hs, q.heap, ss, ss.len());
        }
    } else if built(hs, op, vs) is Ok {
        assert(built(q.heap, op, vs) == built(hs, op, vs));
    }
}

proof fn equality_agrees(q: Machine, hs: Cells, a: Val, b: Val)
    requires
        same_contents(hs, q.heap),
        good(q.heap, a),
        good(q.heap, b),
    ensures
        equal(hs, a, b) is Ok ==> equal(q.heap, a, b) == equal(hs, a, b),
{
}

/// An operator gives the same on a heap where more has been freed, if its operands are live.
proof fn applying_agrees(q: Machine, hs: Cells, op: Op, names: Seq<Name>, vs: Seq<Val>)
    requires
        same_contents(hs, q.heap),
        all_good(q.heap, vs),
        is_direct_op(op),
    ensures
        ({
            let s = Machine { heap: hs, ..q };
            outcome(applied(s, op, names, vs)) matches Some((h2s, v)) ==> (outcome(
                applied(q, op, names, vs),
            ) matches Some((h2, w)) && w == v && same_contents(h2s, h2))
        }),
{
    if complete(op, names.len(), vs.len()) {
        if vs.len() > 0 {
            assert(good(q.heap, vs[0]));
        }
        match op {
            Op::Unary(_) => {},
            Op::Binary(_) => {
                assert(good(q.heap, vs[1]));
                equality_agrees(q, hs, vs[0], vs[1]);
            },
            Op::Ctor | Op::ToString => {},
            Op::ArrayPush | Op::ArrayPop | Op::ArraySet | Op::ArrayRemove => {},
            _ => {
                text_agrees(q, hs, op, vs);
            },
        }
    }
}

/// A term that neither adjusts a count nor builds in place keeps its node.
proof fn plain_keeps_node(t: Term)
    requires
        !(t.op is RcAnnotated),
        !ends_scope(t),
        !is_reuse_op(t.op),
    ensures
        plain(t).op == t.op,
        plain(t).names == t.names,
        plain(t).kids.len() == t.kids.len(),
        plain(t).arms.len() == t.arms.len(),
        forall|i: int| 0 <= i < t.kids.len() ==> #[trigger] plain(t).kids[i] == plain(t.kids[i]),
        forall|k: int| 0 <= k < t.arms.len() ==> #[trigger] plain(t).arms[k] == plain_arm(
            t.arms[k],
        ),
        shaped(plain(t)) == shaped(t),
{
}

/// Releasing the one reference to a cell that nothing refers to.
proof fn releasing_is_safe(q: Machine, hs: Cells, h: Cells, a: usize, v: Val, b: nat)
    requires
        ends_well(q, hs, h, v, b),
        live(h, a as int),
        q.heap.len() <= a,
        no_field(h, a),
    ensures
        ({
            let h2 = with_dec(h, a);
            &&& sound(h2)
            &&& same_contents(hs, h2)
            &&& counts_upto(h2, b)
            &&& goes_on(q.heap, h2)
            &&& v != Val::HeapRef(a) ==> good(h2, v)
            &&& h2.len() == h.len()
            &&& forall|w: Val| w != Val::HeapRef(a) && #[trigger] good(h, w) ==> good(h2, w)
        }),
{
    let h2 = with_dec(h, a);
    assert forall|w: Val| w != Val::HeapRef(a) && #[trigger] good(h, w) implies good(h2, w) by {}
    assert forall|i: int| live(h2, i) implies ((#[trigger] h2[i])->0.contents matches Contents::Ctor(
        _,
        fields,
    ) ==> all_good(h2, fields)) by {
        assert(live(h, i));
        assert(h2[i]->0.contents == h[i]->0.contents);
        if let Contents::Ctor(_, fields) = h[i]->0.contents {
            assert(all_good(h, fields) && absent(fields, a));
            assert forall|j: int| 0 <= j < fields.len() implies good(h2, #[trigger] fields[j]) by {
                assert(good(h, fields[j]));
            }
        }
    }
}

/// Whether the source of a term evaluates to a value on a heap, within bounds.
pub(crate) open spec fn source_gives(q: Machine, hs: Cells, t: Term) -> bool {
    ev(Machine { heap: hs, ..q }, plain(t)) matches Some((h, _)) && h.len() <= usize::MAX
}

/// What the source of a term evaluates to on a heap.
pub(crate) open spec fn source_result(q: Machine, hs: Cells, t: Term) -> (Cells, Val) {
    ev(Machine { heap: hs, ..q }, plain(t))->0
}

/// Whether a term evaluates to the same as its source, and leaves the memory in order.
pub(crate) open spec fn agrees(q: Machine, hs: Cells, t: Term, b: nat) -> bool {
    let (h2s, v) = source_result(q, hs, t);
    ev(q, t) matches Some((h, w)) && w == v && ends_well(q, h2s, h, v, b)
}

proof fn source_adds(q: Machine, t: Term)
    requires
        direct(t),
        tidy(t),
    ensures
        ev(q, plain(t)) matches Some((h, _)) ==> q.heap.len() <= h.len(),
{
    plain_is_direct(t);
    evaluating_adds(q, plain(t));
}

proof fn plain_is_direct(t: Term)
    requires
        direct(t),
        tidy(t),
    ensures
        direct(plain(t)),
    decreases t,
{
    if t.op is RcAnnotated {
        assert(t.kids[0] == t_var(t.names[0]));
        plain_keeps_node(t.kids[0]);
        assert(direct(t.kids[0]));
    } else if ends_scope(t) {
        if releases_at_once(t) {
            assert(t.kids[1].kids[0] == t_var(t.names[0]));
            assert(looks_up(t.kids[1].kids[0], t.names[0]));
        }
        plain_is_direct(t.kids[0]);
    } else {
        if !is_reuse_op(t.op) {
            plain_keeps_node(t);
        }
        let p = plain(t);
        assert forall|i: int| 0 <= i < t.kids.len() implies direct(#[trigger] p.kids[i]) by {
            assert(direct(t.kids[i]));
            if releases_at_once(t) && i == 1 {
                assert(direct(t.kids[1].kids[0]));
                plain_is_direct(t.kids[1].kids[0]);
            } else if releases_at_the_end(t) && i == 1 {
                let d = t.kids[1];
                assert(ends_scope(d)) by {
                    assert(d.kids[1] == t_rc(RcOp::Dec, t.names[0], t_var(drop_name(t.names[0]))));
                    assert(d.names[0] == drop_name(t.names[0]));
                    assert(d.kids[1].kids[0] == t_var(drop_name(t.names[0])));
                }
                assert(direct(d.kids[0]));
                plain_is_direct(d.kids[0]);
            } else {
                plain_is_direct(t.kids[i]);
            }
        }
        assert forall|k: int| 0 <= k < t.arms.len() implies direct_arm(#[trigger] p.arms[k]) by {
            let arm = t.arms[k];
            arm_decreases(arm);
            assert(direct_arm(arm));
            assert(tidy_arm(arm));
            plain_is_direct(arm.body);
            if let Some(g) = arm.guard {
                plain_is_direct(g);
            }
        }
    }
}

/// A fresh allocation is referred to by nothing else.
proof fn a_fresh_cell_is_private(q: Machine, hs: Cells, t: Term, b: nat)
    requires
        direct(t),
        tidy(t),
        is_fresh_op(t.op),
        in_order(q, hs, b),
        names_good(q, t),
        b >= 1,
        b + weight(t) < usize::MAX,
        source_gives(q, hs, t),
        agrees(q, hs, t, b + weight(t)),
    ensures
        ({
            let (h, v) = ev(q, t)->0;
            &&& h.len() > q.heap.len()
            &&& h.len() <= usize::MAX
            &&& v == Val::HeapRef((h.len() - 1) as usize)
            &&& no_field(h, (h.len() - 1) as usize)
        }),
    decreases t, t.kids.len() + t.arms.len() + 1, 0nat,
{
    let (h, v) = ev(q, t)->0;
    if t.op == Op::Str {
        let own = (h.len() - 1) as usize;
        assert forall|i: int| live(h, i) implies ((#[trigger] h[i])->0.contents matches Contents::Ctor(
            _,
            fields,
        ) ==> absent(fields, own)) by {
            if i < q.heap.len() {
                assert(live(q.heap, i));
                assert(h[i] == q.heap[i]);
                if let Contents::Ctor(_, fields) = h[i]->0.contents {
                    assert forall|j: int| 0 <= j < fields.len() implies #[trigger] fields[j]
                        != Val::HeapRef(own) by {
                        assert(good(q.heap, fields[j]));
                    }
                }
            }
        }
    } else {
        plain_keeps_node(t);
        let s = Machine { heap: hs, ..q };
        let p = plain(t);
        let (h0s, ws) = ev_kids(s, p, t.kids.len())->0;
        plain_is_direct(t);
        applying_behaves(Machine { heap: h0s, ..s }, t.op, t.names, ws);
        kids_agree(q, hs, t, t.kids.len(), b);
        let (h0, vs) = ev_kids(q, t, t.kids.len())->0;
        let now = Machine { heap: h0, ..q };
        applying_behaves(now, t.op, t.names, vs);
    }
}

/// Binding a value.
proof fn binding_in_order(q: Machine, hs: Cells, y: Name, v: Val, b: nat)
    requires
        in_order(q, hs, b),
        in_range(q.heap, v),
    ensures
        in_order(Machine { env: q.env.push((y, v)), ..q }, hs, b),
{
    let inner = Machine { env: q.env.push((y, v)), ..q };
    assert forall|i: int| 0 <= i < inner.env.len() implies in_range(
        inner.heap,
        (#[trigger] inner.env[i]).1,
    ) by {
        if i < q.env.len() {
            assert(inner.env[i] == q.env[i]);
        }
    }
}

/// A binding whose cell is released at once.
proof fn releasing_at_once_agrees(q: Machine, hs: Cells, t: Term, b: nat)
    requires
        direct(t),
        tidy(t),
        releases_at_once(t),
        in_order(q, hs, b),
        names_good(q, t),
        b >= 1,
        b + weight(t) < usize::MAX,
        source_gives(q, hs, t),
    ensures
        agrees(q, hs, t, b + weight(t)),
    decreases t, t.kids.len() + t.arms.len(), 0nat,
{
    let n = t.names[0];
    let k0 = t.kids[0];
    let k1 = t.kids[1];
    let rest = k1.kids[0];
    let s = Machine { heap: hs, ..q };
    assert(!ends_scope(t)) by {
        if ends_scope(t) {
            assert(rest == t_var(n));
            assert(looks_up(rest, n));
        }
    }
    plain_keeps_node(t);
    assert(plain(t).kids[0] == plain(k0));
    assert(plain(t).kids[1] == plain(k1) && plain(k1) == plain(rest));
    assert(direct(t.kids[0]));
    assert(direct(t.kids[1]));
    assert(direct(k1.kids[0]));
    two_kids_weigh(t);
    assert(weight_kids(k1, 1) == weight_kids(k1, 0) + weight(rest));
    assert(weight(k1) >= weight(rest));
    let (h1s, v1) = ev(s, plain(k0))->0;
    let inner_s = Machine { heap: h1s, env: s.env.push((n, v1)), ..s };
    source_adds(inner_s, rest);
    a_kid_looks_up(t, 0);
    names_go_on(q, q.heap, t, k0);
    assert(Machine { heap: q.heap, ..q } == q);
    counted_agrees(q, hs, k0, b);
    a_fresh_cell_is_private(q, hs, k0, b);
    let (h1, w) = ev(q, k0)->0;
    let a = (h1.len() - 1) as usize;
    let b1 = b + weight(k0);
    let now = Machine { heap: h1, ..q };
    order_goes_on(q, hs, h1, b, b1);
    binding_in_order(now, h1s, n, v1, b1);
    let inner = Machine { env: q.env.push((n, v1)), ..now };
    releasing_is_safe(q, h1s, h1, a, v1, b1);
    let h2 = with_dec(h1, a);
    found_in_longer(q.env, n, v1, n);
    assert(lookup(inner, n) == Ok::<Val, super::error::Fault>(v1));
    let after = Machine { heap: h2, ..inner };
    assert(adjusted(inner, RcOp::Dec, n, rest) == after.evaluate(rest));
    assert(in_order(after, h1s, b1)) by {
        assert forall|i: int| 0 <= i < after.globals.len() implies good(
            h2,
            (#[trigger] after.globals[i]).1,
        ) by {
            assert(good(q.heap, q.globals[i].1));
        }
    }
    assert forall|x: Name| #[trigger] looks_up(rest, x) implies (find(after.env, x) matches Some(i)
        ==> good(h2, after.env[i].1)) by {
        assert(x != n);
        found_in_longer(q.env, n, v1, x);
        assert(looks_up(k1, x)) by {
            assert(in_scope(k1, 0, x) && looks_up(k1.kids[0], x));
        }
        assert(looks_up(t, x)) by {
            assert(in_scope(t, 1, x) && looks_up(t.kids[1], x));
        }
        found_is_bound(q.env, x);
        if let Some(i) = find(q.env, x) {
            assert(good(q.heap, q.env[i].1));
            assert(in_range(q.heap, q.env[i].1));
        }
    }
    assert(names_good(after, rest));
    assert(Machine { heap: h1s, ..after } == inner_s);
    counted_agrees(after, h1s, rest, b1);
    let (h3, v) = ev(after, rest)->0;
    assert(ev(inner, k1) == ev(after, rest));
    assert(ev(q, t) == ev(inner, k1));
    assert(counts_upto(h3, b + weight(t)));
}

/// A binding whose cell is released at the end of its scope.
proof fn releasing_at_the_end_agrees(q: Machine, hs: Cells, t: Term, b: nat)
    requires
        direct(t),
        tidy(t),
        !releases_at_once(t),
        releases_at_the_end(t),
        in_order(q, hs, b),
        names_good(q, t),
        b >= 1,
        b + weight(t) < usize::MAX,
        source_gives(q, hs, t),
    ensures
        agrees(q, hs, t, b + weight(t)),
    decreases t, t.kids.len() + t.arms.len(), 0nat,
{
    let n = t.names[0];
    let k0 = t.kids[0];
    let d = t.kids[1];
    let body = d.kids[0];
    let temp = drop_name(n);
    let rc = d.kids[1];
    let last = t_var(temp);
    let s = Machine { heap: hs, ..q };
    crate::fbip::balance::drop_name_is_another(n);
    assert(rc == t_rc(RcOp::Dec, n, last) && d.names[0] == temp && rc.kids[0] == last);
    assert(d.op == Op::Let);
    assert(ends_scope(d));
    assert(!ends_scope(t));
    plain_keeps_node(t);
    assert(plain(t).kids[0] == plain(k0));
    assert(plain(t).kids[1] == plain(d) && plain(d) == plain(body));
    assert(direct(t.kids[0]));
    assert(direct(t.kids[1]));
    assert(direct(d.kids[0]));
    two_kids_weigh(t);
    two_kids_weigh(d);
    assert(weight(d) >= weight(body));
    let (h1s, v1) = ev(s, plain(k0))->0;
    let inner_s = Machine { heap: h1s, env: s.env.push((n, v1)), ..s };
    source_adds(inner_s, body);
    a_kid_looks_up(t, 0);
    names_go_on(q, q.heap, t, k0);
    assert(Machine { heap: q.heap, ..q } == q);
    counted_agrees(q, hs, k0, b);
    a_fresh_cell_is_private(q, hs, k0, b);
    let (h1, w) = ev(q, k0)->0;
    let a = (h1.len() - 1) as usize;
    let b1 = b + weight(k0);
    let now = Machine { heap: h1, ..q };
    order_goes_on(q, hs, h1, b, b1);
    binding_in_order(now, h1s, n, v1, b1);
    let inner = Machine { env: q.env.push((n, v1)), ..now };
    assert forall|x: Name| #[trigger] looks_up(body, x) implies (find(inner.env, x) matches Some(i)
        ==> good(h1, inner.env[i].1)) by {
        found_in_longer(q.env, n, v1, x);
        if x != n {
            assert(looks_up(d, x)) by {
                assert(in_scope(d, 0, x) && looks_up(d.kids[0], x));
            }
            assert(looks_up(t, x)) by {
                assert(in_scope(t, 1, x) && looks_up(t.kids[1], x));
            }
            if let Some(i) = find(q.env, x) {
                assert(good(q.heap, q.env[i].1));
            }
        }
    }
    assert(names_good(inner, body));
    assert(Machine { heap: h1s, ..inner } == inner_s);
    let b2 = b1 + weight(body);
    counted_agrees(inner, h1s, body, b1);
    let (h2s, v) = source_result(inner, h1s, body);
    let (h2, _) = ev(inner, body)->0;
    assert(no_global(inner.globals, a)) by {
        assert forall|i: int| 0 <= i < inner.globals.len() implies (#[trigger] inner.globals[i]).1
            != Val::HeapRef(a) by {
            assert(good(q.heap, q.globals[i].1));
        }
    }
    assert forall|x: Name| #[trigger] bound_to(inner.env, x, a) implies borrowed(body, x) by {
        found_in_longer(q.env, n, v1, x);
        found_is_bound(q.env, x);
        if x != n {
            let i = find(q.env, x)->0;
            assert(in_range(q.heap, q.env[i].1));
        }
    }
    nothing_leaks(inner, body, a);
    assert(ends_well(q, h2s, h2, v, b2)) by {
        assert(goes_on(q.heap, h2));
    }
    releasing_is_safe(q, h2s, h2, a, v, b2);
    let h3 = with_dec(h2, a);
    let e2 = inner.env.push((temp, v));
    let held = Machine { heap: h2, env: e2, ..inner };
    found_in_longer(q.env, n, v1, n);
    found_in_longer(inner.env, temp, v, n);
    found_in_longer(inner.env, temp, v, temp);
    assert(lookup(held, n) == Ok::<Val, super::error::Fault>(v1));
    let freed = Machine { heap: h3, ..held };
    assert(adjusted(held, RcOp::Dec, n, last) == freed.evaluate(last));
    assert(lookup(freed, temp) == Ok::<Val, super::error::Fault>(v));
    assert(ev(freed, last) == Some((h3, v)));
    assert(ev(held, rc) == Some((h3, v)));
    assert(ev(inner, d) == Some((h3, v)));
    assert(ev(q, t) == Some((h3, v)));
    assert(counts_upto(h3, b + weight(t)));
}

/// Any other binding.
proof fn binding_agrees(q: Machine, hs: Cells, t: Term, b: nat)
    requires
        direct(t),
        tidy(t),
        t.op == Op::Let,
        !releases_at_once(t),
        !releases_at_the_end(t),
        in_order(q, hs, b),
        names_good(q, t),
        b >= 1,
        b + weight(t) < usize::MAX,
        source_gives(q, hs, t),
    ensures
        agrees(q, hs, t, b + weight(t)),
    decreases t, t.kids.len() + t.arms.len(), 0nat,
{
    let n = t.names[0];
    let k0 = t.kids[0];
    let k1 = t.kids[1];
    let s = Machine { heap: hs, ..q };
    assert(direct(k0) && direct(k1) && tidy(k0) && tidy(k1));
    two_kids_weigh(t);
    a_kid_looks_up(t, 0);
    names_go_on(q, q.heap, t, k0);
    assert(Machine { heap: q.heap, ..q } == q);
    let b1 = b + weight(k0);
    if ends_scope(t) {
        assert(plain(t) == plain(k0));
        assert(k1 == t_rc(RcOp::Inc, k1.names[0], t_var(k1.names[0])));
        assert(k1.kids[0] == t_var(k1.names[0]));
        assert(k1.kids[0] == t_var(n));
        assert(t_var(n).names[0] == n && t_var(k1.names[0]).names[0] == k1.names[0]);
        counted_agrees(q, hs, k0, b);
        let (h1, v) = ev(q, k0)->0;
        let inner = Machine { heap: h1, env: q.env.push((n, v)), ..q };
        found_in_longer(q.env, n, v, n);
        assert(lookup(inner, n) == Ok::<Val, super::error::Fault>(v));
        let r = adjusted(inner, RcOp::Inc, n, k1.kids[0]);
        assert(weight(k1) >= 1);
        assert(r.control is Eval) by {
            if let Val::HeapRef(a) = v {
                assert(live(h1, a as int));
                assert(h1[a as int]->0.refcount <= b1);
            }
        }
        let after = Machine { heap: r.heap, ..inner };
        assert(lookup(after, n) == Ok::<Val, super::error::Fault>(v));
        assert(ev(after, k1.kids[0]) == Some((r.heap, v)));
        assert(ev(inner, k1) == Some((r.heap, v)));
        assert(ev(q, t) == Some((r.heap, v)));
        incrementing_is_safe(q, (source_result(q, hs, k0)).0, h1, v, b1, r.heap);
        assert(counts_upto(r.heap, b + weight(t)));
    } else {
        plain_keeps_node(t);
        assert(plain(t).kids[0] == plain(k0) && plain(t).kids[1] == plain(k1));
        let (h1s, v1) = ev(s, plain(k0))->0;
        let inner_s = Machine { heap: h1s, env: s.env.push((n, v1)), ..s };
        source_adds(inner_s, k1);
        counted_agrees(q, hs, k0, b);
        let (h1, _) = ev(q, k0)->0;
        let now = Machine { heap: h1, ..q };
        order_goes_on(q, hs, h1, b, b1);
        binding_in_order(now, h1s, n, v1, b1);
        let inner = Machine { env: q.env.push((n, v1)), ..now };
        assert forall|x: Name| #[trigger] looks_up(k1, x) implies (find(inner.env, x) matches Some(
            i,
        ) ==> good(h1, inner.env[i].1)) by {
            found_in_longer(q.env, n, v1, x);
            if x != n {
                assert(looks_up(t, x)) by {
                    assert(in_scope(t, 1, x) && looks_up(t.kids[1], x));
                }
                if let Some(i) = find(q.env, x) {
                    assert(good(q.heap, q.env[i].1));
                }
            }
        }
        assert(names_good(inner, k1));
        assert(Machine { heap: h1s, ..inner } == inner_s);
        counted_agrees(inner, h1s, k1, b1);
        assert(ev(q, t) == ev(inner, k1));
    }
}

/// Counting one more reference to what a variable holds.
proof fn incrementing_is_safe(q: Machine, hs: Cells, h: Cells, v: Val, b: nat, h2: Cells)
    requires
        ends_well(q, hs, h, v, b),
        h2 == h || (v matches Val::HeapRef(a) && live(h, a as int) && h2 == with_inc(h, a)),
    ensures
        ends_well(q, hs, h2, v, b + 1),
{
    assert forall|i: int| live(h2, i) implies ((#[trigger] h2[i])->0.contents matches Contents::Ctor(
        _,
        fields,
    ) ==> all_good(h2, fields)) by {
        assert(live(h, i));
        assert(h2[i]->0.contents == h[i]->0.contents);
        if let Contents::Ctor(_, fields) = h[i]->0.contents {
            assert(all_good(h, fields));
            assert forall|j: int| 0 <= j < fields.len() implies good(h2, #[trigger] fields[j]) by {
                assert(good(h, fields[j]));
            }
        }
    }
}

/// A counted term evaluates to what its source evaluates to.
#[verifier::rlimit(40)]
#[verifier::spinoff_prover]
pub(crate) proof fn counted_agrees(q: Machine, hs: Cells, t: Term, b: nat)
    requires
        direct(t),
        tidy(t),
        in_order(q, hs, b),
        names_good(q, t),
        b >= 1,
        b + weight(t) < usize::MAX,
        source_gives(q, hs, t),
    ensures
        agrees(q, hs, t, b + weight(t)),
    decreases t, t.kids.len() + t.arms.len() + 1, 1nat,
{
    let s = Machine { heap: hs, ..q };
    if releases_at_once(t) {
        releasing_at_once_agrees(q, hs, t, b);
    } else if releases_at_the_end(t) {
        releasing_at_the_end_agrees(q, hs, t, b);
    } else if t.op == Op::Let {
        binding_agrees(q, hs, t, b);
    } else if t.op is RcAnnotated {
        let x = t.names[0];
        let kid = t.kids[0];
        assert(kid == t_var(x));
        plain_keeps_node(kid);
        assert(plain(t) == plain(kid));
        let v = source_result(q, hs, t).1;
        assert(lookup(q, x) == Ok::<Val, super::error::Fault>(v));
        assert(looks_up(t, x));
        found_is_bound(q.env, x);
        found_is_bound(q.globals, x);
        assert(good(q.heap, v)) by {
            if find(q.env, x) is None {
                if let Some(i) = find(q.globals, x) {
                    assert(good(q.heap, q.globals[i].1));
                }
            }
        }
        let r = adjusted(q, RcOp::Inc, x, kid);
        assert(weight(t) >= 1);
        assert(r.control is Eval) by {
            if let Val::HeapRef(a) = v {
                assert(q.heap[a as int]->0.refcount <= b);
            }
        }
        let after = Machine { heap: r.heap, ..q };
        assert(lookup(after, x) == lookup(q, x));
        assert(ev(after, kid) == Some((r.heap, v)));
        assert(ev(q, t) == Some((r.heap, v)));
        assert(ends_well(q, hs, q.heap, v, b));
        incrementing_is_safe(q, hs, q.heap, v, b, r.heap);
    } else {
        plain_keeps_node(t);
        let p = plain(t);
        assert(Machine { heap: q.heap, ..q } == q);
        match t.op {
            Op::Str => {
                a_new_cell_behaves(q, t.op, Seq::empty(), Contents::Str(t.names[0]));
            },
            Op::If => {
                assert(p.kids[0] == plain(t.kids[0]) && p.kids[1] == plain(t.kids[1]) && p.kids[2]
                    == plain(t.kids[2]));
                three_kids_weigh(t);
                let (h1s, v1) = ev(s, plain(t.kids[0]))->0;
                let now_s = Machine { heap: h1s, ..s };
                let kid = if v1 == Val::Bool(true) {
                    t.kids[1]
                } else {
                    t.kids[2]
                };
                assert(direct(t.kids[0]) && direct(kid) && tidy(t.kids[0]) && tidy(kid));
                source_adds(now_s, kid);
                a_kid_looks_up(t, 0);
                a_kid_looks_up(t, 1);
                a_kid_looks_up(t, 2);
                names_go_on(q, q.heap, t, t.kids[0]);
                counted_agrees(q, hs, t.kids[0], b);
                let b1 = b + weight(t.kids[0]);
                let (h1, _) = ev(q, t.kids[0])->0;
                let now = Machine { heap: h1, ..q };
                order_goes_on(q, hs, h1, b, b1);
                names_go_on(q, h1, t, kid);
                assert(Machine { heap: h1s, ..now } == now_s);
                counted_agrees(now, h1s, kid, b1);
            },
            Op::Binary(BinOp::And) => {
                either_agrees(q, hs, t, true, b);
            },
            Op::Binary(BinOp::Or) => {
                either_agrees(q, hs, t, false, b);
            },
            Op::Match => {
                assert(p.kids[0] == plain(t.kids[0]));
                assert(weight_kids(t, 1) == weight_kids(t, 0) + weight(t.kids[0]));
                let (h1s, v1) = ev(s, plain(t.kids[0]))->0;
                let now_s = Machine { heap: h1s, ..s };
                let addr = v1->HeapRef_0;
                let (tag, fields) = ctor_at(h1s, addr)->Ok_0;
                assert(direct(t.kids[0]) && tidy(t.kids[0]));
                plain_is_direct(t);
                arms_add(now_s, p, 0, tag, fields);
                a_kid_looks_up(t, 0);
                names_go_on(q, q.heap, t, t.kids[0]);
                counted_agrees(q, hs, t.kids[0], b);
                let b1 = b + weight(t.kids[0]);
                let (h1, _) = ev(q, t.kids[0])->0;
                let now = Machine { heap: h1, ..q };
                order_goes_on(q, hs, h1, b, b1);
                names_go_on(q, h1, t, t);
                assert(live(h1, addr as int));
                assert(ctor_at(h1, addr) == ctor_at(h1s, addr));
                assert(all_good(h1, fields));
                assert(Machine { heap: h1s, ..now } == now_s);
                arms_agree(now, h1s, t, 0, tag, fields, b1);
            },
            _ => {
                if is_atom_op(t.op) {
                    if t.op == Op::Var {
                        let x = t.names[0];
                        assert(looks_up(t, x));
                        found_is_bound(q.env, x);
                        found_is_bound(q.globals, x);
                        assert(lookup(s, x) == lookup(q, x));
                        if find(q.env, x) is None {
                            if let Some(i) = find(q.globals, x) {
                                assert(good(q.heap, q.globals[i].1));
                            }
                        }
                    }
                } else {
                    let (h1s, vs) = ev_kids(s, p, t.kids.len())->0;
                    let now_s = Machine { heap: h1s, ..s };
                    plain_is_direct(t);
                    applying_behaves(now_s, t.op, t.names, vs);
                    kids_agree(q, hs, t, t.kids.len(), b);
                    let (h1, _) = ev_kids(q, t, t.kids.len())->0;
                    let now = Machine { heap: h1, ..q };
                    assert(Machine { heap: h1s, ..now } == now_s);
                    applying_agrees(now, h1s, t.op, t.names, vs);
                    applying_behaves(now, t.op, t.names, vs);
                    let (h2, v) = ev(q, t)->0;
                    assert(counts_upto(h2, b + weight(t))) by {
                        assert forall|i: int| live(h2, i) implies 1 <= (
                        #[trigger] h2[i])->0.refcount <= b + weight(t) by {
                            if i < h1.len() {
                                assert(h2[i] == h1[i]);
                                assert(live(h1, i));
                            }
                        }
                    }
                    assert(goes_on(q.heap, h2)) by {
                        assert forall|i: int| live(q.heap, i) implies live(h2, i) by {
                            assert(live(h1, i));
                            assert(h2[i] == h1[i]);
                        }
                    }
                }
            },
        }
    }
}

proof fn either_agrees(q: Machine, hs: Cells, t: Term, and: bool, b: nat)
    requires
        direct(t),
        tidy(t),
        t.op == Op::Binary(if and { BinOp::And } else { BinOp::Or }),
        in_order(q, hs, b),
        names_good(q, t),
        b >= 1,
        b + weight(t) < usize::MAX,
        source_gives(q, hs, t),
    ensures
        agrees(q, hs, t, b + weight(t)),
    decreases t, 1nat, 0nat,
{
    let s = Machine { heap: hs, ..q };
    let p = plain(t);
    plain_keeps_node(t);
    assert(ev(s, p) == ev_either(s, p, and));
    assert(ev(q, t) == ev_either(q, t, and));
    assert(p.kids[0] == plain(t.kids[0]) && p.kids[1] == plain(t.kids[1]));
    assert(Machine { heap: q.heap, ..q } == q);
    two_kids_weigh(t);
    let (h1s, v1) = ev(s, plain(t.kids[0]))->0;
    let now_s = Machine { heap: h1s, ..s };
    assert(direct(t.kids[0]) && direct(t.kids[1]) && tidy(t.kids[0]) && tidy(t.kids[1]));
    source_adds(now_s, t.kids[1]);
    a_kid_looks_up(t, 0);
    a_kid_looks_up(t, 1);
    names_go_on(q, q.heap, t, t.kids[0]);
    counted_agrees(q, hs, t.kids[0], b);
    let b1 = b + weight(t.kids[0]);
    let (h1, _) = ev(q, t.kids[0])->0;
    let now = Machine { heap: h1, ..q };
    order_goes_on(q, hs, h1, b, b1);
    names_go_on(q, h1, t, t.kids[1]);
    assert(Machine { heap: h1s, ..now } == now_s);
    if v1 == Val::Bool(and) {
        counted_agrees(now, h1s, t.kids[1], b1);
    }
}

proof fn kids_agree(q: Machine, hs: Cells, t: Term, n: nat, b: nat)
    requires
        direct(t),
        tidy(t),
        t.op != Op::Let,
        t.op != Op::For,
        !(t.op is RcAnnotated),
        n <= t.kids.len(),
        in_order(q, hs, b),
        names_good(q, t),
        b >= 1,
        b + weight_kids(t, n) < usize::MAX,
        ev_kids(Machine { heap: hs, ..q }, plain(t), n) matches Some((h, _)) && h.len()
            <= usize::MAX,
    ensures
        ({
            let (h2s, vs) = ev_kids(Machine { heap: hs, ..q }, plain(t), n)->0;
            ev_kids(q, t, n) matches Some((h, ws)) && ws == vs && ends_well(
                q,
                h2s,
                h,
                Val::Unit,
                b + weight_kids(t, n),
            ) && all_good(h, vs)
        }),
    decreases t, n, 0nat,
{
    let s = Machine { heap: hs, ..q };
    let p = plain(t);
    plain_keeps_node(t);
    assert(Machine { heap: q.heap, ..q } == q);
    if n > 0 {
        let m = (n - 1) as nat;
        let kid = t.kids[n - 1];
        let (h1s, vs) = ev_kids(s, p, m)->0;
        let now_s = Machine { heap: h1s, ..s };
        assert(p.kids[n - 1] == plain(kid));
        assert(direct(kid) && tidy(kid));
        source_adds(now_s, kid);
        kids_agree(q, hs, t, m, b);
        let b1 = b + weight_kids(t, m);
        let (h1, _) = ev_kids(q, t, m)->0;
        let now = Machine { heap: h1, ..q };
        order_goes_on(q, hs, h1, b, b1);
        a_kid_looks_up(t, n - 1);
        names_go_on(q, h1, t, kid);
        assert(Machine { heap: h1s, ..now } == now_s);
        counted_agrees(now, h1s, kid, b1);
        let (h2, v) = ev(now, kid)->0;
        assert forall|j: int| 0 <= j < vs.push(v).len() implies good(
            h2,
            #[trigger] vs.push(v)[j],
        ) by {
            if j < vs.len() {
                assert(good(h1, vs[j]));
            }
        }
    }
}

proof fn arms_agree(q: Machine, hs: Cells, t: Term, k: nat, tag: Name, fields: Seq<Val>, b: nat)
    requires
        direct(t),
        tidy(t),
        t.op == Op::Match,
        in_order(q, hs, b),
        names_good(q, t),
        all_good(q.heap, fields),
        b >= 1,
        b + weight_arms(t, k) < usize::MAX,
        ev_arms(Machine { heap: hs, ..q }, plain(t), k, tag, fields) matches Some((h, _))
            && h.len() <= usize::MAX,
    ensures
        ({
            let (h2s, v) = ev_arms(Machine { heap: hs, ..q }, plain(t), k, tag, fields)->0;
            ev_arms(q, t, k, tag, fields) matches Some((h, w)) && w == v && ends_well(
                q,
                h2s,
                h,
                v,
                b + weight_arms(t, k),
            )
        }),
    decreases t, t.arms.len() - k, 0nat,
{
    let s = Machine { heap: hs, ..q };
    let p = plain(t);
    plain_keeps_node(t);
    assert(k < t.arms.len());
    let arm = t.arms[k as int];
    let parm = p.arms[k as int];
    arm_decreases(arm);
    assert(parm == plain_arm(arm));
    assert(direct_arm(arm) && tidy_arm(arm));
    assert(Machine { heap: q.heap, ..q } == q);
    if arm.tag != tag {
        arms_agree(q, hs, t, k + 1, tag, fields, b);
    } else {
        let more = zipped(arm.bindings, fields);
        let inner = Machine { env: q.env + more, ..q };
        let inner_s = Machine { env: s.env + more, ..s };
        assert(in_order(inner, hs, b)) by {
            assert forall|i: int| 0 <= i < inner.env.len() implies in_range(
                inner.heap,
                (#[trigger] inner.env[i]).1,
            ) by {
                if i < q.env.len() {
                    assert(inner.env[i] == q.env[i]);
                } else {
                    assert(good(q.heap, fields[i - q.env.len()]));
                }
            }
        }
        assert forall|x: Name| #[trigger] looks_up(arm.body, x) implies (find(
            inner.env,
            x,
        ) matches Some(i) ==> good(q.heap, inner.env[i].1)) by {
            arm_names_are_good(q, t, k as int, fields, x);
        }
        assert(names_good(inner, arm.body));
        match arm.guard {
            None => {
                assert(Machine { heap: hs, ..inner } == inner_s);
                counted_agrees(inner, hs, arm.body, b);
            },
            Some(g) => {
                assert forall|x: Name| #[trigger] looks_up(g, x) implies (find(
                    inner.env,
                    x,
                ) matches Some(i) ==> good(q.heap, inner.env[i].1)) by {
                    arm_names_are_good(q, t, k as int, fields, x);
                }
                assert(names_good(inner, g));
                let (h1s, v1) = ev(inner_s, plain(g))->0;
                let now_s = Machine { heap: h1s, ..inner_s };
                let back_s = Machine { heap: h1s, ..s };
                source_adds(now_s, arm.body);
                plain_is_direct(t);
                arms_add(back_s, p, k + 1, tag, fields);
                assert(Machine { heap: hs, ..inner } == inner_s);
                counted_agrees(inner, hs, g, b);
                let b1 = b + weight(g);
                let (h1, _) = ev(inner, g)->0;
                let now = Machine { heap: h1, ..inner };
                let back = Machine { heap: h1, ..q };
                order_goes_on(inner, hs, h1, b, b1);
                order_goes_on(q, hs, h1, b, b1);
                names_go_on(inner, h1, arm.body, arm.body);
                names_go_on(q, h1, t, t);
                assert(Machine { heap: h1s, ..now } == now_s);
                assert(Machine { heap: h1s, ..back } == back_s);
                if v1 == Val::Bool(true) {
                    counted_agrees(now, h1s, arm.body, b1);
                } else {
                    assert forall|j: int| 0 <= j < fields.len() implies good(
                        h1,
                        #[trigger] fields[j],
                    ) by {
                        assert(good(q.heap, fields[j]));
                    }
                    arms_agree(back, h1s, t, k + 1, tag, fields, b1);
                }
            },
        }
    }
}

proof fn arm_names_are_good(q: Machine, t: Term, k: int, fields: Seq<Val>, x: Name)
    requires
        0 <= k < t.arms.len(),
        names_good(q, t),
        all_good(q.heap, fields),
        t.arms[k].bindings.len() == fields.len(),
        looks_up(t.arms[k].body, x) || (t.arms[k].guard matches Some(g) && looks_up(g, x)),
    ensures
        ({
            let env = q.env + zipped(t.arms[k].bindings, fields);
            find(env, x) matches Some(i) ==> good(q.heap, env[i].1)
        }),
{
    let arm = t.arms[k];
    let env = q.env + zipped(arm.bindings, fields);
    found_in_zipped(q.env, arm.bindings, fields, x);
    if let Some(i) = find(env, x) {
        if arm.bindings.contains(x) {
            let j = choose|j: int| 0 <= j < fields.len() && env[i].1 == #[trigger] fields[j];
            assert(good(q.heap, fields[j]));
        } else {
            assert(arm_looks_up(t.arms[k], x));
            assert(looks_up(t, x));
        }
    }
}

} // verus!
