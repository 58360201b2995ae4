//! What a function that takes its parameters apart sees when it is called.

use vstd::prelude::*;
use crate::ast::{LetDef, Param, ParamKind, Pattern};
use crate::interp::context::over;
use crate::interp::direct::{handing_on, one_step};
use crate::interp::error::Fault;
use crate::interp::heap::{ctor_at, Cells, HeapError};
use crate::interp::laws::{found_is_bound, steps_add_up};
use crate::interp::naming::at_rest;
use crate::interp::semantics::{
    chosen, find, find_function, lookup, run, started_call, step, zipped,
};
use crate::interp::state::{ControlTerm, FrameTerm, Machine, Scope};
use crate::interp::value::Val;
use crate::ir::{t_var, ArmTerm, Name, Term};
use crate::names::{decimal, decimal_is_digits};
use super::context::LoweringContext;
use super::error::LowerFault;
use super::expr::lowered;
use super::pattern::{
    below, bindings_at, bindings_of, compound, destructured, made_up_name, nested_before, nests,
    numbered, part, sub_count, sub_decreases, sub_name, t_match_one, tag_of, wrapped, wrapped_at,
};
use super::program::{apart, lowered_function, param_name, param_names, with_params};

verus! {

/// Whether a name is one that a program can hold: names that are made up start with two
/// underscores, and a lone underscore names nothing.
pub open spec fn ordinary(x: Name) -> bool {
    x != "_"@ && !(x.len() >= 2 && x[0] == '_' && x[1] == '_')
}

/// Whether a value has the shape of a pattern, all the way down.
pub open spec fn fits(h: Cells, p: Pattern, ctx: LoweringContext, v: Val) -> bool
    decreases p, sub_count(p, ctx) + 1,
{
    if !compound(p) {
        true
    } else {
        match v {
            Val::HeapRef(a) => match ctor_at(h, a) {
                Ok((tag, fields)) => tag == tag_of(p) && fields.len() == sub_count(p, ctx)
                    && fits_from(h, p, ctx, fields, 0),
                Err(_) => false,
            },
            _ => false,
        }
    }
}

/// Whether values have the shapes of the parts of a pattern from place `i` on.
pub open spec fn fits_from(
    h: Cells,
    p: Pattern,
    ctx: LoweringContext,
    fields: Seq<Val>,
    i: nat,
) -> bool
    decreases p, sub_count(p, ctx) - i,
{
    if i >= sub_count(p, ctx) {
        true
    } else {
        &&& match part(p, ctx, i as int) {
            Some(q) => {
                proof {
                    sub_decreases(p, ctx, i as int);
                }
                fits(h, q, ctx, fields[i as int])
            },
            None => true,
        }
        &&& fits_from(h, p, ctx, fields, i + 1)
    }
}

/// Whether a pattern gives the name `x` to the part `w` of a value.
pub open spec fn takes(
    h: Cells,
    p: Pattern,
    ctx: LoweringContext,
    v: Val,
    x: Name,
    w: Val,
) -> bool
    decreases p, sub_count(p, ctx) + 1,
{
    match p {
        Pattern::Ident(name, _) => name@ == x && w == v,
        _ => compound(p) && match v {
            Val::HeapRef(a) => match ctor_at(h, a) {
                Ok((_, fields)) => takes_from(h, p, ctx, fields, 0, x, w),
                Err(_) => false,
            },
            _ => false,
        },
    }
}

/// Whether one of the parts of a pattern from place `i` on gives the name `x` to a part `w` of
/// the value at its place.
pub open spec fn takes_from(
    h: Cells,
    p: Pattern,
    ctx: LoweringContext,
    fields: Seq<Val>,
    i: nat,
    x: Name,
    w: Val,
) -> bool
    decreases p, sub_count(p, ctx) - i,
{
    if i >= sub_count(p, ctx) {
        false
    } else {
        ||| match part(p, ctx, i as int) {
            Some(q) => {
                proof {
                    sub_decreases(p, ctx, i as int);
                }
                takes(h, q, ctx, fields[i as int], x, w)
            },
            None => false,
        }
        ||| takes_from(h, p, ctx, fields, i + 1, x, w)
    }
}

/// Whether all names in a pattern are ordinary.
pub open spec fn names_ordinary(p: Pattern, ctx: LoweringContext) -> bool
    decreases p, sub_count(p, ctx) + 1,
{
    match p {
        Pattern::Ident(name, _) => ordinary(name@),
        _ => names_ordinary_from(p, ctx, 0),
    }
}

/// Whether all names in the parts of a pattern from place `i` on are ordinary.
pub open spec fn names_ordinary_from(p: Pattern, ctx: LoweringContext, i: nat) -> bool
    decreases p, sub_count(p, ctx) - i,
{
    if i >= sub_count(p, ctx) {
        true
    } else {
        &&& match part(p, ctx, i as int) {
            Some(q) => {
                proof {
                    sub_decreases(p, ctx, i as int);
                }
                names_ordinary(q, ctx)
            },
            None => true,
        }
        &&& names_ordinary_from(p, ctx, i + 1)
    }
}

/// What holds from place `i` on holds at each later place.
proof fn at_place(
    h: Cells,
    p: Pattern,
    ctx: LoweringContext,
    fields: Seq<Val>,
    i: nat,
    k: nat,
)
    requires
        i <= k < sub_count(p, ctx),
    ensures
        fits_from(h, p, ctx, fields, i) ==> (part(p, ctx, k as int) matches Some(q) ==> fits(
            h,
            q,
            ctx,
            fields[k as int],
        )),
        names_ordinary_from(p, ctx, i) ==> (part(p, ctx, k as int) matches Some(q)
            ==> names_ordinary(q, ctx)),
        forall|x: Name, w: Val|
            part(p, ctx, k as int) is Some && #[trigger] takes(
                h,
                part(p, ctx, k as int)->0,
                ctx,
                fields[k as int],
                x,
                w,
            ) ==> takes_from(h, p, ctx, fields, i, x, w),
    decreases k - i,
{
    if i < k {
        at_place(h, p, ctx, fields, i + 1, k);
    }
}

spec fn starts(x: Name, word: Name) -> bool {
    word.len() <= x.len() && x.take(word.len() as int) == word
}

spec fn made_up_word(word: Name) -> bool {
    word.len() >= 2 && word[0] == '_' && word[1] == '_'
}

/// A made-up name is not among those that stand below another one of its level.
proof fn not_below(word: Name, a: nat, b: nat)
    ensures
        !starts(numbered(word, a), below(numbered(word, b))),
{
    let x = numbered(word, a);
    let y = below(numbered(word, b));
    reveal_strlit("_");
    if starts(x, y) {
        let at = word.len() + decimal(b).len();
        assert(y[at as int] == '_');
        assert(x[at as int] == y[at as int]) by {
            assert(x.take(y.len() as int)[at as int] == x[at as int]);
        }
        let i = at - word.len();
        assert(x[at as int] == decimal(a)[i as int]);
        decimal_is_digits(a, i as int);
    }
}

proof fn starts_chain(x: Name, a: Name, b: Name)
    requires
        starts(x, a),
        starts(a, b),
    ensures
        starts(x, b),
{
    assert(x.take(b.len() as int) =~= b) by {
        assert forall|i: int| 0 <= i < b.len() implies x[i] == b[i] by {
            assert(x.take(a.len() as int)[i] == a[i]);
            assert(a.take(b.len() as int)[i] == b[i]);
        }
    }
}

/// What is found in a longer scope.
spec fn value_in(env: Scope, x: Name) -> Option<Val> {
    match find(env, x) {
        Some(i) => Some(env[i].1),
        None => None,
    }
}

proof fn found_last(env: Scope, more: Scope, x: Name)
    ensures
        (forall|i: int| 0 <= i < more.len() ==> (#[trigger] more[i]).0 != x) ==> value_in(
            env + more,
            x,
        ) == value_in(env, x),
        forall|w: Val|
            (exists|i: int| 0 <= i < more.len() && (#[trigger] more[i]).0 == x) && (forall|i: int|
                0 <= i < more.len() && (#[trigger] more[i]).0 == x ==> more[i].1 == w)
                ==> #[trigger] is_value(env + more, x, w),
    decreases more.len(),
{
    let all = env + more;
    if more.len() == 0 {
        assert(all =~= env);
    } else {
        let less = more.drop_last();
        assert(all.last() == more.last());
        assert(all.drop_last() =~= env + less);
        found_last(env, less, x);
        found_is_bound(all, x);
        found_is_bound(env + less, x);
        found_is_bound(env, x);
        assert forall|i: int| 0 <= i < less.len() implies less[i] == more[i] by {}
        if more.last().0 == x {
            assert(more[more.len() - 1].0 == x);
        } else {
            assert forall|w: Val|
                (exists|i: int| 0 <= i < more.len() && (#[trigger] more[i]).0 == x) && (forall|
                    i: int,
                |
                    0 <= i < more.len() && (#[trigger] more[i]).0 == x ==> more[i].1 == w)
                    implies #[trigger] is_value(env + more, x, w) by {
                let i = choose|i: int| 0 <= i < more.len() && (#[trigger] more[i]).0 == x;
                assert(less[i].0 == x);
                assert forall|k: int| 0 <= k < less.len() && (#[trigger] less[k]).0 == x implies less[k].1 == w by {
                    assert(more[k].0 == x);
                }
                assert(is_value(env + less, x, w));
            }
            if forall|i: int| 0 <= i < more.len() ==> (#[trigger] more[i]).0 != x {
                assert forall|i: int| 0 <= i < less.len() implies (#[trigger] less[i]).0 != x by {
                    assert(more[i].0 != x);
                }
            }
        }
    }
}

spec fn is_value(env: Scope, x: Name, w: Val) -> bool {
    value_in(env, x) == Some(w)
}

/// A match with one arm binds the fields and goes on with its body.
proof fn a_match_runs(
    q: Machine,
    under: Seq<FrameTerm>,
    name: Name,
    tag: Name,
    bindings: Seq<Name>,
    inner: Term,
    addr: usize,
    fields: Seq<Val>,
)
    requires
        q == at_rest(q),
        value_in(q.env, name) == Some(Val::HeapRef(addr)),
        ctor_at(q.heap, addr) == Ok::<(Name, Seq<Val>), HeapError>((tag, fields)),
        bindings.len() == fields.len(),
    ensures
        run(over(q, under).evaluate(t_match_one(t_var(name), tag, bindings, inner)), 3) == over(
            Machine { env: q.env + zipped(bindings, fields), ..q },
            under.push(FrameTerm::Unbind { count: fields.len() }),
        ).evaluate(inner),
{
    let t = t_match_one(t_var(name), tag, bindings, inner);
    let m = over(q, under);
    let c = m.evaluate(t);
    let f = FrameTerm::Arms { arms: t.arms };
    let u = FrameTerm::Unbind { count: fields.len() };
    let v = Val::HeapRef(addr);
    assert(c.idle() == m);
    assert(t.kids[0] == t_var(name));
    handing_on(q, under, f, v);
    let c1 = over(q, under.push(f)).evaluate(t_var(name));
    assert(step(c) == c1);
    assert(t_var(name).names[0] == name);
    let c2 = over(q, under.push(f)).give(v);
    assert(c1.idle() == over(q, under.push(f)));
    assert(lookup(c1.idle(), name) == Ok::<Val, Fault>(v));
    assert(step(c1) == c2);
    let inside = Machine { env: q.env + zipped(bindings, fields), ..q };
    handing_on(inside, under, u, v);
    assert(t.arms[0] == ArmTerm { tag, bindings, guard: None, body: inner });
    assert(Machine { env: m.env + zipped(bindings, fields), ..m } == over(inside, under));
    assert(step(c2) == chosen(m, tag, fields, t.arms));
    one_step(c);
    one_step(c1);
    one_step(c2);
    steps_add_up(c, 1, 1);
    steps_add_up(c, 2, 1);
}

/// What a binding made while a pattern is taken apart can be: nothing's, a made-up name's, or
/// that of a name of the pattern with its part.
spec fn entry_ok(
    e: (Name, Val),
    h: Cells,
    p: Pattern,
    ctx: LoweringContext,
    fields: Seq<Val>,
    i: nat,
    word: Name,
) -> bool {
    ||| e.0 == "_"@
    ||| exists|k: int|
        i <= k < sub_count(p, ctx) && starts(e.0, below(#[trigger] sub_name(p, ctx, word, k)))
            && nests(p, ctx, k)
    ||| ordinary(e.0) && takes_from(h, p, ctx, fields, i, e.0, e.1)
}

/// Whether every name that a part of a pattern from place `i` to place `e` gives, with a match
/// of its own, is among the names that are bound.
spec fn names_bound(
    h: Cells,
    p: Pattern,
    ctx: LoweringContext,
    fields: Seq<Val>,
    i: nat,
    e: nat,
    more: Scope,
) -> bool {
    forall|k: int, x: Name, w: Val|
        i <= k < e && nests(p, ctx, k) && #[trigger] takes(
            h,
            part(p, ctx, k)->0,
            ctx,
            fields[k],
            x,
            w,
        ) ==> exists|j: int| 0 <= j < more.len() && (#[trigger] more[j]).0 == x
}

spec fn entries_ok(
    more: Scope,
    h: Cells,
    p: Pattern,
    ctx: LoweringContext,
    fields: Seq<Val>,
    i: nat,
    word: Name,
) -> bool {
    forall|j: int|
        0 <= j < more.len() ==> entry_ok(#[trigger] more[j], h, p, ctx, fields, i, word)
}

/// Whether the made-up names of a level from place `i` on are found.
spec fn level_found(
    env: Scope,
    p: Pattern,
    ctx: LoweringContext,
    word: Name,
    i: nat,
    fields: Seq<Val>,
) -> bool {
    forall|k: int|
        i <= k < sub_count(p, ctx) && nests(p, ctx, k) ==> value_in(
            env,
            #[trigger] sub_name(p, ctx, word, k),
        ) == Some(fields[k])
}

/// Taking apart the part at place `i`, which has a match of its own.
#[verifier::rlimit(40)]
#[verifier::spinoff_prover]
proof fn a_nested_part_is_bound(
    q: Machine,
    under: Seq<FrameTerm>,
    p: Pattern,
    ctx: LoweringContext,
    word: Name,
    i: nat,
    rest: Term,
    fields: Seq<Val>,
) -> (r: (nat, Scope, Seq<FrameTerm>))
    requires
        q == at_rest(q),
        i < sub_count(p, ctx),
        fields.len() == sub_count(p, ctx),
        nests(p, ctx, i as int),
        wrapped_at(part(p, ctx, i as int)->0, ctx, below(sub_name(p, ctx, word, i as int)), 0, rest) is Ok,
        made_up_word(word),
        fits(q.heap, part(p, ctx, i as int)->0, ctx, fields[i as int]),
        names_ordinary_from(p, ctx, i),
        level_found(q.env, p, ctx, word, i, fields),
    ensures
        ({
            let (n, within, frames) = r;
            let sub = part(p, ctx, i as int)->0;
            let name = sub_name(p, ctx, word, i as int);
            let inner = wrapped_at(sub, ctx, below(name), 0, rest)->Ok_0;
            let t = t_match_one(t_var(name), tag_of(sub), bindings_at(sub, ctx, below(name)), inner);
            &&& run(over(q, under).evaluate(t), n) == over(
                Machine { env: q.env + within, ..q },
                under + frames,
            ).evaluate(rest)
            &&& entries_ok(within, q.heap, p, ctx, fields, i, word)
            &&& level_found(q.env + within, p, ctx, word, i + 1, fields)
            &&& names_bound(q.heap, p, ctx, fields, i, i + 1, within)
        }),
    decreases p, sub_count(p, ctx) - i, 0nat,
{
    let h = q.heap;
    let sub = part(p, ctx, i as int)->0;
    sub_decreases(p, ctx, i as int);
    let name = sub_name(p, ctx, word, i as int);
    let deeper = below(name);
    let v = fields[i as int];
    assert(value_in(q.env, name) == Some(v));
    let addr = v->HeapRef_0;
    let (tag, parts) = ctor_at(h, addr)->Ok_0;
    let bindings = bindings_at(sub, ctx, deeper);
    let inner = wrapped_at(sub, ctx, deeper, 0, rest)->Ok_0;
    let t = t_match_one(t_var(name), tag_of(sub), bindings, inner);
    a_match_runs(q, under, name, tag, bindings, inner, addr, parts);
    let u = FrameTerm::Unbind { count: parts.len() };
    let first = zipped(bindings, parts);
    let q1 = Machine { env: q.env + first, ..q };
    assert(made_up_word(deeper));
    at_place(h, p, ctx, fields, i, i);
    assert(names_ordinary(sub, ctx));
    assert(names_ordinary_from(sub, ctx, 0));
    level_is_found(q.env, sub, ctx, deeper, parts);
    let (n1, more1, frames1) = nested_parts_are_bound(
        q1,
        under.push(u),
        sub,
        ctx,
        deeper,
        0,
        rest,
        parts,
    );
    let within = first + more1;
    assert(q1.env + more1 =~= q.env + within);
    let frames = Seq::<FrameTerm>::empty().push(u) + frames1;
    assert(under.push(u) + frames1 =~= under + frames);
    within_is_ok(h, p, ctx, fields, i, word, parts, more1);
    later_is_still_found(q.env, within, p, ctx, word, i, fields);
    steps_add_up(over(q, under).evaluate(t), 3, n1);
    assert forall|k: int, x: Name, w: Val|
        i <= k < i + 1 && nests(p, ctx, k) && #[trigger] takes(
            h,
            part(p, ctx, k)->0,
            ctx,
            fields[k],
            x,
            w,
        ) implies exists|j: int| 0 <= j < within.len() && (#[trigger] within[j]).0 == x by {
        assert(takes_from(h, sub, ctx, parts, 0, x, w));
        let j = a_taken_name_is_bound(h, sub, ctx, deeper, parts, 0, more1, x, w);
        assert(within[j].0 == x);
    }
    (3 + n1, within, frames)
}

/// Taking apart what stands inside a pattern, from place `i` on.
#[verifier::rlimit(40)]
#[verifier::spinoff_prover]
proof fn nested_parts_are_bound(
    q: Machine,
    under: Seq<FrameTerm>,
    p: Pattern,
    ctx: LoweringContext,
    word: Name,
    i: nat,
    body: Term,
    fields: Seq<Val>,
) -> (r: (nat, Scope, Seq<FrameTerm>))
    requires
        q == at_rest(q),
        i <= sub_count(p, ctx),
        fields.len() == sub_count(p, ctx),
        wrapped_at(p, ctx, word, i, body) is Ok,
        made_up_word(word),
        fits_from(q.heap, p, ctx, fields, i),
        names_ordinary_from(p, ctx, i),
        level_found(q.env, p, ctx, word, i, fields),
    ensures
        ({
            let (n, more, frames) = r;
            let t = wrapped_at(p, ctx, word, i, body)->Ok_0;
            &&& run(over(q, under).evaluate(t), n) == over(
                Machine { env: q.env + more, ..q },
                under + frames,
            ).evaluate(body)
            &&& entries_ok(more, q.heap, p, ctx, fields, i, word)
            &&& names_bound(q.heap, p, ctx, fields, i, sub_count(p, ctx), more)
        }),
    decreases p, sub_count(p, ctx) - i, 2nat,
{
    let h = q.heap;
    let t = wrapped_at(p, ctx, word, i, body)->Ok_0;
    let start = over(q, under).evaluate(t);
    one_step(start);
    let none = Seq::<(Name, Val)>::empty();
    let no_frames = Seq::<FrameTerm>::empty();
    if i == sub_count(p, ctx) {
        assert(q.env + none =~= q.env);
        assert(under + no_frames =~= under);
        (0, none, no_frames)
    } else {
        let rest = wrapped_at(p, ctx, word, i + 1, body)->Ok_0;
        if !nests(p, ctx, i as int) {
            let (n, more, frames) = nested_parts_are_bound(
                q,
                under,
                p,
                ctx,
                word,
                i + 1,
                body,
                fields,
            );
            entries_from_later(more, h, p, ctx, fields, i, word);
            (n, more, frames)
        } else {
            a_nested_part_and_the_rest(q, under, p, ctx, word, i, body, fields)
        }
    }
}

#[verifier::rlimit(40)]
#[verifier::spinoff_prover]
proof fn a_nested_part_and_the_rest(
    q: Machine,
    under: Seq<FrameTerm>,
    p: Pattern,
    ctx: LoweringContext,
    word: Name,
    i: nat,
    body: Term,
    fields: Seq<Val>,
) -> (r: (nat, Scope, Seq<FrameTerm>))
    requires
        q == at_rest(q),
        i < sub_count(p, ctx),
        nests(p, ctx, i as int),
        fields.len() == sub_count(p, ctx),
        wrapped_at(p, ctx, word, i, body) is Ok,
        made_up_word(word),
        fits_from(q.heap, p, ctx, fields, i),
        names_ordinary_from(p, ctx, i),
        level_found(q.env, p, ctx, word, i, fields),
    ensures
        ({
            let (n, more, frames) = r;
            let t = wrapped_at(p, ctx, word, i, body)->Ok_0;
            &&& run(over(q, under).evaluate(t), n) == over(
                Machine { env: q.env + more, ..q },
                under + frames,
            ).evaluate(body)
            &&& entries_ok(more, q.heap, p, ctx, fields, i, word)
            &&& names_bound(q.heap, p, ctx, fields, i, sub_count(p, ctx), more)
        }),
    decreases p, sub_count(p, ctx) - i, 1nat,
{
    let h = q.heap;
    unfolding(h, p, ctx, word, i, body, fields);
    let t = wrapped_at(p, ctx, word, i, body)->Ok_0;
    let rest = wrapped_at(p, ctx, word, i + 1, body)->Ok_0;
    let start = over(q, under).evaluate(t);
    let (n1, within, frames1) = a_nested_part_is_bound(q, under, p, ctx, word, i, rest, fields);
    let q2 = Machine { env: q.env + within, ..q };
    assert(q2 == at_rest(q2));
    let (n2, more2, frames2) = nested_parts_are_bound(
        q2,
        under + frames1,
        p,
        ctx,
        word,
        i + 1,
        body,
        fields,
    );
    let more = within + more2;
    let frames = frames1 + frames2;
    assert(q2.env + more2 =~= q.env + more);
    assert(under + frames1 + frames2 =~= under + frames);
    steps_add_up(start, n1, n2);
    entries_from_later(more2, h, p, ctx, fields, i, word);
    joining(within, more2, h, p, ctx, fields, i, word);
    (n1 + n2, more, frames)
}

#[verifier::rlimit(40)]
#[verifier::spinoff_prover]
proof fn unfolding(
    h: Cells,
    p: Pattern,
    ctx: LoweringContext,
    word: Name,
    i: nat,
    body: Term,
    fields: Seq<Val>,
)
    requires
        i < sub_count(p, ctx),
        nests(p, ctx, i as int),
        wrapped_at(p, ctx, word, i, body) is Ok,
        fits_from(h, p, ctx, fields, i),
        names_ordinary_from(p, ctx, i),
    ensures
        ({
            let sub = part(p, ctx, i as int)->0;
            let name = sub_name(p, ctx, word, i as int);
            let rest = wrapped_at(p, ctx, word, i + 1, body);
            &&& rest is Ok
            &&& wrapped_at(sub, ctx, below(name), 0, rest->Ok_0) is Ok
            &&& wrapped_at(p, ctx, word, i, body)->Ok_0 == t_match_one(
                t_var(name),
                tag_of(sub),
                bindings_at(sub, ctx, below(name)),
                wrapped_at(sub, ctx, below(name), 0, rest->Ok_0)->Ok_0,
            )
            &&& fits(h, sub, ctx, fields[i as int])
            &&& fits_from(h, p, ctx, fields, i + 1)
            &&& names_ordinary_from(p, ctx, i + 1)
        }),
{
    sub_decreases(p, ctx, i as int);
}

proof fn entries_from_later(
    more: Scope,
    h: Cells,
    p: Pattern,
    ctx: LoweringContext,
    fields: Seq<Val>,
    i: nat,
    word: Name,
)
    requires
        i < sub_count(p, ctx),
        entries_ok(more, h, p, ctx, fields, i + 1, word),
    ensures
        entries_ok(more, h, p, ctx, fields, i, word),
{
    assert forall|j: int| 0 <= j < more.len() implies entry_ok(
        #[trigger] more[j],
        h,
        p,
        ctx,
        fields,
        i,
        word,
    ) by {
        assert(entry_ok(more[j], h, p, ctx, fields, i + 1, word));
    }
}

#[verifier::rlimit(40)]
#[verifier::spinoff_prover]
proof fn joining(
    a: Scope,
    b: Scope,
    h: Cells,
    p: Pattern,
    ctx: LoweringContext,
    fields: Seq<Val>,
    i: nat,
    word: Name,
)
    requires
        i < sub_count(p, ctx),
        entries_ok(a, h, p, ctx, fields, i, word),
        entries_ok(b, h, p, ctx, fields, i, word),
        names_bound(h, p, ctx, fields, i, i + 1, a),
        names_bound(h, p, ctx, fields, i + 1, sub_count(p, ctx), b),
    ensures
        entries_ok(a + b, h, p, ctx, fields, i, word),
        names_bound(h, p, ctx, fields, i, sub_count(p, ctx), a + b),
{
    let all = a + b;
    assert forall|j: int| 0 <= j < all.len() implies entry_ok(
        #[trigger] all[j],
        h,
        p,
        ctx,
        fields,
        i,
        word,
    ) by {
        if j < a.len() {
            assert(all[j] == a[j]);
        } else {
            assert(all[j] == b[j - a.len()]);
        }
    }
    assert forall|k: int, x: Name, w: Val|
        i <= k < sub_count(p, ctx) && nests(p, ctx, k) && #[trigger] takes(
            h,
            part(p, ctx, k)->0,
            ctx,
            fields[k],
            x,
            w,
        ) implies exists|j: int| 0 <= j < all.len() && (#[trigger] all[j]).0 == x by {
        if k == i {
            let j = choose|j: int| 0 <= j < a.len() && (#[trigger] a[j]).0 == x;
            assert(all[j].0 == x);
        } else {
            let j = choose|j: int| 0 <= j < b.len() && (#[trigger] b[j]).0 == x;
            assert(all[j + a.len()].0 == x);
        }
    }
}

spec fn kept_apart(e: (Name, Val), deeper: Name) -> bool {
    e.0 == "_"@ || starts(e.0, deeper) || ordinary(e.0)
}

/// What is bound while the part at place `i` is taken apart.
#[verifier::rlimit(40)]
#[verifier::spinoff_prover]
proof fn within_is_ok(
    h: Cells,
    p: Pattern,
    ctx: LoweringContext,
    fields: Seq<Val>,
    i: nat,
    word: Name,
    parts: Seq<Val>,
    more1: Scope,
)
    requires
        i < sub_count(p, ctx),
        fields.len() == sub_count(p, ctx),
        nests(p, ctx, i as int),
        made_up_word(word),
        names_ordinary_from(p, ctx, i),
        fits(h, part(p, ctx, i as int)->0, ctx, fields[i as int]),
        ctor_at(h, fields[i as int]->HeapRef_0) matches Ok((_, f)) && f == parts,
        forall|j: int|
            0 <= j < more1.len() ==> entry_ok(
                #[trigger] more1[j],
                h,
                part(p, ctx, i as int)->0,
                ctx,
                parts,
                0,
                below(sub_name(p, ctx, word, i as int)),
            ),
    ensures
        ({
            let sub = part(p, ctx, i as int)->0;
            let deeper = below(sub_name(p, ctx, word, i as int));
            let within = zipped(bindings_at(sub, ctx, deeper), parts) + more1;
            forall|j: int|
                0 <= j < within.len() ==> entry_ok(
                    #[trigger] within[j],
                    h,
                    p,
                    ctx,
                    fields,
                    i,
                    word,
                ) && kept_apart(within[j], deeper)
        }),
{
    let sub = part(p, ctx, i as int)->0;
    let name = sub_name(p, ctx, word, i as int);
    let deeper = below(name);
    let first = zipped(bindings_at(sub, ctx, deeper), parts);
    let within = first + more1;
    let v = fields[i as int];
    at_place(h, p, ctx, fields, i, i);
    assert(names_ordinary(sub, ctx));
    assert(names_ordinary_from(sub, ctx, 0));
    assert forall|j: int| 0 <= j < within.len() implies entry_ok(
        #[trigger] within[j],
        h,
        p,
        ctx,
        fields,
        i,
        word,
    ) && kept_apart(within[j], deeper) by {
        let e = within[j];
        if j < first.len() {
            assert(e == first[j]);
            level_entry_ok(h, sub, ctx, deeper, parts, j);
        } else {
            assert(e == more1[j - first.len()]);
            assert(entry_ok(e, h, sub, ctx, parts, 0, deeper));
            if exists|k: int|
                0 <= k < sub_count(sub, ctx) && starts(
                    e.0,
                    below(#[trigger] sub_name(sub, ctx, deeper, k)),
                ) && nests(sub, ctx, k) {
                let k = choose|k: int|
                    0 <= k < sub_count(sub, ctx) && starts(
                        e.0,
                        below(#[trigger] sub_name(sub, ctx, deeper, k)),
                    ) && nests(sub, ctx, k);
                let s = sub_name(sub, ctx, deeper, k);
                assert(below(s).take(deeper.len() as int) =~= deeper);
                starts_chain(e.0, below(s), deeper);
            }
        }
        if starts(e.0, deeper) {
            assert(starts(e.0, below(sub_name(p, ctx, word, i as int))));
        } else if e.0 != "_"@ {
            assert(takes_from(h, sub, ctx, parts, 0, e.0, e.1));
            assert(takes(h, sub, ctx, v, e.0, e.1));
        }
    }
}

/// What stands further on is still found.
#[verifier::rlimit(40)]
#[verifier::spinoff_prover]
proof fn later_is_still_found(
    env: Scope,
    within: Scope,
    p: Pattern,
    ctx: LoweringContext,
    word: Name,
    i: nat,
    fields: Seq<Val>,
)
    requires
        i < sub_count(p, ctx),
        nests(p, ctx, i as int),
        made_up_word(word),
        forall|j: int|
            0 <= j < within.len() ==> kept_apart(
                #[trigger] within[j],
                below(sub_name(p, ctx, word, i as int)),
            ),
        forall|k: int|
            i <= k < sub_count(p, ctx) && nests(p, ctx, k) ==> value_in(
                env,
                #[trigger] sub_name(p, ctx, word, k),
            ) == Some(fields[k]),
    ensures
        forall|k: int|
            i < k < sub_count(p, ctx) && nests(p, ctx, k) ==> value_in(
                env + within,
                #[trigger] sub_name(p, ctx, word, k),
            ) == Some(fields[k]),
{
    assert forall|k: int| i < k < sub_count(p, ctx) && nests(p, ctx, k) implies value_in(
        env + within,
        #[trigger] sub_name(p, ctx, word, k),
    ) == Some(fields[k]) by {
        let s = sub_name(p, ctx, word, k);
        assert(s == made_up_name(p, ctx, word, k));
        assert(sub_name(p, ctx, word, i as int) == made_up_name(p, ctx, word, i as int));
        not_below(word, nested_before(p, ctx, k as nat), nested_before(p, ctx, i));
        assert(s[0] == word[0] && s[1] == word[1] && s.len() >= 2);
        assert forall|j: int| 0 <= j < within.len() implies (#[trigger] within[j]).0 != s by {
            assert(kept_apart(within[j], below(sub_name(p, ctx, word, i as int))));
            reveal_strlit("_");
        }
        found_last(env, within, s);
    }
}

/// The names of one level are found where they were bound.
proof fn level_is_found(
    env: Scope,
    p: Pattern,
    ctx: LoweringContext,
    word: Name,
    fields: Seq<Val>,
)
    requires
        fields.len() == sub_count(p, ctx),
        made_up_word(word),
        names_ordinary_from(p, ctx, 0),
    ensures
        forall|k: int|
            0 <= k < sub_count(p, ctx) && nests(p, ctx, k) ==> value_in(
                env + zipped(bindings_at(p, ctx, word), fields),
                #[trigger] sub_name(p, ctx, word, k),
            ) == Some(fields[k]),
{
    let first = zipped(bindings_at(p, ctx, word), fields);
    assert forall|k: int| 0 <= k < sub_count(p, ctx) && nests(p, ctx, k) implies value_in(
        env + first,
        #[trigger] sub_name(p, ctx, word, k),
    ) == Some(fields[k]) by {
        let s = sub_name(p, ctx, word, k);
        assert(s[0] == word[0] && s[1] == word[1]);
        assert(first[k] == (s, fields[k]));
        assert forall|j: int| 0 <= j < first.len() && (#[trigger] first[j]).0 == s implies first[j].1
            == fields[k] by {
            assert(first[j] == (sub_name(p, ctx, word, j), fields[j]));
            reveal_strlit("_");
            at_place(Seq::empty(), p, ctx, fields, 0, j as nat);
            if j != k {
                assert(s.len() >= 2);
                if let Some(q) = part(p, ctx, j) {
                    assert(names_ordinary(q, ctx));
                    if let Pattern::Ident(name, _) = q {
                        assert(ordinary(name@));
                        assert(sub_name(p, ctx, word, j) == name@);
                    }
                }
                assert(nests(p, ctx, j));
                if j < k {
                    super::laws::nested_count_grows(p, ctx, (j + 1) as nat, k as nat);
                } else {
                    super::laws::nested_count_grows(p, ctx, (k + 1) as nat, j as nat);
                }
                numbers_differ(
                    word,
                    nested_before(p, ctx, j as nat),
                    nested_before(p, ctx, k as nat),
                );
            }
        }
        found_last(env, first, s);
        assert(is_value(env + first, s, fields[k]));
    }
}

pub(crate) proof fn numbers_differ(word: Name, a: nat, b: nat)
    ensures
        numbered(word, a) == numbered(word, b) ==> a == b,
{
    if numbered(word, a) == numbered(word, b) {
        assert(numbered(word, a).skip(word.len() as int) =~= decimal(a));
        assert(numbered(word, b).skip(word.len() as int) =~= decimal(b));
        crate::names::decimal_injective(a, b);
    }
}

/// What one level binds.
proof fn level_entry_ok(
    h: Cells,
    p: Pattern,
    ctx: LoweringContext,
    word: Name,
    fields: Seq<Val>,
    j: int,
)
    requires
        0 <= j < sub_count(p, ctx),
        fields.len() == sub_count(p, ctx),
        names_ordinary_from(p, ctx, 0),
    ensures
        ({
            let e = zipped(bindings_at(p, ctx, word), fields)[j];
            ||| e.0 == "_"@
            ||| starts(e.0, word) && nests(p, ctx, j)
            ||| ordinary(e.0) && takes_from(h, p, ctx, fields, 0, e.0, e.1)
        }),
{
    let e = zipped(bindings_at(p, ctx, word), fields)[j];
    assert(e == (sub_name(p, ctx, word, j), fields[j]));
    at_place(h, p, ctx, fields, 0, j as nat);
    if nests(p, ctx, j) {
        assert(e.0.take(word.len() as int) =~= word);
    } else if let Some(Pattern::Ident(name, _)) = part(p, ctx, j) {
        assert(takes(h, part(p, ctx, j)->0, ctx, fields[j], e.0, e.1));
    }
}

/// A name that a pattern gives is bound at its level or deeper.
proof fn a_taken_name_is_bound(
    h: Cells,
    p: Pattern,
    ctx: LoweringContext,
    word: Name,
    fields: Seq<Val>,
    i: nat,
    more: Scope,
    x: Name,
    w: Val,
) -> (j: int)
    requires
        fields.len() == sub_count(p, ctx),
        i <= sub_count(p, ctx),
        takes_from(h, p, ctx, fields, i, x, w),
        forall|k: int, y: Name, u: Val|
            0 <= k < sub_count(p, ctx) && nests(p, ctx, k) && #[trigger] takes(
                h,
                part(p, ctx, k)->0,
                ctx,
                fields[k],
                y,
                u,
            ) ==> exists|j: int| 0 <= j < more.len() && (#[trigger] more[j]).0 == y,
    ensures
        ({
            let all = zipped(bindings_at(p, ctx, word), fields) + more;
            0 <= j < all.len() && all[j].0 == x
        }),
    decreases sub_count(p, ctx) - i,
{
    let first = zipped(bindings_at(p, ctx, word), fields);
    let all = first + more;
    if part(p, ctx, i as int) is Some && takes(
        h,
        part(p, ctx, i as int)->0,
        ctx,
        fields[i as int],
        x,
        w,
    ) {
        if nests(p, ctx, i as int) {
            let j = choose|j: int| 0 <= j < more.len() && (#[trigger] more[j]).0 == x;
            assert(all[j + first.len()] == more[j]);
            j + first.len()
        } else {
            assert(first[i as int].0 == sub_name(p, ctx, word, i as int));
            i as int
        }
    } else {
        a_taken_name_is_bound(h, p, ctx, word, fields, i + 1, more, x, w)
    }
}

/// Whether a parameter gives the name `x` to the part `w` of an argument.
pub open spec fn param_takes(
    h: Cells,
    p: Param,
    ctx: LoweringContext,
    arg: Val,
    x: Name,
    w: Val,
) -> bool {
    match p.kind {
        ParamKind::Ident(name) => name@ == x && w == arg,
        ParamKind::Pattern(q) => takes(h, q, ctx, arg, x, w),
    }
}

/// Whether an argument has the shape of a parameter.
pub open spec fn param_fits(h: Cells, p: Param, ctx: LoweringContext, arg: Val) -> bool {
    match p.kind {
        ParamKind::Ident(_) => true,
        ParamKind::Pattern(q) => fits(h, q, ctx, arg),
    }
}

/// Whether all names in a parameter are ordinary.
pub open spec fn param_ordinary(p: Param, ctx: LoweringContext) -> bool {
    match p.kind {
        ParamKind::Ident(name) => ordinary(name@),
        ParamKind::Pattern(q) => names_ordinary(q, ctx),
    }
}

spec fn all_params(h: Cells, ps: Seq<Param>, ctx: LoweringContext, args: Seq<Val>) -> bool {
    &&& args.len() == ps.len()
    &&& forall|k: int|
        0 <= k < ps.len() ==> param_fits(h, #[trigger] ps[k], ctx, args[k]) && param_ordinary(
            ps[k],
            ctx,
        )
}

/// What a binding made while parameters are taken apart can be.
spec fn param_entry(
    e: (Name, Val),
    h: Cells,
    ps: Seq<Param>,
    ctx: LoweringContext,
    args: Seq<Val>,
) -> bool {
    ||| e.0 == "_"@
    ||| starts(e.0, "__nested"@)
    ||| ordinary(e.0) && exists|k: int|
        0 <= k < ps.len() && param_takes(h, #[trigger] ps[k], ctx, args[k], e.0, e.1)
}

/// Taking a value apart by a pattern: everything that the pattern names is bound.
#[verifier::rlimit(40)]
#[verifier::spinoff_prover]
proof fn a_pattern_is_bound(
    q: Machine,
    under: Seq<FrameTerm>,
    name: Name,
    p: Pattern,
    ctx: LoweringContext,
    body: Term,
    v: Val,
) -> (r: (nat, Scope, Seq<FrameTerm>))
    requires
        q == at_rest(q),
        compound(p),
        value_in(q.env, name) == Some(v),
        fits(q.heap, p, ctx, v),
        names_ordinary(p, ctx),
        destructured(t_var(name), p, ctx, body) is Ok,
    ensures
        ({
            let (n, more, frames) = r;
            let t = destructured(t_var(name), p, ctx, body)->Ok_0;
            &&& run(over(q, under).evaluate(t), n) == over(
                Machine { env: q.env + more, ..q },
                under + frames,
            ).evaluate(body)
            &&& forall|j: int|
                0 <= j < more.len() ==> {
                    ||| (#[trigger] more[j]).0 == "_"@
                    ||| starts(more[j].0, "__nested"@)
                    ||| ordinary(more[j].0) && takes(q.heap, p, ctx, v, more[j].0, more[j].1)
                }
            &&& forall|x: Name, w: Val|
                #[trigger] takes(q.heap, p, ctx, v, x, w) ==> exists|j: int|
                    0 <= j < more.len() && (#[trigger] more[j]).0 == x
        }),
{
    let h = q.heap;
    let word = "__nested"@;
    reveal_strlit("__nested");
    let inner = wrapped(p, ctx, body)->Ok_0;
    let t = destructured(t_var(name), p, ctx, body)->Ok_0;
    let addr = v->HeapRef_0;
    let (tag, fields) = ctor_at(h, addr)->Ok_0;
    let bindings = bindings_of(p, ctx);
    a_match_runs(q, under, name, tag, bindings, inner, addr, fields);
    let first = zipped(bindings, fields);
    let q1 = Machine { env: q.env + first, ..q };
    let u = FrameTerm::Unbind { count: fields.len() };
    assert(names_ordinary_from(p, ctx, 0));
    level_is_found(q.env, p, ctx, word, fields);
    let (n, more1, frames1) = nested_parts_are_bound(
        q1,
        under.push(u),
        p,
        ctx,
        word,
        0,
        body,
        fields,
    );
    let more = first + more1;
    let frames = Seq::<FrameTerm>::empty().push(u) + frames1;
    assert(q1.env + more1 =~= q.env + more);
    assert(under.push(u) + frames1 =~= under + frames);
    steps_add_up(over(q, under).evaluate(t), 3, n);
    assert forall|j: int| 0 <= j < more.len() implies {
        ||| (#[trigger] more[j]).0 == "_"@
        ||| starts(more[j].0, word)
        ||| ordinary(more[j].0) && takes(h, p, ctx, v, more[j].0, more[j].1)
    } by {
        let e = more[j];
        if j < first.len() {
            assert(e == first[j]);
            level_entry_ok(h, p, ctx, word, fields, j);
        } else {
            assert(e == more1[j - first.len()]);
            assert(entry_ok(e, h, p, ctx, fields, 0, word));
            if exists|k: int|
                0 <= k < sub_count(p, ctx) && starts(
                    e.0,
                    below(#[trigger] sub_name(p, ctx, word, k)),
                ) && nests(p, ctx, k) {
                let k = choose|k: int|
                    0 <= k < sub_count(p, ctx) && starts(
                        e.0,
                        below(#[trigger] sub_name(p, ctx, word, k)),
                    ) && nests(p, ctx, k);
                let s = sub_name(p, ctx, word, k);
                assert(below(s).take(word.len() as int) =~= word);
                starts_chain(e.0, below(s), word);
            }
        }
    }
    assert forall|x: Name, w: Val| #[trigger] takes(h, p, ctx, v, x, w) implies exists|j: int|
        0 <= j < more.len() && (#[trigger] more[j]).0 == x by {
        let j = a_taken_name_is_bound(h, p, ctx, word, fields, 0, more1, x, w);
        assert(more[j].0 == x);
    }
    (3 + n, more, frames)
}

/// The made-up name of a parameter is none that is bound while parameters are taken apart.
proof fn param_names_stay_apart(
    k: nat,
    e: (Name, Val),
    h: Cells,
    ps: Seq<Param>,
    ctx: LoweringContext,
    args: Seq<Val>,
)
    requires
        param_entry(e, h, ps, ctx, args),
    ensures
        e.0 != numbered("__param"@, k),
{
    reveal_strlit("__param");
    reveal_strlit("__nested");
    reveal_strlit("_");
    let s = numbered("__param"@, k);
    assert(s[0] == '_' && s[1] == '_' && s[2] == 'p' && s.len() >= 7);
    if starts(e.0, "__nested"@) {
        assert(e.0.take(8)[2] == 'n');
        assert(e.0[2] == 'n');
    }
}

/// Taking apart the parameters from place `k` on.
#[verifier::rlimit(40)]
#[verifier::spinoff_prover]
proof fn parameters_are_bound(
    q: Machine,
    under: Seq<FrameTerm>,
    ps: Seq<Param>,
    k: nat,
    body: Term,
    ctx: LoweringContext,
    args: Seq<Val>,
) -> (r: (nat, Scope, Seq<FrameTerm>))
    requires
        q == at_rest(q),
        k <= ps.len(),
        all_params(q.heap, ps, ctx, args),
        with_params(ps, k, body, ctx) is Ok,
        forall|i: int|
            k <= i < ps.len() && apart(#[trigger] ps[i]) is Some ==> value_in(
                q.env,
                numbered("__param"@, i as nat),
            ) == Some(args[i]),
    ensures
        ({
            let (n, more, frames) = r;
            let t = with_params(ps, k, body, ctx)->Ok_0;
            &&& run(over(q, under).evaluate(t), n) == over(
                Machine { env: q.env + more, ..q },
                under + frames,
            ).evaluate(body)
            &&& forall|j: int|
                0 <= j < more.len() ==> param_entry(#[trigger] more[j], q.heap, ps, ctx, args)
            &&& forall|i: int, x: Name, w: Val|
                k <= i < ps.len() && apart(ps[i]) is Some && #[trigger] param_takes(
                    q.heap,
                    ps[i],
                    ctx,
                    args[i],
                    x,
                    w,
                ) ==> exists|j: int| 0 <= j < more.len() && (#[trigger] more[j]).0 == x
        }),
    decreases ps.len() - k,
{
    let h = q.heap;
    let none = Seq::<(Name, Val)>::empty();
    let no_frames = Seq::<FrameTerm>::empty();
    if k == ps.len() {
        assert(q.env + none =~= q.env);
        assert(under + no_frames =~= under);
        one_step(over(q, under).evaluate(body));
        (0, none, no_frames)
    } else {
        let rest = with_params(ps, k + 1, body, ctx)->Ok_0;
        let t = with_params(ps, k, body, ctx)->Ok_0;
        match apart(ps[k as int]) {
            None => parameters_are_bound(q, under, ps, k + 1, body, ctx, args),
            Some(p) => {
                assert(param_fits(h, ps[k as int], ctx, args[k as int]));
                let name = numbered("__param"@, k);
                assert(value_in(q.env, name) == Some(args[k as int]));
                let (n1, more1, frames1) = a_pattern_is_bound(
                    q,
                    under,
                    name,
                    p,
                    ctx,
                    rest,
                    args[k as int],
                );
                let q1 = Machine { env: q.env + more1, ..q };
                assert forall|j: int| 0 <= j < more1.len() implies param_entry(
                    #[trigger] more1[j],
                    h,
                    ps,
                    ctx,
                    args,
                ) by {
                    let e = more1[j];
                    if ordinary(e.0) && takes(h, p, ctx, args[k as int], e.0, e.1) {
                        assert(param_takes(h, ps[k as int], ctx, args[k as int], e.0, e.1));
                    }
                }
                assert forall|i: int|
                    k + 1 <= i < ps.len() && apart(#[trigger] ps[i]) is Some implies value_in(
                    q1.env,
                    numbered("__param"@, i as nat),
                ) == Some(args[i]) by {
                    let s = numbered("__param"@, i as nat);
                    assert forall|j: int| 0 <= j < more1.len() implies (#[trigger] more1[j]).0 != s by {
                        param_names_stay_apart(i as nat, more1[j], h, ps, ctx, args);
                    }
                    found_last(q.env, more1, s);
                }
                let (n2, more2, frames2) = parameters_are_bound(
                    q1,
                    under + frames1,
                    ps,
                    k + 1,
                    body,
                    ctx,
                    args,
                );
                let more = more1 + more2;
                let frames = frames1 + frames2;
                assert(q1.env + more2 =~= q.env + more);
                assert(under + frames1 + frames2 =~= under + frames);
                steps_add_up(over(q, under).evaluate(t), n1, n2);
                assert forall|j: int| 0 <= j < more.len() implies param_entry(
                    #[trigger] more[j],
                    h,
                    ps,
                    ctx,
                    args,
                ) by {
                    if j < more1.len() {
                        assert(more[j] == more1[j]);
                    } else {
                        assert(more[j] == more2[j - more1.len()]);
                    }
                }
                assert forall|i: int, x: Name, w: Val|
                    k <= i < ps.len() && apart(ps[i]) is Some && #[trigger] param_takes(
                        h,
                        ps[i],
                        ctx,
                        args[i],
                        x,
                        w,
                    ) implies exists|j: int| 0 <= j < more.len() && (#[trigger] more[j]).0 == x by {
                    if i == k {
                        assert(takes(h, p, ctx, args[k as int], x, w));
                        let j = choose|j: int| 0 <= j < more1.len() && (#[trigger] more1[j]).0 == x;
                        assert(more[j].0 == x);
                    } else {
                        let j = choose|j: int| 0 <= j < more2.len() && (#[trigger] more2[j]).0 == x;
                        assert(more[j + more1.len()].0 == x);
                    }
                }
                (n1 + n2, more, frames)
            },
        }
    }
}

/// The names of parameters, place by place.
proof fn param_name_at(ps: Seq<Param>, n: nat, k: int)
    requires
        0 <= k < n <= ps.len(),
        param_names(ps, n) is Ok,
    ensures
        (param_names(ps, n)->Ok_0).len() == n,
        param_name(ps[k], k as nat) == Ok::<Name, LowerFault>((param_names(ps, n)->Ok_0)[k]),
    decreases n,
{
    if k < n - 1 {
        param_name_at(ps, (n - 1) as nat, k);
    } else if n > 1 {
        param_name_at(ps, (n - 1) as nat, 0);
    }
}

/// Where a parameter is found at the beginning.
proof fn params_are_found(
    h: Cells,
    ps: Seq<Param>,
    ctx: LoweringContext,
    args: Seq<Val>,
    names: Seq<Name>,
)
    requires
        all_params(h, ps, ctx, args),
        param_names(ps, ps.len()) == Ok::<Seq<Name>, LowerFault>(names),
        names.len() == ps.len(),
    ensures
        forall|i: int|
            0 <= i < ps.len() && apart(#[trigger] ps[i]) is Some ==> value_in(
                zipped(names, args),
                numbered("__param"@, i as nat),
            ) == Some(args[i]),
        forall|j: int|
            0 <= j < names.len() ==> {
                let e = #[trigger] zipped(names, args)[j];
                ||| e.0 == numbered("__param"@, j as nat)
                ||| param_takes(h, ps[j], ctx, args[j], e.0, e.1) && ordinary(e.0)
            },
{
    let env = zipped(names, args);
    let none = Seq::<(Name, Val)>::empty();
    assert(none + env =~= env);
    reveal_strlit("__param");
    assert forall|j: int| 0 <= j < names.len() implies {
        let e = #[trigger] env[j];
        ||| e.0 == numbered("__param"@, j as nat)
        ||| param_takes(h, ps[j], ctx, args[j], e.0, e.1) && ordinary(e.0)
    } by {
        param_name_at(ps, ps.len(), j);
        assert(param_ordinary(ps[j], ctx));
        assert(env[j] == (names[j], args[j]));
        if let ParamKind::Pattern(q) = ps[j].kind {
            if let Pattern::Ident(name, _) = q {
                assert(takes(h, q, ctx, args[j], name@, args[j]));
            }
        }
    }
    assert forall|i: int| 0 <= i < ps.len() && apart(#[trigger] ps[i]) is Some implies value_in(
        env,
        numbered("__param"@, i as nat),
    ) == Some(args[i]) by {
        let s = numbered("__param"@, i as nat);
        param_name_at(ps, ps.len(), i);
        assert(env[i] == (s, args[i]));
        assert(s[0] == '_' && s[1] == '_' && s.len() >= 2);
        assert forall|j: int| 0 <= j < env.len() && (#[trigger] env[j]).0 == s implies env[j].1
            == args[i] by {
            numbers_differ("__param"@, i as nat, j as nat);
        }
        found_last(none, env, s);
        assert(is_value(none + env, s, args[i]));
    }
}

/// Calling a function that takes its parameters apart evaluates its body in a scope where each
/// name of a parameter stands for its part of the argument at the same place. A name that
/// parameters give to several parts is left out.
pub proof fn a_call_binds_the_parts_of_its_arguments(
    m: Machine,
    def: LetDef,
    ctx: LoweringContext,
    args: Seq<Val>,
) -> (r: (nat, Machine))
    requires
        lowered_function(def, ctx) is Ok,
        find_function(m.functions, def.name@) == Some(lowered_function(def, ctx)->Ok_0),
        args.len() == def.params@.len(),
        forall|k: int|
            0 <= k < args.len() ==> param_fits(
                m.heap,
                #[trigger] def.params@[k],
                ctx,
                args[k],
            ) && param_ordinary(def.params@[k], ctx),
    ensures
        ({
            let (n, s) = r;
            &&& run(started_call(m, def.name@, args), n) == s
            &&& s.control == ControlTerm::Eval(lowered(def.body, ctx)->Ok_0)
            &&& s.heap == m.heap
            &&& s.globals == m.globals
            &&& forall|k: int, x: Name, w: Val|
                0 <= k < args.len() && ordinary(x) && #[trigger] param_takes(
                    m.heap,
                    def.params@[k],
                    ctx,
                    args[k],
                    x,
                    w,
                ) && (forall|i: int, u: Val|
                    0 <= i < args.len() && #[trigger] param_takes(
                        m.heap,
                        def.params@[i],
                        ctx,
                        args[i],
                        x,
                        u,
                    ) ==> u == w) ==> lookup(s, x) == Ok::<Val, Fault>(w)
        }),
{
    let ps = def.params@;
    let h = m.heap;
    let f = lowered_function(def, ctx)->Ok_0;
    let names = param_names(ps, ps.len())->Ok_0;
    let body = lowered(def.body, ctx)->Ok_0;
    if ps.len() > 0 {
        param_name_at(ps, ps.len(), 0);
    }
    assert(names.len() == ps.len());
    assert(all_params(h, ps, ctx, args));
    let start = started_call(m, def.name@, args);
    let back = FrameTerm::Restore { env: m.env };
    let env = zipped(names, args);
    let q = Machine { env, ..at_rest(m) };
    let under = seq![back];
    assert(start.stack =~= over(q, under).stack);
    assert(start == over(q, under).evaluate(f.body));
    params_are_found(h, ps, ctx, args, names);
    let (n, more, frames) = parameters_are_bound(q, under, ps, 0, body, ctx, args);
    let s = over(Machine { env: env + more, ..q }, under + frames).evaluate(body);
    reveal_strlit("__param");
    reveal_strlit("__nested");
    assert forall|k: int, x: Name, w: Val|
        0 <= k < args.len() && ordinary(x) && #[trigger] param_takes(
            h,
            ps[k],
            ctx,
            args[k],
            x,
            w,
        ) && (forall|i: int, u: Val|
            0 <= i < args.len() && #[trigger] param_takes(h, ps[i], ctx, args[i], x, u) ==> u
                == w) implies lookup(s, x) == Ok::<Val, Fault>(w) by {
        let none = Seq::<(Name, Val)>::empty();
        let all = env + more;
        assert(none + all =~= all);
        assert forall|j: int| 0 <= j < all.len() && (#[trigger] all[j]).0 == x implies all[j].1
            == w by {
            if j < env.len() {
                assert(all[j] == env[j]);
                let p = numbered("__param"@, j as nat);
                assert(p[0] == '_' && p[1] == '_' && p.len() >= 2);
                assert(param_takes(h, ps[j], ctx, args[j], x, all[j].1));
            } else {
                let e = more[j - env.len()];
                assert(all[j] == e);
                assert(param_entry(e, h, ps, ctx, args));
                if starts(e.0, "__nested"@) {
                    assert(e.0.take(8)[0] == '_' && e.0.take(8)[1] == '_');
                    assert(e.0[0] == '_' && e.0[1] == '_');
                }
                let i = choose|i: int|
                    0 <= i < ps.len() && param_takes(h, #[trigger] ps[i], ctx, args[i], e.0, e.1);
                assert(param_takes(h, ps[i], ctx, args[i], x, e.1));
            }
        }
        assert(exists|j: int| 0 <= j < all.len() && (#[trigger] all[j]).0 == x) by {
            if apart(ps[k]) is Some {
                let j = choose|j: int| 0 <= j < more.len() && (#[trigger] more[j]).0 == x;
                assert(all[j + env.len()].0 == x);
            } else {
                param_name_at(ps, ps.len(), k);
                assert(env[k] == (names[k], args[k]));
                assert(all[k].0 == x);
            }
        }
        found_last(none, all, x);
        assert(is_value(none + all, x, w));
        found_is_bound(all, x);
        assert(s.env == all);
    }
    (n, s)
}

} // verus!
