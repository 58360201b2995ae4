//! What lowered expressions evaluate to.

use vstd::prelude::*;
use crate::ast::{
    BinaryOp, Expr as Source, FieldInit, FieldPattern, Literal, MatchArm as SourceArm, Pattern,
    Span, UnaryOp,
};
use crate::interp::direct::{ev, ev_arms, ev_either, ev_kids};
use crate::interp::heap::{ctor_at, str_at, Cells, HeapError};
use crate::interp::laws::{found_at, found_is_bound};
use crate::interp::naming::outcome;
use crate::interp::semantics::{applied, arith, find, lookup, zipped};
use crate::interp::state::{Machine, Scope};
use crate::interp::value::Val;
use crate::ir::{leaf, node, shaped, t_let, t_var, BinOp, Name, Op, Term, UnOp};
use super::context::LoweringContext;
use super::error::LowerFault;
use super::expr::{
    field_values, init_names, lowered, lowered_chain, lowered_test, on_literals, t_compare,
    t_literal,
};
use super::calling::numbers_differ;
use super::pattern::{
    first_extra, first_repeat, listed, numbered, part, pattern_fault, place_holds_name, place_of,
    sub_fault, subs_fault,
};

verus! {

/// A machine with another heap.
pub open spec fn on(q: Machine, h: Cells) -> Machine {
    Machine { heap: h, ..q }
}

/// What an expression that lowers evaluates to in a machine at rest.
pub open spec fn means(q: Machine, e: Source, ctx: LoweringContext) -> Option<(Cells, Val)> {
    match lowered(e, ctx) {
        Ok(t) => ev(q, t),
        Err(_) => None,
    }
}

/// A literal evaluates to itself, and a string to a new cell with its text.
pub proof fn a_literal_is_itself(q: Machine, e: Source, ctx: LoweringContext)
    requires
        q.heap.len() < usize::MAX,
    ensures
        match e {
            Source::Int(n, _) => means(q, e, ctx) == Some((q.heap, Val::Int(n))),
            Source::Float(b, _) => means(q, e, ctx) == Some((q.heap, Val::Float(b))),
            Source::Bool(b, _) => means(q, e, ctx) == Some((q.heap, Val::Bool(b))),
            Source::Str(s, _) => means(q, e, ctx) matches Some((h, Val::HeapRef(a))) && a
                == q.heap.len() && str_at(h, a) == Ok::<Name, HeapError>(s@),
            _ => true,
        },
{
}

proof fn two_operands(q: Machine, op: Op, l: Term, r: Term, h: Cells, a: Val, i: Cells, b: Val)
    requires
        ev(q, l) == Some((h, a)),
        ev(on(q, h), r) == Some((i, b)),
        op is Binary,
        op != Op::Binary(BinOp::And),
        op != Op::Binary(BinOp::Or),
    ensures
        ev(q, node(op, Seq::empty(), seq![l, r])) == outcome(
            applied(on(q, i), op, Seq::empty(), seq![a, b]),
        ),
{
    let t = node(op, Seq::empty(), seq![l, r]);
    assert(shaped(t));
    assert(t.kids[0] == l && t.kids[1] == r);
    assert(ev_kids(q, t, 0) == Some((q.heap, Seq::<Val>::empty())));
    assert(on(q, q.heap) == q);
    assert(ev_kids(q, t, 1) == Some((h, Seq::<Val>::empty().push(a))));
    assert(ev_kids(q, t, 2) == Some((i, Seq::<Val>::empty().push(a).push(b))));
    assert(Seq::<Val>::empty().push(a).push(b) =~= seq![a, b]);
}

/// Whether `d` is the quotient of `a` and `b`, rounded towards zero, and `c` what remains.
pub open spec fn divides(a: int, b: int, d: int, c: int) -> bool {
    &&& a == d * b + c
    &&& -b < c < b || b < c < -b
    &&& a >= 0 ==> c >= 0
    &&& a <= 0 ==> c <= 0
}

proof fn dividing(a: i64, b: i64)
    requires
        b != 0,
        !(a == i64::MIN && b == -1),
    ensures
        arith(BinOp::Div, a, b) is Ok,
        arith(BinOp::Rem, a, b) is Ok,
        divides(
            a as int,
            b as int,
            arith(BinOp::Div, a, b)->Ok_0 as int,
            arith(BinOp::Rem, a, b)->Ok_0 as int,
        ),
{
    let x = if a >= 0 {
        a as int
    } else {
        -a
    };
    let y = if b >= 0 {
        b as int
    } else {
        -b
    };
    let p = x / y;
    let m = x % y;
    assert(x == p * y + m && 0 <= m < y) by (nonlinear_arith)
        requires
            p == x / y,
            m == x % y,
            y > 0,
            x >= 0,
    ;
    assert(0 <= p <= x) by (nonlinear_arith)
        requires
            p == x / y,
            y > 0,
            x >= 0,
    ;
    assert((-p) * y == -(p * y)) by (nonlinear_arith);
    assert(p * (-y) == -(p * y)) by (nonlinear_arith);
    assert((-p) * (-y) == p * y) by (nonlinear_arith);
    if y >= 2 && x > 0 {
        assert(p < x) by (nonlinear_arith)
            requires
                p == x / y,
                y >= 2,
                x > 0,
        ;
    }
}

/// An operator on two integers computes what it is written for. Where the result is no
/// integer of the machine, or the divisor is zero, there is none.
#[verifier::spinoff_prover]
pub proof fn an_operator_computes_its_result(
    q: Machine,
    e: Source,
    ctx: LoweringContext,
    h: Cells,
    a: i64,
    i: Cells,
    b: i64,
)
    requires
        e is Binary,
        e->Binary_op != BinaryOp::Pipe,
        e->Binary_op != BinaryOp::Range,
        lowered(*e->lhs, ctx) is Ok,
        lowered(*e->rhs, ctx) is Ok,
        means(q, *e->lhs, ctx) == Some((h, Val::Int(a))),
        means(on(q, h), *e->rhs, ctx) == Some((i, Val::Int(b))),
    ensures
        ({
            let r = means(q, e, ctx);
            let whole = |n: int|
                if i64::MIN <= n <= i64::MAX {
                    Some((i, Val::Int(n as i64)))
                } else {
                    None
                };
            match e->Binary_op {
                BinaryOp::Add => r == whole(a + b),
                BinaryOp::Sub => r == whole(a - b),
                BinaryOp::Mul => r == whole(a * b),
                BinaryOp::Div => if b == 0 || (a == i64::MIN && b == -1) {
                    r is None
                } else {
                    exists|d: i64, c: i64|
                        r == Some((i, Val::Int(d))) && #[trigger] divides(
                            a as int,
                            b as int,
                            d as int,
                            c as int,
                        )
                },
                BinaryOp::Rem => if b == 0 || (a == i64::MIN && b == -1) {
                    r is None
                } else {
                    exists|d: i64, c: i64|
                        r == Some((i, Val::Int(c))) && #[trigger] divides(
                            a as int,
                            b as int,
                            d as int,
                            c as int,
                        )
                },
                BinaryOp::Eq => r == Some((i, Val::Bool(a == b))),
                BinaryOp::Ne => r == Some((i, Val::Bool(a != b))),
                BinaryOp::Lt => r == Some((i, Val::Bool(a < b))),
                BinaryOp::Gt => r == Some((i, Val::Bool(a > b))),
                BinaryOp::Le => r == Some((i, Val::Bool(a <= b))),
                BinaryOp::Ge => r == Some((i, Val::Bool(a >= b))),
                _ => r is None,
            }
        }),
{
    let op = e->Binary_op;
    let l = lowered(*e->lhs, ctx)->Ok_0;
    let r = lowered(*e->rhs, ctx)->Ok_0;
    let o = super::expr::binop(op);
    let t = node(Op::Binary(o), Seq::empty(), seq![l, r]);
    assert(lowered(e, ctx) == Ok::<Term, LowerFault>(t));
    if op == BinaryOp::And || op == BinaryOp::Or {
        assert(t.kids[0] == l && t.kids[1] == r);
        assert(ev(q, t) == ev_either(q, t, op == BinaryOp::And));
    } else {
        two_operands(q, Op::Binary(o), l, r, h, Val::Int(a), i, Val::Int(b));
        let vs = seq![Val::Int(a), Val::Int(b)];
        assert(vs[0] == Val::Int(a) && vs[1] == Val::Int(b));
        if b != 0 && !(a == i64::MIN && b == -1) {
            dividing(a, b);
            let d = arith(BinOp::Div, a, b)->Ok_0;
            let c = arith(BinOp::Rem, a, b)->Ok_0;
            assert(divides(a as int, b as int, d as int, c as int));
        } else if a == i64::MIN && b == -1 {
            assert((a as int * -1) / (b as int * -1) == -(a as int)) by (nonlinear_arith)
                requires
                    b == -1,
            ;
        }
    }
}

/// `a && b` is false where `a` is, and else what `b` is; `a || b` is true where `a` is, and
/// else what `b` is. What decides alone is evaluated alone.
pub proof fn the_first_operand_may_decide(
    q: Machine,
    e: Source,
    ctx: LoweringContext,
    h: Cells,
    a: bool,
)
    requires
        e is Binary,
        e->Binary_op == BinaryOp::And || e->Binary_op == BinaryOp::Or,
        lowered(*e->rhs, ctx) is Ok,
        means(q, *e->lhs, ctx) == Some((h, Val::Bool(a))),
    ensures
        ({
            let r = means(q, e, ctx);
            let second = match means(on(q, h), *e->rhs, ctx) {
                Some((i, Val::Bool(b))) => Some((i, Val::Bool(b))),
                _ => None,
            };
            if e->Binary_op == BinaryOp::And {
                r == (if a {
                    second
                } else {
                    Some((h, Val::Bool(false)))
                })
            } else {
                r == (if a {
                    Some((h, Val::Bool(true)))
                } else {
                    second
                })
            }
        }),
{
    let and = e->Binary_op == BinaryOp::And;
    let l = lowered(*e->lhs, ctx)->Ok_0;
    let r = lowered(*e->rhs, ctx)->Ok_0;
    let t = node(
        Op::Binary(
            if and {
                BinOp::And
            } else {
                BinOp::Or
            },
        ),
        Seq::empty(),
        seq![l, r],
    );
    assert(lowered(e, ctx) == Ok::<Term, LowerFault>(t));
    assert(t.kids[0] == l && t.kids[1] == r);
    assert(shaped(t));
    assert(ev(q, t) == ev_either(q, t, and));
}

/// `-a` is the opposite integer where there is one, and `!a` the other boolean.
pub proof fn a_sign_turns_its_operand(q: Machine, e: Source, ctx: LoweringContext, h: Cells, v: Val)
    requires
        e is Unary,
        means(q, *e->Unary_expr, ctx) == Some((h, v)),
    ensures
        match (e->Unary_op, v) {
            (UnaryOp::Neg, Val::Int(n)) => means(q, e, ctx) == (if n == i64::MIN {
                None
            } else {
                Some((h, Val::Int((0 - n) as i64)))
            }),
            (UnaryOp::Not, Val::Bool(b)) => means(q, e, ctx) == Some((h, Val::Bool(!b))),
            _ => means(q, e, ctx) is None,
        },
{
    let op = Op::Unary(
        match e->Unary_op {
            UnaryOp::Neg => UnOp::Neg,
            UnaryOp::Not => UnOp::Not,
        },
    );
    let l = lowered(*e->Unary_expr, ctx)->Ok_0;
    let t = node(op, Seq::empty(), seq![l]);
    assert(lowered(e, ctx) == Ok::<Term, LowerFault>(t));
    assert(t.kids[0] == l);
    assert(shaped(t));
    assert(ev_kids(q, t, 0) == Some((q.heap, Seq::<Val>::empty())));
    assert(on(q, q.heap) == q);
    assert(ev_kids(q, t, 1) == Some((h, Seq::<Val>::empty().push(v))));
}

/// `if` evaluates the branch that its condition chooses, and no other. Without an `else`
/// there is nothing to evaluate where the condition is false.
pub proof fn a_condition_chooses_the_branch(
    q: Machine,
    e: Source,
    ctx: LoweringContext,
    h: Cells,
    c: bool,
)
    requires
        e is If,
        lowered(e, ctx) is Ok,
        means(q, *e->cond, ctx) == Some((h, Val::Bool(c))),
    ensures
        c ==> means(q, e, ctx) == (match super::expr::lowered_block(*e->then_branch, ctx) {
            Ok(t) => ev(on(q, h), t),
            Err(_) => None,
        }),
        !c ==> means(q, e, ctx) == (match e->else_branch {
            Some(other) => means(on(q, h), *other, ctx),
            None => Some((h, Val::Unit)),
        }),
{
    let t = lowered(e, ctx)->Ok_0;
    let l = lowered(*e->cond, ctx)->Ok_0;
    assert(t.kids[0] == l);
    assert(shaped(t));
    assert(ev(on(q, h), leaf(Op::Unit)) == Some((h, Val::Unit)));
}

/// Whether a name is the only one of its kind in a sequence.
pub open spec fn is_only(names: Seq<Name>, k: int) -> bool {
    0 <= k < names.len() && forall|i: int|
        0 <= i < names.len() && #[trigger] names[i] == names[k] ==> i == k
}

/// `s.name` gives the value at the place where the struct's declaration has `name`.
pub proof fn a_field_is_the_one_declared(
    q: Machine,
    e: Source,
    ctx: LoweringContext,
    h: Cells,
    a: usize,
    owner: Name,
    declared: Seq<Name>,
    values: Seq<Val>,
    k: int,
)
    requires
        e is Field,
        ctx.owner_of(e->Field_span) == Some(owner),
        ctx.fields_of(owner) == Some(declared),
        is_only(declared, k),
        declared[k] == e->Field_name@,
        means(q, *e->Field_base, ctx) == Some((h, Val::HeapRef(a))),
        ctor_at(h, a) == Ok::<(Name, Seq<Val>), HeapError>((owner, values)),
        values.len() == declared.len(),
    ensures
        means(q, e, ctx) == Some((h, values[k])),
{
    let name = e->Field_name@;
    let b = lowered(*e->Field_base, ctx)->Ok_0;
    some_place(declared, declared.len(), name, k);
    assert(lowered(e, ctx) == super::expr::lowered_field(e, ctx));
    assert(super::expr::lowered_field(e, ctx) is Ok);
    let t = lowered(e, ctx)->Ok_0;
    let bindings = t.arms[0].bindings;
    let body = t_var("__field_result"@);
    assert(t.kids[0] == b);
    assert(t.arms[0].body == body);
    assert(shaped(t));
    assert(t.arms[0].bindings == bindings);
    let now = on(q, h);
    let env = q.env + zipped(bindings, values);
    let inner = Machine { env, ..now };
    assert(ev(q, t) == ev_arms(now, t, 0, owner, values));
    assert(ev_arms(now, t, 0, owner, values) == ev(inner, body));
    reveal_strlit("__field_result");
    reveal_strlit("_");
    assert("__field_result"@.len() != "_"@.len());
    let at = q.env.len() + k;
    assert(env[at] == ("__field_result"@, values[k])) by {
        assert(zipped(bindings, values)[k] == (bindings[k], values[k]));
    }
    found_is_bound(env, "__field_result"@);
    assert(body.names[0] == "__field_result"@);
    assert(find(env, "__field_result"@) == Some(at)) by {
        assert forall|j: int| at < j < env.len() implies (#[trigger] env[j]).0
            != "__field_result"@ by {
            let p = j - q.env.len();
            assert(env[j] == zipped(bindings, values)[p]);
            assert(declared[p] != declared[k]);
        }
        found_at(env, "__field_result"@, at);
    }
    assert(lookup(inner, "__field_result"@) is Ok);
    assert(shaped(body));
}

proof fn some_place(names: Seq<Name>, n: nat, name: Name, k: int)
    requires
        0 <= k < n <= names.len(),
        names[k] == name,
    ensures
        place_of(names, n, name) is Some,
    decreases n,
{
    if k < n - 1 {
        some_place(names, (n - 1) as nat, name, k);
    }
}

/// The integer that an arm's pattern is.
pub open spec fn is_int_arm(a: SourceArm, n: i64) -> bool {
    a.guard is None && (a.pattern matches Pattern::Literal(l, _) && l == Literal::Int(n))
}

/// Whether an arm's pattern is some integer other than `n`, and its body can be lowered.
pub open spec fn is_other_int_arm(a: SourceArm, n: i64) -> bool {
    a.guard is None && (a.pattern matches Pattern::Literal(l, _) && l matches Literal::Int(i) && i
        != n)
}

/// The scope of an arm that is chosen: an arm with a name has the value under it.
pub open spec fn arm_scope(env: Scope, a: SourceArm, v: Val) -> Scope {
    let inner = env.push(("__match_value"@, v));
    match a.pattern {
        Pattern::Ident(name, _) => inner.push((name@, v)),
        _ => inner,
    }
}

/// A match of an integer with integers evaluates the first arm that has it, and the last arm,
/// which takes everything, if there is no such arm. A last arm with a name has the value
/// under that name.
pub proof fn the_first_equal_literal_is_chosen(
    q: Machine,
    e: Source,
    ctx: LoweringContext,
    h: Cells,
    n: i64,
    k: int,
)
    requires
        e is Match,
        on_literals(e->Match_arms@),
        lowered(e, ctx) is Ok,
        means(q, *e->scrutinee, ctx) == Some((h, Val::Int(n))),
        0 <= k < e->Match_arms@.len(),
        forall|i: int| 0 <= i < k ==> is_other_int_arm(#[trigger] e->Match_arms@[i], n),
        is_int_arm(e->Match_arms@[k], n) || k == e->Match_arms@.len() - 1,
    ensures
        means(q, e, ctx) == means(
            Machine {
                heap: h,
                env: arm_scope(q.env, e->Match_arms@[k], Val::Int(n)),
                ..q
            },
            e->Match_arms@[k].body,
            ctx,
        ),
{
    let arms = e->Match_arms@;
    a_match_of_literals(e, ctx);
    let s = lowered(*e->scrutinee, ctx)->Ok_0;
    let chain = lowered_chain(arms, 0, ctx)->Ok_0;
    let inner = Machine { heap: h, env: q.env.push(("__match_value"@, Val::Int(n))), ..q };
    a_binding_is_evaluated(q, "__match_value"@, s, chain, h, Val::Int(n));
    chain_chooses(inner, arms, ctx, n, 0, k);
    assert(inner.env.drop_last() =~= q.env);
}

proof fn a_binding_is_evaluated(q: Machine, x: Name, s: Term, body: Term, h: Cells, v: Val)
    requires
        ev(q, s) == Some((h, v)),
    ensures
        ev(q, t_let(x, s, body)) == ev(Machine { heap: h, env: q.env.push((x, v)), ..q }, body),
{
    let t = t_let(x, s, body);
    assert(t.kids[0] == s && t.kids[1] == body && t.names[0] == x);
    assert(shaped(t));
}

proof fn a_match_of_literals(e: Source, ctx: LoweringContext)
    requires
        e is Match,
        on_literals(e->Match_arms@),
        lowered(e, ctx) is Ok,
    ensures
        lowered(*e->scrutinee, ctx) is Ok,
        lowered_chain(e->Match_arms@, 0, ctx) is Ok,
        lowered(e, ctx) == Ok::<Term, LowerFault>(
            t_let(
                "__match_value"@,
                lowered(*e->scrutinee, ctx)->Ok_0,
                lowered_chain(e->Match_arms@, 0, ctx)->Ok_0,
            ),
        ),
{
    let arms = e->Match_arms@;
    assert(!super::expr::names_the_whole(arms));
}

proof fn chain_chooses(
    q: Machine,
    arms: Seq<SourceArm>,
    ctx: LoweringContext,
    n: i64,
    i: nat,
    k: int,
)
    requires
        on_literals(arms),
        lowered_chain(arms, i, ctx) is Ok,
        q.env.len() > 0,
        q.env.last() == ("__match_value"@, Val::Int(n)),
        i <= k < arms.len(),
        forall|j: int| i <= j < k ==> is_other_int_arm(#[trigger] arms[j], n),
        is_int_arm(arms[k], n) || k == arms.len() - 1,
    ensures
        ev(q, lowered_chain(arms, i, ctx)->Ok_0) == means(
            Machine { env: arm_scope(q.env.drop_last(), arms[k], Val::Int(n)), ..q },
            arms[k].body,
            ctx,
        ),
    decreases arms.len() - i,
{
    let t = lowered_chain(arms, i, ctx)->Ok_0;
    let a = arms[i as int];
    let v = Val::Int(n);
    assert(q.env.drop_last().push(("__match_value"@, v)) =~= q.env);
    let value = t_var("__match_value"@);
    assert(value.names[0] == "__match_value"@ && shaped(value));
    assert(lookup(q, "__match_value"@) is Ok);
    assert(ev(q, value) == Some((q.heap, v)));
    if i + 1 == arms.len() {
        if let Pattern::Ident(name, _) = a.pattern {
            let b = lowered(a.body, ctx)->Ok_0;
            assert(t == t_let(name@, value, b));
            assert(t.kids[0] == value && t.kids[1] == b && t.names[0] == name@);
            assert(shaped(t));
        }
    } else {
        assert(a.pattern is Literal);
        let b = lowered(a.body, ctx)->Ok_0;
        let rest = lowered_chain(arms, i + 1, ctx)->Ok_0;
        assert(lowered_test(a, ctx) is Ok);
        let test = lowered_test(a, ctx)->Ok_0;
        assert(t.kids[0] == test && t.kids[1] == b && t.kids[2] == rest);
        assert(shaped(t));
        assert(a.guard is None);
        assert(test == t_compare(a.pattern));
        let l = a.pattern->Literal_0;
        let lit = t_literal(l);
        let m = l->Int_0;
        assert(l == Literal::Int(m));
        assert(shaped(lit));
        assert(ev(q, lit) == Some((q.heap, Val::Int(m))));
        assert(on(q, q.heap) == q);
        two_operands(q, Op::Binary(BinOp::Eq), value, lit, q.heap, v, q.heap, Val::Int(m));
        let vs = seq![v, Val::Int(m)];
        assert(vs[0] == v && vs[1] == Val::Int(m));
        assert(ev(q, test) == Some((q.heap, Val::Bool(n == m))));
        if n == m {
            assert(i == k);
        } else {
            chain_chooses(q, arms, ctx, n, i + 1, k);
        }
    }
}

/// Whether a term is the value that a literal gives to a field.
pub open spec fn is_given(
    fields: Seq<FieldInit>,
    name: Name,
    ctx: LoweringContext,
    t: Term,
) -> bool {
    exists|k: int|
        0 <= k < fields.len() && (#[trigger] fields[k]).name@ == name && lowered(
            fields[k].value,
            ctx,
        ) == Ok::<Term, LowerFault>(t)
}

/// Whether a literal gives a field.
pub open spec fn gives_field(fields: Seq<FieldInit>, name: Name) -> bool {
    exists|k: int| 0 <= k < fields.len() && (#[trigger] fields[k]).name@ == name
}

proof fn not_found(names: Seq<Name>, n: nat, name: Name)
    requires
        n <= names.len(),
        place_of(names, n, name) is None,
    ensures
        forall|i: int| 0 <= i < n ==> #[trigger] names[i] != name,
    decreases n,
{
    if n > 0 {
        not_found(names, (n - 1) as nat, name);
    }
}

proof fn values_are_in_place(
    fields: Seq<FieldInit>,
    declared: Seq<Name>,
    n: nat,
    spread: bool,
    tag: Name,
    span: Span,
    ctx: LoweringContext,
)
    requires
        n <= declared.len(),
        field_values(fields, declared, n, spread, tag, span, ctx) is Ok,
    ensures
        ({
            let vs = field_values(fields, declared, n, spread, tag, span, ctx)->Ok_0;
            &&& vs.len() == n
            &&& forall|i: int|
                0 <= i < n ==> is_given(fields, declared[i], ctx, #[trigger] vs[i]) || (spread
                    && !gives_field(fields, declared[i]) && vs[i] == t_var(
                    numbered("__spread"@, i as nat),
                ))
        }),
    decreases n,
{
    if n > 0 {
        let name = declared[n - 1];
        let names = init_names(fields);
        let before = field_values(fields, declared, (n - 1) as nat, spread, tag, span, ctx);
        assert(before is Ok);
        values_are_in_place(fields, declared, (n - 1) as nat, spread, tag, span, ctx);
        place_holds_name(names, fields.len(), name);
        let vs = field_values(fields, declared, n, spread, tag, span, ctx)->Ok_0;
        match place_of(names, fields.len(), name) {
            Some(k) => {
                assert(names[k] == fields[k].name@);
                assert(lowered(fields[k].value, ctx) is Ok);
                assert(vs == before->Ok_0.push(lowered(fields[k].value, ctx)->Ok_0));
                assert(is_given(fields, name, ctx, vs[n - 1]));
            },
            None => {
                not_found(names, fields.len(), name);
                assert forall|k: int| 0 <= k < fields.len() implies (#[trigger] fields[k]).name@
                    != name by {
                    assert(names[k] == fields[k].name@);
                }
                assert(!gives_field(fields, name));
                assert(vs == before->Ok_0.push(t_var(numbered("__spread"@, (n - 1) as nat))));
            },
        }
        assert forall|i: int| 0 <= i < n implies is_given(
            fields,
            declared[i],
            ctx,
            #[trigger] vs[i],
        ) || (spread && !gives_field(fields, declared[i]) && vs[i] == t_var(
            numbered("__spread"@, i as nat),
        )) by {
            if i < n - 1 {
                assert(vs[i] == before->Ok_0[i]);
            }
        }
    }
}

/// A struct literal without a spread has, at the place of each declared field, the value that
/// it gives to the field of that name, and it gives one to each.
pub proof fn a_literal_has_each_field_in_its_place(
    e: Source,
    ctx: LoweringContext,
    declared: Seq<Name>,
)
    requires
        e is StructLiteral,
        e->spread is None,
        ctx.fields_of(e->path.name@) == Some(declared),
        lowered(e, ctx) is Ok,
    ensures
        ({
            let t = lowered(e, ctx)->Ok_0;
            &&& t.op == Op::Ctor
            &&& t.names == seq![e->path.name@]
            &&& t.kids.len() == declared.len()
            &&& forall|i: int|
                0 <= i < declared.len() ==> is_given(
                    e->StructLiteral_fields@,
                    declared[i],
                    ctx,
                    #[trigger] t.kids[i],
                )
        }),
{
    assert(lowered(e, ctx) == super::expr::lowered_struct(e, ctx));
    let fields = e->StructLiteral_fields@;
    let tag = e->path.name@;
    let span = e->StructLiteral_span;
    let vs = field_values(fields, declared, declared.len(), false, tag, span, ctx);
    assert(super::expr::lowered_struct(e, ctx) is Ok);
    assert(vs is Ok);
    values_are_in_place(fields, declared, declared.len(), false, tag, span, ctx);
}

/// A struct literal with a spread takes the struct that is spread apart, every field under a
/// name of its own, and has at the place of each declared field the value that it gives, or
/// the one that stood at the same place.
pub proof fn a_spread_gives_the_other_fields(e: Source, ctx: LoweringContext, declared: Seq<Name>)
    requires
        e is StructLiteral,
        e->spread is Some,
        ctx.fields_of(e->path.name@) == Some(declared),
        lowered(e, ctx) is Ok,
    ensures
        ({
            let t = lowered(e, ctx)->Ok_0;
            let tag = e->path.name@;
            let fields = e->StructLiteral_fields@;
            &&& t.op == Op::Match
            &&& t.kids.len() == 1
            &&& lowered(*e->spread->0, ctx) == Ok::<Term, LowerFault>(t.kids[0])
            &&& t.arms.len() == 1
            &&& t.arms[0].tag == tag
            &&& t.arms[0].guard is None
            &&& t.arms[0].bindings.len() == declared.len()
            &&& forall|i: int, j: int|
                0 <= i < j < declared.len() ==> #[trigger] t.arms[0].bindings[i]
                    != #[trigger] t.arms[0].bindings[j]
            &&& t.arms[0].body.op == Op::Ctor
            &&& t.arms[0].body.names == seq![tag]
            &&& t.arms[0].body.kids.len() == declared.len()
            &&& forall|i: int|
                0 <= i < declared.len() ==> is_given(
                    fields,
                    declared[i],
                    ctx,
                    #[trigger] t.arms[0].body.kids[i],
                ) || (!gives_field(fields, declared[i]) && t.arms[0].body.kids[i] == t_var(
                    t.arms[0].bindings[i],
                ))
        }),
{
    assert(lowered(e, ctx) == super::expr::lowered_struct(e, ctx));
    let fields = e->StructLiteral_fields@;
    let tag = e->path.name@;
    let span = e->StructLiteral_span;
    let vs = field_values(fields, declared, declared.len(), true, tag, span, ctx);
    assert(super::expr::lowered_struct(e, ctx) is Ok);
    assert(vs is Ok);
    values_are_in_place(fields, declared, declared.len(), true, tag, span, ctx);
    let t = lowered(e, ctx)->Ok_0;
    let bindings = t.arms[0].bindings;
    assert forall|i: int| 0 <= i < declared.len() implies #[trigger] bindings[i] == numbered(
        "__spread"@,
        i as nat,
    ) by {}
    assert forall|i: int, j: int| 0 <= i < j < declared.len() implies #[trigger] bindings[i]
        != #[trigger] bindings[j] by {
        numbers_differ("__spread"@, i as nat, j as nat);
    }
    assert(t.arms[0].body.kids == vs->Ok_0);
}

proof fn no_repeat(names: Seq<Name>, n: nat)
    requires
        n <= names.len(),
    ensures
        first_repeat(names, n) is None <==> forall|i: int, j: int|
            0 <= i < j < n ==> #[trigger] names[i] != #[trigger] names[j],
    decreases n,
{
    if n > 0 {
        no_repeat(names, (n - 1) as nat);
        let last = names[n - 1];
        place_holds_name(names, (n - 1) as nat, last);
        if place_of(names, (n - 1) as nat, last) is None {
            not_found(names, (n - 1) as nat, last);
        } else {
            let i = place_of(names, (n - 1) as nat, last)->0;
            assert(names[i] == names[n - 1]);
        }
    }
}

proof fn no_extra(names: Seq<Name>, n: nat, declared: Seq<Name>)
    requires
        n <= names.len(),
    ensures
        first_extra(names, n, declared) is None <==> forall|i: int|
            0 <= i < n ==> declared.contains(#[trigger] names[i]),
    decreases n,
{
    if n > 0 {
        no_extra(names, (n - 1) as nat, declared);
        let last = names[n - 1];
        place_holds_name(declared, declared.len(), last);
        if place_of(declared, declared.len(), last) is None {
            not_found(declared, declared.len(), last);
            assert(!declared.contains(names[n - 1]));
        } else {
            let i = place_of(declared, declared.len(), last)->0;
            assert(declared[i] == last);
        }
    }
}

proof fn no_fault_within(p: Pattern, ctx: LoweringContext, n: nat)
    ensures
        subs_fault(p, ctx, n) is None <==> forall|i: int|
            0 <= i < n ==> (#[trigger] sub_fault(p, ctx, i)) is None,
    decreases n,
{
    if n > 0 {
        no_fault_within(p, ctx, (n - 1) as nat);
        assert(sub_fault(p, ctx, n - 1) is None || sub_fault(p, ctx, n - 1) is Some);
    }
}

/// The field at a place of a struct pattern is the one that it lists under the name declared
/// there.
pub proof fn a_struct_pattern_lists_fields_by_name(
    p: Pattern,
    ctx: LoweringContext,
    declared: Seq<Name>,
    i: int,
)
    requires
        p is Struct,
        ctx.fields_of(p->Struct_path.name@) == Some(declared),
        0 <= i < declared.len(),
    ensures
        part(p, ctx, i) matches Some(q) ==> exists|k: int|
            0 <= k < p->Struct_fields@.len() && (#[trigger] p->Struct_fields@[k]).name@
                == declared[i] && p->Struct_fields@[k].pattern == q,
        part(p, ctx, i) is None ==> forall|k: int|
            0 <= k < p->Struct_fields@.len() ==> (#[trigger] p->Struct_fields@[k]).name@
                != declared[i],
{
    let fields = p->Struct_fields@;
    let names = listed(fields);
    place_holds_name(names, fields.len(), declared[i]);
    match place_of(names, fields.len(), declared[i]) {
        Some(k) => {
            assert(names[k] == fields[k].name@);
        },
        None => {
            not_found(names, fields.len(), declared[i]);
            assert forall|k: int| 0 <= k < fields.len() implies (#[trigger] fields[k]).name@
                != declared[i] by {
                assert(names[k] == fields[k].name@);
            }
        },
    }
}

/// A struct pattern is accepted if and only if it lists no field twice, none that is not
/// declared, every field that is declared unless it ends in `..`, and for each of them a name,
/// a wildcard or a pattern with a tag.
pub proof fn a_struct_pattern_is_accepted_when_it_covers_the_fields(
    p: Pattern,
    ctx: LoweringContext,
    declared: Seq<Name>,
)
    requires
        p is Struct,
        ctx.fields_of(p->Struct_path.name@) == Some(declared),
    ensures
        ({
            let fields = p->Struct_fields@;
            pattern_fault(p, ctx) is None <==> {
                &&& forall|i: int, j: int|
                    0 <= i < j < fields.len() ==> (#[trigger] fields[i]).name@
                        != (#[trigger] fields[j]).name@
                &&& forall|k: int|
                    0 <= k < fields.len() ==> declared.contains((#[trigger] fields[k]).name@)
                        && !(fields[k].pattern is Literal) && !(fields[k].pattern is Other)
                &&& p->has_rest || forall|i: int|
                    0 <= i < declared.len() ==> lists(fields, #[trigger] declared[i])
            }
        }),
{
    let fields = p->Struct_fields@;
    let names = listed(fields);
    no_repeat(names, fields.len());
    no_extra(names, fields.len(), declared);
    no_fault_within(p, ctx, declared.len());
    assert forall|k: int| 0 <= k < fields.len() implies names[k] == (#[trigger] fields[k]).name@ by {}
    let apart = forall|i: int, j: int|
        0 <= i < j < fields.len() ==> (#[trigger] fields[i]).name@ != (#[trigger] fields[j]).name@;
    let known = forall|k: int|
        0 <= k < fields.len() ==> declared.contains((#[trigger] fields[k]).name@);
    let plain = forall|k: int|
        0 <= k < fields.len() ==> !((#[trigger] fields[k]).pattern is Literal) && !(
        fields[k].pattern is Other);
    let covered = p->has_rest || forall|i: int|
        0 <= i < declared.len() ==> lists(fields, #[trigger] declared[i]);
    assert(apart <==> first_repeat(names, fields.len()) is None) by {
        if apart {
            assert forall|i: int, j: int| 0 <= i < j < fields.len() implies #[trigger] names[i]
                != #[trigger] names[j] by {
                assert(fields[i].name@ != fields[j].name@);
            }
        }
        if first_repeat(names, fields.len()) is None {
            assert forall|i: int, j: int| 0 <= i < j < fields.len() implies (
            #[trigger] fields[i]).name@ != (#[trigger] fields[j]).name@ by {
                assert(names[i] != names[j]);
            }
        }
    }
    assert(known <==> first_extra(names, fields.len(), declared) is None) by {
        if known {
            assert forall|i: int| 0 <= i < fields.len() implies declared.contains(
                #[trigger] names[i],
            ) by {
                assert(declared.contains(fields[i].name@));
            }
        }
        if first_extra(names, fields.len(), declared) is None {
            assert forall|k: int| 0 <= k < fields.len() implies declared.contains(
                (#[trigger] fields[k]).name@,
            ) by {
                assert(declared.contains(names[k]));
            }
        }
    }
    if apart && known && plain && covered {
        assert forall|i: int| 0 <= i < declared.len() implies (#[trigger] sub_fault(p, ctx, i)) is None by {
            a_struct_pattern_lists_fields_by_name(p, ctx, declared, i);
            if !p->has_rest {
                assert(lists(fields, declared[i]));
            }
        }
    }
    if pattern_fault(p, ctx) is None {
        assert(subs_fault(p, ctx, declared.len()) is None);
        assert(plain) by {
            assert forall|k: int| 0 <= k < fields.len() implies !((
            #[trigger] fields[k]).pattern is Literal) && !(fields[k].pattern is Other) by {
                assert(declared.contains(fields[k].name@));
                let i = choose|i: int| 0 <= i < declared.len() && declared[i] == fields[k].name@;
                a_struct_pattern_lists_fields_by_name(p, ctx, declared, i);
                assert(sub_fault(p, ctx, i) is None);
                let l = choose|l: int|
                    0 <= l < fields.len() && (#[trigger] fields[l]).name@ == declared[i]
                        && fields[l].pattern == part(p, ctx, i)->0;
                if l < k {
                    assert(fields[l].name@ != fields[k].name@);
                } else if k < l {
                    assert(fields[k].name@ != fields[l].name@);
                }
            }
        }
        if !p->has_rest {
            assert forall|i: int| 0 <= i < declared.len() implies lists(
                fields,
                #[trigger] declared[i],
            ) by {
                a_struct_pattern_lists_fields_by_name(p, ctx, declared, i);
                assert(sub_fault(p, ctx, i) is None);
            }
        }
    }
}

/// Whether a pattern lists a field.
pub open spec fn lists(fields: Seq<FieldPattern>, name: Name) -> bool {
    exists|k: int| 0 <= k < fields.len() && (#[trigger] fields[k]).name@ == name
}

} // verus!
