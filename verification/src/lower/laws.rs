//! What holds of all lowering.

use vstd::prelude::*;
use crate::ast::{BinaryOp, Expr as Source, FieldInit, Pattern, Span};
use crate::ir::{Name, Term};
use crate::names::{
    decimal, decimal_injective, decimal_is_digits, decimal_nonempty,
    decimal_starts_with_digit,
};
use super::context::LoweringContext;
use super::error::LowerFault;
use super::expr::{field_values, init_names, lowered, lowered_list, piped, t_call};
use super::pattern::{
    below, nested_before, nests, numbered, place_holds_name, place_of, sub_name, tuple_name,
};

verus! {

/// Whether a name starts with a digit, as no identifier does.
pub open spec fn starts_with_digit(s: Name) -> bool {
    s.len() > 0 && '0' <= s[0] <= '9'
}

/// The tags of tuples, ranges and arrays start with a digit, so none of them is the name of
/// a struct or a variant.
pub proof fn made_up_tags_are_no_identifiers(arity: nat)
    ensures
        starts_with_digit(tuple_name(arity)),
        starts_with_digit("0Range"@),
        starts_with_digit("0Array"@),
{
    decimal_starts_with_digit(arity);
    reveal_strlit("0Range");
    reveal_strlit("0Array");
    assert(tuple_name(arity)[0] == decimal(arity)[0]);
}

/// Tuples of different lengths have different tags.
pub proof fn tuple_tags_differ(a: nat, b: nat)
    requires
        a != b,
    ensures
        tuple_name(a) != tuple_name(b),
{
    reveal_strlit("Tuple");
    if tuple_name(a) == tuple_name(b) {
        let n = tuple_name(a).len();
        assert(tuple_name(a).take(n - 5) =~= decimal(a));
        assert(tuple_name(b).take(n - 5) =~= decimal(b));
        decimal_injective(a, b);
    }
}

/// `x |> f(args)` calls what `f(args)` calls, with `x` as the last argument.
pub proof fn a_pipe_appends_the_last_argument(
    x: Source,
    callee: Source,
    args: Vec<Source>,
    call_span: Span,
    span: Span,
    ctx: LoweringContext,
    tx: Term,
    tc: Term,
    targs: Seq<Term>,
)
    requires
        lowered(x, ctx) == Ok::<Term, LowerFault>(tx),
        lowered(callee, ctx) == Ok::<Term, LowerFault>(tc),
        lowered_list(args@, args@.len(), ctx) == Ok::<Seq<Term>, LowerFault>(targs),
    ensures
        lowered(
            Source::Binary {
                op: BinaryOp::Pipe,
                lhs: Box::new(x),
                rhs: Box::new(Source::Call { callee: Box::new(callee), args, span: call_span }),
                span,
            },
            ctx,
        ) == Ok::<Term, LowerFault>(t_call(tc, targs.push(tx))),
{
    let e = Source::Binary {
        op: BinaryOp::Pipe,
        lhs: Box::new(x),
        rhs: Box::new(Source::Call { callee: Box::new(callee), args, span: call_span }),
        span,
    };
    assert(piped(e, ctx) == Ok::<Term, LowerFault>(t_call(tc, targs.push(tx))));
    assert(lowered(e, ctx) == piped(e, ctx));
}

/// The order in which a literal lists its fields does not matter: what is built has them in
/// declared order.
pub proof fn fields_stand_in_declared_order(
    a: Seq<FieldInit>,
    b: Seq<FieldInit>,
    declared: Seq<Name>,
    n: nat,
    spread: bool,
    tag: Name,
    span: Span,
    ctx: LoweringContext,
)
    requires
        forall|name: Name| #[trigger]
            declared.contains(name) ==> same_field(a, b, name),
    ensures
        field_values(a, declared, n, spread, tag, span, ctx) == field_values(
            b,
            declared,
            n,
            spread,
            tag,
            span,
            ctx,
        ),
    decreases n,
{
    if 0 < n <= declared.len() {
        fields_stand_in_declared_order(
            a,
            b,
            declared,
            (n - 1) as nat,
            spread,
            tag,
            span,
            ctx,
        );
        assert(declared.contains(declared[n - 1]));
        place_holds_name(init_names(a), a.len(), declared[n - 1]);
        place_holds_name(init_names(b), b.len(), declared[n - 1]);
    }
}

/// Whether two lists of fields give the same value, or both none, for a name.
pub open spec fn same_field(a: Seq<FieldInit>, b: Seq<FieldInit>, name: Name) -> bool {
    match (place_of(init_names(a), a.len(), name), place_of(init_names(b), b.len(), name)) {
        (Some(i), Some(j)) => a[i].value == b[j].value,
        (None, None) => true,
        _ => false,
    }
}

/// What the made-up names inside a pattern start with. The pattern is given by its path: at
/// each level, the how-manyth nested pattern it is or stands in.
pub open spec fn word_of(path: Seq<nat>) -> Name
    decreases path.len(), 1nat,
{
    if path.len() == 0 {
        "__nested"@
    } else {
        below(nested_name(path))
    }
}

/// The made-up name of the nested pattern at a path.
pub open spec fn nested_name(path: Seq<nat>) -> Name
    decreases path.len(), 0nat,
{
    if path.len() == 0 {
        Seq::empty()
    } else {
        numbered(word_of(path.drop_last()), path.last())
    }
}

/// A word that made-up names start with does not end in a digit.
proof fn words_end_in_no_digit(path: Seq<nat>)
    ensures
        word_of(path).len() > 0,
        !('0' <= word_of(path).last() <= '9'),
{
    reveal_strlit("__nested");
    reveal_strlit("_");
}

/// A word that ends in no digit and a number can be told apart again.
proof fn word_and_number_come_apart(a: Name, x: nat, b: Name, y: nat)
    requires
        numbered(a, x) == numbered(b, y),
        a.len() > 0 && !('0' <= a.last() <= '9'),
        b.len() > 0 && !('0' <= b.last() <= '9'),
    ensures
        a == b,
        x == y,
{
    let s = numbered(a, x);
    decimal_nonempty(x);
    decimal_nonempty(y);
    assert(s.len() == a.len() + decimal(x).len());
    assert(numbered(b, y).len() == b.len() + decimal(y).len());
    if a.len() > b.len() {
        assert(s[a.len() - 1] == a.last());
        assert(numbered(b, y)[a.len() - 1] == decimal(y)[a.len() - 1 - b.len()]);
        decimal_is_digits(y, a.len() - 1 - b.len());
    } else if a.len() < b.len() {
        assert(numbered(b, y)[b.len() - 1] == b.last());
        assert(s[b.len() - 1] == decimal(x)[b.len() - 1 - a.len()]);
        decimal_is_digits(x, b.len() - 1 - a.len());
    } else {
        assert(a =~= s.take(a.len() as int));
        assert(b =~= numbered(b, y).take(a.len() as int));
        assert(decimal(x) =~= s.skip(a.len() as int));
        assert(decimal(y) =~= numbered(b, y).skip(a.len() as int));
        decimal_injective(x, y);
    }
}

/// Nested patterns have made-up names of their own: those at different places of a pattern,
/// at whatever depth, have different names.
pub proof fn nested_names_differ(a: Seq<nat>, b: Seq<nat>)
    requires
        a.len() > 0,
        b.len() > 0,
        a != b,
    ensures
        nested_name(a) != nested_name(b),
    decreases a.len(),
{
    let p = a.drop_last();
    let q = b.drop_last();
    if nested_name(a) == nested_name(b) {
        words_end_in_no_digit(p);
        words_end_in_no_digit(q);
        word_and_number_come_apart(word_of(p), a.last(), word_of(q), b.last());
        assert(a =~= p.push(a.last()));
        assert(b =~= q.push(b.last()));
        reveal_strlit("__nested");
        reveal_strlit("_");
        if p.len() > 0 && q.len() > 0 {
            let n = nested_name(p);
            let m = nested_name(q);
            assert(n =~= below(n).drop_last());
            assert(m =~= below(m).drop_last());
            nested_names_differ(p, q);
        } else if p.len() > 0 {
            assert(word_of(p).last() == '_');
            assert(word_of(q).last() == 'd');
        } else if q.len() > 0 {
            assert(word_of(q).last() == '_');
            assert(word_of(p).last() == 'd');
        } else {
            assert(p =~= q);
        }
    }
}

/// The nested patterns of one pattern are numbered apart, and named by their paths.
pub proof fn siblings_are_numbered_apart(
    p: Pattern,
    ctx: LoweringContext,
    path: Seq<nat>,
    i: nat,
    j: nat,
)
    requires
        i < j,
        nests(p, ctx, i as int),
        nests(p, ctx, j as int),
    ensures
        nested_before(p, ctx, i) < nested_before(p, ctx, j),
        sub_name(p, ctx, word_of(path), i as int) == nested_name(
            path.push(nested_before(p, ctx, i)),
        ),
        sub_name(p, ctx, word_of(path), i as int) != sub_name(p, ctx, word_of(path), j as int),
{
    let x = nested_before(p, ctx, i);
    let y = nested_before(p, ctx, j);
    nested_count_grows(p, ctx, i + 1, j);
    assert(path.push(x).drop_last() =~= path);
    assert(path.push(y).drop_last() =~= path);
    assert(path.push(x).last() != path.push(y).last());
    nested_names_differ(path.push(x), path.push(y));
}

pub(crate) proof fn nested_count_grows(p: Pattern, ctx: LoweringContext, i: nat, j: nat)
    requires
        i <= j,
    ensures
        nested_before(p, ctx, i) <= nested_before(p, ctx, j),
    decreases j,
{
    if i < j {
        nested_count_grows(p, ctx, i, (j - 1) as nat);
    }
}

} // verus!
