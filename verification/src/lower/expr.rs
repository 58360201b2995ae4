//! Lowering expressions.

use vstd::prelude::*;
use crate::ast::{
    expr_span, pattern_span, BinaryOp, Block, Expr as Source, FieldInit, Literal,
    MatchArm as SourceArm, Pattern, SelectArm as SourceSelectArm, Span, Stmt, UnaryOp,
};
use crate::ir::{
    arm_term, arm_terms, kids0, kids1, kids2, kids3, leaf, mk_assign, mk_let, mk_var, names0, names1,
    names2, names_of, node, prepend, shaped, t_assign, t_let, t_var, terms, ArmTerm, BinOp, Expr, MatchArm,
    Name, Op, Parts, Term, UnOp,
};
use crate::names::copy_names;
use super::context::LoweringContext;
use super::error::{LowerError, LowerFault};
use super::pattern::{
    bindings_of, destructured, extra_stays, find_name, first_extra, first_repeat, gives, has_nested,
    lower_tag_pattern, mk_match_one, nested_before, numbered, numbered_name, pattern_fault,
    place_of, place_stays, repeat_stays, sub_count, t_match_one, tag_of, tuple_name, tuple_tag,
    wrap_destructure, wrap_nested_destructures, wrapped,
};

verus! {

/// A constructed value.
pub open spec fn t_ctor(tag: Name, fields: Seq<Term>) -> Term {
    node(Op::Ctor, seq![tag], fields)
}

/// A call.
pub open spec fn t_call(callee: Term, args: Seq<Term>) -> Term {
    node(Op::Call, Seq::empty(), seq![callee] + args)
}

/// A node of one child, unless there is an error.
pub open spec fn with_one(op: Op, a: Result<Term, LowerFault>) -> Result<Term, LowerFault> {
    match a {
        Err(e) => Err(e),
        Ok(a) => Ok(node(op, Seq::empty(), seq![a])),
    }
}

/// A node of two children, unless there is an error. The first error counts.
pub open spec fn with_two(
    op: Op,
    names: Seq<Name>,
    a: Result<Term, LowerFault>,
    b: Result<Term, LowerFault>,
) -> Result<Term, LowerFault> {
    match a {
        Err(e) => Err(e),
        Ok(a) => match b {
            Err(e) => Err(e),
            Ok(b) => Ok(node(op, names, seq![a, b])),
        },
    }
}

/// A node of three children, unless there is an error. The first error counts.
pub open spec fn with_three(
    op: Op,
    names: Seq<Name>,
    a: Result<Term, LowerFault>,
    b: Result<Term, LowerFault>,
    c: Result<Term, LowerFault>,
) -> Result<Term, LowerFault> {
    match a {
        Err(e) => Err(e),
        Ok(a) => match b {
            Err(e) => Err(e),
            Ok(b) => match c {
                Err(e) => Err(e),
                Ok(c) => Ok(node(op, names, seq![a, b, c])),
            },
        },
    }
}

/// The operator of the intermediate representation.
pub open spec fn binop(op: BinaryOp) -> BinOp {
    match op {
        BinaryOp::Add => BinOp::Add,
        BinaryOp::Sub => BinOp::Sub,
        BinaryOp::Mul => BinOp::Mul,
        BinaryOp::Div => BinOp::Div,
        BinaryOp::Rem => BinOp::Rem,
        BinaryOp::Eq => BinOp::Eq,
        BinaryOp::Ne => BinOp::Ne,
        BinaryOp::Lt => BinOp::Lt,
        BinaryOp::Gt => BinOp::Gt,
        BinaryOp::Le => BinOp::Le,
        BinaryOp::Ge => BinOp::Ge,
        BinaryOp::And => BinOp::And,
        _ => BinOp::Or,
    }
}

/// The constructor of a variant as a function value.
pub open spec fn constructor(tag: Name, arity: nat) -> Term {
    let params = Seq::new(arity, |i: int| numbered("__ctor_arg"@, i as nat));
    node(
        Op::Closure(None),
        params,
        seq![t_ctor(tag, Seq::new(arity, |i: int| t_var(numbered("__ctor_arg"@, i as nat))))],
    )
}

/// The operator that a method with so many arguments stands for.
pub open spec fn method(name: Name, args: nat) -> Option<Op> {
    if args == 0 {
        if name == "join"@ {
            Some(Op::TaskJoin)
        } else if name == "recv"@ {
            Some(Op::ChannelRecv)
        } else if name == "len"@ {
            Some(Op::ArrayLen)
        } else if name == "pop"@ {
            Some(Op::ArrayPop)
        } else if name == "runes"@ {
            Some(Op::StrRunes)
        } else if name == "trim"@ {
            Some(Op::StrTrim)
        } else if name == "to_upper"@ {
            Some(Op::StrToUpper)
        } else if name == "to_lower"@ {
            Some(Op::StrToLower)
        } else if name == "to_string"@ {
            Some(Op::ToString)
        } else if name == "get"@ {
            Some(Op::RefGet)
        } else {
            None
        }
    } else if args == 1 {
        if name == "send"@ {
            Some(Op::ChannelSend)
        } else if name == "push"@ {
            Some(Op::ArrayPush)
        } else if name == "remove"@ {
            Some(Op::ArrayRemove)
        } else if name == "concat"@ {
            Some(Op::StrConcat)
        } else if name == "split"@ {
            Some(Op::StrSplit)
        } else if name == "contains"@ {
            Some(Op::StrContains)
        } else if name == "starts_with"@ {
            Some(Op::StrStartsWith)
        } else if name == "ends_with"@ {
            Some(Op::StrEndsWith)
        } else if name == "set"@ {
            Some(Op::RefSet)
        } else {
            None
        }
    } else if args == 2 && name == "set"@ {
        Some(Op::ArraySet)
    } else if args == 2 && name == "replace"@ {
        Some(Op::StrReplace)
    } else {
        None
    }
}

/// A loop over the indices of the array bound to `arr`.
pub open spec fn t_index_loop(var: Name, arr: Name, body: Term) -> Term {
    node(
        Op::For,
        seq![var],
        seq![
            leaf(Op::Int(0)),
            node(Op::ArrayLen, Seq::empty(), seq![t_var(arr)]),
            body,
        ],
    )
}

/// The element of one variable at another.
pub open spec fn t_element(arr: Name, index: Name) -> Term {
    node(Op::Index, Seq::empty(), seq![t_var(arr), t_var(index)])
}

/// Appends to the array that a variable holds.
pub open spec fn t_append(out: Name, value: Term) -> Term {
    t_assign(
        out,
        node(Op::ArrayPush, Seq::empty(), seq![t_var(out), value]),
        leaf(Op::Unit),
    )
}

/// An array of the results of a function on each element.
pub open spec fn t_map(arr: Term, f: Term) -> Term {
    t_let(
        "__map_arr"@,
        arr,
        t_let(
            "__map_out"@,
            t_ctor("0Array"@, Seq::empty()),
            t_let(
                "_"@,
                t_index_loop(
                    "__map_i"@,
                    "__map_arr"@,
                    t_append(
                        "__map_out"@,
                        t_call(f, seq![t_element("__map_arr"@, "__map_i"@)]),
                    ),
                ),
                t_var("__map_out"@),
            ),
        ),
    )
}

/// An array of the elements on which a function holds.
pub open spec fn t_filter(arr: Term, f: Term) -> Term {
    t_let(
        "__filter_arr"@,
        arr,
        t_let(
            "__filter_out"@,
            t_ctor("0Array"@, Seq::empty()),
            t_let(
                "_"@,
                t_index_loop(
                    "__filter_i"@,
                    "__filter_arr"@,
                    t_let(
                        "__filter_elem"@,
                        t_element("__filter_arr"@, "__filter_i"@),
                        node(
                            Op::If,
                            Seq::empty(),
                            seq![
                                t_call(f, seq![t_var("__filter_elem"@)]),
                                t_append("__filter_out"@, t_var("__filter_elem"@)),
                                leaf(Op::Unit),
                            ],
                        ),
                    ),
                ),
                t_var("__filter_out"@),
            ),
        ),
    )
}

/// The elements combined by a function, starting from `init`.
pub open spec fn t_fold(arr: Term, init: Term, f: Term) -> Term {
    t_let(
        "__fold_arr"@,
        arr,
        t_let(
            "__fold_acc"@,
            init,
            t_let(
                "_"@,
                t_index_loop(
                    "__fold_i"@,
                    "__fold_arr"@,
                    t_assign(
                        "__fold_acc"@,
                        t_call(
                            f,
                            seq![t_var("__fold_acc"@), t_element("__fold_arr"@, "__fold_i"@)],
                        ),
                        leaf(Op::Unit),
                    ),
                ),
                t_var("__fold_acc"@),
            ),
        ),
    )
}

/// Several expressions lowered in order, as far as the first `n`.
pub open spec fn lowered_list(s: Seq<Source>, n: nat, ctx: LoweringContext) -> Result<
    Seq<Term>,
    LowerFault,
>
    decreases s, n,
{
    if n == 0 || n > s.len() {
        Ok(Seq::empty())
    } else {
        match lowered_list(s, (n - 1) as nat, ctx) {
            Err(e) => Err(e),
            Ok(ts) => match lowered(s[n - 1], ctx) {
                Err(e) => Err(e),
                Ok(t) => Ok(ts.push(t)),
            },
        }
    }
}

/// An expression lowered, or why it cannot be.
pub open spec fn lowered(e: Source, ctx: LoweringContext) -> Result<Term, LowerFault>
    decreases e, 2nat,
{
    match e {
        Source::Int(n, _) => Ok(leaf(Op::Int(n))),
        Source::Float(b, _) => Ok(leaf(Op::Float(b))),
        Source::Bool(b, _) => Ok(leaf(Op::Bool(b))),
        Source::Str(s, _) => Ok(node(Op::Str, seq![s@], Seq::empty())),
        Source::Ident(name, _) => match ctx.arity_of(name@) {
            Some(arity) => if arity == 0 {
                Ok(t_ctor(name@, Seq::empty()))
            } else {
                Ok(constructor(name@, arity as nat))
            },
            None => Ok(t_var(name@)),
        },
        Source::Tuple(elems, _) => if elems@.len() == 0 {
            Ok(leaf(Op::Unit))
        } else {
            match lowered_list(elems@, elems@.len(), ctx) {
                Err(e) => Err(e),
                Ok(fields) => Ok(t_ctor(tuple_name(elems@.len()), fields)),
            }
        },
        Source::ArrayLiteral(elems, _) => match lowered_list(elems@, elems@.len(), ctx) {
            Err(e) => Err(e),
            Ok(fields) => Ok(t_ctor("0Array"@, fields)),
        },
        Source::Index { base, index, .. } => with_two(
            Op::Index,
            Seq::empty(),
            lowered(*base, ctx),
            lowered(*index, ctx),
        ),
        Source::Unary { op, expr, .. } => with_one(
            Op::Unary(
                match op {
                    UnaryOp::Neg => UnOp::Neg,
                    UnaryOp::Not => UnOp::Not,
                },
            ),
            lowered(*expr, ctx),
        ),
        Source::Binary { op, lhs, rhs, .. } => match op {
            BinaryOp::Pipe => piped(e, ctx),
            BinaryOp::Range => with_two(
                Op::Ctor,
                seq!["0Range"@],
                lowered(*lhs, ctx),
                lowered(*rhs, ctx),
            ),
            _ => with_two(
                Op::Binary(binop(op)),
                Seq::empty(),
                lowered(*lhs, ctx),
                lowered(*rhs, ctx),
            ),
        },
        Source::Block(block, _) => lowered_block(*block, ctx),
        Source::If { cond, then_branch, else_branch, .. } => with_three(
            Op::If,
            Seq::empty(),
            lowered(*cond, ctx),
            lowered_block(*then_branch, ctx),
            match else_branch {
                Some(other) => lowered(*other, ctx),
                None => Ok(leaf(Op::Unit)),
            },
        ),
        Source::Call { .. } => lowered_call(e, ctx),
        Source::Field { .. } => lowered_field(e, ctx),
        Source::StructLiteral { .. } => lowered_struct(e, ctx),
        Source::Match { scrutinee, arms, .. } => match lowered(*scrutinee, ctx) {
            Err(e) => Err(e),
            Ok(s) => if names_the_whole(arms@) {
                lowered_whole(arms@, s, ctx)
            } else if on_literals(arms@) {
                match lowered_chain(arms@, 0, ctx) {
                    Err(e) => Err(e),
                    Ok(chain) => Ok(t_let("__match_value"@, s, chain)),
                }
            } else {
                match lowered_arms(arms@, arms@.len(), ctx) {
                Err(e) => Err(e),
                Ok(arms) => Ok(
                    Term {
                        op: Op::Match,
                        names: Seq::empty(),
                        types: None,
                        kids: seq![s],
                        arms,
                    },
                ),
                }
            },
        },
        Source::Select { arms, .. } => match lowered_select(arms@, arms@.len(), ctx) {
            Err(e) => Err(e),
            Ok(kids) => Ok(node(Op::Select, Seq::empty(), kids)),
        },
        Source::For { .. } => lowered_for(e, ctx),
        Source::Unsafe(block, _) => lowered_block(*block, ctx),
        Source::Spawn(block, _) => with_one(Op::Spawn, lowered_block(*block, ctx)),
        Source::Closure { params, body, .. } => match lowered(*body, ctx) {
            Err(e) => Err(e),
            Ok(b) => Ok(node(Op::Closure(None), names_of(params@), seq![b])),
        },
        Source::GenericInst { .. } | Source::Other(_) => Err(
            LowerFault::UnsupportedExpr(expr_span(e)),
        ),
    }
}

/// `lhs |> rhs`: the left side becomes the last argument of the call on the right.
pub open spec fn piped(e: Source, ctx: LoweringContext) -> Result<Term, LowerFault>
    decreases e, 0nat,
{
    match e {
        Source::Binary { lhs, rhs, .. } => match lowered(*lhs, ctx) {
            Err(e) => Err(e),
            Ok(l) => match *rhs {
                Source::Call { callee, args, .. } => match lowered_list(
                    args@,
                    args@.len(),
                    ctx,
                ) {
                    Err(e) => Err(e),
                    Ok(given) => match lowered(*callee, ctx) {
                        Err(e) => Err(e),
                        Ok(c) => Ok(t_call(c, given.push(l))),
                    },
                },
                _ => match lowered(*rhs, ctx) {
                    Err(e) => Err(e),
                    Ok(c) => Ok(t_call(c, seq![l])),
                },
            },
        },
        _ => Err(LowerFault::UnsupportedExpr(expr_span(e))),
    }
}

/// Whether an expression is `channel[T]`.
pub open spec fn makes_channel(e: Source) -> bool {
    match e {
        Source::GenericInst { callee, args, .. } => args == 1 && match *callee {
            Source::Ident(name, _) => name@ == "channel"@,
            _ => false,
        },
        _ => false,
    }
}

/// Whether an expression is `ref`.
pub open spec fn makes_ref(e: Source) -> bool {
    match e {
        Source::Ident(name, _) => name@ == "ref"@,
        _ => false,
    }
}

/// The variant that a callee may name.
pub open spec fn variant_name(callee: Source) -> Option<Name> {
    match callee {
        Source::Ident(name, _) => Some(name@),
        Source::Field { name, .. } => Some(name@),
        _ => None,
    }
}

/// A call of something that is not a built-in method: a variant, or a function.
pub open spec fn lowered_plain_call(e: Source, ctx: LoweringContext) -> Result<Term, LowerFault>
    decreases e, 0nat,
{
    match e {
        Source::Call { callee, args, span } => {
            let arity = match variant_name(*callee) {
                Some(tag) => ctx.arity_of(tag),
                None => None,
            };
            match arity {
                Some(arity) => if args@.len() != arity {
                    Err(
                        LowerFault::VariantArity {
                            tag: variant_name(*callee)->0,
                            expected: arity,
                            found: args@.len() as usize,
                            span,
                        },
                    )
                } else {
                    match lowered_list(args@, args@.len(), ctx) {
                        Err(e) => Err(e),
                        Ok(fields) => Ok(t_ctor(variant_name(*callee)->0, fields)),
                    }
                },
                None => match lowered(*callee, ctx) {
                    Err(e) => Err(e),
                    Ok(c) => match lowered_list(args@, args@.len(), ctx) {
                        Err(e) => Err(e),
                        Ok(args) => Ok(t_call(c, args)),
                    },
                },
            }
        },
        _ => Err(LowerFault::UnsupportedExpr(expr_span(e))),
    }
}

/// A call. Built-in methods are told by their name and the number of arguments.
pub open spec fn lowered_call(e: Source, ctx: LoweringContext) -> Result<Term, LowerFault>
    decreases e, 1nat,
{
    match e {
        Source::Call { callee, args, .. } => match *callee {
            Source::Field { base, name, .. } => match method(name@, args@.len()) {
                Some(op) => match lowered(*base, ctx) {
                    Err(e) => Err(e),
                    Ok(b) => match lowered_list(args@, args@.len(), ctx) {
                        Err(e) => Err(e),
                        Ok(args) => Ok(node(op, Seq::empty(), seq![b] + args)),
                    },
                },
                None => if name@ == "map"@ && args@.len() == 1 {
                    match lowered(*base, ctx) {
                        Err(e) => Err(e),
                        Ok(arr) => match lowered(args@[0], ctx) {
                            Err(e) => Err(e),
                            Ok(f) => Ok(t_map(arr, f)),
                        },
                    }
                } else if name@ == "filter"@ && args@.len() == 1 {
                    match lowered(*base, ctx) {
                        Err(e) => Err(e),
                        Ok(arr) => match lowered(args@[0], ctx) {
                            Err(e) => Err(e),
                            Ok(f) => Ok(t_filter(arr, f)),
                        },
                    }
                } else if name@ == "fold"@ && args@.len() == 2 {
                    match lowered(*base, ctx) {
                        Err(e) => Err(e),
                        Ok(arr) => match lowered(args@[0], ctx) {
                            Err(e) => Err(e),
                            Ok(init) => match lowered(args@[1], ctx) {
                                Err(e) => Err(e),
                                Ok(f) => Ok(t_fold(arr, init, f)),
                            },
                        },
                    }
                } else {
                    lowered_plain_call(e, ctx)
                },
            },
            _ => if args@.len() == 0 && makes_channel(*callee) {
                Ok(node(Op::Channel, seq!["2Tuple"@], Seq::empty()))
            } else if args@.len() == 1 && makes_ref(*callee) {
                with_one(Op::RefNew, lowered(args@[0], ctx))
            } else {
                lowered_plain_call(e, ctx)
            },
        },
        _ => Err(LowerFault::UnsupportedExpr(expr_span(e))),
    }
}

/// A field access: a match that binds the one field and ignores the others.
pub open spec fn lowered_field(e: Source, ctx: LoweringContext) -> Result<Term, LowerFault>
    decreases e, 0nat,
{
    match e {
        Source::Field { base, name, span } => match ctx.owner_of(span) {
            None => Err(LowerFault::UnresolvedField(span)),
            Some(owner) => match ctx.fields_of(owner) {
                None => Err(LowerFault::UnknownStruct { name: owner, span }),
                Some(declared) => if place_of(declared, declared.len(), name@) is None {
                    Err(LowerFault::NoSuchField { tag: owner, field: name@, span })
                } else {
                    match lowered(*base, ctx) {
                        Err(e) => Err(e),
                        Ok(b) => Ok(
                            t_match_one(
                                b,
                                owner,
                                Seq::new(
                                    declared.len(),
                                    |i: int|
                                        if declared[i] == name@ {
                                            "__field_result"@
                                        } else {
                                            "_"@
                                        },
                                ),
                                t_var("__field_result"@),
                            ),
                        ),
                    }
                },
            },
        },
        _ => Err(LowerFault::UnsupportedExpr(expr_span(e))),
    }
}

/// The names of the fields that a literal gives.
pub open spec fn init_names(fields: Seq<FieldInit>) -> Seq<Name> {
    fields.map_values(|f: FieldInit| f.name@)
}

/// The values of the first `n` declared fields, in declared order. With a spread, those that
/// are not given come from it.
pub open spec fn field_values(
    fields: Seq<FieldInit>,
    declared: Seq<Name>,
    n: nat,
    spread: bool,
    tag: Name,
    span: Span,
    ctx: LoweringContext,
) -> Result<Seq<Term>, LowerFault>
    decreases fields, n,
{
    if n == 0 || n > declared.len() {
        Ok(Seq::empty())
    } else {
        match field_values(fields, declared, (n - 1) as nat, spread, tag, span, ctx) {
            Err(e) => Err(e),
            Ok(vs) => match place_of(init_names(fields), fields.len(), declared[n - 1]) {
                Some(k) => if 0 <= k < fields.len() {
                    match lowered(fields[k].value, ctx) {
                        Err(e) => Err(e),
                        Ok(v) => Ok(vs.push(v)),
                    }
                } else {
                    Ok(vs)
                },
                None => if spread {
                    Ok(vs.push(t_var(numbered("__spread"@, (n - 1) as nat))))
                } else {
                    Err(LowerFault::MissingField { field: declared[n - 1], tag, span })
                },
            },
        }
    }
}

/// A struct literal: its fields in declared order.
pub open spec fn lowered_struct(e: Source, ctx: LoweringContext) -> Result<Term, LowerFault>
    decreases e, 0nat,
{
    match e {
        Source::StructLiteral { path, fields, spread, span } => match ctx.fields_of(path.name@) {
            None => Err(LowerFault::UnknownStruct { name: path.name@, span }),
            Some(declared) => match first_repeat(init_names(fields@), fields@.len()) {
                Some(i) => Err(
                    LowerFault::DuplicateField { name: fields@[i].name@, span: fields@[i].span },
                ),
                None => {
                    let base = match spread {
                        Some(s) => lowered(*s, ctx),
                        None => Ok(leaf(Op::Unit)),
                    };
                    match base {
                        Err(e) => Err(e),
                        Ok(base) => match field_values(
                            fields@,
                            declared,
                            declared.len(),
                            spread is Some,
                            path.name@,
                            span,
                            ctx,
                        ) {
                            Err(e) => Err(e),
                            Ok(vs) => match first_extra(
                                init_names(fields@),
                                fields@.len(),
                                declared,
                            ) {
                                Some(i) => Err(
                                    LowerFault::NoSuchField {
                                        tag: path.name@,
                                        field: fields@[i].name@,
                                        span,
                                    },
                                ),
                                None => if spread is Some {
                                    Ok(
                                        t_match_one(
                                            base,
                                            path.name@,
                                            Seq::new(
                                                declared.len(),
                                                |i: int| numbered("__spread"@, i as nat),
                                            ),
                                            t_ctor(path.name@, vs),
                                        ),
                                    )
                                } else {
                                    Ok(t_ctor(path.name@, vs))
                                },
                            },
                        },
                    }
                },
            },
        },
        _ => Err(LowerFault::UnsupportedExpr(expr_span(e))),
    }
}

/// A match arm.
pub open spec fn lowered_arm(a: SourceArm, ctx: LoweringContext) -> Result<ArmTerm, LowerFault>
    decreases a, 0nat,
{
    match pattern_fault(a.pattern, ctx) {
        Some(e) => Err(e),
        None => if a.guard is Some && nested_before(
            a.pattern,
            ctx,
            sub_count(a.pattern, ctx),
        ) > 0 {
            Err(LowerFault::GuardWithNested(a.span))
        } else {
            let guard = match a.guard {
                Some(g) => lowered(g, ctx),
                None => Ok(leaf(Op::Unit)),
            };
            match guard {
                Err(e) => Err(e),
                Ok(g) => match lowered(a.body, ctx) {
                    Err(e) => Err(e),
                    Ok(b) => match wrapped(a.pattern, ctx, b) {
                        Err(e) => Err(e),
                        Ok(body) => Ok(
                            ArmTerm {
                                tag: tag_of(a.pattern),
                                bindings: bindings_of(a.pattern, ctx),
                                guard: if a.guard is Some {
                                    Some(g)
                                } else {
                                    None
                                },
                                body,
                            },
                        ),
                    },
                },
            }
        },
    }
}

/// The first `n` arms of a match.
pub open spec fn lowered_arms(s: Seq<SourceArm>, n: nat, ctx: LoweringContext) -> Result<
    Seq<ArmTerm>,
    LowerFault,
>
    decreases s, n,
{
    if n == 0 || n > s.len() {
        Ok(Seq::empty())
    } else {
        match lowered_arms(s, (n - 1) as nat, ctx) {
            Err(e) => Err(e),
            Ok(arms) => match lowered_arm(s[n - 1], ctx) {
                Err(e) => Err(e),
                Ok(arm) => Ok(arms.push(arm)),
            },
        }
    }
}

/// Whether a match has one arm, which takes every value under a name.
pub open spec fn names_the_whole(arms: Seq<SourceArm>) -> bool {
    arms.len() == 1 && arms[0].guard is None && arms[0].pattern is Ident
}

/// A match whose one arm names the whole value: a binding of that name.
pub open spec fn lowered_whole(arms: Seq<SourceArm>, value: Term, ctx: LoweringContext) -> Result<
    Term,
    LowerFault,
>
    decreases arms, 0nat,
{
    if arms.len() == 0 {
        Ok(value)
    } else {
        match lowered(arms[0].body, ctx) {
            Err(e) => Err(e),
            Ok(b) => match arms[0].pattern {
                Pattern::Ident(name, _) => Ok(t_let(name@, value, b)),
                _ => Ok(value),
            },
        }
    }
}

/// Whether a match compares with literals: every arm but the last has one, and the last
/// takes everything else.
pub open spec fn on_literals(arms: Seq<SourceArm>) -> bool {
    &&& arms.len() >= 2
    &&& catches_all(arms.last())
    &&& forall|i: int| 0 <= i < arms.len() - 1 ==> (#[trigger] arms[i]).pattern is Literal
}

/// Whether an arm takes every value.
pub open spec fn catches_all(a: SourceArm) -> bool {
    a.guard is None && (a.pattern is Wildcard || a.pattern is Ident)
}

/// A literal of a pattern as an expression.
pub open spec fn t_literal(l: Literal) -> Term {
    match l {
        Literal::Int(n) => leaf(Op::Int(n)),
        Literal::Float(b) => leaf(Op::Float(b)),
        Literal::Str(s) => node(Op::Str, seq![s@], Seq::empty()),
        Literal::Bool(b) => leaf(Op::Bool(b)),
    }
}

/// Whether the value equals the literal of a pattern.
pub open spec fn t_compare(p: Pattern) -> Term {
    match p {
        Pattern::Literal(l, _) => node(
            Op::Binary(BinOp::Eq),
            Seq::empty(),
            seq![t_var("__match_value"@), t_literal(l)],
        ),
        _ => leaf(Op::Bool(true)),
    }
}

/// The test of an arm with a literal: the comparison, and the guard if there is one.
pub open spec fn lowered_test(a: SourceArm, ctx: LoweringContext) -> Result<Term, LowerFault>
    decreases a, 0nat,
{
    match a.guard {
        None => Ok(t_compare(a.pattern)),
        Some(g) => match lowered(g, ctx) {
            Err(e) => Err(e),
            Ok(g) => Ok(
                node(Op::Binary(BinOp::And), Seq::empty(), seq![t_compare(a.pattern), g]),
            ),
        },
    }
}

/// The arms of a match with literals from place `i` on, as tests one after another.
pub open spec fn lowered_chain(arms: Seq<SourceArm>, i: nat, ctx: LoweringContext) -> Result<
    Term,
    LowerFault,
>
    decreases arms, (arms.len() - i) as nat,
{
    if i >= arms.len() {
        Ok(leaf(Op::Unit))
    } else if i + 1 == arms.len() {
        match lowered(arms[i as int].body, ctx) {
            Err(e) => Err(e),
            Ok(b) => match arms[i as int].pattern {
                Pattern::Ident(name, _) => Ok(t_let(name@, t_var("__match_value"@), b)),
                _ => Ok(b),
            },
        }
    } else {
        with_three(
            Op::If,
            Seq::empty(),
            lowered_test(arms[i as int], ctx),
            lowered(arms[i as int].body, ctx),
            lowered_chain(arms, i + 1, ctx),
        )
    }
}

/// The body of a select arm, with what was received bound by the arm's pattern.
pub open spec fn bound_by(p: Pattern, ctx: LoweringContext, body: Term) -> Result<Term, LowerFault> {
    match p {
        Pattern::Ident(name, _) => Ok(t_let(name@, t_var("__select_recv"@), body)),
        Pattern::Wildcard(_) => Ok(body),
        Pattern::Literal(_, span) => Err(LowerFault::SelectPattern(span)),
        Pattern::Other(span) => Err(LowerFault::SelectPattern(span)),
        _ => destructured(t_var("__select_recv"@), p, ctx, body),
    }
}

/// A select arm: its receiver and its body.
pub open spec fn lowered_select_arm(a: SourceSelectArm, ctx: LoweringContext) -> Result<
    (Term, Term),
    LowerFault,
>
    decreases a, 0nat,
{
    match a.expr {
        Source::Call { callee, args, span } => match *callee {
            Source::Field { base, name, .. } => if name@ != "recv"@ || args@.len() != 0 {
                Err(LowerFault::SelectCall(span))
            } else {
                match lowered(*base, ctx) {
                    Err(e) => Err(e),
                    Ok(receiver) => match lowered(a.body, ctx) {
                        Err(e) => Err(e),
                        Ok(b) => match bound_by(a.pattern, ctx, b) {
                            Err(e) => Err(e),
                            Ok(body) => Ok((receiver, body)),
                        },
                    },
                }
            },
            _ => Err(LowerFault::SelectCall(span)),
        },
        _ => Err(LowerFault::SelectCall(expr_span(a.expr))),
    }
}

/// The first `n` arms of a select, receivers and bodies alternating.
pub open spec fn lowered_select(s: Seq<SourceSelectArm>, n: nat, ctx: LoweringContext) -> Result<
    Seq<Term>,
    LowerFault,
>
    decreases s, n,
{
    if n == 0 || n > s.len() {
        Ok(Seq::empty())
    } else {
        match lowered_select(s, (n - 1) as nat, ctx) {
            Err(e) => Err(e),
            Ok(kids) => match lowered_select_arm(s[n - 1], ctx) {
                Err(e) => Err(e),
                Ok((receiver, body)) => Ok(kids.push(receiver).push(body)),
            },
        }
    }
}

/// A loop: over a range written out, over an array, or over a range value.
pub open spec fn lowered_for(e: Source, ctx: LoweringContext) -> Result<Term, LowerFault>
    decreases e, 0nat,
{
    match e {
        Source::For { pattern, iter, body, span } => match pattern {
            Pattern::Ident(var, _) => match *iter {
                Source::Binary { op: BinaryOp::Range, lhs, rhs, .. } => with_three(
                    Op::For,
                    seq![var@],
                    lowered(*lhs, ctx),
                    lowered(*rhs, ctx),
                    lowered_block(*body, ctx),
                ),
                _ => match lowered(*iter, ctx) {
                    Err(e) => Err(e),
                    Ok(over) => match lowered_block(*body, ctx) {
                        Err(e) => Err(e),
                        Ok(b) => if ctx.loops_over_array(span) {
                            Ok(
                                t_let(
                                    "__for_arr"@,
                                    over,
                                    t_index_loop(
                                        "__for_i"@,
                                        "__for_arr"@,
                                        t_let(var@, t_element("__for_arr"@, "__for_i"@), b),
                                    ),
                                ),
                            )
                        } else {
                            Ok(
                                t_match_one(
                                    over,
                                    "0Range"@,
                                    seq!["__range_start"@, "__range_end"@],
                                    node(
                                        Op::For,
                                        seq![var@],
                                        seq![t_var("__range_start"@), t_var("__range_end"@), b],
                                    ),
                                ),
                            )
                        },
                    },
                },
            },
            p => Err(LowerFault::ForPattern(pattern_span(p))),
        },
        _ => Err(LowerFault::UnsupportedExpr(expr_span(e))),
    }
}

/// A statement, followed by what comes after it.
pub open spec fn with_stmt(s: Stmt, rest: Term, ctx: LoweringContext) -> Result<Term, LowerFault>
    decreases s, 0nat,
{
    match s {
        Stmt::Let { pattern, value } => match pattern {
            Pattern::Ident(name, _) => match lowered(value, ctx) {
                Err(e) => Err(e),
                Ok(v) => Ok(t_let(name@, v, rest)),
            },
            Pattern::Tuple(..) | Pattern::Struct { .. } => match pattern_fault(pattern, ctx) {
                Some(e) => Err(e),
                None => match wrapped(pattern, ctx, rest) {
                    Err(e) => Err(e),
                    Ok(body) => match lowered(value, ctx) {
                        Err(e) => Err(e),
                        Ok(v) => Ok(
                            t_match_one(v, tag_of(pattern), bindings_of(pattern, ctx), body),
                        ),
                    },
                },
            },
            p => Err(LowerFault::LetPattern(pattern_span(p))),
        },
        Stmt::Expr(e) => match lowered(e, ctx) {
            Err(e) => Err(e),
            Ok(v) => Ok(t_let("_"@, v, rest)),
        },
        Stmt::Assign { name, value } => match lowered(value, ctx) {
            Err(e) => Err(e),
            Ok(v) => Ok(t_assign(name@, v, rest)),
        },
    }
}

/// The statements from place `k` on, followed by what comes after them. The last one is
/// lowered first.
pub open spec fn with_stmts(s: Seq<Stmt>, k: nat, rest: Term, ctx: LoweringContext) -> Result<
    Term,
    LowerFault,
>
    decreases s, (s.len() - k) as nat,
{
    if k >= s.len() {
        Ok(rest)
    } else {
        match with_stmts(s, k + 1, rest, ctx) {
            Err(e) => Err(e),
            Ok(rest) => with_stmt(s[k as int], rest, ctx),
        }
    }
}

/// A block.
pub open spec fn lowered_block(b: Block, ctx: LoweringContext) -> Result<Term, LowerFault>
    decreases b, 0nat,
{
    let tail = match b.tail {
        Some(e) => lowered(e, ctx),
        None => Ok(leaf(Op::Unit)),
    };
    match tail {
        Err(e) => Err(e),
        Ok(t) => with_stmts(b.stmts@, 0, t, ctx),
    }
}

/// Makes a node that is neither a match nor a typed closure.
fn mk(op: Op, names: Vec<String>, kids: Vec<Expr>) -> (r: Expr)
    requires
        shaped(node(op, names_of(names@), terms(kids@))),
    ensures
        r.term() == node(op, names_of(names@), terms(kids@)),
{
    let arms: Vec<MatchArm> = Vec::new();
    assert(arm_terms(arms@) =~= Seq::<ArmTerm>::empty());
    Expr::from_parts(Parts { op, names, types: None, kids, arms })
}

fn mk_leaf(op: Op) -> (r: Expr)
    requires
        shaped(leaf(op)),
    ensures
        r.term() == leaf(op),
{
    mk(op, names0(), kids0())
}

fn mk_ctor(tag: String, fields: Vec<Expr>) -> (r: Expr)
    ensures
        r.term() == t_ctor(tag@, terms(fields@)),
{
    mk(Op::Ctor, names1(tag), fields)
}

fn mk_call(callee: Expr, args: Vec<Expr>) -> (r: Expr)
    ensures
        r.term() == t_call(callee.term(), terms(args@)),
{
    mk(Op::Call, names0(), prepend(callee, args))
}

fn mk_named(name: &str) -> (r: Expr)
    ensures
        r.term() == t_var(name@),
{
    mk_var(name.to_owned())
}

/// The operator of the intermediate representation.
fn lower_binop(op: BinaryOp) -> (r: BinOp)
    ensures
        r == binop(op),
{
    match op {
        BinaryOp::Add => BinOp::Add,
        BinaryOp::Sub => BinOp::Sub,
        BinaryOp::Mul => BinOp::Mul,
        BinaryOp::Div => BinOp::Div,
        BinaryOp::Rem => BinOp::Rem,
        BinaryOp::Eq => BinOp::Eq,
        BinaryOp::Ne => BinOp::Ne,
        BinaryOp::Lt => BinOp::Lt,
        BinaryOp::Gt => BinOp::Gt,
        BinaryOp::Le => BinOp::Le,
        BinaryOp::Ge => BinOp::Ge,
        BinaryOp::And => BinOp::And,
        _ => BinOp::Or,
    }
}

/// The constructor of a variant as a function value.
fn mk_constructor(tag: String, arity: usize) -> (r: Expr)
    ensures
        r.term() == constructor(tag@, arity as nat),
{
    let mut params: Vec<String> = Vec::new();
    let mut fields: Vec<Expr> = Vec::new();
    let mut i: usize = 0;
    while i < arity
        invariant
            i <= arity,
            params@.len() == i,
            fields@.len() == i,
            forall|j: int|
                0 <= j < i ==> (#[trigger] params@[j])@ == numbered("__ctor_arg"@, j as nat),
            forall|j: int|
                0 <= j < i ==> (#[trigger] fields@[j]).term() == t_var(
                    numbered("__ctor_arg"@, j as nat),
                ),
        decreases arity - i,
    {
        params.push(numbered_name("__ctor_arg", i));
        fields.push(mk_var(numbered_name("__ctor_arg", i)));
        i += 1;
    }
    assert(names_of(params@) =~= Seq::new(
        arity as nat,
        |i: int| numbered("__ctor_arg"@, i as nat),
    ));
    assert(terms(fields@) =~= Seq::new(
        arity as nat,
        |i: int| t_var(numbered("__ctor_arg"@, i as nat)),
    ));
    mk(Op::Closure(None), params, kids1(mk_ctor(tag, fields)))
}

fn reads(name: &String, word: &str) -> (r: bool)
    ensures
        r == (name@ == word@),
{
    *name == word.to_owned()
}

/// The operator that a method with so many arguments stands for.
fn find_method(name: &String, args: usize) -> (r: Option<Op>)
    ensures
        r == method(name@, args as nat),
{
    if args == 0 {
        if reads(name, "join") {
            Some(Op::TaskJoin)
        } else if reads(name, "recv") {
            Some(Op::ChannelRecv)
        } else if reads(name, "len") {
            Some(Op::ArrayLen)
        } else if reads(name, "pop") {
            Some(Op::ArrayPop)
        } else if reads(name, "runes") {
            Some(Op::StrRunes)
        } else if reads(name, "trim") {
            Some(Op::StrTrim)
        } else if reads(name, "to_upper") {
            Some(Op::StrToUpper)
        } else if reads(name, "to_lower") {
            Some(Op::StrToLower)
        } else if reads(name, "to_string") {
            Some(Op::ToString)
        } else if reads(name, "get") {
            Some(Op::RefGet)
        } else {
            None
        }
    } else if args == 1 {
        if reads(name, "send") {
            Some(Op::ChannelSend)
        } else if reads(name, "push") {
            Some(Op::ArrayPush)
        } else if reads(name, "remove") {
            Some(Op::ArrayRemove)
        } else if reads(name, "concat") {
            Some(Op::StrConcat)
        } else if reads(name, "split") {
            Some(Op::StrSplit)
        } else if reads(name, "contains") {
            Some(Op::StrContains)
        } else if reads(name, "starts_with") {
            Some(Op::StrStartsWith)
        } else if reads(name, "ends_with") {
            Some(Op::StrEndsWith)
        } else if reads(name, "set") {
            Some(Op::RefSet)
        } else {
            None
        }
    } else if args == 2 && reads(name, "set") {
        Some(Op::ArraySet)
    } else if args == 2 && reads(name, "replace") {
        Some(Op::StrReplace)
    } else {
        None
    }
}

fn mk_index_loop(var: &str, arr: &str, body: Expr) -> (r: Expr)
    ensures
        r.term() == t_index_loop(var@, arr@, body.term()),
{
    let len: Expr = mk(Op::ArrayLen, names0(), kids1(mk_named(arr)));
    mk(Op::For, names1(var.to_owned()), kids3(mk_leaf(Op::Int(0)), len, body))
}

fn mk_element(arr: &str, index: &str) -> (r: Expr)
    ensures
        r.term() == t_element(arr@, index@),
{
    mk(Op::Index, names0(), kids2(mk_named(arr), mk_named(index)))
}

fn mk_append(out: &str, value: Expr) -> (r: Expr)
    ensures
        r.term() == t_append(out@, value.term()),
{
    let pushed: Expr = mk(Op::ArrayPush, names0(), kids2(mk_named(out), value));
    mk_assign(out.to_owned(), pushed, mk_leaf(Op::Unit))
}

/// `arr.map(f)`.
fn lower_array_map(arr: Expr, f: Expr) -> (r: Expr)
    ensures
        r.term() == t_map(arr.term(), f.term()),
{
    let result: Expr = mk_call(f, kids1(mk_element("__map_arr", "__map_i")));
    let each: Expr = mk_index_loop("__map_i", "__map_arr", mk_append("__map_out", result));
    let run: Expr = mk_let("_".to_owned(), each, mk_named("__map_out"));
    let out: Expr = mk_let(
        "__map_out".to_owned(),
        mk_ctor("0Array".to_owned(), kids0()),
        run,
    );
    mk_let("__map_arr".to_owned(), arr, out)
}

/// `arr.filter(f)`.
fn lower_array_filter(arr: Expr, f: Expr) -> (r: Expr)
    ensures
        r.term() == t_filter(arr.term(), f.term()),
{
    let test: Expr = mk_call(f, kids1(mk_named("__filter_elem")));
    let keep: Expr = mk_append("__filter_out", mk_named("__filter_elem"));
    let choose_one: Expr = mk(Op::If, names0(), kids3(test, keep, mk_leaf(Op::Unit)));
    let body: Expr = mk_let(
        "__filter_elem".to_owned(),
        mk_element("__filter_arr", "__filter_i"),
        choose_one,
    );
    let each: Expr = mk_index_loop("__filter_i", "__filter_arr", body);
    let run: Expr = mk_let("_".to_owned(), each, mk_named("__filter_out"));
    let out: Expr = mk_let(
        "__filter_out".to_owned(),
        mk_ctor("0Array".to_owned(), kids0()),
        run,
    );
    mk_let("__filter_arr".to_owned(), arr, out)
}

/// `arr.fold(init, f)`.
fn lower_array_fold(arr: Expr, init: Expr, f: Expr) -> (r: Expr)
    ensures
        r.term() == t_fold(arr.term(), init.term(), f.term()),
{
    let next: Expr = mk_call(
        f,
        kids2(mk_named("__fold_acc"), mk_element("__fold_arr", "__fold_i")),
    );
    let body: Expr = mk_assign("__fold_acc".to_owned(), next, mk_leaf(Op::Unit));
    let each: Expr = mk_index_loop("__fold_i", "__fold_arr", body);
    let run: Expr = mk_let("_".to_owned(), each, mk_named("__fold_acc"));
    mk_let("__fold_arr".to_owned(), arr, mk_let("__fold_acc".to_owned(), init, run))
}

/// Whether a list of results is the modelled one.
pub open spec fn gives_list(r: Result<Vec<Expr>, LowerError>, m: Result<Seq<Term>, LowerFault>) -> bool {
    match r {
        Ok(es) => m == Ok::<Seq<Term>, LowerFault>(terms(es@)),
        Err(e) => m == Err::<Seq<Term>, LowerFault>(e@),
    }
}

proof fn list_fails_from(s: Seq<Source>, i: nat, n: nat, ctx: LoweringContext)
    requires
        i <= n <= s.len(),
        lowered_list(s, i, ctx) is Err,
    ensures
        lowered_list(s, n, ctx) == lowered_list(s, i, ctx),
    decreases n,
{
    if i < n {
        list_fails_from(s, i, (n - 1) as nat, ctx);
    }
}

/// Lowers several expressions.
fn lower_list(s: &Vec<Source>, ctx: &LoweringContext) -> (r: Result<Vec<Expr>, LowerError>)
    ensures
        gives_list(r, lowered_list(s@, s@.len(), *ctx)),
    decreases *s, 0nat,
{
    let mut es: Vec<Expr> = kids0();
    let mut i: usize = 0;
    while i < s.len()
        invariant
            i <= s@.len(),
            lowered_list(s@, i as nat, *ctx) == Ok::<Seq<Term>, LowerFault>(terms(es@)),
        decreases s@.len() - i,
    {
        let ghost before: Seq<Expr> = es@;
        proof {
            assert(decreases_to!(*s => s@));
            assert(decreases_to!(s@ => s@[i as int]));
        }
        match lower_expr(&s[i], ctx) {
            Ok(e) => {
                es.push(e);
                assert(terms(es@) =~= terms(before).push(e.term()));
            },
            Err(e) => {
                proof {
                    list_fails_from(s@, (i + 1) as nat, s@.len(), *ctx);
                }
                return Err(e);
            },
        }
        i += 1;
    }
    Ok(es)
}

/// Lowers an expression.
#[verifier::spinoff_prover]
#[verifier::rlimit(60)]
pub fn lower_expr(expr: &Source, ctx: &LoweringContext) -> (r: Result<Expr, LowerError>)
    ensures
        gives(r, lowered(*expr, *ctx)),
    decreases *expr, 2nat,
{
    match expr {
        Source::Int(n, _) => Ok(mk_leaf(Op::Int(*n))),
        Source::Float(b, _) => Ok(mk_leaf(Op::Float(*b))),
        Source::Bool(b, _) => Ok(mk_leaf(Op::Bool(*b))),
        Source::Str(s, _) => Ok(mk(Op::Str, names1(s.clone()), kids0())),
        Source::Ident(name, _) => match ctx.arity(name) {
            Some(arity) => if arity == 0 {
                Ok(mk_ctor(name.clone(), kids0()))
            } else {
                Ok(mk_constructor(name.clone(), arity))
            },
            None => Ok(mk_var(name.clone())),
        },
        Source::Tuple(elems, _) => if elems.len() == 0 {
            Ok(mk_leaf(Op::Unit))
        } else {
            let fields: Vec<Expr> = match lower_list(elems, ctx) {
                Ok(x) => x,
                Err(e) => {
                    return Err(e);
                },
            };
            Ok(mk_ctor(tuple_tag(elems.len()), fields))
        },
        Source::ArrayLiteral(elems, _) => {
            let fields: Vec<Expr> = match lower_list(elems, ctx) {
                Ok(x) => x,
                Err(e) => {
                    return Err(e);
                },
            };
            Ok(mk_ctor("0Array".to_owned(), fields))
        },
        Source::Index { base, index, .. } => {
            let a: Expr = match lower_expr(base, ctx) {
                Ok(x) => x,
                Err(e) => {
                    return Err(e);
                },
            };
            let b: Expr = match lower_expr(index, ctx) {
                Ok(x) => x,
                Err(e) => {
                    return Err(e);
                },
            };
            Ok(mk(Op::Index, names0(), kids2(a, b)))
        },
        Source::Unary { op, expr: operand, .. } => {
            let a: Expr = match lower_expr(operand, ctx) {
                Ok(x) => x,
                Err(e) => {
                    return Err(e);
                },
            };
            let op: UnOp = match op {
                UnaryOp::Neg => UnOp::Neg,
                UnaryOp::Not => UnOp::Not,
            };
            Ok(mk(Op::Unary(op), names0(), kids1(a)))
        },
        Source::Binary { op, lhs, rhs, .. } => match op {
            BinaryOp::Pipe => lower_pipe(expr, ctx),
            BinaryOp::Range => {
                let a: Expr = match lower_expr(lhs, ctx) {
                    Ok(x) => x,
                    Err(e) => {
                        return Err(e);
                    },
                };
                let b: Expr = match lower_expr(rhs, ctx) {
                    Ok(x) => x,
                    Err(e) => {
                        return Err(e);
                    },
                };
                Ok(mk(Op::Ctor, names1("0Range".to_owned()), kids2(a, b)))
            },
            op => {
                let a: Expr = match lower_expr(lhs, ctx) {
                    Ok(x) => x,
                    Err(e) => {
                        return Err(e);
                    },
                };
                let b: Expr = match lower_expr(rhs, ctx) {
                    Ok(x) => x,
                    Err(e) => {
                        return Err(e);
                    },
                };
                Ok(mk(Op::Binary(lower_binop(*op)), names0(), kids2(a, b)))
            },
        },
        Source::Block(block, _) => lower_block(block, ctx),
        Source::If { cond, then_branch, else_branch, .. } => {
            let a: Expr = match lower_expr(cond, ctx) {
                Ok(x) => x,
                Err(e) => {
                    return Err(e);
                },
            };
            let b: Expr = match lower_block(then_branch, ctx) {
                Ok(x) => x,
                Err(e) => {
                    return Err(e);
                },
            };
            let c: Expr = match else_branch {
                Some(other) => match lower_expr(other, ctx) {
                    Ok(x) => x,
                    Err(e) => {
                        return Err(e);
                    },
                },
                None => mk_leaf(Op::Unit),
            };
            Ok(mk(Op::If, names0(), kids3(a, b, c)))
        },
        Source::Call { .. } => lower_call(expr, ctx),
        Source::Field { .. } => lower_field(expr, ctx),
        Source::StructLiteral { .. } => lower_struct_literal(expr, ctx),
        Source::Match { scrutinee, arms, .. } => {
            let s: Expr = match lower_expr(scrutinee, ctx) {
                Ok(x) => x,
                Err(e) => {
                    return Err(e);
                },
            };
            if is_whole_named(arms) {
                return lower_whole(arms, s, ctx);
            }
            if is_on_literals(arms) {
                let chain: Expr = match lower_chain(arms, 0, ctx) {
                    Ok(x) => x,
                    Err(e) => {
                        return Err(e);
                    },
                };
                return Ok(mk_let("__match_value".to_owned(), s, chain));
            }
            let arms: Vec<MatchArm> = match lower_arms(arms, ctx) {
                Ok(x) => x,
                Err(e) => {
                    return Err(e);
                },
            };
            Ok(
                Expr::from_parts(
                    Parts { op: Op::Match, names: names0(), types: None, kids: kids1(s), arms },
                ),
            )
        },
        Source::Select { arms, .. } => {
            let kids: Vec<Expr> = match lower_select(arms, ctx) {
                Ok(x) => x,
                Err(e) => {
                    return Err(e);
                },
            };
            proof {
                select_is_even(arms@, arms@.len(), *ctx);
            }
            Ok(mk(Op::Select, names0(), kids))
        },
        Source::For { .. } => lower_for(expr, ctx),
        Source::Unsafe(block, _) => lower_block(block, ctx),
        Source::Spawn(block, _) => {
            let a: Expr = match lower_block(block, ctx) {
                Ok(x) => x,
                Err(e) => {
                    return Err(e);
                },
            };
            Ok(mk(Op::Spawn, names0(), kids1(a)))
        },
        Source::Closure { params, body, .. } => {
            let a: Expr = match lower_expr(body, ctx) {
                Ok(x) => x,
                Err(e) => {
                    return Err(e);
                },
            };
            Ok(mk(Op::Closure(None), copy_names(params), kids1(a)))
        },
        Source::GenericInst { .. } | Source::Other(_) => {
            Err(LowerError::UnsupportedExpr(expr.span()))
        },
    }
}

/// `lhs |> rhs`.
fn lower_pipe(expr: &Source, ctx: &LoweringContext) -> (r: Result<Expr, LowerError>)
    ensures
        gives(r, piped(*expr, *ctx)),
    decreases *expr, 0nat,
{
    match expr {
        Source::Binary { lhs, rhs, .. } => {
            let l: Expr = match lower_expr(lhs, ctx) {
                Ok(x) => x,
                Err(e) => {
                    return Err(e);
                },
            };
            match &**rhs {
                Source::Call { callee, args, .. } => {
                    let given: Vec<Expr> = match lower_list(args, ctx) {
                        Ok(x) => x,
                        Err(e) => {
                            return Err(e);
                        },
                    };
                    let mut given: Vec<Expr> = given;
                    let ghost before: Seq<Expr> = given@;
                    given.push(l);
                    assert(terms(given@) =~= terms(before).push(l.term()));
                    let c: Expr = match lower_expr(callee, ctx) {
                        Ok(x) => x,
                        Err(e) => {
                            return Err(e);
                        },
                    };
                    Ok(mk_call(c, given))
                },
                other => {
                    let c: Expr = match lower_expr(other, ctx) {
                        Ok(x) => x,
                        Err(e) => {
                            return Err(e);
                        },
                    };
                    Ok(mk_call(c, kids1(l)))
                },
            }
        },
        _ => Err(LowerError::UnsupportedExpr(expr.span())),
    }
}

/// Whether an expression is `channel[T]`.
fn is_channel(e: &Source) -> (r: bool)
    ensures
        r == makes_channel(*e),
{
    match e {
        Source::GenericInst { callee, args, .. } => *args == 1 && match &**callee {
            Source::Ident(name, _) => reads(name, "channel"),
            _ => false,
        },
        _ => false,
    }
}

/// Whether an expression is `ref`.
fn is_ref(e: &Source) -> (r: bool)
    ensures
        r == makes_ref(*e),
{
    match e {
        Source::Ident(name, _) => reads(name, "ref"),
        _ => false,
    }
}

/// A call of something that is not a built-in method.
fn lower_plain_call(expr: &Source, ctx: &LoweringContext) -> (r: Result<Expr, LowerError>)
    ensures
        gives(r, lowered_plain_call(*expr, *ctx)),
    decreases *expr, 0nat,
{
    match expr {
        Source::Call { callee, args, span } => {
            let tag: Option<&String> = match &**callee {
                Source::Ident(name, _) => Some(name),
                Source::Field { name, .. } => Some(name),
                _ => None,
            };
            if let Some(tag) = tag {
                if let Some(arity) = ctx.arity(tag) {
                    if args.len() != arity {
                        return Err(
                            LowerError::VariantArity {
                                tag: tag.clone(),
                                expected: arity,
                                found: args.len(),
                                span: *span,
                            },
                        );
                    }
                    let fields: Vec<Expr> = match lower_list(args, ctx) {
                        Ok(x) => x,
                        Err(e) => {
                            return Err(e);
                        },
                    };
                    return Ok(mk_ctor(tag.clone(), fields));
                }
            }
            let c: Expr = match lower_expr(callee, ctx) {
                Ok(x) => x,
                Err(e) => {
                    return Err(e);
                },
            };
            let args: Vec<Expr> = match lower_list(args, ctx) {
                Ok(x) => x,
                Err(e) => {
                    return Err(e);
                },
            };
            Ok(mk_call(c, args))
        },
        _ => Err(LowerError::UnsupportedExpr(expr.span())),
    }
}

proof fn first_arg_decreases(args: Vec<Source>, i: int)
    requires
        0 <= i < args@.len(),
    ensures
        decreases_to!(args => args@[i]),
{
    assert(decreases_to!(args => args@));
    assert(decreases_to!(args@ => args@[i]));
}

/// A call.
#[verifier::spinoff_prover]
#[verifier::rlimit(40)]
fn lower_call(expr: &Source, ctx: &LoweringContext) -> (r: Result<Expr, LowerError>)
    ensures
        gives(r, lowered_call(*expr, *ctx)),
    decreases *expr, 1nat,
{
    match expr {
        Source::Call { callee, args, .. } => match &**callee {
            Source::Field { base, name, .. } => match find_method(name, args.len()) {
                Some(op) => {
                    let b: Expr = match lower_expr(base, ctx) {
                        Ok(x) => x,
                        Err(e) => {
                            return Err(e);
                        },
                    };
                    let given: Vec<Expr> = match lower_list(args, ctx) {
                        Ok(x) => x,
                        Err(e) => {
                            return Err(e);
                        },
                    };
                    proof {
                        list_has_all(args@, args@.len(), *ctx);
                    }
                    Ok(mk(op, names0(), prepend(b, given)))
                },
                None => {
                    if reads(name, "map") && args.len() == 1 {
                        proof {
                            first_arg_decreases(*args, 0);
                        }
                        let arr: Expr = match lower_expr(base, ctx) {
                            Ok(x) => x,
                            Err(e) => {
                                return Err(e);
                            },
                        };
                        let f: Expr = match lower_expr(&args[0], ctx) {
                            Ok(x) => x,
                            Err(e) => {
                                return Err(e);
                            },
                        };
                        Ok(lower_array_map(arr, f))
                    } else if reads(name, "filter") && args.len() == 1 {
                        proof {
                            first_arg_decreases(*args, 0);
                        }
                        let arr: Expr = match lower_expr(base, ctx) {
                            Ok(x) => x,
                            Err(e) => {
                                return Err(e);
                            },
                        };
                        let f: Expr = match lower_expr(&args[0], ctx) {
                            Ok(x) => x,
                            Err(e) => {
                                return Err(e);
                            },
                        };
                        Ok(lower_array_filter(arr, f))
                    } else if reads(name, "fold") && args.len() == 2 {
                        proof {
                            first_arg_decreases(*args, 0);
                            first_arg_decreases(*args, 1);
                        }
                        let arr: Expr = match lower_expr(base, ctx) {
                            Ok(x) => x,
                            Err(e) => {
                                return Err(e);
                            },
                        };
                        let init: Expr = match lower_expr(&args[0], ctx) {
                            Ok(x) => x,
                            Err(e) => {
                                return Err(e);
                            },
                        };
                        let f: Expr = match lower_expr(&args[1], ctx) {
                            Ok(x) => x,
                            Err(e) => {
                                return Err(e);
                            },
                        };
                        Ok(lower_array_fold(arr, init, f))
                    } else {
                        lower_plain_call(expr, ctx)
                    }
                },
            },
            other => {
                if args.len() == 0 && is_channel(other) {
                    Ok(mk(Op::Channel, names1("2Tuple".to_owned()), kids0()))
                } else if args.len() == 1 && is_ref(other) {
                    proof {
                        first_arg_decreases(*args, 0);
                    }
                    let v: Expr = match lower_expr(&args[0], ctx) {
                        Ok(x) => x,
                        Err(e) => {
                            return Err(e);
                        },
                    };
                    Ok(mk(Op::RefNew, names0(), kids1(v)))
                } else {
                    lower_plain_call(expr, ctx)
                }
            },
        },
        _ => Err(LowerError::UnsupportedExpr(expr.span())),
    }
}

/// Lowering several expressions gives as many.
pub proof fn list_has_all(s: Seq<Source>, n: nat, ctx: LoweringContext)
    requires
        n <= s.len(),
    ensures
        lowered_list(s, n, ctx) matches Ok(ts) ==> ts.len() == n,
    decreases n,
{
    if n > 0 {
        list_has_all(s, (n - 1) as nat, ctx);
    }
}

/// The arms of a select give two terms each.
pub proof fn select_is_even(s: Seq<SourceSelectArm>, n: nat, ctx: LoweringContext)
    requires
        n <= s.len(),
    ensures
        lowered_select(s, n, ctx) matches Ok(ts) ==> ts.len() == 2 * n,
    decreases n,
{
    if n > 0 {
        select_is_even(s, (n - 1) as nat, ctx);
    }
}

/// A field access.
fn lower_field(expr: &Source, ctx: &LoweringContext) -> (r: Result<Expr, LowerError>)
    ensures
        gives(r, lowered_field(*expr, *ctx)),
    decreases *expr, 0nat,
{
    match expr {
        Source::Field { base, name, span } => {
            let owner: String = match ctx.owner(*span) {
                Some(owner) => owner.clone(),
                None => {
                    return Err(LowerError::UnresolvedField(*span));
                },
            };
            let declared: &Vec<String> = match ctx.fields(&owner) {
                Some(declared) => declared,
                None => {
                    return Err(LowerError::UnknownStruct { name: owner, span: *span });
                },
            };
            if find_name(declared, name).is_none() {
                return Err(
                    LowerError::NoSuchField { tag: owner, field: name.clone(), span: *span },
                );
            }
            let bindings: Vec<String> = only_field(declared, name);
            let b: Expr = match lower_expr(base, ctx) {
                Ok(x) => x,
                Err(e) => {
                    return Err(e);
                },
            };
            Ok(mk_match_one(b, owner, bindings, mk_named("__field_result")))
        },
        _ => Err(LowerError::UnsupportedExpr(expr.span())),
    }
}

/// Bindings that ignore every field but one.
fn only_field(declared: &Vec<String>, name: &String) -> (r: Vec<String>)
    ensures
        names_of(r@) == Seq::new(
            declared@.len(),
            |i: int|
                if names_of(declared@)[i] == name@ {
                    "__field_result"@
                } else {
                    "_"@
                },
        ),
{
    let mut r: Vec<String> = Vec::new();
    let mut i: usize = 0;
    while i < declared.len()
        invariant
            i <= declared@.len(),
            r@.len() == i,
            forall|j: int|
                0 <= j < i ==> (#[trigger] r@[j])@ == (if declared@[j]@ == name@ {
                    "__field_result"@
                } else {
                    "_"@
                }),
        decreases declared@.len() - i,
    {
        if declared[i] == *name {
            r.push("__field_result".to_owned());
        } else {
            r.push("_".to_owned());
        }
        i += 1;
    }
    assert(names_of(r@) =~= Seq::new(
        declared@.len(),
        |i: int|
            if names_of(declared@)[i] == name@ {
                "__field_result"@
            } else {
                "_"@
            },
    ));
    r
}

/// The place of the field with a name, among the first `n`.
fn find_init(fields: &Vec<FieldInit>, n: usize, name: &String) -> (r: Option<usize>)
    requires
        n <= fields@.len(),
    ensures
        match r {
            Some(i) => i < n && place_of(init_names(fields@), n as nat, name@) == Some(i as int),
            None => place_of(init_names(fields@), n as nat, name@) is None,
        },
{
    let mut i: usize = 0;
    while i < n
        invariant
            i <= n <= fields@.len(),
            place_of(init_names(fields@), i as nat, name@) is None,
        decreases n - i,
    {
        if fields[i].name == *name {
            proof {
                place_stays(init_names(fields@), (i + 1) as nat, n as nat, name@);
            }
            return Some(i);
        }
        i += 1;
    }
    None
}

/// The first field whose name occurs before it.
fn find_repeated_init(fields: &Vec<FieldInit>) -> (r: Option<usize>)
    ensures
        match r {
            Some(i) => i < fields@.len() && first_repeat(init_names(fields@), fields@.len())
                == Some(i as int),
            None => first_repeat(init_names(fields@), fields@.len()) is None,
        },
{
    let mut i: usize = 0;
    while i < fields.len()
        invariant
            i <= fields@.len(),
            first_repeat(init_names(fields@), i as nat) is None,
        decreases fields@.len() - i,
    {
        if find_init(fields, i, &fields[i].name).is_some() {
            proof {
                repeat_stays(init_names(fields@), (i + 1) as nat, fields@.len());
            }
            return Some(i);
        }
        i += 1;
    }
    None
}

/// The first field whose name is not declared.
fn find_extra_init(fields: &Vec<FieldInit>, declared: &Vec<String>) -> (r: Option<usize>)
    ensures
        match r {
            Some(i) => i < fields@.len() && first_extra(
                init_names(fields@),
                fields@.len(),
                names_of(declared@),
            ) == Some(i as int),
            None => first_extra(init_names(fields@), fields@.len(), names_of(declared@)) is None,
        },
{
    let mut i: usize = 0;
    while i < fields.len()
        invariant
            i <= fields@.len(),
            first_extra(init_names(fields@), i as nat, names_of(declared@)) is None,
        decreases fields@.len() - i,
    {
        if find_name(declared, &fields[i].name).is_none() {
            proof {
                extra_stays(
                    init_names(fields@),
                    (i + 1) as nat,
                    fields@.len(),
                    names_of(declared@),
                );
            }
            return Some(i);
        }
        i += 1;
    }
    None
}

proof fn values_fail_from(
    fields: Seq<FieldInit>,
    declared: Seq<Name>,
    i: nat,
    n: nat,
    spread: bool,
    tag: Name,
    span: Span,
    ctx: LoweringContext,
)
    requires
        i <= n <= declared.len(),
        field_values(fields, declared, i, spread, tag, span, ctx) is Err,
    ensures
        field_values(fields, declared, n, spread, tag, span, ctx) == field_values(
            fields,
            declared,
            i,
            spread,
            tag,
            span,
            ctx,
        ),
    decreases n,
{
    if i < n {
        values_fail_from(fields, declared, i, (n - 1) as nat, spread, tag, span, ctx);
    }
}

/// The values of the declared fields, in declared order.
fn lower_values(
    fields: &Vec<FieldInit>,
    declared: &Vec<String>,
    spread: bool,
    tag: &String,
    span: Span,
    ctx: &LoweringContext,
) -> (r: Result<Vec<Expr>, LowerError>)
    ensures
        gives_list(
            r,
            field_values(
                fields@,
                names_of(declared@),
                declared@.len(),
                spread,
                tag@,
                span,
                *ctx,
            ),
        ),
    decreases *fields, 0nat,
{
    let mut es: Vec<Expr> = kids0();
    let mut i: usize = 0;
    while i < declared.len()
        invariant
            i <= declared@.len(),
            field_values(
                fields@,
                names_of(declared@),
                i as nat,
                spread,
                tag@,
                span,
                *ctx,
            ) == Ok::<Seq<Term>, LowerFault>(terms(es@)),
        decreases declared@.len() - i,
    {
        let ghost before: Seq<Expr> = es@;
        assert(names_of(declared@)[i as int] == declared@[i as int]@);
        match find_init(fields, fields.len(), &declared[i]) {
            Some(k) => {
                proof {
                    assert(decreases_to!(*fields => fields@));
                    assert(decreases_to!(fields@ => fields@[k as int]));
                    assert(decreases_to!(fields@[k as int] => fields@[k as int].value));
                }
                match lower_expr(&fields[k].value, ctx) {
                    Ok(e) => {
                        es.push(e);
                        assert(terms(es@) =~= terms(before).push(e.term()));
                    },
                    Err(e) => {
                        proof {
                            values_fail_from(
                                fields@,
                                names_of(declared@),
                                (i + 1) as nat,
                                declared@.len(),
                                spread,
                                tag@,
                                span,
                                *ctx,
                            );
                        }
                        return Err(e);
                    },
                }
            },
            None => {
                if !spread {
                    proof {
                        values_fail_from(
                            fields@,
                            names_of(declared@),
                            (i + 1) as nat,
                            declared@.len(),
                            spread,
                            tag@,
                            span,
                            *ctx,
                        );
                    }
                    return Err(
                        LowerError::MissingField {
                            field: declared[i].clone(),
                            tag: tag.clone(),
                            span,
                        },
                    );
                }
                let e: Expr = mk_var(numbered_name("__spread", i));
                es.push(e);
                assert(terms(es@) =~= terms(before).push(e.term()));
            },
        }
        i += 1;
    }
    Ok(es)
}

/// Names for the fields of a spread value.
fn spread_names(n: usize) -> (r: Vec<String>)
    ensures
        names_of(r@) == Seq::new(n as nat, |i: int| numbered("__spread"@, i as nat)),
{
    let mut r: Vec<String> = Vec::new();
    let mut i: usize = 0;
    while i < n
        invariant
            i <= n,
            r@.len() == i,
            forall|j: int| 0 <= j < i ==> (#[trigger] r@[j])@ == numbered("__spread"@, j as nat),
        decreases n - i,
    {
        r.push(numbered_name("__spread", i));
        i += 1;
    }
    assert(names_of(r@) =~= Seq::new(n as nat, |i: int| numbered("__spread"@, i as nat)));
    r
}

/// A struct literal.
#[verifier::spinoff_prover]
#[verifier::rlimit(40)]
fn lower_struct_literal(expr: &Source, ctx: &LoweringContext) -> (r: Result<Expr, LowerError>)
    ensures
        gives(r, lowered_struct(*expr, *ctx)),
    decreases *expr, 0nat,
{
    match expr {
        Source::StructLiteral { path, fields, spread, span } => {
            let declared: &Vec<String> = match ctx.fields(&path.name) {
                Some(declared) => declared,
                None => {
                    return Err(
                        LowerError::UnknownStruct { name: path.name.clone(), span: *span },
                    );
                },
            };
            if let Some(i) = find_repeated_init(fields) {
                return Err(
                    LowerError::DuplicateField {
                        name: fields[i].name.clone(),
                        span: fields[i].span,
                    },
                );
            }
            let base: Option<Expr> = match spread {
                Some(s) => match lower_expr(s, ctx) {
                    Ok(x) => Some(x),
                    Err(e) => {
                        return Err(e);
                    },
                },
                None => None,
            };
            let vs: Vec<Expr> = match lower_values(fields, declared, spread.is_some(), &path.name, *span, ctx) {
                Ok(x) => x,
                Err(e) => {
                    return Err(e);
                },
            };
            if let Some(i) = find_extra_init(fields, declared) {
                return Err(
                    LowerError::NoSuchField {
                        tag: path.name.clone(),
                        field: fields[i].name.clone(),
                        span: *span,
                    },
                );
            }
            let built: Expr = mk_ctor(path.name.clone(), vs);
            match base {
                Some(b) => {
                    let bindings: Vec<String> = spread_names(declared.len());
                    Ok(mk_match_one(b, path.name.clone(), bindings, built))
                },
                None => Ok(built),
            }
        },
        _ => Err(LowerError::UnsupportedExpr(expr.span())),
    }
}

/// A match arm.
#[verifier::spinoff_prover]
fn lower_arm(arm: &SourceArm, ctx: &LoweringContext) -> (r: Result<MatchArm, LowerError>)
    ensures
        match r {
            Ok(a) => lowered_arm(*arm, *ctx) == Ok::<ArmTerm, LowerFault>(arm_term(a)),
            Err(e) => lowered_arm(*arm, *ctx) == Err::<ArmTerm, LowerFault>(e@),
        },
    decreases *arm, 0nat,
{
    let (tag, bindings) = match lower_tag_pattern(&arm.pattern, ctx) {
        Ok(x) => x,
        Err(e) => {
            return Err(e);
        },
    };
    let guard: Option<Box<Expr>> = match &arm.guard {
        Some(g) => {
            if has_nested(&arm.pattern, ctx) {
                return Err(LowerError::GuardWithNested(arm.span));
            }
            match lower_expr(g, ctx) {
                Ok(x) => Some(Box::new(x)),
                Err(e) => {
                    return Err(e);
                },
            }
        },
        None => None,
    };
    let b: Expr = match lower_expr(&arm.body, ctx) {
        Ok(x) => x,
        Err(e) => {
            return Err(e);
        },
    };
    let body: Expr = match wrap_nested_destructures(&arm.pattern, ctx, b) {
        Ok(x) => x,
        Err(e) => {
            return Err(e);
        },
    };
    Ok(MatchArm { tag, bindings, guard, body })
}

proof fn arms_fail_from(s: Seq<SourceArm>, i: nat, n: nat, ctx: LoweringContext)
    requires
        i <= n <= s.len(),
        lowered_arms(s, i, ctx) is Err,
    ensures
        lowered_arms(s, n, ctx) == lowered_arms(s, i, ctx),
    decreases n,
{
    if i < n {
        arms_fail_from(s, i, (n - 1) as nat, ctx);
    }
}

/// The arms of a match.
fn lower_arms(s: &Vec<SourceArm>, ctx: &LoweringContext) -> (r: Result<Vec<MatchArm>, LowerError>)
    ensures
        match r {
            Ok(arms) => lowered_arms(s@, s@.len(), *ctx) == Ok::<Seq<ArmTerm>, LowerFault>(
                arm_terms(arms@),
            ),
            Err(e) => lowered_arms(s@, s@.len(), *ctx) == Err::<Seq<ArmTerm>, LowerFault>(e@),
        },
    decreases *s, 0nat,
{
    let mut arms: Vec<MatchArm> = Vec::new();
    assert(arm_terms(arms@) =~= Seq::<ArmTerm>::empty());
    let mut i: usize = 0;
    while i < s.len()
        invariant
            i <= s@.len(),
            lowered_arms(s@, i as nat, *ctx) == Ok::<Seq<ArmTerm>, LowerFault>(arm_terms(arms@)),
        decreases s@.len() - i,
    {
        let ghost before: Seq<MatchArm> = arms@;
        proof {
            assert(decreases_to!(*s => s@));
            assert(decreases_to!(s@ => s@[i as int]));
        }
        match lower_arm(&s[i], ctx) {
            Ok(a) => {
                arms.push(a);
                assert(arm_terms(arms@) =~= arm_terms(before).push(arm_term(a)));
            },
            Err(e) => {
                proof {
                    arms_fail_from(s@, (i + 1) as nat, s@.len(), *ctx);
                }
                return Err(e);
            },
        }
        i += 1;
    }
    Ok(arms)
}

/// Whether a match has one arm, which takes every value under a name.
fn is_whole_named(arms: &Vec<SourceArm>) -> (r: bool)
    ensures
        r == names_the_whole(arms@),
{
    arms.len() == 1 && arms[0].guard.is_none() && matches!(arms[0].pattern, Pattern::Ident(..))
}

/// Lowers a match whose one arm names the whole value.
fn lower_whole(arms: &Vec<SourceArm>, value: Expr, ctx: &LoweringContext) -> (r: Result<
    Expr,
    LowerError,
>)
    ensures
        gives(r, lowered_whole(arms@, value.term(), *ctx)),
    decreases *arms, 0nat,
{
    if arms.len() == 0 {
        return Ok(value);
    }
    proof {
        assert(decreases_to!(*arms => arms@));
        assert(decreases_to!(arms@ => arms@[0]));
        assert(decreases_to!(arms@[0] => arms@[0].body));
    }
    let b: Expr = match lower_expr(&arms[0].body, ctx) {
        Ok(x) => x,
        Err(e) => {
            return Err(e);
        },
    };
    match &arms[0].pattern {
        Pattern::Ident(name, _) => Ok(mk_let(name.clone(), value, b)),
        _ => Ok(value),
    }
}

/// Whether a match compares with literals.
fn is_on_literals(arms: &Vec<SourceArm>) -> (r: bool)
    ensures
        r == on_literals(arms@),
{
    let n: usize = arms.len();
    if n < 2 {
        return false;
    }
    let last: &SourceArm = &arms[n - 1];
    if last.guard.is_some() {
        return false;
    }
    match &last.pattern {
        Pattern::Wildcard(_) | Pattern::Ident(..) => {},
        _ => {
            return false;
        },
    }
    let mut i: usize = 0;
    while i < n - 1
        invariant
            n == arms@.len(),
            i <= n - 1,
            forall|j: int| 0 <= j < i ==> (#[trigger] arms@[j]).pattern is Literal,
        decreases n - i,
    {
        match &arms[i].pattern {
            Pattern::Literal(..) => {},
            _ => {
                return false;
            },
        }
        i += 1;
    }
    true
}

/// Whether the value equals the literal of a pattern.
fn mk_compare(p: &Pattern) -> (r: Expr)
    ensures
        r.term() == t_compare(*p),
{
    match p {
        Pattern::Literal(l, _) => {
            let literal: Expr = match l {
                Literal::Int(n) => mk_leaf(Op::Int(*n)),
                Literal::Float(b) => mk_leaf(Op::Float(*b)),
                Literal::Str(s) => mk(Op::Str, names1(s.clone()), kids0()),
                Literal::Bool(b) => mk_leaf(Op::Bool(*b)),
            };
            mk(Op::Binary(BinOp::Eq), names0(), kids2(mk_named("__match_value"), literal))
        },
        _ => mk_leaf(Op::Bool(true)),
    }
}

/// The test of an arm with a literal.
fn lower_test(arm: &SourceArm, ctx: &LoweringContext) -> (r: Result<Expr, LowerError>)
    ensures
        gives(r, lowered_test(*arm, *ctx)),
    decreases *arm, 0nat,
{
    let same: Expr = mk_compare(&arm.pattern);
    match &arm.guard {
        None => Ok(same),
        Some(g) => {
            let g: Expr = match lower_expr(g, ctx) {
                Ok(x) => x,
                Err(e) => {
                    return Err(e);
                },
            };
            Ok(mk(Op::Binary(BinOp::And), names0(), kids2(same, g)))
        },
    }
}

/// The arms of a match with literals from place `i` on.
fn lower_chain(arms: &Vec<SourceArm>, i: usize, ctx: &LoweringContext) -> (r: Result<
    Expr,
    LowerError,
>)
    ensures
        gives(r, lowered_chain(arms@, i as nat, *ctx)),
    decreases *arms, (arms@.len() - i) as nat,
{
    if i >= arms.len() {
        return Ok(mk_leaf(Op::Unit));
    }
    proof {
        assert(decreases_to!(*arms => arms@));
        assert(decreases_to!(arms@ => arms@[i as int]));
        assert(decreases_to!(arms@[i as int] => arms@[i as int].body));
    }
    if i + 1 == arms.len() {
        let b: Expr = match lower_expr(&arms[i].body, ctx) {
            Ok(x) => x,
            Err(e) => {
                return Err(e);
            },
        };
        return match &arms[i].pattern {
            Pattern::Ident(name, _) => Ok(mk_let(name.clone(), mk_named("__match_value"), b)),
            _ => Ok(b),
        };
    }
    let test: Expr = match lower_test(&arms[i], ctx) {
        Ok(x) => x,
        Err(e) => {
            return Err(e);
        },
    };
    let b: Expr = match lower_expr(&arms[i].body, ctx) {
        Ok(x) => x,
        Err(e) => {
            return Err(e);
        },
    };
    let rest: Expr = match lower_chain(arms, i + 1, ctx) {
        Ok(x) => x,
        Err(e) => {
            return Err(e);
        },
    };
    Ok(mk(Op::If, names0(), kids3(test, b, rest)))
}

/// The body of a select arm, with what was received bound by the arm's pattern.
fn wrap_select_arm_pattern(p: &Pattern, ctx: &LoweringContext, body: Expr) -> (r: Result<
    Expr,
    LowerError,
>)
    ensures
        gives(r, bound_by(*p, *ctx, body.term())),
{
    match p {
        Pattern::Ident(name, _) => Ok(mk_let(name.clone(), mk_named("__select_recv"), body)),
        Pattern::Wildcard(_) => Ok(body),
        Pattern::Literal(_, span) => Err(LowerError::SelectPattern(*span)),
        Pattern::Other(span) => Err(LowerError::SelectPattern(*span)),
        _ => wrap_destructure(mk_named("__select_recv"), p, ctx, body),
    }
}

/// A select arm.
fn lower_select_arm(arm: &SourceSelectArm, ctx: &LoweringContext) -> (r: Result<
    (Expr, Expr),
    LowerError,
>)
    ensures
        match r {
            Ok((a, b)) => lowered_select_arm(*arm, *ctx) == Ok::<(Term, Term), LowerFault>(
                (a.term(), b.term()),
            ),
            Err(e) => lowered_select_arm(*arm, *ctx) == Err::<(Term, Term), LowerFault>(e@),
        },
    decreases *arm, 0nat,
{
    match &arm.expr {
        Source::Call { callee, args, span } => match &**callee {
            Source::Field { base, name, .. } => {
                if !reads(name, "recv") || args.len() != 0 {
                    return Err(LowerError::SelectCall(*span));
                }
                let receiver: Expr = match lower_expr(base, ctx) {
                    Ok(x) => x,
                    Err(e) => {
                        return Err(e);
                    },
                };
                let b: Expr = match lower_expr(&arm.body, ctx) {
                    Ok(x) => x,
                    Err(e) => {
                        return Err(e);
                    },
                };
                let body: Expr = match wrap_select_arm_pattern(&arm.pattern, ctx, b) {
                    Ok(x) => x,
                    Err(e) => {
                        return Err(e);
                    },
                };
                Ok((receiver, body))
            },
            _ => Err(LowerError::SelectCall(*span)),
        },
        other => Err(LowerError::SelectCall(other.span())),
    }
}

proof fn select_fails_from(s: Seq<SourceSelectArm>, i: nat, n: nat, ctx: LoweringContext)
    requires
        i <= n <= s.len(),
        lowered_select(s, i, ctx) is Err,
    ensures
        lowered_select(s, n, ctx) == lowered_select(s, i, ctx),
    decreases n,
{
    if i < n {
        select_fails_from(s, i, (n - 1) as nat, ctx);
    }
}

/// The arms of a select, receivers and bodies alternating.
fn lower_select(s: &Vec<SourceSelectArm>, ctx: &LoweringContext) -> (r: Result<
    Vec<Expr>,
    LowerError,
>)
    ensures
        gives_list(r, lowered_select(s@, s@.len(), *ctx)),
    decreases *s, 0nat,
{
    let mut kids: Vec<Expr> = kids0();
    let mut i: usize = 0;
    while i < s.len()
        invariant
            i <= s@.len(),
            lowered_select(s@, i as nat, *ctx) == Ok::<Seq<Term>, LowerFault>(terms(kids@)),
        decreases s@.len() - i,
    {
        let ghost before: Seq<Expr> = kids@;
        proof {
            assert(decreases_to!(*s => s@));
            assert(decreases_to!(s@ => s@[i as int]));
        }
        match lower_select_arm(&s[i], ctx) {
            Ok((receiver, body)) => {
                kids.push(receiver);
                kids.push(body);
                assert(terms(kids@) =~= terms(before).push(receiver.term()).push(body.term()));
            },
            Err(e) => {
                proof {
                    select_fails_from(s@, (i + 1) as nat, s@.len(), *ctx);
                }
                return Err(e);
            },
        }
        i += 1;
    }
    Ok(kids)
}

/// A loop.
#[verifier::spinoff_prover]
fn lower_for(expr: &Source, ctx: &LoweringContext) -> (r: Result<Expr, LowerError>)
    ensures
        gives(r, lowered_for(*expr, *ctx)),
    decreases *expr, 0nat,
{
    match expr {
        Source::For { pattern, iter, body, span } => {
            let var: &String = match pattern {
                Pattern::Ident(var, _) => var,
                p => {
                    return Err(LowerError::ForPattern(p.span()));
                },
            };
            if let Source::Binary { op: BinaryOp::Range, lhs, rhs, .. } = &**iter {
                let a: Expr = match lower_expr(lhs, ctx) {
                    Ok(x) => x,
                    Err(e) => {
                        return Err(e);
                    },
                };
                let b: Expr = match lower_expr(rhs, ctx) {
                    Ok(x) => x,
                    Err(e) => {
                        return Err(e);
                    },
                };
                let c: Expr = match lower_block(body, ctx) {
                    Ok(x) => x,
                    Err(e) => {
                        return Err(e);
                    },
                };
                return Ok(mk(Op::For, names1(var.clone()), kids3(a, b, c)));
            }
            let over: Expr = match lower_expr(iter, ctx) {
                Ok(x) => x,
                Err(e) => {
                    return Err(e);
                },
            };
            let b: Expr = match lower_block(body, ctx) {
                Ok(x) => x,
                Err(e) => {
                    return Err(e);
                },
            };
            if ctx.is_array_loop(*span) {
                let each: Expr = mk_let(var.clone(), mk_element("__for_arr", "__for_i"), b);
                let run: Expr = mk_index_loop("__for_i", "__for_arr", each);
                Ok(mk_let("__for_arr".to_owned(), over, run))
            } else {
                let run: Expr = mk(
                    Op::For,
                    names1(var.clone()),
                    kids3(mk_named("__range_start"), mk_named("__range_end"), b),
                );
                let bindings: Vec<String> = names2(
                    "__range_start".to_owned(),
                    "__range_end".to_owned(),
                );
                Ok(mk_match_one(over, "0Range".to_owned(), bindings, run))
            }
        },
        _ => Err(LowerError::UnsupportedExpr(expr.span())),
    }
}

/// A statement, followed by what comes after it.
fn lower_stmt(stmt: &Stmt, rest: Expr, ctx: &LoweringContext) -> (r: Result<Expr, LowerError>)
    ensures
        gives(r, with_stmt(*stmt, rest.term(), *ctx)),
    decreases *stmt, 0nat,
{
    match stmt {
        Stmt::Let { pattern, value } => match pattern {
            Pattern::Ident(name, _) => {
                let v: Expr = match lower_expr(value, ctx) {
                    Ok(x) => x,
                    Err(e) => {
                        return Err(e);
                    },
                };
                Ok(mk_let(name.clone(), v, rest))
            },
            Pattern::Tuple(..) | Pattern::Struct { .. } => {
                let (tag, bindings) = match lower_tag_pattern(pattern, ctx) {
                    Ok(x) => x,
                    Err(e) => {
                        return Err(e);
                    },
                };
                let body: Expr = match wrap_nested_destructures(pattern, ctx, rest) {
                    Ok(x) => x,
                    Err(e) => {
                        return Err(e);
                    },
                };
                let v: Expr = match lower_expr(value, ctx) {
                    Ok(x) => x,
                    Err(e) => {
                        return Err(e);
                    },
                };
                Ok(mk_match_one(v, tag, bindings, body))
            },
            p => Err(LowerError::LetPattern(p.span())),
        },
        Stmt::Expr(e) => {
            let v: Expr = match lower_expr(e, ctx) {
                Ok(x) => x,
                Err(e) => {
                    return Err(e);
                },
            };
            Ok(mk_let("_".to_owned(), v, rest))
        },
        Stmt::Assign { name, value } => {
            let v: Expr = match lower_expr(value, ctx) {
                Ok(x) => x,
                Err(e) => {
                    return Err(e);
                },
            };
            Ok(mk_assign(name.clone(), v, rest))
        },
    }
}

proof fn stmts_fail_from(s: Seq<Stmt>, k: nat, i: nat, rest: Term, ctx: LoweringContext)
    requires
        k <= i,
        with_stmts(s, i, rest, ctx) is Err,
    ensures
        with_stmts(s, k, rest, ctx) == with_stmts(s, i, rest, ctx),
    decreases i - k,
{
    if k < i && k < s.len() {
        stmts_fail_from(s, k + 1, i, rest, ctx);
    }
}

/// A block: the last statement is lowered first.
fn lower_block(block: &Block, ctx: &LoweringContext) -> (r: Result<Expr, LowerError>)
    ensures
        gives(r, lowered_block(*block, *ctx)),
    decreases *block, 0nat,
{
    let tail: Expr = match &block.tail {
        Some(e) => match lower_expr(e, ctx) {
            Ok(x) => x,
            Err(e) => {
                return Err(e);
            },
        },
        None => mk_leaf(Op::Unit),
    };
    let ghost t: Term = tail.term();
    let mut result: Expr = tail;
    let mut k: usize = block.stmts.len();
    while k > 0
        invariant
            k <= block.stmts@.len(),
            with_stmts(block.stmts@, k as nat, t, *ctx) == Ok::<Term, LowerFault>(result.term()),
            lowered_block(*block, *ctx) == with_stmts(block.stmts@, 0, t, *ctx),
        decreases k,
    {
        proof {
            assert(decreases_to!(*block => block.stmts));
            assert(decreases_to!(block.stmts => block.stmts@));
            assert(decreases_to!(block.stmts@ => block.stmts@[k - 1]));
        }
        match lower_stmt(&block.stmts[k - 1], result, ctx) {
            Ok(x) => {
                result = x;
            },
            Err(e) => {
                proof {
                    stmts_fail_from(block.stmts@, 0, (k - 1) as nat, t, *ctx);
                }
                return Err(e);
            },
        }
        k -= 1;
    }
    Ok(result)
}

} // verus!
