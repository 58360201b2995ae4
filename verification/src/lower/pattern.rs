//! Taking patterns apart.
//!
//! A pattern with a tag becomes a match with one arm, which binds every position. A position
//! that holds another such pattern is bound to a made-up name, and a match on that name
//! takes it apart in turn.

use vstd::prelude::*;
use crate::ast::{pattern_span, FieldPattern, Pattern};
use crate::ir::{
    arm_term, arm_terms, kids1, mk_var, names_of, t_var, ArmTerm, Expr, MatchArm, Name, Op, Parts,
    Term,
};
use crate::names::{decimal, decimal_text, join_text};
use super::context::LoweringContext;
use super::error::{LowerError, LowerFault};

verus! {

/// The tag of a tuple.
pub open spec fn tuple_name(arity: nat) -> Name {
    decimal(arity) + "Tuple"@
}

/// The tag of a tuple. It starts with a digit, so it is never the name of a struct or a
/// variant.
pub fn tuple_tag(arity: usize) -> (r: String)
    ensures
        r@ == tuple_name(arity as nat),
{
    let n: String = decimal_text(arity as u64);
    join_text(n.as_str(), "Tuple")
}

/// A name made of a word and a number.
pub open spec fn numbered(word: Name, n: nat) -> Name {
    word + decimal(n)
}

pub(crate) fn numbered_name(word: &str, n: usize) -> (r: String)
    ensures
        r@ == numbered(word@, n as nat),
{
    let d: String = decimal_text(n as u64);
    join_text(word, d.as_str())
}

/// The first place of a name among the first `n`.
pub open spec fn place_of(names: Seq<Name>, n: nat, name: Name) -> Option<int>
    decreases n,
{
    if n == 0 || n > names.len() {
        None
    } else {
        match place_of(names, (n - 1) as nat, name) {
            Some(i) => Some(i),
            None => if names[n - 1] == name {
                Some(n - 1)
            } else {
                None
            },
        }
    }
}

/// A place that was found holds the name.
pub proof fn place_holds_name(names: Seq<Name>, n: nat, name: Name)
    ensures
        place_of(names, n, name) matches Some(i) ==> 0 <= i < n && n <= names.len() && names[i]
            == name,
    decreases n,
{
    if 0 < n <= names.len() {
        place_holds_name(names, (n - 1) as nat, name);
    }
}

/// The first place, among the first `n`, of a name that occurs before it.
pub open spec fn first_repeat(names: Seq<Name>, n: nat) -> Option<int>
    decreases n,
{
    if n == 0 || n > names.len() {
        None
    } else {
        match first_repeat(names, (n - 1) as nat) {
            Some(i) => Some(i),
            None => if place_of(names, (n - 1) as nat, names[n - 1]) is Some {
                Some(n - 1)
            } else {
                None
            },
        }
    }
}

/// The first place, among the first `n`, of a name that is not declared.
pub open spec fn first_extra(names: Seq<Name>, n: nat, declared: Seq<Name>) -> Option<int>
    decreases n,
{
    if n == 0 || n > names.len() {
        None
    } else {
        match first_extra(names, (n - 1) as nat, declared) {
            Some(i) => Some(i),
            None => if place_of(declared, declared.len(), names[n - 1]) is Some {
                None
            } else {
                Some(n - 1)
            },
        }
    }
}

/// The names of the fields that a pattern lists.
pub open spec fn listed(fields: Seq<FieldPattern>) -> Seq<Name> {
    fields.map_values(|f: FieldPattern| f.name@)
}

/// Whether a pattern has a tag.
pub open spec fn compound(p: Pattern) -> bool {
    p is Variant || p is Tuple || p is Struct
}

/// The tag of a pattern.
pub open spec fn tag_of(p: Pattern) -> Name {
    match p {
        Pattern::Variant { path, .. } => path.name@,
        Pattern::Struct { path, .. } => path.name@,
        Pattern::Tuple(elems, _) => tuple_name(elems@.len()),
        _ => Seq::empty(),
    }
}

/// How many positions a pattern has.
pub open spec fn sub_count(p: Pattern, ctx: LoweringContext) -> nat {
    match p {
        Pattern::Variant { args, .. } => args@.len(),
        Pattern::Tuple(elems, _) => elems@.len(),
        Pattern::Struct { path, .. } => match ctx.fields_of(path.name@) {
            Some(declared) => declared.len(),
            None => 0,
        },
        _ => 0,
    }
}

/// The pattern at a position. A struct's positions are its declared fields, in order; those
/// that are not listed have none.
pub open spec fn part(p: Pattern, ctx: LoweringContext, i: int) -> Option<Pattern> {
    match p {
        Pattern::Variant { args, .. } => if 0 <= i < args@.len() {
            Some(args@[i])
        } else {
            None
        },
        Pattern::Tuple(elems, _) => if 0 <= i < elems@.len() {
            Some(elems@[i])
        } else {
            None
        },
        Pattern::Struct { path, fields, .. } => match ctx.fields_of(path.name@) {
            Some(declared) => match place_of(
                listed(fields@),
                fields@.len(),
                declared[i],
            ) {
                Some(k) => if 0 <= k < fields@.len() {
                    Some(fields@[k].pattern)
                } else {
                    None
                },
                None => None,
            },
            None => None,
        },
        _ => None,
    }
}

/// A pattern is larger than those at its positions.
pub proof fn sub_decreases(p: Pattern, ctx: LoweringContext, i: int)
    ensures
        part(p, ctx, i) matches Some(q) ==> decreases_to!(p => q),
{
    match p {
        Pattern::Variant { args, .. } => {
            if 0 <= i < args@.len() {
                assert(decreases_to!(p => args));
                assert(decreases_to!(args => args@));
                assert(decreases_to!(args@ => args@[i]));
            }
        },
        Pattern::Tuple(elems, _) => {
            if 0 <= i < elems@.len() {
                assert(decreases_to!(p => elems));
                assert(decreases_to!(elems => elems@));
                assert(decreases_to!(elems@ => elems@[i]));
            }
        },
        Pattern::Struct { path, fields, .. } => {
            if let Some(declared) = ctx.fields_of(path.name@) {
                if let Some(k) = place_of(listed(fields@), fields@.len(), declared[i]) {
                    if 0 <= k < fields@.len() {
                        assert(decreases_to!(p => fields));
                        assert(decreases_to!(fields => fields@));
                        assert(decreases_to!(fields@ => fields@[k]));
                        assert(decreases_to!(fields@[k] => fields@[k].pattern));
                    }
                }
            }
        },
        _ => {},
    }
}

/// Whether the pattern at a position is taken apart by a match of its own.
pub open spec fn nests(p: Pattern, ctx: LoweringContext, i: int) -> bool {
    match part(p, ctx, i) {
        Some(q) => compound(q),
        None => false,
    }
}

/// How many of the first `n` positions are taken apart by matches of their own.
pub open spec fn nested_before(p: Pattern, ctx: LoweringContext, n: nat) -> nat
    decreases n,
{
    if n == 0 {
        0
    } else if nests(p, ctx, n - 1) {
        nested_before(p, ctx, (n - 1) as nat) + 1
    } else {
        nested_before(p, ctx, (n - 1) as nat)
    }
}

/// The made-up name of a position that is taken apart by a match of its own, when `word` is
/// what the made-up names at this level start with.
pub open spec fn made_up_name(p: Pattern, ctx: LoweringContext, word: Name, i: int) -> Name {
    numbered(word, nested_before(p, ctx, i as nat))
}

/// What the made-up names below a made-up name start with.
pub open spec fn below(name: Name) -> Name {
    name + "_"@
}

/// What a position is bound to.
pub open spec fn sub_name(p: Pattern, ctx: LoweringContext, word: Name, i: int) -> Name {
    match part(p, ctx, i) {
        Some(Pattern::Ident(name, _)) => name@,
        Some(q) => if compound(q) {
            made_up_name(p, ctx, word, i)
        } else {
            "_"@
        },
        None => "_"@,
    }
}

/// What the positions of a pattern are bound to, when `word` is what its made-up names start
/// with.
pub open spec fn bindings_at(p: Pattern, ctx: LoweringContext, word: Name) -> Seq<Name> {
    Seq::new(sub_count(p, ctx), |i: int| sub_name(p, ctx, word, i))
}

/// What the positions of a pattern that is not itself inside another are bound to.
pub open spec fn bindings_of(p: Pattern, ctx: LoweringContext) -> Seq<Name> {
    bindings_at(p, ctx, "__nested"@)
}

/// What is wrong with a position.
pub open spec fn sub_fault(p: Pattern, ctx: LoweringContext, i: int) -> Option<LowerFault> {
    match part(p, ctx, i) {
        Some(Pattern::Literal(_, span)) => Some(LowerFault::NestedPattern(span)),
        Some(Pattern::Other(span)) => Some(LowerFault::NestedPattern(span)),
        Some(_) => None,
        None => match p {
            Pattern::Struct { path, has_rest, span, .. } => if has_rest {
                None
            } else {
                Some(
                    LowerFault::MissingPatternField {
                        field: (ctx.fields_of(path.name@)->0)[i],
                        tag: path.name@,
                        span,
                    },
                )
            },
            _ => None,
        },
    }
}

/// What is wrong first among the first `n` positions.
pub open spec fn subs_fault(p: Pattern, ctx: LoweringContext, n: nat) -> Option<LowerFault>
    decreases n,
{
    if n == 0 {
        None
    } else {
        match subs_fault(p, ctx, (n - 1) as nat) {
            Some(e) => Some(e),
            None => sub_fault(p, ctx, n - 1),
        }
    }
}

/// What is wrong with a pattern, leaving out what stands deeper.
pub open spec fn pattern_fault(p: Pattern, ctx: LoweringContext) -> Option<LowerFault> {
    match p {
        Pattern::Variant { .. } => subs_fault(p, ctx, sub_count(p, ctx)),
        Pattern::Tuple(elems, span) => if elems@.len() == 0 {
            Some(LowerFault::EmptyTuplePattern(span))
        } else {
            subs_fault(p, ctx, sub_count(p, ctx))
        },
        Pattern::Struct { path, fields, span, .. } => match ctx.fields_of(path.name@) {
            None => Some(LowerFault::UnknownStruct { name: path.name@, span }),
            Some(declared) => match first_repeat(listed(fields@), fields@.len()) {
                Some(i) => Some(
                    LowerFault::DuplicateField { name: fields@[i].name@, span: fields@[i].span },
                ),
                None => match subs_fault(p, ctx, sub_count(p, ctx)) {
                    Some(e) => Some(e),
                    None => match first_extra(listed(fields@), fields@.len(), declared) {
                        Some(i) => Some(
                            LowerFault::NoSuchField {
                                tag: path.name@,
                                field: fields@[i].name@,
                                span,
                            },
                        ),
                        None => None,
                    },
                },
            },
        },
        _ => Some(LowerFault::DestructurePattern(pattern_span(p))),
    }
}

/// A match with one arm.
pub open spec fn t_match_one(scrutinee: Term, tag: Name, bindings: Seq<Name>, body: Term) -> Term {
    Term {
        op: Op::Match,
        names: Seq::empty(),
        types: None,
        kids: seq![scrutinee],
        arms: seq![ArmTerm { tag, bindings, guard: None, body }],
    }
}

/// A body inside the matches that take apart what stands at position `i` of a pattern and
/// after it, when `word` is what the pattern's made-up names start with.
pub open spec fn wrapped_at(
    p: Pattern,
    ctx: LoweringContext,
    word: Name,
    i: nat,
    body: Term,
) -> Result<Term, LowerFault>
    decreases p, sub_count(p, ctx) - i,
{
    if i >= sub_count(p, ctx) {
        Ok(body)
    } else {
        match wrapped_at(p, ctx, word, i + 1, body) {
            Err(e) => Err(e),
            Ok(rest) => match part(p, ctx, i as int) {
                Some(q) => {
                    proof {
                        sub_decreases(p, ctx, i as int);
                    }
                    if compound(q) {
                        let name = sub_name(p, ctx, word, i as int);
                        match pattern_fault(q, ctx) {
                            Some(e) => Err(e),
                            None => match wrapped_at(q, ctx, below(name), 0, rest) {
                                Err(e) => Err(e),
                                Ok(inner) => Ok(
                                    t_match_one(
                                        t_var(name),
                                        tag_of(q),
                                        bindings_at(q, ctx, below(name)),
                                        inner,
                                    ),
                                ),
                            },
                        }
                    } else {
                        Ok(rest)
                    }
                },
                None => Ok(rest),
            },
        }
    }
}

/// A body inside the matches that take apart what stands inside a pattern.
pub open spec fn wrapped(p: Pattern, ctx: LoweringContext, body: Term) -> Result<Term, LowerFault> {
    wrapped_at(p, ctx, "__nested"@, 0, body)
}

/// Takes a value apart by a pattern around a body.
pub open spec fn destructured(scrutinee: Term, p: Pattern, ctx: LoweringContext, body: Term) -> Result<
    Term,
    LowerFault,
> {
    match pattern_fault(p, ctx) {
        Some(e) => Err(e),
        None => match wrapped(p, ctx, body) {
            Err(e) => Err(e),
            Ok(inner) => Ok(t_match_one(scrutinee, tag_of(p), bindings_of(p, ctx), inner)),
        },
    }
}

/// Whether a result is the modelled one.
pub open spec fn gives(r: Result<Expr, LowerError>, m: Result<Term, LowerFault>) -> bool {
    match r {
        Ok(e) => m == Ok::<Term, LowerFault>(e.term()),
        Err(e) => m == Err::<Term, LowerFault>(e@),
    }
}

/// Whether an optional error is the modelled one.
pub open spec fn reports(r: Option<LowerError>, m: Option<LowerFault>) -> bool {
    match r {
        Some(e) => m == Some(e@),
        None => m is None,
    }
}

/// Makes a match with one arm.
pub(crate) fn mk_match_one(scrutinee: Expr, tag: String, bindings: Vec<String>, body: Expr) -> (r:
    Expr)
    ensures
        r.term() == t_match_one(scrutinee.term(), tag@, names_of(bindings@), body.term()),
{
    let mut arms: Vec<MatchArm> = Vec::new();
    let arm: MatchArm = MatchArm { tag, bindings, guard: None, body };
    arms.push(arm);
    assert(arm_terms(arms@) =~= seq![arm_term(arm)]);
    let names: Vec<String> = Vec::new();
    assert(names_of(names@) =~= Seq::<Name>::empty());
    Expr::from_parts(Parts { op: Op::Match, names, types: None, kids: kids1(scrutinee), arms })
}

/// The first place of a name.
pub(crate) fn find_name(names: &Vec<String>, name: &String) -> (r: Option<usize>)
    ensures
        match r {
            Some(i) => i < names@.len() && place_of(names_of(names@), names@.len(), name@) == Some(
                i as int,
            ),
            None => place_of(names_of(names@), names@.len(), name@) is None,
        },
{
    let mut i: usize = 0;
    while i < names.len()
        invariant
            i <= names@.len(),
            place_of(names_of(names@), i as nat, name@) is None,
        decreases names@.len() - i,
    {
        if names[i] == *name {
            proof {
                place_stays(names_of(names@), (i + 1) as nat, names@.len(), name@);
            }
            return Some(i);
        }
        i += 1;
    }
    None
}

/// A place once found stays the first.
pub proof fn place_stays(names: Seq<Name>, i: nat, n: nat, name: Name)
    requires
        i <= n <= names.len(),
        place_of(names, i, name) is Some,
    ensures
        place_of(names, n, name) == place_of(names, i, name),
    decreases n,
{
    if i < n {
        place_stays(names, i, (n - 1) as nat, name);
    }
}

/// The place of the field pattern with a name, among the first `n`.
fn find_field(fields: &Vec<FieldPattern>, n: usize, name: &String) -> (r: Option<usize>)
    requires
        n <= fields@.len(),
    ensures
        match r {
            Some(i) => i < n && place_of(listed(fields@), n as nat, name@) == Some(i as int),
            None => place_of(listed(fields@), n as nat, name@) is None,
        },
{
    let mut i: usize = 0;
    while i < n
        invariant
            i <= n <= fields@.len(),
            place_of(listed(fields@), i as nat, name@) is None,
        decreases n - i,
    {
        if fields[i].name == *name {
            proof {
                place_stays(listed(fields@), (i + 1) as nat, n as nat, name@);
            }
            return Some(i);
        }
        i += 1;
    }
    None
}

pub(crate) fn is_compound(p: &Pattern) -> (r: bool)
    ensures
        r == compound(*p),
{
    match p {
        Pattern::Variant { .. } | Pattern::Tuple(..) | Pattern::Struct { .. } => true,
        _ => false,
    }
}

fn count_subs(p: &Pattern, ctx: &LoweringContext) -> (r: usize)
    ensures
        r == sub_count(*p, *ctx),
{
    match p {
        Pattern::Variant { args, .. } => args.len(),
        Pattern::Tuple(elems, _) => elems.len(),
        Pattern::Struct { path, .. } => match ctx.fields(&path.name) {
            Some(declared) => declared.len(),
            None => 0,
        },
        _ => 0,
    }
}

/// The pattern at a position.
fn sub_at<'a>(p: &'a Pattern, ctx: &LoweringContext, i: usize) -> (r: Option<&'a Pattern>)
    requires
        i < sub_count(*p, *ctx),
    ensures
        match r {
            Some(q) => part(*p, *ctx, i as int) == Some(*q),
            None => part(*p, *ctx, i as int) is None,
        },
{
    match p {
        Pattern::Variant { args, .. } => Some(&args[i]),
        Pattern::Tuple(elems, _) => Some(&elems[i]),
        Pattern::Struct { path, fields, .. } => match ctx.fields(&path.name) {
            Some(declared) => match find_field(fields, fields.len(), &declared[i]) {
                Some(k) => Some(&fields[k].pattern),
                None => None,
            },
            None => None,
        },
        _ => None,
    }
}

/// What is wrong with a position.
fn check_sub(p: &Pattern, ctx: &LoweringContext, i: usize) -> (r: Option<LowerError>)
    requires
        i < sub_count(*p, *ctx),
    ensures
        reports(r, sub_fault(*p, *ctx, i as int)),
{
    match sub_at(p, ctx, i) {
        Some(Pattern::Literal(_, span)) => Some(LowerError::NestedPattern(*span)),
        Some(Pattern::Other(span)) => Some(LowerError::NestedPattern(*span)),
        Some(_) => None,
        None => match p {
            Pattern::Struct { path, has_rest, span, .. } => if *has_rest {
                None
            } else {
                match ctx.fields(&path.name) {
                    Some(declared) => Some(
                        LowerError::MissingPatternField {
                            field: declared[i].clone(),
                            tag: path.name.clone(),
                            span: *span,
                        },
                    ),
                    None => None,
                }
            },
            _ => None,
        },
    }
}

/// What is wrong first among the positions.
fn check_subs(p: &Pattern, ctx: &LoweringContext) -> (r: Option<LowerError>)
    ensures
        reports(r, subs_fault(*p, *ctx, sub_count(*p, *ctx))),
{
    let n: usize = count_subs(p, ctx);
    let mut i: usize = 0;
    while i < n
        invariant
            i <= n,
            n == sub_count(*p, *ctx),
            subs_fault(*p, *ctx, i as nat) is None,
        decreases n - i,
    {
        if let Some(e) = check_sub(p, ctx, i) {
            proof {
                subs_fault_stays(*p, *ctx, (i + 1) as nat, n as nat);
            }
            return Some(e);
        }
        i += 1;
    }
    None
}

proof fn subs_fault_stays(p: Pattern, ctx: LoweringContext, i: nat, n: nat)
    requires
        i <= n,
        subs_fault(p, ctx, i) is Some,
    ensures
        subs_fault(p, ctx, n) == subs_fault(p, ctx, i),
    decreases n,
{
    if i < n {
        subs_fault_stays(p, ctx, i, (n - 1) as nat);
    }
}

/// The first field pattern whose name occurs before it.
fn find_repeat(fields: &Vec<FieldPattern>) -> (r: Option<usize>)
    ensures
        match r {
            Some(i) => i < fields@.len() && first_repeat(listed(fields@), fields@.len()) == Some(
                i as int,
            ),
            None => first_repeat(listed(fields@), fields@.len()) is None,
        },
{
    let mut i: usize = 0;
    while i < fields.len()
        invariant
            i <= fields@.len(),
            first_repeat(listed(fields@), i as nat) is None,
        decreases fields@.len() - i,
    {
        if find_field(fields, i, &fields[i].name).is_some() {
            proof {
                repeat_stays(listed(fields@), (i + 1) as nat, fields@.len());
            }
            return Some(i);
        }
        i += 1;
    }
    None
}

/// A repetition once found stays the first.
pub proof fn repeat_stays(names: Seq<Name>, i: nat, n: nat)
    requires
        i <= n <= names.len(),
        first_repeat(names, i) is Some,
    ensures
        first_repeat(names, n) == first_repeat(names, i),
    decreases n,
{
    if i < n {
        repeat_stays(names, i, (n - 1) as nat);
    }
}

/// The first field pattern whose name is not declared.
fn find_extra(fields: &Vec<FieldPattern>, declared: &Vec<String>) -> (r: Option<usize>)
    ensures
        match r {
            Some(i) => i < fields@.len() && first_extra(
                listed(fields@),
                fields@.len(),
                names_of(declared@),
            ) == Some(i as int),
            None => first_extra(listed(fields@), fields@.len(), names_of(declared@)) is None,
        },
{
    let mut i: usize = 0;
    while i < fields.len()
        invariant
            i <= fields@.len(),
            first_extra(listed(fields@), i as nat, names_of(declared@)) is None,
        decreases fields@.len() - i,
    {
        if find_name(declared, &fields[i].name).is_none() {
            proof {
                extra_stays(listed(fields@), (i + 1) as nat, fields@.len(), names_of(declared@));
            }
            return Some(i);
        }
        i += 1;
    }
    None
}

/// An undeclared name once found stays the first.
pub proof fn extra_stays(names: Seq<Name>, i: nat, n: nat, declared: Seq<Name>)
    requires
        i <= n <= names.len(),
        first_extra(names, i, declared) is Some,
    ensures
        first_extra(names, n, declared) == first_extra(names, i, declared),
    decreases n,
{
    if i < n {
        extra_stays(names, i, (n - 1) as nat, declared);
    }
}

/// What is wrong with a pattern, leaving out what stands deeper.
fn check_pattern(p: &Pattern, ctx: &LoweringContext) -> (r: Option<LowerError>)
    ensures
        reports(r, pattern_fault(*p, *ctx)),
{
    match p {
        Pattern::Variant { .. } => check_subs(p, ctx),
        Pattern::Tuple(elems, span) => if elems.len() == 0 {
            Some(LowerError::EmptyTuplePattern(*span))
        } else {
            check_subs(p, ctx)
        },
        Pattern::Struct { path, fields, span, .. } => match ctx.fields(&path.name) {
            None => Some(LowerError::UnknownStruct { name: path.name.clone(), span: *span }),
            Some(declared) => match find_repeat(fields) {
                Some(i) => Some(
                    LowerError::DuplicateField { name: fields[i].name.clone(), span: fields[i].span },
                ),
                None => match check_subs(p, ctx) {
                    Some(e) => Some(e),
                    None => match find_extra(fields, declared) {
                        Some(i) => Some(
                            LowerError::NoSuchField {
                                tag: path.name.clone(),
                                field: fields[i].name.clone(),
                                span: *span,
                            },
                        ),
                        None => None,
                    },
                },
            },
        },
        _ => Some(LowerError::DestructurePattern(p.span())),
    }
}

fn pattern_tag(p: &Pattern) -> (r: String)
    ensures
        r@ == tag_of(*p),
{
    match p {
        Pattern::Variant { path, .. } => path.name.clone(),
        Pattern::Struct { path, .. } => path.name.clone(),
        Pattern::Tuple(elems, _) => tuple_tag(elems.len()),
        _ => String::new(),
    }
}

/// How many of the first `n` positions are taken apart by matches of their own.
fn count_nested(p: &Pattern, ctx: &LoweringContext, n: usize) -> (r: usize)
    requires
        n <= sub_count(*p, *ctx),
    ensures
        r == nested_before(*p, *ctx, n as nat),
        r <= n,
{
    let mut count: usize = 0;
    let mut i: usize = 0;
    while i < n
        invariant
            i <= n,
            n <= sub_count(*p, *ctx),
            count <= i,
            count == nested_before(*p, *ctx, i as nat),
        decreases n - i,
    {
        if let Some(q) = sub_at(p, ctx, i) {
            if is_compound(q) {
                count += 1;
            }
        }
        i += 1;
    }
    count
}

/// Whether some position is taken apart by a match of its own.
pub(crate) fn has_nested(p: &Pattern, ctx: &LoweringContext) -> (r: bool)
    ensures
        r == (nested_before(*p, *ctx, sub_count(*p, *ctx)) > 0),
{
    let n: usize = count_subs(p, ctx);
    count_nested(p, ctx, n) > 0
}

/// What a position is bound to.
fn name_of_sub(p: &Pattern, ctx: &LoweringContext, word: &str, i: usize) -> (r: String)
    requires
        i < sub_count(*p, *ctx),
    ensures
        r@ == sub_name(*p, *ctx, word@, i as int),
{
    match sub_at(p, ctx, i) {
        Some(Pattern::Ident(name, _)) => name.clone(),
        Some(q) => if is_compound(q) {
            let k: usize = count_nested(p, ctx, i);
            numbered_name(word, k)
        } else {
            "_".to_owned()
        },
        None => "_".to_owned(),
    }
}

/// What the positions of a pattern are bound to.
fn pattern_bindings(p: &Pattern, ctx: &LoweringContext, word: &str) -> (r: Vec<String>)
    ensures
        names_of(r@) == bindings_at(*p, *ctx, word@),
{
    let n: usize = count_subs(p, ctx);
    let mut r: Vec<String> = Vec::new();
    let mut i: usize = 0;
    while i < n
        invariant
            i <= n,
            n == sub_count(*p, *ctx),
            r@.len() == i,
            forall|j: int| 0 <= j < i ==> (#[trigger] r@[j])@ == sub_name(*p, *ctx, word@, j),
        decreases n - i,
    {
        r.push(name_of_sub(p, ctx, word, i));
        i += 1;
    }
    assert(names_of(r@) =~= bindings_at(*p, *ctx, word@));
    r
}

/// The tag of a pattern and what its positions are bound to.
fn tag_and_bindings(p: &Pattern, ctx: &LoweringContext, word: &str) -> (r: Result<
    (String, Vec<String>),
    LowerError,
>)
    ensures
        match r {
            Ok((tag, bindings)) => pattern_fault(*p, *ctx) is None && tag@ == tag_of(*p)
                && names_of(bindings@) == bindings_at(*p, *ctx, word@),
            Err(e) => pattern_fault(*p, *ctx) == Some(e@),
        },
{
    match check_pattern(p, ctx) {
        Some(e) => Err(e),
        None => Ok((pattern_tag(p), pattern_bindings(p, ctx, word))),
    }
}

/// The tag of a pattern that is not itself inside another, and what its positions are bound
/// to.
pub(crate) fn lower_tag_pattern(p: &Pattern, ctx: &LoweringContext) -> (r: Result<
    (String, Vec<String>),
    LowerError,
>)
    ensures
        match r {
            Ok((tag, bindings)) => pattern_fault(*p, *ctx) is None && tag@ == tag_of(*p)
                && names_of(bindings@) == bindings_of(*p, *ctx),
            Err(e) => pattern_fault(*p, *ctx) == Some(e@),
        },
{
    tag_and_bindings(p, ctx, "__nested")
}

/// Puts a body inside the matches that take apart what stands at position `i` of a pattern
/// and after it.
fn wrap_from(p: &Pattern, ctx: &LoweringContext, word: &str, i: usize, body: Expr) -> (r: Result<
    Expr,
    LowerError,
>)
    ensures
        gives(r, wrapped_at(*p, *ctx, word@, i as nat, body.term())),
    decreases *p, sub_count(*p, *ctx) - i,
{
    if i >= count_subs(p, ctx) {
        return Ok(body);
    }
    let rest: Expr = match wrap_from(p, ctx, word, i + 1, body) {
        Ok(rest) => rest,
        Err(e) => {
            return Err(e);
        },
    };
    match sub_at(p, ctx, i) {
        Some(q) => {
            proof {
                sub_decreases(*p, *ctx, i as int);
            }
            if is_compound(q) {
                let name: String = name_of_sub(p, ctx, word, i);
                let inner_word: String = join_text(name.as_str(), "_");
                match tag_and_bindings(q, ctx, inner_word.as_str()) {
                    Err(e) => Err(e),
                    Ok((tag, bindings)) => match wrap_from(q, ctx, inner_word.as_str(), 0, rest) {
                        Err(e) => Err(e),
                        Ok(inner) => Ok(mk_match_one(mk_var(name), tag, bindings, inner)),
                    },
                }
            } else {
                Ok(rest)
            }
        },
        None => Ok(rest),
    }
}

/// Puts a body inside the matches that take apart what stands inside a pattern.
pub(crate) fn wrap_nested_destructures(p: &Pattern, ctx: &LoweringContext, body: Expr) -> (r:
    Result<Expr, LowerError>)
    ensures
        gives(r, wrapped(*p, *ctx, body.term())),
{
    wrap_from(p, ctx, "__nested", 0, body)
}

/// Takes a value apart by a pattern around a body.
pub(crate) fn wrap_destructure(
    scrutinee: Expr,
    p: &Pattern,
    ctx: &LoweringContext,
    body: Expr,
) -> (r: Result<Expr, LowerError>)
    ensures
        gives(r, destructured(scrutinee.term(), *p, *ctx, body.term())),
{
    match lower_tag_pattern(p, ctx) {
        Err(e) => Err(e),
        Ok((tag, bindings)) => match wrap_nested_destructures(p, ctx, body) {
            Err(e) => Err(e),
            Ok(inner) => Ok(mk_match_one(scrutinee, tag, bindings, inner)),
        },
    }
}

} // verus!
