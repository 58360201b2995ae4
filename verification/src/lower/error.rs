//! Why a program cannot be lowered.

use vstd::prelude::*;
use crate::ast::Span;
use crate::interp::text::{quote, quoted};
use crate::ir::Name;
use crate::names::{decimal, decimal_text};

verus! {

#[derive(Debug, PartialEq)]
pub enum LowerError {
    /// A parameter with a pattern that cannot be taken apart.
    ParamPattern(Span),
    /// A `let` with a pattern that cannot be taken apart.
    LetPattern(Span),
    /// A `for` with a pattern that is not a name.
    ForPattern(Span),
    /// A select arm with a pattern that cannot be taken apart.
    SelectPattern(Span),
    /// A pattern inside another that cannot be taken apart.
    NestedPattern(Span),
    /// A pattern that cannot be taken apart by its tag.
    DestructurePattern(Span),
    /// The empty tuple as a pattern.
    EmptyTuplePattern(Span),
    /// A guard on an arm with a nested pattern.
    GuardWithNested(Span),
    /// A struct that is not declared.
    UnknownStruct { name: String, span: Span },
    /// A field given twice.
    DuplicateField { name: String, span: Span },
    /// A declared field that a pattern neither lists nor ignores.
    MissingPatternField { field: String, tag: String, span: Span },
    /// A declared field that a literal does not give.
    MissingField { field: String, tag: String, span: Span },
    /// A field that the struct does not have.
    NoSuchField { tag: String, field: String, span: Span },
    /// A field access whose struct is not known.
    UnresolvedField(Span),
    /// A variant with the wrong number of values.
    VariantArity { tag: String, expected: usize, found: usize, span: Span },
    /// A select arm that does not receive.
    SelectCall(Span),
    /// An expression that cannot be lowered.
    UnsupportedExpr(Span),
}

/// The model of an error.
pub enum LowerFault {
    ParamPattern(Span),
    LetPattern(Span),
    ForPattern(Span),
    SelectPattern(Span),
    NestedPattern(Span),
    DestructurePattern(Span),
    EmptyTuplePattern(Span),
    GuardWithNested(Span),
    UnknownStruct { name: Name, span: Span },
    DuplicateField { name: Name, span: Span },
    MissingPatternField { field: Name, tag: Name, span: Span },
    MissingField { field: Name, tag: Name, span: Span },
    NoSuchField { tag: Name, field: Name, span: Span },
    UnresolvedField(Span),
    VariantArity { tag: Name, expected: usize, found: usize, span: Span },
    SelectCall(Span),
    UnsupportedExpr(Span),
}

impl LowerError {
    pub open spec fn view(self) -> LowerFault {
        match self {
            LowerError::ParamPattern(x) => LowerFault::ParamPattern(x),
            LowerError::LetPattern(x) => LowerFault::LetPattern(x),
            LowerError::ForPattern(x) => LowerFault::ForPattern(x),
            LowerError::SelectPattern(x) => LowerFault::SelectPattern(x),
            LowerError::NestedPattern(x) => LowerFault::NestedPattern(x),
            LowerError::DestructurePattern(x) => LowerFault::DestructurePattern(x),
            LowerError::EmptyTuplePattern(x) => LowerFault::EmptyTuplePattern(x),
            LowerError::GuardWithNested(x) => LowerFault::GuardWithNested(x),
            LowerError::UnknownStruct { name, span } => LowerFault::UnknownStruct { name: name@, span },
            LowerError::DuplicateField { name, span } => LowerFault::DuplicateField { name: name@, span },
            LowerError::MissingPatternField { field, tag, span } => LowerFault::MissingPatternField { field: field@, tag: tag@, span },
            LowerError::MissingField { field, tag, span } => LowerFault::MissingField { field: field@, tag: tag@, span },
            LowerError::NoSuchField { tag, field, span } => LowerFault::NoSuchField { tag: tag@, field: field@, span },
            LowerError::UnresolvedField(x) => LowerFault::UnresolvedField(x),
            LowerError::VariantArity { tag, expected, found, span } => LowerFault::VariantArity { tag: tag@, expected, found, span },
            LowerError::SelectCall(x) => LowerFault::SelectCall(x),
            LowerError::UnsupportedExpr(x) => LowerFault::UnsupportedExpr(x),
        }
    }
}

/// How a span is shown in an error.
pub open spec fn span_text(s: Span) -> Name {
    "Span { start: "@ + decimal(s.start as nat) + ", end: "@ + decimal(s.end as nat) + " }"@
}

fn span_string(s: Span) -> (r: String)
    ensures
        r@ == span_text(s),
{
    let mut r: String = "Span { start: ".to_owned();
    r.append(decimal_text(s.start as u64).as_str());
    r.append(", end: ");
    r.append(decimal_text(s.end as u64).as_str());
    r.append(" }");
    r
}

/// The text of an error.
pub open spec fn lower_fault_text(e: LowerFault) -> Name {
    match e {
        LowerFault::ParamPattern(x) => "lowering not yet implemented for destructuring function parameters of this shape (only tuples, structs, and plain identifiers so far) at "@ + span_text(x),
        LowerFault::LetPattern(x) => "lowering not yet implemented for destructuring let-bindings of this shape (only tuples, structs, and plain identifiers so far) at "@ + span_text(x),
        LowerFault::ForPattern(x) => "lowering not yet implemented for destructuring `for` patterns at "@ + span_text(x),
        LowerFault::SelectPattern(x) => "lowering not yet implemented for this pattern shape in a `select` arm at "@ + span_text(x),
        LowerFault::NestedPattern(x) => "lowering not yet implemented for this pattern shape nested inside another pattern at "@ + span_text(x),
        LowerFault::DestructurePattern(x) => "lowering not yet implemented for this pattern shape as a destructure at "@ + span_text(x),
        LowerFault::EmptyTuplePattern(x) => "lowering not yet implemented for destructuring against the empty tuple pattern at "@ + span_text(x) + " (there's nothing to bind — match against `()` instead)"@,
        LowerFault::GuardWithNested(x) => "lowering not yet implemented for a match guard combined with a nested pattern at "@ + span_text(x),
        LowerFault::UnknownStruct { name, span } => "unknown struct type "@ + quoted(name) + " at "@ + span_text(span) + " (no declaration found in this lowering context)"@,
        LowerFault::DuplicateField { name, span } => "field "@ + quoted(name) + " specified more than once at "@ + span_text(span),
        LowerFault::MissingPatternField { field, tag, span } => "missing field "@ + quoted(field) + " for struct "@ + quoted(tag) + " pattern at "@ + span_text(span) + " (add `..` to ignore it)"@,
        LowerFault::MissingField { field, tag, span } => "missing field "@ + quoted(field) + " for struct "@ + quoted(tag) + " at "@ + span_text(span),
        LowerFault::NoSuchField { tag, field, span } => "struct "@ + quoted(tag) + " has no field named "@ + quoted(field) + " (at "@ + span_text(span) + ")"@,
        LowerFault::UnresolvedField(x) => "lowering not yet implemented for field access without a resolved owner (internal: type inference must run before lowering to populate `LoweringContext::field_owners`) at "@ + span_text(x),
        LowerFault::VariantArity { tag, expected, found, span } => "variant "@ + quoted(tag) + " expects "@ + decimal(expected as nat) + " field(s), found "@ + decimal(found as nat) + " at "@ + span_text(span),
        LowerFault::SelectCall(x) => "`select` arm requires an `expr.recv()` call at "@ + span_text(x),
        LowerFault::UnsupportedExpr(x) => "lowering not yet implemented for this expression form at "@ + span_text(x),
    }
}

impl LowerError {
    /// The text of the error.
    pub fn message(&self) -> (r: String)
        ensures
            r@ == lower_fault_text(self@),
    {
        let mut r: String = String::new();
        match self {
            LowerError::ParamPattern(x) => {
                r.append("lowering not yet implemented for destructuring function parameters of this shape (only tuples, structs, and plain identifiers so far) at ");
                r.append(span_string(*x).as_str());
            },
            LowerError::LetPattern(x) => {
                r.append("lowering not yet implemented for destructuring let-bindings of this shape (only tuples, structs, and plain identifiers so far) at ");
                r.append(span_string(*x).as_str());
            },
            LowerError::ForPattern(x) => {
                r.append("lowering not yet implemented for destructuring `for` patterns at ");
                r.append(span_string(*x).as_str());
            },
            LowerError::SelectPattern(x) => {
                r.append("lowering not yet implemented for this pattern shape in a `select` arm at ");
                r.append(span_string(*x).as_str());
            },
            LowerError::NestedPattern(x) => {
                r.append("lowering not yet implemented for this pattern shape nested inside another pattern at ");
                r.append(span_string(*x).as_str());
            },
            LowerError::DestructurePattern(x) => {
                r.append("lowering not yet implemented for this pattern shape as a destructure at ");
                r.append(span_string(*x).as_str());
            },
            LowerError::EmptyTuplePattern(x) => {
                r.append("lowering not yet implemented for destructuring against the empty tuple pattern at ");
                r.append(span_string(*x).as_str());
                r.append(" (there's nothing to bind — match against `()` instead)");
            },
            LowerError::GuardWithNested(x) => {
                r.append("lowering not yet implemented for a match guard combined with a nested pattern at ");
                r.append(span_string(*x).as_str());
            },
            LowerError::UnknownStruct { name, span } => {
                r.append("unknown struct type ");
                r.append(quote(name.as_str()).as_str());
                r.append(" at ");
                r.append(span_string(*span).as_str());
                r.append(" (no declaration found in this lowering context)");
            },
            LowerError::DuplicateField { name, span } => {
                r.append("field ");
                r.append(quote(name.as_str()).as_str());
                r.append(" specified more than once at ");
                r.append(span_string(*span).as_str());
            },
            LowerError::MissingPatternField { field, tag, span } => {
                r.append("missing field ");
                r.append(quote(field.as_str()).as_str());
                r.append(" for struct ");
                r.append(quote(tag.as_str()).as_str());
                r.append(" pattern at ");
                r.append(span_string(*span).as_str());
                r.append(" (add `..` to ignore it)");
            },
            LowerError::MissingField { field, tag, span } => {
                r.append("missing field ");
                r.append(quote(field.as_str()).as_str());
                r.append(" for struct ");
                r.append(quote(tag.as_str()).as_str());
                r.append(" at ");
                r.append(span_string(*span).as_str());
            },
            LowerError::NoSuchField { tag, field, span } => {
                r.append("struct ");
                r.append(quote(tag.as_str()).as_str());
                r.append(" has no field named ");
                r.append(quote(field.as_str()).as_str());
                r.append(" (at ");
                r.append(span_string(*span).as_str());
                r.append(")");
            },
            LowerError::UnresolvedField(x) => {
                r.append("lowering not yet implemented for field access without a resolved owner (internal: type inference must run before lowering to populate `LoweringContext::field_owners`) at ");
                r.append(span_string(*x).as_str());
            },
            LowerError::VariantArity { tag, expected, found, span } => {
                r.append("variant ");
                r.append(quote(tag.as_str()).as_str());
                r.append(" expects ");
                r.append(decimal_text(*expected as u64).as_str());
                r.append(" field(s), found ");
                r.append(decimal_text(*found as u64).as_str());
                r.append(" at ");
                r.append(span_string(*span).as_str());
            },
            LowerError::SelectCall(x) => {
                r.append("`select` arm requires an `expr.recv()` call at ");
                r.append(span_string(*x).as_str());
            },
            LowerError::UnsupportedExpr(x) => {
                r.append("lowering not yet implemented for this expression form at ");
                r.append(span_string(*x).as_str());
            },
        }
        assert(r@ =~= lower_fault_text(self@));
        r
    }
}

} // verus!
