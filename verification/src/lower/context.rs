//! What lowering knows of a program's declarations.

use vstd::prelude::*;
use crate::ast::{EnumDecl, Item, Span};
use crate::ir::{names_of, Name};
use crate::names::{copy_names, NameMap};

verus! {

/// The declarations that lowering consults: the field order of structs and the variants of
/// enums, and what type inference has found out about field accesses and loops.
pub struct LoweringContext {
    struct_fields: NameMap<Vec<String>>,
    variants: NameMap<usize>,
    field_owners: Vec<(Span, String)>,
    array_for_loops: Vec<Span>,
}

/// The last of several entries for a span.
pub open spec fn owner_in(s: Seq<(Span, String)>, span: Span) -> Option<Name>
    decreases s.len(),
{
    if s.len() == 0 {
        None
    } else if s.last().0 == span {
        Some(s.last().1@)
    } else {
        owner_in(s.drop_last(), span)
    }
}

impl LoweringContext {
    /// The declared fields of a struct, in order.
    pub closed spec fn fields_of(self, name: Name) -> Option<Seq<Name>> {
        if self.struct_fields@.dom().contains(name) {
            Some(names_of(self.struct_fields@[name]@))
        } else {
            None
        }
    }

    /// How many values a variant holds.
    pub closed spec fn arity_of(self, name: Name) -> Option<usize> {
        if self.variants@.dom().contains(name) {
            Some(self.variants@[name])
        } else {
            None
        }
    }

    /// The struct that a field access reads from.
    pub closed spec fn owner_of(self, span: Span) -> Option<Name> {
        owner_in(self.field_owners@, span)
    }

    /// Whether the loop at a span goes over an array.
    pub closed spec fn loops_over_array(self, span: Span) -> bool {
        self.array_for_loops@.contains(span)
    }

    /// A context without declarations.
    pub fn new() -> (r: Self)
        ensures
            forall|name: Name| (#[trigger] r.fields_of(name)) is None,
            forall|name: Name| (#[trigger] r.arity_of(name)) is None,
            forall|span: Span| (#[trigger] r.owner_of(span)) is None,
            forall|span: Span| !(#[trigger] r.loops_over_array(span)),
    {
        LoweringContext {
            struct_fields: NameMap::new(),
            variants: NameMap::new(),
            field_owners: Vec::new(),
            array_for_loops: Vec::new(),
        }
    }

    /// The context with the structs that field accesses read from, by the span of the access.
    /// The last entry for a span counts.
    pub fn with_field_owners(self, field_owners: Vec<(Span, String)>) -> (r: Self)
        ensures
            forall|span: Span| #[trigger] r.owner_of(span) == owner_in(field_owners@, span),
            forall|name: Name| #[trigger] r.fields_of(name) == self.fields_of(name),
            forall|name: Name| #[trigger] r.arity_of(name) == self.arity_of(name),
            forall|span: Span| #[trigger] r.loops_over_array(span) == self.loops_over_array(span),
    {
        LoweringContext {
            struct_fields: self.struct_fields,
            variants: self.variants,
            field_owners,
            array_for_loops: self.array_for_loops,
        }
    }

    /// The context with the loops that go over an array, by the span of the loop.
    pub fn with_array_for_loops(self, array_for_loops: Vec<Span>) -> (r: Self)
        ensures
            forall|span: Span| #[trigger]
                r.loops_over_array(span) == array_for_loops@.contains(span),
            forall|name: Name| #[trigger] r.fields_of(name) == self.fields_of(name),
            forall|name: Name| #[trigger] r.arity_of(name) == self.arity_of(name),
            forall|span: Span| #[trigger] r.owner_of(span) == self.owner_of(span),
    {
        LoweringContext {
            struct_fields: self.struct_fields,
            variants: self.variants,
            field_owners: self.field_owners,
            array_for_loops,
        }
    }

    /// The declared fields of a struct.
    pub fn fields(&self, name: &String) -> (r: Option<&Vec<String>>)
        ensures
            match r {
                Some(fields) => self.fields_of(name@) == Some(names_of(fields@)),
                None => self.fields_of(name@) is None,
            },
    {
        self.struct_fields.get(name)
    }

    /// How many values a variant holds.
    pub fn arity(&self, name: &String) -> (r: Option<usize>)
        ensures
            r == self.arity_of(name@),
    {
        match self.variants.get(name) {
            Some(n) => Some(*n),
            None => None,
        }
    }

    /// The struct that a field access reads from.
    pub fn owner(&self, span: Span) -> (r: Option<&String>)
        ensures
            match r {
                Some(name) => self.owner_of(span) == Some(name@),
                None => self.owner_of(span) is None,
            },
    {
        let mut i: usize = self.field_owners.len();
        assert(self.field_owners@.take(i as int) =~= self.field_owners@);
        while i > 0
            invariant
                i <= self.field_owners@.len(),
                owner_in(self.field_owners@.take(i as int), span) == self.owner_of(span),
            decreases i,
        {
            let ghost head: Seq<(Span, String)> = self.field_owners@.take(i as int);
            assert(head.last() == self.field_owners@[i - 1]);
            assert(head.drop_last() =~= self.field_owners@.take(i - 1));
            i -= 1;
            if self.field_owners[i].0 == span {
                return Some(&self.field_owners[i].1);
            }
        }
        None
    }

    /// Whether the loop at a span goes over an array.
    pub fn is_array_loop(&self, span: Span) -> (r: bool)
        ensures
            r == self.loops_over_array(span),
    {
        let mut i: usize = 0;
        while i < self.array_for_loops.len()
            invariant
                i <= self.array_for_loops@.len(),
                forall|j: int| 0 <= j < i ==> self.array_for_loops@[j] != span,
            decreases self.array_for_loops@.len() - i,
        {
            if self.array_for_loops[i] == span {
                return true;
            }
            i += 1;
        }
        false
    }

    fn add_enum(&mut self, decl: &EnumDecl)
        ensures
            final(self).struct_fields == old(self).struct_fields,
            final(self).field_owners == old(self).field_owners,
            final(self).array_for_loops == old(self).array_for_loops,
            forall|name: Name| #[trigger]
                final(self).arity_of(name) == variant_among(
                    *decl,
                    decl.variants@.len(),
                    name,
                    old(self).arity_of(name),
                ),
    {
        let mut i: usize = 0;
        while i < decl.variants.len()
            invariant
                i <= decl.variants@.len(),
                self.struct_fields == old(self).struct_fields,
                self.field_owners == old(self).field_owners,
                self.array_for_loops == old(self).array_for_loops,
                forall|name: Name| #[trigger]
                    self.arity_of(name) == variant_among(
                        *decl,
                        i as nat,
                        name,
                        old(self).arity_of(name),
                    ),
            decreases decl.variants@.len() - i,
        {
            let ghost before: LoweringContext = *self;
            self.variants.insert(decl.variants[i].name.clone(), decl.variants[i].arity);
            proof {
                assert forall|name: Name| #[trigger]
                    self.arity_of(name) == variant_among(
                        *decl,
                        (i + 1) as nat,
                        name,
                        old(self).arity_of(name),
                    ) by {
                    assert(before.arity_of(name) == variant_among(
                        *decl,
                        i as nat,
                        name,
                        old(self).arity_of(name),
                    ));
                }
            }
            i += 1;
        }
    }

    /// The context of a program's declarations. Of several declarations of a name the last
    /// counts.
    pub fn from_items(items: &[Item]) -> (r: Self)
        ensures
            forall|name: Name| #[trigger]
                r.fields_of(name) == declared_fields(items@, items@.len(), name),
            forall|name: Name| #[trigger]
                r.arity_of(name) == declared_arity(items@, items@.len(), name),
            forall|span: Span| (#[trigger] r.owner_of(span)) is None,
            forall|span: Span| !(#[trigger] r.loops_over_array(span)),
    {
        let mut r: LoweringContext = LoweringContext {
            struct_fields: NameMap::new(),
            variants: NameMap::new(),
            field_owners: Vec::new(),
            array_for_loops: Vec::new(),
        };
        let mut i: usize = 0;
        while i < items.len()
            invariant
                i <= items@.len(),
                forall|name: Name| #[trigger]
                    r.fields_of(name) == declared_fields(items@, i as nat, name),
                forall|name: Name| #[trigger]
                    r.arity_of(name) == declared_arity(items@, i as nat, name),
                r.field_owners@.len() == 0,
                r.array_for_loops@.len() == 0,
            decreases items@.len() - i,
        {
            let ghost before: LoweringContext = r;
            match &items[i] {
                Item::Struct(decl) => {
                    r.struct_fields.insert(decl.name.clone(), copy_names(&decl.fields));
                },
                Item::Enum(decl) => {
                    r.add_enum(decl);
                },
                _ => {},
            }
            proof {
                assert forall|name: Name| #[trigger]
                    r.fields_of(name) == declared_fields(items@, (i + 1) as nat, name) by {
                    assert(before.fields_of(name) == declared_fields(items@, i as nat, name));
                }
                assert forall|name: Name| #[trigger]
                    r.arity_of(name) == declared_arity(items@, (i + 1) as nat, name) by {
                    assert(before.arity_of(name) == declared_arity(items@, i as nat, name));
                }
            }
            i += 1;
        }
        r
    }
}

/// The arity of a variant once the first `n` variants of an enum are declared.
pub open spec fn variant_among(decl: EnumDecl, n: nat, name: Name, before: Option<usize>) -> Option<
    usize,
>
    decreases n,
{
    if n == 0 || n > decl.variants@.len() {
        before
    } else if decl.variants@[n - 1].name@ == name {
        Some(decl.variants@[n - 1].arity)
    } else {
        variant_among(decl, (n - 1) as nat, name, before)
    }
}

/// The fields of a struct that the first `n` items declare.
pub open spec fn declared_fields(items: Seq<Item>, n: nat, name: Name) -> Option<Seq<Name>>
    decreases n,
{
    if n == 0 || n > items.len() {
        None
    } else {
        match items[n - 1] {
            Item::Struct(decl) => if decl.name@ == name {
                Some(names_of(decl.fields@))
            } else {
                declared_fields(items, (n - 1) as nat, name)
            },
            _ => declared_fields(items, (n - 1) as nat, name),
        }
    }
}

/// The arity of a variant that the first `n` items declare.
pub open spec fn declared_arity(items: Seq<Item>, n: nat, name: Name) -> Option<usize>
    decreases n,
{
    if n == 0 || n > items.len() {
        None
    } else {
        let before = declared_arity(items, (n - 1) as nat, name);
        match items[n - 1] {
            Item::Enum(decl) => variant_among(decl, decl.variants@.len(), name, before),
            _ => before,
        }
    }
}

impl Default for LoweringContext {
    fn default() -> (r: Self)
        ensures
            forall|name: Name| (#[trigger] r.fields_of(name)) is None,
            forall|name: Name| (#[trigger] r.arity_of(name)) is None,
            forall|span: Span| (#[trigger] r.owner_of(span)) is None,
            forall|span: Span| !(#[trigger] r.loops_over_array(span)),
    {
        LoweringContext::new()
    }
}

} // verus!
