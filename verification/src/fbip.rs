//! Reference counting with reuse in place.
//!
//! [`optimize`] runs in two steps. The first inserts reference count adjustments for the
//! bindings whose values are known to be heap cells. The second marks where an operation
//! may build its result in the memory of a value it uses up.

use vstd::prelude::*;
use crate::ir::{Expr, Function, FunctionTerm, Global, GlobalTerm, Name, Program, ProgramTerm, Term};
use crate::names::{NameMap, NameSet};

pub mod balance;
pub mod inplace;
pub mod last_use;
pub mod laws;
pub mod paid;
pub mod params;
pub mod paths;
pub mod refcount;
pub mod release;
pub mod reuse;
pub mod running;
pub mod uses;

pub use params::{confirmed_array_or_str_params, reusable_params};
pub use release::release_match_bindings;

verus! {

/// The optimised form of a term, when the names in `seed` may be reused.
pub open spec fn optimized(t: Term, seed: Set<Name>) -> Term {
    reuse::reused(refcount::counted(t, Set::empty()), seed, seed)
}

/// The names that may be reused in the function `f`.
pub open spec fn seed_of(seeds: Map<Name, Set<Name>>, f: Name) -> Set<Name> {
    if seeds.dom().contains(f) {
        seeds[f]
    } else {
        Set::empty()
    }
}

/// The optimised form of a program, when `seeds` tells which parameters may be reused.
pub open spec fn optimized_program(p: ProgramTerm, seeds: Map<Name, Set<Name>>) -> ProgramTerm {
    ProgramTerm {
        functions: Seq::new(
            p.functions.len(),
            |j: int|
                FunctionTerm {
                    body: optimized(p.functions[j].body, seed_of(seeds, p.functions[j].name)),
                    ..p.functions[j]
                },
        ),
        globals: Seq::new(
            p.globals.len(),
            |j: int|
                GlobalTerm { value: optimized(p.globals[j].value, Set::empty()), ..p.globals[j] },
        ),
        externs: p.externs,
    }
}

/// Inserts reference count adjustments by last-use analysis.
pub fn insert_refcount_ops(expr: Expr) -> (r: Expr)
    ensures
        r.term() == refcount::counted(expr.term(), Set::empty()),
{
    refcount::transform(expr, &NameSet::new())
}

/// Marks where memory can be reused in place.
pub fn mark_reuse(expr: Expr) -> (r: Expr)
    ensures
        r.term() == reuse::reused(expr.term(), Set::empty(), Set::empty()),
{
    reuse::mark_reuse_scoped(expr, &NameSet::new())
}

/// Inserts reference count adjustments, then marks where memory can be reused.
pub fn optimize(expr: Expr) -> (r: Expr)
    ensures
        r.term() == optimized(expr.term(), Set::empty()),
{
    mark_reuse(insert_refcount_ops(expr))
}

/// Optimises every function body and global of a program.
pub fn optimize_program(program: Program) -> (r: Program)
    ensures
        r.term() == optimized_program(
            program.term(),
            params::reusable_upto(program.term(), program.functions@.len()),
        ),
{
    let reusable: NameMap<NameSet> = reusable_params(&program);
    optimize_program_with_reusable_params(program, &reusable)
}

/// Optimises every function body and global of a program, when `reusable` tells which
/// parameters may be reused in place. Parameters are not counted either way.
pub fn optimize_program_with_reusable_params(program: Program, reusable: &NameMap<NameSet>) -> (r:
    Program)
    ensures
        r.term() == optimized_program(program.term(), params::sets_of(reusable@)),
{
    let ghost t: ProgramTerm = program.term();
    let ghost seeds: Map<Name, Set<Name>> = params::sets_of(reusable@);
    let ghost goal: ProgramTerm = optimized_program(t, seeds);
    let mut functions: Vec<Function> = Vec::new();
    let mut from: Vec<Function> = program.functions;
    let ghost all: Seq<Function> = from@;
    let n: usize = from.len();
    let mut i: usize = 0;
    while i < n
        invariant
            i <= n,
            n == all.len(),
            from@ == all.skip(i as int),
            t.functions == all.map_values(|f: Function| f.term()),
            seeds == params::sets_of(reusable@),
            goal == optimized_program(t, seeds),
            functions@.len() == i,
            forall|j: int|
                0 <= j < i ==> (#[trigger] functions@[j]).term() == goal.functions[j],
        decreases n - i,
    {
        let f: Function = from.remove(0);
        assert(f.term() == t.functions[i as int]);
        let counted: Expr = insert_refcount_ops(f.body);
        let body: Expr = match reusable.get(&f.name) {
            Some(seed) => reuse::mark_reuse_scoped(counted, seed),
            None => reuse::mark_reuse_scoped(counted, &NameSet::new()),
        };
        functions.push(Function { name: f.name, params: f.params, body });
        i += 1;
        assert(from@ =~= all.skip(i as int));
    }
    let mut globals: Vec<Global> = Vec::new();
    let mut from: Vec<Global> = program.globals;
    let ghost all: Seq<Global> = from@;
    let n: usize = from.len();
    let mut i: usize = 0;
    while i < n
        invariant
            i <= n,
            n == all.len(),
            from@ == all.skip(i as int),
            t.globals == all.map_values(|g: Global| g.term()),
            goal == optimized_program(t, seeds),
            globals@.len() == i,
            forall|j: int| 0 <= j < i ==> (#[trigger] globals@[j]).term() == goal.globals[j],
        decreases n - i,
    {
        let g: Global = from.remove(0);
        assert(g.term() == t.globals[i as int]);
        globals.push(Global { name: g.name, value: optimize(g.value) });
        i += 1;
        assert(from@ =~= all.skip(i as int));
    }
    let r: Program = Program { functions, globals, externs: program.externs };
    assert(r.term().functions =~= goal.functions);
    assert(r.term().globals =~= goal.globals);
    r
}

} // verus!
