//! Lowering programs.

use vstd::prelude::*;
use crate::ast::{Item, LetDef, Param, ParamKind, Pattern, Program as Source};
use crate::ir::{
    mk_var, names_of, t_var, Expr, ExternDecl, Function, FunctionTerm, Global, GlobalTerm, Name,
    Program, ProgramTerm, Term,
};
use super::context::LoweringContext;
use super::error::{LowerError, LowerFault};
use super::expr::{lower_expr, lowered};
use super::pattern::{destructured, gives, numbered, numbered_name, wrap_destructure};

verus! {

/// The pattern that takes a parameter apart.
pub open spec fn apart(p: Param) -> Option<Pattern> {
    match p.kind {
        ParamKind::Pattern(q) => match q {
            Pattern::Tuple(..) | Pattern::Struct { .. } => Some(q),
            _ => None,
        },
        _ => None,
    }
}

/// The name of the parameter at place `i`. One that is taken apart has a made-up name.
pub open spec fn param_name(p: Param, i: nat) -> Result<Name, LowerFault> {
    match p.kind {
        ParamKind::Ident(name) => Ok(name@),
        ParamKind::Pattern(q) => match q {
            Pattern::Ident(name, _) => Ok(name@),
            _ => if apart(p) is Some {
                Ok(numbered("__param"@, i))
            } else {
                Err(LowerFault::ParamPattern(p.span))
            },
        },
    }
}

/// The names of the first `n` parameters.
pub open spec fn param_names(ps: Seq<Param>, n: nat) -> Result<Seq<Name>, LowerFault>
    decreases n,
{
    if n == 0 || n > ps.len() {
        Ok(Seq::empty())
    } else {
        match param_names(ps, (n - 1) as nat) {
            Err(e) => Err(e),
            Ok(names) => match param_name(ps[n - 1], (n - 1) as nat) {
                Err(e) => Err(e),
                Ok(name) => Ok(names.push(name)),
            },
        }
    }
}

/// A body inside the matches that take apart the parameters from place `k` on.
pub open spec fn with_params(ps: Seq<Param>, k: nat, body: Term, ctx: LoweringContext) -> Result<
    Term,
    LowerFault,
>
    decreases ps.len() - k,
{
    if k >= ps.len() {
        Ok(body)
    } else {
        match with_params(ps, k + 1, body, ctx) {
            Err(e) => Err(e),
            Ok(rest) => match apart(ps[k as int]) {
                Some(q) => destructured(t_var(numbered("__param"@, k)), q, ctx, rest),
                None => Ok(rest),
            },
        }
    }
}

/// A function definition.
pub open spec fn lowered_function(def: LetDef, ctx: LoweringContext) -> Result<
    FunctionTerm,
    LowerFault,
> {
    match param_names(def.params@, def.params@.len()) {
        Err(e) => Err(e),
        Ok(params) => match lowered(def.body, ctx) {
            Err(e) => Err(e),
            Ok(b) => match with_params(def.params@, 0, b, ctx) {
                Err(e) => Err(e),
                Ok(body) => Ok(FunctionTerm { name: def.name@, params, body }),
            },
        },
    }
}

/// The functions and globals of the first `n` items. A definition with parameters is a
/// function, one without is a global.
pub open spec fn lowered_items(items: Seq<Item>, n: nat, ctx: LoweringContext) -> Result<
    ProgramTerm,
    LowerFault,
>
    decreases n,
{
    if n == 0 || n > items.len() {
        Ok(ProgramTerm { functions: Seq::empty(), globals: Seq::empty(), externs: Seq::empty() })
    } else {
        match lowered_items(items, (n - 1) as nat, ctx) {
            Err(e) => Err(e),
            Ok(p) => match items[n - 1] {
                Item::Let(def) => if def.params@.len() == 0 {
                    match lowered(def.body, ctx) {
                        Err(e) => Err(e),
                        Ok(value) => Ok(
                            ProgramTerm {
                                globals: p.globals.push(GlobalTerm { name: def.name@, value }),
                                ..p
                            },
                        ),
                    }
                } else {
                    match lowered_function(def, ctx) {
                        Err(e) => Err(e),
                        Ok(f) => Ok(ProgramTerm { functions: p.functions.push(f), ..p }),
                    }
                },
                _ => Ok(p),
            },
        }
    }
}

/// The names of parameters.
fn lower_params(ps: &Vec<Param>) -> (r: Result<Vec<String>, LowerError>)
    ensures
        match r {
            Ok(names) => param_names(ps@, ps@.len()) == Ok::<Seq<Name>, LowerFault>(
                names_of(names@),
            ),
            Err(e) => param_names(ps@, ps@.len()) == Err::<Seq<Name>, LowerFault>(e@),
        },
{
    let mut names: Vec<String> = Vec::new();
    assert(names_of(names@) =~= Seq::<Name>::empty());
    let mut i: usize = 0;
    while i < ps.len()
        invariant
            i <= ps@.len(),
            param_names(ps@, i as nat) == Ok::<Seq<Name>, LowerFault>(names_of(names@)),
        decreases ps@.len() - i,
    {
        let ghost before: Seq<String> = names@;
        let name: String = match &ps[i].kind {
            ParamKind::Ident(name) => name.clone(),
            ParamKind::Pattern(q) => match q {
                Pattern::Ident(name, _) => name.clone(),
                Pattern::Tuple(..) | Pattern::Struct { .. } => numbered_name("__param", i),
                _ => {
                    proof {
                        params_fail_from(ps@, (i + 1) as nat, ps@.len());
                    }
                    return Err(LowerError::ParamPattern(ps[i].span));
                },
            },
        };
        names.push(name);
        assert(names_of(names@) =~= names_of(before).push(name@));
        i += 1;
    }
    Ok(names)
}

proof fn params_fail_from(ps: Seq<Param>, i: nat, n: nat)
    requires
        i <= n <= ps.len(),
        param_names(ps, i) is Err,
    ensures
        param_names(ps, n) == param_names(ps, i),
    decreases n,
{
    if i < n {
        params_fail_from(ps, i, (n - 1) as nat);
    }
}

proof fn wrapping_fails_from(ps: Seq<Param>, k: nat, i: nat, body: Term, ctx: LoweringContext)
    requires
        k <= i,
        with_params(ps, i, body, ctx) is Err,
    ensures
        with_params(ps, k, body, ctx) == with_params(ps, i, body, ctx),
    decreases i - k,
{
    if k < i && k < ps.len() {
        wrapping_fails_from(ps, k + 1, i, body, ctx);
    }
}

/// Takes parameters apart around a body.
fn wrap_params(ps: &Vec<Param>, body: Expr, ctx: &LoweringContext) -> (r: Result<Expr, LowerError>)
    ensures
        gives(r, with_params(ps@, 0, body.term(), *ctx)),
{
    let ghost b: Term = body.term();
    let mut result: Expr = body;
    let mut k: usize = ps.len();
    while k > 0
        invariant
            k <= ps@.len(),
            b == body.term(),
            with_params(ps@, k as nat, b, *ctx) == Ok::<Term, LowerFault>(result.term()),
        decreases k,
    {
        let i: usize = k - 1;
        if let ParamKind::Pattern(q) = &ps[i].kind {
            match q {
                Pattern::Tuple(..) | Pattern::Struct { .. } => {
                    let name: Expr = mk_var(numbered_name("__param", i));
                    match wrap_destructure(name, q, ctx, result) {
                        Ok(x) => {
                            result = x;
                        },
                        Err(e) => {
                            proof {
                                wrapping_fails_from(ps@, 0, i as nat, b, *ctx);
                            }
                            return Err(e);
                        },
                    }
                },
                _ => {},
            }
        }
        k = i;
    }
    Ok(result)
}

proof fn items_fail_from(items: Seq<Item>, i: nat, n: nat, ctx: LoweringContext)
    requires
        i <= n <= items.len(),
        lowered_items(items, i, ctx) is Err,
    ensures
        lowered_items(items, n, ctx) == lowered_items(items, i, ctx),
    decreases n,
{
    if i < n {
        items_fail_from(items, i, (n - 1) as nat, ctx);
    }
}

/// A function definition.
fn lower_function(def: &LetDef, ctx: &LoweringContext) -> (r: Result<Function, LowerError>)
    ensures
        match r {
            Ok(f) => lowered_function(*def, *ctx) == Ok::<FunctionTerm, LowerFault>(f.term()),
            Err(e) => lowered_function(*def, *ctx) == Err::<FunctionTerm, LowerFault>(e@),
        },
{
    let params: Vec<String> = match lower_params(&def.params) {
        Ok(x) => x,
        Err(e) => {
            return Err(e);
        },
    };
    let inner: Expr = match lower_expr(&def.body, ctx) {
        Ok(x) => x,
        Err(e) => {
            return Err(e);
        },
    };
    match wrap_params(&def.params, inner, ctx) {
        Ok(body) => Ok(Function { name: def.name.clone(), params, body }),
        Err(e) => Err(e),
    }
}

/// Lowers the definitions of a program: those with parameters to functions, those without to
/// globals. Other items have no run-time part.
pub fn lower_program(program: &Source, ctx: &LoweringContext) -> (r: Result<Program, LowerError>)
    ensures
        match r {
            Ok(p) => lowered_items(program.items@, program.items@.len(), *ctx) == Ok::<
                ProgramTerm,
                LowerFault,
            >(p.term()),
            Err(e) => lowered_items(program.items@, program.items@.len(), *ctx) == Err::<
                ProgramTerm,
                LowerFault,
            >(e@),
        },
{
    let mut functions: Vec<Function> = Vec::new();
    let mut globals: Vec<Global> = Vec::new();
    let externs: Vec<ExternDecl> = Vec::new();
    let mut i: usize = 0;
    let ghost mut so_far: ProgramTerm = ProgramTerm {
        functions: Seq::empty(),
        globals: Seq::empty(),
        externs: Seq::empty(),
    };
    while i < program.items.len()
        invariant
            i <= program.items@.len(),
            so_far.functions == functions@.map_values(|f: Function| f.term()),
            so_far.globals == globals@.map_values(|g: Global| g.term()),
            so_far.externs == Seq::<ExternDecl>::empty(),
            lowered_items(program.items@, i as nat, *ctx) == Ok::<ProgramTerm, LowerFault>(so_far),
        decreases program.items@.len() - i,
    {
        if let Item::Let(def) = &program.items[i] {
            if def.params.len() == 0 {
                match lower_expr(&def.body, ctx) {
                    Ok(value) => {
                        let ghost before: Seq<Global> = globals@;
                        let g: Global = Global { name: def.name.clone(), value };
                        globals.push(g);
                        proof {
                            assert(globals@.map_values(|g: Global| g.term()) =~= before.map_values(
                                |g: Global| g.term(),
                            ).push(g.term()));
                            so_far = ProgramTerm {
                                globals: so_far.globals.push(g.term()),
                                ..so_far
                            };
                        }
                    },
                    Err(e) => {
                        proof {
                            items_fail_from(
                                program.items@,
                                (i + 1) as nat,
                                program.items@.len(),
                                *ctx,
                            );
                        }
                        return Err(e);
                    },
                }
            } else {
                match lower_function(def, ctx) {
                    Ok(f) => {
                        let ghost before: Seq<Function> = functions@;
                        functions.push(f);
                        proof {
                            assert(functions@.map_values(|f: Function| f.term())
                                =~= before.map_values(|f: Function| f.term()).push(f.term()));
                            so_far = ProgramTerm {
                                functions: so_far.functions.push(f.term()),
                                ..so_far
                            };
                        }
                    },
                    Err(e) => {
                        proof {
                            items_fail_from(
                                program.items@,
                                (i + 1) as nat,
                                program.items@.len(),
                                *ctx,
                            );
                        }
                        return Err(e);
                    },
                }
            }
        }
        i += 1;
    }
    let p: Program = Program { functions, globals, externs };
    assert(p.term() =~= so_far);
    Ok(p)
}

/// Whether an item defines a function, or else a global.
pub open spec fn defines(item: Item, function: bool) -> bool {
    item matches Item::Let(def) && (def.params@.len() > 0) == function
}

/// How many of the first `n` items define a function, or else a global.
pub open spec fn defined_before(items: Seq<Item>, n: nat, function: bool) -> nat
    decreases n,
{
    if n == 0 {
        0
    } else {
        defined_before(items, (n - 1) as nat, function) + if defines(items[n - 1], function) {
            1nat
        } else {
            0
        }
    }
}

/// A program has a function for each definition with parameters, and a global for each without
/// any, in the order of the definitions. Each has the name of its definition, a function has
/// as many parameters, and a global has the definition's own value.
pub proof fn each_definition_stands_in_its_place(
    items: Seq<Item>,
    n: nat,
    ctx: LoweringContext,
    i: int,
)
    requires
        n <= items.len(),
        0 <= i < n,
        lowered_items(items, n, ctx) is Ok,
    ensures
        ({
            let p = lowered_items(items, n, ctx)->Ok_0;
            let f = defined_before(items, i as nat, true) as int;
            let g = defined_before(items, i as nat, false) as int;
            &&& p.functions.len() == defined_before(items, n, true)
            &&& p.globals.len() == defined_before(items, n, false)
            &&& items[i] matches Item::Let(def) ==> if def.params@.len() > 0 {
                &&& 0 <= f < p.functions.len()
                &&& p.functions[f].name == def.name@
                &&& p.functions[f].params.len() == def.params@.len()
                &&& lowered_function(def, ctx) == Ok::<FunctionTerm, LowerFault>(p.functions[f])
            } else {
                &&& 0 <= g < p.globals.len()
                &&& p.globals[g].name == def.name@
                &&& lowered(def.body, ctx) == Ok::<Term, LowerFault>(p.globals[g].value)
            }
        }),
    decreases n,
{
    items_are_counted(items, (n - 1) as nat, ctx);
    if i < n - 1 {
        each_definition_stands_in_its_place(items, (n - 1) as nat, ctx, i);
    } else if let Item::Let(def) = items[i] {
        if def.params@.len() > 0 {
            params_are_counted(def.params@, def.params@.len());
        }
    }
}

proof fn items_are_counted(items: Seq<Item>, n: nat, ctx: LoweringContext)
    requires
        n <= items.len(),
        lowered_items(items, n, ctx) is Ok,
    ensures
        lowered_items(items, n, ctx)->Ok_0.functions.len() == defined_before(items, n, true),
        lowered_items(items, n, ctx)->Ok_0.globals.len() == defined_before(items, n, false),
    decreases n,
{
    if n > 0 {
        items_are_counted(items, (n - 1) as nat, ctx);
    }
}

proof fn params_are_counted(ps: Seq<Param>, n: nat)
    requires
        n <= ps.len(),
        param_names(ps, n) is Ok,
    ensures
        param_names(ps, n)->Ok_0.len() == n,
    decreases n,
{
    if n > 0 {
        params_are_counted(ps, (n - 1) as nat);
    }
}

} // verus!
