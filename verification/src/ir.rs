//! The intermediate representation, and the mathematical model that the contracts of
//! every pass speak of.
//!
//! An [`Expr`] is modelled as a [`Term`]: an operator, the names written at the node, and
//! the direct children in evaluation order. A `Match` keeps its arms apart from its
//! children, because an arm also binds names. Passes that treat most nodes alike take a
//! node apart with [`Expr::into_parts`] and put it together again with
//! [`Expr::from_parts`].

use vstd::prelude::*;

verus! {

/// The model of an identifier, a tag or a literal text.
pub type Name = Seq<char>;

#[derive(Debug, Clone, Copy, PartialEq, Eq, Structural)]
pub enum Type {
    Int,
    Bool,
    Unit,
}

/// The element type of an empty array literal.
#[derive(Debug, Clone, Copy, PartialEq, Eq, Structural)]
pub enum PrimTy {
    Int,
    Float,
    Bool,
    Unit,
    Str,
}

/// A reference count adjustment.
#[derive(Debug, Clone, Copy, PartialEq, Eq, Structural)]
pub enum RcOp {
    Inc,
    Dec,
}

#[derive(Debug, Clone, Copy, PartialEq, Eq, Structural)]
pub enum UnOp {
    Neg,
    Not,
}

#[derive(Debug, Clone, Copy, PartialEq, Eq, Structural)]
pub enum BinOp {
    Add,
    Sub,
    Mul,
    Div,
    Rem,
    Eq,
    Ne,
    Lt,
    Gt,
    Le,
    Ge,
    And,
    Or,
}

/// An expression. Children are listed in the order in which they are evaluated.
#[allow(inconsistent_fields)]
#[derive(Debug, PartialEq)]
pub enum Expr {
    /// An integer literal.
    Int(i64),
    /// A floating-point literal, held as its IEEE 754 bit pattern.
    Float(u64),
    /// A string literal. It allocates a heap cell when evaluated.
    Str(String),
    /// A boolean literal.
    Bool(bool),
    /// `()`, the only value of the unit type.
    Unit,
    /// A reference to a binding, a global or a function.
    Var(String),
    /// An empty array literal whose element type is known.
    EmptyArray(PrimTy),
    /// A unary operator.
    Unary(UnOp, Box<Expr>),
    /// Hands a string to foreign code as a C string. Consumes its operand.
    AsCStr(Box<Expr>),
    /// Turns a C string back into a string.
    AsString(Box<Expr>),
    /// Truncates a float to an integer.
    ToIntTrunc(Box<Expr>),
    /// Rounds a float to an integer.
    ToIntRound(Box<Expr>),
    /// Converts an integer to a float.
    ToFloat(Box<Expr>),
    /// A binary operator. `And` and `Or` evaluate the right operand only when needed.
    Binary(BinOp, Box<Expr>, Box<Expr>),
    /// Binds `name` to `value` while `body` runs.
    Let {
        name: String,
        value: Box<Expr>,
        body: Box<Expr>,
    },
    /// Runs one of two branches.
    If {
        cond: Box<Expr>,
        then_branch: Box<Expr>,
        else_branch: Box<Expr>,
    },
    /// Calls a function or a closure.
    Call {
        callee: Box<Expr>,
        args: Vec<Expr>,
    },
    /// Calls a foreign function by name.
    ExternCall {
        name: String,
        args: Vec<Expr>,
    },
    /// Allocates a tagged heap cell with positional fields.
    Ctor {
        tag: String,
        fields: Vec<Expr>,
    },
    /// Builds a tagged cell in the memory of `reuse_of` when nothing else refers to it,
    /// and in fresh memory otherwise.
    CtorReuse {
        reuse_of: String,
        tag: String,
        fields: Vec<Expr>,
    },
    /// Deconstructs `scrutinee` by tag. Arms are tried in order; the first whose tag matches
    /// and whose guard holds wins.
    Match {
        scrutinee: Box<Expr>,
        arms: Vec<MatchArm>,
    },
    /// Adjusts the reference count of `target`, then runs `rest`.
    RcAnnotated {
        op: RcOp,
        target: String,
        rest: Box<Expr>,
    },
    /// Runs `body` once per integer from `start` up to, not including, `end`.
    For {
        var: String,
        start: Box<Expr>,
        end: Box<Expr>,
        body: Box<Expr>,
    },
    /// A closure literal. It captures the environment it is made in.
    Closure {
        params: Vec<String>,
        param_types: Option<Vec<Type>>,
        ret_type: Option<Type>,
        body: Box<Expr>,
    },
    /// Rebinds an existing `name` to `value`, then runs `rest`.
    Assign {
        name: String,
        value: Box<Expr>,
        rest: Box<Expr>,
    },
    /// Runs `block` as a separate task with a heap of its own.
    Spawn {
        block: Box<Expr>,
    },
    /// Waits for a task and yields its result.
    TaskJoin {
        task: Box<Expr>,
    },
    /// Makes a channel and yields its two ends as a pair tagged `tag`.
    Channel {
        tag: String,
    },
    /// Sends a value on a channel.
    ChannelSend {
        sender: Box<Expr>,
        value: Box<Expr>,
    },
    /// Waits for a value on a channel.
    ChannelRecv {
        receiver: Box<Expr>,
    },
    /// Makes a mutable reference cell.
    RefNew {
        value: Box<Expr>,
    },
    /// Reads a reference cell.
    RefGet {
        base: Box<Expr>,
    },
    /// Writes a reference cell.
    RefSet {
        base: Box<Expr>,
        value: Box<Expr>,
    },
    /// Reads a file.
    ReadFileRaw {
        path: Box<Expr>,
    },
    /// Writes a file.
    WriteFileRaw {
        path: Box<Expr>,
        contents: Box<Expr>,
    },
    /// Reads an environment variable.
    EnvVarRaw {
        name: Box<Expr>,
    },
    /// The command-line arguments.
    ArgsRaw,
    /// A random number.
    RandomRaw,
    /// Stops the program with a message.
    PanicRaw {
        message: Box<Expr>,
    },
    /// Waits for the first of several channels to have a value, then runs that arm.
    Select {
        arms: Vec<SelectArm>,
    },
    /// Reads the element of `base` at a run-time index.
    Index {
        base: Box<Expr>,
        index: Box<Expr>,
    },
    /// The number of elements of an array, or of bytes of a string.
    ArrayLen {
        array: Box<Expr>,
    },
    /// A new array with `value` appended.
    ArrayPush {
        array: Box<Expr>,
        value: Box<Expr>,
    },
    /// A new array without the last element.
    ArrayPop {
        array: Box<Expr>,
    },
    /// A new array with the element at `index` replaced.
    ArraySet {
        array: Box<Expr>,
        index: Box<Expr>,
        value: Box<Expr>,
    },
    /// A new array without the element at `index`.
    ArrayRemove {
        array: Box<Expr>,
        index: Box<Expr>,
    },
    /// `ArrayPush` in the memory of `reuse_of` when nothing else refers to it.
    ArrayPushReuse {
        reuse_of: String,
        value: Box<Expr>,
    },
    /// `ArrayPop` in the memory of `reuse_of` when nothing else refers to it.
    ArrayPopReuse {
        reuse_of: String,
    },
    /// `ArraySet` in the memory of `reuse_of` when nothing else refers to it.
    ArraySetReuse {
        reuse_of: String,
        index: Box<Expr>,
        value: Box<Expr>,
    },
    /// `ArrayRemove` in the memory of `reuse_of` when nothing else refers to it.
    ArrayRemoveReuse {
        reuse_of: String,
        index: Box<Expr>,
    },
    /// A new string with `other` appended to `base`.
    StrConcat {
        base: Box<Expr>,
        other: Box<Expr>,
    },
    /// `StrConcat` in the memory of `reuse_of` when nothing else refers to it.
    StrConcatReuse {
        reuse_of: String,
        other: Box<Expr>,
    },
    /// An array of the code points of a string.
    StrRunes {
        base: Box<Expr>,
    },
    /// A new string without leading and trailing white space.
    StrTrim {
        base: Box<Expr>,
    },
    /// `StrTrim` in the memory of `reuse_of` when nothing else refers to it.
    StrTrimReuse {
        reuse_of: String,
    },
    /// An array of the pieces of `base` between occurrences of `sep`.
    StrSplit {
        base: Box<Expr>,
        sep: Box<Expr>,
    },
    /// A new string in upper case.
    StrToUpper {
        base: Box<Expr>,
    },
    /// `StrToUpper` in the memory of `reuse_of` when nothing else refers to it.
    StrToUpperReuse {
        reuse_of: String,
    },
    /// A new string in lower case.
    StrToLower {
        base: Box<Expr>,
    },
    /// `StrToLower` in the memory of `reuse_of` when nothing else refers to it.
    StrToLowerReuse {
        reuse_of: String,
    },
    /// Whether `needle` occurs in `base`.
    StrContains {
        base: Box<Expr>,
        needle: Box<Expr>,
    },
    /// Whether `base` starts with `prefix`.
    StrStartsWith {
        base: Box<Expr>,
        prefix: Box<Expr>,
    },
    /// Whether `base` ends with `suffix`.
    StrEndsWith {
        base: Box<Expr>,
        suffix: Box<Expr>,
    },
    /// A new string with every `from` in `base` replaced by `to`.
    StrReplace {
        base: Box<Expr>,
        from: Box<Expr>,
        to: Box<Expr>,
    },
    /// `StrReplace` in the memory of `reuse_of` when nothing else refers to it.
    StrReplaceReuse {
        reuse_of: String,
        from: Box<Expr>,
        to: Box<Expr>,
    },
    /// The printed form of a value.
    ToString {
        base: Box<Expr>,
    },
    /// A hash of a string.
    StrHash {
        base: Box<Expr>,
    },
}

/// One arm of a `Select`: a channel to wait on, and what to run with the value. The body
/// finds the received value under the name `__select_recv`.
#[derive(Debug, PartialEq)]
pub struct SelectArm {
    pub receiver: Expr,
    pub body: Expr,
}

/// One arm of a `Match`. The guard runs with `bindings` in scope, after the tag matched
/// and before the body; when it does not hold, the next arm is tried.
#[derive(Debug, PartialEq)]
pub struct MatchArm {
    pub tag: String,
    pub bindings: Vec<String>,
    pub guard: Option<Box<Expr>>,
    pub body: Expr,
}

/// A named top-level function.
#[derive(Debug, PartialEq)]
pub struct Function {
    pub name: String,
    pub params: Vec<String>,
    pub body: Expr,
}

/// A top-level value, evaluated once when the program is loaded. It may refer to earlier
/// globals and to any function.
#[derive(Debug, PartialEq)]
pub struct Global {
    pub name: String,
    pub value: Expr,
}

/// The declaration of a foreign function.
#[derive(Debug, PartialEq)]
pub struct ExternDecl {
    pub name: String,
    pub params: Vec<Type>,
    pub ret: Type,
}

#[derive(Debug, PartialEq)]
pub struct Program {
    pub functions: Vec<Function>,
    pub globals: Vec<Global>,
    pub externs: Vec<ExternDecl>,
}

/// What a node is, apart from its names and children.
#[derive(Debug, Clone, Copy, PartialEq, Eq, Structural)]
pub enum Op {
    Int(i64),
    Float(u64),
    Str,
    Bool(bool),
    Unit,
    Var,
    EmptyArray(PrimTy),
    Unary(UnOp),
    AsCStr,
    AsString,
    ToIntTrunc,
    ToIntRound,
    ToFloat,
    Binary(BinOp),
    Let,
    If,
    Call,
    ExternCall,
    Ctor,
    CtorReuse,
    Match,
    RcAnnotated(RcOp),
    For,
    Closure(Option<Type>),
    Assign,
    Spawn,
    TaskJoin,
    Channel,
    ChannelSend,
    ChannelRecv,
    RefNew,
    RefGet,
    RefSet,
    ReadFileRaw,
    WriteFileRaw,
    EnvVarRaw,
    ArgsRaw,
    RandomRaw,
    PanicRaw,
    Select,
    Index,
    ArrayLen,
    ArrayPush,
    ArrayPop,
    ArraySet,
    ArrayRemove,
    ArrayPushReuse,
    ArrayPopReuse,
    ArraySetReuse,
    ArrayRemoveReuse,
    StrConcat,
    StrConcatReuse,
    StrRunes,
    StrTrim,
    StrTrimReuse,
    StrSplit,
    StrToUpper,
    StrToUpperReuse,
    StrToLower,
    StrToLowerReuse,
    StrContains,
    StrStartsWith,
    StrEndsWith,
    StrReplace,
    StrReplaceReuse,
    ToString,
    StrHash,
}

/// The model of an expression.
#[verifier::ext_equal]
pub struct Term {
    pub op: Op,
    pub names: Seq<Name>,
    /// The declared parameter types of a closure.
    pub types: Option<Seq<Type>>,
    pub kids: Seq<Term>,
    pub arms: Seq<ArmTerm>,
}

/// The model of a match arm.
#[verifier::ext_equal]
pub struct ArmTerm {
    pub tag: Name,
    pub bindings: Seq<Name>,
    pub guard: Option<Term>,
    pub body: Term,
}

/// The model of a list of names.
pub open spec fn names_of(v: Seq<String>) -> Seq<Name> {
    v.map_values(|s: String| s@)
}

/// The model of an optional list of types.
pub open spec fn types_of(v: Option<Vec<Type>>) -> Option<Seq<Type>> {
    match v {
        Some(ts) => Some(ts@),
        None => None,
    }
}

/// A node that is not a match.
pub open spec fn node(op: Op, names: Seq<Name>, kids: Seq<Term>) -> Term {
    Term { op, names, types: None, kids, arms: Seq::empty() }
}

/// A node without children.
pub open spec fn leaf(op: Op) -> Term {
    node(op, Seq::empty(), Seq::empty())
}

pub open spec fn t_var(name: Name) -> Term {
    node(Op::Var, seq![name], Seq::empty())
}

pub open spec fn t_let(name: Name, value: Term, body: Term) -> Term {
    node(Op::Let, seq![name], seq![value, body])
}

pub open spec fn t_assign(name: Name, value: Term, rest: Term) -> Term {
    node(Op::Assign, seq![name], seq![value, rest])
}

pub open spec fn t_rc(op: RcOp, target: Name, rest: Term) -> Term {
    node(Op::RcAnnotated(op), seq![target], seq![rest])
}

impl Expr {
    /// The model of this expression.
    #[verifier::opaque]
    pub open spec fn term(self) -> Term {
        self.model()
    }

    /// The definition of [`Expr::term`], by recursion over the expression.
    pub open spec fn model(self) -> Term
        decreases self,
    {
        match self {
            Expr::Int(n) => leaf(Op::Int(n)),
            Expr::Float(bits) => leaf(Op::Float(bits)),
            Expr::Str(text) => node(Op::Str, seq![text@], Seq::empty()),
            Expr::Bool(b) => leaf(Op::Bool(b)),
            Expr::Unit => leaf(Op::Unit),
            Expr::Var(name) => node(Op::Var, seq![name@], Seq::empty()),
            Expr::EmptyArray(ty) => leaf(Op::EmptyArray(ty)),
            Expr::Unary(op, operand) => node(Op::Unary(op), Seq::empty(), seq![operand.model()]),
            Expr::AsCStr(operand) => node(Op::AsCStr, Seq::empty(), seq![operand.model()]),
            Expr::AsString(operand) => node(Op::AsString, Seq::empty(), seq![operand.model()]),
            Expr::ToIntTrunc(operand) => node(Op::ToIntTrunc, Seq::empty(), seq![operand.model()]),
            Expr::ToIntRound(operand) => node(Op::ToIntRound, Seq::empty(), seq![operand.model()]),
            Expr::ToFloat(operand) => node(Op::ToFloat, Seq::empty(), seq![operand.model()]),
            Expr::Binary(op, lhs, rhs) => node(Op::Binary(op), Seq::empty(), seq![lhs.model(), rhs.model()]),
            Expr::Let { name, value, body } => node(Op::Let, seq![name@], seq![value.model(), body.model()]),
            Expr::If { cond, then_branch, else_branch } => node(Op::If, Seq::empty(), seq![cond.model(), then_branch.model(), else_branch.model()]),
            Expr::Call { callee, args } => node(Op::Call, Seq::empty(), seq![callee.model()] + models(args@)),
            Expr::ExternCall { name, args } => node(Op::ExternCall, seq![name@], models(args@)),
            Expr::Ctor { tag, fields } => node(Op::Ctor, seq![tag@], models(fields@)),
            Expr::CtorReuse { reuse_of, tag, fields } => node(Op::CtorReuse, seq![reuse_of@, tag@], models(fields@)),
            Expr::Match { scrutinee, arms } => Term {
                op: Op::Match,
                names: Seq::empty(),
                types: None,
                kids: seq![scrutinee.model()],
                arms: arm_models(arms@),
            },
            Expr::RcAnnotated { op, target, rest } => node(Op::RcAnnotated(op), seq![target@], seq![rest.model()]),
            Expr::For { var, start, end, body } => node(Op::For, seq![var@], seq![start.model(), end.model(), body.model()]),
            Expr::Closure { params, param_types, ret_type, body } => Term {
                op: Op::Closure(ret_type),
                names: names_of(params@),
                types: types_of(param_types),
                kids: seq![body.model()],
                arms: Seq::empty(),
            },
            Expr::Assign { name, value, rest } => node(Op::Assign, seq![name@], seq![value.model(), rest.model()]),
            Expr::Spawn { block } => node(Op::Spawn, Seq::empty(), seq![block.model()]),
            Expr::TaskJoin { task } => node(Op::TaskJoin, Seq::empty(), seq![task.model()]),
            Expr::Channel { tag } => node(Op::Channel, seq![tag@], Seq::empty()),
            Expr::ChannelSend { sender, value } => node(Op::ChannelSend, Seq::empty(), seq![sender.model(), value.model()]),
            Expr::ChannelRecv { receiver } => node(Op::ChannelRecv, Seq::empty(), seq![receiver.model()]),
            Expr::RefNew { value } => node(Op::RefNew, Seq::empty(), seq![value.model()]),
            Expr::RefGet { base } => node(Op::RefGet, Seq::empty(), seq![base.model()]),
            Expr::RefSet { base, value } => node(Op::RefSet, Seq::empty(), seq![base.model(), value.model()]),
            Expr::ReadFileRaw { path } => node(Op::ReadFileRaw, Seq::empty(), seq![path.model()]),
            Expr::WriteFileRaw { path, contents } => node(Op::WriteFileRaw, Seq::empty(), seq![path.model(), contents.model()]),
            Expr::EnvVarRaw { name } => node(Op::EnvVarRaw, Seq::empty(), seq![name.model()]),
            Expr::ArgsRaw => leaf(Op::ArgsRaw),
            Expr::RandomRaw => leaf(Op::RandomRaw),
            Expr::PanicRaw { message } => node(Op::PanicRaw, Seq::empty(), seq![message.model()]),
            Expr::Select { arms } => node(Op::Select, Seq::empty(), select_models(arms@)),
            Expr::Index { base, index } => node(Op::Index, Seq::empty(), seq![base.model(), index.model()]),
            Expr::ArrayLen { array } => node(Op::ArrayLen, Seq::empty(), seq![array.model()]),
            Expr::ArrayPush { array, value } => node(Op::ArrayPush, Seq::empty(), seq![array.model(), value.model()]),
            Expr::ArrayPop { array } => node(Op::ArrayPop, Seq::empty(), seq![array.model()]),
            Expr::ArraySet { array, index, value } => node(Op::ArraySet, Seq::empty(), seq![array.model(), index.model(), value.model()]),
            Expr::ArrayRemove { array, index } => node(Op::ArrayRemove, Seq::empty(), seq![array.model(), index.model()]),
            Expr::ArrayPushReuse { reuse_of, value } => node(Op::ArrayPushReuse, seq![reuse_of@], seq![value.model()]),
            Expr::ArrayPopReuse { reuse_of } => node(Op::ArrayPopReuse, seq![reuse_of@], Seq::empty()),
            Expr::ArraySetReuse { reuse_of, index, value } => node(Op::ArraySetReuse, seq![reuse_of@], seq![index.model(), value.model()]),
            Expr::ArrayRemoveReuse { reuse_of, index } => node(Op::ArrayRemoveReuse, seq![reuse_of@], seq![index.model()]),
            Expr::StrConcat { base, other } => node(Op::StrConcat, Seq::empty(), seq![base.model(), other.model()]),
            Expr::StrConcatReuse { reuse_of, other } => node(Op::StrConcatReuse, seq![reuse_of@], seq![other.model()]),
            Expr::StrRunes { base } => node(Op::StrRunes, Seq::empty(), seq![base.model()]),
            Expr::StrTrim { base } => node(Op::StrTrim, Seq::empty(), seq![base.model()]),
            Expr::StrTrimReuse { reuse_of } => node(Op::StrTrimReuse, seq![reuse_of@], Seq::empty()),
            Expr::StrSplit { base, sep } => node(Op::StrSplit, Seq::empty(), seq![base.model(), sep.model()]),
            Expr::StrToUpper { base } => node(Op::StrToUpper, Seq::empty(), seq![base.model()]),
            Expr::StrToUpperReuse { reuse_of } => node(Op::StrToUpperReuse, seq![reuse_of@], Seq::empty()),
            Expr::StrToLower { base } => node(Op::StrToLower, Seq::empty(), seq![base.model()]),
            Expr::StrToLowerReuse { reuse_of } => node(Op::StrToLowerReuse, seq![reuse_of@], Seq::empty()),
            Expr::StrContains { base, needle } => node(Op::StrContains, Seq::empty(), seq![base.model(), needle.model()]),
            Expr::StrStartsWith { base, prefix } => node(Op::StrStartsWith, Seq::empty(), seq![base.model(), prefix.model()]),
            Expr::StrEndsWith { base, suffix } => node(Op::StrEndsWith, Seq::empty(), seq![base.model(), suffix.model()]),
            Expr::StrReplace { base, from, to } => node(Op::StrReplace, Seq::empty(), seq![base.model(), from.model(), to.model()]),
            Expr::StrReplaceReuse { reuse_of, from, to } => node(Op::StrReplaceReuse, seq![reuse_of@], seq![from.model(), to.model()]),
            Expr::ToString { base } => node(Op::ToString, Seq::empty(), seq![base.model()]),
            Expr::StrHash { base } => node(Op::StrHash, Seq::empty(), seq![base.model()]),
        }
    }
}

pub open spec fn models(s: Seq<Expr>) -> Seq<Term>
    decreases s,
{
    Seq::new(s.len(), |i: int| if 0 <= i < s.len() { s[i].model() } else { leaf(Op::Unit) })
}

pub open spec fn select_models(s: Seq<SelectArm>) -> Seq<Term>
    decreases s,
{
    Seq::new(
        2 * s.len(),
        |i: int|
            if 0 <= i < 2 * s.len() {
                if i % 2 == 0 {
                    s[i / 2].receiver.model()
                } else {
                    s[i / 2].body.model()
                }
            } else {
                leaf(Op::Unit)
            },
    )
}

pub open spec fn arm_models(s: Seq<MatchArm>) -> Seq<ArmTerm>
    decreases s,
{
    Seq::new(s.len(), |i: int| if 0 <= i < s.len() { arm_model(s[i]) } else { arbitrary() })
}

pub open spec fn guard_model(g: Option<Box<Expr>>) -> Option<Term>
    decreases g,
{
    match g {
        Some(e) => Some(e.model()),
        None => None,
    }
}

pub open spec fn arm_model(arm: MatchArm) -> ArmTerm
    decreases arm,
{
    ArmTerm {
        tag: arm.tag@,
        bindings: names_of(arm.bindings@),
        guard: guard_model(arm.guard),
        body: arm.body.model(),
    }
}

/// The models of a list of expressions.
pub open spec fn terms(s: Seq<Expr>) -> Seq<Term> {
    Seq::new(s.len(), |i: int| s[i].term())
}

/// The models of the arms of a select: each receiver followed by its body.
pub open spec fn select_terms(s: Seq<SelectArm>) -> Seq<Term> {
    Seq::new(
        2 * s.len(),
        |i: int|
            if i % 2 == 0 {
                s[i / 2].receiver.term()
            } else {
                s[i / 2].body.term()
            },
    )
}

/// The model of an optional guard.
pub open spec fn guard_term(g: Option<Box<Expr>>) -> Option<Term> {
    match g {
        Some(e) => Some(e.term()),
        None => None,
    }
}

/// The model of a match arm.
pub open spec fn arm_term(arm: MatchArm) -> ArmTerm {
    ArmTerm {
        tag: arm.tag@,
        bindings: names_of(arm.bindings@),
        guard: guard_term(arm.guard),
        body: arm.body.term(),
    }
}

/// The models of the arms of a match.
pub open spec fn arm_terms(s: Seq<MatchArm>) -> Seq<ArmTerm> {
    Seq::new(s.len(), |i: int| arm_term(s[i]))
}

proof fn models_are_terms(s: Seq<Expr>)
    ensures
        models(s) == terms(s),
{
    reveal(Expr::term);
    assert(models(s) =~= terms(s));
}

proof fn select_models_are_terms(s: Seq<SelectArm>)
    ensures
        select_models(s) == select_terms(s),
{
    reveal(Expr::term);
    assert(select_models(s) =~= select_terms(s));
}

proof fn arm_models_are_terms(s: Seq<MatchArm>)
    ensures
        arm_models(s) == arm_terms(s),
{
    reveal(Expr::term);
    assert forall|i: int| 0 <= i < s.len() implies arm_models(s)[i] == #[trigger] arm_terms(
        s,
    )[i] by {
        assert(arm_model(s[i]) == arm_term(s[i]));
    }
    assert(arm_models(s) =~= arm_terms(s));
}

/// What [`Expr::term`] is, one level deep.
proof fn term_unfolds(e: Expr)
    ensures
        e.term() == (match e {
            Expr::Int(n) => leaf(Op::Int(n)),
            Expr::Float(bits) => leaf(Op::Float(bits)),
            Expr::Str(text) => node(Op::Str, seq![text@], Seq::empty()),
            Expr::Bool(b) => leaf(Op::Bool(b)),
            Expr::Unit => leaf(Op::Unit),
            Expr::Var(name) => node(Op::Var, seq![name@], Seq::empty()),
            Expr::EmptyArray(ty) => leaf(Op::EmptyArray(ty)),
            Expr::Unary(op, operand) => node(Op::Unary(op), Seq::empty(), seq![operand.term()]),
            Expr::AsCStr(operand) => node(Op::AsCStr, Seq::empty(), seq![operand.term()]),
            Expr::AsString(operand) => node(Op::AsString, Seq::empty(), seq![operand.term()]),
            Expr::ToIntTrunc(operand) => node(Op::ToIntTrunc, Seq::empty(), seq![operand.term()]),
            Expr::ToIntRound(operand) => node(Op::ToIntRound, Seq::empty(), seq![operand.term()]),
            Expr::ToFloat(operand) => node(Op::ToFloat, Seq::empty(), seq![operand.term()]),
            Expr::Binary(op, lhs, rhs) => node(Op::Binary(op), Seq::empty(), seq![lhs.term(), rhs.term()]),
            Expr::Let { name, value, body } => node(Op::Let, seq![name@], seq![value.term(), body.term()]),
            Expr::If { cond, then_branch, else_branch } => node(Op::If, Seq::empty(), seq![cond.term(), then_branch.term(), else_branch.term()]),
            Expr::Call { callee, args } => node(Op::Call, Seq::empty(), seq![callee.term()] + terms(args@)),
            Expr::ExternCall { name, args } => node(Op::ExternCall, seq![name@], terms(args@)),
            Expr::Ctor { tag, fields } => node(Op::Ctor, seq![tag@], terms(fields@)),
            Expr::CtorReuse { reuse_of, tag, fields } => node(Op::CtorReuse, seq![reuse_of@, tag@], terms(fields@)),
            Expr::Match { scrutinee, arms } => Term {
                op: Op::Match,
                names: Seq::empty(),
                types: None,
                kids: seq![scrutinee.term()],
                arms: arm_terms(arms@),
            },
            Expr::RcAnnotated { op, target, rest } => node(Op::RcAnnotated(op), seq![target@], seq![rest.term()]),
            Expr::For { var, start, end, body } => node(Op::For, seq![var@], seq![start.term(), end.term(), body.term()]),
            Expr::Closure { params, param_types, ret_type, body } => Term {
                op: Op::Closure(ret_type),
                names: names_of(params@),
                types: types_of(param_types),
                kids: seq![body.term()],
                arms: Seq::empty(),
            },
            Expr::Assign { name, value, rest } => node(Op::Assign, seq![name@], seq![value.term(), rest.term()]),
            Expr::Spawn { block } => node(Op::Spawn, Seq::empty(), seq![block.term()]),
            Expr::TaskJoin { task } => node(Op::TaskJoin, Seq::empty(), seq![task.term()]),
            Expr::Channel { tag } => node(Op::Channel, seq![tag@], Seq::empty()),
            Expr::ChannelSend { sender, value } => node(Op::ChannelSend, Seq::empty(), seq![sender.term(), value.term()]),
            Expr::ChannelRecv { receiver } => node(Op::ChannelRecv, Seq::empty(), seq![receiver.term()]),
            Expr::RefNew { value } => node(Op::RefNew, Seq::empty(), seq![value.term()]),
            Expr::RefGet { base } => node(Op::RefGet, Seq::empty(), seq![base.term()]),
            Expr::RefSet { base, value } => node(Op::RefSet, Seq::empty(), seq![base.term(), value.term()]),
            Expr::ReadFileRaw { path } => node(Op::ReadFileRaw, Seq::empty(), seq![path.term()]),
            Expr::WriteFileRaw { path, contents } => node(Op::WriteFileRaw, Seq::empty(), seq![path.term(), contents.term()]),
            Expr::EnvVarRaw { name } => node(Op::EnvVarRaw, Seq::empty(), seq![name.term()]),
            Expr::ArgsRaw => leaf(Op::ArgsRaw),
            Expr::RandomRaw => leaf(Op::RandomRaw),
            Expr::PanicRaw { message } => node(Op::PanicRaw, Seq::empty(), seq![message.term()]),
            Expr::Select { arms } => node(Op::Select, Seq::empty(), select_terms(arms@)),
            Expr::Index { base, index } => node(Op::Index, Seq::empty(), seq![base.term(), index.term()]),
            Expr::ArrayLen { array } => node(Op::ArrayLen, Seq::empty(), seq![array.term()]),
            Expr::ArrayPush { array, value } => node(Op::ArrayPush, Seq::empty(), seq![array.term(), value.term()]),
            Expr::ArrayPop { array } => node(Op::ArrayPop, Seq::empty(), seq![array.term()]),
            Expr::ArraySet { array, index, value } => node(Op::ArraySet, Seq::empty(), seq![array.term(), index.term(), value.term()]),
            Expr::ArrayRemove { array, index } => node(Op::ArrayRemove, Seq::empty(), seq![array.term(), index.term()]),
            Expr::ArrayPushReuse { reuse_of, value } => node(Op::ArrayPushReuse, seq![reuse_of@], seq![value.term()]),
            Expr::ArrayPopReuse { reuse_of } => node(Op::ArrayPopReuse, seq![reuse_of@], Seq::empty()),
            Expr::ArraySetReuse { reuse_of, index, value } => node(Op::ArraySetReuse, seq![reuse_of@], seq![index.term(), value.term()]),
            Expr::ArrayRemoveReuse { reuse_of, index } => node(Op::ArrayRemoveReuse, seq![reuse_of@], seq![index.term()]),
            Expr::StrConcat { base, other } => node(Op::StrConcat, Seq::empty(), seq![base.term(), other.term()]),
            Expr::StrConcatReuse { reuse_of, other } => node(Op::StrConcatReuse, seq![reuse_of@], seq![other.term()]),
            Expr::StrRunes { base } => node(Op::StrRunes, Seq::empty(), seq![base.term()]),
            Expr::StrTrim { base } => node(Op::StrTrim, Seq::empty(), seq![base.term()]),
            Expr::StrTrimReuse { reuse_of } => node(Op::StrTrimReuse, seq![reuse_of@], Seq::empty()),
            Expr::StrSplit { base, sep } => node(Op::StrSplit, Seq::empty(), seq![base.term(), sep.term()]),
            Expr::StrToUpper { base } => node(Op::StrToUpper, Seq::empty(), seq![base.term()]),
            Expr::StrToUpperReuse { reuse_of } => node(Op::StrToUpperReuse, seq![reuse_of@], Seq::empty()),
            Expr::StrToLower { base } => node(Op::StrToLower, Seq::empty(), seq![base.term()]),
            Expr::StrToLowerReuse { reuse_of } => node(Op::StrToLowerReuse, seq![reuse_of@], Seq::empty()),
            Expr::StrContains { base, needle } => node(Op::StrContains, Seq::empty(), seq![base.term(), needle.term()]),
            Expr::StrStartsWith { base, prefix } => node(Op::StrStartsWith, Seq::empty(), seq![base.term(), prefix.term()]),
            Expr::StrEndsWith { base, suffix } => node(Op::StrEndsWith, Seq::empty(), seq![base.term(), suffix.term()]),
            Expr::StrReplace { base, from, to } => node(Op::StrReplace, Seq::empty(), seq![base.term(), from.term(), to.term()]),
            Expr::StrReplaceReuse { reuse_of, from, to } => node(Op::StrReplaceReuse, seq![reuse_of@], seq![from.term(), to.term()]),
            Expr::ToString { base } => node(Op::ToString, Seq::empty(), seq![base.term()]),
            Expr::StrHash { base } => node(Op::StrHash, Seq::empty(), seq![base.term()]),
        }),
{
    reveal(Expr::term);
    match e {
        Expr::Match { scrutinee, arms } => {
            arm_models_are_terms(arms@);
        },
        Expr::Select { arms } => {
            select_models_are_terms(arms@);
        },
        Expr::Call { callee, args } => {
            models_are_terms(args@);
        },
        Expr::ExternCall { name, args } => {
            models_are_terms(args@);
        },
        Expr::Ctor { tag, fields } => {
            models_are_terms(fields@);
        },
        Expr::CtorReuse { reuse_of, tag, fields } => {
            models_are_terms(fields@);
        },
        _ => {},
    }
}

/// Whether a node carries as many names, children and arms as its operator calls for.
pub open spec fn shaped(t: Term) -> bool {
    &&& (t.op != Op::Match ==> t.arms.len() == 0)
    &&& (!(t.op is Closure) ==> t.types is None)
    &&& match t.op {
        Op::Match => t.names.len() == 0 && t.kids.len() == 1,
        Op::Closure(_) => t.kids.len() == 1,
        Op::Call => t.names.len() == 0 && t.kids.len() >= 1,
        Op::ExternCall | Op::Ctor => t.names.len() == 1,
        Op::CtorReuse => t.names.len() == 2,
        Op::Select => t.names.len() == 0 && t.kids.len() % 2 == 0,
        Op::Int(_) | Op::Float(_) | Op::Bool(_) | Op::Unit | Op::EmptyArray(_) | Op::ArgsRaw
        | Op::RandomRaw => {
            t.names.len() == 0 && t.kids.len() == 0
        },
        Op::Str | Op::Var | Op::Channel | Op::ArrayPopReuse | Op::StrTrimReuse
        | Op::StrToUpperReuse | Op::StrToLowerReuse => {
            t.names.len() == 1 && t.kids.len() == 0
        },
        Op::Unary(_) | Op::AsCStr | Op::AsString | Op::ToIntTrunc | Op::ToIntRound | Op::ToFloat
        | Op::Spawn | Op::TaskJoin | Op::ChannelRecv | Op::RefNew | Op::RefGet | Op::ReadFileRaw
        | Op::EnvVarRaw | Op::PanicRaw | Op::ArrayLen | Op::ArrayPop | Op::StrRunes | Op::StrTrim
        | Op::StrToUpper | Op::StrToLower | Op::ToString | Op::StrHash => {
            t.names.len() == 0 && t.kids.len() == 1
        },
        Op::Binary(_) | Op::ChannelSend | Op::RefSet | Op::WriteFileRaw | Op::Index
        | Op::ArrayPush | Op::ArrayRemove | Op::StrConcat | Op::StrSplit | Op::StrContains
        | Op::StrStartsWith | Op::StrEndsWith => {
            t.names.len() == 0 && t.kids.len() == 2
        },
        Op::Let | Op::Assign | Op::ArraySetReuse | Op::StrReplaceReuse => {
            t.names.len() == 1 && t.kids.len() == 2
        },
        Op::If | Op::ArraySet | Op::StrReplace => {
            t.names.len() == 0 && t.kids.len() == 3
        },
        Op::RcAnnotated(_) | Op::ArrayPushReuse | Op::ArrayRemoveReuse | Op::StrConcatReuse => {
            t.names.len() == 1 && t.kids.len() == 1
        },
        Op::For => {
            t.names.len() == 1 && t.kids.len() == 3
        },
    }
}

/// A node taken apart into its operator, names, children and arms.
pub struct Parts {
    pub op: Op,
    pub names: Vec<String>,
    pub types: Option<Vec<Type>>,
    pub kids: Vec<Expr>,
    pub arms: Vec<MatchArm>,
}

impl Parts {
    /// The model of the node that the parts make up.
    pub open spec fn term(self) -> Term {
        Term {
            op: self.op,
            names: names_of(self.names@),
            types: types_of(self.types),
            kids: terms(self.kids@),
            arms: arm_terms(self.arms@),
        }
    }
}

/// A node taken apart without giving up ownership.
pub struct PartsRef<'a> {
    pub op: Op,
    pub names: Vec<&'a String>,
    pub types: Option<&'a Vec<Type>>,
    pub kids: Vec<&'a Expr>,
    pub arms: Vec<&'a MatchArm>,
}

/// The models of a list of borrowed expressions.
pub open spec fn ref_terms(s: Seq<&Expr>) -> Seq<Term> {
    Seq::new(s.len(), |i: int| s[i].term())
}

/// The models of a list of borrowed match arms.
pub open spec fn ref_arm_terms(s: Seq<&MatchArm>) -> Seq<ArmTerm> {
    Seq::new(s.len(), |i: int| arm_term(*s[i]))
}

impl<'a> PartsRef<'a> {
    /// The model of the node that the parts make up.
    pub open spec fn term(self) -> Term {
        Term {
            op: self.op,
            names: self.names@.map_values(|s: &String| s@),
            types: match self.types {
                Some(ts) => Some(ts@),
                None => None,
            },
            kids: ref_terms(self.kids@),
            arms: ref_arm_terms(self.arms@),
        }
    }
}

/// Removes and returns the last expression of a list.
fn take_last(v: &mut Vec<Expr>) -> (r: Expr)
    requires
        old(v)@.len() > 0,
    ensures
        final(v)@ == old(v)@.drop_last(),
        r == old(v)@.last(),
{
    match v.pop() {
        Some(e) => e,
        None => Expr::Unit,
    }
}

/// Removes and returns the last name of a list.
fn take_last_name(v: &mut Vec<String>) -> (r: String)
    requires
        old(v)@.len() > 0,
    ensures
        final(v)@ == old(v)@.drop_last(),
        r == old(v)@.last(),
{
    match v.pop() {
        Some(s) => s,
        None => String::new(),
    }
}

pub(crate) fn names0() -> (r: Vec<String>)
    ensures
        names_of(r@) == Seq::<Name>::empty(),
{
    let r: Vec<String> = Vec::new();
    assert(names_of(r@) =~= Seq::<Name>::empty());
    r
}

pub(crate) fn names1(a: String) -> (r: Vec<String>)
    ensures
        names_of(r@) == seq![a@],
{
    let mut r: Vec<String> = Vec::new();
    r.push(a);
    assert(names_of(r@) =~= seq![a@]);
    r
}

pub(crate) fn names2(a: String, b: String) -> (r: Vec<String>)
    ensures
        names_of(r@) == seq![a@, b@],
{
    let mut r: Vec<String> = Vec::new();
    r.push(a);
    r.push(b);
    assert(names_of(r@) =~= seq![a@, b@]);
    r
}

pub(crate) fn kids0() -> (r: Vec<Expr>)
    ensures
        terms(r@) == Seq::<Term>::empty(),
{
    let r: Vec<Expr> = Vec::new();
    assert(terms(r@) =~= Seq::<Term>::empty());
    r
}

pub(crate) fn kids1(a: Expr) -> (r: Vec<Expr>)
    ensures
        terms(r@) == seq![a.term()],
{
    let mut r: Vec<Expr> = Vec::new();
    r.push(a);
    assert(terms(r@) =~= seq![a.term()]);
    r
}

pub(crate) fn kids2(a: Expr, b: Expr) -> (r: Vec<Expr>)
    ensures
        terms(r@) == seq![a.term(), b.term()],
{
    let mut r: Vec<Expr> = Vec::new();
    r.push(a);
    r.push(b);
    assert(terms(r@) =~= seq![a.term(), b.term()]);
    r
}

pub(crate) fn kids3(a: Expr, b: Expr, c: Expr) -> (r: Vec<Expr>)
    ensures
        terms(r@) == seq![a.term(), b.term(), c.term()],
{
    let mut r: Vec<Expr> = Vec::new();
    r.push(a);
    r.push(b);
    r.push(c);
    assert(terms(r@) =~= seq![a.term(), b.term(), c.term()]);
    r
}

pub(crate) fn prepend(a: Expr, v: Vec<Expr>) -> (r: Vec<Expr>)
    ensures
        terms(r@) == seq![a.term()] + terms(v@),
{
    let mut v: Vec<Expr> = v;
    let ghost rest: Seq<Expr> = v@;
    let mut r: Vec<Expr> = Vec::new();
    r.push(a);
    r.append(&mut v);
    assert(terms(r@) =~= seq![a.term()] + terms(rest));
    r
}

fn no_arms() -> (r: Vec<MatchArm>)
    ensures
        arm_terms(r@) == Seq::<ArmTerm>::empty(),
{
    let r: Vec<MatchArm> = Vec::new();
    assert(arm_terms(r@) =~= Seq::<ArmTerm>::empty());
    r
}

fn only_name(v: Vec<String>) -> (a: String)
    requires
        names_of(v@).len() == 1,
    ensures
        names_of(v@) == seq![a@],
{
    let mut w: Vec<String> = v;
    let a: String = take_last_name(&mut w);
    assert(names_of(v@) =~= seq![a@]);
    a
}

fn two_names(v: Vec<String>) -> (r: (String, String))
    requires
        names_of(v@).len() == 2,
    ensures
        names_of(v@) == seq![r.0@, r.1@],
{
    let mut w: Vec<String> = v;
    let b: String = take_last_name(&mut w);
    let a: String = take_last_name(&mut w);
    assert(names_of(v@) =~= seq![a@, b@]);
    (a, b)
}

fn only_kid(v: Vec<Expr>) -> (a: Box<Expr>)
    requires
        terms(v@).len() == 1,
    ensures
        terms(v@) == seq![a.term()],
{
    let mut w: Vec<Expr> = v;
    let a: Expr = take_last(&mut w);
    assert(terms(v@) =~= seq![a.term()]);
    Box::new(a)
}

fn two_kids(v: Vec<Expr>) -> (r: (Box<Expr>, Box<Expr>))
    requires
        terms(v@).len() == 2,
    ensures
        terms(v@) == seq![r.0.term(), r.1.term()],
{
    let mut w: Vec<Expr> = v;
    let b: Expr = take_last(&mut w);
    let a: Expr = take_last(&mut w);
    assert(terms(v@) =~= seq![a.term(), b.term()]);
    (Box::new(a), Box::new(b))
}

fn three_kids(v: Vec<Expr>) -> (r: (Box<Expr>, Box<Expr>, Box<Expr>))
    requires
        terms(v@).len() == 3,
    ensures
        terms(v@) == seq![r.0.term(), r.1.term(), r.2.term()],
{
    let mut w: Vec<Expr> = v;
    let c: Expr = take_last(&mut w);
    let b: Expr = take_last(&mut w);
    let a: Expr = take_last(&mut w);
    assert(terms(v@) =~= seq![a.term(), b.term(), c.term()]);
    (Box::new(a), Box::new(b), Box::new(c))
}

fn first_and_rest(v: Vec<Expr>) -> (r: (Box<Expr>, Vec<Expr>))
    requires
        terms(v@).len() >= 1,
    ensures
        terms(v@) == seq![r.0.term()] + terms(r.1@),
{
    let mut w: Vec<Expr> = v;
    let a: Expr = w.remove(0);
    assert(terms(v@) =~= seq![a.term()] + terms(w@));
    (Box::new(a), w)
}

/// Pairs up the receivers and bodies of a select.
fn pair_up(kids: Vec<Expr>) -> (arms: Vec<SelectArm>)
    requires
        kids@.len() % 2 == 0,
    ensures
        select_terms(arms@) == terms(kids@),
{
    let mut kids: Vec<Expr> = kids;
    let ghost all: Seq<Expr> = kids@;
    let mut rev: Vec<SelectArm> = Vec::new();
    while kids.len() > 0
        invariant
            kids@.len() % 2 == 0,
            kids@.len() + 2 * rev@.len() == all.len(),
            kids@ == all.take(kids@.len() as int),
            forall|j: int|
                0 <= j < rev@.len() ==> (#[trigger] rev@[j]).receiver == all[all.len() - 2 * j - 2]
                    && rev@[j].body == all[all.len() - 2 * j - 1],
        decreases kids@.len(),
    {
        let body: Expr = take_last(&mut kids);
        let receiver: Expr = take_last(&mut kids);
        rev.push(SelectArm { receiver, body });
    }
    let mut arms: Vec<SelectArm> = Vec::new();
    let ghost back: Seq<SelectArm> = rev@;
    while rev.len() > 0
        invariant
            rev@ == back.take(rev@.len() as int),
            arms@.len() + rev@.len() == back.len(),
            forall|j: int|
                0 <= j < arms@.len() ==> #[trigger] arms@[j] == back[back.len() - 1 - j],
        decreases rev@.len(),
    {
        match rev.pop() {
            Some(arm) => {
                arms.push(arm);
            },
            None => {},
        }
    }
    assert(select_terms(arms@) =~= terms(all));
    arms
}

/// Takes the arms of a select apart into receivers and bodies.
fn unpair(arms: Vec<SelectArm>) -> (kids: Vec<Expr>)
    ensures
        terms(kids@) == select_terms(arms@),
{
    let ghost all: Seq<SelectArm> = arms@;
    let mut arms: Vec<SelectArm> = arms;
    let mut rev: Vec<Expr> = Vec::new();
    while arms.len() > 0
        invariant
            arms@ == all.take(arms@.len() as int),
            rev@.len() == 2 * (all.len() - arms@.len()),
            forall|j: int|
                0 <= j < rev@.len() ==> #[trigger] rev@[j].term() == select_terms(
                    all,
                )[2 * all.len() - 1 - j],
        decreases arms@.len(),
    {
        match arms.pop() {
            Some(arm) => {
                rev.push(arm.body);
                rev.push(arm.receiver);
            },
            None => {},
        }
    }
    let mut kids: Vec<Expr> = Vec::new();
    let ghost back: Seq<Expr> = rev@;
    while rev.len() > 0
        invariant
            rev@ == back.take(rev@.len() as int),
            kids@.len() + rev@.len() == back.len(),
            forall|j: int|
                0 <= j < kids@.len() ==> #[trigger] kids@[j] == back[back.len() - 1 - j],
        decreases rev@.len(),
    {
        let e: Expr = take_last(&mut rev);
        kids.push(e);
    }
    assert forall|j: int| 0 <= j < terms(kids@).len() implies #[trigger] terms(kids@)[j]
        == select_terms(all)[j] by {
        assert(kids@[j] == back[back.len() - 1 - j]);
        assert(back[back.len() - 1 - j].term() == select_terms(all)[2 * all.len() - 1 - (back.len()
            - 1 - j)]);
    }
    assert(terms(kids@) =~= select_terms(all));
    kids
}

/// A node that is not a match or a closure, from its parts.
fn plain(op: Op, names: Vec<String>, kids: Vec<Expr>) -> (p: Parts)
    ensures
        p.term() == node(op, names_of(names@), terms(kids@)),
{
    Parts { op, names, types: None, kids, arms: no_arms() }
}

impl Expr {
    /// Takes a node apart.
    #[verifier::spinoff_prover]
    #[verifier::rlimit(60)]
    pub fn into_parts(self) -> (p: Parts)
        ensures
            p.term() == self.term(),
            shaped(self.term()),
    {
        proof {
            term_unfolds(self);
        }
        match self {
            Expr::Int(n) => plain(Op::Int(n), names0(), kids0()),
            Expr::Float(bits) => plain(Op::Float(bits), names0(), kids0()),
            Expr::Str(text) => plain(Op::Str, names1(text), kids0()),
            Expr::Bool(b) => plain(Op::Bool(b), names0(), kids0()),
            Expr::Unit => plain(Op::Unit, names0(), kids0()),
            Expr::Var(name) => plain(Op::Var, names1(name), kids0()),
            Expr::EmptyArray(ty) => plain(Op::EmptyArray(ty), names0(), kids0()),
            Expr::Unary(op, operand) => plain(Op::Unary(op), names0(), kids1(*operand)),
            Expr::AsCStr(operand) => plain(Op::AsCStr, names0(), kids1(*operand)),
            Expr::AsString(operand) => plain(Op::AsString, names0(), kids1(*operand)),
            Expr::ToIntTrunc(operand) => plain(Op::ToIntTrunc, names0(), kids1(*operand)),
            Expr::ToIntRound(operand) => plain(Op::ToIntRound, names0(), kids1(*operand)),
            Expr::ToFloat(operand) => plain(Op::ToFloat, names0(), kids1(*operand)),
            Expr::Binary(op, lhs, rhs) => plain(Op::Binary(op), names0(), kids2(*lhs, *rhs)),
            Expr::Let { name, value, body } => plain(Op::Let, names1(name), kids2(*value, *body)),
            Expr::If { cond, then_branch, else_branch } => {
                plain(Op::If, names0(), kids3(*cond, *then_branch, *else_branch))
            },
            Expr::Call { callee, args } => plain(Op::Call, names0(), prepend(*callee, args)),
            Expr::ExternCall { name, args } => plain(Op::ExternCall, names1(name), args),
            Expr::Ctor { tag, fields } => plain(Op::Ctor, names1(tag), fields),
            Expr::CtorReuse { reuse_of, tag, fields } => {
                plain(Op::CtorReuse, names2(reuse_of, tag), fields)
            },
            Expr::Match { scrutinee, arms } => {
                Parts { op: Op::Match, names: names0(), types: None, kids: kids1(*scrutinee), arms }
            },
            Expr::RcAnnotated { op, target, rest } => {
                plain(Op::RcAnnotated(op), names1(target), kids1(*rest))
            },
            Expr::For { var, start, end, body } => {
                plain(Op::For, names1(var), kids3(*start, *end, *body))
            },
            Expr::Closure { params, param_types, ret_type, body } => Parts {
                op: Op::Closure(ret_type),
                names: params,
                types: param_types,
                kids: kids1(*body),
                arms: no_arms(),
            },
            Expr::Assign { name, value, rest } => {
                plain(Op::Assign, names1(name), kids2(*value, *rest))
            },
            Expr::Spawn { block } => plain(Op::Spawn, names0(), kids1(*block)),
            Expr::TaskJoin { task } => plain(Op::TaskJoin, names0(), kids1(*task)),
            Expr::Channel { tag } => plain(Op::Channel, names1(tag), kids0()),
            Expr::ChannelSend { sender, value } => {
                plain(Op::ChannelSend, names0(), kids2(*sender, *value))
            },
            Expr::ChannelRecv { receiver } => plain(Op::ChannelRecv, names0(), kids1(*receiver)),
            Expr::RefNew { value } => plain(Op::RefNew, names0(), kids1(*value)),
            Expr::RefGet { base } => plain(Op::RefGet, names0(), kids1(*base)),
            Expr::RefSet { base, value } => plain(Op::RefSet, names0(), kids2(*base, *value)),
            Expr::ReadFileRaw { path } => plain(Op::ReadFileRaw, names0(), kids1(*path)),
            Expr::WriteFileRaw { path, contents } => {
                plain(Op::WriteFileRaw, names0(), kids2(*path, *contents))
            },
            Expr::EnvVarRaw { name } => plain(Op::EnvVarRaw, names0(), kids1(*name)),
            Expr::ArgsRaw => plain(Op::ArgsRaw, names0(), kids0()),
            Expr::RandomRaw => plain(Op::RandomRaw, names0(), kids0()),
            Expr::PanicRaw { message } => plain(Op::PanicRaw, names0(), kids1(*message)),
            Expr::Select { arms } => plain(Op::Select, names0(), unpair(arms)),
            Expr::Index { base, index } => plain(Op::Index, names0(), kids2(*base, *index)),
            Expr::ArrayLen { array } => plain(Op::ArrayLen, names0(), kids1(*array)),
            Expr::ArrayPush { array, value } => {
                plain(Op::ArrayPush, names0(), kids2(*array, *value))
            },
            Expr::ArrayPop { array } => plain(Op::ArrayPop, names0(), kids1(*array)),
            Expr::ArraySet { array, index, value } => {
                plain(Op::ArraySet, names0(), kids3(*array, *index, *value))
            },
            Expr::ArrayRemove { array, index } => {
                plain(Op::ArrayRemove, names0(), kids2(*array, *index))
            },
            Expr::ArrayPushReuse { reuse_of, value } => {
                plain(Op::ArrayPushReuse, names1(reuse_of), kids1(*value))
            },
            Expr::ArrayPopReuse { reuse_of } => {
                plain(Op::ArrayPopReuse, names1(reuse_of), kids0())
            },
            Expr::ArraySetReuse { reuse_of, index, value } => {
                plain(Op::ArraySetReuse, names1(reuse_of), kids2(*index, *value))
            },
            Expr::ArrayRemoveReuse { reuse_of, index } => {
                plain(Op::ArrayRemoveReuse, names1(reuse_of), kids1(*index))
            },
            Expr::StrConcat { base, other } => {
                plain(Op::StrConcat, names0(), kids2(*base, *other))
            },
            Expr::StrConcatReuse { reuse_of, other } => {
                plain(Op::StrConcatReuse, names1(reuse_of), kids1(*other))
            },
            Expr::StrRunes { base } => plain(Op::StrRunes, names0(), kids1(*base)),
            Expr::StrTrim { base } => plain(Op::StrTrim, names0(), kids1(*base)),
            Expr::StrTrimReuse { reuse_of } => plain(Op::StrTrimReuse, names1(reuse_of), kids0()),
            Expr::StrSplit { base, sep } => plain(Op::StrSplit, names0(), kids2(*base, *sep)),
            Expr::StrToUpper { base } => plain(Op::StrToUpper, names0(), kids1(*base)),
            Expr::StrToUpperReuse { reuse_of } => {
                plain(Op::StrToUpperReuse, names1(reuse_of), kids0())
            },
            Expr::StrToLower { base } => plain(Op::StrToLower, names0(), kids1(*base)),
            Expr::StrToLowerReuse { reuse_of } => {
                plain(Op::StrToLowerReuse, names1(reuse_of), kids0())
            },
            Expr::StrContains { base, needle } => {
                plain(Op::StrContains, names0(), kids2(*base, *needle))
            },
            Expr::StrStartsWith { base, prefix } => {
                plain(Op::StrStartsWith, names0(), kids2(*base, *prefix))
            },
            Expr::StrEndsWith { base, suffix } => {
                plain(Op::StrEndsWith, names0(), kids2(*base, *suffix))
            },
            Expr::StrReplace { base, from, to } => {
                plain(Op::StrReplace, names0(), kids3(*base, *from, *to))
            },
            Expr::StrReplaceReuse { reuse_of, from, to } => {
                plain(Op::StrReplaceReuse, names1(reuse_of), kids2(*from, *to))
            },
            Expr::ToString { base } => plain(Op::ToString, names0(), kids1(*base)),
            Expr::StrHash { base } => plain(Op::StrHash, names0(), kids1(*base)),
        }
    }

    /// Puts a node together.
    #[verifier::spinoff_prover]
    #[verifier::rlimit(60)]
    pub fn from_parts(p: Parts) -> (r: Expr)
        requires
            shaped(p.term()),
        ensures
            r.term() == p.term(),
    {
        proof {
            if p.op != Op::Match {
                assert(p.term().arms =~= Seq::<ArmTerm>::empty());
            }
            if p.term().names.len() == 0 {
                assert(p.term().names =~= Seq::<Name>::empty());
            }
            if p.term().kids.len() == 0 {
                assert(p.term().kids =~= Seq::<Term>::empty());
            }
        }
        let r: Expr = match p.op {
            Op::Int(n) => Expr::Int(n),
            Op::Float(bits) => Expr::Float(bits),
            Op::Str => Expr::Str(only_name(p.names)),
            Op::Bool(b) => Expr::Bool(b),
            Op::Unit => Expr::Unit,
            Op::Var => Expr::Var(only_name(p.names)),
            Op::EmptyArray(ty) => Expr::EmptyArray(ty),
            Op::Unary(op) => Expr::Unary(op, only_kid(p.kids)),
            Op::AsCStr => Expr::AsCStr(only_kid(p.kids)),
            Op::AsString => Expr::AsString(only_kid(p.kids)),
            Op::ToIntTrunc => Expr::ToIntTrunc(only_kid(p.kids)),
            Op::ToIntRound => Expr::ToIntRound(only_kid(p.kids)),
            Op::ToFloat => Expr::ToFloat(only_kid(p.kids)),
            Op::Binary(op) => {
                let (lhs, rhs) = two_kids(p.kids);
                Expr::Binary(op, lhs, rhs)
            },
            Op::Let => {
                let name: String = only_name(p.names);
                let (value, body) = two_kids(p.kids);
                Expr::Let { name, value, body }
            },
            Op::If => {
                let (cond, then_branch, else_branch) = three_kids(p.kids);
                Expr::If { cond, then_branch, else_branch }
            },
            Op::Call => {
                let (callee, args) = first_and_rest(p.kids);
                Expr::Call { callee, args }
            },
            Op::ExternCall => {
                let name: String = only_name(p.names);
                Expr::ExternCall { name, args: p.kids }
            },
            Op::Ctor => {
                let tag: String = only_name(p.names);
                Expr::Ctor { tag, fields: p.kids }
            },
            Op::CtorReuse => {
                let (reuse_of, tag) = two_names(p.names);
                Expr::CtorReuse { reuse_of, tag, fields: p.kids }
            },
            Op::Match => Expr::Match { scrutinee: only_kid(p.kids), arms: p.arms },
            Op::RcAnnotated(op) => {
                let target: String = only_name(p.names);
                let rest: Box<Expr> = only_kid(p.kids);
                Expr::RcAnnotated { op, target, rest }
            },
            Op::For => {
                let var: String = only_name(p.names);
                let (start, end, body) = three_kids(p.kids);
                Expr::For { var, start, end, body }
            },
            Op::Closure(ret_type) => Expr::Closure {
                params: p.names,
                param_types: p.types,
                ret_type,
                body: only_kid(p.kids),
            },
            Op::Assign => {
                let name: String = only_name(p.names);
                let (value, rest) = two_kids(p.kids);
                Expr::Assign { name, value, rest }
            },
            Op::Spawn => {
                let block: Box<Expr> = only_kid(p.kids);
                Expr::Spawn { block }
            },
            Op::TaskJoin => {
                let task: Box<Expr> = only_kid(p.kids);
                Expr::TaskJoin { task }
            },
            Op::Channel => {
                let tag: String = only_name(p.names);
                Expr::Channel { tag }
            },
            Op::ChannelSend => {
                let (sender, value) = two_kids(p.kids);
                Expr::ChannelSend { sender, value }
            },
            Op::ChannelRecv => {
                let receiver: Box<Expr> = only_kid(p.kids);
                Expr::ChannelRecv { receiver }
            },
            Op::RefNew => {
                let value: Box<Expr> = only_kid(p.kids);
                Expr::RefNew { value }
            },
            Op::RefGet => {
                let base: Box<Expr> = only_kid(p.kids);
                Expr::RefGet { base }
            },
            Op::RefSet => {
                let (base, value) = two_kids(p.kids);
                Expr::RefSet { base, value }
            },
            Op::ReadFileRaw => {
                let path: Box<Expr> = only_kid(p.kids);
                Expr::ReadFileRaw { path }
            },
            Op::WriteFileRaw => {
                let (path, contents) = two_kids(p.kids);
                Expr::WriteFileRaw { path, contents }
            },
            Op::EnvVarRaw => {
                let name: Box<Expr> = only_kid(p.kids);
                Expr::EnvVarRaw { name }
            },
            Op::ArgsRaw => Expr::ArgsRaw,
            Op::RandomRaw => Expr::RandomRaw,
            Op::PanicRaw => {
                let message: Box<Expr> = only_kid(p.kids);
                Expr::PanicRaw { message }
            },
            Op::Select => {
                Expr::Select { arms: pair_up(p.kids) }
            },
            Op::Index => {
                let (base, index) = two_kids(p.kids);
                Expr::Index { base, index }
            },
            Op::ArrayLen => {
                let array: Box<Expr> = only_kid(p.kids);
                Expr::ArrayLen { array }
            },
            Op::ArrayPush => {
                let (array, value) = two_kids(p.kids);
                Expr::ArrayPush { array, value }
            },
            Op::ArrayPop => {
                let array: Box<Expr> = only_kid(p.kids);
                Expr::ArrayPop { array }
            },
            Op::ArraySet => {
                let (array, index, value) = three_kids(p.kids);
                Expr::ArraySet { array, index, value }
            },
            Op::ArrayRemove => {
                let (array, index) = two_kids(p.kids);
                Expr::ArrayRemove { array, index }
            },
            Op::ArrayPushReuse => {
                let reuse_of: String = only_name(p.names);
                let value: Box<Expr> = only_kid(p.kids);
                Expr::ArrayPushReuse { reuse_of, value }
            },
            Op::ArrayPopReuse => {
                let reuse_of: String = only_name(p.names);
                Expr::ArrayPopReuse { reuse_of }
            },
            Op::ArraySetReuse => {
                let reuse_of: String = only_name(p.names);
                let (index, value) = two_kids(p.kids);
                Expr::ArraySetReuse { reuse_of, index, value }
            },
            Op::ArrayRemoveReuse => {
                let reuse_of: String = only_name(p.names);
                let index: Box<Expr> = only_kid(p.kids);
                Expr::ArrayRemoveReuse { reuse_of, index }
            },
            Op::StrConcat => {
                let (base, other) = two_kids(p.kids);
                Expr::StrConcat { base, other }
            },
            Op::StrConcatReuse => {
                let reuse_of: String = only_name(p.names);
                let other: Box<Expr> = only_kid(p.kids);
                Expr::StrConcatReuse { reuse_of, other }
            },
            Op::StrRunes => {
                let base: Box<Expr> = only_kid(p.kids);
                Expr::StrRunes { base }
            },
            Op::StrTrim => {
                let base: Box<Expr> = only_kid(p.kids);
                Expr::StrTrim { base }
            },
            Op::StrTrimReuse => {
                let reuse_of: String = only_name(p.names);
                Expr::StrTrimReuse { reuse_of }
            },
            Op::StrSplit => {
                let (base, sep) = two_kids(p.kids);
                Expr::StrSplit { base, sep }
            },
            Op::StrToUpper => {
                let base: Box<Expr> = only_kid(p.kids);
                Expr::StrToUpper { base }
            },
            Op::StrToUpperReuse => {
                let reuse_of: String = only_name(p.names);
                Expr::StrToUpperReuse { reuse_of }
            },
            Op::StrToLower => {
                let base: Box<Expr> = only_kid(p.kids);
                Expr::StrToLower { base }
            },
            Op::StrToLowerReuse => {
                let reuse_of: String = only_name(p.names);
                Expr::StrToLowerReuse { reuse_of }
            },
            Op::StrContains => {
                let (base, needle) = two_kids(p.kids);
                Expr::StrContains { base, needle }
            },
            Op::StrStartsWith => {
                let (base, prefix) = two_kids(p.kids);
                Expr::StrStartsWith { base, prefix }
            },
            Op::StrEndsWith => {
                let (base, suffix) = two_kids(p.kids);
                Expr::StrEndsWith { base, suffix }
            },
            Op::StrReplace => {
                let (base, from, to) = three_kids(p.kids);
                Expr::StrReplace { base, from, to }
            },
            Op::StrReplaceReuse => {
                let reuse_of: String = only_name(p.names);
                let (from, to) = two_kids(p.kids);
                Expr::StrReplaceReuse { reuse_of, from, to }
            },
            Op::ToString => {
                let base: Box<Expr> = only_kid(p.kids);
                Expr::ToString { base }
            },
            Op::StrHash => {
                let base: Box<Expr> = only_kid(p.kids);
                Expr::StrHash { base }
            },
        };
        proof {
            term_unfolds(r);
        }
        r
    }

    /// Takes a node apart without giving up ownership.
    #[verifier::spinoff_prover]
    #[verifier::rlimit(60)]
    pub fn parts(&self) -> (p: PartsRef<'_>)
        ensures
            p.term() == self.term(),
            shaped(self.term()),
    {
        proof {
            term_unfolds(*self);
        }
        match self {
            Expr::Int(n) => plain_ref(Op::Int(*n), name_refs0(), refs0()),
            Expr::Float(bits) => plain_ref(Op::Float(*bits), name_refs0(), refs0()),
            Expr::Str(text) => plain_ref(Op::Str, name_refs1(text), refs0()),
            Expr::Bool(b) => plain_ref(Op::Bool(*b), name_refs0(), refs0()),
            Expr::Unit => plain_ref(Op::Unit, name_refs0(), refs0()),
            Expr::Var(name) => plain_ref(Op::Var, name_refs1(name), refs0()),
            Expr::EmptyArray(ty) => plain_ref(Op::EmptyArray(*ty), name_refs0(), refs0()),
            Expr::Unary(op, operand) => plain_ref(Op::Unary(*op), name_refs0(), refs1(operand)),
            Expr::AsCStr(operand) => plain_ref(Op::AsCStr, name_refs0(), refs1(operand)),
            Expr::AsString(operand) => plain_ref(Op::AsString, name_refs0(), refs1(operand)),
            Expr::ToIntTrunc(operand) => plain_ref(Op::ToIntTrunc, name_refs0(), refs1(operand)),
            Expr::ToIntRound(operand) => plain_ref(Op::ToIntRound, name_refs0(), refs1(operand)),
            Expr::ToFloat(operand) => plain_ref(Op::ToFloat, name_refs0(), refs1(operand)),
            Expr::Binary(op, lhs, rhs) => {
                plain_ref(Op::Binary(*op), name_refs0(), refs2(lhs, rhs))
            },
            Expr::Let { name, value, body } => {
                plain_ref(Op::Let, name_refs1(name), refs2(value, body))
            },
            Expr::If { cond, then_branch, else_branch } => {
                plain_ref(Op::If, name_refs0(), refs3(cond, then_branch, else_branch))
            },
            Expr::Call { callee, args } => {
                plain_ref(Op::Call, name_refs0(), prepend_ref(callee, args))
            },
            Expr::ExternCall { name, args } => {
                plain_ref(Op::ExternCall, name_refs1(name), refs_of(args))
            },
            Expr::Ctor { tag, fields } => plain_ref(Op::Ctor, name_refs1(tag), refs_of(fields)),
            Expr::CtorReuse { reuse_of, tag, fields } => {
                plain_ref(Op::CtorReuse, name_refs2(reuse_of, tag), refs_of(fields))
            },
            Expr::Match { scrutinee, arms } => PartsRef {
                op: Op::Match,
                names: name_refs0(),
                types: None,
                kids: refs1(scrutinee),
                arms: arm_refs(arms),
            },
            Expr::RcAnnotated { op, target, rest } => {
                plain_ref(Op::RcAnnotated(*op), name_refs1(target), refs1(rest))
            },
            Expr::For { var, start, end, body } => {
                plain_ref(Op::For, name_refs1(var), refs3(start, end, body))
            },
            Expr::Closure { params, param_types, ret_type, body } => PartsRef {
                op: Op::Closure(*ret_type),
                names: name_refs(params),
                types: match param_types {
                    Some(ts) => Some(ts),
                    None => None,
                },
                kids: refs1(body),
                arms: arm_refs0(),
            },
            Expr::Assign { name, value, rest } => {
                plain_ref(Op::Assign, name_refs1(name), refs2(value, rest))
            },
            Expr::Spawn { block } => plain_ref(Op::Spawn, name_refs0(), refs1(block)),
            Expr::TaskJoin { task } => plain_ref(Op::TaskJoin, name_refs0(), refs1(task)),
            Expr::Channel { tag } => plain_ref(Op::Channel, name_refs1(tag), refs0()),
            Expr::ChannelSend { sender, value } => {
                plain_ref(Op::ChannelSend, name_refs0(), refs2(sender, value))
            },
            Expr::ChannelRecv { receiver } => {
                plain_ref(Op::ChannelRecv, name_refs0(), refs1(receiver))
            },
            Expr::RefNew { value } => plain_ref(Op::RefNew, name_refs0(), refs1(value)),
            Expr::RefGet { base } => plain_ref(Op::RefGet, name_refs0(), refs1(base)),
            Expr::RefSet { base, value } => {
                plain_ref(Op::RefSet, name_refs0(), refs2(base, value))
            },
            Expr::ReadFileRaw { path } => plain_ref(Op::ReadFileRaw, name_refs0(), refs1(path)),
            Expr::WriteFileRaw { path, contents } => {
                plain_ref(Op::WriteFileRaw, name_refs0(), refs2(path, contents))
            },
            Expr::EnvVarRaw { name } => plain_ref(Op::EnvVarRaw, name_refs0(), refs1(name)),
            Expr::ArgsRaw => plain_ref(Op::ArgsRaw, name_refs0(), refs0()),
            Expr::RandomRaw => plain_ref(Op::RandomRaw, name_refs0(), refs0()),
            Expr::PanicRaw { message } => plain_ref(Op::PanicRaw, name_refs0(), refs1(message)),
            Expr::Select { arms } => plain_ref(Op::Select, name_refs0(), select_refs(arms)),
            Expr::Index { base, index } => plain_ref(Op::Index, name_refs0(), refs2(base, index)),
            Expr::ArrayLen { array } => plain_ref(Op::ArrayLen, name_refs0(), refs1(array)),
            Expr::ArrayPush { array, value } => {
                plain_ref(Op::ArrayPush, name_refs0(), refs2(array, value))
            },
            Expr::ArrayPop { array } => plain_ref(Op::ArrayPop, name_refs0(), refs1(array)),
            Expr::ArraySet { array, index, value } => {
                plain_ref(Op::ArraySet, name_refs0(), refs3(array, index, value))
            },
            Expr::ArrayRemove { array, index } => {
                plain_ref(Op::ArrayRemove, name_refs0(), refs2(array, index))
            },
            Expr::ArrayPushReuse { reuse_of, value } => {
                plain_ref(Op::ArrayPushReuse, name_refs1(reuse_of), refs1(value))
            },
            Expr::ArrayPopReuse { reuse_of } => {
                plain_ref(Op::ArrayPopReuse, name_refs1(reuse_of), refs0())
            },
            Expr::ArraySetReuse { reuse_of, index, value } => {
                plain_ref(Op::ArraySetReuse, name_refs1(reuse_of), refs2(index, value))
            },
            Expr::ArrayRemoveReuse { reuse_of, index } => {
                plain_ref(Op::ArrayRemoveReuse, name_refs1(reuse_of), refs1(index))
            },
            Expr::StrConcat { base, other } => {
                plain_ref(Op::StrConcat, name_refs0(), refs2(base, other))
            },
            Expr::StrConcatReuse { reuse_of, other } => {
                plain_ref(Op::StrConcatReuse, name_refs1(reuse_of), refs1(other))
            },
            Expr::StrRunes { base } => plain_ref(Op::StrRunes, name_refs0(), refs1(base)),
            Expr::StrTrim { base } => plain_ref(Op::StrTrim, name_refs0(), refs1(base)),
            Expr::StrTrimReuse { reuse_of } => {
                plain_ref(Op::StrTrimReuse, name_refs1(reuse_of), refs0())
            },
            Expr::StrSplit { base, sep } => {
                plain_ref(Op::StrSplit, name_refs0(), refs2(base, sep))
            },
            Expr::StrToUpper { base } => plain_ref(Op::StrToUpper, name_refs0(), refs1(base)),
            Expr::StrToUpperReuse { reuse_of } => {
                plain_ref(Op::StrToUpperReuse, name_refs1(reuse_of), refs0())
            },
            Expr::StrToLower { base } => plain_ref(Op::StrToLower, name_refs0(), refs1(base)),
            Expr::StrToLowerReuse { reuse_of } => {
                plain_ref(Op::StrToLowerReuse, name_refs1(reuse_of), refs0())
            },
            Expr::StrContains { base, needle } => {
                plain_ref(Op::StrContains, name_refs0(), refs2(base, needle))
            },
            Expr::StrStartsWith { base, prefix } => {
                plain_ref(Op::StrStartsWith, name_refs0(), refs2(base, prefix))
            },
            Expr::StrEndsWith { base, suffix } => {
                plain_ref(Op::StrEndsWith, name_refs0(), refs2(base, suffix))
            },
            Expr::StrReplace { base, from, to } => {
                plain_ref(Op::StrReplace, name_refs0(), refs3(base, from, to))
            },
            Expr::StrReplaceReuse { reuse_of, from, to } => {
                plain_ref(Op::StrReplaceReuse, name_refs1(reuse_of), refs2(from, to))
            },
            Expr::ToString { base } => plain_ref(Op::ToString, name_refs0(), refs1(base)),
            Expr::StrHash { base } => plain_ref(Op::StrHash, name_refs0(), refs1(base)),
        }
    }
}

/// A borrowed node that is not a match or a closure, from its parts.
fn plain_ref<'a>(op: Op, names: Vec<&'a String>, kids: Vec<&'a Expr>) -> (p: PartsRef<'a>)
    ensures
        p.term() == node(op, names@.map_values(|s: &String| s@), ref_terms(kids@)),
{
    PartsRef { op, names, types: None, kids, arms: arm_refs0() }
}

fn arm_refs0<'a>() -> (r: Vec<&'a MatchArm>)
    ensures
        ref_arm_terms(r@) == Seq::<ArmTerm>::empty(),
{
    let r: Vec<&'a MatchArm> = Vec::new();
    assert(ref_arm_terms(r@) =~= Seq::<ArmTerm>::empty());
    r
}

fn arm_refs(v: &Vec<MatchArm>) -> (r: Vec<&MatchArm>)
    ensures
        ref_arm_terms(r@) == arm_terms(v@),
{
    let mut r: Vec<&MatchArm> = Vec::new();
    let mut i: usize = 0;
    while i < v.len()
        invariant
            i <= v@.len(),
            r@.len() == i,
            forall|j: int| 0 <= j < i ==> *(#[trigger] r@[j]) == v@[j],
        decreases v@.len() - i,
    {
        r.push(&v[i]);
        i += 1;
    }
    assert(ref_arm_terms(r@) =~= arm_terms(v@));
    r
}

fn name_refs0<'a>() -> (r: Vec<&'a String>)
    ensures
        r@.map_values(|s: &String| s@) == Seq::<Name>::empty(),
{
    let r: Vec<&'a String> = Vec::new();
    assert(r@.map_values(|s: &String| s@) =~= Seq::<Name>::empty());
    r
}

fn name_refs1(a: &String) -> (r: Vec<&String>)
    ensures
        r@.map_values(|s: &String| s@) == seq![a@],
{
    let mut r: Vec<&String> = Vec::new();
    r.push(a);
    assert(r@.map_values(|s: &String| s@) =~= seq![a@]);
    r
}

fn name_refs2<'a>(a: &'a String, b: &'a String) -> (r: Vec<&'a String>)
    ensures
        r@.map_values(|s: &String| s@) == seq![a@, b@],
{
    let mut r: Vec<&'a String> = Vec::new();
    r.push(a);
    r.push(b);
    assert(r@.map_values(|s: &String| s@) =~= seq![a@, b@]);
    r
}

fn refs0<'a>() -> (r: Vec<&'a Expr>)
    ensures
        ref_terms(r@) == Seq::<Term>::empty(),
{
    let r: Vec<&'a Expr> = Vec::new();
    assert(ref_terms(r@) =~= Seq::<Term>::empty());
    r
}

fn refs1(a: &Expr) -> (r: Vec<&Expr>)
    ensures
        ref_terms(r@) == seq![a.term()],
{
    let mut r: Vec<&Expr> = Vec::new();
    r.push(a);
    assert(ref_terms(r@) =~= seq![a.term()]);
    r
}

fn refs2<'a>(a: &'a Expr, b: &'a Expr) -> (r: Vec<&'a Expr>)
    ensures
        ref_terms(r@) == seq![a.term(), b.term()],
{
    let mut r: Vec<&'a Expr> = Vec::new();
    r.push(a);
    r.push(b);
    assert(ref_terms(r@) =~= seq![a.term(), b.term()]);
    r
}

fn refs3<'a>(a: &'a Expr, b: &'a Expr, c: &'a Expr) -> (r: Vec<&'a Expr>)
    ensures
        ref_terms(r@) == seq![a.term(), b.term(), c.term()],
{
    let mut r: Vec<&'a Expr> = Vec::new();
    r.push(a);
    r.push(b);
    r.push(c);
    assert(ref_terms(r@) =~= seq![a.term(), b.term(), c.term()]);
    r
}

fn refs_of(v: &Vec<Expr>) -> (r: Vec<&Expr>)
    ensures
        ref_terms(r@) == terms(v@),
{
    let mut r: Vec<&Expr> = Vec::new();
    push_refs(&mut r, v);
    assert(ref_terms(r@) =~= terms(v@));
    r
}

fn prepend_ref<'a>(a: &'a Expr, v: &'a Vec<Expr>) -> (r: Vec<&'a Expr>)
    ensures
        ref_terms(r@) == seq![a.term()] + terms(v@),
{
    let mut r: Vec<&'a Expr> = refs1(a);
    push_refs(&mut r, v);
    r
}

/// Borrows each name of a list.
fn name_refs(v: &Vec<String>) -> (r: Vec<&String>)
    ensures
        r@.map_values(|s: &String| s@) == names_of(v@),
{
    let mut r: Vec<&String> = Vec::new();
    let mut i: usize = 0;
    while i < v.len()
        invariant
            i <= v@.len(),
            r@.len() == i,
            forall|j: int| 0 <= j < i ==> *(#[trigger] r@[j]) == v@[j],
        decreases v@.len() - i,
    {
        r.push(&v[i]);
        i += 1;
    }
    assert(r@.map_values(|s: &String| s@) =~= names_of(v@));
    r
}

/// Appends a borrow of each expression of a list.
fn push_refs<'a>(kids: &mut Vec<&'a Expr>, v: &'a Vec<Expr>)
    ensures
        ref_terms(final(kids)@) == ref_terms(old(kids)@) + terms(v@),
{
    let ghost before: Seq<&Expr> = kids@;
    let mut i: usize = 0;
    while i < v.len()
        invariant
            i <= v@.len(),
            kids@.len() == before.len() + i,
            forall|j: int| 0 <= j < before.len() ==> #[trigger] kids@[j] == before[j],
            forall|j: int| 0 <= j < i ==> *(#[trigger] kids@[before.len() + j]) == v@[j],
        decreases v@.len() - i,
    {
        kids.push(&v[i]);
        i += 1;
    }
    assert forall|j: int| 0 <= j < v@.len() implies ref_terms(kids@)[before.len() + j]
        == #[trigger] terms(v@)[j] by {
        assert(*kids@[before.len() + j] == v@[j]);
    }
    assert(ref_terms(kids@) =~= ref_terms(before) + terms(v@));
}

/// Borrows each receiver and body of a select.
fn select_refs(v: &Vec<SelectArm>) -> (r: Vec<&Expr>)
    ensures
        ref_terms(r@) == select_terms(v@),
{
    let mut r: Vec<&Expr> = Vec::new();
    let mut i: usize = 0;
    while i < v.len()
        invariant
            i <= v@.len(),
            r@.len() == 2 * i,
            forall|j: int| 0 <= j < 2 * i ==> (#[trigger] r@[j]).term() == select_terms(v@)[j],
        decreases v@.len() - i,
    {
        r.push(&v[i].receiver);
        r.push(&v[i].body);
        i += 1;
    }
    assert(ref_terms(r@) =~= select_terms(v@));
    r
}

/// Removes and returns the expression at place `i`, leaving a unit literal there.
pub fn take_at(v: &mut Vec<Expr>, i: usize) -> (r: Expr)
    requires
        i < old(v)@.len(),
    ensures
        r == old(v)@[i as int],
        final(v)@ == old(v)@.update(i as int, Expr::Unit),
{
    let ghost before: Seq<Expr> = v@;
    v.push(Expr::Unit);
    let r: Expr = v.swap_remove(i);
    assert(v@ =~= before.update(i as int, Expr::Unit));
    r
}

/// Removes and returns the arm at place `k`, leaving an empty arm there.
pub fn take_arm_at(v: &mut Vec<MatchArm>, k: usize) -> (r: MatchArm)
    requires
        k < old(v)@.len(),
    ensures
        r == old(v)@[k as int],
        final(v)@.len() == old(v)@.len(),
        forall|j: int| 0 <= j < old(v)@.len() && j != k ==> #[trigger] final(v)@[j] == old(v)@[j],
{
    v.push(
        MatchArm { tag: String::new(), bindings: Vec::new(), guard: None, body: Expr::Unit },
    );
    v.swap_remove(k)
}

/// Copies the names of a borrowed node.
fn own_names(v: &Vec<&String>) -> (r: Vec<String>)
    ensures
        names_of(r@) == v@.map_values(|s: &String| s@),
{
    let mut r: Vec<String> = Vec::new();
    let mut i: usize = 0;
    while i < v.len()
        invariant
            i <= v@.len(),
            r@.len() == i,
            forall|j: int| 0 <= j < i ==> #[trigger] r@[j] == *v@[j],
        decreases v@.len() - i,
    {
        r.push(v[i].clone());
        i += 1;
    }
    assert(names_of(r@) =~= v@.map_values(|s: &String| s@));
    r
}

fn copy_types(v: &Vec<Type>) -> (r: Vec<Type>)
    ensures
        r@ == v@,
{
    let mut r: Vec<Type> = Vec::new();
    let mut i: usize = 0;
    while i < v.len()
        invariant
            i <= v@.len(),
            r@ == v@.take(i as int),
        decreases v@.len() - i,
    {
        r.push(v[i]);
        i += 1;
        assert(r@ =~= v@.take(i as int));
    }
    assert(v@.take(i as int) =~= v@);
    r
}

fn copy_expr(e: &Expr) -> (r: Expr)
    ensures
        r.term() == e.term(),
    decreases e.term(),
{
    let p: PartsRef<'_> = e.parts();
    let ghost t: Term = e.term();
    let mut kids: Vec<Expr> = Vec::new();
    let mut i: usize = 0;
    while i < p.kids.len()
        invariant
            i <= p.kids@.len(),
            kids@.len() == i,
            p.term() == t,
            t == e.term(),
            forall|j: int| 0 <= j < i ==> (#[trigger] kids@[j]).term() == t.kids[j],
        decreases p.kids@.len() - i,
    {
        assert(p.kids@[i as int].term() == t.kids[i as int]);
        kids.push(copy_expr(p.kids[i]));
        i += 1;
    }
    assert(terms(kids@) =~= t.kids);
    let mut arms: Vec<MatchArm> = Vec::new();
    let mut k: usize = 0;
    while k < p.arms.len()
        invariant
            k <= p.arms@.len(),
            arms@.len() == k,
            t == e.term(),
            p.term() == t,
            forall|j: int| 0 <= j < k ==> arm_term(#[trigger] arms@[j]) == t.arms[j],
        decreases p.arms@.len() - k,
    {
        assert(t.arms[k as int] == arm_term(*p.arms@[k as int]));
        arms.push(copy_arm(p.arms[k]));
        k += 1;
    }
    assert(arm_terms(arms@) =~= t.arms);
    let types: Option<Vec<Type>> = match p.types {
        Some(ts) => Some(copy_types(ts)),
        None => None,
    };
    let q: Parts = Parts { op: p.op, names: own_names(&p.names), types, kids, arms };
    assert(q.term() == t);
    Expr::from_parts(q)
}

/// The parts of an arm are smaller than the arm.
pub proof fn arm_decreases(arm: ArmTerm)
    ensures
        decreases_to!(arm => arm.body),
        arm.guard matches Some(g) ==> decreases_to!(arm => g),
{
    assert(decreases_to!(arm => arm.body));
    if let Some(g) = arm.guard {
        assert(decreases_to!(arm => arm.guard));
        assert(decreases_to!(arm.guard => arm.guard->0));
    }
}

fn copy_arm(arm: &MatchArm) -> (r: MatchArm)
    ensures
        arm_term(r) == arm_term(*arm),
    decreases arm_term(*arm),
{
    proof {
        arm_decreases(arm_term(*arm));
    }
    let guard: Option<Box<Expr>> = match &arm.guard {
        Some(g) => Some(Box::new(copy_expr(g))),
        None => None,
    };
    MatchArm {
        tag: arm.tag.clone(),
        bindings: crate::names::copy_names(&arm.bindings),
        guard,
        body: copy_expr(&arm.body),
    }
}

impl Clone for Expr {
    fn clone(&self) -> (r: Self)
        ensures
            r.term() == self.term(),
    {
        copy_expr(self)
    }
}

/// Makes a variable.
pub fn mk_var(name: String) -> (r: Expr)
    ensures
        r.term() == t_var(name@),
{
    let r: Expr = Expr::Var(name);
    proof {
        term_unfolds(r);
    }
    r
}

/// Makes a binding.
pub fn mk_let(name: String, value: Expr, body: Expr) -> (r: Expr)
    ensures
        r.term() == t_let(name@, value.term(), body.term()),
{
    let r: Expr = Expr::Let { name, value: Box::new(value), body: Box::new(body) };
    proof {
        term_unfolds(r);
    }
    r
}

/// Makes a rebinding.
pub fn mk_assign(name: String, value: Expr, rest: Expr) -> (r: Expr)
    ensures
        r.term() == t_assign(name@, value.term(), rest.term()),
{
    let r: Expr = Expr::Assign { name, value: Box::new(value), rest: Box::new(rest) };
    proof {
        term_unfolds(r);
    }
    r
}

/// Makes a reference count adjustment.
pub fn mk_rc(op: RcOp, target: String, rest: Expr) -> (r: Expr)
    ensures
        r.term() == t_rc(op, target@, rest.term()),
{
    let r: Expr = Expr::RcAnnotated { op, target, rest: Box::new(rest) };
    proof {
        term_unfolds(r);
    }
    r
}

/// Wraps `body` in bindings, the first one outermost.
pub open spec fn wrap(binds: Seq<(Name, Term)>, body: Term) -> Term
    decreases binds.len(),
{
    if binds.len() == 0 {
        body
    } else {
        wrap(binds.drop_last(), t_let(binds.last().0, binds.last().1, body))
    }
}

/// The model of a list of bindings.
pub open spec fn binds_of(v: Seq<(String, Expr)>) -> Seq<(Name, Term)> {
    Seq::new(v.len(), |i: int| (v[i].0@, v[i].1.term()))
}

/// Wraps `body` in bindings, the first one outermost.
pub fn wrap_in(binds: Vec<(String, Expr)>, body: Expr) -> (r: Expr)
    ensures
        r.term() == wrap(binds_of(binds@), body.term()),
{
    let ghost all: Seq<(Name, Term)> = binds_of(binds@);
    let mut binds: Vec<(String, Expr)> = binds;
    let mut out: Expr = body;
    while binds.len() > 0
        invariant
            wrap(binds_of(binds@), out.term()) == wrap(all, body.term()),
        decreases binds@.len(),
    {
        let ghost before: Seq<(String, Expr)> = binds@;
        match binds.pop() {
            Some((name, value)) => {
                out = mk_let(name, value, out);
                assert(binds_of(binds@) =~= binds_of(before).drop_last());
                assert(binds_of(before).last() == (name@, value.term()));
            },
            None => {},
        }
    }
    out
}

/// The model of a function.
#[verifier::ext_equal]
pub struct FunctionTerm {
    pub name: Name,
    pub params: Seq<Name>,
    pub body: Term,
}

/// The model of a global.
#[verifier::ext_equal]
pub struct GlobalTerm {
    pub name: Name,
    pub value: Term,
}

/// The model of a program.
#[verifier::ext_equal]
pub struct ProgramTerm {
    pub functions: Seq<FunctionTerm>,
    pub globals: Seq<GlobalTerm>,
    pub externs: Seq<ExternDecl>,
}

impl Function {
    pub open spec fn term(self) -> FunctionTerm {
        FunctionTerm { name: self.name@, params: names_of(self.params@), body: self.body.term() }
    }
}

impl Global {
    pub open spec fn term(self) -> GlobalTerm {
        GlobalTerm { name: self.name@, value: self.value.term() }
    }
}

impl Program {
    pub open spec fn term(self) -> ProgramTerm {
        ProgramTerm {
            functions: self.functions@.map_values(|f: Function| f.term()),
            globals: self.globals@.map_values(|g: Global| g.term()),
            externs: self.externs@,
        }
    }
}

} // verus!
