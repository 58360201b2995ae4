//! Programs in surface syntax, lowered, optimised and run.

use plum::ast;
use plum::ast::Span;
use plum::fbip;
use plum::interp::{
    EvalError, FloatOp, Interpreter, Outcome, PortableValue, ReceiverHandle, Reply, Request, SenderHandle, Value,
};
use plum::ir::{BinOp, Expr, Function, Global, MatchArm, Program, RcOp, SelectArm, UnOp};
use plum::lower;
use plum::lower::{lower_expr, LoweringContext};

// --- A reader for the surface syntax that the tests are written in ---

#[derive(Debug, Clone, PartialEq)]
enum Tok {
    Int(i64),
    Float(f64),
    Str(String),
    Name(String),
    Sym(&'static str),
    End,
}

fn tokens(src: &str) -> Vec<(Tok, Span)> {
    let symbols: [&'static str; 31] = [
        "|>", "||", "&&", "==", "!=", "<=", ">=", "=>", "..", "(", ")", "{", "}", "[", "]", ",", ";",
        ":", "=", "<", ">", "+", "-", "*", "/", "%", "!", "|", ".", "_", "&",
    ];
    let chars: Vec<char> = src.chars().collect();
    let mut out: Vec<(Tok, Span)> = Vec::new();
    let mut i = 0usize;
    while i < chars.len() {
        let c = chars[i];
        if c.is_whitespace() {
            i += 1;
            continue;
        }
        let start = i;
        if c.is_ascii_digit() {
            while i < chars.len() && chars[i].is_ascii_digit() {
                i += 1;
            }
            let fraction = i + 1 < chars.len() && chars[i] == '.' && chars[i + 1].is_ascii_digit();
            if fraction {
                i += 1;
                while i < chars.len() && chars[i].is_ascii_digit() {
                    i += 1;
                }
            }
            let text: String = chars[start..i].iter().collect();
            let tok = if fraction {
                Tok::Float(text.parse::<f64>().unwrap())
            } else {
                Tok::Int(text.parse::<i64>().unwrap())
            };
            out.push((tok, Span { start, end: i }));
            continue;
        }
        if c == '"' {
            i += 1;
            let mut text = String::new();
            while chars[i] != '"' {
                text.push(chars[i]);
                i += 1;
            }
            i += 1;
            out.push((Tok::Str(text), Span { start, end: i }));
            continue;
        }
        if c.is_alphabetic() || (c == '_' && i + 1 < chars.len() && chars[i + 1].is_alphanumeric()) {
            while i < chars.len() && (chars[i].is_alphanumeric() || chars[i] == '_') {
                i += 1;
            }
            let text: String = chars[start..i].iter().collect();
            out.push((Tok::Name(text), Span { start, end: i }));
            continue;
        }
        let rest: String = chars[i..].iter().take(2).collect();
        let symbol = symbols.iter().find(|s| rest.starts_with(**s)).unwrap_or_else(|| panic!("no token at {i} of {src:?}"));
        i += symbol.len();
        out.push((Tok::Sym(symbol), Span { start, end: i }));
    }
    out.push((Tok::End, Span { start: i, end: i }));
    out
}

struct Parser {
    toks: Vec<(Tok, Span)>,
    at: usize,
    // Whether `Name {` may start a struct literal.
    literals: bool,
}

fn capital(name: &str) -> bool {
    name.chars().next().is_some_and(|c| c.is_uppercase())
}

impl Parser {
    fn new(src: &str) -> Self {
        Parser { toks: tokens(src), at: 0, literals: true }
    }

    fn peek(&self) -> &Tok {
        &self.toks[self.at].0
    }

    fn ahead(&self, n: usize) -> &Tok {
        &self.toks[(self.at + n).min(self.toks.len() - 1)].0
    }

    fn start(&self) -> usize {
        self.toks[self.at].1.start
    }

    fn span_from(&self, start: usize) -> Span {
        Span { start, end: if self.at == 0 { start } else { self.toks[self.at - 1].1.end } }
    }

    fn next(&mut self) -> Tok {
        let t = self.toks[self.at].0.clone();
        self.at += 1;
        t
    }

    fn is(&self, s: &str) -> bool {
        match self.peek() {
            Tok::Sym(t) => *t == s,
            Tok::Name(t) => t == s,
            _ => false,
        }
    }

    fn eat(&mut self, s: &str) -> bool {
        let found = self.is(s);
        if found {
            self.at += 1;
        }
        found
    }

    fn expect(&mut self, s: &str) {
        if !self.eat(s) {
            panic!("expected {s:?}, found {:?}", self.peek());
        }
    }

    fn name(&mut self) -> String {
        match self.next() {
            Tok::Name(n) => n,
            t => panic!("expected a name, found {t:?}"),
        }
    }

    fn skip_type(&mut self) {
        if self.eat("(") {
            while !self.eat(")") {
                self.skip_type();
                self.eat(",");
            }
            return;
        }
        self.name();
        if self.eat("[") {
            while !self.eat("]") {
                self.skip_type();
                self.eat(",");
            }
        }
    }

    fn program(&mut self) -> ast::Program {
        let mut items = Vec::new();
        while *self.peek() != Tok::End {
            if self.eat("struct") {
                let name = self.name();
                self.expect("{");
                let mut fields = Vec::new();
                while !self.eat("}") {
                    fields.push(self.name());
                    self.expect(":");
                    self.skip_type();
                    self.eat(",");
                }
                items.push(ast::Item::Struct(ast::StructDecl { name, fields }));
            } else if self.eat("enum") {
                let name = self.name();
                self.expect("{");
                let mut variants = Vec::new();
                while !self.eat("}") {
                    let name = self.name();
                    let mut arity = 0usize;
                    if self.eat("(") {
                        while !self.eat(")") {
                            self.skip_type();
                            arity += 1;
                            self.eat(",");
                        }
                    }
                    variants.push(ast::VariantDecl { name, arity });
                    self.eat(",");
                }
                items.push(ast::Item::Enum(ast::EnumDecl { name, variants }));
            } else if self.eat("use") {
                while !self.eat(";") {
                    self.next();
                }
                items.push(ast::Item::Other);
            } else {
                self.expect("let");
                let name = self.name();
                if self.eat("[") {
                    while !self.eat("]") {
                        self.next();
                    }
                }
                let mut params = Vec::new();
                while !self.is("=") && !self.is(":") {
                    params.push(self.param());
                }
                if self.eat(":") {
                    self.skip_type();
                }
                self.expect("=");
                let body = self.expr();
                items.push(ast::Item::Let(ast::LetDef { name, params, body }));
            }
        }
        ast::Program { items }
    }

    fn param(&mut self) -> ast::Param {
        let start = self.start();
        if !self.is("(") {
            let name = self.name();
            return ast::Param { kind: ast::ParamKind::Ident(name), span: self.span_from(start) };
        }
        let pattern = self.pattern();
        ast::Param { kind: ast::ParamKind::Pattern(pattern), span: self.span_from(start) }
    }

    fn pattern(&mut self) -> ast::Pattern {
        let start = self.start();
        let first = self.simple_pattern();
        if !self.is("|") {
            return first;
        }
        while self.eat("|") {
            self.simple_pattern();
        }
        ast::Pattern::Other(self.span_from(start))
    }

    fn simple_pattern(&mut self) -> ast::Pattern {
        let start = self.start();
        match self.next() {
            Tok::Sym("_") => ast::Pattern::Wildcard(self.span_from(start)),
            Tok::Int(n) => ast::Pattern::Literal(ast::Literal::Int(n), self.span_from(start)),
            Tok::Float(x) => ast::Pattern::Literal(ast::Literal::Float(x.to_bits()), self.span_from(start)),
            Tok::Str(s) => ast::Pattern::Literal(ast::Literal::Str(s), self.span_from(start)),
            Tok::Sym("(") => {
                let mut elems = Vec::new();
                let mut commas = 0;
                while !self.eat(")") {
                    elems.push(self.pattern());
                    if self.eat(":") {
                        self.skip_type();
                    }
                    if self.eat(",") {
                        commas += 1;
                    }
                }
                if elems.len() == 1 && commas == 0 {
                    return elems.remove(0);
                }
                ast::Pattern::Tuple(elems, self.span_from(start))
            }
            Tok::Name(n) if n == "true" || n == "false" => {
                ast::Pattern::Literal(ast::Literal::Bool(n == "true"), self.span_from(start))
            }
            Tok::Name(n) if !capital(&n) => ast::Pattern::Ident(n, self.span_from(start)),
            Tok::Name(n) => {
                let mut qualifiers = Vec::new();
                let mut name = n;
                while self.eat(".") {
                    qualifiers.push(name);
                    name = self.name();
                }
                let path = ast::Path { qualifiers, name };
                if self.eat("{") {
                    let mut fields = Vec::new();
                    let mut has_rest = false;
                    while !self.eat("}") {
                        if self.eat("..") {
                            has_rest = true;
                        } else {
                            let at = self.start();
                            let name = self.name();
                            let pattern = if self.eat(":") {
                                self.pattern()
                            } else {
                                ast::Pattern::Ident(name.clone(), self.span_from(at))
                            };
                            fields.push(ast::FieldPattern { name, pattern, span: self.span_from(at) });
                        }
                        self.eat(",");
                    }
                    return ast::Pattern::Struct { path, fields, has_rest, span: self.span_from(start) };
                }
                let mut args = Vec::new();
                if self.eat("(") {
                    while !self.eat(")") {
                        args.push(self.pattern());
                        self.eat(",");
                    }
                }
                ast::Pattern::Variant { path, args, span: self.span_from(start) }
            }
            t => panic!("expected a pattern, found {t:?}"),
        }
    }

    fn expr(&mut self) -> ast::Expr {
        self.binary(0)
    }

    // Struct literals are not read at the top of `match`, `if` and `for` heads.
    fn head(&mut self) -> ast::Expr {
        let before = self.literals;
        self.literals = false;
        let e = self.expr();
        self.literals = before;
        e
    }

    fn inner(&mut self) -> ast::Expr {
        let before = self.literals;
        self.literals = true;
        let e = self.expr();
        self.literals = before;
        e
    }

    fn binary(&mut self, level: usize) -> ast::Expr {
        let levels: [&[(&str, ast::BinaryOp)]; 7] = [
            &[("|>", ast::BinaryOp::Pipe)],
            &[("..", ast::BinaryOp::Range)],
            &[("||", ast::BinaryOp::Or)],
            &[("&&", ast::BinaryOp::And)],
            &[
                ("==", ast::BinaryOp::Eq),
                ("!=", ast::BinaryOp::Ne),
                ("<=", ast::BinaryOp::Le),
                (">=", ast::BinaryOp::Ge),
                ("<", ast::BinaryOp::Lt),
                (">", ast::BinaryOp::Gt),
            ],
            &[("+", ast::BinaryOp::Add), ("-", ast::BinaryOp::Sub)],
            &[("*", ast::BinaryOp::Mul), ("/", ast::BinaryOp::Div), ("%", ast::BinaryOp::Rem)],
        ];
        if level == levels.len() {
            return self.unary();
        }
        let start = self.start();
        let mut lhs = self.binary(level + 1);
        loop {
            let found = levels[level].iter().find(|(s, _)| *self.peek() == Tok::Sym(s)).map(|(_, op)| *op);
            match found {
                Some(op) => {
                    self.next();
                    let rhs = self.binary(level + 1);
                    lhs = ast::Expr::Binary { op, lhs: Box::new(lhs), rhs: Box::new(rhs), span: self.span_from(start) };
                }
                None => return lhs,
            }
        }
    }

    fn unary(&mut self) -> ast::Expr {
        let start = self.start();
        let op = if self.eat("-") {
            ast::UnaryOp::Neg
        } else if self.eat("!") {
            ast::UnaryOp::Not
        } else {
            return self.postfix();
        };
        let expr = self.unary();
        ast::Expr::Unary { op, expr: Box::new(expr), span: self.span_from(start) }
    }

    fn args(&mut self) -> Vec<ast::Expr> {
        let mut args = Vec::new();
        while !self.eat(")") {
            args.push(self.inner());
            self.eat(",");
        }
        args
    }

    fn postfix(&mut self) -> ast::Expr {
        let start = self.start();
        let mut e = self.primary();
        loop {
            if self.eat("(") {
                let args = self.args();
                e = ast::Expr::Call { callee: Box::new(e), args, span: self.span_from(start) };
            } else if self.is(".") {
                self.next();
                let name = self.name();
                e = ast::Expr::Field { base: Box::new(e), name, span: self.span_from(start) };
            } else if self.is("[") {
                let types = matches!(self.ahead(1), Tok::Name(n) if capital(n));
                self.next();
                if types {
                    let mut args = 0usize;
                    while !self.eat("]") {
                        self.skip_type();
                        args += 1;
                        self.eat(",");
                    }
                    e = ast::Expr::GenericInst { callee: Box::new(e), args, span: self.span_from(start) };
                } else {
                    let index = self.inner();
                    self.expect("]");
                    e = ast::Expr::Index { base: Box::new(e), index: Box::new(index), span: self.span_from(start) };
                }
            } else {
                return e;
            }
        }
    }

    fn block(&mut self) -> ast::Block {
        let before = self.literals;
        self.literals = true;
        self.expect("{");
        let mut stmts = Vec::new();
        let mut tail = None;
        while !self.eat("}") {
            if self.eat("let") {
                self.eat("mut");
                let pattern = self.pattern();
                if self.eat(":") {
                    self.skip_type();
                }
                self.expect("=");
                let value = self.expr();
                self.expect(";");
                stmts.push(ast::Stmt::Let { pattern, value });
                continue;
            }
            let assigns = matches!(self.peek(), Tok::Name(_)) && *self.ahead(1) == Tok::Sym("=");
            if assigns {
                let name = self.name();
                self.expect("=");
                let value = self.expr();
                self.expect(";");
                stmts.push(ast::Stmt::Assign { name, value });
                continue;
            }
            let e = self.expr();
            if self.eat(";") {
                stmts.push(ast::Stmt::Expr(e));
            } else {
                tail = Some(e);
            }
        }
        self.literals = before;
        ast::Block { stmts, tail }
    }

    fn primary(&mut self) -> ast::Expr {
        let start = self.start();
        if self.is("{") {
            let block = self.block();
            return ast::Expr::Block(Box::new(block), self.span_from(start));
        }
        match self.next() {
            Tok::Int(n) => ast::Expr::Int(n, self.span_from(start)),
            Tok::Float(x) => ast::Expr::Float(x.to_bits(), self.span_from(start)),
            Tok::Str(s) => ast::Expr::Str(s, self.span_from(start)),
            Tok::Sym("(") => {
                let mut elems = Vec::new();
                let mut commas = 0;
                while !self.eat(")") {
                    elems.push(self.inner());
                    if self.eat(",") {
                        commas += 1;
                    }
                }
                if elems.len() == 1 && commas == 0 {
                    return elems.remove(0);
                }
                ast::Expr::Tuple(elems, self.span_from(start))
            }
            Tok::Sym("[") => {
                let mut elems = Vec::new();
                while !self.eat("]") {
                    elems.push(self.inner());
                    self.eat(",");
                }
                ast::Expr::ArrayLiteral(elems, self.span_from(start))
            }
            Tok::Sym("||") => {
                let body = self.expr();
                ast::Expr::Closure { params: vec![], body: Box::new(body), span: self.span_from(start) }
            }
            Tok::Sym("|") => {
                let mut params = Vec::new();
                while !self.eat("|") {
                    params.push(self.name());
                    if self.eat(":") {
                        self.skip_type();
                    }
                    self.eat(",");
                }
                let body = self.expr();
                ast::Expr::Closure { params, body: Box::new(body), span: self.span_from(start) }
            }
            Tok::Name(n) => self.named(n, start),
            t => panic!("expected an expression, found {t:?}"),
        }
    }

    fn named(&mut self, n: String, start: usize) -> ast::Expr {
        match n.as_str() {
            "true" => ast::Expr::Bool(true, self.span_from(start)),
            "false" => ast::Expr::Bool(false, self.span_from(start)),
            "if" => {
                let cond = self.head();
                let then_branch = self.block();
                let else_branch = if self.eat("else") { Some(Box::new(self.postfix())) } else { None };
                ast::Expr::If {
                    cond: Box::new(cond),
                    then_branch: Box::new(then_branch),
                    else_branch,
                    span: self.span_from(start),
                }
            }
            "match" => {
                let scrutinee = self.head();
                self.expect("{");
                let mut arms = Vec::new();
                while !self.eat("}") {
                    let at = self.start();
                    let pattern = self.pattern();
                    let guard = if self.eat("if") { Some(self.inner()) } else { None };
                    self.expect("=>");
                    let body = self.inner();
                    arms.push(ast::MatchArm { pattern, guard, body, span: self.span_from(at) });
                    self.eat(",");
                }
                ast::Expr::Match { scrutinee: Box::new(scrutinee), arms, span: self.span_from(start) }
            }
            "select" => {
                self.expect("{");
                let mut arms = Vec::new();
                while !self.eat("}") {
                    let pattern = self.pattern();
                    self.expect("=");
                    let expr = self.inner();
                    self.expect("=>");
                    let body = self.inner();
                    arms.push(ast::SelectArm { pattern, expr, body });
                    self.eat(",");
                }
                ast::Expr::Select { arms, span: self.span_from(start) }
            }
            "for" => {
                let pattern = self.pattern();
                self.expect("in");
                let iter = self.head();
                let body = self.block();
                ast::Expr::For { pattern, iter: Box::new(iter), body: Box::new(body), span: self.span_from(start) }
            }
            "unsafe" => {
                let block = self.block();
                ast::Expr::Unsafe(Box::new(block), self.span_from(start))
            }
            "spawn" => {
                let block = self.block();
                ast::Expr::Spawn(Box::new(block), self.span_from(start))
            }
            _ if capital(&n) && self.literals && self.is("{") => {
                self.next();
                let mut fields = Vec::new();
                let mut spread = None;
                while !self.eat("}") {
                    if self.eat("..") {
                        spread = Some(Box::new(self.inner()));
                    } else {
                        let at = self.start();
                        let name = self.name();
                        self.expect(":");
                        let value = self.inner();
                        fields.push(ast::FieldInit { name, value, span: self.span_from(at) });
                    }
                    self.eat(",");
                }
                let path = ast::Path { qualifiers: vec![], name: n };
                ast::Expr::StructLiteral { path, fields, spread, span: self.span_from(start) }
            }
            _ => ast::Expr::Ident(n, self.span_from(start)),
        }
    }
}

fn parse_expr(src: &str) -> ast::Expr {
    Parser::new(src).expr()
}

fn parse_program(src: &str) -> ast::Program {
    Parser::new(src).program()
}

// --- A host that runs one task after another until the first one is done ---

struct Actor {
    interp: Interpreter,
    // Which actor runs the task with each of this interpreter's numbers.
    tasks: Vec<usize>,
}

struct Host {
    actors: Vec<Actor>,
    channels: Vec<Vec<PortableValue>>,
}

fn float_reply(op: FloatOp, a: u64, b: u64) -> Reply {
    let x = f64::from_bits(a);
    let y = f64::from_bits(b);
    match op {
        FloatOp::Neg => Reply::Float((-x).to_bits()),
        FloatOp::Show => Reply::Text(format!("{x}")),
        FloatOp::Binary(op) => match op {
            BinOp::Add => Reply::Float((x + y).to_bits()),
            BinOp::Sub => Reply::Float((x - y).to_bits()),
            BinOp::Mul => Reply::Float((x * y).to_bits()),
            BinOp::Div => Reply::Float((x / y).to_bits()),
            BinOp::Rem => Reply::Float((x % y).to_bits()),
            BinOp::Eq => Reply::Bool(x == y),
            BinOp::Ne => Reply::Bool(x != y),
            _ if x.is_nan() || y.is_nan() => Reply::NoOrdering,
            BinOp::Lt => Reply::Bool(x < y),
            BinOp::Gt => Reply::Bool(x > y),
            BinOp::Le => Reply::Bool(x <= y),
            BinOp::Ge => Reply::Bool(x >= y),
            _ => Reply::Poisoned,
        },
    }
}

impl Host {
    // Lets an actor go on as far as it can. Whether it got anywhere.
    fn advance(&mut self, me: usize) -> bool {
        let mut moved = false;
        loop {
            self.actors[me].interp.run(u64::MAX);
            let mut spawned: Option<Interpreter> = None;
            let mut yields = false;
            let reply = match self.actors[me].interp.request() {
                None => return moved,
                Some(Request::Float { op, a, b }) => float_reply(*op, *a, *b),
                Some(Request::Spawn { task, .. }) => {
                    spawned = Some(Interpreter::for_task(task));
                    Reply::Spawned
                }
                Some(Request::Join { id }) => {
                    let other = self.actors[me].tasks[*id];
                    match self.actors[other].interp.task_result() {
                        None => return moved,
                        Some(Ok(p)) => Reply::Joined(p),
                        Some(Err(e)) => Reply::TaskFailed(text_of(&e)),
                    }
                }
                Some(Request::Channel { .. }) => {
                    let id = self.channels.len();
                    self.channels.push(Vec::new());
                    Reply::Channel(SenderHandle { id }, ReceiverHandle { id })
                }
                Some(Request::Send { to, value }) => {
                    self.channels[to.id].push(value.clone());
                    Reply::Sent
                }
                Some(Request::Recv { from }) => {
                    if self.channels[from.id].is_empty() {
                        return moved;
                    }
                    Reply::Received(self.channels[from.id].remove(0))
                }
                Some(Request::TryRecv { from }) => {
                    if self.channels[from.id].is_empty() {
                        Reply::Empty
                    } else {
                        Reply::Received(self.channels[from.id].remove(0))
                    }
                }
                Some(Request::Sleep) => {
                    yields = true;
                    Reply::Slept
                }
            };
            if let Some(interp) = spawned {
                let id = self.actors.len();
                self.actors.push(Actor { interp, tasks: Vec::new() });
                self.actors[me].tasks.push(id);
            }
            self.actors[me].interp.resume(reply);
            moved = true;
            if yields {
                return true;
            }
        }
    }
}

// Brings an interpreter that has started something to its end.
fn finish(interp: &mut Interpreter) -> Result<Value, EvalError> {
    let taken = std::mem::take(interp);
    let mut host = Host { actors: vec![Actor { interp: taken, tasks: Vec::new() }], channels: Vec::new() };
    loop {
        let mut moved = false;
        let mut i = 0usize;
        while i < host.actors.len() {
            moved = host.advance(i) || moved;
            i += 1;
        }
        match host.actors[0].interp.outcome() {
            Outcome::Done(v) => {
                std::mem::swap(interp, &mut host.actors[0].interp);
                return Ok(v);
            }
            Outcome::Failed(e) => {
                std::mem::swap(interp, &mut host.actors[0].interp);
                return Err(e);
            }
            _ => {}
        }
        if !moved {
            panic!("every task waits");
        }
    }
}

fn text_of(e: &EvalError) -> String {
    let by_host: Vec<String> = e
        .shown_by_host()
        .iter()
        .map(|v| match v {
            Value::Float(bits) => format!("Float({:?})", f64::from_bits(*bits)),
            other => format!("{other:?}"),
        })
        .collect();
    e.message(&by_host)
}

fn eval_in(interp: &mut Interpreter, expr: &Expr) -> Result<Value, String> {
    let _ = interp.eval(expr);
    finish(interp).map_err(|e| text_of(&e))
}

fn call_in(interp: &mut Interpreter, name: &str, args: Vec<Value>) -> Result<Value, String> {
    let _ = interp.call(name, args);
    finish(interp).map_err(|e| text_of(&e))
}

fn load_in(interp: &mut Interpreter, program: &Program) -> Result<(), String> {
    let _ = interp.load_program(program);
    finish(interp).map(|_| ()).map_err(|e| text_of(&e))
}

fn float(x: f64) -> Value {
    Value::Float(x.to_bits())
}

// --- Lowering ---

fn lower(src: &str) -> Expr {
    lower_with(src, &LoweringContext::new())
}

fn lower_err(src: &str) -> String {
    lower_with_err(src, &LoweringContext::new())
}

fn lower_with(src: &str, ctx: &LoweringContext) -> Expr {
    lower_expr(&parse_expr(src), ctx).unwrap_or_else(|e| panic!("lowering error for {src:?}: {}", e.message()))
}

fn lower_with_err(src: &str, ctx: &LoweringContext) -> String {
    match lower_expr(&parse_expr(src), ctx) {
        Ok(e) => panic!("expected lowering of {src:?} to fail, got {e:?}"),
        Err(e) => e.message(),
    }
}

fn context_from_program(src: &str) -> LoweringContext {
    LoweringContext::from_items(&parse_program(src).items)
}

fn lower_field_access(struct_decls: &str, expr_src: &str, struct_name: &str) -> Expr {
    let parsed = parse_expr(expr_src);
    let ctx = context_from_program(struct_decls).with_field_owners(vec![(parsed.span(), struct_name.to_string())]);
    lower_expr(&parsed, &ctx).unwrap_or_else(|e| panic!("lowering error for {expr_src:?}: {}", e.message()))
}

fn lower_program(src: &str) -> Program {
    let program = parse_program(src);
    let ctx = LoweringContext::from_items(&program.items);
    lower::lower_program(&program, &ctx).unwrap_or_else(|e| panic!("lowering error for {src:?}: {}", e.message()))
}

fn lower_program_err(src: &str) -> String {
    let program = parse_program(src);
    let ctx = LoweringContext::from_items(&program.items);
    match lower::lower_program(&program, &ctx) {
        Ok(_) => panic!("expected lowering of {src:?} to fail"),
        Err(e) => e.message(),
    }
}

#[test]
fn lower_literals() {
    assert_eq!(lower("5"), Expr::Int(5));
    assert_eq!(lower("3.14"), Expr::Float(f64::to_bits(3.14)));
    assert_eq!(lower("\"hi\""), Expr::Str("hi".to_string()));
    assert_eq!(lower("true"), Expr::Bool(true));
    assert_eq!(lower("false"), Expr::Bool(false));
}

#[test]
fn empty_tuple_is_unit() {
    assert_eq!(lower("()"), Expr::Unit);
}

#[test]
fn variable() {
    assert_eq!(lower("x"), Expr::Var("x".to_string()));
}

#[test]
fn unary_ops() {
    assert_eq!(
        lower("-5"),
        Expr::Unary(UnOp::Neg, Box::new(Expr::Int(5)))
    );
    assert_eq!(
        lower("!flag"),
        Expr::Unary(UnOp::Not, Box::new(Expr::Var("flag".to_string())))
    );
}

#[test]
fn binary_arithmetic() {
    assert_eq!(
        lower("1 + 2"),
        Expr::Binary(
            BinOp::Add,
            Box::new(Expr::Int(1)),
            Box::new(Expr::Int(2))
        )
    );
}

#[test]
fn binary_all_operators_map_correctly() {
    let cases = [
        ("a - b", BinOp::Sub),
        ("a * b", BinOp::Mul),
        ("a / b", BinOp::Div),
        ("a % b", BinOp::Rem),
        ("a == b", BinOp::Eq),
        ("a != b", BinOp::Ne),
        ("a < b", BinOp::Lt),
        ("a > b", BinOp::Gt),
        ("a <= b", BinOp::Le),
        ("a >= b", BinOp::Ge),
        ("a && b", BinOp::And),
        ("a || b", BinOp::Or),
    ];
    for (src, expected_op) in cases {
        let expected = Expr::Binary(
            expected_op,
            Box::new(Expr::Var("a".to_string())),
            Box::new(Expr::Var("b".to_string())),
        );
        assert_eq!(lower(src), expected, "mismatch lowering {src:?}");
    }
}

#[test]
fn if_with_else() {
    assert_eq!(
        lower("if true { 1 } else { 2 }"),
        Expr::If {
            cond: Box::new(Expr::Bool(true)),
            then_branch: Box::new(Expr::Int(1)),
            else_branch: Box::new(Expr::Int(2)),
        }
    );
}

#[test]
fn if_without_else_defaults_to_unit() {
    assert_eq!(
        lower("if true { 1 }"),
        Expr::If {
            cond: Box::new(Expr::Bool(true)),
            then_branch: Box::new(Expr::Int(1)),
            else_branch: Box::new(Expr::Unit),
        }
    );
}

#[test]
fn call() {
    assert_eq!(
        lower("f(1, 2)"),
        Expr::Call {
            callee: Box::new(Expr::Var("f".to_string())),
            args: vec![Expr::Int(1), Expr::Int(2)],
        }
    );
}

#[test]
fn call_no_args() {
    assert_eq!(
        lower("f()"),
        Expr::Call {
            callee: Box::new(Expr::Var("f".to_string())),
            args: vec![],
        }
    );
}

#[test]
fn pipe_into_bare_identifier() {
    assert_eq!(
        lower("x |> f"),
        Expr::Call {
            callee: Box::new(Expr::Var("f".to_string())),
            args: vec![Expr::Var("x".to_string())],
        }
    );
}

#[test]
fn pipe_into_explicit_call_appends_last() {
    assert_eq!(
        lower("x |> f(a, b)"),
        Expr::Call {
            callee: Box::new(Expr::Var("f".to_string())),
            args: vec![
                Expr::Var("a".to_string()),
                Expr::Var("b".to_string()),
                Expr::Var("x".to_string()),
            ],
        }
    );
}

#[test]
fn pipe_chain_is_nested_calls() {
    assert_eq!(
        lower("x |> f |> g"),
        Expr::Call {
            callee: Box::new(Expr::Var("g".to_string())),
            args: vec![Expr::Call {
                callee: Box::new(Expr::Var("f".to_string())),
                args: vec![Expr::Var("x".to_string())],
            }],
        }
    );
}

#[test]
fn pipe_lhs_can_be_a_compound_expression() {
    assert_eq!(
        lower("a + b |> f"),
        Expr::Call {
            callee: Box::new(Expr::Var("f".to_string())),
            args: vec![Expr::Binary(
                BinOp::Add,
                Box::new(Expr::Var("a".to_string())),
                Box::new(Expr::Var("b".to_string())),
            )],
        }
    );
}

#[test]
fn empty_block_is_unit() {
    assert_eq!(lower("{}"), Expr::Unit);
}

#[test]
fn block_with_only_tail_has_no_extra_wrapping() {
    assert_eq!(lower("{ 5 }"), Expr::Int(5));
}

#[test]
fn block_let_statement() {
    assert_eq!(
        lower("{ let x = 5; x }"),
        Expr::Let {
            name: "x".to_string(),
            value: Box::new(Expr::Int(5)),
            body: Box::new(Expr::Var("x".to_string())),
        }
    );
}

#[test]
fn block_discarded_expression_statement() {
    assert_eq!(
        lower("{ 5; 6 }"),
        Expr::Let {
            name: "_".to_string(),
            value: Box::new(Expr::Int(5)),
            body: Box::new(Expr::Int(6)),
        }
    );
}

#[test]
fn block_multiple_lets_nest_in_order() {
    assert_eq!(
        lower("{ let x = 1; let y = 2; x + y }"),
        Expr::Let {
            name: "x".to_string(),
            value: Box::new(Expr::Int(1)),
            body: Box::new(Expr::Let {
                name: "y".to_string(),
                value: Box::new(Expr::Int(2)),
                body: Box::new(Expr::Binary(
                    BinOp::Add,
                    Box::new(Expr::Var("x".to_string())),
                    Box::new(Expr::Var("y".to_string())),
                )),
            }),
        }
    );
}

#[test]
fn block_let_mut_lowers_like_plain_let() {
    assert_eq!(
        lower("{ let mut x = 5; x }"),
        Expr::Let {
            name: "x".to_string(),
            value: Box::new(Expr::Int(5)),
            body: Box::new(Expr::Var("x".to_string())),
        }
    );
}

#[test]
fn block_assign_lowers_to_ir_assign() {
    assert_eq!(
        lower("{ let mut x = 5; x = 6; x }"),
        Expr::Let {
            name: "x".to_string(),
            value: Box::new(Expr::Int(5)),
            body: Box::new(Expr::Assign {
                name: "x".to_string(),
                value: Box::new(Expr::Int(6)),
                rest: Box::new(Expr::Var("x".to_string())),
            }),
        }
    );
}

#[test]
fn block_multiple_assigns_nest_in_order() {
    assert_eq!(
        lower("{ let mut x = 0; x = 1; x = 2; x }"),
        Expr::Let {
            name: "x".to_string(),
            value: Box::new(Expr::Int(0)),
            body: Box::new(Expr::Assign {
                name: "x".to_string(),
                value: Box::new(Expr::Int(1)),
                rest: Box::new(Expr::Assign {
                    name: "x".to_string(),
                    value: Box::new(Expr::Int(2)),
                    rest: Box::new(Expr::Var("x".to_string())),
                }),
            }),
        }
    );
}

#[test]
fn lower_assign_value_can_reference_the_current_binding() {
    assert_eq!(
        lower("{ let mut sum = 0; sum = sum + 1; sum }"),
        Expr::Let {
            name: "sum".to_string(),
            value: Box::new(Expr::Int(0)),
            body: Box::new(Expr::Assign {
                name: "sum".to_string(),
                value: Box::new(Expr::Binary(
                    BinOp::Add,
                    Box::new(Expr::Var("sum".to_string())),
                    Box::new(Expr::Int(1)),
                )),
                rest: Box::new(Expr::Var("sum".to_string())),
            }),
        }
    );
}

#[test]
fn struct_literal_basic() {
    let ctx = context_from_program("struct Point { x: Float, y: Float }");
    assert_eq!(
        lower_with("Point { x: 1.0, y: 2.0 }", &ctx),
        Expr::Ctor {
            tag: "Point".to_string(),
            fields: vec![Expr::Float(f64::to_bits(1.0)), Expr::Float(f64::to_bits(2.0))],
        }
    );
}

#[test]
fn struct_literal_field_order_is_independent_of_declared_order() {
    let ctx = context_from_program("struct Point { x: Float, y: Float }");
    assert_eq!(
        lower_with("Point { y: 2.0, x: 1.0 }", &ctx),
        Expr::Ctor {
            tag: "Point".to_string(),
            fields: vec![Expr::Float(f64::to_bits(1.0)), Expr::Float(f64::to_bits(2.0))],
        }
    );
}

#[test]
fn struct_literal_unknown_type_is_an_error() {
    lower_with_err("Foo { x: 1.0 }", &LoweringContext::new());
}

#[test]
fn struct_literal_missing_field_is_an_error() {
    let ctx = context_from_program("struct Point { x: Float, y: Float }");
    lower_with_err("Point { x: 1.0 }", &ctx);
}

#[test]
fn struct_literal_unknown_field_is_an_error() {
    let ctx = context_from_program("struct Point { x: Float, y: Float }");
    lower_with_err("Point { x: 1.0, y: 2.0, z: 3.0 }", &ctx);
}

#[test]
fn struct_literal_duplicate_field_is_an_error() {
    let ctx = context_from_program("struct Point { x: Float, y: Float }");
    lower_with_err("Point { x: 1.0, x: 2.0 }", &ctx);
}

#[test]
fn bare_variant_call_constructs_a_ctor() {
    let ctx = context_from_program("enum Shape { Circle(Float) }");
    assert_eq!(
        lower_with("Circle(1.0)", &ctx),
        Expr::Ctor {
            tag: "Circle".to_string(),
            fields: vec![Expr::Float(f64::to_bits(1.0))],
        }
    );
}

#[test]
fn qualified_variant_call_constructs_a_ctor() {
    let ctx = context_from_program("enum Shape { Circle(Float) }");
    assert_eq!(
        lower_with("Shape.Circle(1.0)", &ctx),
        Expr::Ctor {
            tag: "Circle".to_string(),
            fields: vec![Expr::Float(f64::to_bits(1.0))],
        }
    );
}

#[test]
fn multi_field_variant_call() {
    let ctx = context_from_program("enum Shape { Rectangle(Float, Float) }");
    assert_eq!(
        lower_with("Rectangle(1.0, 2.0)", &ctx),
        Expr::Ctor {
            tag: "Rectangle".to_string(),
            fields: vec![Expr::Float(f64::to_bits(1.0)), Expr::Float(f64::to_bits(2.0))],
        }
    );
}

#[test]
fn bare_zero_arity_variant_constructs_a_ctor() {
    let ctx = context_from_program("enum Shape { Empty }");
    assert_eq!(
        lower_with("Empty", &ctx),
        Expr::Ctor {
            tag: "Empty".to_string(),
            fields: vec![],
        }
    );
}

#[test]
fn variant_call_wrong_arity_is_an_error() {
    let ctx = context_from_program("enum Shape { Circle(Float) }");
    lower_with_err("Circle(1.0, 2.0)", &ctx);
}

#[test]
fn bare_non_zero_arity_variant_eta_expands_into_a_closure() {
    let ctx = context_from_program("enum Shape { Circle(Float) }");
    assert_eq!(
        lower_with("Circle", &ctx),
        Expr::Closure {
            param_types: None,
            ret_type: None,
            params: vec!["__ctor_arg0".to_string()],
            body: Box::new(Expr::Ctor {
                tag: "Circle".to_string(),
                fields: vec![Expr::Var("__ctor_arg0".to_string())],
            }),
        }
    );
}

#[test]
fn bare_multi_field_variant_eta_expands_with_one_param_per_field() {
    let ctx = context_from_program("enum Shape { Rectangle(Float, Float) }");
    assert_eq!(
        lower_with("Rectangle", &ctx),
        Expr::Closure {
            param_types: None,
            ret_type: None,
            params: vec!["__ctor_arg0".to_string(), "__ctor_arg1".to_string()],
            body: Box::new(Expr::Ctor {
                tag: "Rectangle".to_string(),
                fields: vec![
                    Expr::Var("__ctor_arg0".to_string()),
                    Expr::Var("__ctor_arg1".to_string()),
                ],
            }),
        }
    );
}

#[test]
fn ordinary_function_calls_are_unaffected_by_variant_lowering() {
    let ctx = context_from_program("enum Shape { Circle(Float) }");
    assert_eq!(
        lower_with("double(5)", &ctx),
        Expr::Call {
            callee: Box::new(Expr::Var("double".to_string())),
            args: vec![Expr::Int(5)],
        }
    );
}

#[test]
fn variant_construction_and_pattern_round_trip() {
    let ctx = context_from_program("enum Shape { Circle(Float) }");
    assert_eq!(
        lower_with("match Circle(1.0) { Circle(r) => r }", &ctx),
        Expr::Match {
            scrutinee: Box::new(Expr::Ctor {
                tag: "Circle".to_string(),
                fields: vec![Expr::Float(f64::to_bits(1.0))],
            }),
            arms: vec![MatchArm {
                guard: None,
                tag: "Circle".to_string(),
                bindings: vec!["r".to_string()],
                body: Expr::Var("r".to_string()),
            }],
        }
    );
}

#[test]
fn struct_literal_spread_lowers_to_a_match_that_rebuilds_the_ctor() {
    let ctx = context_from_program("struct Point { x: Float, y: Float }");
    assert_eq!(
        lower_with("Point { x: 1.0, ..other }", &ctx),
        Expr::Match {
            scrutinee: Box::new(Expr::Var("other".to_string())),
            arms: vec![MatchArm {
                guard: None,
                tag: "Point".to_string(),
                bindings: vec!["__spread0".to_string(), "__spread1".to_string()],
                body: Expr::Ctor {
                    tag: "Point".to_string(),
                    fields: vec![Expr::Float(f64::to_bits(1.0)), Expr::Var("__spread1".to_string())],
                },
            }],
        }
    );
}

#[test]
fn struct_literal_spread_with_every_field_overridden_still_binds_but_ignores_them() {
    let ctx = context_from_program("struct Point { x: Float, y: Float }");
    assert_eq!(
        lower_with("Point { x: 1.0, y: 2.0, ..other }", &ctx),
        Expr::Match {
            scrutinee: Box::new(Expr::Var("other".to_string())),
            arms: vec![MatchArm {
                guard: None,
                tag: "Point".to_string(),
                bindings: vec!["__spread0".to_string(), "__spread1".to_string()],
                body: Expr::Ctor {
                    tag: "Point".to_string(),
                    fields: vec![Expr::Float(f64::to_bits(1.0)), Expr::Float(f64::to_bits(2.0))],
                },
            }],
        }
    );
}

#[test]
fn struct_literal_spread_with_unknown_field_is_still_an_error() {
    let ctx = context_from_program("struct Point { x: Float, y: Float }");
    lower_with_err("Point { z: 1.0, ..other }", &ctx);
}

#[test]
fn field_access_lowers_to_a_match_that_extracts_one_binding() {
    assert_eq!(
        lower_field_access("struct Point { x: Float, y: Float }", "p.x", "Point"),
        Expr::Match {
            scrutinee: Box::new(Expr::Var("p".to_string())),
            arms: vec![MatchArm {
                tag: "Point".to_string(),
                bindings: vec!["__field_result".to_string(), "_".to_string()],
                guard: None,
                body: Expr::Var("__field_result".to_string()),
            }],
        }
    );
}

#[test]
fn field_access_binds_the_wanted_field_at_its_declared_position() {
    assert_eq!(
        lower_field_access("struct Point { x: Float, y: Float }", "p.y", "Point"),
        Expr::Match {
            scrutinee: Box::new(Expr::Var("p".to_string())),
            arms: vec![MatchArm {
                tag: "Point".to_string(),
                bindings: vec!["_".to_string(), "__field_result".to_string()],
                guard: None,
                body: Expr::Var("__field_result".to_string()),
            }],
        }
    );
}

#[test]
fn field_access_on_an_unknown_field_is_an_error() {
    let parsed = parse_expr("p.z");
    let ctx = context_from_program("struct Point { x: Float, y: Float }")
        .with_field_owners(vec![(parsed.span(), "Point".to_string())]);
    assert!(lower_expr(&parsed, &ctx).is_err());
}

#[test]
fn field_access_without_a_resolved_owner_is_an_error() {
    let ctx = context_from_program("struct Point { x: Float, y: Float }");
    lower_with_err("p.x", &ctx);
}

#[test]
fn match_variant_arms() {
    assert_eq!(
        lower("match shape { Shape.Circle(r) => r, Shape.Rectangle(w, h) => w * h }"),
        Expr::Match {
            scrutinee: Box::new(Expr::Var("shape".to_string())),
            arms: vec![
                MatchArm {
                    guard: None,
                    tag: "Circle".to_string(),
                    bindings: vec!["r".to_string()],
                    body: Expr::Var("r".to_string()),
                },
                MatchArm {
                    guard: None,
                    tag: "Rectangle".to_string(),
                    bindings: vec!["w".to_string(), "h".to_string()],
                    body: Expr::Binary(
                        BinOp::Mul,
                        Box::new(Expr::Var("w".to_string())),
                        Box::new(Expr::Var("h".to_string())),
                    ),
                },
            ],
        }
    );
}

#[test]
fn match_zero_arg_variant() {
    assert_eq!(
        lower("match x { None => 0, Some(v) => v }"),
        Expr::Match {
            scrutinee: Box::new(Expr::Var("x".to_string())),
            arms: vec![
                MatchArm {
                    guard: None,
                    tag: "None".to_string(),
                    bindings: vec![],
                    body: Expr::Int(0),
                },
                MatchArm {
                    guard: None,
                    tag: "Some".to_string(),
                    bindings: vec!["v".to_string()],
                    body: Expr::Var("v".to_string()),
                },
            ],
        }
    );
}

#[test]
fn match_variant_with_wildcard_args() {
    assert_eq!(
        lower("match shape { Shape.Rectangle(_, _) => true }"),
        Expr::Match {
            scrutinee: Box::new(Expr::Var("shape".to_string())),
            arms: vec![MatchArm {
                guard: None,
                tag: "Rectangle".to_string(),
                bindings: vec!["_".to_string(), "_".to_string()],
                body: Expr::Bool(true),
            }],
        }
    );
}

#[test]
fn match_bare_wildcard_arm_is_not_yet_supported() {
    lower_err("match x { _ => 1 }");
}

#[test]
fn match_or_pattern_is_not_yet_supported() {
    lower_err("match x { A(v) | B(v) => v }");
}

#[test]
fn match_guard_lowers_to_an_arm_with_a_guard_expression() {
    assert_eq!(
        lower("match x { A(v) if v > 0 => v, B(v) => v }"),
        Expr::Match {
            scrutinee: Box::new(Expr::Var("x".to_string())),
            arms: vec![
                MatchArm {
                    tag: "A".to_string(),
                    bindings: vec!["v".to_string()],
                    guard: Some(Box::new(Expr::Binary(
                        BinOp::Gt,
                        Box::new(Expr::Var("v".to_string())),
                        Box::new(Expr::Int(0)),
                    ))),
                    body: Expr::Var("v".to_string()),
                },
                MatchArm {
                    tag: "B".to_string(),
                    bindings: vec!["v".to_string()],
                    guard: None,
                    body: Expr::Var("v".to_string()),
                },
            ],
        }
    );
}

#[test]
fn two_arms_may_share_a_tag_when_only_the_guarded_one_comes_first() {
    assert_eq!(
        lower("match x { A(v) if v > 0 => 1, A(v) => 0 }"),
        Expr::Match {
            scrutinee: Box::new(Expr::Var("x".to_string())),
            arms: vec![
                MatchArm {
                    tag: "A".to_string(),
                    bindings: vec!["v".to_string()],
                    guard: Some(Box::new(Expr::Binary(
                        BinOp::Gt,
                        Box::new(Expr::Var("v".to_string())),
                        Box::new(Expr::Int(0)),
                    ))),
                    body: Expr::Int(1),
                },
                MatchArm {
                    tag: "A".to_string(),
                    bindings: vec!["v".to_string()],
                    guard: None,
                    body: Expr::Int(0),
                },
            ],
        }
    );
}

#[test]
fn match_guard_combined_with_a_nested_pattern_is_not_yet_supported() {
    lower_err("match p { (A(v), n) if v > 0 => n, (B(v), n) => n }");
}

#[test]
fn end_to_end_struct_from_real_program_source() {
    let src = "struct Point { x: Float, y: Float }\nlet origin = Point { x: 0.0, y: 0.0 }";
    let program = parse_program(src);
    let ctx = LoweringContext::from_items(&program.items);
    let ast::Item::Let(def) = &program.items[1] else {
        panic!("expected the second item to be a let definition");
    };
    assert_eq!(
        lower_expr(&def.body, &ctx).unwrap(),
        Expr::Ctor {
            tag: "Point".to_string(),
            fields: vec![Expr::Float(f64::to_bits(0.0)), Expr::Float(f64::to_bits(0.0))],
        }
    );
}

#[test]
fn non_empty_tuple_lowers_to_a_ctor_with_a_synthetic_tag() {
    assert_eq!(
        lower("(1, 2)"),
        Expr::Ctor {
            tag: "2Tuple".to_string(),
            fields: vec![Expr::Int(1), Expr::Int(2)],
        }
    );
}

#[test]
fn three_element_tuple_uses_its_own_arity_tag() {
    assert_eq!(
        lower("(1, 2, 3)"),
        Expr::Ctor {
            tag: "3Tuple".to_string(),
            fields: vec![Expr::Int(1), Expr::Int(2), Expr::Int(3)],
        }
    );
}

#[test]
fn lower_block_let_tuple_destructure() {
    assert_eq!(
        lower("{ let (a, b) = (1, 2); a + b }"),
        Expr::Match {
            scrutinee: Box::new(Expr::Ctor {
                tag: "2Tuple".to_string(),
                fields: vec![Expr::Int(1), Expr::Int(2)],
            }),
            arms: vec![MatchArm {
                guard: None,
                tag: "2Tuple".to_string(),
                bindings: vec!["a".to_string(), "b".to_string()],
                body: Expr::Binary(
                    BinOp::Add,
                    Box::new(Expr::Var("a".to_string())),
                    Box::new(Expr::Var("b".to_string())),
                ),
            }],
        }
    );
}

#[test]
fn match_arm_tuple_pattern() {
    assert_eq!(
        lower("match p { (a, b) => a + b }"),
        Expr::Match {
            scrutinee: Box::new(Expr::Var("p".to_string())),
            arms: vec![MatchArm {
                guard: None,
                tag: "2Tuple".to_string(),
                bindings: vec!["a".to_string(), "b".to_string()],
                body: Expr::Binary(
                    BinOp::Add,
                    Box::new(Expr::Var("a".to_string())),
                    Box::new(Expr::Var("b".to_string())),
                ),
            }],
        }
    );
}

#[test]
fn nested_pattern_inside_a_tuple_pattern_lowers_to_a_nested_match() {
    assert_eq!(
        lower("match p { (Point(x, y), b) => b }"),
        Expr::Match {
            scrutinee: Box::new(Expr::Var("p".to_string())),
            arms: vec![MatchArm {
                guard: None,
                tag: "2Tuple".to_string(),
                bindings: vec!["__nested0".to_string(), "b".to_string()],
                body: Expr::Match {
                    scrutinee: Box::new(Expr::Var("__nested0".to_string())),
                    arms: vec![MatchArm {
                        tag: "Point".to_string(),
                        bindings: vec!["x".to_string(), "y".to_string()],
                        guard: None,
                        body: Expr::Var("b".to_string()),
                    }],
                },
            }],
        }
    );
}

#[test]
fn nested_pattern_inside_a_struct_destructuring_function_param() {
    let program = lower_program(
        "struct Point { x: Int, y: Int }\n\
         struct Line { start: Point, end: Point }\n\
         let dx (Line { start: Point { x: x0, y: _ }, end: Point { x: x1, y: _ } }) = x1 - x0",
    );
    assert_eq!(program.functions[0].params, vec!["__param0".to_string()]);
    let Expr::Match { arms, .. } = &program.functions[0].body else {
        panic!("expected the body to be a Match");
    };
    assert_eq!(arms[0].tag, "Line");
    assert_eq!(arms[0].bindings.len(), 2);
    let Expr::Match { .. } = &arms[0].body else {
        panic!("expected the Line arm's body to be a nested Match for `start`/`end`");
    };
}

#[test]
fn range_as_a_standalone_expression_lowers_to_a_synthetic_ctor() {
    assert_eq!(
        lower("0..5"),
        Expr::Ctor {
            tag: "0Range".to_string(),
            fields: vec![Expr::Int(0), Expr::Int(5)],
        }
    );
}

#[test]
fn closure_lowers_to_ir_closure() {
    assert_eq!(
        lower("|x| x + 1"),
        Expr::Closure {
            param_types: None,
            ret_type: None,
            params: vec!["x".to_string()],
            body: Box::new(Expr::Binary(
                BinOp::Add,
                Box::new(Expr::Var("x".to_string())),
                Box::new(Expr::Int(1)),
            )),
        }
    );
}

#[test]
fn closure_multiple_params() {
    assert_eq!(
        lower("|a, b| a + b"),
        Expr::Closure {
            param_types: None,
            ret_type: None,
            params: vec!["a".to_string(), "b".to_string()],
            body: Box::new(Expr::Binary(
                BinOp::Add,
                Box::new(Expr::Var("a".to_string())),
                Box::new(Expr::Var("b".to_string())),
            )),
        }
    );
}

#[test]
fn closure_zero_params() {
    assert_eq!(
        lower("|| 5"),
        Expr::Closure {
            param_types: None,
            ret_type: None,
            params: vec![],
            body: Box::new(Expr::Int(5)),
        }
    );
}

#[test]
fn closure_param_annotations_do_not_affect_lowering() {
    assert_eq!(lower("|x: Int| x"), lower("|x| x"));
}

#[test]
fn closure_body_can_be_a_block() {
    assert_eq!(
        lower("|x| { let y = x + 1; y }"),
        Expr::Closure {
            param_types: None,
            ret_type: None,
            params: vec!["x".to_string()],
            body: Box::new(Expr::Let {
                name: "y".to_string(),
                value: Box::new(Expr::Binary(
                    BinOp::Add,
                    Box::new(Expr::Var("x".to_string())),
                    Box::new(Expr::Int(1)),
                )),
                body: Box::new(Expr::Var("y".to_string())),
            }),
        }
    );
}

#[test]
fn for_over_a_literal_range_lowers_to_ir_for() {
    assert_eq!(
        lower("for i in 0..5 { i }"),
        Expr::For {
            var: "i".to_string(),
            start: Box::new(Expr::Int(0)),
            end: Box::new(Expr::Int(5)),
            body: Box::new(Expr::Var("i".to_string())),
        }
    );
}

#[test]
fn for_range_bounds_can_be_arbitrary_expressions() {
    assert_eq!(
        lower("for i in a..(b + 1) { i }"),
        Expr::For {
            var: "i".to_string(),
            start: Box::new(Expr::Var("a".to_string())),
            end: Box::new(Expr::Binary(
                BinOp::Add,
                Box::new(Expr::Var("b".to_string())),
                Box::new(Expr::Int(1)),
            )),
            body: Box::new(Expr::Var("i".to_string())),
        }
    );
}

#[test]
fn for_body_is_a_real_block_with_statements() {
    assert_eq!(
        lower("for i in 0..5 { let x = i; x }"),
        Expr::For {
            var: "i".to_string(),
            start: Box::new(Expr::Int(0)),
            end: Box::new(Expr::Int(5)),
            body: Box::new(Expr::Let {
                name: "x".to_string(),
                value: Box::new(Expr::Var("i".to_string())),
                body: Box::new(Expr::Var("x".to_string())),
            }),
        }
    );
}

#[test]
fn for_over_a_variable_holding_a_range_destructures_it_via_match() {
    assert_eq!(
        lower("for i in xs { i }"),
        Expr::Match {
            scrutinee: Box::new(Expr::Var("xs".to_string())),
            arms: vec![MatchArm {
                tag: "0Range".to_string(),
                bindings: vec!["__range_start".to_string(), "__range_end".to_string()],
                guard: None,
                body: Expr::For {
                    var: "i".to_string(),
                    start: Box::new(Expr::Var("__range_start".to_string())),
                    end: Box::new(Expr::Var("__range_end".to_string())),
                    body: Box::new(Expr::Var("i".to_string())),
                },
            }],
        }
    );
}

#[test]
fn for_destructuring_pattern_is_not_yet_supported() {
    lower_err("for (a, b) in 0..5 { a }");
}

#[test]
fn unsafe_block_lowers_transparently() {
    assert_eq!(lower("unsafe { 1 + 2 }"), lower("{ 1 + 2 }"));
}

#[test]
fn spawn_lowers_to_a_spawn_node_wrapping_the_block() {
    assert_eq!(
        lower("spawn { 1 }"),
        Expr::Spawn {
            block: Box::new(Expr::Int(1)),
        }
    );
}

#[test]
fn task_join_lowers_to_a_task_join_node() {
    assert_eq!(
        lower("t.join()"),
        Expr::TaskJoin {
            task: Box::new(Expr::Var("t".to_string())),
        }
    );
}

#[test]
fn task_join_on_a_compound_expression() {
    assert_eq!(
        lower("(spawn { 1 }).join()"),
        Expr::TaskJoin {
            task: Box::new(Expr::Spawn {
                block: Box::new(Expr::Int(1)),
            }),
        }
    );
}

#[test]
fn channel_generic_instantiation_lowers_to_a_channel_node() {
    assert_eq!(lower("channel[Int]()"), Expr::Channel { tag: "2Tuple".to_string() });
}

#[test]
fn channel_send_lowers_to_a_channel_send_node() {
    assert_eq!(
        lower("tx.send(5)"),
        Expr::ChannelSend {
            sender: Box::new(Expr::Var("tx".to_string())),
            value: Box::new(Expr::Int(5)),
        }
    );
}

#[test]
fn channel_recv_lowers_to_a_channel_recv_node() {
    assert_eq!(
        lower("rx.recv()"),
        Expr::ChannelRecv {
            receiver: Box::new(Expr::Var("rx".to_string())),
        }
    );
}

#[test]
fn select_with_ident_arms_lowers_to_a_select_node() {
    assert_eq!(
        lower("select { v = rx1.recv() => v, w = rx2.recv() => w }"),
        Expr::Select {
            arms: vec![
                SelectArm {
                    receiver: Expr::Var("rx1".to_string()),
                    body: Expr::Let {
                        name: "v".to_string(),
                        value: Box::new(Expr::Var("__select_recv".to_string())),
                        body: Box::new(Expr::Var("v".to_string())),
                    },
                },
                SelectArm {
                    receiver: Expr::Var("rx2".to_string()),
                    body: Expr::Let {
                        name: "w".to_string(),
                        value: Box::new(Expr::Var("__select_recv".to_string())),
                        body: Box::new(Expr::Var("w".to_string())),
                    },
                },
            ],
        }
    );
}

#[test]
fn select_wildcard_arm_needs_no_binding() {
    assert_eq!(
        lower("select { _ = rx.recv() => 0 }"),
        Expr::Select {
            arms: vec![SelectArm {
                receiver: Expr::Var("rx".to_string()),
                body: Expr::Int(0),
            }],
        }
    );
}

#[test]
fn select_tuple_pattern_arm_reuses_wrap_destructure() {
    assert_eq!(
        lower("select { (a, b) = rx.recv() => a }"),
        Expr::Select {
            arms: vec![SelectArm {
                receiver: Expr::Var("rx".to_string()),
                body: Expr::Match {
                    scrutinee: Box::new(Expr::Var("__select_recv".to_string())),
                    arms: vec![MatchArm {
                        tag: "2Tuple".to_string(),
                        bindings: vec!["a".to_string(), "b".to_string()],
                        guard: None,
                        body: Expr::Var("a".to_string()),
                    }],
                },
            }],
        }
    );
}

#[test]
fn select_arm_not_shaped_like_a_recv_call_is_an_error() {
    lower_err("select { v = 5 => v }");
}

#[test]
fn select_arm_calling_something_other_than_recv_is_an_error() {
    lower_err("select { v = rx.join() => v }");
}

#[test]
fn array_literal_lowers_to_a_ctor_with_a_synthetic_tag() {
    assert_eq!(
        lower("[1, 2, 3]"),
        Expr::Ctor {
            tag: "0Array".to_string(),
            fields: vec![Expr::Int(1), Expr::Int(2), Expr::Int(3)],
        }
    );
}

#[test]
fn empty_array_literal_lowers_to_a_ctor_with_no_fields() {
    assert_eq!(
        lower("[]"),
        Expr::Ctor {
            tag: "0Array".to_string(),
            fields: vec![],
        }
    );
}

#[test]
fn array_index_lowers_to_an_index_node() {
    assert_eq!(
        lower("arr[0]"),
        Expr::Index {
            base: Box::new(Expr::Var("arr".to_string())),
            index: Box::new(Expr::Int(0)),
        }
    );
}

#[test]
fn array_len_lowers_to_an_array_len_node() {
    assert_eq!(
        lower("arr.len()"),
        Expr::ArrayLen {
            array: Box::new(Expr::Var("arr".to_string())),
        }
    );
}

#[test]
fn array_push_lowers_to_an_array_push_node() {
    assert_eq!(
        lower("arr.push(5)"),
        Expr::ArrayPush {
            array: Box::new(Expr::Var("arr".to_string())),
            value: Box::new(Expr::Int(5)),
        }
    );
}

#[test]
fn array_pop_lowers_to_an_array_pop_node() {
    assert_eq!(
        lower("arr.pop()"),
        Expr::ArrayPop {
            array: Box::new(Expr::Var("arr".to_string())),
        }
    );
}

#[test]
fn array_set_lowers_to_an_array_set_node() {
    assert_eq!(
        lower("arr.set(0, 5)"),
        Expr::ArraySet {
            array: Box::new(Expr::Var("arr".to_string())),
            index: Box::new(Expr::Int(0)),
            value: Box::new(Expr::Int(5)),
        }
    );
}

#[test]
fn array_remove_lowers_to_an_array_remove_node() {
    assert_eq!(
        lower("arr.remove(0)"),
        Expr::ArrayRemove {
            array: Box::new(Expr::Var("arr".to_string())),
            index: Box::new(Expr::Int(0)),
        }
    );
}

#[test]
fn string_literal_lowers_to_a_str_node() {
    assert_eq!(lower("\"hi\""), Expr::Str("hi".to_string()));
}

#[test]
fn string_len_lowers_to_the_same_array_len_node() {
    assert_eq!(
        lower("s.len()"),
        Expr::ArrayLen {
            array: Box::new(Expr::Var("s".to_string())),
        }
    );
}

#[test]
fn string_concat_lowers_to_a_str_concat_node() {
    assert_eq!(
        lower("s.concat(\"x\")"),
        Expr::StrConcat {
            base: Box::new(Expr::Var("s".to_string())),
            other: Box::new(Expr::Str("x".to_string())),
        }
    );
}

#[test]
fn string_index_lowers_to_the_same_index_node_as_arrays() {
    assert_eq!(
        lower("s[0]"),
        Expr::Index {
            base: Box::new(Expr::Var("s".to_string())),
            index: Box::new(Expr::Int(0)),
        }
    );
}

#[test]
fn string_runes_lowers_to_a_str_runes_node() {
    assert_eq!(
        lower("s.runes()"),
        Expr::StrRunes {
            base: Box::new(Expr::Var("s".to_string())),
        }
    );
}

#[test]
fn string_trim_lowers_to_a_str_trim_node() {
    assert_eq!(
        lower("s.trim()"),
        Expr::StrTrim {
            base: Box::new(Expr::Var("s".to_string())),
        }
    );
}

#[test]
fn string_split_lowers_to_a_str_split_node() {
    assert_eq!(
        lower("s.split(\",\")"),
        Expr::StrSplit {
            base: Box::new(Expr::Var("s".to_string())),
            sep: Box::new(Expr::Str(",".to_string())),
        }
    );
}

#[test]
fn array_map_desugars_to_an_index_based_loop_that_pushes() {
    assert_eq!(
        lower("arr.map(f)"),
        Expr::Let {
            name: "__map_arr".to_string(),
            value: Box::new(Expr::Var("arr".to_string())),
            body: Box::new(Expr::Let {
                name: "__map_out".to_string(),
                value: Box::new(Expr::Ctor {
                    tag: "0Array".to_string(),
                    fields: vec![],
                }),
                body: Box::new(Expr::Let {
                    name: "_".to_string(),
                    value: Box::new(Expr::For {
                        var: "__map_i".to_string(),
                        start: Box::new(Expr::Int(0)),
                        end: Box::new(Expr::ArrayLen {
                            array: Box::new(Expr::Var("__map_arr".to_string())),
                        }),
                        body: Box::new(Expr::Assign {
                            name: "__map_out".to_string(),
                            value: Box::new(Expr::ArrayPush {
                                array: Box::new(Expr::Var("__map_out".to_string())),
                                value: Box::new(Expr::Call {
                                    callee: Box::new(Expr::Var("f".to_string())),
                                    args: vec![Expr::Index {
                                        base: Box::new(Expr::Var("__map_arr".to_string())),
                                        index: Box::new(Expr::Var("__map_i".to_string())),
                                    }],
                                }),
                            }),
                            rest: Box::new(Expr::Unit),
                        }),
                    }),
                    body: Box::new(Expr::Var("__map_out".to_string())),
                }),
            }),
        }
    );
}

#[test]
fn array_filter_desugars_to_an_index_based_loop_with_an_if() {
    let result = lower("arr.filter(f)");
    match result {
        Expr::Let { name, body, .. } => {
            assert_eq!(name, "__filter_arr");
            match *body {
                Expr::Let { name, body, .. } => {
                    assert_eq!(name, "__filter_out");
                    match *body {
                        Expr::Let { value, body, .. } => {
                            assert!(matches!(*value, Expr::For { .. }));
                            assert_eq!(*body, Expr::Var("__filter_out".to_string()));
                        }
                        other => panic!("expected inner Let, got {other:?}"),
                    }
                }
                other => panic!("expected __filter_out Let, got {other:?}"),
            }
        }
        other => panic!("expected outer Let, got {other:?}"),
    }
}

#[test]
fn array_fold_desugars_to_an_index_based_accumulator_loop() {
    assert_eq!(
        lower("arr.fold(0, f)"),
        Expr::Let {
            name: "__fold_arr".to_string(),
            value: Box::new(Expr::Var("arr".to_string())),
            body: Box::new(Expr::Let {
                name: "__fold_acc".to_string(),
                value: Box::new(Expr::Int(0)),
                body: Box::new(Expr::Let {
                    name: "_".to_string(),
                    value: Box::new(Expr::For {
                        var: "__fold_i".to_string(),
                        start: Box::new(Expr::Int(0)),
                        end: Box::new(Expr::ArrayLen {
                            array: Box::new(Expr::Var("__fold_arr".to_string())),
                        }),
                        body: Box::new(Expr::Assign {
                            name: "__fold_acc".to_string(),
                            value: Box::new(Expr::Call {
                                callee: Box::new(Expr::Var("f".to_string())),
                                args: vec![
                                    Expr::Var("__fold_acc".to_string()),
                                    Expr::Index {
                                        base: Box::new(Expr::Var("__fold_arr".to_string())),
                                        index: Box::new(Expr::Var("__fold_i".to_string())),
                                    },
                                ],
                            }),
                            rest: Box::new(Expr::Unit),
                        }),
                    }),
                    body: Box::new(Expr::Var("__fold_acc".to_string())),
                }),
            }),
        }
    );
}

#[test]
fn for_over_an_array_desugars_to_an_index_based_loop() {
    let parsed = parse_expr("for x in [1, 2, 3] { x }");
    let ctx = LoweringContext::new().with_array_for_loops(vec![parsed.span()]);
    let result = lower_expr(&parsed, &ctx).unwrap_or_else(|e| panic!("lowering error: {}", e.message()));
    assert_eq!(
        result,
        Expr::Let {
            name: "__for_arr".to_string(),
            value: Box::new(Expr::Ctor {
                tag: "0Array".to_string(),
                fields: vec![Expr::Int(1), Expr::Int(2), Expr::Int(3)],
            }),
            body: Box::new(Expr::For {
                var: "__for_i".to_string(),
                start: Box::new(Expr::Int(0)),
                end: Box::new(Expr::ArrayLen {
                    array: Box::new(Expr::Var("__for_arr".to_string())),
                }),
                body: Box::new(Expr::Let {
                    name: "x".to_string(),
                    value: Box::new(Expr::Index {
                        base: Box::new(Expr::Var("__for_arr".to_string())),
                        index: Box::new(Expr::Var("__for_i".to_string())),
                    }),
                    body: Box::new(Expr::Var("x".to_string())),
                }),
            }),
        }
    );
}

#[test]
fn a_for_loop_not_recorded_in_array_for_loops_still_desugars_as_a_range() {
    assert!(matches!(lower("for x in r { x }"), Expr::Match { .. }));
}

#[test]
fn single_param_function() {
    let program = lower_program("let double n = n * 2");
    assert_eq!(
        program.functions,
        vec![Function {
            name: "double".to_string(),
            params: vec!["n".to_string()],
            body: Expr::Binary(
                BinOp::Mul,
                Box::new(Expr::Var("n".to_string())),
                Box::new(Expr::Int(2)),
            ),
        }]
    );
}

#[test]
fn annotations_do_not_affect_lowering() {
    let annotated = lower_program("let double (n: Int): Int = n * 2");
    let bare = lower_program("let double n = n * 2");
    assert_eq!(annotated.functions, bare.functions);
}

#[test]
fn multi_param_function() {
    let program = lower_program("let add a b = a + b");
    assert_eq!(program.functions[0].params, vec!["a".to_string(), "b".to_string()]);
}

#[test]
fn generics_are_ignored_not_rejected() {
    let program = lower_program("let identity[T] (x: T): T = x");
    assert_eq!(program.functions[0].params, vec!["x".to_string()]);
}

#[test]
fn struct_and_enum_and_use_items_produce_no_functions() {
    let program = lower_program(
        "struct Point { x: Float, y: Float }\n\
         enum Shape { Circle(Float) }\n\
         use shapes;\n\
         let double n = n * 2",
    );
    assert_eq!(program.functions.len(), 1);
    assert_eq!(program.functions[0].name, "double");
}

#[test]
fn multiple_functions_lower_in_order() {
    let program = lower_program("let square x = x * x\nlet cube x = x * x * x");
    let names: Vec<&str> = program.functions.iter().map(|f| f.name.as_str()).collect();
    assert_eq!(names, vec!["square", "cube"]);
}

#[test]
fn zero_param_let_lowers_to_a_global() {
    let program = lower_program("let x = 5");
    assert_eq!(program.functions, vec![]);
    assert_eq!(
        program.globals,
        vec![Global {
            name: "x".to_string(),
            value: Expr::Int(5),
        }]
    );
}

#[test]
fn multiple_globals_lower_in_order() {
    let program = lower_program("let a = 1\nlet b = 2");
    let names: Vec<&str> = program.globals.iter().map(|g| g.name.as_str()).collect();
    assert_eq!(names, vec!["a", "b"]);
}

#[test]
fn lower_a_global_can_reference_an_earlier_global() {
    let program = lower_program("let a = 1\nlet b = a + 1");
    assert_eq!(
        program.globals[1].value,
        Expr::Binary(BinOp::Add, Box::new(Expr::Var("a".to_string())), Box::new(Expr::Int(1)))
    );
}

#[test]
fn globals_and_functions_can_be_interleaved_in_source_order() {
    let program = lower_program("let a = 1\nlet double n = n * 2\nlet b = 2");
    assert_eq!(program.functions.len(), 1);
    assert_eq!(program.functions[0].name, "double");
    let global_names: Vec<&str> = program.globals.iter().map(|g| g.name.as_str()).collect();
    assert_eq!(global_names, vec!["a", "b"]);
}

#[test]
fn tuple_destructuring_param_wraps_the_body_in_a_match() {
    let program = lower_program("let swap (a, b) = (b, a)");
    assert_eq!(
        program.functions,
        vec![Function {
            name: "swap".to_string(),
            params: vec!["__param0".to_string()],
            body: Expr::Match {
                scrutinee: Box::new(Expr::Var("__param0".to_string())),
                arms: vec![MatchArm {
                    guard: None,
                    tag: "2Tuple".to_string(),
                    bindings: vec!["a".to_string(), "b".to_string()],
                    body: Expr::Ctor {
                        tag: "2Tuple".to_string(),
                        fields: vec![Expr::Var("b".to_string()), Expr::Var("a".to_string())],
                    },
                }],
            },
        }]
    );
}

#[test]
fn tuple_destructuring_param_can_be_mixed_with_plain_params() {
    let program = lower_program("let f x (a, b) y = x + a + b + y");
    assert_eq!(program.functions[0].params, vec!["x", "__param1", "y"]);
}

#[test]
fn struct_destructuring_param_wraps_the_body_in_a_match() {
    let program = lower_program("struct Point { x: Int, y: Int }\nlet area (Point { x, y }) = x * y");
    assert_eq!(program.functions[0].params, vec!["__param0".to_string()]);
    assert_eq!(
        program.functions[0].body,
        Expr::Match {
            scrutinee: Box::new(Expr::Var("__param0".to_string())),
            arms: vec![MatchArm {
                guard: None,
                tag: "Point".to_string(),
                bindings: vec!["x".to_string(), "y".to_string()],
                body: Expr::Binary(
                    BinOp::Mul,
                    Box::new(Expr::Var("x".to_string())),
                    Box::new(Expr::Var("y".to_string())),
                ),
            }],
        }
    );
}

#[test]
fn struct_destructuring_param_field_order_is_declared_order_not_written_order() {
    let program = lower_program("struct Point { x: Int, y: Int }\nlet area (Point { y, x }) = x * y");
    assert_eq!(
        program.functions[0].body,
        Expr::Match {
            scrutinee: Box::new(Expr::Var("__param0".to_string())),
            arms: vec![MatchArm {
                guard: None,
                tag: "Point".to_string(),
                bindings: vec!["x".to_string(), "y".to_string()],
                body: Expr::Binary(
                    BinOp::Mul,
                    Box::new(Expr::Var("x".to_string())),
                    Box::new(Expr::Var("y".to_string())),
                ),
            }],
        }
    );
}

#[test]
fn lower_struct_destructuring_param_field_rename() {
    let program = lower_program("struct Point { x: Int, y: Int }\nlet area (Point { x: px, y: py }) = px * py");
    assert_eq!(
        program.functions[0].body,
        Expr::Match {
            scrutinee: Box::new(Expr::Var("__param0".to_string())),
            arms: vec![MatchArm {
                guard: None,
                tag: "Point".to_string(),
                bindings: vec!["px".to_string(), "py".to_string()],
                body: Expr::Binary(
                    BinOp::Mul,
                    Box::new(Expr::Var("px".to_string())),
                    Box::new(Expr::Var("py".to_string())),
                ),
            }],
        }
    );
}

#[test]
fn struct_destructuring_param_with_rest_fills_omitted_fields_with_wildcard() {
    let program = lower_program("struct Point { x: Int, y: Int }\nlet get_x (Point { x, .. }) = x");
    assert_eq!(
        program.functions[0].body,
        Expr::Match {
            scrutinee: Box::new(Expr::Var("__param0".to_string())),
            arms: vec![MatchArm {
                guard: None,
                tag: "Point".to_string(),
                bindings: vec!["x".to_string(), "_".to_string()],
                body: Expr::Var("x".to_string()),
            }],
        }
    );
}

#[test]
fn struct_destructuring_param_missing_field_without_rest_is_an_error() {
    lower_program_err("struct Point { x: Int, y: Int }\nlet get_x (Point { x }) = x");
}

#[test]
fn struct_destructuring_param_unknown_field_is_an_error() {
    lower_program_err("struct Point { x: Int, y: Int }\nlet get_x (Point { x, y, z }) = x");
}

#[test]
fn struct_destructuring_param_unknown_struct_is_an_error() {
    lower_program_err("let area (Point { x, y }) = x * y");
}

#[test]
fn lower_match_arm_struct_pattern() {
    let ctx = context_from_program("struct Point { x: Int, y: Int }");
    assert_eq!(
        lower_with("match p { Point { x, y } => x + y }", &ctx),
        Expr::Match {
            scrutinee: Box::new(Expr::Var("p".to_string())),
            arms: vec![MatchArm {
                guard: None,
                tag: "Point".to_string(),
                bindings: vec!["x".to_string(), "y".to_string()],
                body: Expr::Binary(
                    BinOp::Add,
                    Box::new(Expr::Var("x".to_string())),
                    Box::new(Expr::Var("y".to_string())),
                ),
            }],
        }
    );
}

#[test]
fn lower_block_let_struct_destructure() {
    let ctx = context_from_program("struct Point { x: Int, y: Int }");
    assert_eq!(
        lower_with("{ let Point { x, y } = p; x + y }", &ctx),
        Expr::Match {
            scrutinee: Box::new(Expr::Var("p".to_string())),
            arms: vec![MatchArm {
                guard: None,
                tag: "Point".to_string(),
                bindings: vec!["x".to_string(), "y".to_string()],
                body: Expr::Binary(
                    BinOp::Add,
                    Box::new(Expr::Var("x".to_string())),
                    Box::new(Expr::Var("y".to_string())),
                ),
            }],
        }
    );
}

#[test]
fn struct_pattern_duplicate_field_is_an_error() {
    let ctx = context_from_program("struct Point { x: Int, y: Int }");
    lower_with_err("match p { Point { x, x } => x }", &ctx);
}

#[test]
fn struct_pattern_nested_pattern_lowers_to_a_nested_match() {
    let ctx = context_from_program("struct Inner { v: Int }\nstruct Outer { inner: Inner, y: Int }");
    assert_eq!(
        lower_with("match p { Outer { inner: Inner { v }, y } => v + y }", &ctx),
        Expr::Match {
            scrutinee: Box::new(Expr::Var("p".to_string())),
            arms: vec![MatchArm {
                guard: None,
                tag: "Outer".to_string(),
                bindings: vec!["__nested0".to_string(), "y".to_string()],
                body: Expr::Match {
                    scrutinee: Box::new(Expr::Var("__nested0".to_string())),
                    arms: vec![MatchArm {
                        tag: "Inner".to_string(),
                        bindings: vec!["v".to_string()],
                        guard: None,
                        body: Expr::Binary(
                            BinOp::Add,
                            Box::new(Expr::Var("v".to_string())),
                            Box::new(Expr::Var("y".to_string())),
                        ),
                    }],
                },
            }],
        }
    );
}

#[test]
fn nested_or_pattern_is_still_not_yet_supported() {
    let ctx = context_from_program("struct Point { x: Int, y: Int }");
    lower_with_err("match p { Point { x: 1 | 2, y } => y }", &ctx);
}

// --- Running ---

fn eval(src: &str) -> Value {
    eval_in(&mut Interpreter::new(), &lower(src)).unwrap_or_else(|e| panic!("eval error for {src:?}: {e}"))
}

fn eval_err(src: &str) -> String {
    eval_in(&mut Interpreter::new(), &lower(src)).expect_err(&format!("expected eval of {src:?} to fail"))
}

fn eval_ir(ir: &Expr) -> Value {
    eval_in(&mut Interpreter::new(), ir).unwrap_or_else(|e| panic!("eval error: {e}"))
}

fn eval_ir_err(ir: &Expr) -> String {
    eval_in(&mut Interpreter::new(), ir).expect_err("expected evaluation to fail")
}

fn run(src: &str, fn_name: &str, args: Vec<Value>) -> Value {
    let mut interp = Interpreter::new();
    load_in(&mut interp, &lower_program(src)).unwrap_or_else(|e| panic!("load error: {e}"));
    call_in(&mut interp, fn_name, args).unwrap_or_else(|e| panic!("call error: {e}"))
}

fn run_err(src: &str, fn_name: &str, args: Vec<Value>) -> String {
    let mut interp = Interpreter::new();
    load_in(&mut interp, &lower_program(src)).unwrap_or_else(|e| panic!("load error: {e}"));
    call_in(&mut interp, fn_name, args).expect_err("expected call to fail")
}

#[test]
fn lib_literals() {
    assert_eq!(eval("5"), Value::Int(5));
    assert_eq!(eval("3.14"), float(3.14));
    assert_eq!(eval("true"), Value::Bool(true));
    assert_eq!(eval("()"), Value::Unit);
}

#[test]
fn string_literal_is_heap_allocated() {
    let ir = lower("\"hi\"");
    let mut interp = Interpreter::new();
    let result = eval_in(&mut interp, &ir).unwrap();
    let Value::HeapRef(addr) = result else {
        panic!("expected a HeapRef result, got {result:?}")
    };
    assert_eq!(interp.heap.read_str(addr).unwrap(), "hi");
}

#[test]
fn string_index_returns_the_byte_value() {
    assert_eq!(eval("\"abc\"[0]"), Value::Int(97));
    assert_eq!(eval("\"abc\"[2]"), Value::Int(99));
}

#[test]
fn string_index_matches_len_minus_one_for_the_last_byte() {
    assert_eq!(eval("\"abc\"[\"abc\".len() - 1]"), Value::Int(99));
}

#[test]
fn string_index_into_a_multi_byte_utf8_character_returns_a_raw_byte() {
    assert_eq!(eval("\"café\"[3]"), Value::Int(0xC3));
    assert_eq!(eval("\"café\".len()"), Value::Int(5));
}

#[test]
fn string_index_out_of_bounds_is_a_runtime_error() {
    eval_err("\"abc\"[5]");
}

#[test]
fn string_index_negative_is_a_runtime_error() {
    eval_err("\"abc\"[0 - 1]");
}

#[test]
fn string_runes_decodes_one_element_per_character() {
    assert_eq!(eval("\"abc\".runes().len()"), Value::Int(3));
    assert_eq!(eval("\"abc\".runes()[0]"), Value::Int('a' as i64));
}

#[test]
fn string_runes_treats_a_multi_byte_character_as_one_element() {
    assert_eq!(eval("\"café\".runes().len()"), Value::Int(4));
    assert_eq!(eval("\"café\".runes()[3]"), Value::Int('é' as i64));
}

#[test]
fn string_runes_on_an_empty_string_is_empty() {
    assert_eq!(eval("\"\".runes().len()"), Value::Int(0));
}

#[test]
fn string_trim_removes_leading_and_trailing_whitespace() {
    assert_eq!(eval("\"  hi  \".trim() == \"hi\""), Value::Bool(true));
}

#[test]
fn string_trim_on_an_already_trimmed_string_is_unchanged() {
    assert_eq!(eval("\"hi\".trim() == \"hi\""), Value::Bool(true));
}

#[test]
fn string_trim_does_not_mutate_the_original() {
    let src = "{ let a = \"  hi  \"; let b = a.trim(); a.len() }";
    assert_eq!(eval(src), Value::Int(6));
}

#[test]
fn string_split_returns_the_expected_number_of_parts() {
    assert_eq!(eval("\"a,b,c\".split(\",\").len()"), Value::Int(3));
    assert_eq!(eval("\"a,b,c\".split(\",\")[0] == \"a\""), Value::Bool(true));
    assert_eq!(eval("\"a,b,c\".split(\",\")[2] == \"c\""), Value::Bool(true));
}

#[test]
fn string_split_on_consecutive_separators_yields_empty_elements() {
    assert_eq!(eval("\"a,,b\".split(\",\").len()"), Value::Int(3));
    assert_eq!(eval("\"a,,b\".split(\",\")[1] == \"\""), Value::Bool(true));
}

#[test]
fn string_split_on_a_string_with_no_separator_returns_one_element() {
    assert_eq!(eval("\"abc\".split(\",\").len()"), Value::Int(1));
    assert_eq!(eval("\"abc\".split(\",\")[0] == \"abc\""), Value::Bool(true));
}

#[test]
fn string_to_upper_uppercases_every_character() {
    assert_eq!(eval("\"Hello\".to_upper() == \"HELLO\""), Value::Bool(true));
}

#[test]
fn string_to_upper_does_not_mutate_the_original() {
    let src = "{ let a = \"hi\"; let b = a.to_upper(); a == \"hi\" }";
    assert_eq!(eval(src), Value::Bool(true));
}

#[test]
fn string_to_lower_lowercases_every_character() {
    assert_eq!(eval("\"Hello\".to_lower() == \"hello\""), Value::Bool(true));
}

#[test]
fn string_to_lower_does_not_mutate_the_original() {
    let src = "{ let a = \"HI\"; let b = a.to_lower(); a == \"HI\" }";
    assert_eq!(eval(src), Value::Bool(true));
}

#[test]
fn string_contains_finds_a_substring_anywhere() {
    assert_eq!(eval("\"hello\".contains(\"ell\")"), Value::Bool(true));
    assert_eq!(eval("\"hello\".contains(\"xyz\")"), Value::Bool(false));
}

#[test]
fn string_starts_with_checks_the_prefix() {
    assert_eq!(eval("\"hello\".starts_with(\"he\")"), Value::Bool(true));
    assert_eq!(eval("\"hello\".starts_with(\"lo\")"), Value::Bool(false));
}

#[test]
fn string_ends_with_checks_the_suffix() {
    assert_eq!(eval("\"hello\".ends_with(\"lo\")"), Value::Bool(true));
    assert_eq!(eval("\"hello\".ends_with(\"he\")"), Value::Bool(false));
}

#[test]
fn string_replace_substitutes_every_occurrence() {
    assert_eq!(eval("\"a-b-c\".replace(\"-\", \"_\") == \"a_b_c\""), Value::Bool(true));
}

#[test]
fn string_replace_with_no_match_returns_the_original_content() {
    assert_eq!(eval("\"abc\".replace(\"x\", \"y\") == \"abc\""), Value::Bool(true));
}

#[test]
fn string_replace_does_not_mutate_the_original() {
    let src = "{ let a = \"a-b\"; let c = a.replace(\"-\", \"_\"); a == \"a-b\" }";
    assert_eq!(eval(src), Value::Bool(true));
}

#[test]
fn int_to_string_renders_the_decimal_digits() {
    assert_eq!(eval("42.to_string() == \"42\""), Value::Bool(true));
    assert_eq!(eval("(0 - 5).to_string() == \"-5\""), Value::Bool(true));
}

#[test]
fn float_to_string_renders_a_decimal_point() {
    assert_eq!(eval("3.5.to_string() == \"3.5\""), Value::Bool(true));
}

#[test]
fn bool_to_string_renders_true_or_false() {
    assert_eq!(eval("true.to_string() == \"true\""), Value::Bool(true));
    assert_eq!(eval("false.to_string() == \"false\""), Value::Bool(true));
}

#[test]
fn str_to_string_is_a_no_op_content_wise() {
    assert_eq!(eval("\"hi\".to_string() == \"hi\""), Value::Bool(true));
}

#[test]
fn to_string_on_an_array_is_a_runtime_error() {
    eval_err("[1, 2].to_string()");
}

#[test]
fn ref_get_returns_the_initial_value() {
    assert_eq!(eval("ref(5).get()"), Value::Int(5));
}

#[test]
fn ref_set_then_get_sees_the_new_value() {
    assert_eq!(eval("{ let r = ref(5); r.set(10); r.get() }"), Value::Int(10));
}

#[test]
fn ref_aliasing_is_visible_through_every_handle() {
    let src = "{ let a = ref(1); let b = a; b.set(99); a.get() }";
    assert_eq!(eval(src), Value::Int(99));
}

#[test]
fn ref_get_returns_a_copy_not_a_further_alias() {
    let src = "{ let r = ref([1, 2, 3]); let a = r.get(); let b = a.push(4); r.get().len() }";
    assert_eq!(eval(src), Value::Int(3));
}

#[test]
fn ref_equality_is_identity_not_contents() {
    assert_eq!(eval("{ let a = ref(1); let b = ref(1); a == b }"), Value::Bool(false));
}

#[test]
fn ref_equality_holds_for_the_same_cell_via_aliasing() {
    assert_eq!(eval("{ let a = ref(1); let b = a; a == b }"), Value::Bool(true));
}

#[test]
fn get_on_a_non_ref_is_a_runtime_error() {
    eval_err("5.get()");
}

#[test]
fn set_with_one_argument_on_a_non_ref_is_a_runtime_error() {
    eval_err("5.set(6)");
}

#[test]
fn ref_can_hold_a_heap_shaped_value() {
    let src = "struct Point { x: Int, y: Int }\n\
                let use_it dummy = { let r = ref(Point { x: 1, y: 2 }); match r.get() { Point(x, y) => x + y } }";
    assert_eq!(run(src, "use_it", vec![Value::Unit]), Value::Int(3));
}

#[test]
fn multiple_sets_apply_in_order_and_are_all_visible() {
    let src = "{ let r = ref(0); r.set(1); r.set(2); r.set(3); r.get() }";
    assert_eq!(eval(src), Value::Int(3));
}

#[test]
fn integer_arithmetic() {
    assert_eq!(eval("1 + 2"), Value::Int(3));
    assert_eq!(eval("10 - 3"), Value::Int(7));
    assert_eq!(eval("4 * 5"), Value::Int(20));
    assert_eq!(eval("10 / 3"), Value::Int(3));
    assert_eq!(eval("10 % 3"), Value::Int(1));
}

#[test]
fn division_by_zero_is_an_error_not_a_panic() {
    eval_err("5 / 0");
    eval_err("5 % 0");
}

#[test]
fn float_arithmetic() {
    assert_eq!(eval("1.5 + 2.5"), float(4.0));
}

#[test]
fn mixed_int_float_arithmetic_is_a_type_error() {
    eval_err("1 + 1.0");
}

#[test]
fn comparisons() {
    assert_eq!(eval("3 < 5"), Value::Bool(true));
    assert_eq!(eval("5 <= 5"), Value::Bool(true));
    assert_eq!(eval("5 > 3"), Value::Bool(true));
    assert_eq!(eval("5 >= 6"), Value::Bool(false));
}

#[test]
fn equality() {
    assert_eq!(eval("3 == 3"), Value::Bool(true));
    assert_eq!(eval("3 != 4"), Value::Bool(true));
    assert_eq!(eval("\"a\" == \"a\""), Value::Bool(true));
    assert_eq!(eval("true == false"), Value::Bool(false));
}

#[test]
fn logical_and_or_short_circuit() {
    assert_eq!(eval("false && (1 / 0 == 0)"), Value::Bool(false));
    assert_eq!(eval("true || (1 / 0 == 0)"), Value::Bool(true));
    assert_eq!(eval("true && false"), Value::Bool(false));
    assert_eq!(eval("false || true"), Value::Bool(true));
}

#[test]
fn unary_operators() {
    assert_eq!(eval("-5"), Value::Int(-5));
    assert_eq!(eval("-3.14"), float(-3.14));
    assert_eq!(eval("!true"), Value::Bool(false));
}

#[test]
fn if_expression() {
    assert_eq!(eval("if true { 1 } else { 2 }"), Value::Int(1));
    assert_eq!(eval("if false { 1 } else { 2 }"), Value::Int(2));
}

#[test]
fn if_condition_must_be_bool() {
    eval_err("if 5 { 1 } else { 2 }");
}

#[test]
fn let_binding() {
    assert_eq!(eval("{ let x = 5; x + 1 }"), Value::Int(6));
}

#[test]
fn let_shadowing_inner_wins() {
    assert_eq!(eval("{ let x = 1; let x = 2; x }"), Value::Int(2));
}

#[test]
fn let_binding_does_not_leak_after_its_scope() {
    assert_eq!(eval("{ let x = 1; { let x = x + 1; x } }"), Value::Int(2));
}

#[test]
fn unbound_variable_is_an_error() {
    eval_err("y");
}

#[test]
fn calling_an_undefined_function_is_an_error() {
    eval_err("f(1)");
}

#[test]
fn for_loop_evaluates_to_unit() {
    assert_eq!(eval("for i in 0..5 { i }"), Value::Unit);
}

#[test]
fn for_loop_over_an_empty_range_does_not_iterate_and_is_still_unit() {
    assert_eq!(eval("for i in 5..5 { i }"), Value::Unit);
    assert_eq!(eval("for i in 5..0 { i }"), Value::Unit);
}

#[test]
fn for_loop_bounds_can_be_arbitrary_expressions() {
    assert_eq!(eval("{ let n = 3; for i in 0..n { i } }"), Value::Unit);
}

#[test]
fn range_is_a_first_class_value_stored_in_a_let_binding() {
    let src = "{ let mut sum = 0; let r = 0..3; for i in r { sum = sum + i; }; sum }";
    assert_eq!(eval(src), Value::Int(3));
}

#[test]
fn for_loop_over_a_range_passed_as_a_function_argument() {
    let src = "let sum_range r = { let mut sum = 0; for i in r { sum = sum + i; }; sum }\n\
                let use_it dummy = sum_range(0..5)";
    assert_eq!(run(src, "use_it", vec![Value::Unit]), Value::Int(10));
}

#[test]
fn for_loop_variable_does_not_leak_past_the_loop() {
    eval_err("{ for i in 0..3 { i }; i }");
}

#[test]
fn for_loop_does_not_disturb_code_after_it() {
    assert_eq!(eval("{ for i in 0..3 { i }; 42 }"), Value::Int(42));
}

#[test]
fn for_loop_bounds_must_be_int() {
    eval_err("for i in true..false { i }");
}

#[test]
fn for_loop_body_error_propagates_out_of_the_loop() {
    eval_err("for i in 0..3 { 1 / 0 }");
}

#[test]
fn for_loop_actually_runs_the_body_once_per_iteration() {
    let src = "struct Boxed { x: Int }\n\
                let make_n n = for i in 0..n { Boxed { x: i } }";
    let program = parse_program(src);
    let ctx = LoweringContext::from_items(&program.items);
    let ir_program = lower::lower_program(&program, &ctx).unwrap_or_else(|e| panic!("lowering error: {}", e.message()));
    let mut interp = Interpreter::new();
    load_in(&mut interp, &ir_program).unwrap_or_else(|e| panic!("load error: {e}"));
    let result = call_in(&mut interp, "make_n", vec![Value::Int(5)])
        .unwrap_or_else(|e| panic!("call error: {e}"));
    assert_eq!(result, Value::Unit);
    assert_eq!(interp.alloc_count(), 5);
}

#[test]
fn a_global_is_referenced_bare() {
    assert_eq!(run("let x = 5\nlet use_it n = x + n", "use_it", vec![Value::Int(1)]), Value::Int(6));
}

#[test]
fn lib_a_global_can_reference_an_earlier_global() {
    assert_eq!(
        run("let a = 1\nlet b = a + 1\nlet use_it n = b + n", "use_it", vec![Value::Int(1)]),
        Value::Int(3)
    );
}

#[test]
fn a_global_can_call_a_function_regardless_of_declaration_order() {
    assert_eq!(run("let x = double(5)\nlet double n = n * 2\nlet use_it dummy = x", "use_it", vec![Value::Unit]), Value::Int(10));
}

#[test]
fn a_function_can_reference_a_global_declared_earlier() {
    assert_eq!(run("let pi_ish = 3\nlet area r = pi_ish * r * r", "area", vec![Value::Int(2)]), Value::Int(12));
}

#[test]
fn globals_are_evaluated_exactly_once() {
    let src = "struct Boxed { x: Int }\n\
                let origin = Boxed { x: 0 }\n\
                let use_it dummy = match origin { Boxed(x) => x }";
    let program = parse_program(src);
    let ctx = LoweringContext::from_items(&program.items);
    let ir_program = lower::lower_program(&program, &ctx).unwrap_or_else(|e| panic!("lowering error: {}", e.message()));
    let mut interp = Interpreter::new();
    load_in(&mut interp, &ir_program).unwrap_or_else(|e| panic!("load error: {e}"));
    assert_eq!(interp.alloc_count(), 1);
    call_in(&mut interp, "use_it", vec![Value::Unit]).unwrap();
    call_in(&mut interp, "use_it", vec![Value::Unit]).unwrap();
    call_in(&mut interp, "use_it", vec![Value::Unit]).unwrap();
    assert_eq!(interp.alloc_count(), 1, "the global's struct must be allocated once, not once per call");
}

#[test]
fn a_failing_global_initializer_fails_load_program() {
    let program = parse_program("let x = 1 / 0");
    let ctx = LoweringContext::new();
    let ir_program = lower::lower_program(&program, &ctx).unwrap();
    let mut interp = Interpreter::new();
    assert!(load_in(&mut interp, &ir_program).is_err());
}

#[test]
fn assign_mutates_an_existing_binding() {
    assert_eq!(eval("{ let mut x = 5; x = 6; x }"), Value::Int(6));
}

#[test]
fn lib_assign_value_can_reference_the_current_binding() {
    assert_eq!(eval("{ let mut x = 5; x = x + 1; x }"), Value::Int(6));
}

#[test]
fn multiple_assigns_apply_in_order() {
    assert_eq!(eval("{ let mut x = 0; x = x + 1; x = x + 1; x = x + 1; x }"), Value::Int(3));
}

#[test]
fn assign_to_an_undefined_variable_is_an_error() {
    eval_err("x = 5");
}

#[test]
fn assign_mutates_the_innermost_shadowed_binding_only() {
    assert_eq!(
        eval("{ let mut x = 1; { let mut x = 2; x = 99; }; x }"),
        Value::Int(1)
    );
}

#[test]
fn a_closure_capturing_a_mutable_variable_sees_the_snapshot_at_capture_time() {
    assert_eq!(
        eval("{ let mut n = 1; let f = |x| x + n; n = 99; f(0) }"),
        Value::Int(1)
    );
}

#[test]
fn the_classic_for_loop_accumulator_from_design_md() {
    assert_eq!(
        eval("{ let mut sum = 0; for i in 0..5 { sum = sum + i; }; sum }"),
        Value::Int(10)
    );
}

#[test]
fn calling_a_closure_literal_directly() {
    assert_eq!(eval("(|x| x + 1)(5)"), Value::Int(6));
}

#[test]
fn calling_a_closure_stored_in_a_variable() {
    assert_eq!(eval("{ let f = |x| x + 1; f(5) }"), Value::Int(6));
}

#[test]
fn closure_with_multiple_params() {
    assert_eq!(eval("{ let add = |a, b| a + b; add(2, 3) }"), Value::Int(5));
}

#[test]
fn closure_with_zero_params() {
    assert_eq!(eval("{ let five = || 5; five() }"), Value::Int(5));
}

#[test]
fn closure_captures_the_defining_environment() {
    assert_eq!(eval("{ let n = 10; let add_n = |x| x + n; add_n(5) }"), Value::Int(15));
}

#[test]
fn closure_capture_is_a_snapshot_not_a_live_reference() {
    assert_eq!(
        eval("{ let n = 1; let f = |x| x + n; let n = 99; f(0) }"),
        Value::Int(1)
    );
}

#[test]
fn closure_param_shadows_a_captured_binding_of_the_same_name() {
    assert_eq!(eval("{ let x = 100; let f = |x| x + 1; f(5) }"), Value::Int(6));
}

#[test]
fn wrong_closure_argument_count_is_an_error() {
    eval_err("(|x, y| x + y)(1)");
}

#[test]
fn calling_a_non_function_value_is_an_error() {
    eval_err("5(1)");
}

#[test]
fn a_named_function_can_receive_a_closure_argument_and_call_it() {
    let src = "let apply f x = f(x)\n\
                let use_it n = apply(|x| x + 1, n)";
    assert_eq!(run(src, "use_it", vec![Value::Int(5)]), Value::Int(6));
}

#[test]
fn a_closure_can_call_a_named_top_level_function() {
    let src = "let double n = n * 2\n\
                let use_it n = { let f = |x| double(x); f(n) }";
    assert_eq!(run(src, "use_it", vec![Value::Int(5)]), Value::Int(10));
}

#[test]
fn spawn_runs_the_block_on_a_real_thread_and_join_returns_its_result() {
    assert_eq!(eval("spawn { 1 + 2 }.join()"), Value::Int(3));
}

#[test]
fn spawn_can_call_a_named_top_level_function() {
    let src = "let double n = n * 2\n\
                let use_it n = spawn { double(n) }.join()";
    assert_eq!(run(src, "use_it", vec![Value::Int(5)]), Value::Int(10));
}

#[test]
fn spawn_captures_local_bindings_deep_copied_into_the_new_thread() {
    assert_eq!(eval("{ let n = 41; spawn { n + 1 }.join() }"), Value::Int(42));
}

#[test]
fn spawn_captures_a_heap_shaped_local_via_deep_copy() {
    let src = "struct Point { x: Int, y: Int }\n\
                let use_it dummy = { let p = Point { x: 3, y: 4 }; spawn { match p { Point(a, b) => a + b } }.join() }";
    assert_eq!(run(src, "use_it", vec![Value::Unit]), Value::Int(7));
}

#[test]
fn spawned_tasks_result_is_usable_back_in_the_joining_threads_own_heap() {
    let src = "struct Point { x: Int, y: Int }\n\
                let use_it dummy = { let t = spawn { Point { x: 1, y: 2 } }; match t.join() { Point(a, b) => a + b } }";
    assert_eq!(run(src, "use_it", vec![Value::Unit]), Value::Int(3));
}

#[test]
fn capturing_a_ref_across_a_spawn_boundary_is_a_runtime_error() {
    let src = "{ let r = ref(5); spawn { r.get() }.join() }";
    let err = eval_err(src);
    assert!(err.contains("Ref"), "expected a Ref-boundary error, got: {err}");
}

#[test]
fn nested_spawn_inside_a_spawned_task() {
    assert_eq!(eval("spawn { spawn { 5 }.join() + 1 }.join()"), Value::Int(6));
}

#[test]
fn joining_the_same_task_twice_is_a_runtime_error() {
    let src = "let use_it dummy = { let t = spawn { 1 }; { t.join(); t.join() } }";
    let err = run_err(src, "use_it", vec![Value::Unit]);
    assert!(err.contains("already joined"), "expected an already-joined error, got: {err}");
}

#[test]
fn a_spawned_task_that_errors_surfaces_the_error_at_join() {
    let src = "let use_it dummy = spawn { 1 / 0 }.join()";
    let err = run_err(src, "use_it", vec![Value::Unit]);
    assert!(err.contains("spawned task failed"), "expected a propagated task error, got: {err}");
}

#[test]
fn joining_a_non_task_value_is_a_runtime_error() {
    eval_err("5.join()");
}

#[test]
fn send_then_recv_round_trips_a_value_on_the_same_thread() {
    let src = "{ let (tx, rx) = channel[Int](); tx.send(42); rx.recv() }";
    assert_eq!(eval(src), Value::Int(42));
}

#[test]
fn multiple_sends_are_received_in_order() {
    let src = "{ let (tx, rx) = channel[Int]();\
                 tx.send(1); tx.send(2); tx.send(3);\
                 rx.recv() + rx.recv() + rx.recv() }";
    assert_eq!(eval(src), Value::Int(6));
}

#[test]
fn a_heap_shaped_value_crosses_a_channel_via_deep_copy() {
    let src = "struct Point { x: Int, y: Int }\n\
                let use_it dummy = { let (tx, rx) = channel[Point]();\
                tx.send(Point { x: 3, y: 4 });\
                match rx.recv() { Point(a, b) => a + b } }";
    assert_eq!(run(src, "use_it", vec![Value::Unit]), Value::Int(7));
}

#[test]
fn a_channel_sender_can_be_captured_by_a_spawned_task() {
    let src = "let use_it dummy = { let (tx, rx) = channel[Int]();\
                let t = spawn { tx.send(99) };\
                let received = rx.recv();\
                t.join();\
                received }";
    assert_eq!(run(src, "use_it", vec![Value::Unit]), Value::Int(99));
}

#[test]
fn a_heap_shaped_value_crosses_a_real_thread_boundary_via_a_channel() {
    let src = "struct Point { x: Int, y: Int }\n\
                let use_it dummy = { let (tx, rx) = channel[Point]();\
                let t = spawn { tx.send(Point { x: 5, y: 6 }) };\
                let p = rx.recv();\
                t.join();\
                match p { Point(a, b) => a + b } }";
    assert_eq!(run(src, "use_it", vec![Value::Unit]), Value::Int(11));
}

#[test]
fn recv_on_an_empty_channel_blocks_until_a_value_arrives() {
    let src = "let use_it dummy = { let (tx, rx) = channel[Int]();\
                let t = spawn { tx.send(7) };\
                let v = rx.recv();\
                t.join();\
                v }";
    assert_eq!(run(src, "use_it", vec![Value::Unit]), Value::Int(7));
}

#[test]
fn select_picks_the_one_arm_with_a_value_already_ready() {
    let src = "{ let (tx, rx) = channel[Int](); tx.send(5); select { v = rx.recv() => v } }";
    assert_eq!(eval(src), Value::Int(5));
}

#[test]
fn select_picks_whichever_of_several_channels_is_ready() {
    let src = "{ let (tx1, rx1) = channel[Int]();\
                 let (tx2, rx2) = channel[Int]();\
                 tx2.send(99);\
                 select { v = rx1.recv() => v, w = rx2.recv() => w } }";
    assert_eq!(eval(src), Value::Int(99));
}

#[test]
fn select_wildcard_arm_discards_the_received_value() {
    let src = "{ let (tx, rx) = channel[Int](); tx.send(5); select { _ = rx.recv() => 42 } }";
    assert_eq!(eval(src), Value::Int(42));
}

#[test]
fn select_receives_a_heap_shaped_value() {
    let src = "struct Point { x: Int, y: Int }\n\
                let use_it dummy = { let (tx, rx) = channel[Point]();\
                tx.send(Point { x: 3, y: 4 });\
                select { p = rx.recv() => match p { Point(a, b) => a + b } } }";
    assert_eq!(run(src, "use_it", vec![Value::Unit]), Value::Int(7));
}

#[test]
fn select_waits_for_a_delayed_send_from_a_spawned_task() {
    let src = "let use_it dummy = { let (tx, rx) = channel[Int]();\
                let t = spawn { tx.send(11) };\
                let v = select { v = rx.recv() => v };\
                t.join();\
                v }";
    assert_eq!(run(src, "use_it", vec![Value::Unit]), Value::Int(11));
}

#[test]
fn selecting_on_a_non_receiver_value_is_a_runtime_error() {
    eval_err("select { v = 5.recv() => v }");
}

#[test]
fn array_literal_and_index_round_trip() {
    assert_eq!(eval("[10, 20, 30][1]"), Value::Int(20));
}

#[test]
fn array_index_zero_and_last() {
    assert_eq!(eval("[7, 8, 9][0]"), Value::Int(7));
    assert_eq!(eval("[7, 8, 9][2]"), Value::Int(9));
}

#[test]
fn array_index_out_of_bounds_is_a_runtime_error() {
    eval_err("[1, 2, 3][5]");
}

#[test]
fn array_index_negative_is_a_runtime_error() {
    eval_err("[1, 2, 3][0 - 1]");
}

#[test]
fn array_len() {
    assert_eq!(eval("[1, 2, 3].len()"), Value::Int(3));
    assert_eq!(eval("[].len()"), Value::Int(0));
}

#[test]
fn array_push_returns_a_new_longer_array() {
    assert_eq!(eval("[1, 2].push(3).len()"), Value::Int(3));
    assert_eq!(eval("[1, 2].push(3)[2]"), Value::Int(3));
}

#[test]
fn array_push_does_not_mutate_the_original() {
    let src = "{ let a = [1, 2]; let b = a.push(3); a.len() }";
    assert_eq!(eval(src), Value::Int(2));
}

#[test]
fn array_pop_returns_a_new_shorter_array() {
    assert_eq!(eval("[1, 2, 3].pop().len()"), Value::Int(2));
    assert_eq!(eval("[1, 2, 3].pop()[1]"), Value::Int(2));
}

#[test]
fn array_pop_does_not_mutate_the_original() {
    let src = "{ let a = [1, 2, 3]; let b = a.pop(); a.len() }";
    assert_eq!(eval(src), Value::Int(3));
}

#[test]
fn popping_an_empty_array_is_a_runtime_error() {
    eval_err("[].pop()");
}

#[test]
fn array_set_replaces_the_element_at_the_given_index() {
    assert_eq!(eval("[1, 2, 3].set(1, 99)[1]"), Value::Int(99));
    assert_eq!(eval("[1, 2, 3].set(1, 99).len()"), Value::Int(3));
}

#[test]
fn array_set_does_not_mutate_the_original() {
    let src = "{ let a = [1, 2, 3]; let b = a.set(0, 99); a[0] }";
    assert_eq!(eval(src), Value::Int(1));
}

#[test]
fn array_set_out_of_bounds_is_a_runtime_error() {
    eval_err("[1, 2, 3].set(5, 0)");
    eval_err("[1, 2, 3].set(-1, 0)");
}

#[test]
fn array_remove_shifts_later_elements_down() {
    assert_eq!(eval("[1, 2, 3].remove(1).len()"), Value::Int(2));
    assert_eq!(eval("[1, 2, 3].remove(1)[1]"), Value::Int(3));
}

#[test]
fn array_remove_does_not_mutate_the_original() {
    let src = "{ let a = [1, 2, 3]; let b = a.remove(0); a.len() }";
    assert_eq!(eval(src), Value::Int(3));
}

#[test]
fn array_remove_out_of_bounds_is_a_runtime_error() {
    eval_err("[1, 2, 3].remove(5)");
}

#[test]
fn array_map_applies_the_function_to_every_element() {
    assert_eq!(eval("[1, 2, 3].map(|x| x * 2).len()"), Value::Int(3));
    assert_eq!(eval("[1, 2, 3].map(|x| x * 2)[0]"), Value::Int(2));
    assert_eq!(eval("[1, 2, 3].map(|x| x * 2)[2]"), Value::Int(6));
}

#[test]
fn array_map_on_an_empty_array_is_empty() {
    assert_eq!(eval("[].map(|x| x * 2).len()"), Value::Int(0));
}

#[test]
fn array_filter_keeps_only_matching_elements() {
    assert_eq!(eval("[1, 2, 3, 4].filter(|x| x > 2).len()"), Value::Int(2));
    assert_eq!(eval("[1, 2, 3, 4].filter(|x| x > 2)[0]"), Value::Int(3));
}

#[test]
fn array_filter_preserves_relative_order() {
    assert_eq!(eval("[3, 1, 4, 1, 5].filter(|x| x > 2)[1]"), Value::Int(4));
}

#[test]
fn array_fold_accumulates_left_to_right() {
    assert_eq!(eval("[1, 2, 3, 4].fold(0, |acc, x| acc + x)"), Value::Int(10));
}

#[test]
fn array_fold_on_an_empty_array_returns_the_initial_value() {
    assert_eq!(eval("[].fold(42, |acc, x| acc + x)"), Value::Int(42));
}

#[test]
fn array_of_heap_shaped_values() {
    let src = "struct Point { x: Int, y: Int }\n\
                let use_it dummy = { let arr = [Point { x: 1, y: 2 }, Point { x: 3, y: 4 }];\
                match arr[1] { Point(a, b) => a + b } }";
    assert_eq!(run(src, "use_it", vec![Value::Unit]), Value::Int(7));
}

#[test]
fn indexing_a_non_array_is_a_runtime_error() {
    eval_err("5[0]");
}

#[test]
fn a_bare_function_name_stored_in_a_variable_can_be_called() {
    let src = "let square x = x * x\n\
                let use_it n = { let f = square; f(n) }";
    assert_eq!(run(src, "use_it", vec![Value::Int(5)]), Value::Int(25));
}

#[test]
fn a_bare_function_name_passed_as_a_higher_order_argument() {
    let src = "let square x = x * x\n\
                let apply f x = f(x)\n\
                let use_it n = apply(square, n)";
    assert_eq!(run(src, "use_it", vec![Value::Int(4)]), Value::Int(16));
}

#[test]
fn a_global_aliasing_a_function_can_be_called_through() {
    let src = "let square x = x * x\n\
                let f = square\n\
                let use_it n = f(n)";
    assert_eq!(run(src, "use_it", vec![Value::Int(6)]), Value::Int(36));
}

#[test]
fn calling_directly_by_name_still_works_alongside_first_class_values() {
    let src = "let square x = x * x\n\
                let use_it n = { let square = |x| x + 1; square(n) }";
    assert_eq!(run(src, "use_it", vec![Value::Int(5)]), Value::Int(6));
}

#[test]
fn struct_nested_inside_tuple_pattern() {
    let src = "struct Point { x: Int, y: Int }\n\
                let use_it dummy = match (Point { x: 3, y: 4 }, 10) { (Point { x, y }, n) => x + y + n }";
    assert_eq!(run(src, "use_it", vec![Value::Unit]), Value::Int(17));
}

#[test]
fn struct_nested_inside_struct_pattern() {
    let src = "struct Point { x: Int, y: Int }\n\
                struct Line { start: Point, end: Point }\n\
                let dx (Line { start: Point { x: x0, .. }, end: Point { x: x1, .. } }) = x1 - x0\n\
                let use_it dummy = dx(Line { start: Point { x: 1, y: 0 }, end: Point { x: 9, y: 0 } })";
    assert_eq!(run(src, "use_it", vec![Value::Unit]), Value::Int(8));
}

#[test]
fn variant_pattern_syntax_nested_inside_tuple_pattern() {
    let src = "struct Point { x: Int, y: Int }\n\
                let use_it dummy = match (Point { x: 3, y: 4 }, 1) { (Point(x, y), n) => x + y + n }";
    assert_eq!(run(src, "use_it", vec![Value::Unit]), Value::Int(8));
}

#[test]
fn real_enum_variant_nested_inside_tuple_pattern() {
    let src = "enum Shape { Circle(Float) }\n\
                let use_it dummy = match (Circle(5.0), 1.0) { (Shape.Circle(r), n) => r + n }";
    assert_eq!(run(src, "use_it", vec![Value::Unit]), float(6.0));
}

#[test]
fn deeply_nested_pattern_three_levels() {
    let src = "struct Point { x: Int, y: Int }\n\
                let use_it dummy = match ((Point { x: 1, y: 2 }, 3), 4) { ((Point { x, y }, a), b) => x + y + a + b }";
    assert_eq!(run(src, "use_it", vec![Value::Unit]), Value::Int(10));
}

#[test]
fn bare_variant_construction_and_immediate_match() {
    let src = "enum Shape { Circle(Float) }\n\
                let use_it dummy = match Circle(3.0) { Circle(r) => r }";
    assert_eq!(run(src, "use_it", vec![Value::Unit]), float(3.0));
}

#[test]
fn qualified_variant_construction_and_immediate_match() {
    let src = "enum Shape { Circle(Float) }\n\
                let use_it dummy = match Shape.Circle(3.0) { Circle(r) => r }";
    assert_eq!(run(src, "use_it", vec![Value::Unit]), float(3.0));
}

#[test]
fn zero_arity_variant_construction() {
    let src = "enum Shape { Empty, Circle(Float) }\n\
                let use_it dummy = match Empty { Empty => 1, Circle(r) => 0 }";
    assert_eq!(run(src, "use_it", vec![Value::Unit]), Value::Int(1));
}

#[test]
fn multi_field_variant_construction() {
    let src = "enum Shape { Rectangle(Float, Float) }\n\
                let use_it dummy = match Rectangle(2.0, 3.0) { Rectangle(w, h) => w * h }";
    assert_eq!(run(src, "use_it", vec![Value::Unit]), float(6.0));
}

#[test]
fn bare_variant_constructor_is_a_real_callable_value() {
    let src = "enum Shape { Circle(Float) }\n\
                let use_it dummy = { let make = Circle; match make(3.0) { Circle(r) => r } }";
    assert_eq!(run(src, "use_it", vec![Value::Unit]), float(3.0));
}

#[test]
fn bare_variant_constructor_passed_as_a_higher_order_argument() {
    let src = "enum Shape { Circle(Float) }\n\
                let apply f x = f(x)\n\
                let use_it dummy = match apply(Circle, 5.0) { Circle(r) => r }";
    assert_eq!(run(src, "use_it", vec![Value::Unit]), float(5.0));
}

#[test]
fn struct_destructuring_param() {
    let src = "struct Point { x: Int, y: Int }\n\
                let area (Point { x, y }) = x * y\n\
                let use_it dummy = area(Point { x: 3, y: 4 })";
    assert_eq!(run(src, "use_it", vec![Value::Unit]), Value::Int(12));
}

#[test]
fn lib_struct_destructuring_param_field_rename() {
    let src = "struct Point { x: Int, y: Int }\n\
                let area (Point { x: px, y: py }) = px * py\n\
                let use_it dummy = area(Point { x: 3, y: 4 })";
    assert_eq!(run(src, "use_it", vec![Value::Unit]), Value::Int(12));
}

#[test]
fn struct_destructuring_param_with_rest() {
    let src = "struct Point { x: Int, y: Int }\n\
                let get_x (Point { x, .. }) = x\n\
                let use_it dummy = get_x(Point { x: 3, y: 4 })";
    assert_eq!(run(src, "use_it", vec![Value::Unit]), Value::Int(3));
}

#[test]
fn lib_match_arm_struct_pattern() {
    let src = "struct Point { x: Int, y: Int }\n\
                let use_it dummy = match (Point { x: 3, y: 4 }) { Point { x, y } => x * y }";
    assert_eq!(run(src, "use_it", vec![Value::Unit]), Value::Int(12));
}

#[test]
fn match_guard_falls_through_to_the_next_arm_sharing_the_same_tag() {
    let src = "enum Shape { Circle(Float) }\n\
                let classify r = match (Circle(r)) { Circle(r) if r > 5.0 => 1, Circle(r) => 0 }";
    assert_eq!(run(src, "classify", vec![float(10.0)]), Value::Int(1));
    assert_eq!(run(src, "classify", vec![float(2.0)]), Value::Int(0));
}

#[test]
fn match_guard_can_reference_the_arms_own_bindings() {
    let src = "enum Shape { Circle(Float), Rectangle(Float, Float) }\n\
                let use_it dummy = match (Rectangle(3.0, 3.0)) { Rectangle(w, h) if w == h => 1, Rectangle(w, h) => 0, Circle(r) => 2 }";
    assert_eq!(run(src, "use_it", vec![Value::Unit]), Value::Int(1));
}

#[test]
fn no_matching_guarded_arm_is_a_runtime_error() {
    let src = "enum Shape { Circle(Float) }\n\
                let use_it dummy = match (Circle(1.0)) { Circle(r) if r > 5.0 => 1 }";
    let err = run_err(src, "use_it", vec![Value::Unit]);
    assert!(err.contains("no match arm"), "expected a no-match error, got: {err}");
}

#[test]
fn match_over_int_literals_picks_the_matching_arm() {
    assert_eq!(eval("(match 2 { 1 => \"one\", 2 => \"two\", _ => \"many\" }) == \"two\""), Value::Bool(true));
}

#[test]
fn match_over_int_literals_falls_through_to_the_wildcard() {
    assert_eq!(eval("(match 99 { 1 => \"one\", 2 => \"two\", _ => \"many\" }) == \"many\""), Value::Bool(true));
}

#[test]
fn match_over_string_literals_picks_the_matching_arm() {
    assert_eq!(eval("match \"b\" { \"a\" => 1, \"b\" => 2, _ => 0 }"), Value::Int(2));
}

#[test]
fn match_over_bool_literals_picks_the_matching_arm() {
    assert_eq!(eval("match true { true => 1, _ => 0 }"), Value::Int(1));
}

#[test]
fn match_over_float_literals_picks_the_matching_arm() {
    assert_eq!(
        eval("(match 2.5 { 1.0 => \"one\", 2.5 => \"two-and-a-half\", _ => \"other\" }) == \"two-and-a-half\""),
        Value::Bool(true)
    );
}

#[test]
fn match_single_ident_arm_binds_the_whole_scrutinee() {
    assert_eq!(eval("match [1, 2, 3] { arr => arr.len() }"), Value::Int(3));
}

#[test]
fn match_with_a_trailing_ident_binds_and_uses_the_scrutinee() {
    assert_eq!(eval("match 5 { 1 => 100, other => other * 10 }"), Value::Int(50));
}

#[test]
fn match_literal_arm_guard_is_checked() {
    let src = "{ let flag = false; match 1 { 1 if flag => 100, _ => 0 } }";
    assert_eq!(eval(src), Value::Int(0));
}

#[test]
fn match_literal_arm_guard_true_takes_that_arm() {
    let src = "{ let flag = true; match 1 { 1 if flag => 100, _ => 0 } }";
    assert_eq!(eval(src), Value::Int(100));
}

#[test]
fn lib_block_let_struct_destructure() {
    let src = "struct Point { x: Int, y: Int }\n\
                let use_it dummy = { let Point { x, y } = Point { x: 3, y: 4 }; x + y }";
    assert_eq!(run(src, "use_it", vec![Value::Unit]), Value::Int(7));
}

#[test]
fn struct_literal_spread_copies_omitted_fields() {
    let src = "struct Point { x: Int, y: Int }\n\
                let use_it dummy = { let p = Point { x: 3, y: 4 }; let q = Point { x: 9, ..p }; match q { Point { x, y } => x + y } }";
    assert_eq!(run(src, "use_it", vec![Value::Unit]), Value::Int(13));
}

#[test]
fn struct_literal_spread_with_no_fields_overridden_is_a_copy() {
    let src = "struct Point { x: Int, y: Int }\n\
                let use_it dummy = match (Point { x: 3, ..(Point { x: 3, y: 4 }) }) { Point { x, y } => x + y }";
    assert_eq!(run(src, "use_it", vec![Value::Unit]), Value::Int(7));
}

#[test]
fn tuple_construct_and_match() {
    assert_eq!(eval("match (1, 2) { (a, b) => a + b }"), Value::Int(3));
}

#[test]
fn three_element_tuple_construct_and_match() {
    assert_eq!(eval("match (1, 2, 3) { (a, b, c) => a + b + c }"), Value::Int(6));
}

#[test]
fn lib_block_let_tuple_destructure() {
    assert_eq!(eval("{ let (a, b) = (1, 2); a + b }"), Value::Int(3));
}

#[test]
fn tuple_of_different_arity_does_not_match() {
    eval_err("match (1, 2) { (a, b, c) => a }");
}

#[test]
fn the_swap_example_from_design_md() {
    let src = "let swap p = match p { (a, b) => (b, a) }\n\
                let use_it dummy = match swap((1, 2)) { (x, y) => x * 10 + y }";
    assert_eq!(run(src, "use_it", vec![Value::Unit]), Value::Int(21));
}

#[test]
fn swap_with_real_tuple_destructuring_param_syntax() {
    let src = "let swap (a, b) = (b, a)\n\
                let use_it dummy = match swap((1, 2)) { (x, y) => x * 10 + y }";
    assert_eq!(run(src, "use_it", vec![Value::Unit]), Value::Int(21));
}

#[test]
fn tuple_reuse_in_place_fires_via_fbip() {
    let ir = lower("match p { (a, b) => (b, a) }");
    let optimized = fbip::optimize(ir);
    let mut interp = Interpreter::new();
    let addr = {
        let tuple_val = eval_in(&mut interp, &Expr::Ctor {
            tag: "2Tuple".to_string(),
            fields: vec![Expr::Int(1), Expr::Int(2)],
        });
        let Ok(Value::HeapRef(addr)) = tuple_val else { panic!("expected a HeapRef") };
        addr
    };
    interp.env.push(("p".to_string(), Value::HeapRef(addr)));
    let result = eval_in(&mut interp, &optimized).unwrap_or_else(|e| panic!("eval error: {e}"));
    assert_eq!(result, Value::HeapRef(addr), "reuse should recycle the original cell");
}

fn var(name: &str) -> Expr {
    Expr::Var(name.to_string())
}

fn num(n: i64) -> Expr {
    Expr::Int(n)
}

fn ctor(tag: &str, fields: Vec<Expr>) -> Expr {
    Expr::Ctor {
        tag: tag.to_string(),
        fields,
    }
}

fn ctor_reuse(reuse_of: &str, tag: &str, fields: Vec<Expr>) -> Expr {
    Expr::CtorReuse {
        reuse_of: reuse_of.to_string(),
        tag: tag.to_string(),
        fields,
    }
}

fn let_(name: &str, value: Expr, body: Expr) -> Expr {
    Expr::Let {
        name: name.to_string(),
        value: Box::new(value),
        body: Box::new(body),
    }
}

fn match_(scrutinee: Expr, arms: Vec<MatchArm>) -> Expr {
    Expr::Match {
        scrutinee: Box::new(scrutinee),
        arms,
    }
}

fn arm(tag: &str, bindings: Vec<&str>, body: Expr) -> MatchArm {
    MatchArm {
        tag: tag.to_string(),
        bindings: bindings.into_iter().map(|s| s.to_string()).collect(),
        guard: None,
        body,
    }
}

fn array_ctor(fields: Vec<Expr>) -> Expr {
    Expr::Ctor {
        tag: "0Array".to_string(),
        fields,
    }
}

fn array_push_reuse(reuse_of: &str, value: Expr) -> Expr {
    Expr::ArrayPushReuse {
        reuse_of: reuse_of.to_string(),
        value: Box::new(value),
    }
}

fn str_concat_reuse(reuse_of: &str, other: Expr) -> Expr {
    Expr::StrConcatReuse {
        reuse_of: reuse_of.to_string(),
        other: Box::new(other),
    }
}

fn str_trim_reuse(reuse_of: &str) -> Expr {
    Expr::StrTrimReuse {
        reuse_of: reuse_of.to_string(),
    }
}

fn str_to_upper_reuse(reuse_of: &str) -> Expr {
    Expr::StrToUpperReuse {
        reuse_of: reuse_of.to_string(),
    }
}

fn inc(name: &str, rest: Expr) -> Expr {
    Expr::RcAnnotated {
        op: RcOp::Inc,
        target: name.to_string(),
        rest: Box::new(rest),
    }
}

fn dec(name: &str, rest: Expr) -> Expr {
    Expr::RcAnnotated {
        op: RcOp::Dec,
        target: name.to_string(),
        rest: Box::new(rest),
    }
}

#[test]
fn construct_and_match_extracts_fields() {
    let program = let_(
        "p",
        ctor("Point", vec![num(1), num(2)]),
        match_(var("p"), vec![arm("Point", vec!["x", "y"], Expr::Binary(BinOp::Add, Box::new(var("x")), Box::new(var("y"))))]),
    );
    assert_eq!(eval_ir(&program), Value::Int(3));
}

#[test]
fn match_with_no_matching_arm_is_an_error() {
    let program = let_(
        "p",
        ctor("Foo", vec![]),
        match_(var("p"), vec![arm("Bar", vec![], num(0))]),
    );
    let err = eval_ir_err(&program);
    assert!(err.contains("Foo"), "error should mention the unmatched tag, got: {err}");
}

#[test]
fn match_on_non_heap_scrutinee_is_an_error() {
    let program = match_(num(5), vec![arm("Whatever", vec![], num(0))]);
    eval_ir_err(&program);
}

#[test]
fn rc_inc_dec_actually_change_the_refcount() {
    let read = || match_(var("p"), vec![arm("Point", vec![], num(0))]);

    let still_alive = let_("p", ctor("Point", vec![]), inc("p", dec("p", read())));
    assert_eq!(eval_ir(&still_alive), Value::Int(0), "should still be readable after inc+dec");

    let now_freed = let_("p", ctor("Point", vec![]), inc("p", dec("p", dec("p", read()))));
    let err = eval_ir_err(&now_freed);
    assert!(err.contains("free"), "expected a use-after-free error, got: {err}");
}

#[test]
fn dec_to_zero_makes_the_value_unreadable_afterward() {
    let program = let_(
        "p",
        ctor("Point", vec![num(1), num(2)]),
        dec("p", match_(var("p"), vec![arm("Point", vec!["x", "y"], var("x"))])),
    );
    let err = eval_ir_err(&program);
    assert!(err.contains("free"), "expected a use-after-free error, got: {err}");
}

#[test]
fn reuse_when_uniquely_owned_recycles_the_same_allocation() {
    let mut interp = Interpreter::new();
    let program = let_(
        "p",
        ctor("Point", vec![num(1), num(2)]),
        match_(
            var("p"),
            vec![arm(
                "Point",
                vec!["x", "y"],
                ctor_reuse("p", "Point", vec![var("y"), var("x")]),
            )],
        ),
    );
    let result = eval_in(&mut interp, &program).unwrap();
    let Value::HeapRef(addr) = result else {
        panic!("expected a HeapRef result")
    };
    assert_eq!(addr, 0, "should reuse address 0 — the original Point's cell");
    assert_eq!(interp.alloc_count(), 1, "reuse must not count as a second allocation");
    assert_eq!(interp.refcount(&result).unwrap(), 1);
    let (tag, fields) = interp.heap.read(addr).unwrap();
    assert_eq!(tag, "Point");
    assert_eq!(fields, &[Value::Int(2), Value::Int(1)]);
}

#[test]
fn reuse_when_shared_allocates_fresh_and_preserves_the_alias() {
    let mut interp = Interpreter::new();
    let program = let_(
        "p",
        ctor("Point", vec![num(1), num(2)]),
        let_(
            "saved",
            inc("p", var("p")), // the Inc a real FBIP pass would insert here
            match_(
                var("p"),
                vec![arm(
                    "Point",
                    vec!["x", "y"],
                    ctor_reuse("p", "Point", vec![var("y"), var("x")]),
                )],
            ),
        ),
    );
    let result = eval_in(&mut interp, &program).unwrap();
    let Value::HeapRef(new_addr) = result else {
        panic!("expected a HeapRef result")
    };
    assert_ne!(new_addr, 0, "must not reuse memory that `saved` still references");
    assert_eq!(interp.alloc_count(), 2, "the shared path must allocate a fresh cell");
    assert_eq!(interp.heap.read(0).unwrap(), ("Point", &[Value::Int(1), Value::Int(2)][..]));
    assert_eq!(interp.heap.read(new_addr).unwrap(), ("Point", &[Value::Int(2), Value::Int(1)][..]));
}

#[test]
fn array_push_reuse_recycles_the_same_address_when_uniquely_owned() {
    let mut interp = Interpreter::new();
    let program = let_(
        "a",
        array_ctor(vec![num(1), num(2)]),
        array_push_reuse("a", num(3)),
    );
    let result = eval_in(&mut interp, &program).unwrap();
    let Value::HeapRef(addr) = result else {
        panic!("expected a HeapRef result")
    };
    assert_eq!(addr, 0, "should reuse address 0 — the original array's cell");
    assert_eq!(interp.alloc_count(), 1, "reuse must not count as a second allocation");
    assert_eq!(interp.heap.read(addr).unwrap(), ("0Array", &[Value::Int(1), Value::Int(2), Value::Int(3)][..]));
}

#[test]
fn array_push_reuse_allocates_fresh_and_preserves_the_alias_when_shared() {
    let mut interp = Interpreter::new();
    let program = let_(
        "a",
        array_ctor(vec![num(1), num(2)]),
        let_(
            "saved",
            inc("a", var("a")), // the Inc a real FBIP pass would insert here
            array_push_reuse("a", num(3)),
        ),
    );
    let result = eval_in(&mut interp, &program).unwrap();
    let Value::HeapRef(new_addr) = result else {
        panic!("expected a HeapRef result")
    };
    assert_ne!(new_addr, 0, "must not reuse memory that `saved` still references");
    assert_eq!(interp.alloc_count(), 2, "the shared path must allocate a fresh cell");
    assert_eq!(interp.heap.read(0).unwrap(), ("0Array", &[Value::Int(1), Value::Int(2)][..]));
    assert_eq!(
        interp.heap.read(new_addr).unwrap(),
        ("0Array", &[Value::Int(1), Value::Int(2), Value::Int(3)][..])
    );
}

#[test]
fn str_concat_reuse_recycles_the_same_address_when_uniquely_owned() {
    let mut interp = Interpreter::new();
    let program = let_(
        "s",
        Expr::Str("hello".to_string()),
        str_concat_reuse("s", Expr::Str(" world".to_string())),
    );
    let result = eval_in(&mut interp, &program).unwrap();
    let Value::HeapRef(addr) = result else {
        panic!("expected a HeapRef result")
    };
    assert_eq!(addr, 0, "should reuse address 0 — the original string's cell");
    assert_eq!(interp.alloc_count(), 2, "reuse must not allocate a third cell for the result");
    assert_eq!(interp.heap.read_str(addr).unwrap(), "hello world");
}

#[test]
fn str_concat_reuse_allocates_fresh_and_preserves_the_alias_when_shared() {
    let mut interp = Interpreter::new();
    let program = let_(
        "s",
        Expr::Str("hello".to_string()),
        let_(
            "saved",
            inc("s", var("s")), // the Inc a real FBIP pass would insert here
            str_concat_reuse("s", Expr::Str(" world".to_string())),
        ),
    );
    let result = eval_in(&mut interp, &program).unwrap();
    let Value::HeapRef(new_addr) = result else {
        panic!("expected a HeapRef result")
    };
    assert_ne!(new_addr, 0, "must not reuse memory that `saved` still references");
    assert_eq!(interp.alloc_count(), 3, "the shared path must allocate a fresh cell");
    assert_eq!(interp.heap.read_str(0).unwrap(), "hello");
    assert_eq!(interp.heap.read_str(new_addr).unwrap(), "hello world");
}

#[test]
fn str_trim_reuse_recycles_the_same_address_when_uniquely_owned() {
    let mut interp = Interpreter::new();
    let program = let_("s", Expr::Str("  hi  ".to_string()), str_trim_reuse("s"));
    let result = eval_in(&mut interp, &program).unwrap();
    let Value::HeapRef(addr) = result else {
        panic!("expected a HeapRef result")
    };
    assert_eq!(addr, 0, "should reuse address 0 — the original string's cell");
    assert_eq!(interp.alloc_count(), 1, "reuse must not count as a second allocation");
    assert_eq!(interp.heap.read_str(addr).unwrap(), "hi");
}

#[test]
fn str_trim_reuse_allocates_fresh_and_preserves_the_alias_when_shared() {
    let mut interp = Interpreter::new();
    let program = let_(
        "s",
        Expr::Str("  hi  ".to_string()),
        let_(
            "saved",
            inc("s", var("s")), // the Inc a real FBIP pass would insert here
            str_trim_reuse("s"),
        ),
    );
    let result = eval_in(&mut interp, &program).unwrap();
    let Value::HeapRef(new_addr) = result else {
        panic!("expected a HeapRef result")
    };
    assert_ne!(new_addr, 0, "must not reuse memory that `saved` still references");
    assert_eq!(interp.alloc_count(), 2, "the shared path must allocate a fresh cell");
    assert_eq!(interp.heap.read_str(0).unwrap(), "  hi  ");
    assert_eq!(interp.heap.read_str(new_addr).unwrap(), "hi");
}

#[test]
fn str_to_upper_reuse_recycles_the_same_address_when_uniquely_owned() {
    let mut interp = Interpreter::new();
    let program = let_("s", Expr::Str("hi".to_string()), str_to_upper_reuse("s"));
    let result = eval_in(&mut interp, &program).unwrap();
    let Value::HeapRef(addr) = result else {
        panic!("expected a HeapRef result")
    };
    assert_eq!(addr, 0, "should reuse address 0 — the original string's cell");
    assert_eq!(interp.alloc_count(), 1, "reuse must not count as a second allocation");
    assert_eq!(interp.heap.read_str(addr).unwrap(), "HI");
}

#[test]
fn str_to_upper_reuse_allocates_fresh_and_preserves_the_alias_when_shared() {
    let mut interp = Interpreter::new();
    let program = let_(
        "s",
        Expr::Str("hi".to_string()),
        let_(
            "saved",
            inc("s", var("s")), // the Inc a real FBIP pass would insert here
            str_to_upper_reuse("s"),
        ),
    );
    let result = eval_in(&mut interp, &program).unwrap();
    let Value::HeapRef(new_addr) = result else {
        panic!("expected a HeapRef result")
    };
    assert_ne!(new_addr, 0, "must not reuse memory that `saved` still references");
    assert_eq!(interp.alloc_count(), 2, "the shared path must allocate a fresh cell");
    assert_eq!(interp.heap.read_str(0).unwrap(), "hi");
    assert_eq!(interp.heap.read_str(new_addr).unwrap(), "HI");
}

#[test]
fn end_to_end_real_source_struct_swap_via_reuse() {
    let src = "struct Point { x: Float, y: Float }\n\
               let result = { let p = Point { x: 1.0, y: 2.0 }; match p { Point(x, y) => Point { x: y, y: x } } }";
    let program = parse_program(src);
    let ctx = LoweringContext::from_items(&program.items);

    let ast::Item::Let(def) = &program.items[1] else {
        panic!("expected the second item to be a let definition");
    };
    let ir = lower_expr(&def.body, &ctx).unwrap_or_else(|e| panic!("lowering error: {}", e.message()));
    let optimized = fbip::optimize(ir);

    let mut interp = Interpreter::new();
    let result = eval_in(&mut interp, &optimized).unwrap_or_else(|e| panic!("eval error: {e}"));

    let Value::HeapRef(addr) = result else {
        panic!("expected a HeapRef result")
    };
    assert_eq!(addr, 0, "single owner, single use — reuse should recycle the original cell");
    assert_eq!(
        interp.alloc_count(),
        1,
        "the swap should cost zero extra allocations — that's the whole point of FBIP"
    );
    assert_eq!(interp.heap.read(addr).unwrap(), ("Point", &[float(2.0), float(1.0)][..]));
}

#[test]
fn end_to_end_real_source_array_push_reuse() {
    let src = "{ let a = [1, 2]; a.push(3) }";
    let ir = lower(src);
    let optimized = fbip::optimize(ir);

    let mut interp = Interpreter::new();
    let result = eval_in(&mut interp, &optimized).unwrap_or_else(|e| panic!("eval error: {e}"));

    let Value::HeapRef(addr) = result else {
        panic!("expected a HeapRef result")
    };
    assert_eq!(addr, 0, "single owner, single use — reuse should recycle the original cell");
    assert_eq!(
        interp.alloc_count(),
        1,
        "push-in-place should cost zero extra allocations — that's the whole point of this optimization"
    );
    assert_eq!(interp.heap.read(addr).unwrap(), ("0Array", &[Value::Int(1), Value::Int(2), Value::Int(3)][..]));
}

#[test]
fn end_to_end_real_source_array_reused_across_two_uses_allocates_fresh() {
    let src = "let use_it dummy = { let a = [1, 2]; let b = a.push(3); a.len() + b.len() }";
    let result = run(src, "use_it", vec![Value::Unit]);
    assert_eq!(result, Value::Int(5));
}

#[test]
fn end_to_end_real_source_string_concat_reuse() {
    let src = "{ let s = \"hi\"; s.concat(\" there\") }";
    let ir = lower(src);
    let optimized = fbip::optimize(ir);

    let mut interp = Interpreter::new();
    let result = eval_in(&mut interp, &optimized).unwrap_or_else(|e| panic!("eval error: {e}"));

    let Value::HeapRef(addr) = result else {
        panic!("expected a HeapRef result")
    };
    assert_eq!(addr, 0, "single owner, single use — reuse should recycle the original cell");
    assert_eq!(
        interp.alloc_count(),
        2,
        "concat-in-place should cost only the `\" there\"` literal's own allocation, not a second one for the result"
    );
    assert_eq!(interp.heap.read_str(addr).unwrap(), "hi there");
}

#[test]
fn end_to_end_real_source_string_len_and_equality() {
    let src = "let use_it dummy = { let s = \"hello\"; if s == \"hello\" { s.len() } else { 0 } }";
    let result = run(src, "use_it", vec![Value::Unit]);
    assert_eq!(result, Value::Int(5));
}

#[test]
fn call_single_param_function() {
    assert_eq!(run("let double n = n * 2", "double", vec![Value::Int(5)]), Value::Int(10));
}

#[test]
fn call_multi_param_function() {
    assert_eq!(
        run("let add a b = a + b", "add", vec![Value::Int(2), Value::Int(3)]),
        Value::Int(5)
    );
}

#[test]
fn recursion() {
    let src = "let sum n acc = if n == 0 { acc } else { sum(n - 1, acc + n) }";
    assert_eq!(run(src, "sum", vec![Value::Int(5), Value::Int(0)]), Value::Int(15));
}

#[test]
fn cross_function_calls() {
    let src = "let square x = x * x\nlet sum_of_squares a b = square(a) + square(b)";
    assert_eq!(
        run(src, "sum_of_squares", vec![Value::Int(3), Value::Int(4)]),
        Value::Int(25)
    );
}

#[test]
fn wrong_argument_count_is_an_error() {
    run_err("let add a b = a + b", "add", vec![Value::Int(1)]);
}

#[test]
fn unknown_function_is_an_error() {
    run_err("let double n = n * 2", "triple", vec![Value::Int(1)]);
}

#[test]
fn function_body_cannot_see_the_caller_environment() {
    let src = "let leak_check unused_param = outer_var + 1";
    let program = parse_program(src);
    let ctx = LoweringContext::new();
    let ir_program = lower::lower_program(&program, &ctx).unwrap();

    let mut interp = Interpreter::new();
    load_in(&mut interp, &ir_program).unwrap();
    interp.env.push(("outer_var".to_string(), Value::Int(99)));

    let err = call_in(&mut interp, "leak_check", vec![Value::Int(0)]).expect_err("expected call to fail");
    assert!(err.contains("outer_var"), "expected an unbound-variable error, got: {err}");
}

#[test]
fn calling_a_computed_non_closure_value_is_an_error() {
    let call_expr = Expr::Call {
        callee: Box::new(Expr::If {
            cond: Box::new(Expr::Bool(true)),
            then_branch: Box::new(Expr::Int(0)),
            else_branch: Box::new(Expr::Int(0)),
        }),
        args: vec![],
    };
    assert!(eval_in(&mut Interpreter::new(), &call_expr).is_err());
}

#[test]
fn nested_tuple_patterns_keep_their_parts_apart() {
    let src = "{ let (((a, b), (c, d)), (e, f)) = (((1, 2), (3, 4)), (5, 6)); e }";
    assert_eq!(eval(src), Value::Int(5));
    let src = "{ let (((a, b), (c, d)), (e, f)) = (((1, 2), (3, 4)), (5, 6)); a * 100 + d * 10 + f }";
    assert_eq!(eval(src), Value::Int(146));
}

#[test]
fn a_lone_ident_arm_lowers_to_a_binding() {
    assert_eq!(
        lower("match x { y => y }"),
        Expr::Let {
            name: "y".to_string(),
            value: Box::new(Expr::Var("x".to_string())),
            body: Box::new(Expr::Var("y".to_string())),
        }
    );
}
