//! Runs small Cove programs on the 8-byte frame.
//!
//! The first half of the file reads the subset of the language the tests are
//! written in, lowers it, and evaluates it by walking the tree, so that every
//! run on the frame is held against an evaluation that shares nothing with it.
use std::collections::BTreeMap;

use cove_runtime::budget::{Budget, Limits};
use cove_runtime::error::{RunOutcome, RuntimeError, Span};
use cove_runtime::frame::admission::{admits, refusals, Refused};
use cove_runtime::frame::bitmap::{Bitmap, FrameMap};
use cove_runtime::frame::kinds::{Kind, Part};
use cove_runtime::frame::layout::{
    case_matches, enum_parts, field_position, static_case_name, struct_parts,
};
use cove_runtime::frame::machine::{INSTRUCTION_FUEL, MAX_CALL_DEPTH};
use cove_runtime::frame::operands::simulate;
use cove_runtime::frame::validity::validate;
use cove_runtime::frame::vm::{FrameVm, Pause};
use cove_runtime::frame::word::Word;
use cove_runtime::heap::HeapStats;
use cove_runtime::host::{Grants, HostApi, HostRegistry};
use cove_runtime::ir::{
    stack_shape, BinaryOp, Const, ConstId, EnumCase, EnumId, EnumType, Field, Function, FunctionId, Inst, IntOp, Program, Scalar,
    SlotKind, StructId, StructType,
};
use cove_runtime::schema::{Effect, HostType, ModuleSchema, OperationSchema};
use cove_runtime::shipped::shipped_schema;
use cove_runtime::trace::{run_began, run_closed, TraceEvent};
use cove_runtime::value::Value;

// ------------------------------------------------------------------ reading

#[derive(Clone, Debug, PartialEq)]
enum Ty {
    Int,
    Bool,
    Float,
    Str,
    Unit,
    Duration,
    Struct(usize),
    Result(Box<Ty>),
}

impl Ty {
    fn slot(&self) -> SlotKind {
        match self {
            Ty::Int => SlotKind::Scalar(Scalar::Int),
            Ty::Bool => SlotKind::Scalar(Scalar::Bool),
            _ => SlotKind::Value,
        }
    }

    fn scalar(&self) -> Option<Scalar> {
        match self {
            Ty::Int => Some(Scalar::Int),
            Ty::Bool => Some(Scalar::Bool),
            _ => None,
        }
    }
}

#[derive(Clone, Debug)]
struct Expr {
    node: Node,
    span: Span,
}

#[derive(Clone, Debug)]
enum Node {
    Int(i64),
    Bool(bool),
    Float(String),
    Duration(i64),
    Unit,
    Str(Vec<Piece>),
    Name(String),
    Binary(String, Box<Expr>, Box<Expr>),
    Call(String, Vec<Expr>),
    Make(usize, Vec<Expr>),
    Field(Box<Expr>, String),
    Method(Box<Expr>, String, Vec<Expr>),
    Host(String, String, Vec<Expr>),
    Try(Box<Expr>),
    Fine(Box<Expr>),
    If(Box<Expr>, Vec<Stmt>, Vec<Stmt>),
}

#[derive(Clone, Debug)]
enum Piece {
    Text(String),
    Hole(Expr),
}

#[derive(Clone, Debug)]
enum Stmt {
    Var(String, Expr),
    Assign(String, Expr),
    AssignField(String, String, Expr),
    While(Expr, Vec<Stmt>),
    Expr(Expr),
}

#[derive(Clone, Debug)]
struct Def {
    name: String,
    params: Vec<(String, Ty)>,
    returns: Ty,
    body: Vec<Stmt>,
    span: Span,
}

#[derive(Clone, Debug)]
struct Shape {
    name: String,
    fields: Vec<(String, Ty)>,
}

#[derive(Clone, Debug)]
struct Source {
    shapes: Vec<Shape>,
    defs: Vec<Def>,
}

#[derive(Clone, Debug, PartialEq)]
enum Tok {
    Word(String),
    Number(String),
    Text(String),
    Sign(String),
    End,
}

fn tokens(text: &[char], base: usize) -> Vec<(Tok, usize, usize)> {
    let mut out = Vec::new();
    let mut i = 0;
    while i < text.len() {
        let c = text[i];
        let start = i;
        if c.is_whitespace() {
            i += 1;
            continue;
        }
        if c.is_alphabetic() {
            while i < text.len() && text[i].is_alphanumeric() {
                i += 1;
            }
            out.push((Tok::Word(text[start..i].iter().collect()), base + start, base + i));
        } else if c.is_ascii_digit() {
            while i < text.len() && (text[i].is_ascii_alphanumeric() || text[i] == '.') {
                i += 1;
            }
            out.push((Tok::Number(text[start..i].iter().collect()), base + start, base + i));
        } else if c == '"' {
            let mut depth = 0;
            i += 1;
            while depth > 0 || text[i] != '"' {
                match text[i] {
                    '{' => depth += 1,
                    '}' => depth -= 1,
                    _ => {}
                }
                i += 1;
            }
            i += 1;
            out.push((Tok::Text(text[start + 1..i - 1].iter().collect()), base + start, base + i));
        } else {
            let two: String = text[i..text.len().min(i + 2)].iter().collect();
            let width = if ["==", "!=", "<=", ">=", "&&", "||", "->"].contains(&two.as_str()) {
                2
            } else {
                1
            };
            i += width;
            out.push((Tok::Sign(text[start..i].iter().collect()), base + start, base + i));
        }
    }
    out.push((Tok::End, base + text.len(), base + text.len()));
    out
}

struct Reader {
    toks: Vec<(Tok, usize, usize)>,
    at: usize,
    shapes: Vec<Shape>,
    hosts: Vec<String>,
}

fn span(start: usize, end: usize) -> Span {
    Span { file: 0, start: start as u32, end: end as u32 }
}

impl Reader {
    fn peek(&self) -> &Tok {
        &self.toks[self.at].0
    }

    fn start(&self) -> usize {
        self.toks[self.at].1
    }

    fn end(&self) -> usize {
        self.toks[self.at - 1].2
    }

    fn next(&mut self) -> Tok {
        self.at += 1;
        self.toks[self.at - 1].0.clone()
    }

    fn is(&self, sign: &str) -> bool {
        *self.peek() == Tok::Sign(sign.to_string())
    }

    fn is_word(&self, word: &str) -> bool {
        *self.peek() == Tok::Word(word.to_string())
    }

    fn eat(&mut self, sign: &str) -> bool {
        let found = self.is(sign);
        if found {
            self.at += 1;
        }
        found
    }

    fn need(&mut self, sign: &str) {
        assert!(self.eat(sign), "`{sign}` was expected, and {:?} stood", self.peek());
    }

    fn word(&mut self) -> String {
        match self.next() {
            Tok::Word(word) => word,
            other => panic!("a word was expected, and {other:?} stood"),
        }
    }

    fn ty(&mut self) -> Ty {
        let word = self.word();
        match word.as_str() {
            "Int" => Ty::Int,
            "Bool" => Ty::Bool,
            "Float" => Ty::Float,
            "String" => Ty::Str,
            "Unit" => Ty::Unit,
            "Duration" => Ty::Duration,
            "Result" => {
                self.need("<");
                let inner = self.ty();
                self.need(",");
                assert_eq!(self.word(), "Error");
                self.need(">");
                Ty::Result(Box::new(inner))
            }
            name => Ty::Struct(self.shape(name)),
        }
    }

    fn shape(&self, name: &str) -> usize {
        match self.shapes.iter().position(|shape| shape.name == name) {
            Some(at) => at,
            None => panic!("no struct `{name}`"),
        }
    }

    fn source(&mut self) -> Source {
        let mut defs = Vec::new();
        loop {
            match self.next() {
                Tok::End => break,
                Tok::Word(word) => match word.as_str() {
                    "use" => {
                        let module = self.word();
                        self.hosts.push(module);
                    }
                    "struct" => {
                        let name = self.word();
                        self.need("{");
                        let mut fields = Vec::new();
                        while !self.eat("}") {
                            let field = self.word();
                            self.need(":");
                            fields.push((field, self.ty()));
                        }
                        self.shapes.push(Shape { name, fields });
                    }
                    "impl" => {
                        let owner = self.word();
                        self.need("{");
                        while !self.eat("}") {
                            assert_eq!(self.word(), "fn");
                            let def = self.def(Some(&owner));
                            defs.push(def);
                        }
                    }
                    "export" => {}
                    "fn" => {
                        let def = self.def(None);
                        defs.push(def);
                    }
                    other => panic!("`{other}` begins no item"),
                },
                other => panic!("{other:?} begins no item"),
            }
        }
        Source { shapes: self.shapes.clone(), defs }
    }

    fn def(&mut self, owner: Option<&str>) -> Def {
        let start = self.start();
        let bare = self.word();
        let mut params = Vec::new();
        self.need("(");
        while !self.eat(")") {
            let name = self.word();
            match owner {
                Some(owner) if name == "self" => {
                    params.push((name, Ty::Struct(self.shape(owner))));
                }
                _ => {
                    self.need(":");
                    let ty = self.ty();
                    params.push((name, ty));
                }
            }
            self.eat(",");
        }
        self.need("->");
        let returns = self.ty();
        let body = self.block();
        let name = match owner {
            Some(owner) => format!("{owner}.{bare}"),
            None => bare,
        };
        Def { name, params, returns, body, span: span(start, self.end()) }
    }

    fn block(&mut self) -> Vec<Stmt> {
        self.need("{");
        let mut out = Vec::new();
        while !self.eat("}") {
            let stmt = self.stmt();
            out.push(stmt);
        }
        out
    }

    fn stmt(&mut self) -> Stmt {
        if self.is_word("var") || self.is_word("let") {
            self.at += 1;
            let name = self.word();
            self.need("=");
            return Stmt::Var(name, self.expr());
        }
        if self.is_word("while") {
            self.at += 1;
            let cond = self.expr();
            return Stmt::While(cond, self.block());
        }
        let target = self.expr();
        if self.eat("=") {
            let value = self.expr();
            return match target.node {
                Node::Name(name) => Stmt::Assign(name, value),
                Node::Field(of, field) => match of.node {
                    Node::Name(name) => Stmt::AssignField(name, field, value),
                    other => panic!("{other:?} cannot be written through"),
                },
                other => panic!("{other:?} cannot be assigned"),
            };
        }
        Stmt::Expr(target)
    }

    fn expr(&mut self) -> Expr {
        self.binary(0)
    }

    fn binary(&mut self, level: usize) -> Expr {
        let levels: [&[&str]; 5] = [
            &["||"],
            &["&&"],
            &["==", "!=", "<", "<=", ">", ">="],
            &["+", "-"],
            &["*", "/", "%"],
        ];
        if level == levels.len() {
            return self.postfix();
        }
        let mut left = self.binary(level + 1);
        while let Tok::Sign(sign) = self.peek().clone() {
            if !levels[level].contains(&sign.as_str()) {
                break;
            }
            self.at += 1;
            let right = self.binary(level + 1);
            let place = span(left.span.start as usize, right.span.end as usize);
            left = Expr { node: Node::Binary(sign, Box::new(left), Box::new(right)), span: place };
        }
        left
    }

    fn arguments(&mut self) -> Vec<Expr> {
        let mut args = Vec::new();
        while !self.eat(")") {
            args.push(self.expr());
            self.eat(",");
        }
        args
    }

    fn postfix(&mut self) -> Expr {
        let start = self.start();
        let mut expr = self.primary();
        loop {
            if self.eat("?") {
                expr = Expr { node: Node::Try(Box::new(expr)), span: span(start, self.end()) };
            } else if self.eat(".") {
                let name = self.word();
                let node = if self.eat("(") {
                    let args = self.arguments();
                    match &expr.node {
                        Node::Name(module) if self.hosts.contains(module) => {
                            Node::Host(module.clone(), name, args)
                        }
                        _ => Node::Method(Box::new(expr), name, args),
                    }
                } else {
                    Node::Field(Box::new(expr), name)
                };
                expr = Expr { node, span: span(start, self.end()) };
            } else {
                return expr;
            }
        }
    }

    fn primary(&mut self) -> Expr {
        let start = self.start();
        let node = match self.next() {
            Tok::Number(text) => {
                if let Some(count) = text.strip_suffix("ms") {
                    Node::Duration(count.parse::<i64>().expect("a count") * 1_000_000)
                } else if text.contains('.') {
                    Node::Float(text)
                } else {
                    Node::Int(text.parse::<i64>().expect("a number"))
                }
            }
            Tok::Text(text) => Node::Str(self.pieces(&text, start + 1)),
            Tok::Sign(sign) if sign == "(" => {
                if self.eat(")") {
                    Node::Unit
                } else {
                    let inner = self.expr();
                    self.need(")");
                    return inner;
                }
            }
            Tok::Word(word) => match word.as_str() {
                "true" => Node::Bool(true),
                "false" => Node::Bool(false),
                "if" => {
                    let cond = self.expr();
                    let yes = self.block();
                    assert_eq!(self.word(), "else");
                    Node::If(Box::new(cond), yes, self.block())
                }
                "Ok" => {
                    self.need("(");
                    let inner = self.expr();
                    self.need(")");
                    Node::Fine(Box::new(inner))
                }
                name if self.is("(") => {
                    self.at += 1;
                    if self.shapes.iter().any(|shape| shape.name == name) {
                        let of = self.shape(name);
                        let mut given = BTreeMap::new();
                        while !self.eat(")") {
                            let field = self.word();
                            self.need(":");
                            given.insert(field, self.expr());
                            self.eat(",");
                        }
                        let names: Vec<String> =
                            self.shapes[of].fields.iter().map(|f| f.0.clone()).collect();
                        let fields = names
                            .iter()
                            .map(|name| given.remove(name).expect("every field is given"))
                            .collect();
                        Node::Make(of, fields)
                    } else {
                        Node::Call(name.to_string(), self.arguments())
                    }
                }
                name => Node::Name(name.to_string()),
            },
            other => panic!("{other:?} begins no expression"),
        };
        Expr { node, span: span(start, self.end()) }
    }

    fn pieces(&mut self, text: &str, base: usize) -> Vec<Piece> {
        let chars: Vec<char> = text.chars().collect();
        let mut out = Vec::new();
        let mut held = String::new();
        let mut i = 0;
        while i < chars.len() {
            if chars[i] != '{' {
                held.push(chars[i]);
                i += 1;
                continue;
            }
            let close = i + chars[i..].iter().position(|c| *c == '}').expect("the hole closes");
            if !held.is_empty() {
                out.push(Piece::Text(held));
                held = String::new();
            }
            let mut inner = Reader {
                toks: tokens(&chars[i + 1..close], base + i + 1),
                at: 0,
                shapes: self.shapes.clone(),
                hosts: self.hosts.clone(),
            };
            out.push(Piece::Hole(inner.expr()));
            i = close + 1;
        }
        if !held.is_empty() || out.is_empty() {
            out.push(Piece::Text(held));
        }
        out
    }
}

fn read(source: &str) -> Source {
    let chars: Vec<char> = source.chars().collect();
    let mut reader =
        Reader { toks: tokens(&chars, 0), at: 0, shapes: Vec::new(), hosts: Vec::new() };
    reader.source()
}

// ----------------------------------------------------------------- lowering

struct Lowering<'a> {
    source: &'a Source,
    constants: Vec<Const>,
    code: Vec<Inst>,
    spans: Vec<Span>,
    scope: Vec<(String, u32, Ty)>,
    slots: Vec<SlotKind>,
}

fn int_op(sign: &str) -> IntOp {
    match sign {
        "+" => IntOp::Add,
        "-" => IntOp::Sub,
        "*" => IntOp::Mul,
        "/" => IntOp::Div,
        "%" => IntOp::Rem,
        "==" => IntOp::Eq,
        "!=" => IntOp::Ne,
        "<" => IntOp::Lt,
        "<=" => IntOp::Le,
        ">" => IntOp::Gt,
        _ => IntOp::Ge,
    }
}

fn binary_op(sign: &str) -> BinaryOp {
    match sign {
        "+" => BinaryOp::Add,
        "-" => BinaryOp::Sub,
        "*" => BinaryOp::Mul,
        "/" => BinaryOp::Div,
        "%" => BinaryOp::Rem,
        "==" => BinaryOp::Eq,
        "!=" => BinaryOp::Ne,
        "<" => BinaryOp::Lt,
        "<=" => BinaryOp::Le,
        ">" => BinaryOp::Gt,
        _ => BinaryOp::Ge,
    }
}

fn is_comparison(sign: &str) -> bool {
    ["==", "!=", "<", "<=", ">", ">="].contains(&sign)
}

impl<'a> Lowering<'a> {
    fn emit(&mut self, inst: Inst, at: Span) -> usize {
        self.code.push(inst);
        self.spans.push(at);
        self.code.len() - 1
    }

    fn constant(&mut self, constant: Const) -> ConstId {
        self.constants.push(constant);
        ConstId(self.constants.len() as u32 - 1)
    }

    fn name(&mut self, text: &str) -> ConstId {
        self.constant(Const::Name(text.to_string()))
    }

    fn local(&self, name: &str) -> (u32, Ty) {
        match self.scope.iter().rev().find(|held| held.0 == name) {
            Some(held) => (held.1, held.2.clone()),
            None => panic!("no local `{name}`"),
        }
    }

    fn declare(&mut self, name: &str, ty: Ty) -> u32 {
        let slot = self.slots.len() as u32;
        self.slots.push(ty.slot());
        self.scope.push((name.to_string(), slot, ty));
        slot
    }

    fn def(&self, name: &str) -> (u32, &'a Def) {
        match self.source.defs.iter().position(|def| def.name == name) {
            Some(at) => (at as u32, &self.source.defs[at]),
            None => panic!("no function `{name}`"),
        }
    }

    fn field(&self, of: &Expr, name: &str) -> (usize, usize, Ty) {
        let Ty::Struct(shape) = self.ty(of) else {
            panic!("{of:?} has no fields");
        };
        let fields = &self.source.shapes[shape].fields;
        match fields.iter().position(|field| field.0 == name) {
            Some(at) => (shape, at, fields[at].1.clone()),
            None => panic!("no field `{name}`"),
        }
    }

    fn method(&self, of: &Expr, name: &str) -> Option<String> {
        match self.ty(of) {
            Ty::Struct(shape) => Some(format!("{}.{name}", self.source.shapes[shape].name)),
            _ => None,
        }
    }

    fn ty(&self, expr: &Expr) -> Ty {
        match &expr.node {
            Node::Int(_) => Ty::Int,
            Node::Bool(_) => Ty::Bool,
            Node::Float(_) => Ty::Float,
            Node::Duration(_) => Ty::Duration,
            Node::Unit => Ty::Unit,
            Node::Str(_) => Ty::Str,
            Node::Name(name) => self.local(name).1,
            Node::Binary(sign, left, _) => {
                if is_comparison(sign) || sign == "&&" || sign == "||" {
                    Ty::Bool
                } else {
                    self.ty(left)
                }
            }
            Node::Call(name, _) => self.def(name).1.returns.clone(),
            Node::Make(of, _) => Ty::Struct(*of),
            Node::Field(of, name) => self.field(of, name).2,
            Node::Method(of, name, _) => match self.method(of, name) {
                Some(method) => self.def(&method).1.returns.clone(),
                None => Ty::Int,
            },
            Node::Host(_, op, _) => Ty::Result(Box::new(match op.as_str() {
                "int" | "many" => Ty::Int,
                "bool" => Ty::Bool,
                "text" => Ty::Str,
                _ => Ty::Unit,
            })),
            Node::Try(inner) => match self.ty(inner) {
                Ty::Result(payload) => *payload,
                other => panic!("`?` over {other:?}"),
            },
            Node::Fine(inner) => Ty::Result(Box::new(self.ty(inner))),
            Node::If(_, yes, _) => match yes.last() {
                Some(Stmt::Expr(last)) => self.ty(last),
                _ => Ty::Unit,
            },
        }
    }

    fn call(&mut self, name: &str, receiver: Option<&Expr>, args: &[Expr], at: Span) {
        let (id, def) = self.def(name);
        let mut scalars = 0;
        let mut values = 0;
        let all = receiver.into_iter().chain(args.iter());
        for (arg, param) in all.zip(def.params.iter()) {
            if param.1.scalar().is_some() {
                self.scalar(arg);
                scalars += 1;
            } else {
                self.value(arg);
                values += 1;
            }
        }
        self.emit(
            Inst::Call {
                function: FunctionId(id),
                scalar_argc: scalars,
                value_argc: values,
                place_argc: 0,
            },
            at,
        );
    }

    /// Leaves the expression on the stack as a settled word.
    fn scalar(&mut self, expr: &Expr) {
        let at = expr.span;
        match &expr.node {
            Node::Int(n) => {
                self.emit(Inst::ScalarConst(*n), at);
            }
            Node::Bool(b) => {
                self.emit(Inst::ScalarConst(i64::from(*b)), at);
            }
            Node::Name(name) => {
                let slot = self.local(name).0;
                self.emit(Inst::LoadScalar(slot), at);
            }
            Node::Binary(sign, left, right) if sign == "&&" || sign == "||" => {
                self.scalar(left);
                let short = self.emit(Inst::Jump(0), at);
                self.scalar(right);
                let over = self.emit(Inst::Jump(0), at);
                let other = self.code.len() as u32;
                self.code[short] = if sign == "&&" {
                    Inst::JumpIfFalseScalar(other)
                } else {
                    Inst::JumpIfTrueScalar(other)
                };
                self.emit(Inst::ScalarConst(i64::from(sign == "||")), at);
                self.code[over] = Inst::Jump(self.code.len() as u32);
            }
            Node::Binary(sign, left, right) => {
                if self.ty(left).scalar().is_some() {
                    self.scalar(left);
                    self.scalar(right);
                    self.emit(Inst::IntBinary(int_op(sign)), at);
                } else {
                    self.value(left);
                    self.value(right);
                    self.emit(Inst::Binary(binary_op(sign)), at);
                    self.emit(Inst::ValueToScalar, at);
                }
            }
            Node::Call(name, args) => self.call(name, None, args, at),
            Node::Field(of, name) => {
                let (_, place, _) = self.field(of, name);
                self.value(of);
                self.emit(Inst::GetFieldAtScalar(place as u32), at);
            }
            Node::Method(of, name, args) => match self.method(of, name) {
                Some(method) => self.call(&method, Some(of), args, at),
                None => {
                    self.value(of);
                    for arg in args {
                        self.value(arg);
                    }
                    let name = self.name(name);
                    self.emit(Inst::CallBuiltin { name, argc: args.len() as u32 }, at);
                    self.emit(Inst::ValueToScalar, at);
                }
            },
            Node::If(cond, yes, no) => {
                self.scalar(cond);
                let skip = self.emit(Inst::Jump(0), at);
                self.block(yes, true);
                let over = self.emit(Inst::Jump(0), at);
                self.code[skip] = Inst::JumpIfFalseScalar(self.code.len() as u32);
                self.block(no, true);
                self.code[over] = Inst::Jump(self.code.len() as u32);
            }
            Node::Try(_) => {
                self.value(expr);
                self.emit(Inst::ValueToScalar, at);
            }
            other => panic!("{other:?} is no settled word"),
        }
    }

    /// Leaves the expression on the stack as a value.
    fn value(&mut self, expr: &Expr) {
        let at = expr.span;
        match &expr.node {
            Node::Int(n) => {
                let id = self.constant(Const::Int(*n));
                self.emit(Inst::Const(id), at);
            }
            Node::Bool(b) => {
                let id = self.constant(Const::Bool(*b));
                self.emit(Inst::Const(id), at);
            }
            Node::Float(text) => {
                let number = text.parse::<f64>().expect("a float");
                let id = self
                    .constant(Const::Float { bits: number.to_bits(), shown: number.to_string() });
                self.emit(Inst::Const(id), at);
            }
            Node::Duration(nanos) => {
                let id = self.constant(Const::Duration(*nanos));
                self.emit(Inst::Const(id), at);
            }
            Node::Unit => {
                let id = self.constant(Const::Unit);
                self.emit(Inst::Const(id), at);
            }
            Node::Str(pieces) => {
                for piece in pieces {
                    match piece {
                        Piece::Text(text) => {
                            let id = self.constant(Const::Str(text.clone()));
                            self.emit(Inst::Const(id), at);
                        }
                        Piece::Hole(inner) => self.value(inner),
                    }
                }
                if pieces.len() != 1 || matches!(pieces[0], Piece::Hole(_)) {
                    self.emit(Inst::Concat(pieces.len() as u32), at);
                }
            }
            Node::Make(of, fields) => {
                for field in fields {
                    self.value(field);
                }
                self.emit(Inst::MakeStruct(StructId(*of as u32)), at);
            }
            Node::Field(of, name) => {
                let (shape, place, _) = self.field(of, name);
                self.value(of);
                self.emit(
                    Inst::GetFieldAt { of: StructId(shape as u32), at: place as u32 },
                    at,
                );
            }
            Node::Host(module, op, args) => {
                for arg in args {
                    self.value(arg);
                }
                let module = self.name(module);
                let op = self.name(op);
                self.emit(Inst::CallHost { module, op, argc: args.len() as u32 }, at);
            }
            Node::Try(inner) => {
                self.value(inner);
                let payload = self.ty(expr).slot();
                self.emit(Inst::Try { payload }, at);
            }
            Node::Fine(inner) => {
                self.value(inner);
                let name = self.name("Ok");
                self.emit(Inst::MakeBuiltin { name, argc: 1 }, at);
            }
            Node::Binary(sign, left, right)
                if self.ty(left).scalar().is_none() && !is_comparison(sign) =>
            {
                self.value(left);
                self.value(right);
                self.emit(Inst::Binary(binary_op(sign)), at);
            }
            Node::Name(name) if self.local(name).1.scalar().is_none() => {
                let slot = self.local(name).0;
                self.emit(Inst::LoadLocal(slot), at);
            }
            Node::Call(name, args) if self.ty(expr).scalar().is_none() => {
                self.call(name, None, args, at);
            }
            _ => {
                let kind = self.ty(expr).scalar().expect("what is left is a settled word");
                self.scalar(expr);
                self.emit(Inst::ScalarToValue(kind), at);
            }
        }
    }

    fn store(&mut self, slot: u32, ty: &Ty, value: &Expr) {
        if ty.scalar().is_some() {
            self.scalar(value);
            self.emit(Inst::StoreScalar(slot), value.span);
        } else {
            self.value(value);
            self.emit(Inst::StoreLocal(slot), value.span);
        }
    }

    /// Lowers statements, and leaves the last one's value where it is asked
    /// for.
    fn block(&mut self, stmts: &[Stmt], wanted: bool) {
        let mark = self.scope.len();
        for (i, stmt) in stmts.iter().enumerate() {
            let last = i + 1 == stmts.len();
            match stmt {
                Stmt::Var(name, value) => {
                    let ty = self.ty(value);
                    if ty.scalar().is_some() {
                        self.scalar(value);
                        let slot = self.declare(name, ty);
                        self.emit(Inst::StoreScalar(slot), value.span);
                    } else {
                        self.value(value);
                        let slot = self.declare(name, ty);
                        self.emit(Inst::StoreLocal(slot), value.span);
                    }
                }
                Stmt::Assign(name, value) => {
                    let (slot, ty) = self.local(name);
                    self.store(slot, &ty, value);
                }
                Stmt::AssignField(name, field, value) => {
                    let (slot, _) = self.local(name);
                    self.emit(Inst::LoadLocal(slot), value.span);
                    self.value(value);
                    let field = self.name(field);
                    self.emit(Inst::SetField(field), value.span);
                    self.emit(Inst::StoreLocal(slot), value.span);
                }
                Stmt::While(cond, body) => {
                    let top = self.code.len() as u32;
                    self.scalar(cond);
                    let out = self.emit(Inst::Jump(0), cond.span);
                    self.block(body, false);
                    self.emit(Inst::Jump(top), cond.span);
                    self.code[out] = Inst::JumpIfFalseScalar(self.code.len() as u32);
                }
                Stmt::Expr(expr) => {
                    let scalar = self.ty(expr).scalar().is_some();
                    if last && wanted {
                        if scalar {
                            self.scalar(expr);
                        } else {
                            self.value(expr);
                        }
                    } else {
                        self.value(expr);
                        self.emit(Inst::Pop, expr.span);
                    }
                }
            }
        }
        self.scope.truncate(mark);
    }
}

/// How many instructions each block runs, at its head.
fn fuel_of(code: &[Inst]) -> Vec<u32> {
    let mut heads = vec![false; code.len() + 1];
    heads[0] = true;
    for (pc, inst) in code.iter().enumerate() {
        match inst {
            Inst::Jump(to)
            | Inst::JumpIfFalse(to)
            | Inst::JumpIfTrue(to)
            | Inst::JumpIfFalseScalar(to)
            | Inst::JumpIfTrueScalar(to) => {
                heads[*to as usize] = true;
                heads[pc + 1] = true;
            }
            Inst::Return | Inst::ReturnScalar => heads[pc + 1] = true,
            _ => {}
        }
    }
    let mut fuel = vec![0; code.len()];
    let mut head = 0;
    for pc in 0..code.len() {
        if heads[pc] {
            head = pc;
        }
        fuel[head] += 1;
    }
    fuel
}

fn lower(source: &Source) -> Program {
    let mut constants = Vec::new();
    let mut functions = Vec::new();
    for def in &source.defs {
        let mut lowering = Lowering {
            source,
            constants,
            code: Vec::new(),
            spans: Vec::new(),
            scope: Vec::new(),
            slots: Vec::new(),
        };
        for (name, ty) in &def.params {
            lowering.declare(name, ty.clone());
        }
        lowering.block(&def.body, true);
        if def.returns.scalar().is_some() {
            lowering.emit(Inst::ReturnScalar, def.span);
        } else {
            lowering.emit(Inst::Return, def.span);
        }
        functions.push(Function {
            module: "m".to_string(),
            name: def.name.clone(),
            span: def.span,
            params: def.params.iter().map(|param| param.1.slot()).collect(),
            slots: lowering.slots,
            returns: def.returns.slot(),
            place_frame_size: 0,
            captures: 0,
            answers_a_task: false,
            block_fuel: fuel_of(&lowering.code),
            code: lowering.code,
            spans: lowering.spans,
        });
        constants = lowering.constants;
    }
    let structs = source
        .shapes
        .iter()
        .map(|shape| StructType {
            name: format!("m.{}", shape.name),
            fields: shape
                .fields
                .iter()
                .map(|field| Field { name: field.0.clone(), kind: field.1.slot() })
                .collect(),
        })
        .collect();
    let program =
        Program { functions, structs, enums: Vec::new(), constants, hosts: shipped_schema() };
    assert!(validate(&program), "the lowering holds the invariants");
    program
}

// --------------------------------------------------------------- evaluating

#[derive(Clone, Debug, PartialEq)]
enum Val {
    Int(i64),
    Bool(bool),
    Float(f64),
    Str(String),
    Unit,
    Struct(usize, Vec<Val>),
    Fine(Box<Val>),
    Failed(String),
}

enum Stop {
    Raised(String, Span),
    Returned(Val),
}

struct Walker<'a> {
    source: &'a Source,
    grant: bool,
}

impl Walker<'_> {
    fn def(&self, name: &str) -> &Def {
        match self.source.defs.iter().find(|def| def.name == name) {
            Some(def) => def,
            None => panic!("no function `{name}`"),
        }
    }

    fn call(&self, name: &str, args: Vec<Val>) -> Result<Val, Stop> {
        let def = self.def(name);
        let mut env: Vec<(String, Val)> =
            def.params.iter().zip(args).map(|(param, arg)| (param.0.clone(), arg)).collect();
        match self.block(&def.body, &mut env) {
            Err(Stop::Returned(value)) => Ok(value),
            other => other,
        }
    }

    fn block(&self, stmts: &[Stmt], env: &mut Vec<(String, Val)>) -> Result<Val, Stop> {
        let mark = env.len();
        let mut answer = Val::Unit;
        for stmt in stmts {
            answer = Val::Unit;
            match stmt {
                Stmt::Var(name, value) => {
                    let value = self.expr(value, env)?;
                    env.push((name.clone(), value));
                }
                Stmt::Assign(name, value) => {
                    let value = self.expr(value, env)?;
                    *place(env, name) = value;
                }
                Stmt::AssignField(name, field, value) => {
                    let value = self.expr(value, env)?;
                    if let Val::Struct(of, fields) = place(env, name) {
                        let at = self.at(*of, field);
                        fields[at] = value;
                    }
                }
                Stmt::While(cond, body) => {
                    while self.expr(cond, env)? == Val::Bool(true) {
                        self.block(body, env)?;
                    }
                }
                Stmt::Expr(expr) => answer = self.expr(expr, env)?,
            }
        }
        env.truncate(mark);
        Ok(answer)
    }

    fn at(&self, of: usize, field: &str) -> usize {
        self.source.shapes[of]
            .fields
            .iter()
            .position(|held| held.0 == field)
            .expect("the struct has the field")
    }

    fn expr(&self, expr: &Expr, env: &mut Vec<(String, Val)>) -> Result<Val, Stop> {
        match &expr.node {
            Node::Int(n) => Ok(Val::Int(*n)),
            Node::Bool(b) => Ok(Val::Bool(*b)),
            Node::Float(text) => Ok(Val::Float(text.parse().expect("a float"))),
            Node::Unit => Ok(Val::Unit),
            Node::Str(pieces) => {
                let mut out = String::new();
                for piece in pieces {
                    match piece {
                        Piece::Text(text) => out.push_str(text),
                        Piece::Hole(inner) => match self.expr(inner, env)? {
                            Val::Int(n) => out.push_str(&n.to_string()),
                            Val::Bool(b) => out.push_str(&b.to_string()),
                            Val::Float(f) => out.push_str(&f.to_string()),
                            Val::Str(text) => out.push_str(&text),
                            other => panic!("{other:?} is not shown"),
                        },
                    }
                }
                Ok(Val::Str(out))
            }
            Node::Name(name) => Ok(place(env, name).clone()),
            Node::Binary(sign, left, right) => {
                let left = self.expr(left, env)?;
                if sign == "&&" && left == Val::Bool(false) {
                    return Ok(left);
                }
                if sign == "||" && left == Val::Bool(true) {
                    return Ok(left);
                }
                let right = self.expr(right, env)?;
                match (left, right) {
                    (Val::Int(a), Val::Int(b)) => {
                        reckoned(sign, a, b).map_err(|why| Stop::Raised(why, expr.span))
                    }
                    (Val::Str(a), Val::Str(b)) => Ok(Val::Bool(ordered(sign, &a, &b))),
                    (Val::Bool(_), Val::Bool(b)) => Ok(Val::Bool(b)),
                    other => panic!("{other:?} under `{sign}`"),
                }
            }
            Node::Call(name, args) => {
                let mut values = Vec::new();
                for arg in args {
                    values.push(self.expr(arg, env)?);
                }
                self.call(name, values)
            }
            Node::Make(of, fields) => {
                let mut values = Vec::new();
                for field in fields {
                    values.push(self.expr(field, env)?);
                }
                Ok(Val::Struct(*of, values))
            }
            Node::Field(of, name) => match self.expr(of, env)? {
                Val::Struct(shape, fields) => Ok(fields[self.at(shape, name)].clone()),
                other => panic!("{other:?} has no fields"),
            },
            Node::Method(of, name, args) => {
                let receiver = self.expr(of, env)?;
                let Val::Struct(shape, _) = &receiver else {
                    panic!("{receiver:?} has no methods");
                };
                let method = format!("{}.{name}", self.source.shapes[*shape].name);
                let mut values = vec![receiver];
                for arg in args {
                    values.push(self.expr(arg, env)?);
                }
                self.call(&method, values)
            }
            Node::Host(_, op, args) => {
                let mut values = Vec::new();
                for arg in args {
                    values.push(self.expr(arg, env)?);
                }
                if !self.grant {
                    return Err(Stop::Raised("ungranted".to_string(), expr.span));
                }
                Ok(match op.as_str() {
                    "unit" => Val::Fine(Box::new(Val::Unit)),
                    "many" => Val::Fine(Box::new(Val::Int(values.len() as i64))),
                    "fails" => Val::Failed("echo.fails always fails".to_string()),
                    _ => Val::Fine(Box::new(values.remove(0))),
                })
            }
            Node::Try(inner) => match self.expr(inner, env)? {
                Val::Fine(value) => Ok(*value),
                failed => Err(Stop::Returned(failed)),
            },
            Node::Fine(inner) => Ok(Val::Fine(Box::new(self.expr(inner, env)?))),
            Node::If(cond, yes, no) => {
                if self.expr(cond, env)? == Val::Bool(true) {
                    self.block(yes, env)
                } else {
                    self.block(no, env)
                }
            }
            Node::Duration(_) => panic!("a duration is not evaluated"),
        }
    }
}

fn place<'e>(env: &'e mut [(String, Val)], name: &str) -> &'e mut Val {
    match env.iter_mut().rev().find(|held| held.0 == name) {
        Some(held) => &mut held.1,
        None => panic!("no local `{name}`"),
    }
}

fn reckoned(sign: &str, a: i64, b: i64) -> Result<Val, String> {
    let (answer, named) = match sign {
        "+" => (a.checked_add(b), "addition"),
        "-" => (a.checked_sub(b), "subtraction"),
        "*" => (a.checked_mul(b), "multiplication"),
        "/" if b == 0 => return Err("division by zero".to_string()),
        "/" => (a.checked_div(b), "division"),
        "%" if b == 0 => return Err("remainder by zero".to_string()),
        "%" => (a.checked_rem(b), "remainder"),
        _ => return Ok(Val::Bool(ordered(sign, &a, &b))),
    };
    match answer {
        Some(n) => Ok(Val::Int(n)),
        None => Err(format!("integer overflow in {named}")),
    }
}

fn ordered<T: PartialOrd>(sign: &str, a: &T, b: &T) -> bool {
    match sign {
        "==" => a == b,
        "!=" => a != b,
        "<" => a < b,
        "<=" => a <= b,
        ">" => a > b,
        _ => a >= b,
    }
}

fn crossed(val: &Val) -> Value {
    match val {
        Val::Int(n) => Value::Int(*n),
        Val::Bool(b) => Value::Bool(*b),
        Val::Float(f) => Value::Float { bits: f.to_bits(), shown: f.to_string() },
        Val::Str(text) => Value::Str(text.clone()),
        Val::Unit => Value::Unit,
        Val::Fine(inner) => Value::ok(crossed(inner)),
        Val::Failed(message) => Value::err(Value::error(message.clone())),
        Val::Struct(..) => panic!("a struct does not cross"),
    }
}

// ------------------------------------------------------------------ running

#[derive(Debug, PartialEq, Eq)]
enum Outcome {
    Answered(String),
    Raised { message: String, span: Option<Span> },
}

fn outcome(pause: Pause) -> Outcome {
    match pause {
        Pause::Answered(value) => Outcome::Answered(format!("{value:?}")),
        Pause::Raised(error) => Outcome::Raised { message: error.message, span: error.span },
        other => panic!("the run came to {other:?}"),
    }
}

fn operation(name: &str, params: Vec<HostType>, variadic: bool, answer: HostType) -> OperationSchema {
    OperationSchema {
        name: name.to_string(),
        params,
        variadic,
        result: HostType::Result(Box::new(answer), Box::new(HostType::Error)),
        capability: "echo".to_string(),
        effect: Effect::Read,
        cancellable: false,
        recordable: true,
        result_is_task_safe: true,
    }
}

fn echo_schema() -> ModuleSchema {
    ModuleSchema {
        name: "echo".to_string(),
        capability: "echo".to_string(),
        operations: vec![
            operation("unit", vec![], false, HostType::Unit),
            operation("int", vec![HostType::Int], false, HostType::Int),
            operation("bool", vec![HostType::Bool], false, HostType::Bool),
            operation("text", vec![HostType::String], false, HostType::String),
            operation("many", vec![HostType::Any], true, HostType::Int),
            operation("fails", vec![], false, HostType::Unit),
        ],
        types: vec![],
        resources: vec![],
    }
}

struct Echo;

impl HostApi for Echo {
    fn module_schema(&self) -> ModuleSchema {
        echo_schema()
    }

    fn call(&mut self, op: &str, mut args: Vec<Value>) -> Result<Value, RuntimeError> {
        match op {
            "unit" => Ok(Value::ok(Value::Unit)),
            "int" | "bool" | "text" => {
                let value = args.pop().expect("this operation takes one argument");
                Ok(Value::ok(value))
            }
            "many" => Ok(Value::ok(Value::Int(args.len() as i64))),
            "fails" => Ok(Value::err(Value::error("echo.fails always fails".to_string()))),
            _ => unreachable!("no such operation is declared"),
        }
    }
}

fn echo_hosts(grant: bool) -> HostRegistry {
    let capabilities = if grant { vec!["echo".to_string()] } else { Vec::new() };
    let mut hosts = HostRegistry::new(Grants::new(capabilities));
    hosts.register(Box::new(Echo));
    hosts
}

const SLICE: u64 = 4096;

/// Runs `m.main` to its end, handing every host call to the registry.
fn drive(vm: &mut FrameVm, hosts: &mut HostRegistry) -> Outcome {
    let mut pause = vm.run_entry("m", "main", SLICE);
    loop {
        pause = match pause {
            Pause::Yielded => vm.execute(SLICE),
            Pause::Host { module, op, arguments, .. } => {
                let reply = hosts.call(&module, &op, arguments);
                vm.answer_host(reply.result, SLICE)
            }
            other => return outcome(other),
        };
    }
}

struct Ready {
    source: Source,
    ir: Program,
}

struct Collected {
    outcome: Outcome,
    collections: u64,
    roots_yielded: u64,
    expansions: u64,
    marked: u64,
    most_roots_at_once: u64,
    most_expansions_at_once: u64,
    rooted_outside_the_stack: usize,
    heap: HeapStats,
}

impl Ready {
    fn walked(&self, grant: bool) -> Outcome {
        let walker = Walker { source: &self.source, grant };
        match walker.call("main", Vec::new()) {
            Ok(val) => Outcome::Answered(format!("{:?}", crossed(&val))),
            Err(Stop::Raised(message, span)) => Outcome::Raised { message, span: Some(span) },
            Err(Stop::Returned(_)) => unreachable!("`call` takes a return"),
        }
    }

    fn on_frame(&self) -> Outcome {
        self.on_frame_with(None)
    }

    fn on_frame_with(&self, budget: Option<Budget>) -> Outcome {
        let mut vm = FrameVm::new(&self.ir, budget);
        drive(&mut vm, &mut echo_hosts(true))
    }

    fn on_frame_collecting(&self) -> Collected {
        let mut vm = FrameVm::new(&self.ir, None);
        vm.stress();
        let outcome = drive(&mut vm, &mut echo_hosts(true));
        let (collections, roots_yielded, expansions) = vm.collections();
        Collected {
            outcome,
            collections,
            roots_yielded,
            expansions,
            marked: vm.marked(),
            most_roots_at_once: vm.most_roots_at_once(),
            most_expansions_at_once: vm.most_expansions_at_once(),
            rooted_outside_the_stack: vm.rooted_outside_the_stack(),
            heap: vm.heap_stats(),
        }
    }

    fn admitted(&self) -> Result<FunctionId, Refused> {
        admits(&self.ir, "m", "main")
    }
}

fn ready(source: &str) -> Ready {
    let source = read(source);
    let ir = lower(&source);
    Ready { source, ir }
}

fn agree(source: &str) -> Ready {
    let ready = ready(source);
    assert_eq!(
        ready.walked(true),
        ready.on_frame(),
        "the tree and the 8-byte frame disagreed for:\n{source}"
    );
    ready
}

/// Runs a program that calls `echo`, once where nothing is known of what it
/// answers and once where its schema is.
fn agree_with_echo(source: &str, grant: bool) -> Outcome {
    let mut ready = ready(source);
    let mut vm = FrameVm::new(&ready.ir, None);
    let frame = drive(&mut vm, &mut echo_hosts(grant));
    if grant {
        assert_eq!(
            ready.walked(true),
            frame,
            "the tree and the 8-byte frame disagreed for:\n{source}"
        );
    }
    ready.ir.hosts.push(echo_schema());
    let mut vm = FrameVm::new(&ready.ir, None);
    let known = drive(&mut vm, &mut echo_hosts(grant));
    assert_eq!(frame, known, "a known answer changed what the program came to:\n{source}");
    frame
}

fn answered(value: Value) -> Outcome {
    Outcome::Answered(format!("{value:?}"))
}

fn main_of(ty: &str, body: &str) -> String {
    format!("export fn main() -> {ty} {{\n{body}\n}}\n")
}

/// A program of one function, written as instructions.
fn assembled(returns: SlotKind, slots: Vec<SlotKind>, constants: Vec<Const>, code: Vec<Inst>) -> Program {
    let at = span(0, 1);
    let program = Program {
        functions: vec![Function {
            module: "m".to_string(),
            name: "main".to_string(),
            span: at,
            params: vec![],
            slots,
            returns,
            place_frame_size: 0,
            captures: 0,
            answers_a_task: false,
            block_fuel: fuel_of(&code),
            spans: vec![at; code.len()],
            code,
        }],
        structs: vec![],
        enums: vec![],
        constants,
        hosts: vec![],
    };
    assert!(validate(&program), "the program holds the invariants");
    program
}

// -------------------------------------------------------------------- words

#[test]
fn the_extremes_of_int_survive_a_frame() {
    for (literal, expected) in [
        ("0 - 9223372036854775807 - 1", i64::MIN),
        ("9223372036854775807", i64::MAX),
        ("0", 0),
        ("0 - 1", -1),
    ] {
        let ready = agree(&format!(
            "fn through(value: Int) -> Int {{\n  value\n}}\n\n{}",
            main_of("Int", &format!("  through({literal})"))
        ));
        assert_eq!(ready.on_frame(), answered(Value::Int(expected)));
    }
}

#[test]
fn arithmetic_that_has_no_answer_raises_identically() {
    for (body, expected) in [
        ("  9223372036854775807 + one()", "addition"),
        ("  (0 - 9223372036854775807 - 1) - one()", "subtraction"),
        ("  9223372036854775807 * two()", "multiplication"),
        ("  (0 - 9223372036854775807 - 1) / minusOne()", "division"),
        ("  one() / zero()", "division"),
        ("  one() % zero()", "remainder"),
    ] {
        let ready = agree(&format!(
            "fn one() -> Int {{\n  1\n}}\n\nfn two() -> Int {{\n  2\n}}\n\n\
             fn zero() -> Int {{\n  0\n}}\n\nfn minusOne() -> Int {{\n  0 - 1\n}}\n\n{}",
            main_of("Int", body)
        ));
        let Outcome::Raised { message, span } = ready.on_frame() else {
            panic!("`{body}` raises");
        };
        assert!(
            message.contains(expected),
            "`{body}` raised `{message}`, which does not name {expected}"
        );
        assert!(span.is_some(), "a runtime error points at source");
    }
}

#[test]
fn the_two_failures_checked_div_cannot_tell_apart_stay_apart() {
    let ready = agree(
        "fn minusOne() -> Int {\n  0 - 1\n}\n\n\
         export fn main() -> Int {\n  (0 - 9223372036854775807 - 1) % minusOne()\n}\n",
    );
    let Outcome::Raised { message, .. } = ready.on_frame() else {
        panic!("it raises");
    };
    assert!(
        message.contains("remainder") && !message.contains("zero"),
        "it raised `{message}`"
    );
}

#[test]
fn a_bool_is_canonical_through_a_frame() {
    for (expr, expected) in [
        ("1 < 2", true),
        ("2 < 1", false),
        ("1 == 1", true),
        ("1 != 1", false),
        ("1 <= 1", true),
        ("1 >= 2", false),
        ("1 > 0", true),
    ] {
        let ready = agree(&format!(
            "fn through(value: Bool) -> Bool {{\n  value\n}}\n\n{}",
            main_of("Bool", &format!("  through({expr})"))
        ));
        assert_eq!(ready.on_frame(), answered(Value::Bool(expected)));
    }
}

#[test]
fn the_two_canonical_bool_words_round_trip() {
    assert_eq!(Word::of_bool(false), 0);
    assert_eq!(Word::of_bool(true), 1);
    assert!(!Word::canonical_bool(0));
    assert!(Word::canonical_bool(1));
}

#[test]
fn every_int_round_trips_through_a_word() {
    for n in [i64::MIN, i64::MIN + 1, -1, 0, 1, i64::MAX] {
        assert_eq!(Word::to_int(Word::of_int(n)), n);
    }
    assert_eq!(Word::of_int(-1), u64::MAX);
    assert_eq!(Word::of_int(i64::MIN), 0x8000_0000_0000_0000);
}

const FLOAT_PATTERNS: &[u64] = &[
    0x0000_0000_0000_0000, // +0.0
    0x8000_0000_0000_0000, // -0.0, which `==` cannot tell from +0.0
    0x3FF0_0000_0000_0000, // 1.0
    0xBFF0_0000_0000_0000, // -1.0
    0x7FF0_0000_0000_0000, // +inf
    0xFFF0_0000_0000_0000, // -inf
    0x7FF8_0000_0000_0000, // a quiet NaN with an empty payload
    0x7FF8_0000_DEAD_BEEF, // a quiet NaN carrying a payload
    0xFFF8_0000_DEAD_BEEF, // the same, signed
    0x7FF0_0000_0000_0001, // a signalling NaN, which an `f64` round trip can quiet
    0x000F_FFFF_FFFF_FFFF, // the largest subnormal
    0x0000_0000_0000_0001, // the smallest subnormal
    0x7FEF_FFFF_FFFF_FFFF, // f64::MAX
    0xFFFF_FFFF_FFFF_FFFF, // every bit set
];

#[test]
fn every_float_bit_pattern_survives_a_real_frame() {
    for &bits in FLOAT_PATTERNS {
        let mut ready = ready(
            "fn through(value: Int) -> Int {\n  value\n}\n\n\
             export fn main() -> Int {\n  through(through(through(0)))\n}\n",
        );
        for inst in ready.ir.functions[1].code.iter_mut() {
            if *inst == Inst::ScalarConst(0) {
                *inst = Inst::ScalarConst(bits as i64);
            }
        }
        assert_eq!(
            ready.on_frame(),
            answered(Value::Int(bits as i64)),
            "the pattern {bits:#018x} did not survive a frame"
        );
    }
}

#[test]
fn a_float_constant_reaches_a_host_with_every_bit_it_had() {
    for &bits in FLOAT_PATTERNS {
        let program = {
            let mut program = assembled(
                SlotKind::Value,
                vec![],
                vec![
                    Const::Float { bits, shown: "shown".to_string() },
                    Const::Name("echo".to_string()),
                    Const::Name("many".to_string()),
                ],
                vec![
                    Inst::Const(ConstId(0)),
                    Inst::CallHost { module: ConstId(1), op: ConstId(2), argc: 1 },
                    Inst::Return,
                ],
            );
            program.hosts.push(echo_schema());
            program
        };
        let mut vm = FrameVm::new(&program, None);
        let Pause::Host { arguments, .. } = vm.run_entry("m", "main", SLICE) else {
            panic!("the run waits for its host");
        };
        let expected = vec![Value::Float { bits, shown: "shown".to_string() }];
        assert_eq!(format!("{arguments:?}"), format!("{expected:?}"));
    }
}

// -------------------------------------------------------------------- calls

#[test]
fn nested_calls_keep_each_frames_locals_to_itself() {
    agree(
        "fn inner(a: Int, b: Int) -> Int {\n  var t = a * 100\n  t = t + b\n  t\n}\n\n\
         fn middle(a: Int) -> Int {\n  var t = a + 1\n  var u = inner(t, a)\n  u + t\n}\n\n\
         fn outer(a: Int) -> Int {\n  var t = a + 2\n  t + middle(t) + t\n}\n\n\
         export fn main() -> Int {\n  outer(3) + outer(4) + outer(5)\n}\n",
    );
}

#[test]
fn recursion_answers_the_same_thing_on_all_three() {
    let ready = agree(
        "fn fib(n: Int) -> Int {\n  if n < 2 {\n    n\n  } else {\n    fib(n - 1) + fib(n - 2)\n  }\n}\n\n\
         export fn main() -> Int {\n  fib(18)\n}\n",
    );
    assert_eq!(ready.on_frame(), answered(Value::Int(2584)));
}

#[test]
fn the_call_depth_limit_stops_the_frame_where_it_stops_the_vm() {
    let ready = ready(
        "fn down(n: Int) -> Int {\n  if n == 0 {\n    0\n  } else {\n    down(n - 1) + 1\n  }\n}\n\n\
         export fn main() -> Int {\n  down(100000)\n}\n",
    );
    let Outcome::Raised { message, .. } = ready.on_frame() else {
        panic!("a runaway recursion stops");
    };
    assert!(
        message.contains(&format!("call depth limit of {MAX_CALL_DEPTH}")),
        "it stopped with `{message}`"
    );
}

#[test]
fn a_budgets_call_depth_limit_stops_the_frame_in_the_budgets_words() {
    let ready = ready(
        "fn down(n: Int) -> Int {\n  if n == 0 {\n    0\n  } else {\n    down(n - 1) + 1\n  }\n}\n\n\
         export fn main() -> Int {\n  down(64)\n}\n",
    );
    let limits = Limits { fuel: None, max_call_depth: Some(8), max_host_calls: None };
    let frame = ready.on_frame_with(Some(Budget::new(limits)));
    let Outcome::Raised { message, .. } = frame else {
        panic!("it stopped");
    };
    assert_eq!(message, "the run went past its call depth limit of 8");
}

#[test]
fn a_frame_base_survives_the_stack_growing_under_it() {
    let ready = agree(
        "fn down(n: Int, carried: Int) -> Int {\n  \
         if n == 0 {\n    carried\n  } else {\n    down(n - 1, carried + n) - 1 + 1\n  }\n}\n\n\
         export fn main() -> Int {\n  down(200, 0)\n}\n",
    );
    assert_eq!(ready.on_frame(), answered(Value::Int(20100)));
    let mut vm = FrameVm::new(&ready.ir, None);
    drive(&mut vm, &mut echo_hosts(true));
    assert!(
        vm.high_water_words() > 200,
        "200 standing frames occupy more than 200 words, and the stack reached {}",
        vm.high_water_words()
    );
}

const CELL_DECL: &str = "struct Cell {\n  n: Int\n}\n\n";

#[test]
fn a_scalar_parameter_before_a_value_one_is_admitted_and_agrees() {
    agree(&format!(
        "{CELL_DECL}fn combine(a: Int, cell: Cell) -> Int {{\n  a + cell.n\n}}\n\n\
         export fn main() -> Int {{\n  combine(3, Cell(n: 4))\n}}\n"
    ));
}

#[test]
fn a_value_parameter_before_a_scalar_one_is_admitted_and_agrees() {
    agree(&format!(
        "{CELL_DECL}fn combine(cell: Cell, a: Int) -> Int {{\n  cell.n + a\n}}\n\n\
         export fn main() -> Int {{\n  combine(Cell(n: 4), 3)\n}}\n"
    ));
}

#[test]
fn a_value_parameter_beside_the_functions_own_scalar_locals_is_admitted_and_agrees() {
    agree(&format!(
        "{CELL_DECL}fn scan(cell: Cell) -> Int {{\n  var total = 0\n  var i = 0\n  \
         while i < cell.n {{\n    total = total + i\n    i = i + 1\n  }}\n  total\n}}\n\n\
         export fn main() -> Int {{\n  scan(Cell(n: 5))\n}}\n"
    ));
}

#[test]
fn a_receiver_taking_method_with_a_scalar_parameter_beside_it_is_admitted_and_agrees() {
    agree(
        "struct Cursor {\n  at: Int\n  step: Int\n}\n\n\
         impl Cursor {\n  fn advance(self, by: Int) -> Int {\n    self.at + by\n  }\n}\n\n\
         export fn main() -> Int {\n  var cursor = Cursor(at: 0, step: 1)\n  \
         cursor.advance(5) + cursor.advance(2)\n}\n",
    );
}

fn wide_mixed_params_source() -> String {
    let params: Vec<String> = (0..80)
        .map(|i| {
            if i % 2 == 0 {
                format!("a{i}: Int")
            } else {
                format!("c{i}: Cell")
            }
        })
        .collect();
    let args: Vec<String> = (0..80)
        .map(|i| {
            if i % 2 == 0 {
                format!("{i}")
            } else {
                format!("Cell(n: {i})")
            }
        })
        .collect();
    let adds: String = (0..80)
        .map(|i| {
            if i % 2 == 0 {
                format!("  total = total + a{i}\n")
            } else {
                format!("  total = total + c{i}.n\n")
            }
        })
        .collect();
    format!(
        "{CELL_DECL}fn wide({}) -> Int {{\n  var total = 0\n  var i = 0\n  \
         while i < 3 {{\n    total = total + i\n    i = i + 1\n  }}\n{adds}  total\n}}\n\n\
         export fn main() -> Int {{\n  var seed = 3\n  var extra = seed + 1\n  \
         wide({}) + extra\n}}\n",
        params.join(", "),
        args.join(", "),
    )
}

#[test]
fn a_frame_whose_reference_pattern_straddles_a_limb_boundary_is_admitted_and_agrees() {
    agree(&wide_mixed_params_source());
}

#[test]
fn a_collection_over_a_straddling_frame_finds_every_scattered_reference() {
    let ready = ready(&wide_mixed_params_source());
    let collected = ready.on_frame_collecting();
    assert_eq!(collected.outcome, ready.walked(true), "the tree and the frame disagreed");
    assert!(collected.collections > 0);
}

// --------------------------------------------------------------------- fuel

const A_LONG_LOOP: &str = "export fn main() -> Int {\n  var total = 0\n  var i = 0\n  \
     while i < 1000000 {\n    total = total + i\n    i = i + 1\n  }\n  total\n}\n";

#[test]
fn a_fuel_limit_stops_the_frame_where_it_stops_the_vm() {
    let ready = ready(A_LONG_LOOP);
    let limits = Limits { fuel: Some(10_000), max_call_depth: None, max_host_calls: None };
    let frame = ready.on_frame_with(Some(Budget::new(limits)));
    let Outcome::Raised { message, .. } = frame else {
        panic!("the run stopped");
    };
    assert_eq!(message, "the run spent its 10000 unit(s) of fuel");
}

#[test]
fn the_same_loop_finishes_without_a_limit() {
    let ready = ready(A_LONG_LOOP);
    assert_eq!(ready.on_frame(), answered(Value::Int(499999500000)));
}

#[test]
fn a_cancelled_run_stops_on_the_frame_as_it_does_on_the_vm() {
    let ready = ready(A_LONG_LOOP);
    let mut budget =
        Budget::new(Limits { fuel: None, max_call_depth: None, max_host_calls: None });
    budget.cancel();
    let Outcome::Raised { message, .. } = ready.on_frame_with(Some(budget)) else {
        panic!("the run stopped");
    };
    assert_eq!(message, "the run was cancelled");
}

fn no_limits() -> Limits {
    Limits { fuel: None, max_call_depth: None, max_host_calls: None }
}

fn fuel_spent(ready: &Ready) -> (u64, u64) {
    let mut hosts = echo_hosts(true);
    hosts.set_budget(Budget::new(no_limits()));
    let mut vm = FrameVm::new(&ready.ir, None);
    let (pause, _) = vm.run_hosted(&mut hosts, "m", "main", SLICE, SLICE);
    let Outcome::Answered(_) = outcome(pause) else {
        panic!("it answers");
    };
    let spent = hosts.with_budget().expect("a budget was installed").fuel_spent;
    (spent, vm.instructions())
}

#[test]
fn no_pending_fuel_is_lost_at_the_end_of_a_run() {
    let ready = ready("export fn main() -> Int {\n  1 + 2\n}\n");
    let (spent, instructions) = fuel_spent(&ready);
    assert_eq!(
        spent,
        instructions * INSTRUCTION_FUEL,
        "the run charged {instructions} instruction(s) and handed over {spent} fuel"
    );
    assert_eq!(instructions, 4);
}

#[test]
fn a_run_taken_in_slices_spends_what_a_whole_run_spends() {
    let ready = ready(A_STRUCT_HANDED_TO_A_CALL);
    let whole = fuel_spent(&ready);
    let limits = Limits { fuel: None, max_call_depth: None, max_host_calls: None };
    let mut vm = FrameVm::new(&ready.ir, Some(Budget::new(limits)));
    let mut pause = vm.run_entry("m", "main", 1);
    let mut slices = 1;
    while let Pause::Yielded = pause {
        pause = vm.execute(1);
        slices += 1;
    }
    assert_eq!(outcome(pause), answered(Value::Int(200)));
    assert!(slices > 200);
    let spent = vm.budget().expect("a budget was installed").fuel_spent;
    assert_eq!((spent, vm.instructions()), whole);
}

#[test]
fn a_run_cancelled_between_two_slices_stops_at_its_next_safepoint() {
    let ready = ready(A_LONG_LOOP);
    let limits = Limits { fuel: None, max_call_depth: None, max_host_calls: None };
    let mut vm = FrameVm::new(&ready.ir, Some(Budget::new(limits)));
    assert!(matches!(vm.run_entry("m", "main", SLICE), Pause::Yielded));
    vm.cancel();
    let Outcome::Raised { message, .. } = outcome(vm.execute(1_000_000)) else {
        panic!("the run stopped");
    };
    assert_eq!(message, "the run was cancelled");
    let mut vm = FrameVm::new(&ready.ir, None);
    vm.cancel();
    assert!(matches!(vm.run_entry("m", "main", SLICE), Pause::Yielded));
}

// ------------------------------------------------------------------- traces

fn events_of(ready: &Ready) -> (Vec<&'static str>, Vec<TraceEvent>) {
    let began = run_began(&ready.ir, "m", "main");
    let mut vm = FrameVm::new(&ready.ir, None);
    let pause = vm.run_entry("m", "main", SLICE);
    let mut events = run_closed(&vm, began.is_some(), "m", "main", 5, &pause);
    events.splice(0..0, began);
    let names = events
        .iter()
        .map(|event| match event {
            TraceEvent::EntryEnter { .. } => "EntryEnter",
            TraceEvent::EntryExit { .. } => "EntryExit",
            TraceEvent::HeapSummary { .. } => "HeapSummary",
            TraceEvent::RunEnded { .. } => "RunEnded",
        })
        .collect();
    (names, events)
}

#[test]
fn a_frame_run_emits_the_events_a_vm_run_emits() {
    let ready = ready("export fn main() -> Int {\n  1 + 2\n}\n");
    let (names, events) = events_of(&ready);
    assert_eq!(names, ["EntryEnter", "EntryExit", "HeapSummary", "RunEnded"]);
    assert!(matches!(
        &events[3],
        TraceEvent::RunEnded { outcome: RunOutcome::Success, message: None }
    ));
}

#[test]
fn a_refused_run_is_only_said_to_have_ended() {
    let ready = ready("export fn main() -> Duration {\n  500ms\n}\n");
    let (names, events) = events_of(&ready);
    assert_eq!(names, ["RunEnded"]);
    let TraceEvent::RunEnded { outcome, message: Some(message) } = &events[0] else {
        panic!("it says why");
    };
    assert_eq!(*outcome, RunOutcome::Invariant);
    assert!(message.contains("the 8-byte frame cannot run"), "{message}");
}

#[test]
fn a_run_that_answers_an_error_is_said_to_have_failed_with_it() {
    let program = assembled(
        SlotKind::Value,
        vec![],
        vec![Const::Str("late".to_string()), Const::Name("Err".to_string())],
        vec![
            Inst::Const(ConstId(0)),
            Inst::MakeBuiltin { name: ConstId(1), argc: 1 },
            Inst::Return,
        ],
    );
    let mut vm = FrameVm::new(&program, None);
    let pause = vm.run_entry("m", "main", SLICE);
    let events = run_closed(&vm, true, "m", "main", 5, &pause);
    let TraceEvent::RunEnded { outcome, message } = &events[2] else {
        panic!("the last event is the end");
    };
    assert_eq!(*outcome, RunOutcome::Error);
    assert_eq!(message.as_deref(), Some("late"));
    let yielded = FrameVm::new(&program, None).run_entry("m", "main", 1);
    assert!(run_closed(&vm, false, "m", "main", 5, &yielded).is_empty());
}

// -------------------------------------------------------------------- hosts

#[test]
fn a_host_call_with_no_arguments_agrees_on_all_three() {
    let outcome = agree_with_echo(
        "use echo\n\nexport fn main() -> Result<Unit, Error> {\n  echo.unit()\n}\n",
        true,
    );
    assert_eq!(outcome, answered(Value::ok(Value::Unit)));
}

#[test]
fn a_host_call_with_several_arguments_of_every_admitted_kind_agrees_and_is_discarded() {
    agree_with_echo(
        "use echo\n\nexport fn main() -> Result<Unit, Error> {\n  \
         echo.many(1, true, 3.14, \"text\")?\n  Ok(())\n}\n",
        true,
    );
}

#[test]
fn a_host_call_takes_each_scalar_kind_and_a_string() {
    agree_with_echo(
        "use echo\n\nexport fn main() -> Result<Int, Error> {\n  echo.int(42)\n}\n",
        true,
    );
    agree_with_echo(
        "use echo\n\nexport fn main() -> Result<Bool, Error> {\n  echo.bool(true)\n}\n",
        true,
    );
    agree_with_echo(
        "use echo\n\nexport fn main() -> Result<Int, Error> {\n  echo.many(3.14)\n}\n",
        true,
    );
    agree_with_echo(
        "use echo\n\nexport fn main() -> Result<String, Error> {\n  echo.text(\"hello\")\n}\n",
        true,
    );
}

#[test]
fn a_host_calls_failure_is_taken_with_try() {
    let outcome = agree_with_echo(
        "use echo\n\nexport fn main() -> Result<Unit, Error> {\n  echo.fails()?\n  Ok(())\n}\n",
        true,
    );
    let failed = Value::err(Value::error("echo.fails always fails".to_string()));
    assert_eq!(outcome, answered(failed));
}

#[test]
fn a_host_call_with_no_capability_is_refused_identically_on_all_three() {
    let outcome = agree_with_echo(
        "use echo\n\nexport fn main() -> Result<Unit, Error> {\n  echo.unit()\n}\n",
        false,
    );
    let Outcome::Raised { message, .. } = outcome else {
        panic!("a call with no capability does not answer: {outcome:?}");
    };
    assert!(
        message.contains("requires the `echo` capability"),
        "it failed with `{message}`"
    );
}

#[test]
fn a_collection_taken_in_the_middle_of_a_host_calls_argument_crossing_does_not_lose_the_string() {
    let mut ready = ready(
        "use echo\n\nexport fn main() -> Result<String, Error> {\n  \
         echo.text(\"0123456789abcdefghijklmnopqrstuvwxyz {0}\")\n}\n",
    );
    for known in [false, true] {
        if known {
            ready.ir.hosts.push(echo_schema());
        }
        let collected = ready.on_frame_collecting();
        assert_eq!(
            collected.outcome,
            answered(Value::ok(Value::Str("0123456789abcdefghijklmnopqrstuvwxyz 0".to_string()))),
            "the crossing lost or corrupted the string"
        );
        assert!(
            collected.collections > 0,
            "the run collected {} time(s), so nothing here proves a collection ran mid-crossing",
            collected.collections
        );
    }
}

#[test]
fn a_host_calls_struct_argument_is_refused_and_names_what_it_saw() {
    let ready = ready(
        "use echo\n\nstruct Cell {\n  at: Int\n}\n\nexport fn main() -> Result<Unit, Error> {\n  \
         var cell = Cell(at: 1)\n  echo.many(cell)?\n  Ok(())\n}\n",
    );
    let refused = match ready.admitted() {
        Ok(id) => panic!("a struct argument to a Host call is refused, and it admitted {id:?}"),
        Err(refused) => refused,
    };
    assert!(
        refused.what.contains("whose arguments the 8-byte frame cannot read as values"),
        "it was refused for `{}`",
        refused.what
    );
}

#[test]
fn the_frame_spends_the_fuel_the_vm_spends_over_a_host_call() {
    let ready = ready("use echo\n\nexport fn main() -> Result<Unit, Error> {\n  echo.unit()\n}\n");
    let (spent, instructions) = fuel_spent(&ready);
    assert_eq!(instructions, 2);
    assert_eq!(
        spent,
        instructions * INSTRUCTION_FUEL,
        "the host call spent {spent} fuel over {instructions} instruction(s)"
    );
}

#[test]
fn a_run_that_waits_for_a_host_goes_nowhere_until_it_is_answered() {
    let ready = ready("use echo\n\nexport fn main() -> Result<Int, Error> {\n  echo.int(42)\n}\n");
    let mut vm = FrameVm::new(&ready.ir, None);
    let Pause::Host { module, op, arguments, .. } = vm.run_entry("m", "main", SLICE) else {
        panic!("the run waits for its host");
    };
    assert_eq!((module.as_str(), op.as_str()), ("echo", "int"));
    assert_eq!(format!("{arguments:?}"), format!("{:?}", vec![Value::Int(42)]));
    assert!(matches!(vm.execute(SLICE), Pause::Stuck));
    let pause = vm.answer_host(Ok(Value::ok(Value::Int(42))), SLICE);
    assert_eq!(outcome(pause), answered(Value::ok(Value::Int(42))));
    let mut vm = FrameVm::new(&ready.ir, None);
    assert!(matches!(vm.answer_host(Ok(Value::Unit), SLICE), Pause::Stuck));
}

#[test]
fn a_run_with_its_hosts_is_served_until_it_ends() {
    let mut ready = ready(
        "use echo\n\nexport fn main() -> Result<Int, Error> {\n  \
         var n = echo.int(40)?\n  echo.int(n + 2)\n}\n",
    );
    ready.ir.hosts.push(echo_schema());
    let mut hosts = echo_hosts(true);
    hosts.set_trace(true);
    let mut vm = FrameVm::new(&ready.ir, None);
    let (pause, calls) = vm.run_hosted(&mut hosts, "m", "main", SLICE, 8);
    assert_eq!(outcome(pause), answered(Value::ok(Value::Int(42))));
    let shown: Vec<String> =
        calls.iter().map(|call| format!("{}({})", call.op, call.args[0].show())).collect();
    assert_eq!(shown, ["int(40)", "int(42)"]);

    let mut vm = FrameVm::new(&ready.ir, None);
    let (pause, calls) = vm.run_hosted(&mut hosts, "m", "main", SLICE, 1);
    assert!(matches!(pause, Pause::Host { .. }), "one turn serves one call");
    assert_eq!(calls.len(), 1);
    let (pause, calls) = vm.resume_hosted(&mut hosts, pause, SLICE, 8);
    assert_eq!(outcome(pause), answered(Value::ok(Value::Int(42))));
    assert_eq!(calls.len(), 1, "and the next turn the next");
}

#[test]
fn a_run_spends_the_budget_of_its_hosts() {
    let ready = ready("use echo\n\nexport fn main() -> Result<Int, Error> {\n  echo.int(42)\n}\n");
    let mut hosts = echo_hosts(true);
    hosts.set_budget(Budget::new(no_limits()));
    let mut vm = FrameVm::new(&ready.ir, None);
    let (pause, _) = vm.run_hosted(&mut hosts, "m", "main", SLICE, 8);
    assert_eq!(outcome(pause), answered(Value::ok(Value::Int(42))));
    let budget = hosts.budget().expect("a budget was installed");
    assert_eq!(budget.host_calls, 1);
    assert!(budget.fuel_spent > 0);
    assert_eq!(vm.budget(), Some(budget));
}

#[test]
fn a_run_stops_once_the_budget_of_its_hosts_is_cancelled() {
    let ready = ready(A_LONG_LOOP);
    let mut hosts = echo_hosts(true);
    hosts.set_budget(Budget::new(no_limits()));
    let mut vm = FrameVm::new(&ready.ir, None);
    let (pause, _) = vm.run_hosted(&mut hosts, "m", "main", SLICE, 0);
    assert!(matches!(pause, Pause::Yielded));
    hosts.with_budget().expect("a budget was installed").cancel();
    let (pause, _) = vm.resume_hosted(&mut hosts, pause, SLICE, 8);
    let Outcome::Raised { message, .. } = outcome(pause) else {
        panic!("the run stopped");
    };
    assert_eq!(message, "the run was cancelled");
}

#[test]
fn serving_a_call_says_how_long_it_took() {
    let ready = ready("use echo\n\nexport fn main() -> Result<Int, Error> {\n  echo.int(42)\n}\n");
    let mut hosts = echo_hosts(true);
    let mut vm = FrameVm::new(&ready.ir, None);
    let Pause::Host { module, op, arguments, .. } = vm.run_entry("m", "main", SLICE) else {
        panic!("the run waits for its host");
    };
    let (pause, _, wait) = vm.serve(&mut hosts, &module, &op, arguments, SLICE);
    assert_eq!(outcome(pause), answered(Value::ok(Value::Int(42))));
    assert_eq!(vm.wait(), wait);
}

#[test]
fn a_stack_is_as_deep_as_its_operands_make_it() {
    let ready = ready("export fn main() -> Int {\n  1 + 2\n}\n");
    let mut vm = FrameVm::new(&ready.ir, None);
    assert_eq!(vm.high_water_words(), 0);
    assert_eq!(drive(&mut vm, &mut echo_hosts(true)), answered(Value::Int(3)));
    assert!(vm.high_water_words() >= 2, "both operands stood on it");
}

#[test]
fn a_stressed_run_collects_at_every_safepoint() {
    let ready = ready(A_LONG_LOOP);
    let collected = ready.on_frame_collecting();
    let mut vm = FrameVm::new(&ready.ir, None);
    let calm = drive(&mut vm, &mut echo_hosts(true));
    assert_eq!(collected.outcome, calm, "no program can tell");
    assert!(collected.collections > vm.collections().0);
}

#[test]
fn a_run_whose_host_is_not_granted_ends_in_the_refusal() {
    let ready = ready("use echo\n\nexport fn main() -> Result<Int, Error> {\n  echo.int(42)\n}\n");
    let mut vm = FrameVm::new(&ready.ir, None);
    let (pause, _) = vm.run_hosted(&mut echo_hosts(false), "m", "main", SLICE, 8);
    let Outcome::Raised { message, span } = outcome(pause) else {
        panic!("it does not answer");
    };
    assert!(message.contains("requires the `echo` capability"), "it failed with `{message}`");
    assert!(span.is_some(), "and it points at the call");
}

#[test]
fn a_builtin_call_waits_for_its_answer_and_keeps_a_failed_assertion() {
    let program = assembled(
        SlotKind::Value,
        vec![],
        vec![Const::Name("assert".to_string()), Const::Bool(false)],
        vec![
            Inst::Const(ConstId(1)),
            Inst::MakeBuiltin { name: ConstId(0), argc: 1 },
            Inst::Return,
        ],
    );
    let mut vm = FrameVm::new(&program, None);
    let Pause::Builtin { name, arguments, .. } = vm.run_entry("m", "main", SLICE) else {
        panic!("the run waits for a builtin");
    };
    assert_eq!(name, "assert");
    assert_eq!(format!("{arguments:?}"), "[Bool(false)]");
    let failed = Value::err(Value::error("it was false".to_string()));
    let pause = vm.answer_builtin(Ok(failed), true, SLICE);
    let expected = Value::err(Value::error("it was false".to_string()));
    assert_eq!(outcome(pause), answered(expected));
    assert_eq!(vm.assertion_failure(), Some((span(0, 1), "it was false")));
}

#[test]
fn waiting_is_added_up() {
    let ready = ready("export fn main() -> Int {\n  1 + 2\n}\n");
    let mut vm = FrameVm::new(&ready.ir, None);
    assert_eq!(vm.wait(), 0);
    vm.charge_wait(5);
    vm.charge_wait(u64::MAX - 7);
    assert_eq!(vm.wait(), u64::MAX - 2);
    vm.charge_wait(7);
    assert_eq!(vm.wait(), u64::MAX);
}

// ---------------------------------------------------------------- admission

#[test]
fn an_unsupported_construct_is_refused_before_the_run_begins() {
    let a_closure = {
        let mut program = assembled(
            SlotKind::Scalar(Scalar::Int),
            vec![SlotKind::Value],
            vec![Const::Int(1)],
            vec![
                Inst::MakeClosure { function: FunctionId(1), captures: 0 },
                Inst::StoreLocal(0),
                Inst::LoadLocal(0),
                Inst::Const(ConstId(0)),
                Inst::CallValue { argc: 1 },
                Inst::ValueToScalar,
                Inst::ReturnScalar,
            ],
        );
        let mut body = read("fn f(x: Int) -> Int {\n  x\n}\n");
        body.defs[0].name = "main.f".to_string();
        program.functions.extend(lower(&body).functions);
        program
    };
    let programs = [
        (ready("export fn main() -> Duration {\n  500ms\n}\n").ir, "a `Duration`"),
        (ready("export fn main() -> Int {\n  \"abc\".length()\n}\n").ir, "a builtin method"),
        (a_closure, "a closure"),
        (
            ready("export fn main() -> Float {\n  1.5 + 2.5\n}\n").ir,
            "an operator over a general value",
        ),
    ];
    for (program, expected) in programs {
        assert!(validate(&program));
        let refused = match admits(&program, "m", "main") {
            Ok(id) => panic!("`{expected}` is refused, and it admitted {id:?}"),
            Err(refused) => refused,
        };
        assert!(
            refused.what.contains(expected),
            "it was refused for `{}`, and `{expected}` was expected",
            refused.what
        );
        assert!(refused.span.is_some(), "a refusal points at source");
    }
}

#[test]
fn a_refused_entry_raises_rather_than_falling_back() {
    let ready = ready("export fn main() -> Duration {\n  500ms\n}\n");
    let Outcome::Raised { message, .. } = ready.on_frame() else {
        panic!("a refused entry does not answer");
    };
    assert!(
        message.contains("the 8-byte frame cannot run"),
        "it failed with `{message}`"
    );
}

#[test]
fn an_entry_that_is_not_declared_is_refused_by_name() {
    let ready = ready("export fn main() -> Int {\n  1 + 2\n}\n");
    let refused = match admits(&ready.ir, "m", "other") {
        Ok(id) => panic!("it admitted {id:?}"),
        Err(refused) => refused,
    };
    assert!(refused.what.contains("`m.other`"), "it was refused for `{}`", refused.what);
    assert_eq!(refused.span, None);
    assert!(refusals(&ready.ir, "m", "main").is_empty());
}

#[test]
fn an_entry_with_parameters_cannot_be_supplied() {
    let ready = ready("export fn main(n: Int) -> Int {\n  n\n}\n");
    let Outcome::Raised { message, .. } = ready.on_frame() else {
        panic!("it does not answer");
    };
    assert_eq!(
        message,
        "entry `m.main` declares 1 parameter(s), which the 8-byte frame cannot supply"
    );
}

#[test]
fn a_function_reached_through_a_call_is_asked_about_too() {
    let ready = ready(
        "fn late() -> Duration {\n  500ms\n}\n\nfn later() -> Int {\n  late()\n  1\n}\n\n\
         export fn main() -> Int {\n  later()\n}\n",
    );
    let refused = match ready.admitted() {
        Ok(id) => panic!("it admitted {id:?}"),
        Err(refused) => refused,
    };
    assert!(refused.what.contains("a `Duration`"), "it was refused for `{}`", refused.what);
}

#[test]
fn every_admitted_operator_agrees_on_all_three() {
    for op in ["+", "-", "*", "/", "%"] {
        for (a, b) in [
            ("7", "3"),
            ("0 - 7", "3"),
            ("7", "0 - 3"),
            ("0 - 7", "0 - 3"),
            ("0", "5"),
        ] {
            agree(&main_of("Int", &format!("  ({a}) {op} ({b})")));
        }
    }
    for op in ["==", "!=", "<", "<=", ">", ">="] {
        for (a, b) in [("1", "2"), ("2", "1"), ("2", "2"), ("0 - 1", "1")] {
            agree(&main_of("Bool", &format!("  ({a}) {op} ({b})")));
        }
    }
    agree(&main_of("Bool", "  1 < 2 && 3 < 4"));
    agree(&main_of("Bool", "  1 > 2 || 3 < 4"));
    agree(&main_of("Bool", "  1 > 2 && 3 < 4"));
    agree(&main_of("Bool", "  1 < 2 || 3 > 4"));
}

#[test]
fn division_and_remainder_truncate_towards_zero() {
    for (body, expected) in [
        ("  (0 - 7) / 3", -2),
        ("  (0 - 7) % 3", -1),
        ("  7 / (0 - 3)", -2),
        ("  7 % (0 - 3)", 1),
        ("  (0 - 7) / (0 - 3)", 2),
        ("  (0 - 7) % (0 - 3)", -1),
    ] {
        let ready = agree(&main_of("Int", body));
        assert_eq!(ready.on_frame(), answered(Value::Int(expected)), "{body}");
    }
}

// ------------------------------------------------------------------ objects

const A_STRUCT_IN_A_SLOT: &str = "\
struct Cell {
  at: Int
  step: Int
}

export fn main() -> Int {
  var cell = Cell(at: 0, step: 1)
  var total = 0
  while cell.at < 200 {
    total = total + cell.step
    cell.at = cell.at + cell.step
  }
  total
}
";

const A_STRUCT_HANDED_TO_A_CALL: &str = "\
struct Cell {
  at: Int
  step: Int
}

fn reach(cell: Cell) -> Int {
  cell.at
}

export fn main() -> Int {
  var cell = Cell(at: 0, step: 1)
  var total = 0
  while reach(cell) < 200 {
    total = total + cell.step
    cell.at = cell.at + cell.step
  }
  total
}
";

const A_STRUCT_THAT_IS_ONLY_AN_ARGUMENT: &str = "\
struct Cell {
  at: Int
  step: Int
}

fn reach(cell: Cell) -> Int {
  cell.at
}

export fn main() -> Int {
  var total = 0
  var i = 0
  while i < 200 {
    total = total + reach(Cell(at: i, step: 1))
    i = i + 1
  }
  total
}
";

const A_STRUCT_INSIDE_A_STRUCT: &str = "\
struct Inner {
  n: Int
}

struct Outer {
  inner: Inner
  n: Int
}

export fn main() -> Int {
  var outer = Outer(inner: Inner(n: 5), n: 1)
  var total = 0
  var i = 0
  while i < 200 {
    total = total + outer.inner.n
    i = i + 1
  }
  total
}
";

const A_NESTED_STRUCT_READ_AND_HANDED_OVER: &str = "\
struct Inner {
  n: Int
}

struct Outer {
  inner: Inner
  n: Int
}

fn take(inner: Inner) -> Int {
  inner.n
}

export fn main() -> Int {
  var total = 0
  var i = 0
  while i < 200 {
    total = total + take(Outer(inner: Inner(n: 1), n: 2).inner)
    i = i + 1
  }
  total
}
";

const A_NESTED_STRUCT_READ_INTO_A_SLOT: &str = "\
struct Inner {
  n: Int
}

struct Outer {
  inner: Inner
  n: Int
}

export fn main() -> Int {
  var outer = Outer(inner: Inner(n: 5), n: 1)
  var total = 0
  var i = 0
  while i < 200 {
    var held = outer.inner
    total = total + held.n
    i = i + 1
  }
  total
}
";

const A_STRUCT_LOOP_WITHOUT_END: &str = "\
struct Cell {
  at: Int
  step: Int
}

export fn main() -> Int {
  var cell = Cell(at: 0, step: 1)
  var total = 0
  while cell.at < 1000000 {
    total = total + cell.step
    cell.at = cell.at + cell.step
  }
  total
}
";

#[test]
fn a_fuel_limit_stops_a_struct_loop_where_it_stops_the_vm() {
    let ready = ready(A_STRUCT_LOOP_WITHOUT_END);
    let limits = Limits { fuel: Some(10_000), max_call_depth: None, max_host_calls: None };
    let frame = ready.on_frame_with(Some(Budget::new(limits)));
    assert!(matches!(frame, Outcome::Raised { .. }), "the run stopped");
}

#[test]
fn a_struct_program_that_raises_agrees_on_message_and_span() {
    agree(
        "struct Cell {\n  at: Int\n}\n\nexport fn main() -> Int {\n  \
         var cell = Cell(at: 9223372036854775807)\n  cell.at = cell.at + 1\n  cell.at\n}\n",
    );
    agree(
        "struct Cell {\n  at: Int\n  step: Int\n}\n\nexport fn main() -> Int {\n  \
         var cell = Cell(at: 7, step: 0)\n  cell.at = cell.at / cell.step\n  cell.at\n}\n",
    );
}

#[test]
fn a_struct_in_a_frame_slot_survives_every_collection_of_a_run() {
    let ready = ready(A_STRUCT_IN_A_SLOT);
    let collected = ready.on_frame_collecting();
    assert_eq!(
        collected.outcome,
        ready.walked(true),
        "the tree and the 8-byte frame disagreed about a rooted loop"
    );
    assert!(
        collected.collections > 0,
        "the run collected {} time(s), so it proves nothing about rooting",
        collected.collections
    );
    assert!(
        collected.heap.freed_objects > 0,
        "the sweep reclaimed nothing, so the object that survived did not have to"
    );
    assert!(
        collected.expansions > 0,
        "no object was ever expanded, so no root was ever followed"
    );
    assert!(
        collected.heap.allocated_objects > 200,
        "the loop turns two hundred times and writes a field each turn, and a \
         field write is a copy"
    );
    assert!(
        collected.roots_yielded >= collected.expansions,
        "a walk cannot expand more objects than it yielded locations"
    );
    assert_eq!(
        collected.expansions, collected.marked,
        "an object is expanded once for every time it is found live, and no more"
    );
}

#[test]
fn a_struct_handed_to_a_call_survives_the_call_that_is_a_safepoint() {
    for source in [A_STRUCT_HANDED_TO_A_CALL, A_STRUCT_THAT_IS_ONLY_AN_ARGUMENT] {
        let ready = ready(source);
        let collected = ready.on_frame_collecting();
        assert_eq!(collected.outcome, ready.walked(true), "the tree and the frame disagreed");
        assert!(collected.collections > 0 && collected.heap.freed_objects > 0);
    }
}

#[test]
fn a_reference_in_a_slot_and_in_an_operand_is_two_locations_and_one_expansion() {
    let ready = ready(A_STRUCT_HANDED_TO_A_CALL);
    let collected = ready.on_frame_collecting();
    assert!(
        collected.most_roots_at_once >= 2,
        "no collection ever saw two root locations at once"
    );
    assert_eq!(
        collected.most_expansions_at_once, 1,
        "the two locations name one object, and one object is expanded once"
    );
    assert_eq!(
        collected.expansions, collected.marked,
        "an object is expanded exactly once per collection that finds it live"
    );
}

#[test]
fn nothing_is_rooted_outside_the_one_stack() {
    for source in [
        A_STRUCT_IN_A_SLOT,
        A_STRUCT_HANDED_TO_A_CALL,
        A_STRUCT_THAT_IS_ONLY_AN_ARGUMENT,
        A_STRUCT_INSIDE_A_STRUCT,
    ] {
        let ready = ready(source);
        let collected = ready.on_frame_collecting();
        assert_eq!(
            collected.rooted_outside_the_stack, 0,
            "a handle stood outside the one stack, which the admitted subset has no way to do"
        );
    }
}

#[test]
fn a_field_read_takes_its_kind_from_the_type_the_instruction_names() {
    let ready = ready(A_STRUCT_INSIDE_A_STRUCT);
    let collected = ready.on_frame_collecting();
    assert_eq!(
        collected.outcome,
        ready.walked(true),
        "the tree and the frame disagreed about a struct inside a struct"
    );
    assert!(
        collected.collections > 0,
        "the run never collected, so the nested edge was never walked"
    );
    assert_eq!(
        collected.most_expansions_at_once, 2,
        "the outer object and the inner one it names are two expansions of one \
         collection, which is the nested edge being followed"
    );
}

#[test]
fn a_nested_struct_read_into_a_slot_is_rooted() {
    for (source, sweeps) in [
        (A_NESTED_STRUCT_READ_AND_HANDED_OVER, true),
        (A_NESTED_STRUCT_READ_INTO_A_SLOT, false),
    ] {
        let ready = ready(source);
        let collected = ready.on_frame_collecting();
        assert_eq!(
            collected.outcome,
            ready.walked(true),
            "the tree and the frame disagreed about a field read that outlives its struct"
        );
        assert!(
            collected.collections > 0,
            "the run never collected, so it says nothing about rooting"
        );
        assert_eq!(
            collected.heap.freed_objects > 0,
            sweeps,
            "a program that abandons an object a turn sweeps and one that holds its two does not"
        );
        assert!(
            collected.expansions > 0,
            "no object was ever expanded, so no root was ever followed"
        );
    }
}

#[test]
fn a_scalar_word_that_looks_like_a_reference_is_not_walked() {
    let mut refs = Bitmap::with_capacity(64);
    let words = [0x0000_0001_0000_0002u64, 0x0000_0001_0000_0002u64];
    refs.write(0, false);
    refs.write(1, true);
    let seen: Vec<usize> = refs.references(0, words.len());
    assert_eq!(
        seen,
        vec![1],
        "the walk yielded the scalar word, whose bits are the reference word's"
    );
}

#[test]
fn a_bitmap_finds_every_reference_and_nothing_else() {
    let mut refs = Bitmap::with_capacity(256);
    for at in 0..200 {
        refs.write(at, at % 37 == 0);
    }
    assert_eq!(refs.references(0, 200), vec![0, 37, 74, 111, 148, 185]);
    assert_eq!(refs.references(38, 149), vec![74, 111, 148]);
}

fn map_of(width: usize, refs: std::ops::Range<usize>) -> FrameMap {
    let mut template = vec![0u64; width.div_ceil(64)];
    for at in refs {
        template[at / 64] |= 1u64 << (at % 64);
    }
    FrameMap { width, template }
}

#[test]
fn opening_a_frame_writes_every_bit_of_its_window() {
    let mut refs = Bitmap::with_capacity(256);
    refs.write_frame(0, &map_of(130, 0..130));
    refs.write_frame(4, &map_of(8, 2..5));
    assert_eq!(
        refs.references(4, 12),
        vec![6, 7, 8],
        "the frame at 4 says words 6, 7 and 8 are references and the rest are not"
    );
}

#[test]
fn a_frame_that_straddles_a_limb_is_written_correctly() {
    let mut refs = Bitmap::with_capacity(512);
    refs.write_frame(0, &map_of(256, 0..256));
    refs.write_frame(30, &map_of(100, 20..50));
    let expected: Vec<usize> = (0..30).chain(50..80).chain(130..256).collect();
    assert_eq!(refs.references(0, 256), expected);
}

#[test]
fn a_scattered_template_straddling_a_limb_is_written_correctly() {
    let mut refs = Bitmap::with_capacity(256);
    refs.write_frame(0, &map_of(256, 0..256));
    let mut template = vec![0u64; 100usize.div_ceil(64)];
    for at in [20, 21, 49, 50] {
        template[at / 64] |= 1u64 << (at % 64);
    }
    refs.write_frame(30, &FrameMap { width: 100, template });
    let expected: Vec<usize> = (0..30).chain([50, 51, 79, 80]).chain(130..256).collect();
    assert_eq!(refs.references(0, 256), expected);
}

#[test]
fn a_bit_past_the_capacity_can_be_written_and_read() {
    let mut refs = Bitmap::with_capacity(1);
    assert!(!refs.read(700));
    refs.write(700, true);
    assert!(refs.read(700) && !refs.read(699) && !refs.read(701));
    refs.write(700, false);
    assert!(!refs.read(700));
}

const A_STRUCT_BUILT_FROM_A_LOADED_WORD: &str = "\
struct Cursor {
  at: Int
  step: Int
}

export fn main() -> Int {
  var here = Cursor(at: 0, step: 1)
  var total = 0
  var i = 0
  while i < 60 {
    here = Cursor(at: i, step: here.step)
    total = total + here.at + here.step
    i = i + 1
  }
  total
}
";

#[test]
fn a_struct_built_from_a_loaded_word_is_admitted_and_agrees() {
    let ready = agree(A_STRUCT_BUILT_FROM_A_LOADED_WORD);
    assert!(
        ready.admitted().is_ok(),
        "the simulation reads every word this builds a struct out of"
    );
}

#[test]
fn a_struct_built_from_a_loaded_word_is_rooted_in_its_slot() {
    let ready = ready(A_STRUCT_BUILT_FROM_A_LOADED_WORD);
    let whole = ready.on_frame_collecting();
    assert!(
        matches!(whole.outcome, Outcome::Answered(_)),
        "the walk whole, it answers: {:?}",
        whole.outcome
    );
    assert_eq!(whole.outcome, ready.walked(true), "and it agrees with the tree");
    assert!(
        whole.collections > 0,
        "the stressed run collected {} time(s)",
        whole.collections
    );
    assert!(
        whole.heap.freed_objects > 0,
        "the loop abandons a cursor a turn and the sweep reclaimed {} of them",
        whole.heap.freed_objects
    );
}

#[test]
fn a_constant_is_not_read_as_a_handle() {
    let ready = ready(A_STRUCT_BUILT_FROM_A_LOADED_WORD);
    let id = ready.admitted().expect("it is admitted");
    let function = ready.ir.function(id);
    let operands = simulate(&ready.ir, function);
    let at = function
        .code
        .iter()
        .position(|inst| matches!(inst, Inst::Const(_)))
        .expect("the program loads a constant");
    assert_ne!(
        operands.top(at + 1, 1),
        Some(vec![Kind::Reference]),
        "a constant is not a handle"
    );
    assert_eq!(operands.top(at + 1, 1), Some(vec![Kind::Int]));
}

#[test]
fn the_peepholes_window_was_not_this_programs_operands() {
    let ready = ready(A_STRUCT_BUILT_FROM_A_LOADED_WORD);
    let id = ready.admitted().expect("it is admitted");
    let function = ready.ir.function(id);
    let windows: Vec<(usize, i64)> = function
        .code
        .iter()
        .enumerate()
        .filter_map(|(pc, inst)| match inst {
            Inst::MakeStruct(of) => {
                let fields = ready.ir.structs[of.0 as usize].fields.len();
                let left: i64 = function.code[pc - fields..pc]
                    .iter()
                    .map(|inst| {
                        let shape = stack_shape(&ready.ir, *inst);
                        shape.1 as i64 - shape.0 as i64
                    })
                    .sum();
                Some((fields, left))
            }
            _ => None,
        })
        .collect();
    assert_eq!(windows.len(), 2, "the program builds a cursor twice");
    assert!(
        windows.iter().any(|(fields, left)| *left != *fields as i64),
        "every window leaves as many value operands as the type has fields: {windows:?}"
    );
}

// ------------------------------------------------------------------ strings

#[test]
fn a_string_constant_is_returned() {
    let ready = agree(&main_of("String", "  \"hello\""));
    assert_eq!(ready.on_frame(), answered(Value::Str("hello".to_string())));
}

#[test]
fn a_string_comparison_agrees_on_every_operator_the_lowering_emits() {
    for op in ["==", "!=", "<", "<=", ">", ">="] {
        for (a, b) in [
            (r#""abc""#, r#""abc""#),
            (r#""abc""#, r#""abd""#),
            (r#""ab""#, r#""abc""#),
            (r#""cafe""#, r#""café""#),
        ] {
            agree(&main_of("Bool", &format!("  {a} {op} {b}")));
        }
    }
}

#[test]
fn an_interpolated_string_renders_a_string_an_int_a_bool_and_a_float() {
    let ready = agree(&main_of(
        "String",
        r#"  "n={1} b={true} f={3.5} s={"inner"} and a literal tail""#,
    ));
    assert_eq!(
        ready.on_frame(),
        answered(Value::Str("n=1 b=true f=3.5 s=inner and a literal tail".to_string()))
    );
}

#[test]
fn a_string_held_in_a_frame_slot_across_a_call_survives_and_compares_equal() {
    let ready = agree(
        "fn helper(n: Int) -> Int {\n  n + 1\n}\n\n\
         export fn main() -> Bool {\n  \
         var s = \"a string held across a call\"\n  \
         var n = helper(41)\n  \
         s == \"a string held across a call\" && n == 42\n\
         }\n",
    );
    assert_eq!(ready.on_frame(), answered(Value::Bool(true)));
}

#[test]
fn a_string_held_in_a_struct_field_survives_two_hundred_field_writes() {
    let ready = agree(
        "struct Holder {\n  label: String\n  count: Int\n}\n\n\
         export fn main() -> Bool {\n  \
         var h = Holder(label: \"held in a struct field\", count: 0)\n  \
         var i = 0\n  \
         while i < 200 {\n    h.count = h.count + 1\n    i = i + 1\n  }\n  \
         h.label == \"held in a struct field\" && h.count == 200\n\
         }\n",
    );
    assert_eq!(ready.on_frame(), answered(Value::Bool(true)));
}

#[test]
fn a_strings_tail_is_packed_at_the_word_boundary_and_just_past_it() {
    agree(&main_of("String", "  \"1234567\""));
    agree(&main_of("String", "  \"12345678\""));
}

#[test]
fn a_non_ascii_strings_tail_is_packed_by_bytes_not_by_characters() {
    agree(&main_of("String", "  \"café日本語\""));
}

#[test]
fn a_string_kept_alive_by_nothing_but_a_frame_slot_survives_every_collection() {
    let ready = ready(A_STRING_IN_A_SLOT);
    let collected = ready.on_frame_collecting();
    assert_eq!(
        collected.outcome,
        ready.walked(true),
        "the tree and the 8-byte frame disagreed about a rooted string"
    );
    assert!(
        collected.collections > 0,
        "the run collected {} time(s), so it proves nothing about rooting",
        collected.collections
    );
    assert!(
        collected.heap.freed_objects > 0,
        "the sweep reclaimed nothing, so the string that survived did not have to"
    );
}

const A_STRING_IN_A_SLOT: &str = "\
struct Junk {
  at: Int
}

export fn main() -> Bool {
  var s = \"kept alive by the frame slot and nothing else {0}\"
  var i = 0
  while i < 200 {
    var junk = Junk(at: i)
    i = junk.at + 1
  }
  s == \"kept alive by the frame slot and nothing else 0\"
}
";

#[test]
fn a_collection_taken_in_the_middle_of_a_boundary_crossing_does_not_lose_the_string() {
    let ready = ready(&main_of(
        "String",
        "  \"0123456789abcdefghijklmnopqrstuvwxyz {0}\"",
    ));
    let collected = ready.on_frame_collecting();
    assert_eq!(
        collected.outcome,
        answered(Value::Str("0123456789abcdefghijklmnopqrstuvwxyz 0".to_string())),
        "the crossing lost or corrupted the string"
    );
    assert!(
        collected.collections > 0,
        "the run collected {} time(s), so nothing here proves a collection ran mid-crossing",
        collected.collections
    );
}

#[test]
fn string_interpolation_over_a_struct_is_refused_and_names_a_heap_object() {
    let ready = ready(
        "struct Cell {\n  at: Int\n}\n\nexport fn main() -> String {\n  \
         var cell = Cell(at: 1)\n  \"{cell}\"\n}\n",
    );
    let refused = match ready.admitted() {
        Ok(id) => panic!("interpolating a struct is refused, and it admitted {id:?}"),
        Err(refused) => refused,
    };
    assert!(
        refused.what.contains("a heap object"),
        "it was refused for `{}`, and `a heap object` was expected",
        refused.what
    );
}

// -------------------------------------------------------------------- enums

/// Builds `Line(3, "x")` or `Dot` of a declared enum, asks which it is, and
/// answers the number of the first or minus one.
fn shape_program(dot: bool) -> Program {
    let built = if dot {
        vec![Inst::MakeEnum { ty: ConstId(2), named: ConstId(3), argc: 0 }]
    } else {
        vec![
            Inst::Const(ConstId(0)),
            Inst::Const(ConstId(1)),
            Inst::MakeEnum { ty: ConstId(2), named: ConstId(4), argc: 2 },
        ]
    };
    let asks = built.len() as u32;
    let mut code = built;
    code.extend([
        Inst::TestCase(ConstId(5)),
        Inst::JumpIfFalse(asks + 5),
        Inst::GetPayload { case: Some((EnumId(0), 1)), at: 0 },
        Inst::ValueToScalar,
        Inst::ReturnScalar,
        Inst::ScalarConst(-1),
        Inst::ReturnScalar,
    ]);
    let constants = vec![
        Const::Int(3),
        Const::Str("x".to_string()),
        Const::Name("m.Shape".to_string()),
        Const::Name("Dot".to_string()),
        Const::Name("Line".to_string()),
        Const::Name("Shape.Line".to_string()),
    ];
    let mut program = assembled_over(
        SlotKind::Scalar(Scalar::Int),
        constants,
        code,
        vec![EnumType {
            name: "m.Shape".to_string(),
            cases: vec![
                EnumCase { name: "Dot".to_string(), payload: vec![] },
                EnumCase {
                    name: "Line".to_string(),
                    payload: vec![SlotKind::Scalar(Scalar::Int), SlotKind::Value],
                },
            ],
        }],
    );
    program.functions[0].span = span(0, 9);
    program
}

fn assembled_over(
    returns: SlotKind,
    constants: Vec<Const>,
    code: Vec<Inst>,
    enums: Vec<EnumType>,
) -> Program {
    let stand_in = vec![Inst::ScalarConst(0), Inst::ReturnScalar];
    let mut program = assembled(returns, vec![], constants, stand_in);
    program.enums = enums;
    let function = &mut program.functions[0];
    function.block_fuel = fuel_of(&code);
    function.spans = vec![function.span; code.len()];
    function.code = code;
    assert!(validate(&program), "the program holds the invariants");
    program
}

#[test]
fn a_declared_enums_case_is_built_tested_and_read() {
    for (dot, expected) in [(false, 3), (true, -1)] {
        let program = shape_program(dot);
        assert!(refusals(&program, "m", "main").is_empty());
        let mut vm = FrameVm::new(&program, None);
        vm.stress();
        let answer = drive(&mut vm, &mut echo_hosts(false));
        assert_eq!(answer, answered(Value::Int(expected)));
    }
}

#[test]
fn a_case_is_asked_for_by_its_bare_name_or_under_its_type() {
    assert!(case_matches("m.Shape", "Line", "Line"));
    assert!(case_matches("m.Shape", "Line", "Shape.Line"));
    assert!(!case_matches("m.Shape", "Line", "Other.Line"));
    assert!(!case_matches("m.Shape", "Line", "Shape.Dot"));
    assert!(case_matches("Result", "Ok", "Result.Ok"));
    assert_eq!(static_case_name("Option", "None"), Some(("Option", "None")));
    assert_eq!(static_case_name("m.Option", "None"), None);
}

#[test]
fn the_parts_of_a_declaration_say_which_words_are_handles() {
    let program = shape_program(false);
    assert_eq!(enum_parts(&program), vec![vec![vec![], vec![Part::Int, Part::Nested]]]);
    let ready = ready(A_STRUCT_INSIDE_A_STRUCT);
    assert_eq!(
        struct_parts(&ready.ir),
        vec![vec![Part::Int], vec![Part::Nested, Part::Int]]
    );
    assert_eq!(field_position(&ready.ir, "inner"), Some(0));
    assert_eq!(field_position(&ready.ir, "n"), None, "it stands at 0 in one and at 1 in another");
    assert_eq!(field_position(&ready.ir, "depth"), None);
}

#[test]
fn a_write_to_a_field_of_two_positions_is_refused() {
    let ready = ready(
        "struct Inner {\n  n: Int\n}\n\nstruct Outer {\n  inner: Inner\n  n: Int\n}\n\n\
         export fn main() -> Int {\n  var inner = Inner(n: 1)\n  inner.n = 2\n  inner.n\n}\n",
    );
    let refused = match ready.admitted() {
        Ok(id) => panic!("it is refused, and it admitted {id:?}"),
        Err(refused) => refused,
    };
    assert!(refused.what.contains("a write to `.n`"), "it was refused for `{}`", refused.what);
}

#[test]
fn an_option_of_a_known_host_is_opened_or_handed_back() {
    let code = vec![
        Inst::Const(ConstId(0)),
        Inst::CallHost { module: ConstId(1), op: ConstId(2), argc: 1 },
        Inst::Try { payload: SlotKind::Value },
        Inst::Pop,
        Inst::Const(ConstId(3)),
        Inst::MakeBuiltin { name: ConstId(4), argc: 1 },
        Inst::Return,
    ];
    let constants = vec![
        Const::Str("HOME".to_string()),
        Const::Name("env".to_string()),
        Const::Name("get".to_string()),
        Const::Int(7),
        Const::Name("Some".to_string()),
    ];
    let mut program = assembled_over(SlotKind::Value, constants, code, vec![]);
    for known in [false, true] {
        if known {
            program.hosts = shipped_schema();
        }
        for (answer, expected) in [
            (Value::some(Value::Str("/home/ada".to_string())), Value::some(Value::Int(7))),
            (Value::none(), Value::none()),
        ] {
            let mut vm = FrameVm::new(&program, None);
            vm.stress();
            let Pause::Host { .. } = vm.run_entry("m", "main", SLICE) else {
                panic!("the run waits for its host");
            };
            let pause = vm.answer_host(Ok(answer), SLICE);
            assert_eq!(outcome(pause), answered(expected));
        }
    }
}

#[test]
fn a_hosts_failure_ends_the_run_where_it_was_called() {
    let ready = ready("use echo\n\nexport fn main() -> Result<Int, Error> {\n  echo.int(42)\n}\n");
    let mut vm = FrameVm::new(&ready.ir, None);
    let Pause::Host { span: asked, .. } = vm.run_entry("m", "main", SLICE) else {
        panic!("the run waits for its host");
    };
    let failed = RuntimeError::new("the line dropped".to_string());
    let Outcome::Raised { message, span } = outcome(vm.answer_host(Err(failed), SLICE)) else {
        panic!("the run ends");
    };
    assert_eq!(message, "the line dropped");
    assert_eq!(span, Some(asked));
}

/// A case has a name and a payload, and nothing says which: it does not cross.
#[test]
fn a_case_is_not_handed_to_a_host() {
    let handing = |make: Vec<Inst>| {
        let mut code = make;
        code.push(Inst::CallHost { module: ConstId(1), op: ConstId(2), argc: 1 });
        code.push(Inst::Return);
        let mut program = assembled(
            SlotKind::Value,
            vec![],
            vec![
                Const::Int(1),
                Const::Name("echo".to_string()),
                Const::Name("many".to_string()),
                Const::Name("Some".to_string()),
            ],
            code,
        );
        program.hosts.push(echo_schema());
        program
    };
    let plain = handing(vec![Inst::Const(ConstId(0))]);
    assert!(admits(&plain, "m", "main").is_ok());
    let some = Inst::MakeBuiltin { name: ConstId(3), argc: 1 };
    let program = handing(vec![Inst::Const(ConstId(0)), some]);
    let operands = simulate(&program, &program.functions[0]);
    assert!(operands.top(2, 1).is_some(), "what stands there is known");
    assert!(operands.boundary(2, 1).is_none(), "and does not cross");
    assert!(admits(&program, "m", "main").is_err());
}

/// What a host answers is a word of the kind its type says, which a branch, a
/// text and a slot may take.
#[test]
fn a_hosts_answer_is_of_the_kind_its_type_says() {
    let plain = |name: &str, result: HostType| OperationSchema {
        result,
        ..operation(name, vec![], false, HostType::Unit)
    };
    let asking = |op: &str, result: HostType, then: Vec<Inst>| {
        let call = Inst::CallHost { module: ConstId(0), op: ConstId(1), argc: 0 };
        let mut code = vec![call];
        code.extend(then);
        let constants = vec![
            Const::Name("plain".to_string()),
            Const::Name(op.to_string()),
            Const::Name("Some".to_string()),
        ];
        let mut program = assembled(SlotKind::Value, vec![SlotKind::Value], constants, code);
        let mut schema = echo_schema();
        schema.name = "plain".to_string();
        schema.operations = vec![plain(op, result)];
        program.hosts.push(schema);
        program
    };
    let some = Inst::MakeBuiltin { name: ConstId(2), argc: 1 };
    let run = |program: &Program, answer: Value| {
        assert!(admits(program, "m", "main").is_ok());
        let mut vm = FrameVm::new(program, None);
        assert!(matches!(vm.run_entry("m", "main", SLICE), Pause::Host { .. }));
        outcome(vm.answer_host(Ok(answer), SLICE))
    };

    let branch = vec![
        Inst::JumpIfFalse(4),
        Inst::ScalarConst(1),
        Inst::Jump(5),
        Inst::ScalarConst(0),
        Inst::ScalarToValue(Scalar::Int),
        some,
        Inst::Return,
    ];
    let program = asking("yes", HostType::Bool, branch);
    assert_eq!(run(&program, Value::Bool(true)), answered(Value::some(Value::Int(1))));
    assert_eq!(run(&program, Value::Bool(false)), answered(Value::some(Value::Int(0))));

    let shown = vec![Inst::Concat(1), some, Inst::Return];
    for (result, answer, expected) in [
        (HostType::Int, Value::Int(-3), "-3"),
        (HostType::Bool, Value::Bool(true), "true"),
        (HostType::String, Value::Str("as it is".to_string()), "as it is"),
    ] {
        let program = asking("shown", result, shown.clone());
        assert_eq!(
            run(&program, answer),
            answered(Value::some(Value::Str(expected.to_string())))
        );
    }

    let stored = vec![Inst::StoreLocal(0), Inst::LoadLocal(0), Inst::Return];
    for (result, admitted) in [(HostType::Bool, false), (HostType::Int, false)] {
        let program = asking("stored", result, stored.clone());
        assert_eq!(admits(&program, "m", "main").is_ok(), admitted, "no handle stands there");
    }
    let nothing = vec![some, Inst::Return];
    let program = asking("unit", HostType::Unit, nothing);
    assert_eq!(run(&program, Value::Unit), answered(Value::some(Value::Unit)));
}

/// No step of an admitted run is at a loss, whatever it makes, tests, writes or
/// asks of a host.
#[test]
fn an_admitted_run_goes_on() {
    let mut ready = ready(
        "use echo\n\nstruct Cell {\n  at: Int\n}\n\n\
         fn twice(n: Int) -> Result<Int, Error> {\n  var m = echo.int(n)?\n  Ok(m + m)\n}\n\n\
         export fn main() -> Result<String, Error> {\n  \
         var cell = Cell(at: 4)\n  cell.at = cell.at + 1\n  \
         var n = twice(cell.at)?\n  \
         echo.text(\"{n}\")\n}\n",
    );
    for known in [false, true] {
        if known {
            ready.ir.hosts.push(echo_schema());
        }
        let mut hosts = echo_hosts(true);
        let mut vm = FrameVm::new(&ready.ir, None);
        vm.stress();
        let mut pause = vm.run_entry("m", "main", 0);
        let answer = loop {
            pause = match pause {
                Pause::Yielded => vm.execute(1),
                Pause::Host { module, op, arguments, .. } => {
                    vm.answer_host(hosts.call(&module, &op, arguments).result, 1)
                }
                other => break outcome(other),
            };
        };
        assert_eq!(answer, answered(Value::ok(Value::Str("10".to_string()))));
        let stats = vm.heap_stats();
        assert_eq!(stats.collections, vm.collections().0);
        assert!(stats.collections > 0);
        assert!(stats.pause > 0, "the time the collections took is counted");
        assert!(stats.live_bytes <= stats.peak_bytes);
        assert!(vm.most_expansions_at_once() >= stats.live_objects);
        assert_eq!(vm.marked(), vm.collections().2);
    }
}

/// What a host answers is what the program hands back out.
#[test]
fn a_host_answer_is_read_back() {
    for (call, expected) in [
        ("echo.text(\"several words\")", Value::ok(Value::Str("several words".to_string()))),
        ("echo.text(\"\")", Value::ok(Value::Str(String::new()))),
        ("echo.fails()", Value::err(Value::error("echo.fails always fails".to_string()))),
    ] {
        let ty = if call.contains("fails") { "Unit" } else { "String" };
        let mut ready = ready(&format!(
            "use echo\n\nexport fn main() -> Result<{ty}, Error> {{\n  {call}\n}}\n"
        ));
        ready.ir.hosts.push(echo_schema());
        let mut vm = FrameVm::new(&ready.ir, None);
        assert_eq!(drive(&mut vm, &mut echo_hosts(true)), answered(expected));
    }
}

#[test]
fn a_scalar_program_always_goes_on() {
    let program = assembled(
        SlotKind::Scalar(Scalar::Int),
        vec![SlotKind::Scalar(Scalar::Int)],
        vec![],
        vec![
            Inst::ScalarConst(10),
            Inst::StoreScalar(0),
            Inst::LoadScalar(0),
            Inst::JumpIfFalseScalar(8),
            Inst::LoadScalar(0),
            Inst::ScalarConst(1),
            Inst::IntBinary(IntOp::Sub),
            Inst::Jump(1),
            Inst::LoadScalar(0),
            Inst::ReturnScalar,
        ],
    );
    let mut vm = FrameVm::new(&program, None);
    let mut pause = vm.run_entry("m", "main", 0);
    let mut steps = 0;
    while let Pause::Yielded = pause {
        pause = vm.execute(1);
        steps += 1;
    }
    assert_eq!(outcome(pause), answered(Value::Int(0)));
    assert_eq!(steps, 1 + 10 * 7 + 3 + 2);
}
