//! Whole expressions, from their text to the points that satisfy them.

use std::cell::{Cell, RefCell};
use std::rc::Rc;

use basin::{Cobyla, CobylaState, CostFunction, Executor, NonlinearInequalityConstraints, TerminationReason};
use faer::linalg::solvers::Solve;
use faer::{Col, Mat};
use rand::rngs::Xoshiro256PlusPlus;
use rand::{RngExt, SeedableRng};

use sojourn::ast::{
    block_is_integral, is_integral, AggregateKind, Assignment, BinaryOp, Block, CompareOp, Expr, GlobalId, Kind,
    LocalSlot, Program, UnaryOp,
};
use sojourn::classify::{shape, Shape};
use sojourn::diagnostics::{CompilationFailure, Problem, ProblemKind, Span};
use sojourn::differentiate::differentiate;
use sojourn::frontend::{locate, Ast};
use sojourn::hc4::{compile, IntervalTape};
use sojourn::interval::{Interval, Intervals};
use sojourn::irgen::emit;
use sojourn::local;
use sojourn::machine::{Function, Machine, Operation};
use sojourn::matching;
use sojourn::newton;
use sojourn::nodes::Schema;
use sojourn::number::Real;
use sojourn::plans::{plans, Plan};
use sojourn::prune::{bisect, contract, Contracted, Node, Pruned};
use sojourn::regalloc::AllocatedTape;
use sojourn::repair::{Helpers, RepairError};
use sojourn::search::{self, Ladder, Next, Opening, Sampler, Squad, Trial};
use sojourn::slicing::tightest;
use sojourn::solve::{conclude, ConstraintSolver, FeasibleRegion, Infeasibility, Status, Strategy};
use sojourn::system::{ConstraintSystem, Evaluate, InputVariable, OutOfRange, SystemError};
use sojourn::tape::{Accumulate, FaultKind, Instruction, LaneFault, Register, VirtualRegister, VirtualTape};

// ---- numbers ----

fn r(x: f64) -> Real {
    Real::from_bits(x.to_bits())
}

fn f(x: Real) -> f64 {
    f64::from_bits(x.to_bits())
}

fn rs(xs: &[f64]) -> Vec<Real> {
    xs.iter().map(|x| r(*x)).collect()
}

fn fs(xs: &[Real]) -> Vec<f64> {
    xs.iter().map(|x| f(*x)).collect()
}

fn variable(name: &str, lo: f64, hi: f64) -> InputVariable {
    InputVariable::new(name, r(lo), r(hi))
}

fn spell(value: Real) -> String {
    format!("{}", f(value))
}

/// Double precision, as the hardware and the mathematics library have it.
struct Doubles;

impl Machine for Doubles {
    fn call(&self, function: Function, x: Real) -> Real {
        let x = f(x);
        r(match function {
            Function::Cos => x.cos(),
            Function::Sin => x.sin(),
            Function::Tan => x.tan(),
            Function::Acos => x.acos(),
            Function::Asin => x.asin(),
            Function::Atan => x.atan(),
            Function::Cosh => x.cosh(),
            Function::Sinh => x.sinh(),
            Function::Tanh => x.tanh(),
            Function::Ln => x.ln(),
            Function::Log10 => x.log10(),
            Function::Sqrt => x.sqrt(),
            Function::Cbrt => x.cbrt(),
            Function::Ceil => x.ceil(),
            Function::Floor => x.floor(),
        })
    }

    fn operate(&self, operation: Operation, a: Real, b: Real) -> Real {
        let (a, b) = (f(a), f(b));
        r(match operation {
            Operation::Add => a + b,
            Operation::Sub => a - b,
            Operation::Mul => a * b,
            Operation::Div => a / b,
            Operation::Rem => a % b,
            Operation::Pow => a.powf(b),
        })
    }
}

// ---- the language ----

/// A tree as written, which can be copied and compared.
#[derive(Debug, Clone)]
struct Tree {
    kind: Shapeless,
    span: (u32, u32),
}

#[derive(Debug, Clone)]
enum Shapeless {
    Number(f64),
    Name(String),
    Local(u32),
    Subscript(Box<Tree>),
    Unary(UnaryOp, Box<Tree>),
    Binary(BinaryOp, Box<Tree>, Box<Tree>),
    Fold(AggregateKind, Vec<Tree>),
    Block(Vec<(u32, Tree)>, Box<Tree>),
    Compare(CompareOp, Box<Tree>, Box<Tree>),
    Near(Box<Tree>, Box<Tree>, f64),
    All(Vec<Tree>),
}

fn alike(a: &Tree, b: &Tree) -> bool {
    match (&a.kind, &b.kind) {
        (Shapeless::Number(x), Shapeless::Number(y)) => x.to_bits() == y.to_bits(),
        (Shapeless::Name(x), Shapeless::Name(y)) => x == y,
        (Shapeless::Local(x), Shapeless::Local(y)) => x == y,
        (Shapeless::Subscript(x), Shapeless::Subscript(y)) => alike(x, y),
        (Shapeless::Unary(o, x), Shapeless::Unary(p, y)) => o == p && alike(x, y),
        (Shapeless::Binary(o, x, y), Shapeless::Binary(p, z, w)) => o == p && alike(x, z) && alike(y, w),
        _ => false,
    }
}

struct Reader<'a> {
    text: Vec<char>,
    at: usize,
    scope: Vec<(String, Bound)>,
    slots: u32,
    source: &'a str,
}

#[derive(Clone)]
enum Bound {
    Slot(u32),
    Value(f64),
}

impl Reader<'_> {
    fn blanks(&mut self) {
        while self.at < self.text.len() && self.text[self.at].is_whitespace() {
            self.at += 1;
        }
    }

    fn sees(&mut self, token: &str) -> bool {
        self.blanks();
        let end = self.at + token.chars().count();
        end <= self.text.len() && self.text[self.at..end].iter().collect::<String>() == token
    }

    fn takes(&mut self, token: &str) -> bool {
        let seen = self.sees(token);
        if seen {
            self.at += token.chars().count();
        }
        seen
    }

    fn wants(&mut self, token: &str) {
        assert!(self.takes(token), "{token:?} at {} of {:?}", self.at, self.source);
    }

    fn word(&mut self) -> Option<String> {
        self.blanks();
        let start = self.at;
        let mut end = start;
        while end < self.text.len() && (self.text[end].is_alphanumeric() || self.text[end] == '_') {
            end += 1;
        }
        if end == start || self.text[start].is_ascii_digit() {
            return None;
        }
        self.at = end;
        Some(self.text[start..end].iter().collect())
    }

    fn start(&mut self) -> u32 {
        self.blanks();
        self.at as u32
    }

    /// Assignments and a result.
    fn body(&mut self) -> Tree {
        let begin = self.start();
        let depth = self.scope.len();
        let mut bound: Vec<(u32, Tree)> = Vec::new();
        loop {
            let here = self.at;
            if self.word().as_deref() == Some("var") && !self.sees("[") {
                let name = self.word().expect("a name is bound");
                self.wants("=");
                let value = self.comparison();
                self.wants(";");
                let slot = self.slots;
                self.slots += 1;
                self.scope.push((name, Bound::Slot(slot)));
                bound.push((slot, value));
            } else {
                self.at = here;
                break;
            }
        }
        let result = self.comparison();
        self.scope.truncate(depth);
        if bound.is_empty() {
            result
        } else {
            let end = self.at as u32;
            Tree { kind: Shapeless::Block(bound, Box::new(result)), span: (begin, end) }
        }
    }

    fn comparison(&mut self) -> Tree {
        let begin = self.start();
        let lhs = self.sum();
        if self.takes("==") {
            let rhs = self.sum();
            self.wants("+/-");
            let tolerance = match self.sum().kind {
                Shapeless::Number(value) => value,
                other => panic!("a tolerance is a number, not {other:?}"),
            };
            return Tree {
                kind: Shapeless::Near(Box::new(lhs), Box::new(rhs), tolerance),
                span: (begin, self.at as u32),
            };
        }
        for (token, op) in [
            ("<=", CompareOp::Lte),
            (">=", CompareOp::Gte),
            ("<", CompareOp::Lt),
            (">", CompareOp::Gt),
        ] {
            if self.takes(token) {
                let rhs = self.sum();
                return compared(op, lhs, rhs, (begin, self.at as u32));
            }
        }
        lhs
    }

    fn sum(&mut self) -> Tree {
        let begin = self.start();
        let mut left = self.product();
        loop {
            let op = if self.sees("+/-") {
                break;
            } else if self.takes("+") {
                BinaryOp::Add
            } else if self.takes("-") {
                BinaryOp::Sub
            } else {
                break;
            };
            let right = self.product();
            left = joined(op, left, right, (begin, self.at as u32));
        }
        left
    }

    fn product(&mut self) -> Tree {
        let begin = self.start();
        let mut left = self.signed();
        loop {
            let op = if self.takes("*") {
                BinaryOp::Mul
            } else if self.takes("/") {
                BinaryOp::Div
            } else if self.takes("%") {
                BinaryOp::Rem
            } else {
                break;
            };
            let right = self.signed();
            left = joined(op, left, right, (begin, self.at as u32));
        }
        left
    }

    fn signed(&mut self) -> Tree {
        let begin = self.start();
        if self.takes("-") {
            let arg = self.signed();
            return applied(UnaryOp::Negate, arg, (begin, self.at as u32));
        }
        let base = self.atom();
        if self.takes("^") {
            let exponent = self.signed();
            return joined(BinaryOp::Pow, base, exponent, (begin, self.at as u32));
        }
        base
    }

    fn atom(&mut self) -> Tree {
        let begin = self.start();
        if self.takes("(") {
            let inner = self.comparison();
            self.wants(")");
            return inner;
        }
        let Some(name) = self.word() else {
            let mut end = self.at;
            while end < self.text.len() && (self.text[end].is_ascii_digit() || self.text[end] == '.') {
                end += 1;
            }
            let digits: String = self.text[self.at..end].iter().collect();
            self.at = end;
            let value = digits.parse().unwrap_or_else(|_| panic!("{digits:?} in {:?}", self.source));
            return Tree { kind: Shapeless::Number(value), span: (begin, end as u32) };
        };
        if name == "var" {
            self.wants("[");
            let index = self.sum();
            self.wants("]");
            return Tree { kind: Shapeless::Subscript(Box::new(index)), span: (begin, self.at as u32) };
        }
        if (name == "sum" || name == "prod") && self.sees("(") {
            return self.aggregate(if name == "sum" { AggregateKind::Sum } else { AggregateKind::Prod }, begin);
        }
        if self.sees("(") {
            self.wants("(");
            let first = self.sum();
            if self.takes(",") {
                let second = self.sum();
                self.wants(")");
                let op = BinaryOp::from_function_keyword(&name).expect("a function of two");
                return joined(op, first, second, (begin, self.at as u32));
            }
            self.wants(")");
            let op = UnaryOp::from_keyword(&name).unwrap_or_else(|| panic!("{name:?} is no function"));
            return applied(op, first, (begin, self.at as u32));
        }
        let end = self.at as u32;
        let bound = self.scope.iter().rev().find(|(candidate, _)| *candidate == name).map(|(_, b)| b.clone());
        let kind = match bound {
            Some(Bound::Slot(slot)) => Shapeless::Local(slot),
            Some(Bound::Value(value)) => Shapeless::Number(value),
            None if name == "pi" => Shapeless::Number(std::f64::consts::PI),
            None if name == "e" => Shapeless::Number(std::f64::consts::E),
            None => Shapeless::Name(name),
        };
        Tree { kind, span: (begin, end) }
    }

    /// Unrolled as it is read: the body is read once per value.
    fn aggregate(&mut self, kind: AggregateKind, begin: u32) -> Tree {
        self.wants("(");
        let whole = |tree: Tree| match tree.kind {
            Shapeless::Number(value) => value as i64,
            other => panic!("a bound is a number, not {other:?}"),
        };
        let lower = whole(self.sum());
        self.wants(",");
        let upper = whole(self.sum());
        self.wants(",");
        let name = self.word().expect("a parameter");
        self.wants("->");
        let (here, slots) = (self.at, self.slots);
        let mut terms = Vec::new();
        let mut most = slots;
        for value in lower..=upper {
            self.at = here;
            self.slots = slots;
            self.scope.push((name.clone(), Bound::Value(value as f64)));
            terms.push(self.body());
            self.scope.pop();
            most = most.max(self.slots);
        }
        self.slots = most;
        self.wants(")");
        Tree { kind: Shapeless::Fold(kind, terms), span: (begin, self.at as u32) }
    }
}

/// A function of one, folded where its argument is a number.
fn applied(op: UnaryOp, arg: Tree, span: (u32, u32)) -> Tree {
    let kind = match arg.kind {
        Shapeless::Number(value) => Shapeless::Number(f(op.apply(&Doubles, r(value)))),
        _ => Shapeless::Unary(op, Box::new(arg)),
    };
    Tree { kind, span }
}

/// An operation, folded where both sides are numbers, and a power where the
/// sides are powers of one thing.
fn joined(op: BinaryOp, lhs: Tree, rhs: Tree, span: (u32, u32)) -> Tree {
    if let (Shapeless::Number(a), Shapeless::Number(b)) = (&lhs.kind, &rhs.kind) {
        return Tree { kind: Shapeless::Number(f(op.apply(&Doubles, r(*a), r(*b)))), span };
    }
    if op == BinaryOp::Mul {
        let (base, n) = power_of(&lhs);
        let (other, m) = power_of(&rhs);
        if alike(base, other) {
            let exponent = Tree { kind: Shapeless::Number(n + m), span };
            return Tree { kind: Shapeless::Binary(BinaryOp::Pow, Box::new(base.clone()), Box::new(exponent)), span };
        }
    }
    Tree { kind: Shapeless::Binary(op, Box::new(lhs), Box::new(rhs)), span }
}

fn power_of(tree: &Tree) -> (&Tree, f64) {
    if let Shapeless::Binary(BinaryOp::Pow, base, exponent) = &tree.kind {
        if let Shapeless::Number(n) = exponent.kind {
            if n.fract() == 0.0 && n > 0.0 && n <= 32.0 {
                return (base, n);
            }
        }
    }
    (tree, 1.0)
}

/// A comparison, with a logarithm on its own undone into bounds.
fn compared(op: CompareOp, lhs: Tree, rhs: Tree, span: (u32, u32)) -> Tree {
    if let (Shapeless::Unary(UnaryOp::Ln, arg), Shapeless::Number(value)) = (&lhs.kind, &rhs.kind) {
        let bound = Tree { kind: Shapeless::Number(value.exp()), span: rhs.span };
        let first = Tree { kind: Shapeless::Compare(op, arg.clone(), Box::new(bound)), span };
        if matches!(op, CompareOp::Gt | CompareOp::Gte) {
            return first;
        }
        let none = Tree { kind: Shapeless::Number(0.0), span: rhs.span };
        let second = Tree { kind: Shapeless::Compare(CompareOp::Gt, arg.clone(), Box::new(none)), span };
        return Tree { kind: Shapeless::All(vec![first, second]), span };
    }
    Tree { kind: Shapeless::Compare(op, Box::new(lhs), Box::new(rhs)), span }
}

/// Names in first-reference order.
fn names_in(tree: &Tree, names: &mut Vec<String>) {
    match &tree.kind {
        Shapeless::Number(_) | Shapeless::Local(_) => {}
        Shapeless::Name(name) => {
            if !names.contains(name) {
                names.push(name.clone());
            }
        }
        Shapeless::Subscript(arg) | Shapeless::Unary(_, arg) => names_in(arg, names),
        Shapeless::Binary(_, a, b) | Shapeless::Compare(_, a, b) | Shapeless::Near(a, b, _) => {
            names_in(a, names);
            names_in(b, names);
        }
        Shapeless::Fold(_, terms) | Shapeless::All(terms) => terms.iter().for_each(|t| names_in(t, names)),
        Shapeless::Block(bound, result) => {
            bound.iter().for_each(|(_, value)| names_in(value, names));
            names_in(result, names);
        }
    }
}

fn has_subscript(tree: &Tree) -> bool {
    match &tree.kind {
        Shapeless::Number(_) | Shapeless::Local(_) | Shapeless::Name(_) => false,
        Shapeless::Subscript(_) => true,
        Shapeless::Unary(_, arg) => has_subscript(arg),
        Shapeless::Binary(_, a, b) | Shapeless::Compare(_, a, b) | Shapeless::Near(a, b, _) => {
            has_subscript(a) || has_subscript(b)
        }
        Shapeless::Fold(_, terms) | Shapeless::All(terms) => terms.iter().any(has_subscript),
        Shapeless::Block(bound, result) => bound.iter().any(|(_, v)| has_subscript(v)) || has_subscript(result),
    }
}

fn span_of(span: (u32, u32)) -> Span {
    Span::new(span.0, span.1)
}

fn expr_of(tree: &Tree, names: &[String]) -> Expr {
    let sub = |t: &Tree| Box::new(expr_of(t, names));
    let kind = match &tree.kind {
        Shapeless::Number(value) => Kind::Literal(r(*value)),
        Shapeless::Name(name) => {
            let at = names.iter().position(|n| n == name).expect("every name is listed");
            Kind::Global(GlobalId::from_index(at as u32))
        }
        Shapeless::Local(slot) => Kind::Local(LocalSlot::from_index(*slot)),
        Shapeless::Subscript(arg) => Kind::DynamicIndex(sub(arg)),
        Shapeless::Unary(op, arg) => Kind::Unary { op: *op, arg: sub(arg) },
        Shapeless::Binary(op, a, b) => Kind::Binary { op: *op, lhs: sub(a), rhs: sub(b) },
        Shapeless::Fold(kind, terms) => {
            Kind::Fold { kind: *kind, terms: terms.iter().map(|t| expr_of(t, names)).collect() }
        }
        Shapeless::Block(_, _) => Kind::Block(Box::new(block_of(tree, names))),
        Shapeless::Compare(op, a, b) => Kind::Compare { op: *op, lhs: sub(a), rhs: sub(b) },
        Shapeless::Near(a, b, tolerance) => Kind::NearEq { lhs: sub(a), rhs: sub(b), tolerance: r(*tolerance) },
        Shapeless::All(terms) => Kind::And { terms: terms.iter().map(|t| expr_of(t, names)).collect() },
    };
    Expr::new(kind, span_of(tree.span))
}

fn block_of(tree: &Tree, names: &[String]) -> Block {
    match &tree.kind {
        Shapeless::Block(bound, result) => Block {
            assignments: bound
                .iter()
                .map(|(slot, value)| Assignment {
                    slot: LocalSlot::from_index(*slot),
                    value: expr_of(value, names),
                    span: span_of(value.span),
                })
                .collect(),
            result: expr_of(result, names),
        },
        _ => Block { assignments: Vec::new(), result: expr_of(tree, names) },
    }
}

/// The tree of an expression.
fn tree_of(expr: &Expr, names: &[String]) -> Tree {
    let sub = |e: &Expr| Box::new(tree_of(e, names));
    let kind = match &expr.kind {
        Kind::Literal(value) => Shapeless::Number(f(*value)),
        Kind::Global(id) => Shapeless::Name(names[id.index()].clone()),
        Kind::Local(slot) => Shapeless::Local(slot.index() as u32),
        Kind::DynamicIndex(arg) => Shapeless::Subscript(sub(arg)),
        Kind::Unary { op, arg } => Shapeless::Unary(*op, sub(arg)),
        Kind::Binary { op, lhs, rhs } => Shapeless::Binary(*op, sub(lhs), sub(rhs)),
        Kind::Fold { kind, terms } => Shapeless::Fold(*kind, terms.iter().map(|t| tree_of(t, names)).collect()),
        Kind::Block(block) => return tree_of_block(block, names, (expr.span.start, expr.span.end)),
        Kind::Compare { op, lhs, rhs } => Shapeless::Compare(*op, sub(lhs), sub(rhs)),
        Kind::NearEq { lhs, rhs, tolerance } => Shapeless::Near(sub(lhs), sub(rhs), f(*tolerance)),
        Kind::And { terms } => Shapeless::All(terms.iter().map(|t| tree_of(t, names)).collect()),
        Kind::Aggregate { .. } => unreachable!("an aggregate is unrolled where it is read"),
    };
    Tree { kind, span: (expr.span.start, expr.span.end) }
}

fn tree_of_block(block: &Block, names: &[String], span: (u32, u32)) -> Tree {
    let result = tree_of(&block.result, names);
    if block.assignments.is_empty() {
        return result;
    }
    let bound = block
        .assignments
        .iter()
        .map(|assignment| (assignment.slot.index() as u32, tree_of(&assignment.value, names)))
        .collect();
    Tree { kind: Shapeless::Block(bound, Box::new(result)), span }
}

fn ast_of(source: &str, tree: &Tree, slots: u32) -> Ast {
    let mut symbols = Vec::new();
    names_in(tree, &mut symbols);
    let body = block_of(tree, &symbols);
    let is_constraint =
        matches!(&body.result.kind, Kind::Compare { .. } | Kind::NearEq { .. } | Kind::And { .. });
    Ast {
        source: source.to_owned(),
        program: Program { body, frame_size: slots },
        symbols,
        contains_dynamic_lookup: has_subscript(tree),
        is_constraint,
    }
}

fn parse(source: &str) -> Ast {
    let mut reader = Reader { text: source.chars().collect(), at: 0, scope: Vec::new(), slots: 0, source };
    let tree = reader.body();
    reader.blanks();
    assert_eq!(reader.at, reader.text.len(), "{source:?}");
    ast_of(source, &tree, reader.slots)
}

/// Subscripts that are numbers become the names they are of.
fn named_subscripts(tree: &Tree, inputs: &[String]) -> Result<Tree, OutOfRange> {
    let sub = |t: &Tree| named_subscripts(t, inputs).map(Box::new);
    let all = |ts: &[Tree]| ts.iter().map(|t| named_subscripts(t, inputs)).collect::<Result<Vec<_>, _>>();
    let kind = match &tree.kind {
        Shapeless::Number(_) | Shapeless::Local(_) | Shapeless::Name(_) => tree.kind.clone(),
        Shapeless::Subscript(arg) => match arg.kind {
            Shapeless::Number(value) => {
                let requested = value as i64;
                if requested < 1 || requested as usize > inputs.len() {
                    return Err(OutOfRange { requested, available: inputs.len() });
                }
                Shapeless::Name(inputs[requested as usize - 1].clone())
            }
            _ => Shapeless::Subscript(sub(arg)?),
        },
        Shapeless::Unary(op, arg) => Shapeless::Unary(*op, sub(arg)?),
        Shapeless::Binary(op, a, b) => Shapeless::Binary(*op, sub(a)?, sub(b)?),
        Shapeless::Fold(kind, terms) => Shapeless::Fold(*kind, all(terms)?),
        Shapeless::Block(bound, result) => Shapeless::Block(
            bound
                .iter()
                .map(|(slot, value)| named_subscripts(value, inputs).map(|v| (*slot, v)))
                .collect::<Result<Vec<_>, _>>()?,
            sub(result)?,
        ),
        Shapeless::Compare(op, a, b) => Shapeless::Compare(*op, sub(a)?, sub(b)?),
        Shapeless::Near(a, b, tolerance) => Shapeless::Near(sub(a)?, sub(b)?, *tolerance),
        Shapeless::All(terms) => Shapeless::All(all(terms)?),
    };
    Ok(Tree { kind, span: tree.span })
}

fn resolve(ast: Ast, schema: &Schema) -> Result<Ast, OutOfRange> {
    let tree = tree_of_block(&ast.program.body, &ast.symbols, (0, ast.source.chars().count() as u32));
    Ok(ast_of(&ast.source, &named_subscripts(&tree, &schema.inputs)?, ast.program.frame_size))
}

/// Whole powers become products of a base computed once.
fn multiplied(tree: &Tree, slots: &mut u32) -> Tree {
    let span = tree.span;
    let kind = match &tree.kind {
        Shapeless::Number(_) | Shapeless::Local(_) | Shapeless::Name(_) => tree.kind.clone(),
        Shapeless::Binary(BinaryOp::Pow, base, exponent) => {
            let base = multiplied(base, slots);
            let whole = match exponent.kind {
                Shapeless::Number(n) if n.fract() == 0.0 && n.abs() <= 64.0 => Some(n as i64),
                _ => None,
            };
            let Some(n) = whole else {
                let exponent = multiplied(exponent, slots);
                return Tree { kind: Shapeless::Binary(BinaryOp::Pow, Box::new(base), Box::new(exponent)), span };
            };
            if n == 0 {
                return Tree { kind: Shapeless::Number(1.0), span };
            }
            let leaf = matches!(base.kind, Shapeless::Name(_) | Shapeless::Local(_));
            let factor = if leaf {
                base.clone()
            } else {
                let slot = *slots;
                *slots += 1;
                Tree { kind: Shapeless::Local(slot), span: base.span }
            };
            let mut product = factor.clone();
            for _ in 1..n.abs() {
                product = Tree {
                    kind: Shapeless::Binary(BinaryOp::Mul, Box::new(product), Box::new(factor.clone())),
                    span,
                };
            }
            if n < 0 {
                let one = Tree { kind: Shapeless::Number(1.0), span };
                product = Tree { kind: Shapeless::Binary(BinaryOp::Div, Box::new(one), Box::new(product)), span };
            }
            match factor.kind {
                Shapeless::Local(slot) if !leaf => Shapeless::Block(vec![(slot, base)], Box::new(product)),
                _ => product.kind,
            }
        }
        Shapeless::Subscript(arg) => Shapeless::Subscript(Box::new(multiplied(arg, slots))),
        Shapeless::Unary(op, arg) => Shapeless::Unary(*op, Box::new(multiplied(arg, slots))),
        Shapeless::Binary(op, a, b) => {
            Shapeless::Binary(*op, Box::new(multiplied(a, slots)), Box::new(multiplied(b, slots)))
        }
        Shapeless::Fold(kind, terms) => {
            Shapeless::Fold(*kind, terms.iter().map(|t| multiplied(t, slots)).collect())
        }
        Shapeless::Block(bound, result) => Shapeless::Block(
            bound.iter().map(|(slot, value)| (*slot, multiplied(value, slots))).collect(),
            Box::new(multiplied(result, slots)),
        ),
        Shapeless::Compare(op, a, b) => {
            Shapeless::Compare(*op, Box::new(multiplied(a, slots)), Box::new(multiplied(b, slots)))
        }
        Shapeless::Near(a, b, tolerance) => {
            Shapeless::Near(Box::new(multiplied(a, slots)), Box::new(multiplied(b, slots)), *tolerance)
        }
        Shapeless::All(terms) => Shapeless::All(terms.iter().map(|t| multiplied(t, slots)).collect()),
    };
    Tree { kind, span }
}

fn schema_of(names: &[&str]) -> Schema {
    Schema { inputs: names.iter().map(|name| (*name).to_owned()).collect(), intermediates: Vec::new() }
}

// ---- evaluation ----

/// An expression bound to a schema: its tape, and the one that computes its
/// gradient as well.
#[derive(Debug, Clone)]
struct Compiled {
    source: String,
    symbols: Vec<String>,
    tape: VirtualTape,
    sweep: Option<VirtualTape>,
}

fn program_of(ast: &Ast) -> Program {
    let mut slots = ast.program.frame_size;
    let tree = tree_of_block(&ast.program.body, &ast.symbols, (0, ast.source.chars().count() as u32));
    let tree = multiplied(&tree, &mut slots);
    Program { body: block_of(&tree, &ast.symbols), frame_size: slots }
}

fn bind(ast: &Ast, schema: &Schema) -> Compiled {
    let positions: Vec<u32> = ast
        .symbols
        .iter()
        .map(|symbol| schema.inputs.iter().position(|name| name == symbol).expect("bound") as u32)
        .collect();
    let tape = emit(&program_of(ast), &positions);
    let sweep = differentiate(&tape, &positions);
    Compiled { source: ast.source.clone(), symbols: ast.symbols.clone(), tape, sweep }
}

fn compiled(source: &str, names: &[&str]) -> Compiled {
    let schema = schema_of(names);
    bind(&resolve(parse(source), &schema).expect("the subscripts are in range"), &schema)
}

fn tape_for(source: &str, names: &[&str]) -> AllocatedTape {
    compiled(source, names).tape.allocate()
}

/// The residual of a comparison: at most zero where it holds, and a strict one
/// holds only past the smallest step.
fn residual(op: CompareOp, a: f64, b: f64) -> f64 {
    match op {
        CompareOp::Lt => a - b + f64::MIN_POSITIVE,
        CompareOp::Lte => a - b,
        CompareOp::Gt => b - a + f64::MIN_POSITIVE,
        CompareOp::Gte => b - a,
    }
}

/// What a run leaves: the result and the partials.
struct Ran {
    result: f64,
    partials: Vec<f64>,
}

fn run(tape: &VirtualTape, row: &[f64]) -> Result<Ran, (usize, FaultKind)> {
    let first_local = tape.consts.values.len();
    let first_temp = first_local + usize::from(tape.locals);
    let at = |register: VirtualRegister| match register {
        VirtualRegister::Const(i) => usize::from(i),
        VirtualRegister::Local(i) => first_local + usize::from(i),
        VirtualRegister::Temp(i) => first_temp + i as usize,
    };
    let mut registers = fs(&tape.consts.values);
    registers.resize(first_temp + tape.temps as usize, f64::NAN);
    for (i, insn) in tape.insns.iter().enumerate() {
        let get = |register: VirtualRegister| registers[at(register)];
        let checked = |value: f64| {
            if value.is_finite() {
                Ok(value)
            } else {
                Err((i, FaultKind::NonFinite(r(value))))
            }
        };
        let (dst, value) = match *insn {
            Instruction::Load { dst, input } => (dst, checked(row[input as usize])?),
            Instruction::Copy { dst, src } => (dst, get(src)),
            Instruction::Unary { dst, op, a } => (dst, checked(f(op.apply(&Doubles, r(get(a)))))?),
            Instruction::Binary { dst, op, a, b } => (dst, checked(f(op.apply(&Doubles, r(get(a)), r(get(b)))))?),
            Instruction::Compare { dst, op, a, b } => (dst, checked(residual(op, get(a), get(b)))?),
            Instruction::Combine { dst, how, a, b, last } => {
                let value = f(how.apply(&Doubles, r(get(a)), r(get(b))));
                (dst, if last { checked(value)? } else { value })
            }
            Instruction::Check { reg } => {
                checked(get(reg))?;
                continue;
            }
            Instruction::Gather { dst, index, .. } => {
                let place = get(index);
                if place.fract() != 0.0 {
                    return Err((i, FaultKind::NotAnInteger(r(place))));
                }
                if place < 1.0 || place > row.len() as f64 {
                    let requested_1index = place as i64;
                    return Err((i, FaultKind::OutOfBounds { requested_1index, available: row.len() }));
                }
                (dst, checked(row[place as usize - 1])?)
            }
        };
        registers[at(dst)] = value;
    }
    Ok(Ran {
        result: registers[at(tape.result)],
        partials: tape.partials.iter().map(|partial| registers[at(*partial)]).collect(),
    })
}

impl Compiled {
    fn value(&self, row: &[f64]) -> Option<f64> {
        run(&self.tape, row).ok().map(|ran| ran.result)
    }

    fn value_and_partials(&self, row: &[f64]) -> Result<(f64, Vec<f64>), (usize, FaultKind)> {
        let ran = run(self.sweep.as_ref().expect("differentiable"), row)?;
        Ok((ran.result, ran.partials))
    }
}

impl Evaluate for Compiled {
    fn eval_row(&self, point: &Vec<Real>) -> Option<Real> {
        self.value(&fs(point)).map(r)
    }

    fn has_gradient(&self) -> bool {
        self.sweep.is_some()
    }

    fn gradient(&self, point: &Vec<Real>) -> Option<Vec<Real>> {
        self.sweep.as_ref()?;
        let (_, partials) = self.value_and_partials(&fs(point)).ok()?;
        if partials.iter().all(|p| p.is_finite()) {
            Some(rs(&partials))
        } else {
            None
        }
    }
}

fn system(inputs: Vec<InputVariable>, sources: &[&str]) -> ConstraintSystem<Compiled> {
    let sources: Vec<String> = sources.iter().map(|source| (*source).to_owned()).collect();
    ConstraintSystem::new(inputs, &sources, |source: &String| Ok(parse(source)), resolve, bind)
        .expect("the fixture binds")
}

// ---- intervals ----

/// Interval arithmetic, rounded outward by an ulp or two.
struct Outward;

fn ends(x: Interval) -> (f64, f64) {
    (f(x.lo), f(x.hi))
}

fn interval(lo: f64, hi: f64) -> Interval {
    Interval::new(r(lo), r(hi))
}

fn padded(lo: f64, hi: f64) -> Interval {
    if lo.is_nan() || hi.is_nan() {
        return Interval::entire();
    }
    interval(lo.next_down().next_down(), hi.next_up().next_up())
}

fn hull(values: &[f64]) -> Interval {
    if values.iter().any(|v| v.is_nan()) {
        return Interval::entire();
    }
    let lo = values.iter().copied().fold(f64::INFINITY, f64::min);
    let hi = values.iter().copied().fold(f64::NEG_INFINITY, f64::max);
    padded(lo, hi)
}

fn meet(a: Interval, b: Interval) -> Interval {
    let both = a.intersect(b);
    if both.is_empty() {
        Interval::empty()
    } else {
        both
    }
}

fn join(a: Interval, b: Interval) -> Interval {
    if a.is_empty() {
        return b;
    }
    if b.is_empty() {
        return a;
    }
    let ((a, b), (c, d)) = (ends(a), ends(b));
    interval(a.min(c), b.max(d))
}

fn times_of(a: f64, b: f64) -> f64 {
    if a == 0.0 || b == 0.0 {
        0.0
    } else {
        a * b
    }
}

fn times(x: Interval, y: Interval) -> Interval {
    let ((a, b), (c, d)) = (ends(x), ends(y));
    hull(&[times_of(a, c), times_of(a, d), times_of(b, c), times_of(b, d)])
}

/// What `x / y` may be, `y` with or without zero.
fn over(x: Interval, y: Interval) -> Interval {
    if x.is_empty() || y.is_empty() {
        return Interval::empty();
    }
    let ((a, b), (c, d)) = (ends(x), ends(y));
    if c > 0.0 || d < 0.0 {
        let quotient = |p: f64, q: f64| if p == 0.0 || q.is_infinite() { 0.0 } else { p / q };
        return hull(&[quotient(a, c), quotient(a, d), quotient(b, c), quotient(b, d)]);
    }
    if a <= 0.0 && b >= 0.0 {
        return Interval::entire();
    }
    if c == 0.0 && d == 0.0 {
        return Interval::empty();
    }
    let (near, sign) = if a > 0.0 { (a, 1.0) } else { (-b, -1.0) };
    let up = if d > 0.0 { interval((near / d).next_down().next_down(), f64::INFINITY) } else { Interval::empty() };
    let down = if c < 0.0 { interval(f64::NEG_INFINITY, (near / c).next_up().next_up()) } else { Interval::empty() };
    let both = join(up, down);
    if sign > 0.0 {
        both
    } else {
        let (lo, hi) = ends(both);
        interval(-hi, -lo)
    }
}

fn rising(x: Interval, least: f64, most: f64, g: fn(f64) -> f64) -> Interval {
    let inside = meet(x, interval(least, most));
    if inside.is_empty() {
        return Interval::empty();
    }
    let (lo, hi) = ends(inside);
    padded(g(lo), g(hi))
}

fn negated(x: Interval) -> Interval {
    let (lo, hi) = ends(x);
    interval(-hi, -lo)
}

fn whole_power(x: Interval, n: i64) -> Interval {
    if x.is_empty() {
        return Interval::empty();
    }
    if n == 0 {
        return interval(1.0, 1.0);
    }
    if n < 0 {
        return over(interval(1.0, 1.0), whole_power(x, -n));
    }
    let (lo, hi) = ends(x);
    let raise = |v: f64| v.powi(n as i32);
    if n % 2 == 1 {
        return padded(raise(lo), raise(hi));
    }
    let most = raise(lo).max(raise(hi));
    if lo <= 0.0 && hi >= 0.0 {
        interval(0.0, most.next_up().next_up())
    } else {
        let least = raise(lo).min(raise(hi));
        let (lo, hi) = ends(padded(least, most));
        interval(lo.max(0.0), hi)
    }
}

/// The hull of the roots of what is in `target`, on the branches `x` has.
fn whole_root(target: Interval, n: i64, x: Interval) -> Interval {
    if target.is_empty() || x.is_empty() || n == 0 {
        return if target.is_empty() { Interval::empty() } else { Interval::entire() };
    }
    if n < 0 {
        return whole_root(over(interval(1.0, 1.0), target), -n, x);
    }
    let loosely = |lo: f64, hi: f64| {
        let pad = |v: f64| if v.is_finite() { v.abs() * 1e-14 + f64::MIN_POSITIVE } else { 0.0 };
        interval(lo - pad(lo), hi + pad(hi))
    };
    let (lo, hi) = ends(target);
    let root = |v: f64| v.signum() * v.abs().powf(1.0 / n as f64);
    if n % 2 == 1 {
        return loosely(if lo == 0.0 { 0.0 } else { root(lo) }, if hi == 0.0 { 0.0 } else { root(hi) });
    }
    if hi < 0.0 {
        return Interval::empty();
    }
    let outer = if hi == 0.0 { 0.0 } else { root(hi) };
    let inner = if lo <= 0.0 { 0.0 } else { root(lo) };
    let above = meet(loosely(inner, outer), x);
    let below = meet(loosely(-outer, -inner), x);
    join(above, below)
}

/// The hull of a wave with peaks at `peak` and troughs half a turn on.
fn wave(x: Interval, peak: f64, g: fn(f64) -> f64) -> Interval {
    let (lo, hi) = ends(x);
    if lo.is_infinite() || hi.is_infinite() || hi - lo > 6.0 {
        return interval(-1.0, 1.0);
    }
    let turn = std::f64::consts::TAU;
    let crosses = |at: f64| ((lo - at) / turn).ceil() * turn + at <= hi;
    let (a, b) = ends(padded(g(lo).min(g(hi)), g(lo).max(g(hi))));
    let most = if crosses(peak) { 1.0 } else { b };
    let least = if crosses(peak + std::f64::consts::PI) { -1.0 } else { a };
    interval(least.max(-1.0), most.min(1.0))
}

impl Intervals for Outward {
    fn unary(&self, op: UnaryOp, x: Interval) -> Interval {
        if x.is_empty() {
            return Interval::empty();
        }
        let inf = f64::INFINITY;
        let (lo, hi) = ends(x);
        match op {
            UnaryOp::Negate => negated(x),
            UnaryOp::Sin => wave(x, std::f64::consts::FRAC_PI_2, f64::sin),
            UnaryOp::Cos => wave(x, 0.0, f64::cos),
            UnaryOp::Tan | UnaryOp::Cot => Interval::entire(),
            UnaryOp::Acos => negated(rising(x, -1.0, 1.0, |v| -v.acos())),
            UnaryOp::Asin => rising(x, -1.0, 1.0, f64::asin),
            UnaryOp::Atan => rising(x, -inf, inf, f64::atan),
            UnaryOp::Cosh => {
                let (_, far) = ends(padded(0.0, lo.abs().max(hi.abs()).cosh()));
                interval(1.0, far)
            }
            UnaryOp::Sinh => rising(x, -inf, inf, f64::sinh),
            UnaryOp::Tanh => rising(x, -inf, inf, f64::tanh),
            UnaryOp::Ln => rising(x, 0.0, inf, f64::ln),
            UnaryOp::Log10 => rising(x, 0.0, inf, f64::log10),
            UnaryOp::Abs => {
                if lo <= 0.0 && hi >= 0.0 {
                    interval(0.0, hi.max(-lo))
                } else {
                    interval(lo.abs().min(hi.abs()), lo.abs().max(hi.abs()))
                }
            }
            UnaryOp::Sqrt => rising(x, 0.0, inf, f64::sqrt),
            UnaryOp::Cbrt => rising(x, -inf, inf, f64::cbrt),
            UnaryOp::Sqr => whole_power(x, 2),
            UnaryOp::Cube => whole_power(x, 3),
            UnaryOp::Ceil => interval(lo.ceil(), hi.ceil()),
            UnaryOp::Floor => interval(lo.floor(), hi.floor()),
            UnaryOp::Sgn => interval(-1.0, 1.0),
        }
    }

    fn binary(&self, op: BinaryOp, a: Interval, b: Interval) -> Interval {
        if a.is_empty() || b.is_empty() {
            return Interval::empty();
        }
        let ((p, q), (s, t)) = (ends(a), ends(b));
        match op {
            BinaryOp::Add => padded(p + s, q + t),
            BinaryOp::Sub => padded(p - t, q - s),
            BinaryOp::Mul => times(a, b),
            BinaryOp::Div => over(a, b),
            BinaryOp::Max => interval(p.max(s), q.max(t)),
            BinaryOp::Min => interval(p.min(s), q.min(t)),
            BinaryOp::Pow | BinaryOp::Rem | BinaryOp::LogB => Interval::entire(),
        }
    }

    fn power(&self, x: Interval, n: i64) -> Interval {
        whole_power(x, n)
    }

    fn invert_unary(&self, op: UnaryOp, target: Interval, x: Interval) -> Interval {
        if target.is_empty() || x.is_empty() {
            return Interval::empty();
        }
        let inf = f64::INFINITY;
        match op {
            UnaryOp::Negate => negated(target),
            UnaryOp::Asin => rising(target, -1.6, 1.6, f64::sin),
            UnaryOp::Acos => negated(rising(target, 0.0, 3.2, |v| -v.cos())),
            UnaryOp::Sinh => rising(target, -inf, inf, f64::asinh),
            UnaryOp::Tanh => rising(target, -1.0, 1.0, f64::atanh),
            UnaryOp::Ln => rising(target, -inf, inf, f64::exp),
            UnaryOp::Log10 => rising(target, -inf, inf, |v| 10_f64.powf(v)),
            UnaryOp::Abs => {
                let up = meet(target, interval(0.0, inf));
                if up.is_empty() {
                    return Interval::empty();
                }
                join(meet(up, x), meet(negated(up), x))
            }
            UnaryOp::Sqrt => {
                let up = meet(target, interval(0.0, inf));
                if up.is_empty() {
                    Interval::empty()
                } else {
                    whole_power(up, 2)
                }
            }
            UnaryOp::Cbrt => whole_power(target, 3),
            UnaryOp::Sqr => whole_root(target, 2, x),
            UnaryOp::Cube => whole_root(target, 3, x),
            _ => Interval::entire(),
        }
    }

    fn invert_binary(&self, op: BinaryOp, target: Interval, a: Interval, b: Interval) -> (Interval, Interval) {
        let nothing = (Interval::empty(), Interval::empty());
        if target.is_empty() || a.is_empty() || b.is_empty() {
            return nothing;
        }
        let entire = Interval::entire();
        let ((p, q), (s, t)) = (ends(a), ends(b));
        let (lo, hi) = ends(target);
        match op {
            BinaryOp::Add => (self.binary(BinaryOp::Sub, target, b), self.binary(BinaryOp::Sub, target, a)),
            BinaryOp::Sub => (self.binary(BinaryOp::Add, target, b), self.binary(BinaryOp::Sub, a, target)),
            BinaryOp::Mul => (
                if s <= 0.0 && t >= 0.0 && lo <= 0.0 && hi >= 0.0 { entire } else { over(target, b) },
                if p <= 0.0 && q >= 0.0 && lo <= 0.0 && hi >= 0.0 { entire } else { over(target, a) },
            ),
            BinaryOp::Div => (
                times(target, b),
                if p <= 0.0 && q >= 0.0 && lo <= 0.0 && hi >= 0.0 { entire } else { over(a, target) },
            ),
            BinaryOp::Max => {
                let side = |other_most: f64| {
                    if other_most < lo {
                        target
                    } else {
                        interval(f64::NEG_INFINITY, hi)
                    }
                };
                (side(t), side(q))
            }
            BinaryOp::Min => {
                let side = |other_least: f64| {
                    if other_least > hi {
                        target
                    } else {
                        interval(lo, f64::INFINITY)
                    }
                };
                (side(s), side(p))
            }
            BinaryOp::Pow | BinaryOp::Rem | BinaryOp::LogB => (entire, entire),
        }
    }

    fn invert_power(&self, target: Interval, n: i64, x: Interval) -> Interval {
        whole_root(target, n, x)
    }
}

// ---- the solvers ----

/// The multipliers of a Newton step and their pull, by a factorisation.
fn solve(slopes: &Vec<Vec<Real>>, sides: &Vec<Real>) -> (Vec<Real>, Vec<Real>) {
    let columns = slopes.first().map_or(0, Vec::len);
    let jacobian = Mat::<f64>::from_fn(slopes.len(), columns, |i, j| f(slopes[i][j]));
    let rhs = Col::<f64>::from_fn(sides.len(), |i| f(sides[i]));
    let square = &jacobian * jacobian.transpose();
    let lambda = square.partial_piv_lu().solve(&rhs);
    let pull = jacobian.transpose() * &lambda;
    ((0..sides.len()).map(|i| r(lambda[i])).collect(), (0..columns).map(|j| r(pull[j])).collect())
}

/// A problem a trust-region solver is run on, judged as it goes.
struct Watched<'a, T> {
    system: &'a ConstraintSystem<Compiled>,
    judge: RefCell<T>,
    stop: Rc<Cell<bool>>,
}

impl CostFunction for &Watched<'_, local::Landing> {
    type Param = Vec<f64>;
    type Output = f64;
    type Error = std::convert::Infallible;

    fn cost(&self, unit: &Vec<f64>) -> Result<f64, std::convert::Infallible> {
        let mut judge = self.judge.borrow_mut();
        let total = f(judge.cost(self.system, &Outward, &Doubles, &rs(unit)));
        self.stop.set(judge.stop);
        Ok(total)
    }
}

impl NonlinearInequalityConstraints for &Watched<'_, local::Landing> {
    fn constraints(&self, unit: &Vec<f64>) -> Result<Vec<f64>, std::convert::Infallible> {
        Ok(fs(&self.judge.borrow().constraints(self.system, &Doubles, &rs(unit))))
    }

    fn num_constraints(&self) -> usize {
        self.system.constraints.len() + 2 * self.system.variables.len()
    }
}

impl CostFunction for &Watched<'_, local::Projection> {
    type Param = Vec<f64>;
    type Output = f64;
    type Error = std::convert::Infallible;

    fn cost(&self, unit: &Vec<f64>) -> Result<f64, std::convert::Infallible> {
        Ok(f(self.judge.borrow_mut().cost(self.system, &Outward, &Doubles, &rs(unit))))
    }
}

impl NonlinearInequalityConstraints for &Watched<'_, local::Projection> {
    fn constraints(&self, unit: &Vec<f64>) -> Result<Vec<f64>, std::convert::Infallible> {
        Ok(fs(&self.judge.borrow().constraints(self.system, &Doubles, &rs(unit))))
    }

    fn num_constraints(&self) -> usize {
        self.system.constraints.len() + 2 * self.system.variables.len()
    }
}

/// Runs a seed search from `from` and answers the best point judged.
fn seed(
    system: &ConstraintSystem<Compiled>,
    landing: &local::Landing,
    from: &[Real],
    budget: u64,
) -> Option<Vec<Real>> {
    let fresh = local::Landing {
        bounds: landing.bounds.clone(),
        cube: sojourn::cube::Cube { lower: landing.cube.lower.clone(), width: landing.cube.width.clone() },
        best: None,
        stop: false,
    };
    let watched = Watched { system, judge: RefCell::new(fresh), stop: Rc::new(Cell::new(false)) };
    let solver = Cobyla::new()
        .with_initial_radius(f64::from_bits(local::INITIAL_RADIUS))
        .with_final_radius(f64::from_bits(local::FINAL_RADIUS));
    let stop = Rc::clone(&watched.stop);
    let Ok(_) = Executor::new(&watched, solver, CobylaState::new(fs(from)))
        .max_cost_evals(budget)
        .stop_when(move |_| if stop.get() { Some(TerminationReason::UserRequested) } else { None })
        .run();
    watched.judge.into_inner().best.map(|(_, point)| point)
}

fn project(
    system: &ConstraintSystem<Compiled>,
    projection: &local::Projection,
    start: &[Real],
    budget: u64,
) -> local::Projected {
    let fresh = local::Projection {
        cube: sojourn::cube::Cube { lower: projection.cube.lower.clone(), width: projection.cube.width.clone() },
        target: projection.target.clone(),
        clearance: projection.clearance,
        margin: projection.margin,
        clear: None,
        feasible: None,
    };
    let watched = Watched { system, judge: RefCell::new(fresh), stop: Rc::new(Cell::new(false)) };
    let solver = Cobyla::new()
        .with_initial_radius(f64::from_bits(local::PROJECTION_RADIUS))
        .with_final_radius(f64::from_bits(local::FINAL_RADIUS));
    let Ok(_) = Executor::new(&watched, solver, CobylaState::new(fs(start))).max_cost_evals(budget).run();
    let judged = watched.judge.into_inner();
    local::Projected { clear: judged.clear.map(|(_, p)| p), feasible: judged.feasible.map(|(_, p)| p) }
}

/// A number of the unit interval, and the generator after it.
fn unit(generator: &Xoshiro256PlusPlus) -> (Real, Xoshiro256PlusPlus) {
    let mut after = generator.clone();
    (r(after.random_range(0.0..1.0)), after)
}

/// A number between two, and the generator after it.
fn draw(generator: &Xoshiro256PlusPlus, lo: Real, hi: Real) -> (Real, Xoshiro256PlusPlus) {
    let mut after = generator.clone();
    (r(after.random_range(f(lo)..=f(hi))), after)
}

fn find_initial(
    system: &ConstraintSystem<Compiled>,
    bounds: &Vec<Interval>,
    starts: usize,
    rng: &mut Xoshiro256PlusPlus,
) -> Option<Vec<f64>> {
    let go = |landing: &local::Landing, from: &Vec<Real>, budget: u64| seed(system, landing, from, budget);
    local::find_initial(system, &Doubles, bounds, starts, rng, &unit, &go).map(|point| fs(&point))
}

fn nearest(system: &ConstraintSystem<Compiled>, from: &[f64], target: &[f64], clearance: f64) -> local::Projected {
    let go = |projection: &local::Projection, start: &Vec<Real>, budget: u64| project(system, projection, start, budget);
    local::nearest(system, &Doubles, &go, &rs(from), &rs(target), r(clearance))
}

fn repaired(
    region: &FeasibleRegion<Compiled>,
    point: &[f64],
    clearance: f64,
) -> Result<Vec<f64>, RepairError> {
    let system = region.system();
    let helpers = Helpers {
        solve,
        draw,
        project: |projection: &local::Projection, start: &Vec<Real>, budget: u64| {
            project(system, projection, start, budget)
        },
        unit,
        seed: |landing: &local::Landing, from: &Vec<Real>, budget: u64| seed(system, landing, from, budget),
    };
    region.repair(&Outward, &Doubles, &helpers, &rs(point), r(clearance)).map(|found| fs(&found))
}

fn feasible(system: &ConstraintSystem<Compiled>, point: &[f64], clearance: f64) -> bool {
    system.is_feasible(&Doubles, &rs(point), r(clearance))
}

// ---- trees ----

fn integral(source: &str) -> bool {
    let ast = parse(source);
    let env = vec![false; ast.program.frame_size as usize];
    is_integral(&ast.program.body.result, &env)
}

#[test]
fn the_integral_forms_are_the_table() {
    assert!(integral("floor(x1) + ceil(x2) * 3"));
    assert!(integral("abs(-floor(x1)) % 2"));
    assert!(integral("max(floor(x1), min(2, sgn(x2)))"));
    assert!(integral("sqr(floor(x1))"));
    assert!(!integral("x1"), "a point's value");
    assert!(!integral("floor(x1) / 2"), "division is not exact");
    assert!(integral("floor(x1) ^ 2"), "a whole power is multiplication");
    assert!(!integral("floor(x1) ^ 0.5"), "a real power is not");
    assert!(
        !integral("2 ^ floor(x1)"),
        "nor an exponent the row decides"
    );
    assert!(!integral("sqrt(x1)"), "a function outside the table");
    assert!(!integral("2.5"));
}

fn kinds(source: &str) -> Vec<&'static str> {
    let ast = parse(source);
    ast.program
        .body
        .preorder()
        .iter()
        .map(|expr| match &expr.kind {
            Kind::Literal(_) => "literal",
            Kind::Global(_) => "global",
            Kind::Local(_) => "local",
            Kind::DynamicIndex(_) => "subscript",
            Kind::Unary { .. } => "unary",
            Kind::Binary { .. } => "binary",
            Kind::Aggregate { .. } => "aggregate",
            Kind::Fold { .. } => "fold",
            Kind::Block(_) => "block",
            Kind::Compare { .. } => "compare",
            Kind::NearEq { .. } => "near-eq",
            Kind::And { .. } => "and",
        })
        .collect()
}

#[test]
fn preorder_is_parents_first_left_to_right() {
    assert_eq!(
        kinds("x1 * (x2 + 3)"),
        ["binary", "global", "binary", "global", "literal"]
    );
}

#[test]
fn preorder_reaches_under_bindings_and_aggregates() {
    let seen = kinds("sum(1, 2, i -> var a = i + 1; a * x1)");
    assert_eq!(seen[0], "fold");
    assert_eq!(seen.iter().filter(|k| **k == "block").count(), 2);
    assert_eq!(seen.iter().filter(|k| **k == "global").count(), 2);
    assert_eq!(seen.iter().filter(|k| **k == "local").count(), 2);
    assert!(seen.contains(&"literal"));
}

#[test]
fn every_kind_yields_its_children() {
    let source = "var a = x1 + var[floor(x2)]; abs(a) < x3 * 2 - a";
    let ast = parse(source);
    assert_eq!(ast.program.body.preorder().len(), 13);

    let at = Span::new(0, 1);
    let leaf = || Expr::new(Kind::Literal(r(1.0)), at);
    let block = || {
        Box::new(Block {
            assignments: vec![Assignment {
                slot: LocalSlot::from_index(0),
                value: leaf(),
                span: at,
            }],
            result: leaf(),
        })
    };
    let aggregate = Expr::new(
        Kind::Aggregate {
            kind: AggregateKind::Sum,
            lower: Box::new(leaf()),
            upper: Box::new(leaf()),
            param: LocalSlot::from_index(1),
            body: block(),
        },
        at,
    );
    assert_eq!(
        aggregate.children().len(),
        4,
        "lower, upper, one assignment, result"
    );
    let and = Expr::new(
        Kind::And {
            terms: vec![leaf(), leaf(), leaf()],
        },
        at,
    );
    assert_eq!(and.children().len(), 3);
    assert_eq!(Expr::new(Kind::Block(block()), at).children().len(), 2);
}

#[test]
fn locals_are_integral_when_what_bound_them_was() {
    let ast = parse("var a = floor(x1); var b = a / 2; a + 1");
    let mut env = vec![false; ast.program.frame_size as usize];
    assert!(block_is_integral(&ast.program.body, &mut env));
    assert_eq!(env, vec![true, false]);
    assert!(integral("sum(1, 3, i -> 2 * i - 1)"));
    assert!(!integral("sum(1, 3, i -> i / 2)"));
}

#[test]
fn a_whole_exponent_is_a_literal_integer_within_the_cap() {
    let exponent =
        |value: f64| Expr::new(Kind::Literal(r(value)), Span::new(0, 1)).whole_exponent();
    assert_eq!(exponent(2.0), Some(2));
    assert_eq!(exponent(0.0), Some(0));
    assert_eq!(exponent(-3.0), Some(-3));
    assert_eq!(exponent(64.0), Some(64), "the cap is inclusive");
    assert_eq!(exponent(65.0), None);
    assert_eq!(exponent(2.5), None);
    assert_eq!(exponent(f64::NAN), None);

    let variable = Expr::new(Kind::Global(GlobalId::from_index(0)), Span::new(0, 1));
    assert_eq!(variable.whole_exponent(), None);
}

// ---- what one equality says ----

fn driven_name(constraint: &Ast) -> Option<&str> {
    match shape(constraint) {
        Shape::Driven { variable } | Shape::Pinned { variable } => {
            Some(&constraint.symbols[variable.index()])
        }
        _ => None,
    }
}

#[test]
fn a_bare_variable_on_one_side_is_driven() {
    let constraint = parse("y == sin(x) +/- 0.001");
    assert_eq!(driven_name(&constraint), Some("y"));
    assert!(matches!(shape(&constraint), Shape::Driven { .. }));
}

#[test]
fn the_driven_side_may_be_either() {
    let constraint = parse("sin(x) == y +/- 0.001");
    assert_eq!(driven_name(&constraint), Some("y"));
}

#[test]
fn the_order_of_the_sides_is_no_matter() {
    let sides = [
        ("y", "sin(x)"),
        ("x", "3"),
        ("a", "b"),
        ("x*x - x", "2"),
        ("x", "x*x + 2"),
        ("ln(a) + b*b", "c / d"),
        ("floor(a)", "ceil(b)"),
        ("var[a]", "b"),
    ];
    for (one, other) in sides {
        let there = shape(&parse(&format!("{one} == {other} +/- 0.001")));
        let back = shape(&parse(&format!("{other} == {one} +/- 0.001")));
        assert_eq!(
            std::mem::discriminant(&there),
            std::mem::discriminant(&back),
            "{one} and {other}: {there:?} and {back:?}"
        );
    }
}

#[test]
fn a_variable_on_both_sides_is_implicit() {
    for source in [
        "x == sin(x) +/- 0.001",
        "x == ln(x) +/- 0.001",
        "x2 == x1 + 1/2*x2 - x3 / x4 +/- 0.001",
        "y == y/2 + x1 +/- 0.001",
        "sin(x) == x/2 +/- 0.001",
        "x*x == x + 2 +/- 0.001",
        "x == x*x + 2 +/- 0.001",
    ] {
        assert!(
            matches!(shape(&parse(source)), Shape::Implicit { .. }),
            "{source} defines a variable in terms of itself"
        );
    }
}

#[test]
fn the_rearranged_form_is_explicit() {
    assert!(matches!(
        shape(&parse("x2/2 - x1 + x3 / x4 == 0 +/- 0.001")),
        Shape::Driven { .. }
    ));
    assert_eq!(shape(&parse("x*x - x + 2 == 0 +/- 0.001")), Shape::Opaque);
}

#[test]
fn a_variable_appearing_twice_on_the_far_side_is_still_driven() {
    let constraint = parse("y == x*x + x +/- 0.001");
    assert_eq!(driven_name(&constraint), Some("y"));
}

#[test]
fn a_constant_side_is_pinned_not_driven() {
    let constraint = parse("x1 == pi +/- 0.001");
    assert!(matches!(shape(&constraint), Shape::Pinned { .. }));
}

#[test]
fn a_compound_side_isolates_its_lone_variable() {
    let constraint = parse("x1 + x2 == 3 +/- 0.001");
    let Shape::Driven { variable, .. } = shape(&constraint) else {
        panic!("x1 + x2 == 3 should drive one of its variables");
    };
    assert_eq!(constraint.symbols[variable.index()], "x1");
}

#[test]
fn a_variable_occurring_twice_is_not_isolated() {
    assert_eq!(shape(&parse("x1 + x1 == 3 +/- 0.001")), Shape::Opaque);
    assert_eq!(shape(&parse("x1 * x1 == 3 +/- 0.001")), Shape::Opaque);
}

#[test]
fn a_stuck_variable_does_not_block_a_free_one() {
    let constraint = parse("x1 + x2 + x1 == 3 +/- 0.001");
    let Shape::Driven { variable } = shape(&constraint) else {
        panic!("x2 occurs once and should drive");
    };
    assert_eq!(constraint.symbols[variable.index()], "x2");
}

#[test]
fn an_operator_without_an_inverse_declines() {
    for source in [
        "x1 ^ 2 == 3 +/- 0.001",
        "max(x1, x2) == 3 +/- 0.001",
        "x1 % 3 == 1 +/- 0.001",
        "sin(x1) == 1 +/- 0.001",
        "sin(x1) + cos(x1) == 1 +/- 0.001",
    ] {
        assert_eq!(
            shape(&parse(source)),
            Shape::Opaque,
            "{source} has no inverse and must decline"
        );
    }
}

#[test]
fn a_function_with_an_inverse_is_reached_through() {
    for source in [
        "sqrt(x1) == 3 +/- 0.001",
        "ln(x1) + x2 == 3 +/- 0.001",
        "sqr(x1) + x2 == 9 +/- 0.001",
        "-cbrt(x1) == 2 +/- 0.001",
    ] {
        assert!(
            matches!(shape(&parse(source)), Shape::Driven { .. }),
            "{source}: `interval` can invert every operator on the path"
        );
    }
}

#[test]
fn isolation_is_deterministic() {
    let first = shape(&parse("x1 + x2 == 3 +/- 0.001"));
    for _ in 0..8 {
        assert_eq!(shape(&parse("x1 + x2 == 3 +/- 0.001")), first);
    }
}

#[test]
fn a_bare_side_still_wins() {
    let constraint = parse("y == x1 + x2 +/- 0.001");
    let Shape::Driven { variable, .. } = shape(&constraint) else {
        panic!("y == x1 + x2 should drive y");
    };
    assert_eq!(constraint.symbols[variable.index()], "y");
}

#[test]
fn an_inequality_is_not_classified() {
    assert_eq!(shape(&parse("x > 4")), Shape::Opaque);
    assert_eq!(shape(&parse("x1 + x2 > 20 - x3^2")), Shape::Opaque);
}

#[test]
fn a_scalar_expression_is_not_classified() {
    assert_eq!(shape(&parse("x + 1")), Shape::Opaque);
}

#[test]
fn a_dynamic_lookup_defeats_classification() {
    assert_eq!(
        shape(&parse("1.5 == var[1] + var[2] +/- 0.001")),
        Shape::Opaque
    );
}

fn plans_over(names: &[&str], sources: &[&str]) -> Vec<Plan> {
    let schema = schema_of(names);
    let constraints: Vec<Ast> = sources.iter().map(|source| parse(source)).collect();
    plans(&constraints, &schema.inputs)
}

#[test]
fn two_independent_drives_are_both_taken() {
    let names = &["x1", "x2", "x3", "x4"];
    let sources = &["x1 == sqrt(x2) +/- 0.001", "x3 == cbrt(x4) +/- 0.001"];
    let plan = plans_over(names, sources)
        .into_iter()
        .next()
        .expect("both should drive");

    let driven = plan.driven().clone();
    assert_eq!(driven, [0, 2]);
    assert_eq!(*plan.free(), [1, 3]);
}

#[test]
fn a_chain_of_drives_is_ordered() {
    let names = &["x", "y", "z"];
    let sources = &["y == sin(x) +/- 0.001", "z == y + 1 +/- 0.001"];
    let plan = plans_over(names, sources)
        .into_iter()
        .next()
        .expect("both should drive");

    let driven = plan.driven().clone();
    assert_eq!(driven, [1, 2], "y must be computed before z");
    assert_eq!(*plan.free(), [0]);
}

#[test]
fn evaluation_order_beats_declaration_order() {
    let names = &["z", "y", "x"];
    let sources = &["y == sin(x) +/- 0.001", "z == y + 1 +/- 0.001"];
    let plan = plans_over(names, sources)
        .into_iter()
        .next()
        .expect("both should drive");

    let driven = plan.driven().clone();
    assert_eq!(
        driven,
        vec![1, 0],
        "y (at 1) must be computed before z (at 0)"
    );
}

#[test]
fn a_cycle_between_drives_is_refused() {
    let names = &["x", "y"];
    let sources = &["y == x + 1 +/- 0.001", "x == y + 1 +/- 0.001"];
    assert!(
        plans_over(names, sources).into_iter().next().is_none(),
        "a cycle should drive nothing"
    );
}

#[test]
fn a_variable_wanted_twice_is_matched_to_one_equation_each() {
    let plans = plans_over(
        &["x", "y", "z"],
        &["y == x + 1 +/- 0.001", "y == z * 2 +/- 0.001"],
    );
    assert_eq!(plans.len(), 3, "{plans:?}");
    assert_eq!(*plans[0].driven(), [1, 2]);
    assert_eq!(*plans[0].free(), [0]);
    assert_eq!(*plans[1].driven(), [1, 0]);
    assert_eq!(*plans[1].free(), [2]);
    assert_eq!(*plans[2].driven(), [0, 2]);
    assert_eq!(*plans[2].free(), [1]);
}

#[test]
fn a_vanishing_product_has_a_plan_per_arm() {
    let plans = plans_over(&["x1", "x2"], &["x1 * x2 == 0 +/- 0.000000001"]);
    assert_eq!(plans.len(), 2, "{plans:?}");
    assert_eq!(*plans[0].driven(), [0]);
    assert_eq!(*plans[1].driven(), [1]);
}

#[test]
fn the_tightest_plan_is_the_arm_the_point_is_on() {
    let system = system(
        vec![
            variable("x1", -2.0, 2.0),
            variable("x2", -2.0, 2.0),
        ],
        &["x1 * x2 == 0 +/- 0.000000001"],
    );
    let drives_x1 = *system.plans[0].driven() == [0];
    assert!(drives_x1, "{:?}", system.plans);
    assert_eq!(tightest(&system, &Outward, &Doubles, &rs(&[0.7, 0.0])), [1], "on the x2 = 0 arm");
    assert_eq!(tightest(&system, &Outward, &Doubles, &rs(&[0.0, 0.7])), [0], "on the x1 = 0 arm");
    assert_eq!(tightest(&system, &Outward, &Doubles, &rs(&[0.0, 0.0])), [0, 1]);
}

#[test]
fn plans_are_distinct_by_what_they_drive() {
    assert_eq!(
        plans_over(&["x1", "x2"], &["x1 + x2 == 3 +/- 0.001"]).len(),
        2
    );
    assert_eq!(plans_over(&["x1", "x2"], &["x1 == pi +/- 0.001"]).len(), 1);
}

#[test]
fn two_equations_wanting_the_same_variable_are_matched() {
    let names = &["x1", "x2", "x3"];
    let sources = &["x1 + x2 == 3 +/- 0.001", "x1 + x3 == 2 +/- 0.001"];
    let plan = plans_over(names, sources)
        .into_iter()
        .next()
        .expect("both equations should drive");
    assert_eq!(plan.driven().len(), 2);
    assert_eq!(plan.free().len(), 1);
}

#[test]
fn an_equation_with_nothing_left_to_drive_stays_a_constraint() {
    let names = &["x"];
    let sources = &["x == 1 +/- 0.001", "x == 2 +/- 0.001"];
    let plan = plans_over(names, sources)
        .into_iter()
        .next()
        .expect("one pins");
    assert_eq!(*plan.driven(), [0]);
}

#[test]
fn a_long_chain_is_matched_and_ordered() {
    let names: Vec<String> = (1..=100).map(|i| format!("x{i}")).collect();
    let names: Vec<&str> = names.iter().map(String::as_str).collect();
    let sources: Vec<String> = (1..100)
        .map(|i| format!("x{i} + x{} == 1 +/- 0.001", i + 1))
        .collect();
    let sources: Vec<&str> = sources.iter().map(String::as_str).collect();
    let plans = plans_over(&names, &sources);
    assert!(!plans.is_empty() && plans.len() <= matching::PLANS, "{}", plans.len());
    for plan in &plans {
        assert_eq!(plan.driven().len(), 99);
        assert_eq!(plan.free().len(), 1);
    }
}

#[test]
fn a_system_with_nothing_driven_has_no_plan() {
    let names = &["x1", "x2", "x3"];
    let sources = &["x1 + x2 > 20 - x3^ 2"];
    assert!(plans_over(names, sources).is_empty());
}

#[test]
fn a_fully_pinned_system_leaves_nothing_free() {
    let names = &["x1", "x2"];
    let sources = &["x1 == pi +/- 0.001", "x2 == e +/- 0.001"];
    let plan = plans_over(names, sources)
        .into_iter()
        .next()
        .expect("both should pin");
    assert_eq!(*plan.free(), [0_usize; 0]);
    assert_eq!(plan.driven().len(), 2);
}

// ---- interval tapes ----

fn narrower(source: &str) -> (IntervalTape, Ast) {
    let ast = parse(source);
    (compile(&ast), ast)
}

fn symbol(ast: &Ast, name: &str) -> GlobalId {
    let index = ast
        .symbols
        .iter()
        .position(|symbol| symbol == name)
        .unwrap_or_else(|| panic!("{name} is not a symbol of {}", ast.source));
    GlobalId::from_index(u32::try_from(index).expect("small"))
}

#[test]
fn a_whole_power_is_kept_and_inverted_through_its_root() {
    let (narrower, ast) = narrower("x^3 < 27");
    let got = narrower.narrow(&Outward, &vec![interval(0.0, 10.0)], symbol(&ast, "x"));
    let (lo, hi) = ends(got);
    assert!(lo <= 0.0 && hi >= 3.0 && hi < 3.0 + 1e-9, "{lo} {hi}");
}

#[test]
fn an_equality_narrows_to_its_band() {
    let (narrower, ast) = narrower("x == 2 +/- 0.5");
    let got = narrower.narrow(&Outward, &vec![interval(-10.0, 10.0)], symbol(&ast, "x"));
    let (lo, hi) = ends(got);
    assert!((lo - 1.5).abs() < 1e-12 && (hi - 2.5).abs() < 1e-12, "{lo} {hi}");
}

#[test]
fn an_impossible_constraint_is_empty() {
    let (narrower, ast) = narrower("x^2 < -1");
    let got = narrower.narrow(&Outward, &vec![interval(-10.0, 10.0)], symbol(&ast, "x"));
    assert!(got.is_empty(), "{got:?}");
}

#[test]
fn a_computed_subscript_concludes_nothing_about_itself() {
    let (narrower, ast) = narrower("x + var[n] < 5");
    let globals = vec![interval(0.0, 10.0), Interval::point(r(1.0))];
    let got = narrower.narrow(&Outward, &globals, symbol(&ast, "x"));
    assert_eq!(got, Interval::entire(), "{got:?}");
}

#[test]
fn a_term_of_a_sum_is_narrowed_against_the_rest() {
    let terms: Vec<String> = (1..=50).map(|i| format!("x{i}")).collect();
    let source = format!("{} < 100", terms.join(" + "));
    let (narrower, ast) = narrower(&source);
    let mut globals = vec![Interval::point(r(1.0)); 50];
    let wanted = symbol(&ast, "x7");
    globals[wanted.index()] = interval(0.0, 1000.0);
    let (_, hi) = ends(narrower.narrow(&Outward, &globals, wanted));
    // 49 others at 1 leave 51 for this one.
    assert!(hi >= 51.0 && hi < 51.0 + 1e-6, "{hi}");
}

// ---- contraction and bisection ----

fn contracted(system: &ConstraintSystem<Compiled>) -> (Contracted, Vec<bool>) {
    let mut contributed = vec![false; system.constraints.len()];
    let result = contract(system, &Outward, &Doubles, Node::declared(system), &mut contributed);
    (result, contributed)
}

fn pruned(system: &ConstraintSystem<Compiled>, budget: u32) -> Pruned {
    pruned_with_silence(system, budget).0
}

fn pruned_with_silence(system: &ConstraintSystem<Compiled>, budget: u32) -> (Pruned, Vec<usize>) {
    let mut contributed = vec![false; system.constraints.len()];
    let result = match contract(system, &Outward, &Doubles, Node::declared(system), &mut contributed) {
        Contracted::Empty { blamed } => Pruned::Empty { blamed },
        Contracted::Live(root) => bisect(system, &Outward, &Doubles, root, budget, &mut contributed, &|| false),
    };
    let silent = contributed
        .iter()
        .enumerate()
        .filter_map(|(index, said)| (!said).then_some(index))
        .collect();
    (result, silent)
}

#[test]
fn a_plain_contradiction_is_empty_and_blames_both_sides() {
    let system = system(
        vec![variable("x", 0.0, 10.0)],
        &["x > 8", "x < 2"],
    );
    let (result, _) = contracted(&system);
    let Contracted::Empty { blamed } = result else {
        panic!("{result:?}");
    };
    assert_eq!(blamed, vec![0, 1]);
}

#[test]
fn a_backwards_comparison_is_blamed_with_what_it_contradicts() {
    let system = system(
        vec![
            variable("x1", 0.0, 10.0),
            variable("x2", 0.0, 10.0),
        ],
        &["x1 < 3", "x2 > 5", "x1 + x2 < 20", "x1 > x2"],
    );
    let (result, _) = contracted(&system);
    let Contracted::Empty { blamed } = result else {
        panic!("{result:?}");
    };
    assert_eq!(blamed, vec![0, 1, 3]);
}

#[test]
fn a_feasible_point_survives_contraction() {
    let hard = {
        let product = 1234.5678_f64;
        let y2 = (-99.0 + (99.0_f64 * 99.0 + 4.0 * product * product).sqrt()) / 2.0;
        (y2.sqrt(), (y2 + 99.0).sqrt())
    };
    let cases: &[(&[(&str, f64, f64)], &[&str], &[f64])] = &[
        (&[("x", 0.0, 10.0)], &["x > 8"], &[9.0]),
        (
            &[("x1", -2.0, 2.0), ("x2", -2.0, 2.0)],
            &["x1 * x2 == 0 +/- 0.000000001"],
            &[0.0, 1.5],
        ),
        (
            &[("x", -5.0, 5.0)],
            &["(x + 2) * (x - 1) == 0 +/- 0.000000001"],
            &[-2.0],
        ),
        (
            &[("x", -1.0, 1.0), ("y", -1.0, 1.0)],
            &["y == sin(x) +/- 0.000001"],
            &[0.5, 0.5_f64.sin()],
        ),
        (
            &[("x1", 0.0, 10.0), ("x2", 0.0, 10.0)],
            &["x1 == sqrt(x2) +/- 0.000000001", "x1 > 1"],
            &[2.0, 4.0],
        ),
        (
            &[("x", 0.0, 100.0), ("y", 0.0, 100.0), ("z", 0.0, 100.0)],
            &[
                "x*y*z == 12345.678 +/- 0.001",
                "x^2 + y^2 == z^2 + 1 +/- 0.001",
            ],
            &[10.0, hard.0, hard.1],
        ),
    ];
    for (variables, sources, point) in cases {
        let inputs = variables
            .iter()
            .map(|(name, lo, hi)| variable(name, *lo, *hi))
            .collect();
        let system = system(inputs, sources);
        let (result, _) = contracted(&system);
        let Contracted::Live(node) = result else {
            panic!("{sources:?}: {result:?}");
        };
        assert!(
            node.contains(&rs(point)),
            "{sources:?}: {point:?} fell outside {:?}",
            node.bounds
        );
    }
}

#[test]
fn the_parabola_ribbon_leaves_one_settled_box_per_root() {
    let system = system(
        vec![variable("x", -5.0, 5.0)],
        &["(x + 2) * (x - 1) == 0 +/- 0.000000001"],
    );
    let result = pruned(&system, 64);
    let Pruned::Live {
        leaves, exhausted, ..
    } = result
    else {
        panic!("{result:?}");
    };
    assert!(!exhausted);
    let mut centres: Vec<f64> = leaves
        .iter()
        .map(|leaf| {
            f(leaf.settled.as_ref().expect("each band settles on its centre")[0])
        })
        .collect();
    centres.sort_by(f64::total_cmp);
    assert_eq!(centres.len(), 2, "{centres:?}");
    assert!((centres[0] + 2.0).abs() < 1e-8 && (centres[1] - 1.0).abs() < 1e-8);
}

#[test]
fn the_absolute_value_leaves_one_settled_box_per_branch() {
    let system = system(
        vec![variable("x1", -2.0, 2.0)],
        &["abs(x1) == 1 +/- 0.000000001"],
    );
    let result = pruned(&system, 64);
    let Pruned::Live { leaves, exhausted } = result else {
        panic!("{result:?}");
    };
    assert!(!exhausted);
    let mut centres: Vec<f64> = leaves
        .iter()
        .map(|leaf| {
            f(leaf.settled.as_ref().unwrap_or_else(|| panic!("unsettled leaf {:?}", leaf.node.bounds))[0])
        })
        .collect();
    centres.sort_by(f64::total_cmp);
    assert_eq!(centres.len(), 2, "{centres:?}");
    assert!((centres[0] + 1.0).abs() < 1e-8 && (centres[1] - 1.0).abs() < 1e-8);
}

#[test]
fn a_disc_inside_a_ring_beyond_it_is_proved_by_splitting() {
    let system = system(
        vec![
            variable("x", -1.5, 1.5),
            variable("y", -1.5, 1.5),
        ],
        &["x^2 + y^2 <= 1", "x^2 + y^2 >= 2"],
    );
    let (root, _) = contracted(&system);
    assert!(matches!(root, Contracted::Live(_)), "{root:?}");
    let result = pruned(&system, 256);
    let Pruned::Empty { blamed } = result else {
        panic!("{result:?}");
    };
    assert_eq!(blamed, vec![0, 1]);
}

#[test]
fn a_side_without_a_finite_width_is_not_split() {
    for (lo, hi) in [(f64::NEG_INFINITY, f64::INFINITY), (f64::NEG_INFINITY, 4.0), (-1e308, 1e308)] {
        let system = system(vec![variable("x", lo, hi), variable("y", 0.0, 1.0)], &["x >= y + 2", "y >= 0.5"]);
        let Pruned::Live { leaves, .. } = pruned(&system, 64) else {
            panic!("[{lo}, {hi}] has (3, 0.5)");
        };
        let held = |region: &Node| region.bounds[0].contains(r(3.0)) && region.bounds[1].contains(r(0.5));
        assert!(leaves.iter().any(|leaf| held(&leaf.node)), "[{lo}, {hi}]");
    }
}

#[test]
fn a_thin_or_algebraic_contradiction_is_live_at_the_budget() {
    for sources in [
        &["x + y <= 1", "x + y >= 1.000000001"] as &[&str],
        &["x*x - 2*x*y + y*y < 0"],
    ] {
        let system = system(
            vec![
                variable("x", -1.0, 1.0),
                variable("y", -1.0, 1.0),
            ],
            sources,
        );
        let result = pruned(&system, 64);
        let Pruned::Live {
            leaves, exhausted, ..
        } = result
        else {
            panic!("{sources:?}: {result:?}");
        };
        assert!(exhausted, "{sources:?}");
        assert!(
            leaves.iter().all(|leaf| leaf.settled.is_none()),
            "{sources:?}: nothing in an empty region can settle"
        );
    }
}

#[test]
fn what_narrowed_nothing_is_unexpressed() {
    let subscripted = system(
        vec![
            variable("n", 1.0, 2.0),
            variable("x2", -10.0, 10.0),
        ],
        &["var[n] < 4", "x2 < 3"],
    );
    let (result, unexpressed) = pruned_with_silence(&subscripted, 16);
    assert!(matches!(result, Pruned::Live { .. }), "{result:?}");
    assert_eq!(unexpressed, vec![0]);

    let algebraic = system(
        vec![
            variable("x", -1.0, 1.0),
            variable("y", -1.0, 1.0),
        ],
        &["x*x - 2*x*y + y*y < 0"],
    );
    let (result, unexpressed) = pruned_with_silence(&algebraic, 16);
    assert!(matches!(result, Pruned::Live { .. }), "{result:?}");
    assert!(unexpressed.is_empty(), "{unexpressed:?}");
}

#[test]
fn the_budget_bounds_the_contractions() {
    let system = system(
        vec![
            variable("x", -1.0, 1.0),
            variable("y", -1.0, 1.0),
        ],
        &["x*x - 2*x*y + y*y < 0"],
    );
    for budget in [0, 1, 2, 3, 8] {
        let result = pruned(&system, budget);
        let Pruned::Live {
            leaves, exhausted, ..
        } = result
        else {
            panic!("{result:?}");
        };
        assert!(
            leaves.len() <= budget as usize + 1,
            "{budget}: {}",
            leaves.len()
        );
        assert!(exhausted, "{budget}");
    }
}

#[test]
fn a_zeno_chain_terminates_live() {
    let system = system(
        vec![
            variable("x", 0.0, 1e6),
            variable("y", 0.0, 1e6),
            variable("z", 0.0, 1e6),
        ],
        &["x >= y + 1", "y >= z + 1", "z >= x + 1"],
    );
    let (result, _) = contracted(&system);
    assert!(matches!(result, Contracted::Live(_)), "{result:?}");
}

#[test]
fn a_bisection_is_deterministic() {
    let system = system(
        vec![
            variable("x", -1.0, 1.0),
            variable("y", -1.0, 1.0),
        ],
        &["y == sin(x) +/- 0.000001"],
    );
    let bounds = |result: Pruned| -> Vec<Vec<Interval>> {
        let Pruned::Live { leaves, .. } = result else {
            panic!("{result:?}");
        };
        leaves.into_iter().map(|leaf| leaf.node.bounds).collect()
    };
    assert_eq!(bounds(pruned(&system, 32)), bounds(pruned(&system, 32)));
}

// ---- lowering ----

fn reg(index: u16) -> Register {
    Register(index)
}

fn loads(tape: &AllocatedTape, input: u32) -> usize {
    tape.insns
        .iter()
        .filter(|i| matches!(i, Instruction::Load { input: x, .. } if *x == input))
        .count()
}

#[test]
fn a_sum_of_two_globals_lowers_to_two_loads_and_an_add() {
    let tape = tape_for("x1 + x2", &["x1", "x2"]);
    assert_eq!(
        tape.insns,
        vec![
            Instruction::Load {
                dst: reg(0),
                input: 0
            },
            Instruction::Load {
                dst: reg(1),
                input: 1
            },
            Instruction::Binary {
                dst: reg(2),
                op: BinaryOp::Add,
                a: reg(0),
                b: reg(1)
            },
        ]
    );
    assert_eq!(tape.result, reg(2));
}

#[test]
fn a_repeated_global_is_loaded_once() {
    let tape = tape_for("x1 * x1", &["x1"]);
    assert_eq!(loads(&tape, 0), 1);
    assert_eq!(
        tape.insns[1],
        Instruction::Binary {
            dst: reg(1),
            op: BinaryOp::Mul,
            a: reg(0),
            b: reg(0)
        }
    );
}

#[test]
fn a_literal_is_a_constant_register_and_no_instruction() {
    let tape = tape_for("3 + 4", &[]);
    assert!(tape.insns.is_empty(), "{:?}", tape.insns);
    assert_eq!(fs(&tape.consts), vec![7.0]);
    assert_eq!(tape.result, reg(0));

    let tape = tape_for("x1 + 2", &["x1"]);
    assert_eq!(fs(&tape.consts), vec![2.0]);
    assert_eq!(
        tape.insns[0],
        Instruction::Load {
            dst: reg(1),
            input: 0
        }
    );
}

#[test]
fn equal_constants_share_a_register_but_signed_zeros_do_not() {
    let tape = tape_for("x1 + 2 + 2", &["x1"]);
    assert_eq!(fs(&tape.consts), vec![2.0]);

    let tape = tape_for("x1 + 0.0 - -0.0", &["x1"]);
    assert_eq!(tape.consts.len(), 2, "{:?}", tape.consts);
    assert_ne!(tape.consts[0].to_bits(), tape.consts[1].to_bits());
}

#[test]
fn a_valid_literal_subscript_is_a_plain_load() {
    let tape = tape_for("var[2] + x2", &["x1", "x2", "x3"]);
    assert!(
        !tape
            .insns
            .iter()
            .any(|i| matches!(i, Instruction::Gather { .. }))
    );
    assert_eq!(loads(&tape, 1), 1);
    assert_eq!(fs(&tape.consts), Vec::<f64>::new());
}

#[test]
fn a_computed_subscript_is_a_gather() {
    let tape = tape_for("var[floor(x1)]", &["x1", "x2"]);
    assert_eq!(
        tape.insns,
        vec![
            Instruction::Load {
                dst: reg(0),
                input: 0
            },
            Instruction::Unary {
                dst: reg(1),
                op: UnaryOp::Floor,
                a: reg(0)
            },
            Instruction::Gather {
                dst: reg(0),
                index: reg(1),
                subscript: Span::new(4, 13)
            }
        ]
    );
}

#[test]
fn a_strict_comparison_is_one_compare_instruction() {
    let tape = tape_for("x1 < x2", &["x1", "x2"]);
    assert_eq!(
        tape.insns[2],
        Instruction::Compare {
            dst: reg(2),
            op: CompareOp::Lt,
            a: reg(0),
            b: reg(1)
        }
    );
    assert!(tape.consts.is_empty());
}

#[test]
fn a_near_equality_lowers_to_two_comparisons_and_a_conjunction() {
    let tape = tape_for("x1 == x2 +/- 0.5", &["x1", "x2"]);
    assert_eq!(fs(&tape.consts), vec![0.5]);

    let ops: Vec<_> = tape.insns.iter().skip(2).collect();
    assert!(
        matches!(
            ops.as_slice(),
            [
                Instruction::Binary {
                    op: BinaryOp::Sub,
                    ..
                },
                Instruction::Binary {
                    op: BinaryOp::Add,
                    ..
                },
                Instruction::Compare {
                    op: CompareOp::Gte,
                    ..
                },
                Instruction::Compare {
                    op: CompareOp::Lte,
                    ..
                },
                Instruction::Combine {
                    how: Accumulate::Worst,
                    last: true,
                    ..
                },
            ]
        ),
        "{ops:?}"
    );
}

#[test]
fn a_fold_seeds_from_the_identity_and_checks_only_its_last_step() {
    let tape = tape_for("sum(1, 3, i -> x1 * i)", &["x1"]);
    let identity = tape
        .consts
        .iter()
        .position(|c| c.to_bits() == 0.0f64.to_bits())
        .expect("the identity is a constant");
    let identity = reg(u16::try_from(identity).unwrap());
    let combines: Vec<(Register, Register, bool)> = tape
        .insns
        .iter()
        .filter_map(|i| match *i {
            Instruction::Combine {
                dst,
                how: Accumulate::Sum,
                a,
                last,
                ..
            } => Some((dst, a, last)),
            _ => None,
        })
        .collect();
    assert_eq!(combines.len(), 3);
    let acc = combines[0].0;
    assert_eq!(combines[0].1, identity, "the first step reads the identity");
    assert!(combines[1..].iter().all(|(d, a, _)| *d == acc && *a == acc));
    assert_eq!(
        combines.iter().map(|c| c.2).collect::<Vec<_>>(),
        [false, false, true]
    );
}

#[test]
fn a_repeated_factor_costs_what_its_power_costs() {
    const F: &str = "(cos(x1) * ln(x1 + 2) + sqrt(x1) / (1 + x1))";
    let base = tape_for(F, &["x1"]).insns.len();
    let power = tape_for(&format!("{F}^4"), &["x1"]).insns.len();
    let product = tape_for(&format!("{F} * {F} * {F} * {F}"), &["x1"])
        .insns
        .len();
    assert_eq!(product, power, "the spelling changed the tape's length");
    assert!(
        power < 2 * base,
        "the base was lowered more than once: {power} vs {base}"
    );
}

#[test]
fn a_whole_power_lowers_its_base_once() {
    let tape = tape_for("(x1 + 1)^3", &["x1"]);
    let adds = tape
        .insns
        .iter()
        .filter(|i| {
            matches!(
                i,
                Instruction::Binary {
                    op: BinaryOp::Add,
                    ..
                }
            )
        })
        .count();
    let multiplies = tape
        .insns
        .iter()
        .filter(|i| {
            matches!(
                i,
                Instruction::Binary {
                    op: BinaryOp::Mul,
                    ..
                }
            )
        })
        .count();
    assert_eq!((adds, multiplies), (1, 2), "{:?}", tape.insns);
    assert!(
        !tape.insns.iter().any(|i| matches!(
            i,
            Instruction::Binary {
                op: BinaryOp::Pow,
                ..
            }
        )),
        "a whole power reached the tape as `powf`: {:?}",
        tape.insns
    );
}

#[test]
fn a_zeroth_power_is_one_and_never_reads_its_base() {
    let tape = tape_for("x1^0", &["x1"]);
    assert!(tape.insns.is_empty(), "{:?}", tape.insns);
    assert_eq!(fs(&tape.consts), vec![1.0]);
}

#[test]
fn a_negative_power_is_one_over_the_positive_one() {
    let tape = tape_for("x1^-2", &["x1"]);
    assert!(
        matches!(
            tape.insns.last(),
            Some(Instruction::Binary {
                op: BinaryOp::Div,
                ..
            })
        ),
        "{:?}",
        tape.insns
    );
}

#[test]
fn a_real_or_oversized_exponent_stays_a_power() {
    for source in ["x1^2.5", "x1^65", "x1^x2"] {
        let tape = tape_for(source, &["x1", "x2"]);
        assert!(
            tape.insns.iter().any(|i| matches!(
                i,
                Instruction::Binary {
                    op: BinaryOp::Pow,
                    ..
                }
            )),
            "{source}: {:?}",
            tape.insns
        );
    }
}

#[test]
fn a_whole_power_multiplies_rather_than_calling_powf() {
    let x = 2.3_f64;
    let at =
        |source: &str| compiled(source, &["x1"]).value(&[x]).expect("should evaluate");
    assert_eq!(at("x1^3"), x * x * x);
    assert_ne!(x * x * x, x.powf(3.0));
    assert_eq!(at("x1^-2"), 1.0 / (x * x));
    assert_eq!(at("x1^2"), x.powf(2.0));
    assert_eq!(at("x1^0"), 1.0);
}

#[test]
fn an_and_seeds_from_negative_infinity() {
    let tape = tape_for("ln(x1) < 2", &["x1"]);
    assert!(fs(&tape.consts).contains(&f64::NEG_INFINITY));
    assert!(tape.insns.iter().any(|i| matches!(
        i,
        Instruction::Combine {
            how: Accumulate::Worst,
            ..
        }
    )));
}

#[test]
fn a_local_is_written_in_place_and_read_without_an_instruction() {
    let tape = tape_for("var x = x1 * 2;\nx + x", &["x1"]);
    let local = reg(tape.first_local());
    assert_eq!(tape.locals, 1);
    assert!(tape.insns.iter().any(|i| matches!(
        i,
        Instruction::Binary {
            dst,
            op: BinaryOp::Mul,
            ..
        } if *dst == local
    )));
    assert!(
        !tape
            .insns
            .iter()
            .any(|i| matches!(i, Instruction::Copy { .. }))
    );
    assert!(
        !tape
            .insns
            .iter()
            .any(|i| matches!(i, Instruction::Check { .. }))
    );
}

#[test]
fn a_leaf_assignment_becomes_a_copy() {
    let tape = tape_for("var x = x1;\nx + 1", &["x1"]);
    let local = reg(tape.first_local());
    assert!(
        tape.insns
            .iter()
            .any(|i| matches!(i, Instruction::Copy { dst, .. } if *dst == local))
    );
}

#[test]
fn an_aggregate_is_a_flat_fold() {
    let tape = tape_for("sum(1, 3, i -> i * x1)", &["x1"]);
    let combines = tape
        .insns
        .iter()
        .filter(|i| matches!(i, Instruction::Combine { .. }))
        .count();
    assert_eq!(combines, 3);
}

#[test]
fn every_checked_instruction_carries_the_span_of_its_node() {
    let tape = tape_for("sin(x1) + 2", &["x1"]);
    assert_eq!(
        tape.spans,
        vec![Span::new(4, 6), Span::new(0, 7), Span::new(0, 11)]
    );
    assert!(matches!(
        tape.insns[1],
        Instruction::Unary {
            op: UnaryOp::Sin,
            ..
        }
    ));
}

#[test]
fn an_unassigned_local_read_gets_a_check_at_the_local() {
    let program = Program {
        body: Block {
            assignments: Vec::new(),
            result: Expr::new(Kind::Local(LocalSlot::from_index(0)), Span::new(0, 1)),
        },
        frame_size: 1,
    };
    let tape = emit(&program, &Vec::new()).allocate();
    assert_eq!(tape.insns, vec![Instruction::Check { reg: reg(0) }]);
    assert_eq!(tape.spans, vec![Span::new(0, 1)]);
    assert_eq!(tape.result, reg(0));
}

#[test]
fn a_register_is_used_again_once_its_value_is_dead() {
    assert_eq!(tape_for("x1 + x2", &["x1", "x2"]).registers, 3);
    assert_eq!(tape_for("var[floor(x1)]", &["x1", "x2"]).registers, 2);
    let names: Vec<String> = (1..=200).map(|i| format!("x{i}")).collect();
    let names: Vec<&str> = names.iter().map(String::as_str).collect();
    // The identity, the accumulator and one term.
    assert_eq!(tape_for("sum(1, 200, i -> var[i])", &names).registers, 3);
}

// ---- gradients ----

/// The expression and its gradient, bound to `names`.
fn gradient_of(source: &str, names: &[&str]) -> Option<Compiled> {
    Some(compiled(source, names)).filter(|bound| bound.sweep.is_some())
}

/// Central finite difference of the compiled expression itself, so the sweep is
/// judged against the executor's own arithmetic.
fn finite_difference(source: &str, names: &[&str], at: &[f64], coordinate: usize) -> f64 {
    let compiled = compiled(source, names);
    let h = 1e-6 * at[coordinate].abs().max(1.0);
    let mut up = at.to_vec();
    up[coordinate] += h;
    let mut down = at.to_vec();
    down[coordinate] -= h;
    let f = |point: &[f64]| compiled.value(point).expect("evaluates");
    (f(&up) - f(&down)) / (2.0 * h)
}

/// Every partial against the finite difference at `at`, to a relative tolerance
/// that a central difference at `h = 1e-6` earns.
fn agrees(source: &str, names: &[&str], at: &[f64]) {
    let gradient = gradient_of(source, names).unwrap_or_else(|| panic!("{source:?} declined"));
    let (_, partials) =
        gradient.value_and_partials(at).unwrap_or_else(|e| panic!("{source:?} at {at:?}: {e:?}"));
    assert_eq!(partials.len(), gradient.symbols.len(), "{source:?}");
    for (symbolic, name) in partials.iter().zip(&gradient.symbols) {
        let coordinate =
            names.iter().position(|candidate| candidate == name).expect("a symbol is a schema name");
        let numeric = finite_difference(source, names, at, coordinate);
        let symbolic = *symbolic;
        let scale = numeric.abs().max(symbolic.abs()).max(1.0);
        assert!(
            (numeric - symbolic).abs() <= 1e-6 * scale,
            "{source:?}: d/d{name} at {at:?} is {symbolic}, finite difference says {numeric}"
        );
    }
}

#[test]
fn every_operator_agrees_with_a_finite_difference() {
    let mut rng = Xoshiro256PlusPlus::seed_from_u64(0xD1FF);
    let cases: &[(&str, f64, f64)] = &[
        ("-x", -3.0, 3.0),
        ("x + y", -3.0, 3.0),
        ("x - y", -3.0, 3.0),
        ("x * y", -3.0, 3.0),
        ("x / y", 0.5, 3.0),
        ("x ^ 3", -3.0, 3.0),
        ("x ^ 2.5", 0.5, 3.0),
        ("x ^ y", 0.5, 3.0),
        ("2 ^ x", -3.0, 3.0),
        ("max(x, y)", -3.0, 3.0),
        ("min(x, y)", -3.0, 3.0),
        ("log(x, y)", 1.5, 4.0),
        ("sqr(x) + cube(y)", -3.0, 3.0),
        ("sqrt(x) * cbrt(y)", 0.5, 4.0),
        ("ln(x) + log(y)", 0.5, 4.0),
        ("sin(x) * cos(y) + tan(x)", -1.0, 1.0),
        ("cot(x) + atan(y)", 0.5, 1.4),
        ("asin(x) - acos(y)", -0.9, 0.9),
        ("sinh(x) + cosh(y) * tanh(x)", -2.0, 2.0),
        ("abs(x) * y", -3.0, 3.0),
        ("sum(1, 3, i -> var[i] ^ 2)", -3.0, 3.0),
        ("prod(1, 3, i -> var[i] + 1)", 0.5, 3.0),
        ("var x = x1 * x2; x + sqr(x) * x3", -2.0, 2.0),
        ("x1 * x1 + x1", -3.0, 3.0),
    ];
    for (source, lo, hi) in cases {
        let names: Vec<&str> = if source.contains("x1") || source.contains("var[") {
            vec!["x1", "x2", "x3"]
        } else {
            vec!["x", "y"]
        };
        for _ in 0..3 {
            let at: Vec<f64> = (0..names.len())
                .map(|_| rng.random_range(*lo..*hi))
                .collect();
            agrees(source, &names, &at);
        }
    }
}

#[test]
fn a_constraint_differentiates_as_its_residual() {
    let mut rng = Xoshiro256PlusPlus::seed_from_u64(0xD1FF);
    for source in [
        "x + 2 * y < 1",
        "x + 2 * y > 1",
        "x^2 + y^2 <= 1",
        "x^2 + y^2 >= 1",
        "x == y + 1 +/- 0.01",
        "x * y == 1 +/- 0.1",
    ] {
        for _ in 0..4 {
            let at = [rng.random_range(-2.0..2.0), rng.random_range(-2.0..2.0)];
            agrees(source, &["x", "y"], &at);
        }
    }
}

#[test]
fn a_jump_declines() {
    for source in [
        "floor(x) < 3",
        "x % 2 < 1",
        "sgn(x) * y",
        "ceil(x) + y",
        "var[y] < 3",
    ] {
        assert!(
            gradient_of(source, &["x", "y"]).is_none(),
            "{source:?} should have declined"
        );
    }
}

#[test]
fn a_reused_symbol_accumulates_every_use() {
    let gradient = gradient_of("x * x + x", &["x", "y"]).expect("differentiable");
    assert_eq!(gradient.symbols, ["x".to_owned()]);
    let (_, partials) = gradient.value_and_partials(&[3.0, 7.0]).expect("evaluates");
    assert_eq!(partials, vec![7.0]);
}

#[test]
fn the_primal_rides_along() {
    let gradient = gradient_of("x^2 + y^2 < 1", &["x", "y"]).expect("differentiable");
    let (value, partials) = gradient.value_and_partials(&[0.6, 0.8]).expect("evaluates");
    assert!((value - 0.0).abs() < 1e-12, "{value}");
    assert!((partials[0] - 1.2).abs() < 1e-12 && (partials[1] - 1.6).abs() < 1e-12);
}

#[test]
fn the_sweep_is_a_fixed_multiple_of_the_primal() {
    let names: Vec<String> = (1..=200).map(|i| format!("x{i}")).collect();
    let names: Vec<&str> = names.iter().map(String::as_str).collect();
    let gradient = compiled("sum(1, 200, i -> var[i] ^ 2) < 1", &names);
    let primal = gradient.tape.insns.len();
    let sweep = gradient.sweep.as_ref().expect("differentiable").insns.len();
    assert!(sweep <= 6 * primal, "{sweep} instructions for a primal of {primal}");
}

#[test]
fn a_sweep_fault_names_the_subexpression() {
    let gradient = gradient_of("sqrt(x) + y", &["x", "y"]).expect("differentiable");
    let (insn, kind) = gradient.value_and_partials(&[0.0, 1.0]).expect_err("1 / (2 sqrt 0) is not finite");
    let tape = gradient.sweep.expect("differentiable").allocate();
    let fault = tape.fault(LaneFault { insn: insn as u32, kind });
    let text = locate(&gradient.source, vec![fault])[0].to_line(&spell);
    assert!(text.contains("sqrt(x)"), "{text}");
}

#[test]
fn the_sweep_is_deterministic() {
    let once = gradient_of("x * y + sin(x)", &["x", "y"]).expect("differentiable");
    let twice = gradient_of("x * y + sin(x)", &["x", "y"]).expect("differentiable");
    assert_eq!(once.sweep.expect("there").insns, twice.sweep.expect("there").insns);
}

// ---- systems ----

fn one_variable(source: &str) -> ConstraintSystem<Compiled> {
    system(vec![variable("x1", 0.0, 10.0)], &[source])
}

#[test]
fn a_computed_subscript_is_never_skipped() {
    let system =
        system(vec![variable("n", 1.0, 2.0), variable("x2", -10.0, 10.0)], &["var[n] < 4", "x2 < 3"]);
    assert!(
        system.constraints[0].written.contains_dynamic_lookup,
        "the fixture stopped exercising a computed subscript"
    );
    for coordinate in 0..2 {
        assert!(
            system.incidence.affected(coordinate).contains(&0),
            "coordinate {coordinate} may move the column `var[n]` reads"
        );
    }
}

#[test]
fn the_clearance_is_a_step_in_every_named_direction() {
    let system = system(
        vec![
            variable("x1", 0.0, 1.0),
            variable("x2", 0.0, 1.0),
        ],
        &["x1 + x2 < 1"],
    );
    let near_wall = vec![0.45, 0.45]; // 0.1 from the wall along the diagonal, 0.1 along either axis
    assert!(feasible(&system, &near_wall, 0.0));
    assert!(feasible(&system, &near_wall, 0.05));
    assert!(
        !feasible(&system, &near_wall, 0.15),
        "a step of 0.15 along either axis crosses the wall"
    );

    let near_box = vec![0.05, 0.1];
    assert!(feasible(&system, &near_box, 0.04));
    assert!(
        !feasible(&system, &near_box, 0.06),
        "the box is a wall too: 0.05 - 0.06 is outside it"
    );
}

/// Gives one residual everywhere.
#[derive(Debug)]
struct Fixed(Option<f64>);

impl Evaluate for Fixed {
    fn eval_row(&self, _: &Vec<Real>) -> Option<Real> {
        self.0.map(r)
    }

    fn has_gradient(&self) -> bool {
        false
    }

    fn gradient(&self, _: &Vec<Real>) -> Option<Vec<Real>> {
        None
    }
}

#[test]
fn what_is_not_finite_is_no_residual() {
    let worst = |residuals: &[Option<f64>]| {
        let sources: Vec<String> = residuals.iter().map(|_| "x < 1".to_owned()).collect();
        let left = RefCell::new(residuals.to_vec());
        let bound = |_: &Ast, _: &Schema| Fixed(left.borrow_mut().remove(0));
        let read = |source: &String| -> Result<Ast, CompilationFailure> { Ok(parse(source)) };
        let system = ConstraintSystem::new(vec![variable("x", 0.0, 1.0)], &sources, read, resolve, bound)
            .expect("holds together");
        let point = rs(&[0.5]);
        (system.worst_residual(&point).map(f), system.is_feasible(&Doubles, &point, r(0.0)))
    };
    assert_eq!(worst(&[]), (Some(f64::NEG_INFINITY), true));
    assert_eq!(worst(&[Some(-1.0), Some(-2.0)]), (Some(-1.0), true));
    assert_eq!(worst(&[Some(-1.0), Some(3.0)]), (Some(3.0), false));
    assert_eq!(worst(&[Some(f64::NAN), Some(-1.0)]), (None, false));
    assert_eq!(worst(&[Some(-1.0), None]), (None, false));
    assert_eq!(worst(&[Some(f64::INFINITY), Some(-1.0)]), (None, false));
    assert_eq!(worst(&[Some(f64::NEG_INFINITY)]), (None, false), "nothing non-finite holds");
}

#[test]
fn a_point_with_clearance_has_no_residual_above_zero() {
    let system = system(vec![variable("x", 0.0, 10.0), variable("y", -5.0, 5.0)], &["x > 4", "y * y < 5"]);
    for i in 0..60 {
        let point = [f64::from(i) * 0.2 - 1.0, f64::from(i % 9) - 4.0];
        let worst = system.worst_residual(&rs(&point)).map(f);
        assert_eq!(feasible(&system, &point, 0.0), worst.is_some_and(|worst| worst <= 0.0), "{point:?}");
        if feasible(&system, &point, 0.05) {
            assert!(feasible(&system, &point, 0.0), "{point:?}");
            for (axis, step) in [(0, 0.5), (0, -0.5), (1, 0.5), (1, -0.5)] {
                let mut there = point;
                there[axis] += step;
                assert!(feasible(&system, &there, 0.0), "{point:?} has room as far as {there:?}");
            }
        }
    }
    assert!(feasible(&system, &[6.0, 0.0], 0.05));
    assert!(feasible(&system, &[10.0, 0.0], 0.0) && !feasible(&system, &[10.0, 0.0], 0.05));
}

#[test]
fn a_batch_keeps_repeats_and_their_order() {
    let system = system(vec![variable("x", 0.0, 10.0)], &["x > 4"]);
    let batch: Vec<Vec<Real>> = [5.0, 1.0, 6.0, 5.0, 11.0].iter().map(|x| rs(&[*x])).collect();
    let kept: Vec<Vec<f64>> = system.feasible_columns(&batch).iter().map(|p| fs(p)).collect();
    assert_eq!(kept, [[5.0], [6.0], [5.0]]);
    assert!(system.feasible_columns(&vec![rs(&[5.0, 5.0]), rs(&[])]).is_empty());
}

#[test]
fn the_worst_residual_is_graded() {
    let system = one_variable("x1 > 4");
    let worst = |x: f64| system.worst_residual(&rs(&[x])).map(f);

    let near = worst(3.9).expect("inside the box");
    let far = worst(1.0).expect("inside the box");
    assert!(
        near < far,
        "{near} should be a smaller violation than {far}"
    );
    assert!(worst(5.0).is_some_and(|r| r <= 0.0));
    assert!(
        worst(99.0).is_none(),
        "outside the box is not a residual"
    );
}

fn candidates() -> Vec<Vec<f64>> {
    let mut points = Vec::new();
    for i in 0..40 {
        let x1 = f64::from(i) * 0.3 - 1.0; // -1 .. 10.7, past both ends of 0..10
        let x2 = f64::from(i % 7) - 3.0;
        points.push(vec![x1, x2]);
    }
    points
}

fn batched(system: &ConstraintSystem<Compiled>, points: &[Vec<f64>]) -> Vec<Vec<f64>> {
    let columns: Vec<Vec<Real>> = points.iter().map(|point| rs(point)).collect();
    system.feasible_columns(&columns).iter().map(|point| fs(point)).collect()
}

#[test]
fn batched_judging_agrees_with_per_point_is_feasible() {
    let system = system(
        vec![variable("x1", 0.0, 10.0), variable("x2", -5.0, 5.0)],
        &["x1 > 4", "ln(x1) < 2", "x2 * x2 < 5"],
    );
    let points = candidates();
    let batched = batched(&system, &points);
    let one_at_a_time: Vec<Vec<f64>> =
        points.into_iter().filter(|point| feasible(&system, point, 0.0)).collect();
    assert!(!batched.is_empty(), "the grid should contain feasible points");
    assert_eq!(batched, one_at_a_time);
}

#[test]
fn a_faulting_candidate_is_infeasible_rather_than_fatal() {
    let system = one_variable("sqrt(x1 - 5) + x1 < 6");
    let points: Vec<Vec<f64>> = (0..100).map(|i| vec![f64::from(i) * 0.1]).collect();

    // Strict evaluation refuses some of the batch outright: that is what lenient
    // judging exists to get past.
    let strict = compiled(system.constraints()[0], &["x1"]);
    assert!(points.iter().any(|point| strict.value(point).is_none()));

    let found = batched(&system, &points);
    assert!(!found.is_empty());
    for point in &found {
        assert!(point[0] >= 5.0 && point[0] < 6.0, "{point:?}");
    }
    let one_at_a_time: Vec<Vec<f64>> =
        points.into_iter().filter(|point| feasible(&system, point, 0.0)).collect();
    assert_eq!(found, one_at_a_time);
}

#[test]
fn a_candidate_matrix_of_the_wrong_height_yields_nothing() {
    let system = one_variable("x1 > 1");
    let wrong = vec![vec![5.0, 5.0]; 5];
    assert!(batched(&system, &wrong).is_empty());
}

// ---- projections by Newton ----

fn close(a: &[f64], b: &[f64], within: f64) -> bool {
    a.iter().zip(b).all(|(x, y)| (x - y).abs() <= within)
}

fn newton_nearest(system: &ConstraintSystem<Compiled>, from: &[f64], target: &[f64]) -> Option<Vec<f64>> {
    newton::nearest(system, &Doubles, &solve, &rs(from), &rs(target)).map(|landing| fs(&landing.point))
}

#[test]
fn a_half_space_lands_on_the_foot_of_the_normal() {
    let system = system(
        vec![
            variable("x1", -2.0, 2.0),
            variable("x2", -2.0, 2.0),
        ],
        &["2*x1 + x2 < 1"],
    );
    let landed = newton_nearest(&system, &[1.0, 1.0], &[1.0, 1.0])
        .expect("applies");
    assert!(close(&landed, &[0.2, 0.6], 1e-12), "{landed:?}");
}

#[test]
fn a_disc_lands_radially() {
    let system = system(
        vec![
            variable("x", -2.0, 2.0),
            variable("y", -2.0, 2.0),
        ],
        &["x^2 + y^2 < 1"],
    );
    let landed = newton_nearest(&system, &[2.0, 0.5], &[2.0, 0.5])
        .expect("applies");
    let scale = 4.25_f64.sqrt();
    assert!(
        close(&landed, &[2.0 / scale, 0.5 / scale], 1e-12),
        "{landed:?}"
    );
}

#[test]
fn a_vertex_takes_both_constraints() {
    let system = system(
        vec![
            variable("x1", 0.0, 1.0),
            variable("x2", 0.0, 1.0),
        ],
        &["x1 < 0.5", "x2 < 0.5"],
    );
    let landed = newton_nearest(&system, &[1.0, 1.0], &[1.0, 1.0])
        .expect("applies");
    assert!(close(&landed, &[0.5, 0.5], 1e-12), "{landed:?}");
}

#[test]
fn a_bound_joins_the_active_set() {
    let system = system(
        vec![
            variable("x1", 0.0, 1.0),
            variable("x2", 0.0, 1.0),
        ],
        &["x1 + x2 < 0.2"],
    );
    let landed = newton_nearest(&system, &[1.0, 0.0], &[1.0, 0.0])
        .expect("applies");
    assert!(close(&landed, &[0.2, 0.0], 1e-12), "{landed:?}");
}

#[test]
fn a_negative_multiplier_drops_a_row() {
    let system = system(
        vec![
            variable("x1", -2.0, 2.0),
            variable("x2", -2.0, 2.0),
        ],
        &["x1 + x2 < 1", "x1 + 2*x2 < 2"],
    );
    let landed = newton_nearest(&system, &[1.5, 1.5], &[1.5, 1.5])
        .expect("applies");
    assert!(close(&landed, &[0.5, 0.5], 1e-12), "{landed:?}");
}

#[test]
fn a_jump_in_the_active_set_declines() {
    let system = system(
        vec![
            variable("x1", 0.0, 10.0),
            variable("x2", 0.0, 10.0),
        ],
        &["floor(x1) < 3", "x2 < 1"],
    );
    assert!(newton_nearest(&system, &[5.0, 5.0], &[5.0, 5.0]).is_none());
    let landed = newton_nearest(&system, &[1.0, 5.0], &[1.0, 5.0])
        .expect("the floor is not active");
    assert!(close(&landed, &[1.0, 1.0], 1e-12), "{landed:?}");
}

#[test]
fn newton_a_projection_is_deterministic() {
    let system = system(
        vec![
            variable("x", -2.0, 2.0),
            variable("y", -2.0, 2.0),
        ],
        &["x^2 + y^2 < 1", "x + y > 0.5"],
    );
    let once = newton_nearest(&system, &[1.2, 1.2], &[1.2, 1.2]);
    let twice = newton_nearest(&system, &[1.2, 1.2], &[1.2, 1.2]);
    assert_eq!(once, twice);
    assert!(once.is_some());
}

#[test]
fn a_copy_of_a_tree_is_the_same() {
    for source in [
        "x + 2 * y - 1 / 3 ^ x",
        "var[x + 1] % 2",
        "sum(1, 3, i -> var t = i * x; t + 1)",
        "max(sin(x), -cosh(y))",
        "x == y +/- 0.5",
        "x < y",
    ] {
        let tree = parse(source);
        assert_eq!(format!("{:?}", tree.clone()), format!("{tree:?}"));
    }
    let whole = system(vec![variable("x", 0.0, 1.0), variable("y", 0.0, 1.0)], &["x + y == 1 +/- 0.1", "x * y < 0.2"]);
    let copy = whole.clone();
    assert_eq!(format!("{:?}", copy.constraints[0].written), format!("{:?}", whole.constraints[0].written));
    for point in [[0.5, 0.5], [0.1, 0.9], [0.2, 0.2]] {
        assert_eq!(feasible(&copy, &point, 0.0), feasible(&whole, &point, 0.0), "{point:?}");
    }
}

#[test]
fn a_derivative_tape_begins_with_its_primal() {
    let ast = parse("x * x + sin(y) * x");
    let primal = emit(&ast.program, &vec![0, 1]);
    let once = primal.single_assignment();
    let derivative = differentiate(&primal, &vec![0, 1]).expect("differentiable");
    assert_eq!(format!("{:?}", &derivative.insns[..primal.insns.len()]), format!("{:?}", once.insns));
    assert_eq!(derivative.spans[..primal.spans.len()], primal.spans[..]);
    assert!(derivative.insns.len() > primal.insns.len());
    assert_eq!(format!("{:?}", derivative.result), format!("{:?}", once.result));
}

#[test]
fn a_bisection_has_a_box_more_for_every_two_contractions() {
    let ring = system(
        vec![variable("x", -2.0, 2.0), variable("y", -2.0, 2.0)],
        &["sqr(x) + sqr(y) == 1 +/- 0.000001"],
    );
    for budget in [0, 1, 2, 5, 64] {
        let Pruned::Live { leaves, .. } = pruned(&ring, budget) else {
            panic!("there is a ring");
        };
        assert!(0 < leaves.len() && 2 * leaves.len() <= 2 + budget as usize, "{} of {budget}", leaves.len());
    }
}

#[test]
fn blame_is_ascending_and_never_of_nobody() {
    let system = system(
        vec![variable("x", 0.0, 1.0), variable("y", 0.0, 1.0)],
        &["y < 0.5", "x + y > 1.4", "x < 0.5", "y > 0.25"],
    );
    let Pruned::Empty { blamed } = pruned(&system, 64) else {
        panic!("there is nothing");
    };
    assert!(!blamed.is_empty() && blamed.windows(2).all(|pair| pair[0] < pair[1]), "{blamed:?}");
}

// ---- local solves ----

fn rng() -> Xoshiro256PlusPlus {
    Xoshiro256PlusPlus::seed_from_u64(0x0001_0CA1)
}

#[test]
fn a_half_space_is_seeded_from_the_centre() {
    let system = system(
        vec![
            variable("x1", -2.0, 2.0),
            variable("x2", -2.0, 2.0),
        ],
        &["2*x1 + x2 < -3"],
    );
    let point = find_initial(&system, &system.declared(), local::STARTS, &mut rng())
        .expect("a half-space seeds");
    assert!(feasible(&system, &point, 0.0), "{point:?}");
}

#[test]
fn a_disc_off_centre_is_seeded() {
    let system = system(
        vec![
            variable("x", -3.0, 3.0),
            variable("y", -3.0, 3.0),
        ],
        &["sqr(x - 2) + sqr(y - 2) < 0.25"],
    );
    let point =
        find_initial(&system, &system.declared(), local::STARTS, &mut rng()).expect("a disc seeds");
    assert!(feasible(&system, &point, 0.0), "{point:?}");
}

#[test]
fn a_seed_over_a_sub_box_stays_in_it() {
    let system = system(
        vec![
            variable("x", -3.0, 3.0),
            variable("y", -3.0, 3.0),
        ],
        &["min(sqr(x - 2) + sqr(y - 2), sqr(x) + sqr(y)) < 0.25"],
    );
    let bounds = vec![interval(1.0, 3.0), interval(1.0, 3.0)];
    let point = find_initial(&system, &bounds, 1, &mut rng())
        .expect("the far disc seeds from its own box");
    assert!(feasible(&system, &point, 0.0), "{point:?}");
    assert!(
        bounds
            .iter()
            .zip(&point)
            .all(|(bound, value)| bound.contains(r(*value))),
        "{point:?} left {bounds:?}"
    );
}

#[test]
fn a_start_takes_a_number_for_every_coordinate() {
    let system = system(vec![variable("x", 0.0, 1.0), variable("y", 0.0, 1.0)], &["x + y > 3"]);
    let seen = RefCell::new(Vec::new());
    let nobody = |_: &local::Landing, from: &Vec<Real>, _: u64| {
        seen.borrow_mut().push(fs(from));
        None
    };
    let bounds = system.declared();
    let mut stream = rng();
    assert!(local::find_initial(&system, &Doubles, &bounds, 1, &mut stream, &unit, &nobody).is_none());
    assert!(stream == rng(), "the centre is not drawn");
    assert_eq!(seen.take(), [[0.5, 0.5]]);

    assert!(local::find_initial(&system, &Doubles, &bounds, 3, &mut stream, &unit, &nobody).is_none());
    let mut again = rng();
    let numbers: Vec<f64> = (0..4).map(|_| again.random_range(0.0..1.0)).collect();
    assert_eq!(seen.take(), [vec![0.5, 0.5], numbers[..2].to_vec(), numbers[2..].to_vec()]);
    assert!(stream == again, "each from the generator as the one before left it");
}

#[test]
fn a_solver_that_wanders_out_of_the_box_seeds_nothing() {
    let system = system(vec![variable("x", -3.0, 3.0)], &["x * x < 4"]);
    let bounds = vec![interval(0.0, 1.0)];
    let answer = |x: f64| move |_: &local::Landing, _: &Vec<Real>, _: u64| Some(rs(&[x]));
    let found = |x: f64| local::find_initial(&system, &Doubles, &bounds, 2, &mut rng(), &unit, &answer(x)).map(|p| fs(&p));
    assert!(feasible(&system, &[-1.0], 0.0), "feasible, and outside the box searched");
    assert_eq!(found(-1.0), None);
    assert_eq!(found(1.5), None);
    assert_eq!(found(1.0), Some(vec![1.0]), "closed on every side");
    assert_eq!(found(0.25), Some(vec![0.25]));

    let mut landing = local::Landing::over(&Doubles, &bounds);
    landing.cost(&system, &Outward, &Doubles, &rs(&[-0.5]));
    assert!(landing.best.is_none() && !landing.stop, "outside the cube is outside the box");
    landing.cost(&system, &Outward, &Doubles, &rs(&[0.5]));
    assert_eq!(landing.best.map(|(_, point)| fs(&point)), Some(vec![0.5]));
    assert!(landing.stop);
}

#[test]
fn a_disc_corner_projects_radially() {
    let system = system(
        vec![
            variable("x", -2.0, 2.0),
            variable("y", -2.0, 2.0),
        ],
        &["x^2 + y^2 < 1"],
    );
    let corner = [1.2, 1.2];
    let projected = nearest(&system, &corner, &corner, 1e-9);
    let point = fs(&projected.clear.expect("the rim has room inside it"));
    let angle = point[1].atan2(point[0]).to_degrees();
    let radius = point[0].hypot(point[1]);
    assert!(
        (angle - 45.0).abs() < 0.5,
        "{point:?} is at {angle} degrees"
    );
    assert!(
        (1.0 - radius) < 1e-3 && radius < 1.0,
        "{point:?} is at radius {radius}"
    );
}

#[test]
fn a_half_space_projects_along_its_normal() {
    let system = system(
        vec![
            variable("x1", -2.0, 2.0),
            variable("x2", -2.0, 2.0),
        ],
        &["2*x1 + x2 < 1"],
    );
    let outside = [1.0, 1.0];
    let projected = nearest(&system, &outside, &outside, 1e-9);
    let point = fs(&projected.clear.expect("a half-space has room"));
    assert!(
        (point[0] - 0.2).abs() < 1e-3 && (point[1] - 0.6).abs() < 1e-3,
        "{point:?} is not the foot of the normal"
    );
}

#[test]
fn local_a_projection_is_deterministic() {
    let system = system(
        vec![
            variable("x", -2.0, 2.0),
            variable("y", -2.0, 2.0),
        ],
        &["x^2 + y^2 < 1"],
    );
    let corner = [-1.2, 1.2];
    let once = nearest(&system, &corner, &corner, 1e-9).clear;
    let twice = nearest(&system, &corner, &corner, 1e-9).clear;
    assert_eq!(once, twice);
}

#[test]
fn an_empty_region_projects_to_nothing() {
    let system = system(
        vec![variable("x", 0.0, 10.0)],
        &["x > 8", "x < 2"],
    );
    let projected = nearest(&system, &[5.0], &[5.0], 0.0);
    assert!(projected.clear.is_none() && projected.feasible.is_none());
}

#[test]
fn a_corner_of_many_strict_bounds_is_seeded_from_the_centre() {
    let names: Vec<String> = (1..=40).map(|i| format!("x{i}")).collect();
    let inputs = names
        .iter()
        .map(|name| variable(name, 10.0, 11.0))
        .collect();
    let sources: Vec<String> = names.iter().map(|name| format!("{name} > 10.5")).collect();
    let sources: Vec<&str> = sources.iter().map(String::as_str).collect();
    let system = system(inputs, &sources);
    assert!(
        !feasible(&system, &vec![10.5; 40], 0.0),
        "the centre is on every wall"
    );

    let point = find_initial(&system, &system.declared(), local::STARTS, &mut rng())
        .expect("the corner seeds");
    assert!(feasible(&system, &point, 0.0), "{point:?}");
}

#[test]
fn an_empty_region_is_not_seeded() {
    let system = system(
        vec![variable("x", 0.0, 10.0)],
        &["x > 8", "x < 2"],
    );
    assert!(find_initial(&system, &system.declared(), local::STARTS, &mut rng()).is_none());
}

#[test]
fn a_faulting_constraint_still_seeds() {
    let system = system(vec![variable("x", -1.0, 3.0)], &["ln(x) > 0"]);
    let point = find_initial(&system, &system.declared(), local::STARTS, &mut rng())
        .expect("the log's domain seeds");
    assert!(feasible(&system, &point, 0.0), "{point:?}");
}

#[test]
fn the_same_seed_finds_the_same_point() {
    let system = system(
        vec![
            variable("x", -3.0, 3.0),
            variable("y", -3.0, 3.0),
        ],
        &["sqr(x - 2) + sqr(y - 2) < 0.25", "x + y > 3.9"],
    );
    let first = find_initial(&system, &system.declared(), local::STARTS, &mut rng()).expect("seeds");
    let second = find_initial(&system, &system.declared(), local::STARTS, &mut rng()).expect("seeds");
    assert_eq!(first, second);
}

// ---- repair ----

const CLEARANCE: f64 = 1e-12;

fn l2(a: &[f64], b: &[f64]) -> f64 {
    a.iter().zip(b).map(|(x, y)| (x - y) * (x - y)).sum::<f64>().sqrt()
}

fn cube_of(n: usize, lo: f64, hi: f64, sources: &[&str]) -> ConstraintSystem<Compiled> {
    system((1..=n).map(|i| variable(&format!("x{i}"), lo, hi)).collect(), sources)
}

/// A region over a system, with nothing in hand.
fn region_over(system: ConstraintSystem<Compiled>) -> FeasibleRegion<Compiled> {
    conclude(system, &Opening::Satisfied).expect("a verdict").expect("a region")
}

/// For each proposal, the landing must be feasible with the clearance, and no
/// farther from the proposal than the nearest feasible point there is, but for
/// the clearance and the tolerance of the solve.
fn lands_nearest(system: ConstraintSystem<Compiled>, proposals: &[Vec<f64>], nearest: impl Fn(&[f64]) -> Vec<f64>) {
    let region = region_over(system);
    let mut failures = Vec::new();
    for (k, p) in proposals.iter().enumerate() {
        let q = nearest(p);
        assert!(feasible(region.system(), &q, 0.0), "closed-form nearest is not feasible: {q:?}");
        let least = l2(p, &q);
        match repaired(&region, p, CLEARANCE) {
            Ok(landed) => {
                let ratio = l2(p, &landed) / least;
                if !feasible(region.system(), &landed, CLEARANCE) {
                    failures.push(format!("#{k}: landed without the clearance"));
                }
                if ratio > 1.0 + 1e-6 {
                    failures.push(format!("#{k}: landed {ratio:.3}x farther than the nearest feasible point"));
                }
            }
            Err(RepairError::Stranded) => failures.push(format!("#{k}: Stranded")),
            Err(RepairError::Cramped { .. }) => failures.push(format!("#{k}: Cramped")),
        }
    }
    assert!(failures.is_empty(), "{}", failures.join("; "));
}

#[test]
fn a_ball_near_miss_lands_off_the_radial_projection() {
    let sys = cube_of(50, -10.0, 10.0, &["(x1 - 3)^2 + (x2 - 3)^2 < 2.25"]);
    let mut rng = rand::rngs::SmallRng::seed_from_u64(1);
    let mut props = Vec::new();
    for scale in [0.01, 0.3, 3.0, 8.0] {
        for _ in 0..3 {
            let mut p: Vec<f64> = (0..50).map(|_| rng.random::<f64>() * ((10.0) - (-10.0)) + (-10.0)).collect();
            let th: f64 = rng.random::<f64>() * ((std::f64::consts::TAU) - (0.0)) + (0.0);
            p[0] = 3.0 + (1.5 + scale) * th.cos();
            p[1] = 3.0 + (1.5 + scale) * th.sin();
            p[0] = p[0].clamp(-10.0, 10.0);
            p[1] = p[1].clamp(-10.0, 10.0);
            props.push(p);
        }
    }
    lands_nearest(sys, &props, |p| {
        let (dx, dy) = (p[0] - 3.0, p[1] - 3.0);
        let r = (dx * dx + dy * dy).sqrt();
        let s = (1.5 - 1e-9) / r;
        let mut q = p.to_vec();
        q[0] = 3.0 + dx * s;
        q[1] = 3.0 + dy * s;
        q
    });
}

#[test]
fn a_slab_landing_moves_one_coordinate_instead_of_two() {
    let sys = cube_of(50, -10.0, 10.0, &["x1 == x2 + 1 +/- 0.01"]);
    let mut rng = rand::rngs::SmallRng::seed_from_u64(2);
    let mut props = Vec::new();
    for gap in [0.02, 0.1, 1.0, 5.0, -0.02, -1.0, -5.0] {
        for _ in 0..2 {
            let mut p: Vec<f64> = (0..50).map(|_| rng.random::<f64>() * ((9.0) - (-9.0)) + (-9.0)).collect();
            // x1 so that x1 - x2 - 1 = gap
            p[0] = p[1] + 1.0 + gap;
            if p[0].abs() > 10.0 {
                p[1] = 0.0;
                p[0] = 1.0 + gap;
            }
            props.push(p);
        }
    }
    lands_nearest(sys, &props, |p| {
        let d = p[0] - p[1] - 1.0;
        let excess = d.abs() - (0.01 - 1e-9);
        let mut q = p.to_vec();
        if excess > 0.0 {
            let sh = excess / 2.0 * d.signum();
            q[0] -= sh;
            q[1] += sh;
        }
        q
    });
}

#[test]
fn a_sphere_shell_landing_is_the_radial_projection() {
    let sys = cube_of(20, 0.0, 1.0, &["sum(1, 20, i -> (var[i])^2) == 1 +/- 0.0001"]);
    let mut rng = rand::rngs::SmallRng::seed_from_u64(3);
    let mut props: Vec<Vec<f64>> =
        (0..6).map(|_| (0..20).map(|_| rng.random::<f64>() * ((1.0) - (0.0)) + (0.0)).collect()).collect();
    props.push(vec![1.0; 20]);
    props.push(vec![0.5; 20]);
    props.push((0..20).map(|i| 0.05 + 0.04 * i as f64).collect());
    lands_nearest(sys, &props, |p| {
        let r2: f64 = p.iter().map(|x| x * x).sum();
        let target = if r2 > 1.0 { (1.0f64 + 1e-4 - 1e-10).sqrt() } else { (1.0f64 - 1e-4 + 1e-10).sqrt() };
        let s = target / r2.sqrt();
        p.iter().map(|x| x * s).collect()
    });
}

#[test]
fn the_two_slab_variables_alone_repair_fine() {
    let region = region_over(cube_of(2, -10.0, 10.0, &["x1 == x2 + 1 +/- 0.01"]));
    let landed = repaired(&region, &[10.0, 10.0], CLEARANCE).expect("repairable");
    assert!(feasible(region.system(), &landed, CLEARANCE), "{landed:?}");
}

/// Where lifting what is near zero is feasible, the repair is no farther.
fn is_repaired_where_a_lift_is_feasible(n: usize, point: &[f64]) {
    let product = format!("0.75 - prod(1, {n}, i -> var[i]) < 0");
    let total = format!("sum(1, {n}, i -> var[i]) - {} < 0", 7.5 * n as f64);
    let region = region_over(cube_of(n, 0.0, 10.0, &[&product, &total]));
    let lifted: Vec<f64> = point.iter().map(|x| x.max(1.0).min(10.0 - 1e-9)).collect();
    assert!(feasible(region.system(), &lifted, CLEARANCE), "the lifted point should be plainly feasible");
    let reach = l2(point, &lifted);
    let landed = repaired(&region, point, CLEARANCE).expect("repairable");
    assert!(feasible(region.system(), &landed, CLEARANCE), "landed without the clearance: {landed:?}");
    let moved = l2(point, &landed);
    assert!(moved <= reach + 1e-9, "landed farther than the lifted point ({moved} > {reach})");
}

#[test]
fn keane_50_proposal_is_repaired() {
    is_repaired_where_a_lift_is_feasible(50, &KEANE_50);
}

#[test]
fn keane_100_proposal_is_repaired() {
    is_repaired_where_a_lift_is_feasible(100, &KEANE_100);
}

#[test]
fn repair_lands_on_a_slab_with_room_to_spare() {
    let region = region_over(cube_of(50, -10.0, 10.0, &["x1 == x2 + 1 +/- 0.01"]));
    let landed = repaired(&region, &SLAB, CLEARANCE).expect("the slab is 0.02 wide");
    assert!(feasible(region.system(), &landed, CLEARANCE), "landed without the clearance: {landed:?}");
    let gap = landed[0] - landed[1] - 1.0;
    assert!(gap.abs() < 0.01, "not inside the slab: {gap}");
}

const KEANE_50: [f64; 50] = [
    0.08928918738349267, 0.8128352441524971, 9.423980250530082, 8.201514214434269e-7, 0.074313852199003, 9.787239247939075,
    1.4211922856333103e-6, 0.1897163472654313, 9.84180144604797, 9.365967211219166, 0.050729876983561795, 9.964434055086267,
    9.99999999999, 9.998420069515479, 0.6367844193595209, 1.000177718424311e-11, 0.2817004031539234, 0.08928918738349179,
    0.04463556293675364, 9.888842446816353, 9.755546509597457, 9.993325488268553, 0.04070536976125716, 9.982578066498466,
    6.753114992849506, 9.916261792957172, 9.917970006505211, 9.84180144604797, 9.965996110813085, 0.04224343643094741,
    0.08928918738349179, 0.0892891873834909, 9.995418246406189, 1.000177718424311e-11, 0.45955550570587533, 0.07810019738970642,
    3.6437449990600612e-6, 9.84180144604797, 0.09112711432073706, 9.992216303186801, 9.5554706945567, 1.000177718424311e-11,
    0.021898415600998256, 0.047301883444006876, 10.0, 1.000177718424311e-11, 0.0575386197917398, 9.980275812968333,
    9.994656793123873, 0.21906571038074585,
];

const KEANE_100: [f64; 100] = [
    0.17254578921850872, 9.847544237268336, 2.0521462694660904, 9.998476568313237, 9.76509275017996, 9.850646770930963,
    9.996393506044793, 10.0, 0.3205469515262518, 0.22019689702190348, 0.10910633798575908, 1.6150612543341936e-5,
    3.7116243034791196, 7.321527629920714, 9.728315006404275, 0.20150607661669007, 10.0, 0.17801234505628738,
    9.781963578457491, 0.02295628842870201, 0.04463556293675364, 9.989393779363073, 2.963614537019205, 9.829712337107315,
    9.94178651080093, 9.99750417081147, 0.09340781041695045, 0.04242684147396236, 9.849243124942896, 0.09418976995315997,
    3.3114549281361843, 10.0, 9.991962886896662, 0.018675786031829844, 0.04574268681044913, 0.06537103995314375,
    9.885891910534452, 9.97120509364014, 0.0739859783351573, 0.10072017225057994, 0.09771396100312746, 9.921515396325125,
    0.0044404944124520895, 1.000177718424311e-11, 9.955405564200245, 0.1907643650899571, 0.1166567682530637, 9.675787351863239,
    0.13972615304147418, 9.888097649349508, 0.16431233484910468, 9.971398133058544, 0.15458082940541118, 0.019965876786665504,
    9.30586180378567, 9.98422754460475, 9.924204242569346, 5.251523720772866e-6, 0.07149581405804017, 0.04524056575319069,
    9.97258594389993, 0.10404989602332915, 1.000177718424311e-11, 0.003899453529749408, 10.0, 0.2214747694598156,
    9.999977057168755, 0.023295827303008387, 0.33796421096362383, 0.25489057481690747, 0.03942431403784141, 9.966128451036527,
    3.386902292969065, 9.619027967766208, 0.03019840151393094, 0.022291509229087403, 0.10109105531713958, 9.925950983729551,
    9.893692068337426, 0.15361721576050336, 0.09293107743228646, 0.03816301885874829, 0.06348329020397259, 9.794511175116297,
    0.13889958852751594, 0.014363407752428614, 0.04166180538376718, 0.02120532449144985, 9.965819606548731, 0.22915812910300737,
    9.99999999999, 9.987478647541776, 9.777482049114209, 0.11126635161483467, 9.730111214688964, 2.8933292614219397e-5,
    9.956858866428668, 9.727571143799182, 9.718735982172214, 9.9831122879468,
];

const SLAB: [f64; 50] = [
    10.0, 10.0, 0.037934591907416576, -1.4526100941029996, -2.3893010265475714, 1.361931567811031,
    4.11689052283946, 4.494252410345063, -2.005518602274471, 4.1188793056627, -5.95116686164018,
    2.492842031275674, -1.3234596891714148, 3.347236617051133, 10.0, -1.1891807306029345,
    -1.516681144741728, 4.431115884399351, -0.5874735872910958, -3.930237559691323, -6.366025452051,
    -2.4629519762105225, 0.8073114586925813, -5.0137779123063, -1.644508933427449, -1.1598311363591725,
    -4.302614890261344, -0.49317672900232257, -1.256139640975735, 3.234262566994011, 4.187426934577074,
    -0.5465312579226764, -1.5543093106643513, 2.393501938545735, -0.44097708303743244, 1.2391729285165716,
    1.5688822265030176, -1.578121285453353, -6.8546281947342855, -3.864870815187305, 7.000175360769164,
    -0.9191642874867916, 1.1534444997183808, -4.166591487377443, 1.0350269446341147, -4.887948004425278,
    -0.30389172137436576, -7.919489276088157, 6.2641372922625385, -8.73885329592165,
];

/// A wire, its coil and its turns: two walls meet at the optimum.
fn spring() -> ConstraintSystem<Compiled> {
    system(
        vec![variable("d", 0.05, 2.0), variable("D", 0.25, 1.3), variable("N", 2.0, 15.0)],
        &[
            "1 - (D^3) * N / (71785 * (d^4)) < 0",
            "(4 * (D^2) - d * D) / (12566 * (D * (d^3) - (d^4))) + 1 / (5108 * (d^2)) - 1 < 0",
            "1 - 140.45 * d / ((D^2) * N) < 0",
            "(D + d) / 1.5 - 1 < 0",
        ],
    )
}

#[test]
fn the_spring_vertex_is_landed_one_rounding_error_inside() {
    let region = region_over(spring());
    let vertex = [0.052986411203565915_f64, 0.38873876446629, 9.632040910614];
    let back = repaired(&region, &vertex, CLEARANCE).expect("repairable");
    assert!(feasible(region.system(), &back, 0.0), "the landing is not feasible: {back:?}");
    // Normalised to [-1, 1] per coordinate and back, which is an ulp off for some.
    let (lo, hi) = ([0.05, 0.25, 2.0], [2.0, 1.3, 15.0]);
    let round_trip: Vec<f64> = (0..3)
        .map(|i| {
            let n = (back[i] - lo[i]) / (hi[i] - lo[i]) * 2.0 - 1.0;
            lo[i] + (n + 1.0) / 2.0 * (hi[i] - lo[i])
        })
        .collect();
    assert!(feasible(region.system(), &round_trip, 0.0), "infeasible after a round trip: {round_trip:?}");
}

#[test]
fn a_repaired_point_should_survive_a_one_ulp_perturbation() {
    let region = region_over(spring());
    let outside = [0.0529 * 1.02, 0.3887, 9.632];
    assert!(!feasible(region.system(), &outside, 0.0), "the starting point should be infeasible");
    let landed = repaired(&region, &outside, CLEARANCE).expect("repairable");
    for i in 0..3 {
        for up in [false, true] {
            let mut p = landed.clone();
            p[i] = if up { p[i].next_up() } else { p[i].next_down() };
            assert!(feasible(region.system(), &p, 0.0), "one ulp on {i} leaves the region: {p:?}");
        }
    }
}

#[test]
fn a_point_with_the_clearance_is_its_own_repair() {
    let region = region_over(cube_of(2, 0.0, 1.0, &["x1 + x2 < 1"]));
    assert_eq!(repaired(&region, &[0.25, 0.5], 0.01).expect("clear"), vec![0.25, 0.5]);
    let landed = repaired(&region, &[0.9, 0.9], 0.01).expect("repairable");
    assert_eq!(repaired(&region, &landed, 0.01).expect("clear"), landed, "repairing twice changes nothing");
}

#[test]
fn a_repair_draws_from_generators_of_its_own() {
    let region = region_over(system(vec![variable("x", 0.0, 1.0)], &["x > 2"]));
    let drawn: RefCell<Vec<Xoshiro256PlusPlus>> = RefCell::new(Vec::new());
    let started: RefCell<Vec<Xoshiro256PlusPlus>> = RefCell::new(Vec::new());
    let helpers = Helpers {
        solve,
        draw: |generator: &Xoshiro256PlusPlus, lo: Real, hi: Real| {
            drawn.borrow_mut().push(generator.clone());
            draw(generator, lo, hi)
        },
        project: |_: &local::Projection, _: &Vec<Real>, _: u64| local::Projected { clear: None, feasible: None },
        unit: |generator: &Xoshiro256PlusPlus| {
            started.borrow_mut().push(generator.clone());
            unit(generator)
        },
        seed: |_: &local::Landing, _: &Vec<Real>, _: u64| None,
    };
    for _ in 0..2 {
        let result = region.repair(&Outward, &Doubles, &helpers, &rs(&[0.5]), r(0.0));
        assert!(matches!(result, Err(RepairError::Stranded)), "{result:?}");
        let mut sampling = Xoshiro256PlusPlus::seed_from_u64(sojourn::repair::SAMPLING_SEED);
        let draws = drawn.take();
        assert_eq!(draws.len(), sojourn::repair::SAMPLING_ROUNDS * sojourn::repair::SAMPLING_DRAWS);
        for generator in draws {
            assert!(generator == sampling);
            sampling.random_range(0.0..=1.0);
        }
        let mut reference = Xoshiro256PlusPlus::seed_from_u64(sojourn::repair::REFERENCE_SEED);
        let starts = started.take();
        assert_eq!(starts.len(), local::STARTS - 1, "the first is the centre");
        for generator in starts {
            assert!(generator == reference);
            reference.random_range(0.0..1.0);
        }
    }
}

#[test]
fn what_was_taken_changes_no_repair_of_a_point() {
    let mut region = FeasibleRegion {
        system: system(vec![variable("x", 0.0, 1.0), variable("y", 0.0, 1.0)], &["x * y < 0.25", "x + y > 0.2"]),
        buffer: vec![rs(&[0.5, 0.25]), rs(&[0.25, 0.5])],
        exhausted: false,
        closed: false,
    };
    let points = [[0.9, 0.9], [0.0, 0.0], [0.7, 0.6]];
    let before: Vec<Vec<f64>> = points.iter().map(|p| repaired(&region, p, 0.01).expect("repairable")).collect();
    assert_eq!(region.try_take(2).len(), 2);
    for (point, landed) in points.iter().zip(&before) {
        assert_eq!(&repaired(&region, point, 0.01).expect("repairable"), landed, "{point:?}");
        assert_eq!(&repaired(&region, landed, 0.01).expect("clear"), landed);
    }
}

#[test]
fn without_clearance_there_is_always_room() {
    let region = FeasibleRegion {
        system: system(
            vec![variable("x", 0.0, 1.0), variable("y", 0.0, 1.0)],
            &["x + y == 1 +/- 0.000001", "x > 0.2"],
        ),
        buffer: Vec::new(),
        exhausted: true,
        closed: false,
    };
    for i in 0..6 {
        let point = [f64::from(i) * 0.2, f64::from(i % 3) * 0.5];
        match repaired(&region, &point, 0.0) {
            Ok(landed) => assert!(feasible(region.system(), &landed, 0.0), "{landed:?}"),
            Err(error) => assert!(matches!(error, RepairError::Stranded), "{point:?}: {error:?}"),
        }
        assert!(matches!(repaired(&region, &point, 0.25), Err(RepairError::Cramped { .. })), "{point:?}");
    }
}

#[test]
fn room_narrower_than_the_clearance_is_cramped_and_no_room_is_stranded() {
    let region = region_over(cube_of(1, 0.0, 10.0, &["x1 > 5", "x1 < 5.001"]));
    let Err(error) = repaired(&region, &[7.0], 0.5) else {
        panic!("half a box of room cannot be there");
    };
    assert_eq!(
        error.text(&spell),
        "a feasible point was reached but none with clearance 0.5; the feasible room is          narrower than the clearance asked for, so try a smaller one"
    );
    let RepairError::Cramped { nearest, clearance } = error else {
        panic!("there is room for a point");
    };
    assert_eq!(f(clearance), 0.5);
    assert!(feasible(region.system(), &fs(&nearest), 0.0));

    let region = region_over(cube_of(1, 0.0, 10.0, &["x1 > 8", "x1 < 2"]));
    let Err(error) = repaired(&region, &[5.0], 0.0) else {
        panic!("nothing is feasible");
    };
    assert!(matches!(error, RepairError::Stranded));
    assert_eq!(
        error.text(&spell),
        "no feasible point was reached: clamping could not land and the projection found nothing"
    );
}

// ---- clamping and chords ----

#[test]
fn the_cheapest_coordinate_is_clamped() {
    let system = cube_of(2, -2.0, 2.0, &["2*x1 + x2 < 1"]);
    let landed = fs(&sojourn::clamping::clamp_in(&system, &Outward, &Doubles, rs(&[1.0, 1.0]), r(0.0)).expect("lands"));
    assert_eq!(landed[1], 1.0, "x1 reaches the wall with half the move x2 would need");
    assert!(landed[0] < 0.0 + 1e-9 && landed[0] > -1e-6, "{landed:?}");
    assert!(feasible(&system, &landed, 0.0));
}

#[test]
fn without_clearance_a_feasible_point_is_not_clamped() {
    let system = cube_of(2, -2.0, 2.0, &["2*x1 + x2 < 1"]);
    for zero in [0.0, -0.0] {
        for point in [[0.0, 0.5], [-2.0, -2.0], [-0.75, 2.0]] {
            assert!(feasible(&system, &point, 0.0));
            let landed = sojourn::clamping::clamp_in(&system, &Outward, &Doubles, rs(&point), r(zero));
            assert_eq!(fs(&landed.expect("lands")), point);
        }
    }
}

#[test]
fn distinct_symbols_are_distinct_coordinates() {
    let system = cube_of(3, 0.0, 1.0, &["x3 + x1 < x3 * x2", "x2 < x2 * x2", "x1 + x1 < x3"]);
    for rows in &system.incidence.rows {
        for (i, row) in rows.iter().enumerate() {
            assert!(!rows[..i].contains(row), "{rows:?}");
        }
    }
}

#[test]
fn a_released_landing_keeps_its_room() {
    let system = cube_of(2, -2.0, 2.0, &["x1 < 1", "x2 < 1"]);
    let released = sojourn::clamping::release(&system, &Doubles, rs(&[0.25, 0.875]), &rs(&[0.5, 2.0]), r(0.01));
    assert_eq!(fs(&released), [0.5, 0.875], "x1 had no reason to move");
    assert!(feasible(&system, &fs(&released), 0.01));
}

#[test]
fn a_chord_ends_at_the_wall() {
    let system = cube_of(2, -2.0, 2.0, &["x1^2 + x2^2 < 1"]);
    let landed = fs(&sojourn::repair::along_chord(&system, &Outward, &Doubles, &rs(&[0.0, 0.0]), &rs(&[2.0, 0.0])));
    assert!(feasible(&system, &landed, 0.0));
    assert!(landed[0] > 1.0 - 1e-12 && landed[1] == 0.0, "{landed:?}");
}

#[test]
fn the_nearest_of_several_landings_wins() {
    let system = cube_of(1, 0.0, 10.0, &["x1 > 1"]);
    let clear = |x: f64| sojourn::repair::Landing::Clear(rs(&[x]));
    let near = |x: f64| sojourn::repair::Landing::Feasible(rs(&[x]));
    let nearest = |landings: Vec<sojourn::repair::Landing>| {
        sojourn::repair::nearest_of(&system, &Doubles, &rs(&[10.0]), landings, &rs(&[0.0]), r(0.0))
    };
    assert_eq!(fs(&nearest(vec![clear(5.0), clear(2.0), near(1.5), clear(3.0)]).expect("clear")), [2.0]);
    assert!(matches!(nearest(vec![near(3.0), near(2.0)]), Err(RepairError::Cramped { nearest, .. }) if fs(&nearest) == [2.0]));
    assert!(matches!(nearest(Vec::new()), Err(RepairError::Stranded)));
}

// ---- searches ----

const SEED: u64 = 0x50_50_1E_5E_ED;

/// A round of uniform proposals.
fn proposals(system: &ConstraintSystem<Compiled>, stream: &mut Xoshiro256PlusPlus, count: usize) -> Trial {
    let mut points = Vec::new();
    for _ in 0..count {
        let point: Vec<f64> = system
            .variables()
            .iter()
            .map(|v| stream.random_range(f(v.lower_bound)..=f(v.upper_bound)))
            .collect();
        if system.constraints.iter().all(|c| c.compiled.value(&point).is_some_and(|residual| residual <= 0.0)) {
            points.push(rs(&point));
        }
    }
    Trial { proposed: count as u64, points }
}

/// A search's opening.
fn opened(
    system: &ConstraintSystem<Compiled>,
    solver: ConstraintSolver,
    cancelled: bool,
) -> (Opening, Vec<Vec<f64>>, Ladder) {
    let (mut ladder, hints) = solver.start();
    let squad = Squad {
        probe: |sampler: &Sampler| {
            let mut stream = sampler.stream.clone();
            (proposals(system, &mut stream, 1024), stream)
        },
        brute: |sampler: &Sampler| {
            let mut stream = sampler.stream.clone();
            let mut proposed = 0;
            while proposed < sampler.proposals {
                let round = proposals(system, &mut stream, 1024);
                proposed += round.proposed;
                if !round.points.is_empty() {
                    return (Trial { proposed, points: round.points }, stream);
                }
            }
            (Trial { proposed, points: Vec::new() }, stream)
        },
        unit,
        seed: |landing: &local::Landing, from: &Vec<Real>, budget: u64| seed(system, landing, from, budget),
        cancelled: || cancelled,
    };
    let (opening, held) = search::serve(system, &Outward, &Doubles, &squad, &mut ladder, hints);
    (opening, held.iter().map(|point| fs(point)).collect(), ladder)
}

/// A region a ten-thousandth of its box.
fn one_in_ten_thousand() -> ConstraintSystem<Compiled> {
    system(vec![variable("x1", 0.0, 1.0)], &["x1 > 0.9999"])
}

#[test]
fn brute_force_seeds_the_walker_when_the_probe_is_empty() {
    let system = one_in_ten_thousand();
    let solver = ConstraintSolver::new()
        .with_seed(SEED)
        .with_strategies(vec![Strategy::BruteSquad, Strategy::HitAndRun])
        .with_proposal_budget(10_000_000);
    let (opening, held, _) = opened(&system, solver, false);
    assert!(matches!(opening, Opening::Satisfied), "{opening:?}");
    assert!(!held.is_empty() && held.iter().all(|point| point[0] > 0.9999), "{held:?}");
}

#[test]
fn the_seeders_go_first_and_brute_force_takes_what_they_cannot_decide() {
    let system_of_one = one_in_ten_thousand();
    let (opening, held, _) =
        opened(&system_of_one, ConstraintSolver::new().with_seed(SEED).with_proposal_budget(0), false);
    assert!(matches!(opening, Opening::Satisfied), "{opening:?}");
    assert!(held.iter().all(|point| point[0] > 0.9999), "{held:?}");

    // `var[n]` with `n` pinned to 1 is `x1 > 0.9999` written so that nothing but
    // the evaluator can read it.
    let opaque = system(vec![variable("x1", 0.0, 1.0), variable("n", 1.0, 1.0)], &["var[n] > 0.9999"]);
    let solver = ConstraintSolver::new()
        .with_seed(SEED)
        .with_strategies(vec![Strategy::BruteSquad, Strategy::HitAndRun, Strategy::Prune])
        .with_proposal_budget(1_000_000);
    let (opening, held, _) = opened(&opaque, solver, false);
    assert!(matches!(opening, Opening::Satisfied), "{opening:?}");
    assert!(held.iter().all(|point| point[0] > 0.9999), "{held:?}");
}

#[test]
fn the_prune_budget_bounds_the_opening() {
    let hard = system(
        vec![variable("x", 0.0, 100.0), variable("y", 0.0, 100.0), variable("z", 0.0, 100.0)],
        &[
            "floor(x) * floor(y) == floor(z) * 7 + 3 +/- 0.000000001",
            "x*y*z == 12345.678 +/- 0.000000001",
            "x^2 + y^2 == z^2 + 1 +/- 0.000000001",
        ],
    );
    let solver =
        ConstraintSolver::new().with_seed(SEED).with_prune_budget(64).with_proposal_budget(0).with_gpu(false);
    let (opening, held, _) = opened(&hard, solver, false);
    assert!(matches!(opening, Opening::Unproven { .. }), "{opening:?}");
    assert!(held.is_empty());
}

#[test]
fn a_zero_budget_gives_up_after_the_probe() {
    let solver = ConstraintSolver::new()
        .with_seed(SEED)
        .with_strategies(vec![Strategy::BruteSquad, Strategy::HitAndRun])
        .with_proposal_budget(0);
    let empty = system(vec![variable("x1", 0.0, 1.0)], &["x1 > 2"]);
    let (opening, _, _) = opened(&empty, solver, false);
    assert!(matches!(opening, Opening::Unproven { .. }), "{opening:?}");
}

#[test]
fn a_cancelled_search_concludes_nothing_it_has_not_shown() {
    let empty = system(vec![variable("x1", 0.0, 1.0)], &["x1^2 + x1 > 5"]);
    let solver = ConstraintSolver::new()
        .with_seed(SEED)
        .with_strategies(vec![Strategy::BruteSquad, Strategy::HitAndRun])
        .with_proposal_budget(1024);
    let (opening, held, _) = opened(&empty, solver, true);
    assert!(matches!(opening, Opening::Unproven { .. }), "{opening:?}");
    assert!(held.is_empty());
}

#[test]
fn a_contradiction_is_proved_and_both_sides_are_named() {
    let empty = system(vec![variable("x", 0.0, 10.0)], &["x > 8", "x < 2"]);
    let (opening, held, _) = opened(&empty, ConstraintSolver::new().with_seed(SEED), false);
    assert!(held.is_empty());
    let Some(Err(error)) = conclude(empty, &opening) else {
        panic!("{opening:?}");
    };
    assert!(matches!(&error, Infeasibility::Proved { blamed } if blamed.len() == 2));
    assert_eq!(error.text(), "no point satisfies these constraints together: `x > 8`, `x < 2`");
}

#[test]
fn what_could_not_be_concluded_from_is_named() {
    let opaque = system(vec![variable("n", 1.0, 2.0), variable("x2", 5.0, 10.0)], &["var[n] < 0", "x2 > 6"]);
    let solver = ConstraintSolver::new().with_seed(SEED).with_proposal_budget(0);
    let (opening, _, _) = opened(&opaque, solver, false);
    let Some(Err(error)) = conclude(opaque, &opening) else {
        panic!("{opening:?}");
    };
    assert_eq!(
        error.text(),
        "no feasible point was found: nothing proved the region empty and sampling found nothing; nothing could be concluded from `var[n] < 0`"
    );
}

#[test]
fn a_shrug_about_everything_names_nothing() {
    assert_eq!(
        Infeasibility::NotFound { unexpressed: Vec::new() }.text(),
        "no feasible point was found: nothing proved the region empty and sampling found nothing"
    );
}

#[test]
fn hints_are_judged_and_not_trusted() {
    let system = one_in_ten_thousand();
    let hints = vec![rs(&[0.5]), rs(&[0.99995]), rs(&[0.99995, 0.0]), rs(&[7.0])];
    let solver = ConstraintSolver::new()
        .with_seed(SEED)
        .with_strategies(vec![Strategy::HitAndRun])
        .with_known_feasible(hints);
    let (opening, held, _) = opened(&system, solver, false);
    assert!(matches!(opening, Opening::Satisfied), "{opening:?}");
    assert_eq!(held, vec![vec![0.99995]]);
}

#[test]
fn an_opening_is_the_same_however_often_it_is_asked() {
    let system = one_in_ten_thousand();
    let once = |_: u32| {
        let (opening, held, _) = opened(&system, ConstraintSolver::new().with_seed(SEED), false);
        (matches!(opening, Opening::Satisfied), held)
    };
    let first = once(0);
    assert!(first.0);
    assert_eq!(once(1), first);
}

#[test]
fn a_contradicted_proof_is_no_verdict() {
    let system = one_in_ten_thousand();
    assert!(conclude(system, &Opening::Contradicted { blamed: vec![0] }).is_none());
}

#[test]
fn every_batch_is_feasible_and_is_added_to_what_is_held() {
    let system = system(vec![variable("x1", 0.0, 1.0)], &["x1 > 0.5"]);
    let (mut ladder, _) = ConstraintSolver::new().with_seed(SEED).start();
    let deliver = |sampler: &Sampler, _: usize| {
        (Trial { proposed: 3, points: vec![rs(&[0.75]), rs(&[0.25])] }, sampler.stream.clone())
    };
    let walk = |stream: &Xoshiro256PlusPlus, from: &Vec<Vec<Real>>, short: usize| {
        assert!(!from.is_empty());
        ((0..short).map(|i| rs(&[if i % 2 == 0 { 0.875 } else { 0.125 }])).collect(), stream.clone())
    };
    let (batch, held) = search::next_batch(&system, &Doubles, &mut ladder, &deliver, &walk, vec![rs(&[0.625])], 4);
    assert!(batch.iter().all(|point| feasible(&system, &fs(point), 0.0)), "{batch:?}");
    assert_eq!(batch, [rs(&[0.75]), rs(&[0.875]), rs(&[0.875])]);
    assert_eq!(held, [rs(&[0.625]), rs(&[0.75]), rs(&[0.875]), rs(&[0.875])]);
}

#[test]
fn a_batch_is_never_more_than_was_asked_for() {
    let system = system(vec![variable("x1", 0.0, 1.0)], &["x1 > 0.5"]);
    let (mut ladder, _) = ConstraintSolver::new().with_seed(SEED).start();
    let many = |x: f64| vec![rs(&[x]); 5];
    let deliver = |sampler: &Sampler, _: usize| (Trial { proposed: 9, points: many(0.75) }, sampler.stream.clone());
    let short =
        |sampler: &Sampler, _: usize| (Trial { proposed: 9, points: vec![rs(&[0.75])] }, sampler.stream.clone());
    let walk = |stream: &Xoshiro256PlusPlus, _: &Vec<Vec<Real>>, _: usize| (many(0.875), stream.clone());
    let (batch, held) = search::next_batch(&system, &Doubles, &mut ladder, &deliver, &walk, Vec::new(), 2);
    assert_eq!(batch, vec![rs(&[0.75]); 2]);
    assert_eq!(held, batch);
    let (batch, _) = search::next_batch(&system, &Doubles, &mut ladder, &short, &walk, Vec::new(), 3);
    assert_eq!(batch, [rs(&[0.75]), rs(&[0.875]), rs(&[0.875])]);
}

/// A walk that steps a little from the last point in hand.
fn wander(
    system: &ConstraintSystem<Compiled>,
    stream: &Xoshiro256PlusPlus,
    from: &[Vec<Real>],
    short: usize,
) -> (Vec<Vec<Real>>, Xoshiro256PlusPlus) {
    let mut after = stream.clone();
    let mut at = fs(from.last().expect("something is in hand"));
    let steps = (0..short)
        .map(|_| {
            let next: Vec<f64> = at.iter().map(|x| x + after.random_range(-1e-5..1e-5)).collect();
            if feasible(system, &next, 0.0) {
                at = next;
            }
            rs(&at)
        })
        .collect();
    (steps, after)
}

#[test]
fn one_seed_hands_out_the_same_points_in_the_same_order() {
    let system = one_in_ten_thousand();
    let deliver = |sampler: &Sampler, count: usize| {
        let mut stream = sampler.stream.clone();
        (proposals(&system, &mut stream, 64 * count), stream)
    };
    let walk =
        |stream: &Xoshiro256PlusPlus, from: &Vec<Vec<Real>>, short: usize| wander(&system, stream, from, short);
    let run = |seed: u64| {
        let (opening, held, mut ladder) = opened(&system, ConstraintSolver::new().with_seed(seed), false);
        assert!(matches!(opening, Opening::Satisfied));
        let mut held: Vec<Vec<Real>> = held.iter().map(|point| rs(point)).collect();
        let mut points = held.clone();
        for _ in 0..4 {
            let (batch, more) = search::next_batch(&system, &Doubles, &mut ladder, &deliver, &walk, held, 8);
            points.extend(batch);
            held = more;
        }
        (points, ladder.walker, ladder.sampler.map(|sampler| sampler.stream))
    };
    let first = run(SEED);
    assert_eq!(first.0.len(), held_at_first(&system, SEED) + 32, "every batch is full");
    assert!(run(SEED) == first, "the points, their order, and the streams after");
    assert!(run(SEED + 1).0 != first.0);
}

fn held_at_first(system: &ConstraintSystem<Compiled>, seed: u64) -> usize {
    opened(system, ConstraintSolver::new().with_seed(seed), false).1.len()
}

#[test]
fn an_opening_leaves_the_streams_it_drew_from_further_on() {
    let system = one_in_ten_thousand();
    let solver = || ConstraintSolver::new().with_seed(SEED);
    let (before, _) = solver().start();
    let (_, _, after) = opened(&system, solver(), false);
    assert!(before.walker == after.walker, "nobody walked");
    assert!(before.sampler.expect("there").stream != after.sampler.expect("there").stream);
}

#[test]
fn an_easy_region_needs_no_walk() {
    let (ladder, _) = ConstraintSolver::new().with_seed(SEED).start();
    let hits = |landed: usize, proposed: u64| Trial { proposed, points: vec![rs(&[0.0]); landed] };
    assert!(ladder.walker_will_carry(&hits(0, 1)));
    assert!(ladder.walker_will_carry(&hits(1, 1001)));
    assert!(!ladder.walker_will_carry(&hits(1, 1000)), "one in a thousand is often enough");
    let (ladder, _) = ConstraintSolver::new().with_strategies(vec![Strategy::BruteSquad]).start();
    assert!(!ladder.walker_will_carry(&hits(0, 1)), "there is no walker");
}

#[test]
fn a_leaf_nothing_is_held_in_is_seeded() {
    let system = system(vec![variable("x", -5.0, 5.0)], &["(x + 2) * (x - 1) == 0 +/- 0.000000001"]);
    let Pruned::Live { leaves, .. } = pruned(&system, 64) else {
        panic!("there are two roots");
    };
    let mut local = Some(rng());
    let go = |landing: &local::Landing, from: &Vec<Real>, budget: u64| seed(&system, landing, from, budget);
    let seeds = search::cover(&system, &Doubles, &unit, &go, &|| false, &mut local, leaves, &vec![rs(&[1.0])]);
    assert_eq!(seeds.len(), 1, "{seeds:?}");
    assert!((f(seeds[0][0]) + 2.0).abs() < 1e-8);
    assert!(local == Some(rng()), "nothing was drawn");
}

// ---- solvers and regions ----

#[test]
fn a_seed_is_a_stream_for_every_strategy() {
    let of = |seed: u64| ConstraintSolver::new().with_seed(seed).start().0;
    let (once, twice, other) = (of(7), of(7), of(8));
    assert!(once.walker == twice.walker && once.local == twice.local);
    assert!(once.sampler.as_ref().expect("there").stream == twice.sampler.expect("there").stream);
    assert!(once.walker != other.walker && once.local != other.local);
    assert!(once.walker != once.local, "each has its own");

    let mut root = Xoshiro256PlusPlus::seed_from_u64(7);
    let (given, _) = ConstraintSolver::new().with_rng(root.clone()).start();
    assert!(given.walker == once.walker, "a seed is the generator it seeds");
    // Forked in the order they are listed: the brute squad, the local solve, the walk.
    assert!(once.sampler.expect("there").stream == Xoshiro256PlusPlus::from_rng(&mut root));
    assert!(once.local == Some(Xoshiro256PlusPlus::from_rng(&mut root)));
    assert!(once.walker == Some(Xoshiro256PlusPlus::from_rng(&mut root)));
}

#[test]
fn a_seed_expands_to_four_words() {
    for seed in [0_u64, 7, u64::MAX] {
        let mut counter = seed;
        let mut bytes = [0_u8; 32];
        for word in bytes.chunks_exact_mut(8) {
            counter = counter.wrapping_add(0x9e37_79b9_7f4a_7c15);
            let first = (counter ^ (counter >> 30)).wrapping_mul(0xbf58_476d_1ce4_e5b9);
            let second = (first ^ (first >> 27)).wrapping_mul(0x94d0_49bb_1331_11eb);
            word.copy_from_slice(&(second ^ (second >> 31)).to_le_bytes());
        }
        assert!(ConstraintSolver::new().with_seed(seed).rng == Xoshiro256PlusPlus::from_seed(bytes));
    }
}

#[test]
fn a_fork_is_seeded_with_four_words() {
    let mut state: [u64; 4] = [0; 4];
    let mut counter = 7_u64;
    for word in &mut state {
        counter = counter.wrapping_add(0x9e37_79b9_7f4a_7c15);
        let first = (counter ^ (counter >> 30)).wrapping_mul(0xbf58_476d_1ce4_e5b9);
        let second = (first ^ (first >> 27)).wrapping_mul(0x94d0_49bb_1331_11eb);
        *word = second ^ (second >> 31);
    }
    let turned = |word: u64, left: u32, right: u32| (word << left) | (word >> right);
    let ladder = ConstraintSolver::new()
        .with_seed(7)
        .with_strategies(vec![Strategy::HitAndRun, Strategy::LocalSolve])
        .start()
        .0;
    for fork in [ladder.walker, ladder.local] {
        let mut bytes = [0_u8; 32];
        for word in bytes.chunks_exact_mut(8) {
            let next = turned(state[0].wrapping_add(state[3]), 23, 41).wrapping_add(state[0]);
            word.copy_from_slice(&next.to_le_bytes());
            let (third, fourth) = (state[2] ^ state[0], state[3] ^ state[1]);
            state = [state[0] ^ fourth, state[1] ^ third, third ^ (state[1] << 17), turned(fourth, 45, 19)];
        }
        assert!(fork == Some(Xoshiro256PlusPlus::from_seed(bytes)));
    }
}

#[test]
fn a_stream_is_of_its_place_in_the_list() {
    let of = |list: Vec<Strategy>| ConstraintSolver::new().with_seed(7).with_strategies(list).start().0;
    let first = of(vec![Strategy::BruteSquad, Strategy::HitAndRun]);
    let second = of(vec![Strategy::Prune, Strategy::HitAndRun]);
    assert!(first.walker == second.walker);
    assert!(first.sampler.is_some() && second.sampler.is_none());
    assert!(first.prune.is_none() && second.prune.is_some());
    let alone = of(vec![Strategy::HitAndRun]);
    assert!(alone.walker != first.walker, "it is listed elsewhere");
}

#[test]
fn an_unseeded_search_has_streams_of_its_own() {
    let once = ConstraintSolver::new().start().0;
    let twice = ConstraintSolver::new().start().0;
    assert!(once.walker.is_some() && once.walker != twice.walker);
}

#[test]
fn what_a_builder_is_told_reaches_the_ladder() {
    let (ladder, hints) = ConstraintSolver::new()
        .with_seed(1)
        .with_known_feasible(vec![rs(&[1.5])])
        .with_proposal_budget(5)
        .with_prune_budget(6)
        .with_gpu(true)
        .with_gpu_proposal_budget(7)
        .with_threads(3)
        .start();
    let sampler = ladder.sampler.expect("there by default");
    assert_eq!((sampler.proposals, sampler.threads, sampler.gpu), (5, Some(3), Some(7)));
    assert_eq!(ladder.prune, Some(6));
    assert!(ladder.walker.is_some() && ladder.local.is_some());
    assert_eq!(fs(&hints[0]), [1.5]);

    let (ladder, hints) = ConstraintSolver::default().with_gpu(false).start();
    let sampler = ladder.sampler.expect("there by default");
    assert_eq!((sampler.proposals, sampler.threads, sampler.gpu), (1_000_000_000, None, None));
    assert_eq!(ladder.prune, Some(256));
    assert!(hints.is_empty());
}

#[test]
fn points_leave_in_the_order_they_arrive() {
    let system = system(vec![variable("x", 0.0, 10.0)], &["x > 0"]);
    let point = |x: f64| rs(&[x]);
    let mut region = region_over(system);
    assert_eq!(region.available(), 0);
    region.receive(vec![point(1.0)]);
    assert_eq!(region.available(), 1);
    assert!(region.take(2).is_none(), "one more may still come");
    region.receive(vec![point(2.0), point(3.0)]);
    assert_eq!(region.take(2), Some(vec![point(1.0), point(2.0)]));
    assert_eq!(region.status(), Status::Filling);
    region.receive(vec![point(4.0)]);
    assert_eq!(region.try_take(1), vec![point(3.0)]);
    assert!(!region.is_exhausted());
    region.finish();
    assert_eq!(region.status(), Status::Exhausted);
    assert!(region.is_exhausted());
    assert_eq!(region.take(5), Some(vec![point(4.0)]), "no more will come");
    assert_eq!(region.try_take(5), Vec::<Vec<Real>>::new());
    assert!(!region.closed);
    region.close();
    assert!(region.closed);
}

#[test]
fn the_first_batch_is_the_first_of_what_is_held() {
    let held: Vec<Vec<Real>> = (1..=40).map(|i| rs(&[f64::from(i) * 0.125])).collect();
    assert_eq!(search::first_batch(&held), held[..search::BATCH_SIZE].to_vec());
    assert_eq!(search::first_batch(&held[..3].to_vec()), held[..3].to_vec());
}

#[test]
fn three_empty_batches_are_the_last() {
    assert_eq!(search::after_batch(0, false), (0, Next::Send));
    assert_eq!(search::after_batch(2, false), (0, Next::Send));
    assert_eq!(search::after_batch(0, true), (1, Next::Again));
    assert_eq!(search::after_batch(1, true), (2, Next::Again));
    assert_eq!(search::after_batch(2, true), (3, Next::Stop));
}

// ---- systems that do not hold together ----

fn refused(inputs: Vec<InputVariable>, source: &str) -> SystemError {
    let unparsable = |source: &String| -> Result<Ast, CompilationFailure> {
        if source.contains('?') {
            let problem =
                Problem::new(ProblemKind::Syntax { message: "no token".to_owned(), from_lexer: true }, source, Span::new(2, 3));
            return Err(CompilationFailure { source: source.clone(), problems: vec![problem] });
        }
        Ok(parse(source))
    };
    ConstraintSystem::new(inputs, &vec!["x1 > 1".to_owned(), source.to_owned()], unparsable, resolve, bind)
        .expect_err("the second constraint does not fit")
}

#[test]
fn a_system_says_what_does_not_fit() {
    let box_of = || vec![variable("x1", 0.0, 10.0), variable("x2", 0.0, 10.0)];
    assert_eq!(
        refused(box_of(), "x ? 1").text(&spell),
        "constraint \"x ? 1\" did not parse: syntax error at '?': no token"
    );
    assert_eq!(
        refused(box_of(), "y + x1 > z").text(&spell),
        "constraint \"y + x1 > z\" references y, z which is not an input variable"
    );
    assert_eq!(
        refused(box_of(), "x1 + 1").text(&spell),
        "\"x1 + 1\" is a scalar expression, not a constraint: it has no truth value"
    );
    assert_eq!(
        refused(box_of(), "x1 == sin(x1) +/- 0.1").text(&spell),
        "constraint \"x1 == sin(x1) +/- 0.1\" is implicit in x1: it names x1 on both sides,          so nothing can solve it for x1 without rearranging it first. Write x1          on one side only - `a == b + a/2` is `a/2 - b == 0`"
    );
    let error = refused(box_of(), "var[3] > 1");
    assert_eq!(
        error.text(&spell),
        "constraint \"var[3] > 1\" reads var[3], and the box declares 2 variable(s)"
    );
    let SystemError::SubscriptOutOfRange { constraint, requested, available } = error else {
        panic!("a literal subscript past the box");
    };
    assert_eq!((constraint.index, requested, available), (1, 3, 2));
}

#[test]
fn a_constraint_is_quoted_as_it_was_written() {
    let system = system(vec![variable("x1", 0.0, 10.0)], &["x1 > 1", "x1\n< 5"]);
    assert_eq!(system.named(0).text(), "\"x1 > 1\"");
    assert_eq!(system.named(1).text(), "\"x1\\n< 5\"");
    assert_eq!(system.constraints(), ["x1 > 1", "x1\n< 5"]);
}
