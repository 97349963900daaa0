//! The abstract syntax tree.
//!
//! Two invariants shape the design:
//!
//! 1. **Symbols are resolved during lowering**, not at evaluation time. Names
//!    become [`GlobalId`] or [`LocalSlot`], so shadowing
//!    (`sum(1,3,x1 -> x1) + x1`) is settled structurally and evaluation needs
//!    no scope chain.
//! 2. **Every node carries a [`Span`]**, because diagnostics are reported
//!    against arbitrary sub-expressions at both compile time and run time.

use vstd::prelude::*;
use crate::diagnostics::Span;
use crate::machine::{arithmetic_of, deterministic, Arithmetic, Function, Machine, Operation};
use crate::text::same_text;
use crate::number::{index_of, nan, one, to_index, zero, Real};

verus! {

/// Position of a variable in the bound schema's declaration order.
#[derive(Debug, Clone, Copy, PartialEq, Eq, Structural)]
pub struct GlobalId(pub u32);

impl GlobalId {
    pub fn from_index(index: u32) -> (id: Self)
        ensures
            id == GlobalId(index),
    {
        Self(index)
    }

    pub fn index(self) -> (index: usize)
        ensures
            index == self.0,
    {
        self.0 as usize
    }
}

/// Position of a value in the current evaluation frame: a `var x = …` binding
/// or a lambda parameter.
#[derive(Debug, Clone, Copy, PartialEq, Eq, Structural)]
pub struct LocalSlot(pub u32);

impl LocalSlot {
    /// Slots are handed out monotonically during translation and never reused,
    /// so one flat frame serves the whole tree.
    pub fn from_index(index: u32) -> (slot: Self)
        ensures
            slot == LocalSlot(index),
    {
        Self(index)
    }

    pub fn index(self) -> (index: usize)
        ensures
            index == self.0,
    {
        self.0 as usize
    }
}

/// A complete compiled expression.
#[derive(Debug)]
pub struct Program {
    pub body: Block,
    /// Number of local slots the deepest frame requires.
    pub frame_size: u32,
}

/// `(statement ';')* returnStatement ';'?`
///
/// The grammar guarantees a trailing result expression, so this is a struct
/// with a required `result` rather than a list of statements that might not
/// produce a value.
#[derive(Debug)]
pub struct Block {
    pub assignments: Vec<Assignment>,
    pub result: Expr,
}

/// `var <name> = <expr>`
#[derive(Debug)]
pub struct Assignment {
    pub slot: LocalSlot,
    pub value: Expr,
    pub span: Span,
}

/// An expression node: a [`Kind`] plus its source location.
#[derive(Debug)]
pub struct Expr {
    pub kind: Kind,
    pub span: Span,
}

#[derive(Debug)]
pub enum Kind {
    Literal(Real),
    /// A statically named variable, resolved against the schema.
    Global(GlobalId),
    /// A `var x = …` binding or a lambda parameter.
    Local(LocalSlot),
    /// `var[expr]`: a one-based index into schema declaration order, computed
    /// at run time.
    DynamicIndex(Box<Expr>),
    Unary { op: UnaryOp, arg: Box<Expr> },
    Binary { op: BinaryOp, lhs: Box<Expr>, rhs: Box<Expr> },
    /// `sum(lower, upper, param -> body)` / `prod(…)`.
    Aggregate {
        kind: AggregateKind,
        lower: Box<Expr>,
        upper: Box<Expr>,
        param: LocalSlot,
        body: Box<Block>,
    },
    /// An aggregate whose bounds were known at compile time, unrolled into its
    /// terms.
    ///
    /// Evaluated left to right from [`AggregateKind::identity`]. Rebalancing
    /// would change the result, since rounded addition is not associative.
    Fold { kind: AggregateKind, terms: Vec<Expr> },
    /// A multi-statement lambda body used in expression position.
    Block(Box<Block>),
    /// `a < b`, `a >= b`, …
    Compare { op: CompareOp, lhs: Box<Expr>, rhs: Box<Expr> },
    /// `a == b +/- tolerance`.
    NearEq { lhs: Box<Expr>, rhs: Box<Expr>, tolerance: Real },
    /// Every term holding at once.
    And { terms: Vec<Expr> },
}

#[derive(Debug, Clone, Copy, PartialEq, Eq, Structural)]
pub enum UnaryOp {
    Negate,
    Cos,
    Sin,
    Tan,
    Acos,
    Asin,
    Atan,
    Cosh,
    Sinh,
    Tanh,
    Cot,
    /// Natural logarithm, spelled `ln`.
    Ln,
    /// Base-10 logarithm, the unary `log`.
    Log10,
    Abs,
    Sqrt,
    Cbrt,
    Sqr,
    Cube,
    Ceil,
    Floor,
    Sgn,
}

#[derive(Debug, Clone, Copy, PartialEq, Eq, Structural)]
pub enum BinaryOp {
    Add,
    Sub,
    Mul,
    Div,
    /// `a % b`, a *remainder*: the sign follows the dividend, so `-7 % 3` is
    /// -1.
    Rem,
    Pow,
    Max,
    Min,
    /// `log(base, x)`.
    LogB,
}

#[derive(Debug, Clone, Copy, PartialEq, Eq, Structural)]
pub enum CompareOp {
    Lt,
    Lte,
    Gt,
    Gte,
}

#[derive(Debug, Clone, Copy, PartialEq, Eq, Structural)]
pub enum AggregateKind {
    Sum,
    Prod,
}

// ---- operators ----

impl UnaryOp {
    /// The operator a `unaryFunction` keyword names.
    pub open spec fn named(keyword: Seq<char>) -> Option<UnaryOp> {
        if keyword == "cos"@ {
            Some(UnaryOp::Cos)
        } else if keyword == "sin"@ {
            Some(UnaryOp::Sin)
        } else if keyword == "tan"@ {
            Some(UnaryOp::Tan)
        } else if keyword == "acos"@ {
            Some(UnaryOp::Acos)
        } else if keyword == "asin"@ {
            Some(UnaryOp::Asin)
        } else if keyword == "atan"@ {
            Some(UnaryOp::Atan)
        } else if keyword == "cosh"@ {
            Some(UnaryOp::Cosh)
        } else if keyword == "sinh"@ {
            Some(UnaryOp::Sinh)
        } else if keyword == "tanh"@ {
            Some(UnaryOp::Tanh)
        } else if keyword == "cot"@ {
            Some(UnaryOp::Cot)
        } else if keyword == "ln"@ {
            Some(UnaryOp::Ln)
        } else if keyword == "log"@ {
            Some(UnaryOp::Log10)
        } else if keyword == "abs"@ {
            Some(UnaryOp::Abs)
        } else if keyword == "sqrt"@ {
            Some(UnaryOp::Sqrt)
        } else if keyword == "cbrt"@ {
            Some(UnaryOp::Cbrt)
        } else if keyword == "sqr"@ {
            Some(UnaryOp::Sqr)
        } else if keyword == "cube"@ {
            Some(UnaryOp::Cube)
        } else if keyword == "ceil"@ {
            Some(UnaryOp::Ceil)
        } else if keyword == "floor"@ {
            Some(UnaryOp::Floor)
        } else if keyword == "sgn"@ {
            Some(UnaryOp::Sgn)
        } else {
            None
        }
    }

    /// Maps a `unaryFunction` keyword to its operator. Negation has no keyword.
    pub fn from_keyword(keyword: &str) -> (op: Option<Self>)
        ensures
            op == UnaryOp::named(keyword@),
    {
        if same_text(keyword, "cos") {
            Some(UnaryOp::Cos)
        } else if same_text(keyword, "sin") {
            Some(UnaryOp::Sin)
        } else if same_text(keyword, "tan") {
            Some(UnaryOp::Tan)
        } else if same_text(keyword, "acos") {
            Some(UnaryOp::Acos)
        } else if same_text(keyword, "asin") {
            Some(UnaryOp::Asin)
        } else if same_text(keyword, "atan") {
            Some(UnaryOp::Atan)
        } else if same_text(keyword, "cosh") {
            Some(UnaryOp::Cosh)
        } else if same_text(keyword, "sinh") {
            Some(UnaryOp::Sinh)
        } else if same_text(keyword, "tanh") {
            Some(UnaryOp::Tanh)
        } else if same_text(keyword, "cot") {
            Some(UnaryOp::Cot)
        } else if same_text(keyword, "ln") {
            Some(UnaryOp::Ln)
        } else if same_text(keyword, "log") {
            Some(UnaryOp::Log10)
        } else if same_text(keyword, "abs") {
            Some(UnaryOp::Abs)
        } else if same_text(keyword, "sqrt") {
            Some(UnaryOp::Sqrt)
        } else if same_text(keyword, "cbrt") {
            Some(UnaryOp::Cbrt)
        } else if same_text(keyword, "sqr") {
            Some(UnaryOp::Sqr)
        } else if same_text(keyword, "cube") {
            Some(UnaryOp::Cube)
        } else if same_text(keyword, "ceil") {
            Some(UnaryOp::Ceil)
        } else if same_text(keyword, "floor") {
            Some(UnaryOp::Floor)
        } else if same_text(keyword, "sgn") {
            Some(UnaryOp::Sgn)
        } else {
            None
        }
    }

    /// What the operator makes of `x`.
    pub open spec fn value(self, arithmetic: Arithmetic, x: Real) -> Real {
        match self {
            UnaryOp::Negate => x.negated(),
            UnaryOp::Cos => (arithmetic.call)(Function::Cos, x),
            UnaryOp::Sin => (arithmetic.call)(Function::Sin, x),
            UnaryOp::Tan => (arithmetic.call)(Function::Tan, x),
            UnaryOp::Acos => (arithmetic.call)(Function::Acos, x),
            UnaryOp::Asin => (arithmetic.call)(Function::Asin, x),
            UnaryOp::Atan => (arithmetic.call)(Function::Atan, x),
            UnaryOp::Cosh => (arithmetic.call)(Function::Cosh, x),
            UnaryOp::Sinh => (arithmetic.call)(Function::Sinh, x),
            UnaryOp::Tanh => (arithmetic.call)(Function::Tanh, x),
            UnaryOp::Cot => arithmetic.over(one(), (arithmetic.call)(Function::Tan, x)),
            UnaryOp::Ln => (arithmetic.call)(Function::Ln, x),
            UnaryOp::Log10 => (arithmetic.call)(Function::Log10, x),
            UnaryOp::Abs => x.absolute(),
            UnaryOp::Sqrt => (arithmetic.call)(Function::Sqrt, x),
            UnaryOp::Cbrt => (arithmetic.call)(Function::Cbrt, x),
            UnaryOp::Sqr => arithmetic.times(x, x),
            UnaryOp::Cube => arithmetic.times(arithmetic.times(x, x), x),
            UnaryOp::Ceil => (arithmetic.call)(Function::Ceil, x),
            UnaryOp::Floor => (arithmetic.call)(Function::Floor, x),
            UnaryOp::Sgn => x.signed(),
        }
    }

    /// Applies the operator.
    ///
    /// The sign of a zero is that zero and the sign of a NaN is a NaN.
    pub fn apply<M: Machine>(self, machine: &M, x: Real) -> (y: Real)
        ensures
            deterministic(*machine) ==> y == self.value(arithmetic_of(*machine), x),
            self is Negate ==> y == x.negated(),
            self is Abs ==> y == x.absolute(),
            self is Sgn ==> y == x.signed(),
    {
        match self {
            UnaryOp::Negate => x.negate(),
            UnaryOp::Cos => machine.call(Function::Cos, x),
            UnaryOp::Sin => machine.call(Function::Sin, x),
            UnaryOp::Tan => machine.call(Function::Tan, x),
            UnaryOp::Acos => machine.call(Function::Acos, x),
            UnaryOp::Asin => machine.call(Function::Asin, x),
            UnaryOp::Atan => machine.call(Function::Atan, x),
            UnaryOp::Cosh => machine.call(Function::Cosh, x),
            UnaryOp::Sinh => machine.call(Function::Sinh, x),
            UnaryOp::Tanh => machine.call(Function::Tanh, x),
            UnaryOp::Cot => {
                let tangent = machine.call(Function::Tan, x);
                machine.operate(Operation::Div, one(), tangent)
            },
            UnaryOp::Ln => machine.call(Function::Ln, x),
            UnaryOp::Log10 => machine.call(Function::Log10, x),
            UnaryOp::Abs => x.abs(),
            UnaryOp::Sqrt => machine.call(Function::Sqrt, x),
            UnaryOp::Cbrt => machine.call(Function::Cbrt, x),
            UnaryOp::Sqr => machine.operate(Operation::Mul, x, x),
            UnaryOp::Cube => {
                let square = machine.operate(Operation::Mul, x, x);
                machine.operate(Operation::Mul, square, x)
            },
            UnaryOp::Ceil => machine.call(Function::Ceil, x),
            UnaryOp::Floor => machine.call(Function::Floor, x),
            UnaryOp::Sgn => x.sign(),
        }
    }
}

impl BinaryOp {
    /// The operator a `binaryFunction` keyword names.
    pub open spec fn named(keyword: Seq<char>) -> Option<BinaryOp> {
        if keyword == "max"@ {
            Some(BinaryOp::Max)
        } else if keyword == "min"@ {
            Some(BinaryOp::Min)
        } else if keyword == "log"@ {
            Some(BinaryOp::LogB)
        } else {
            None
        }
    }

    /// Maps a `binaryFunction` keyword to its operator. Only the three
    /// call-syntax functions; the infix operators come from the grammar's
    /// operator rules instead.
    pub fn from_function_keyword(keyword: &str) -> (op: Option<Self>)
        ensures
            op == BinaryOp::named(keyword@),
    {
        if same_text(keyword, "max") {
            Some(BinaryOp::Max)
        } else if same_text(keyword, "min") {
            Some(BinaryOp::Min)
        } else if same_text(keyword, "log") {
            Some(BinaryOp::LogB)
        } else {
            None
        }
    }

    /// What the operator makes of `a` and `b`.
    pub open spec fn value(self, arithmetic: Arithmetic, a: Real, b: Real) -> Real {
        match self {
            BinaryOp::Add => arithmetic.plus(a, b),
            BinaryOp::Sub => arithmetic.minus(a, b),
            BinaryOp::Mul => arithmetic.times(a, b),
            BinaryOp::Div => arithmetic.over(a, b),
            BinaryOp::Rem => (arithmetic.operate)(Operation::Rem, a, b),
            BinaryOp::Pow => (arithmetic.operate)(Operation::Pow, a, b),
            BinaryOp::Max => a.larger(b),
            BinaryOp::Min => a.smaller(b),
            BinaryOp::LogB => arithmetic.over((arithmetic.call)(Function::Ln, b), (arithmetic.call)(Function::Ln, a)),
        }
    }

    /// Applies the operator.
    ///
    /// `max` and `min` give a NaN for a NaN and order the signed zeros.
    pub fn apply<M: Machine>(self, machine: &M, a: Real, b: Real) -> (y: Real)
        ensures
            deterministic(*machine) ==> y == self.value(arithmetic_of(*machine), a, b),
            self is Max ==> y == a.larger(b),
            self is Min ==> y == a.smaller(b),
    {
        match self {
            BinaryOp::Add => machine.operate(Operation::Add, a, b),
            BinaryOp::Sub => machine.operate(Operation::Sub, a, b),
            BinaryOp::Mul => machine.operate(Operation::Mul, a, b),
            BinaryOp::Div => machine.operate(Operation::Div, a, b),
            BinaryOp::Rem => machine.operate(Operation::Rem, a, b),
            BinaryOp::Pow => machine.operate(Operation::Pow, a, b),
            BinaryOp::Max => maximum(a, b),
            BinaryOp::Min => minimum(a, b),
            BinaryOp::LogB => {
                let numerator = machine.call(Function::Ln, b);
                let denominator = machine.call(Function::Ln, a);
                machine.operate(Operation::Div, numerator, denominator)
            },
        }
    }
}

/// The larger of two numbers: a NaN if either is one, and on equal values the
/// one with the positive sign, which only matters for the zeros.
pub fn maximum(a: Real, b: Real) -> (y: Real)
    ensures
        y == a.larger(b),
{
    if a.is_nan() || b.is_nan() {
        nan()
    } else if b.lt(a) {
        a
    } else if a.lt(b) || a.is_sign_negative() {
        b
    } else {
        a
    }
}

/// The mirror of [`maximum`], answering the negative zero of the two.
pub fn minimum(a: Real, b: Real) -> (y: Real)
    ensures
        y == a.smaller(b),
{
    if a.is_nan() || b.is_nan() {
        nan()
    } else if b.lt(a) {
        b
    } else if a.lt(b) || a.is_sign_negative() {
        a
    } else {
        b
    }
}

impl AggregateKind {
    /// The fold's identity: `0` for `sum`, `1` for `prod`.
    #[verifier::allow_in_spec]
    pub fn identity(self) -> Real
        returns
            (match self {
                AggregateKind::Sum => zero(),
                AggregateKind::Prod => one(),
            }),
    {
        match self {
            AggregateKind::Sum => zero(),
            AggregateKind::Prod => one(),
        }
    }

    /// One term accumulated.
    pub open spec fn combined(self, arithmetic: Arithmetic, accumulated: Real, term: Real) -> Real {
        match self {
            AggregateKind::Sum => arithmetic.plus(accumulated, term),
            AggregateKind::Prod => arithmetic.times(accumulated, term),
        }
    }

    /// Accumulates one term.
    pub fn combine<M: Machine>(self, machine: &M, accumulated: Real, term: Real) -> (y: Real)
        ensures
            deterministic(*machine) ==> y == self.combined(arithmetic_of(*machine), accumulated, term),
    {
        match self {
            AggregateKind::Sum => machine.operate(Operation::Add, accumulated, term),
            AggregateKind::Prod => machine.operate(Operation::Mul, accumulated, term),
        }
    }
}

// ---- the shape of a tree ----

impl Expr {
    pub fn new(kind: Kind, span: Span) -> (expr: Self)
        ensures
            expr == (Expr { kind, span }),
    {
        Self { kind, span }
    }

    /// The expressions directly under this one, in source order.
    pub open spec fn under(self) -> Seq<Expr> {
        match self.kind {
            Kind::Literal(_) | Kind::Global(_) | Kind::Local(_) => Seq::empty(),
            Kind::Unary { arg, .. } => seq![*arg],
            Kind::DynamicIndex(arg) => seq![*arg],
            Kind::Binary { lhs, rhs, .. } => seq![*lhs, *rhs],
            Kind::Compare { lhs, rhs, .. } => seq![*lhs, *rhs],
            Kind::NearEq { lhs, rhs, .. } => seq![*lhs, *rhs],
            Kind::And { terms } => terms@,
            Kind::Fold { terms, .. } => terms@,
            Kind::Block(block) => block.listed(),
            Kind::Aggregate { lower, upper, body, .. } => seq![*lower, *upper] + body.listed(),
        }
    }

    /// The expressions directly under this one, in source order: the one
    /// statement of the tree's shape.
    pub fn children(&self) -> (children: Vec<&Expr>)
        ensures
            dereferenced(children@) == self.under(),
    {
        let mut children: Vec<&Expr> = Vec::new();
        match &self.kind {
            Kind::Literal(_) | Kind::Global(_) | Kind::Local(_) => {},
            Kind::Unary { arg, .. } => children.push(arg),
            Kind::DynamicIndex(arg) => children.push(arg),
            Kind::Binary { lhs, rhs, .. } => {
                children.push(lhs);
                children.push(rhs);
            },
            Kind::Compare { lhs, rhs, .. } => {
                children.push(lhs);
                children.push(rhs);
            },
            Kind::NearEq { lhs, rhs, .. } => {
                children.push(lhs);
                children.push(rhs);
            },
            Kind::And { terms } => append_all(&mut children, terms),
            Kind::Fold { terms, .. } => append_all(&mut children, terms),
            Kind::Block(block) => block.append_listed(&mut children),
            Kind::Aggregate { lower, upper, body, .. } => {
                children.push(lower);
                children.push(upper);
                body.append_listed(&mut children);
            },
        }
        proof {
            assert(dereferenced(children@) =~= self.under());
        }
        children
    }

    /// This node and everything under it, parents before children, left to
    /// right.
    pub open spec fn walk(self) -> Seq<Expr>
        decreases self,
    {
        seq![self] + match self.kind {
            Kind::Literal(_) | Kind::Global(_) | Kind::Local(_) => Seq::empty(),
            Kind::Unary { arg, .. } => arg.walk(),
            Kind::DynamicIndex(arg) => arg.walk(),
            Kind::Binary { lhs, rhs, .. } => lhs.walk() + rhs.walk(),
            Kind::Compare { lhs, rhs, .. } => lhs.walk() + rhs.walk(),
            Kind::NearEq { lhs, rhs, .. } => lhs.walk() + rhs.walk(),
            Kind::And { terms } => walk_all(terms@),
            Kind::Fold { terms, .. } => walk_all(terms@),
            Kind::Block(block) => block.walk(),
            Kind::Aggregate { lower, upper, body, .. } => lower.walk() + upper.walk() + body.walk(),
        }
    }

    /// This node and everything under it, in source order. For a query: what
    /// is read, whether a kind appears, how many times, where first.
    pub fn preorder(&self) -> (nodes: Vec<&Expr>)
        ensures
            dereferenced(nodes@) == self.walk(),
    {
        let mut stack: Vec<&Expr> = Vec::new();
        stack.push(self);
        proof {
            reveal_with_fuel(walk_all, 2);
            assert(dereferenced(stack@).reverse() =~= seq![*self]);
            assert(walk_all(seq![*self]) =~= self.walk()) by {
                assert(seq![*self].drop_last() =~= Seq::empty());
            }
        }
        walk_stack(stack, Ghost(self.walk()))
    }
}

/// What a sequence of references refers to.
pub open spec fn dereferenced<T>(references: Seq<&T>) -> Seq<T> {
    references.map_values(|reference: &T| *reference)
}

/// Every tree of `exprs` walked, in order.
pub open spec fn walk_all(exprs: Seq<Expr>) -> Seq<Expr>
    decreases exprs,
{
    if exprs.len() == 0 {
        Seq::empty()
    } else {
        walk_all(exprs.drop_last()) + exprs.last().walk()
    }
}

/// The values of a sequence of assignments walked, in order.
pub open spec fn walk_assignments(assignments: Seq<Assignment>) -> Seq<Expr>
    decreases assignments,
{
    if assignments.len() == 0 {
        Seq::empty()
    } else {
        walk_assignments(assignments.drop_last()) + assignments.last().value.walk()
    }
}

proof fn walk_all_of_concatenation(a: Seq<Expr>, b: Seq<Expr>)
    ensures
        walk_all(a + b) == walk_all(a) + walk_all(b),
    decreases b.len(),
{
    if b.len() == 0 {
        assert(a + b =~= a);
        assert(walk_all(b) =~= Seq::empty());
        assert(walk_all(a) + walk_all(b) =~= walk_all(a));
    } else {
        walk_all_of_concatenation(a, b.drop_last());
        assert((a + b).drop_last() =~= a + b.drop_last());
        assert((a + b).last() == b.last());
        assert(walk_all(a + b) =~= walk_all(a) + walk_all(b));
    }
}

proof fn walk_all_of_one(e: Expr)
    ensures
        walk_all(seq![e]) == e.walk(),
{
    reveal_with_fuel(walk_all, 2);
    assert(seq![e].drop_last() =~= Seq::empty());
    assert(walk_all(seq![e]) =~= e.walk());
}

proof fn walk_all_of_assignments(assignments: Seq<Assignment>)
    ensures
        walk_all(values_of(assignments)) == walk_assignments(assignments),
    decreases assignments.len(),
{
    if assignments.len() == 0 {
        assert(values_of(assignments) =~= Seq::empty());
    } else {
        walk_all_of_assignments(assignments.drop_last());
        assert(values_of(assignments).drop_last() =~= values_of(assignments.drop_last()));
    }
}

proof fn walk_all_of_block(block: Block)
    ensures
        walk_all(block.listed()) == block.walk(),
{
    walk_all_of_assignments(block.assignments@);
    walk_all_of_concatenation(values_of(block.assignments@), seq![block.result]);
    walk_all_of_one(block.result);
}

/// A walk is the node and then the walks of what is directly under it.
pub proof fn walk_is_parent_first(e: Expr)
    ensures
        e.walk() == seq![e] + walk_all(e.under()),
{
    match e.kind {
        Kind::Literal(_) | Kind::Global(_) | Kind::Local(_) => {},
        Kind::Unary { arg, .. } => walk_all_of_one(*arg),
        Kind::DynamicIndex(arg) => walk_all_of_one(*arg),
        Kind::Binary { lhs, rhs, .. } => walk_all_of_two(*lhs, *rhs),
        Kind::Compare { lhs, rhs, .. } => walk_all_of_two(*lhs, *rhs),
        Kind::NearEq { lhs, rhs, .. } => walk_all_of_two(*lhs, *rhs),
        Kind::And { terms } => {},
        Kind::Fold { terms, .. } => {},
        Kind::Block(block) => walk_all_of_block(*block),
        Kind::Aggregate { lower, upper, body, .. } => {
            walk_all_of_two(*lower, *upper);
            walk_all_of_block(*body);
            walk_all_of_concatenation(seq![*lower, *upper], body.listed());
            assert(e.walk() =~= seq![e] + walk_all(e.under()));
        },
    }
}

proof fn walk_all_of_two(a: Expr, b: Expr)
    ensures
        walk_all(seq![a, b]) == a.walk() + b.walk(),
{
    assert(seq![a, b] =~= seq![a] + seq![b]);
    walk_all_of_concatenation(seq![a], seq![b]);
    walk_all_of_one(a);
    walk_all_of_one(b);
}

fn append_all<'a>(list: &mut Vec<&'a Expr>, exprs: &'a Vec<Expr>)
    ensures
        dereferenced(final(list)@) == dereferenced(old(list)@) + exprs@,
{
    let ghost before = list@;
    for i in 0..exprs.len()
        invariant
            dereferenced(list@) =~= dereferenced(before) + exprs@.take(i as int),
    {
        let ghost earlier = list@;
        list.push(&exprs[i]);
        proof {
            assert(list@ == earlier.push(&exprs@[i as int]));
            assert(dereferenced(list@) =~= dereferenced(earlier).push(exprs@[i as int]));
            assert(exprs@.take(i + 1) =~= exprs@.take(i as int).push(exprs@[i as int]));
        }
    }
    assert(exprs@.take(exprs@.len() as int) =~= exprs@);
}

/// Walks what is on the stack, the next node on top.
fn walk_stack<'a>(start: Vec<&'a Expr>, whole: Ghost<Seq<Expr>>) -> (nodes: Vec<&'a Expr>)
    requires
        walk_all(dereferenced(start@).reverse()) == whole@,
    ensures
        dereferenced(nodes@) == whole@,
{
    let mut stack = start;
    let mut nodes: Vec<&'a Expr> = Vec::new();
    assert(dereferenced(nodes@) + walk_all(dereferenced(stack@).reverse()) =~= whole@);
    while stack.len() > 0
        invariant
            dereferenced(nodes@) + walk_all(dereferenced(stack@).reverse()) == whole@,
        decreases whole@.len() - nodes@.len(),
    {
        let ghost before = dereferenced(stack@).reverse();
        let ghost walked = dereferenced(nodes@);
        let next = stack.pop().unwrap();
        let ghost rest = dereferenced(stack@).reverse();
        let children = next.children();
        proof {
            assert(before =~= seq![*next] + rest);
            walk_all_of_concatenation(seq![*next], rest);
            walk_all_of_one(*next);
            walk_is_parent_first(*next);
            assert(rest =~= Seq::<Expr>::empty() + rest);
        }
        let ghost under = next.under();
        let mut i: usize = children.len();
        while i > 0
            invariant
                i <= children@.len(),
                dereferenced(children@) == under,
                dereferenced(stack@).reverse() =~= under.skip(i as int) + rest,
            decreases i,
        {
            i = i - 1;
            let ghost earlier = stack@;
            stack.push(children[i]);
            proof {
                assert(stack@ == earlier.push(children@[i as int]));
                assert(dereferenced(children@)[i as int] == under[i as int]);
                assert(dereferenced(stack@) =~= dereferenced(earlier).push(under[i as int]));
                assert(under.skip(i as int) =~= seq![under[i as int]] + under.skip(i + 1));
                let a = dereferenced(earlier);
                assert(a.push(under[i as int]).reverse() =~= seq![under[i as int]] + a.reverse());
            }
        }
        nodes.push(next);
        proof {
            assert(under.skip(0) =~= under);
            walk_all_of_concatenation(under, rest);
            assert(dereferenced(nodes@) =~= walked.push(*next));
            assert(dereferenced(nodes@) + walk_all(dereferenced(stack@).reverse()) =~= whole@);
        }
    }
    assert(dereferenced(stack@).reverse() =~= Seq::<Expr>::empty());
    assert(dereferenced(nodes@) =~= whole@);
    nodes
}

/// The values assigned, in order.
pub open spec fn values_of(assignments: Seq<Assignment>) -> Seq<Expr> {
    assignments.map_values(|assignment: Assignment| assignment.value)
}

impl Block {
    /// The block's expressions in source order: each assignment's value, then
    /// the result.
    pub open spec fn listed(self) -> Seq<Expr> {
        values_of(self.assignments@) + seq![self.result]
    }

    /// Every expression of the block walked, in order.
    pub open spec fn walk(self) -> Seq<Expr>
        decreases self,
    {
        walk_assignments(self.assignments@) + self.result.walk()
    }

    fn append_listed<'a>(&'a self, list: &mut Vec<&'a Expr>)
        ensures
            dereferenced(final(list)@) == dereferenced(old(list)@) + self.listed(),
    {
        let ghost before = list@;
        for i in 0..self.assignments.len()
            invariant
                dereferenced(list@) =~= dereferenced(before) + values_of(self.assignments@).take(i as int),
        {
            let ghost earlier = list@;
            list.push(&self.assignments[i].value);
            proof {
                let values = values_of(self.assignments@);
                assert(list@ == earlier.push(&values[i as int]));
                assert(dereferenced(list@) =~= dereferenced(earlier).push(values[i as int]));
                assert(values.take(i + 1) =~= values.take(i as int).push(values[i as int]));
            }
        }
        let ghost earlier = list@;
        list.push(&self.result);
        assert(list@ == earlier.push(&self.result));
        assert(dereferenced(list@) =~= dereferenced(earlier).push(self.result));
        assert(dereferenced(list@) =~= dereferenced(before) + self.listed());
    }

    /// The block's expressions in source order.
    pub fn expressions(&self) -> (expressions: Vec<&Expr>)
        ensures
            dereferenced(expressions@) == self.listed(),
    {
        let mut list: Vec<&Expr> = Vec::new();
        self.append_listed(&mut list);
        assert(dereferenced(list@) =~= self.listed());
        list
    }

    /// [`Expr::preorder`] over every expression of the block, in order.
    pub fn preorder(&self) -> (nodes: Vec<&Expr>)
        ensures
            dereferenced(nodes@) == self.walk(),
    {
        let listed = self.expressions();
        let mut stack: Vec<&Expr> = Vec::new();
        let mut i: usize = listed.len();
        while i > 0
            invariant
                i <= listed@.len(),
                dereferenced(stack@).reverse() =~= dereferenced(listed@).skip(i as int),
            decreases i,
        {
            i = i - 1;
            let ghost earlier = stack@;
            stack.push(listed[i]);
            proof {
                let values = dereferenced(listed@);
                assert(stack@ == earlier.push(listed@[i as int]));
                assert(dereferenced(stack@) =~= dereferenced(earlier).push(values[i as int]));
                assert(values.skip(i as int) =~= seq![values[i as int]] + values.skip(i + 1));
            }
        }
        proof {
            assert(dereferenced(listed@).skip(0) =~= self.listed());
            walk_all_of_block(*self);
        }
        walk_stack(stack, Ghost(self.walk()))
    }
}

// ---- whole numbers by construction ----

/// The largest whole exponent lowered into repeated multiplication.
pub const POWER_LIMIT: i64 = 64;

impl Expr {
    /// The whole exponent this node spells, if it is a literal whole number
    /// within [`POWER_LIMIT`].
    pub open spec fn exponent(self) -> Option<i64> {
        match self.kind {
            Kind::Literal(value) => match index_of(value) {
                Some(n) => if -POWER_LIMIT <= n <= POWER_LIMIT {
                    Some(n)
                } else {
                    None
                },
                None => None,
            },
            _ => None,
        }
    }

    /// The whole exponent this node spells; `None` for anything handed to a
    /// real power.
    pub fn whole_exponent(&self) -> (exponent: Option<i64>)
        ensures
            exponent == self.exponent(),
    {
        match &self.kind {
            Kind::Literal(value) => match to_index(*value) {
                Some(n) => if -POWER_LIMIT <= n && n <= POWER_LIMIT {
                    Some(n)
                } else {
                    None
                },
                None => None,
            },
            _ => None,
        }
    }

    /// Whether every local slot the expression reads or binds lies below
    /// `frame`.
    pub open spec fn fits(self, frame: int) -> bool
        decreases self,
    {
        match self.kind {
            Kind::Literal(_) | Kind::Global(_) => true,
            Kind::Local(slot) => slot.0 < frame,
            Kind::Unary { arg, .. } => arg.fits(frame),
            Kind::DynamicIndex(arg) => arg.fits(frame),
            Kind::Binary { lhs, rhs, .. } => lhs.fits(frame) && rhs.fits(frame),
            Kind::Compare { lhs, rhs, .. } => lhs.fits(frame) && rhs.fits(frame),
            Kind::NearEq { lhs, rhs, .. } => lhs.fits(frame) && rhs.fits(frame),
            Kind::And { terms } => forall|i: int| 0 <= i < terms@.len() ==> (#[trigger] terms@[i]).fits(frame),
            Kind::Fold { terms, .. } => forall|i: int| 0 <= i < terms@.len() ==> (#[trigger] terms@[i]).fits(frame),
            Kind::Block(block) => block.fits(frame),
            Kind::Aggregate { lower, upper, param, body, .. } => lower.fits(frame) && upper.fits(frame) && param.0
                < frame && body.fits(frame),
        }
    }

    /// Whether the expression is a whole number *by construction*, given which
    /// locals are.
    ///
    /// | form                             | integral when                    |
    /// | -------------------------------- | -------------------------------- |
    /// | literal                          | it is an index                   |
    /// | local                            | the frame says so                |
    /// | global, `var[…]`                 | never: a point's value           |
    /// | `floor`, `ceil`, `sgn`           | always                           |
    /// | negation, `abs`, `sqr`, `cube`   | the argument is                  |
    /// | `+`, `-`, `*`, `%`, `max`, `min` | both operands are                |
    /// | `^`                              | the base is and the exponent is a whole literal of at most 64, not negative |
    /// | `/`, any other `^`               | never                            |
    /// | `sum`/`prod`, unrolled or not    | the body (every term) is, the parameter counting as integral |
    /// | a block                          | its result, its assignments marked as they go |
    /// | boolean, any other function      | never                            |
    pub open spec fn integral(self, frame: Seq<bool>) -> bool
        decreases self,
    {
        match self.kind {
            Kind::Literal(value) => index_of(value) is Some,
            Kind::Local(slot) => frame[slot.0 as int],
            Kind::Global(_) | Kind::DynamicIndex(_) => false,
            Kind::Unary { op, arg } => match op {
                UnaryOp::Floor | UnaryOp::Ceil | UnaryOp::Sgn => true,
                UnaryOp::Negate | UnaryOp::Abs | UnaryOp::Sqr | UnaryOp::Cube => arg.integral(frame),
                _ => false,
            },
            Kind::Binary { op, lhs, rhs } => match op {
                BinaryOp::Add | BinaryOp::Sub | BinaryOp::Mul | BinaryOp::Rem | BinaryOp::Max | BinaryOp::Min =>
                lhs.integral(frame) && rhs.integral(frame),
                BinaryOp::Pow => lhs.integral(frame) && rhs.exponent() is Some && rhs.exponent()->0 >= 0,
                BinaryOp::Div | BinaryOp::LogB => false,
            },
            Kind::Aggregate { param, body, .. } => body.integral(frame.update(param.0 as int, true)),
            Kind::Fold { terms, .. } => forall|i: int|
                0 <= i < terms@.len() ==> (#[trigger] terms@[i]).integral(frame),
            Kind::Block(block) => block.integral(frame),
            Kind::Compare { .. } | Kind::NearEq { .. } | Kind::And { .. } => false,
        }
    }
}

/// The frame after a sequence of assignments, each marking its slot for the
/// ones after it.
pub open spec fn marked(assignments: Seq<Assignment>, frame: Seq<bool>) -> Seq<bool>
    decreases assignments,
{
    if assignments.len() == 0 {
        frame
    } else {
        let before = marked(assignments.drop_last(), frame);
        before.update(assignments.last().slot.0 as int, assignments.last().value.integral(before))
    }
}

impl Block {
    pub open spec fn fits(self, frame: int) -> bool
        decreases self,
    {
        &&& forall|i: int|
            0 <= i < self.assignments@.len() ==> (#[trigger] self.assignments@[i]).slot.0 < frame
                && self.assignments@[i].value.fits(frame)
        &&& self.result.fits(frame)
    }

    pub open spec fn integral(self, frame: Seq<bool>) -> bool
        decreases self,
    {
        self.result.integral(marked(self.assignments@, frame))
    }
}

/// Whether `expr` is a whole number by construction, given which locals are.
pub fn is_integral(expr: &Expr, env: &Vec<bool>) -> (integral: bool)
    requires
        expr.fits(env@.len() as int),
    ensures
        integral == expr.integral(env@),
    decreases expr,
{
    match &expr.kind {
        Kind::Literal(value) => to_index(*value).is_some(),
        Kind::Local(slot) => env[slot.index()],
        Kind::Global(_) | Kind::DynamicIndex(_) => false,
        Kind::Unary { op, arg } => match op {
            UnaryOp::Floor | UnaryOp::Ceil | UnaryOp::Sgn => true,
            UnaryOp::Negate | UnaryOp::Abs | UnaryOp::Sqr | UnaryOp::Cube => is_integral(arg, env),
            _ => false,
        },
        Kind::Binary { op, lhs, rhs } => match op {
            BinaryOp::Add | BinaryOp::Sub | BinaryOp::Mul | BinaryOp::Rem | BinaryOp::Max | BinaryOp::Min =>
            is_integral(lhs, env) && is_integral(rhs, env),
            BinaryOp::Pow => is_integral(lhs, env) && match rhs.whole_exponent() {
                Some(n) => n >= 0,
                None => false,
            },
            BinaryOp::Div | BinaryOp::LogB => false,
        },
        Kind::Aggregate { param, body, .. } => {
            let mut inner = env.clone();
            inner.set(param.index(), true);
            block_is_integral(body, &mut inner)
        },
        Kind::Fold { terms, .. } => {
            for i in 0..terms.len()
                invariant
                    expr.fits(env@.len() as int),
                    (expr.kind matches Kind::Fold { terms: listed, .. } && listed == *terms),
                    forall|j: int| 0 <= j < i ==> (#[trigger] terms@[j]).integral(env@),
            {
                assert(decreases_to!(expr => terms@[i as int]));
                if !is_integral(&terms[i], env) {
                    return false;
                }
            }
            true
        },
        Kind::Block(block) => {
            let mut inner = env.clone();
            block_is_integral(block, &mut inner)
        },
        Kind::Compare { .. } | Kind::NearEq { .. } | Kind::And { .. } => false,
    }
}

/// [`is_integral`] over a block: each assignment marks its slot for the
/// expressions after it, and the result decides.
pub fn block_is_integral(block: &Block, env: &mut Vec<bool>) -> (integral: bool)
    requires
        block.fits(old(env)@.len() as int),
    ensures
        integral == block.integral(old(env)@),
        final(env)@ == marked(block.assignments@, old(env)@),
    decreases block,
{
    let ghost before = env@;
    for i in 0..block.assignments.len()
        invariant
            block.fits(before.len() as int),
            env@.len() == before.len(),
            env@ == marked(block.assignments@.take(i as int), before),
    {
        let assignment = &block.assignments[i];
        assert(decreases_to!(block => block.assignments@[i as int].value));
        let value = is_integral(&assignment.value, env);
        env.set(assignment.slot.index(), value);
        proof {
            assert(block.assignments@.take(i + 1).drop_last() =~= block.assignments@.take(i as int));
        }
    }
    assert(block.assignments@.take(block.assignments@.len() as int) =~= block.assignments@);
    is_integral(&block.result, env)
}

} // verus!
