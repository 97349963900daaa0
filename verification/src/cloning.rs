//! Copies of trees.
//!
//! A tree holds itself through boxes and lists, so that its copy is written out:
//! node by node, the same all the way down.

use vstd::prelude::*;
use crate::ast::{Assignment, Block, Expr, Kind, Program};
use crate::frontend::Ast;
use crate::text::{contents, copies};

verus! {

impl Kind {
    /// Whether two nodes are the same, and everything under them.
    pub open spec fn same_as(self, other: Kind) -> bool
        decreases self,
    {
        match (self, other) {
            (Kind::Literal(a), Kind::Literal(b)) => a == b,
            (Kind::Global(a), Kind::Global(b)) => a == b,
            (Kind::Local(a), Kind::Local(b)) => a == b,
            (Kind::DynamicIndex(a), Kind::DynamicIndex(b)) => a.same_as(*b),
            (Kind::Unary { op: f, arg: a }, Kind::Unary { op: g, arg: b }) => f == g && a.same_as(*b),
            (Kind::Binary { op: f, lhs: a, rhs: b }, Kind::Binary { op: g, lhs: c, rhs: d }) => f == g && a.same_as(*c)
                && b.same_as(*d),
            (
                Kind::Aggregate { kind: f, lower: a, upper: b, param: p, body: x },
                Kind::Aggregate { kind: g, lower: c, upper: d, param: q, body: y },
            ) => f == g && a.same_as(*c) && b.same_as(*d) && p == q && x.same_as(*y),
            (Kind::Fold { kind: f, terms: a }, Kind::Fold { kind: g, terms: b }) => {
                &&& f == g
                &&& a@.len() == b@.len()
                &&& forall|i: int| 0 <= i < a@.len() ==> (#[trigger] a@[i]).same_as(b@[i])
            },
            (Kind::Block(a), Kind::Block(b)) => a.same_as(*b),
            (Kind::Compare { op: f, lhs: a, rhs: b }, Kind::Compare { op: g, lhs: c, rhs: d }) => f == g && a.same_as(
                *c,
            ) && b.same_as(*d),
            (Kind::NearEq { lhs: a, rhs: b, tolerance: s }, Kind::NearEq { lhs: c, rhs: d, tolerance: t }) => a.same_as(
                *c,
            ) && b.same_as(*d) && s == t,
            (Kind::And { terms: a }, Kind::And { terms: b }) => {
                &&& a@.len() == b@.len()
                &&& forall|i: int| 0 <= i < a@.len() ==> (#[trigger] a@[i]).same_as(b@[i])
            },
            _ => false,
        }
    }
}

impl Expr {
    /// Whether two expressions are the same, at the same place.
    pub open spec fn same_as(self, other: Expr) -> bool
        decreases self,
    {
        self.span == other.span && self.kind.same_as(other.kind)
    }
}

impl Assignment {
    /// Whether two assignments are the same, at the same place.
    pub open spec fn same_as(self, other: Assignment) -> bool
        decreases self,
    {
        self.slot == other.slot && self.span == other.span && self.value.same_as(other.value)
    }
}

impl Block {
    /// Whether two blocks are the same.
    pub open spec fn same_as(self, other: Block) -> bool
        decreases self,
    {
        &&& self.assignments@.len() == other.assignments@.len()
        &&& forall|i: int|
            0 <= i < self.assignments@.len() ==> (#[trigger] self.assignments@[i]).same_as(other.assignments@[i])
        &&& self.result.same_as(other.result)
    }
}

impl Program {
    /// Whether two programs are the same.
    pub open spec fn same_as(self, other: Program) -> bool {
        self.frame_size == other.frame_size && self.body.same_as(other.body)
    }
}

impl Ast {
    /// Whether two parsed expressions are the same.
    pub open spec fn same_as(self, other: Ast) -> bool {
        &&& self.source@ == other.source@
        &&& self.program.same_as(other.program)
        &&& contents(self.symbols@) == contents(other.symbols@)
        &&& self.contains_dynamic_lookup == other.contains_dynamic_lookup
        &&& self.is_constraint == other.is_constraint
    }
}

fn copy_kind(kind: &Kind) -> (copy: Kind)
    ensures
        kind.same_as(copy),
    decreases kind,
{
    match kind {
        Kind::Literal(value) => Kind::Literal(*value),
        Kind::Global(id) => Kind::Global(*id),
        Kind::Local(slot) => Kind::Local(*slot),
        Kind::DynamicIndex(arg) => Kind::DynamicIndex(Box::new(copy_expr(arg))),
        Kind::Unary { op, arg } => Kind::Unary { op: *op, arg: Box::new(copy_expr(arg)) },
        Kind::Binary { op, lhs, rhs } => Kind::Binary {
            op: *op,
            lhs: Box::new(copy_expr(lhs)),
            rhs: Box::new(copy_expr(rhs)),
        },
        Kind::Aggregate { kind, lower, upper, param, body } => Kind::Aggregate {
            kind: *kind,
            lower: Box::new(copy_expr(lower)),
            upper: Box::new(copy_expr(upper)),
            param: *param,
            body: Box::new(copy_block(body)),
        },
        Kind::Fold { kind, terms } => Kind::Fold { kind: *kind, terms: copy_terms(terms) },
        Kind::Block(block) => Kind::Block(Box::new(copy_block(block))),
        Kind::Compare { op, lhs, rhs } => Kind::Compare {
            op: *op,
            lhs: Box::new(copy_expr(lhs)),
            rhs: Box::new(copy_expr(rhs)),
        },
        Kind::NearEq { lhs, rhs, tolerance } => Kind::NearEq {
            lhs: Box::new(copy_expr(lhs)),
            rhs: Box::new(copy_expr(rhs)),
            tolerance: *tolerance,
        },
        Kind::And { terms } => Kind::And { terms: copy_terms(terms) },
    }
}

fn copy_expr(expr: &Expr) -> (copy: Expr)
    ensures
        expr.same_as(copy),
    decreases expr,
{
    Expr { kind: copy_kind(&expr.kind), span: expr.span }
}

fn copy_terms(terms: &Vec<Expr>) -> (copy: Vec<Expr>)
    ensures
        copy@.len() == terms@.len(),
        forall|i: int| 0 <= i < terms@.len() ==> (#[trigger] terms@[i]).same_as(copy@[i]),
    decreases terms,
{
    let mut copy: Vec<Expr> = Vec::with_capacity(terms.len());
    for i in 0..terms.len()
        invariant
            copy@.len() == i,
            forall|k: int| 0 <= k < i ==> (#[trigger] terms@[k]).same_as(copy@[k]),
    {
        copy.push(copy_expr(&terms[i]));
    }
    copy
}

fn copy_block(block: &Block) -> (copy: Block)
    ensures
        block.same_as(copy),
    decreases block,
{
    let mut assignments: Vec<Assignment> = Vec::with_capacity(block.assignments.len());
    for i in 0..block.assignments.len()
        invariant
            assignments@.len() == i,
            forall|k: int| 0 <= k < i ==> (#[trigger] block.assignments@[k]).same_as(assignments@[k]),
    {
        assignments.push(copy_assignment(&block.assignments[i]));
    }
    Block { assignments, result: copy_expr(&block.result) }
}

fn copy_assignment(assignment: &Assignment) -> (copy: Assignment)
    ensures
        assignment.same_as(copy),
    decreases assignment,
{
    Assignment { slot: assignment.slot, value: copy_expr(&assignment.value), span: assignment.span }
}

impl Clone for Kind {
    fn clone(&self) -> (copy: Self)
        ensures
            self.same_as(copy),
    {
        copy_kind(self)
    }
}

impl Clone for Expr {
    fn clone(&self) -> (copy: Self)
        ensures
            self.same_as(copy),
    {
        copy_expr(self)
    }
}

impl Clone for Assignment {
    fn clone(&self) -> (copy: Self)
        ensures
            self.same_as(copy),
    {
        copy_assignment(self)
    }
}

impl Clone for Block {
    fn clone(&self) -> (copy: Self)
        ensures
            self.same_as(copy),
    {
        copy_block(self)
    }
}

impl Clone for Program {
    fn clone(&self) -> (copy: Self)
        ensures
            self.same_as(copy),
    {
        Program { body: copy_block(&self.body), frame_size: self.frame_size }
    }
}

impl Clone for Ast {
    fn clone(&self) -> (copy: Self)
        ensures
            self.same_as(copy),
    {
        Ast {
            source: self.source.clone(),
            program: self.program.clone(),
            symbols: copies(&self.symbols),
            contains_dynamic_lookup: self.contains_dynamic_lookup,
            is_constraint: self.is_constraint,
        }
    }
}

} // verus!
