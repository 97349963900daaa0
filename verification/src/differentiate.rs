//! Reverse-mode differentiation as a tape-to-tape transformation.
//!
//! Every value on a tape has an *adjoint*: how much the result moves when that
//! value does. The result's adjoint is one. Walking the tape backwards, each
//! instruction hands its adjoint down to its operands scaled by the operator's
//! local derivative, and when the walk reaches the loads, their adjoints are the
//! partial derivatives for every input at once. The cost is a fixed multiple of
//! one evaluation, whatever the number of inputs.
//!
//! The derivative tape *is* a tape, with the primal value as its result and the
//! partials as further outputs. It is made before allocation, in single
//! assignment, where a register is one value.
//!
//! `floor`, `ceil`, `sgn`, `%` and a computed subscript have no derivative that
//! says where a boundary is, and a tape holding any of them is declined. Kinks
//! have one almost everywhere: the adjoint of `max(a, b)` goes to `a` with
//! weight `(1 + sgn(a - b)) / 2` and to `b` with the rest.

use vstd::prelude::*;
use std::collections::HashMap;
use crate::ast::{BinaryOp, CompareOp, UnaryOp};
use crate::diagnostics::Span;
use crate::hc4::{a_step_writes_one, earlier_runs_on, held_to_the_end};
use crate::irgen::{continues, fits_a_tape, pooling_continues, Lowering};
use crate::lowering::primed;
use crate::machine::Arithmetic;
use crate::number::{half, one, two, zero, Real};
use crate::renaming::{
    all_fit, below, code, coded, fits, latest, numbered, renaming, renaming_assigns_once,
    renaming_computes_the_same, renaming_stays_in_range, writes,
};
use crate::semantics::{held, run, step, Run, Semantics};
use crate::tape::{operands, pool_register, Accumulate, Instruction, VirtualRegister, VirtualTape};

verus! {

broadcast use vstd::std_specs::hash::group_hash_axioms;

/// The bit pattern of three.
pub const THREE: u64 = 0x4008_0000_0000_0000;

#[verifier::allow_in_spec]
pub fn three() -> Real
    returns
        (Real { bits: THREE }),
{
    Real { bits: THREE }
}

/// The bit pattern of the natural logarithm of ten.
pub const LN_TEN: u64 = 0x4002_6bb1_bbb5_5516;

#[verifier::allow_in_spec]
pub fn ln_ten() -> Real
    returns
        (Real { bits: LN_TEN }),
{
    Real { bits: LN_TEN }
}

// ---- the rules ----

/// A formula over leaves.
pub ghost enum Term<L> {
    Leaf(L),
    Constant(Real),
    Unary(UnaryOp, Box<Term<L>>),
    Binary(BinaryOp, Box<Term<L>>, Box<Term<L>>),
}

pub open spec fn leaf<L>(a: L) -> Box<Term<L>> {
    Box::new(Term::Leaf(a))
}

pub open spec fn constant<L>(value: Real) -> Box<Term<L>> {
    Box::new(Term::Constant(value))
}

pub open spec fn applied<L>(op: UnaryOp, a: Box<Term<L>>) -> Box<Term<L>> {
    Box::new(Term::Unary(op, a))
}

pub open spec fn joined<L>(op: BinaryOp, a: Box<Term<L>>, b: Box<Term<L>>) -> Box<Term<L>> {
    Box::new(Term::Binary(op, a, b))
}

/// `d` times the derivative of `y = op(a)`, with `y` in hand where it shortens
/// the rule.
pub open spec fn unary_rule<L>(op: UnaryOp, a: L, y: L, d: L) -> Term<L> {
    match op {
        UnaryOp::Negate => *applied(UnaryOp::Negate, leaf(d)),
        UnaryOp::Sqr => *joined(BinaryOp::Mul, joined(BinaryOp::Mul, leaf(d), leaf(a)), constant(two())),
        UnaryOp::Cube => *joined(
            BinaryOp::Mul,
            joined(BinaryOp::Mul, leaf(d), applied(UnaryOp::Sqr, leaf(a))),
            constant(three()),
        ),
        UnaryOp::Sqrt => *joined(BinaryOp::Div, leaf(d), joined(BinaryOp::Mul, leaf(y), constant(two()))),
        UnaryOp::Cbrt => *joined(
            BinaryOp::Div,
            leaf(d),
            joined(BinaryOp::Mul, applied(UnaryOp::Sqr, leaf(y)), constant(three())),
        ),
        UnaryOp::Ln => *joined(BinaryOp::Div, leaf(d), leaf(a)),
        UnaryOp::Log10 => *joined(BinaryOp::Div, leaf(d), joined(BinaryOp::Mul, leaf(a), constant(ln_ten()))),
        UnaryOp::Sin => *joined(BinaryOp::Mul, leaf(d), applied(UnaryOp::Cos, leaf(a))),
        UnaryOp::Cos => *applied(
            UnaryOp::Negate,
            joined(BinaryOp::Mul, leaf(d), applied(UnaryOp::Sin, leaf(a))),
        ),
        UnaryOp::Tan => *joined(
            BinaryOp::Mul,
            leaf(d),
            joined(BinaryOp::Add, constant(one()), applied(UnaryOp::Sqr, leaf(y))),
        ),
        UnaryOp::Cot => *applied(
            UnaryOp::Negate,
            joined(
                BinaryOp::Mul,
                leaf(d),
                joined(BinaryOp::Add, constant(one()), applied(UnaryOp::Sqr, leaf(y))),
            ),
        ),
        UnaryOp::Asin => *joined(
            BinaryOp::Div,
            leaf(d),
            applied(
                UnaryOp::Sqrt,
                joined(BinaryOp::Sub, constant(one()), applied(UnaryOp::Sqr, leaf(a))),
            ),
        ),
        UnaryOp::Acos => *applied(
            UnaryOp::Negate,
            joined(
                BinaryOp::Div,
                leaf(d),
                applied(
                    UnaryOp::Sqrt,
                    joined(BinaryOp::Sub, constant(one()), applied(UnaryOp::Sqr, leaf(a))),
                ),
            ),
        ),
        UnaryOp::Atan => *joined(
            BinaryOp::Div,
            leaf(d),
            joined(BinaryOp::Add, constant(one()), applied(UnaryOp::Sqr, leaf(a))),
        ),
        UnaryOp::Sinh => *joined(BinaryOp::Mul, leaf(d), applied(UnaryOp::Cosh, leaf(a))),
        UnaryOp::Cosh => *joined(BinaryOp::Mul, leaf(d), applied(UnaryOp::Sinh, leaf(a))),
        UnaryOp::Tanh => *joined(
            BinaryOp::Mul,
            leaf(d),
            joined(BinaryOp::Sub, constant(one()), applied(UnaryOp::Sqr, leaf(y))),
        ),
        UnaryOp::Abs => *joined(BinaryOp::Mul, leaf(d), applied(UnaryOp::Sgn, leaf(a))),
        UnaryOp::Ceil | UnaryOp::Floor | UnaryOp::Sgn => Term::Leaf(d),
    }
}

/// `(1 + sgn(a - b)) / 2` or `(1 - sgn(a - b)) / 2`: the share of an adjoint the
/// larger or the smaller of two operands receives, halves at a tie.
pub open spec fn share_rule<L>(a: L, b: L, larger: bool) -> Term<L> {
    let sign = applied(UnaryOp::Sgn, joined(BinaryOp::Sub, leaf(a), leaf(b)));
    *joined(
        BinaryOp::Mul,
        joined(
            if larger {
                BinaryOp::Add
            } else {
                BinaryOp::Sub
            },
            constant(one()),
            sign,
        ),
        constant(half()),
    )
}

pub open spec fn negated_rule<L>(d: L) -> Term<L> {
    *applied(UnaryOp::Negate, leaf(d))
}

pub open spec fn product_rule<L>(d: L, other: L) -> Term<L> {
    *joined(BinaryOp::Mul, leaf(d), leaf(other))
}

/// `d / b`.
pub open spec fn dividend_rule<L>(b: L, d: L) -> Term<L> {
    *joined(BinaryOp::Div, leaf(d), leaf(b))
}

/// `-d y / b`.
pub open spec fn divisor_rule<L>(b: L, y: L, d: L) -> Term<L> {
    *applied(
        UnaryOp::Negate,
        joined(BinaryOp::Mul, leaf(d), joined(BinaryOp::Div, leaf(y), leaf(b))),
    )
}

/// `d b a^(b - 1)`.
pub open spec fn base_rule<L>(a: L, b: L, d: L) -> Term<L> {
    *joined(
        BinaryOp::Mul,
        leaf(d),
        joined(
            BinaryOp::Mul,
            leaf(b),
            joined(BinaryOp::Pow, leaf(a), joined(BinaryOp::Sub, leaf(b), constant(one()))),
        ),
    )
}

/// `d y ln a`.
pub open spec fn exponent_rule<L>(a: L, y: L, d: L) -> Term<L> {
    *joined(BinaryOp::Mul, leaf(d), joined(BinaryOp::Mul, leaf(y), applied(UnaryOp::Ln, leaf(a))))
}

/// `d / (b ln a)`, given `ln a`.
pub open spec fn antilogarithm_rule<L>(b: L, ln_a: L, d: L) -> Term<L> {
    *joined(BinaryOp::Div, leaf(d), joined(BinaryOp::Mul, leaf(b), leaf(ln_a)))
}

/// `-d y / (a ln a)`, given `ln a`.
pub open spec fn logarithm_base_rule<L>(a: L, ln_a: L, y: L, d: L) -> Term<L> {
    *applied(
        UnaryOp::Negate,
        joined(
            BinaryOp::Mul,
            leaf(d),
            joined(BinaryOp::Div, leaf(y), joined(BinaryOp::Mul, leaf(a), leaf(ln_a))),
        ),
    )
}

// ---- the tape under construction ----

/// A function of a register emitted, into a fresh temporary.
pub open spec fn unary_emitted(
    state: Lowering,
    op: UnaryOp,
    a: VirtualRegister,
    span: Span,
) -> (Lowering, VirtualRegister) {
    let (state, dst) = state.fresh();
    (state.emitted(Instruction::Unary { dst, op, a }, span), dst)
}

/// An operation on two registers emitted, into a fresh temporary.
pub open spec fn binary_emitted(
    state: Lowering,
    op: BinaryOp,
    a: VirtualRegister,
    b: VirtualRegister,
    span: Span,
) -> (Lowering, VirtualRegister) {
    let (state, dst) = state.fresh();
    (state.emitted(Instruction::Binary { dst, op, a, b }, span), dst)
}

/// A formula emitted, each operation into a fresh temporary, left to right.
pub open spec fn term_emitted(state: Lowering, term: Term<VirtualRegister>, span: Span) -> (Lowering, VirtualRegister)
    decreases term,
{
    match term {
        Term::Leaf(register) => (state, register),
        Term::Constant(value) => (state.pooled(value), pool_register(state.pooled(value).pool, value)),
        Term::Unary(op, a) => {
            let (state, a) = term_emitted(state, *a, span);
            unary_emitted(state, op, a, span)
        },
        Term::Binary(op, a, b) => {
            let (state, a) = term_emitted(state, *a, span);
            let (state, b) = term_emitted(state, *b, span);
            binary_emitted(state, op, a, b, span)
        },
    }
}

/// Emitting only adds.
proof fn emitting_continues(state: Lowering, term: Term<VirtualRegister>, span: Span)
    ensures
        continues(state, term_emitted(state, term, span).0),
    decreases term,
{
    match term {
        Term::Leaf(_) => {},
        Term::Constant(value) => pooling_continues(state, value),
        Term::Unary(op, a) => emitting_continues(state, *a, span),
        Term::Binary(op, a, b) => {
            emitting_continues(state, *a, span);
            emitting_continues(term_emitted(state, *a, span).0, *b, span);
        },
    }
}

/// Pairs of an operand and the register its contribution is in.
pub type Contributions = Seq<(VirtualRegister, VirtualRegister)>;

/// An adjoint pushed through `max(a, b)` or `min(a, b)`.
pub open spec fn extremum_pushed(
    state: Lowering,
    a: VirtualRegister,
    b: VirtualRegister,
    larger: bool,
    d: VirtualRegister,
    span: Span,
) -> (Lowering, Contributions) {
    let (s1, share_a) = term_emitted(state, share_rule(a, b, larger), span);
    let (s2, share_b) = term_emitted(s1, share_rule(a, b, !larger), span);
    let (s3, to_a) = term_emitted(s2, product_rule(d, share_a), span);
    let (s4, to_b) = term_emitted(s3, product_rule(d, share_b), span);
    (s4, seq![(a, to_a), (b, to_b)])
}

/// Two formulas emitted in turn, one per operand.
pub open spec fn both_pushed(
    state: Lowering,
    a: VirtualRegister,
    first: Term<VirtualRegister>,
    b: VirtualRegister,
    second: Term<VirtualRegister>,
    span: Span,
) -> (Lowering, Contributions) {
    let (s1, to_a) = term_emitted(state, first, span);
    let (s2, to_b) = term_emitted(s1, second, span);
    (s2, seq![(a, to_a), (b, to_b)])
}

/// An adjoint pushed through `y = a op b`.
pub open spec fn binary_pushed(
    state: Lowering,
    op: BinaryOp,
    a: VirtualRegister,
    b: VirtualRegister,
    y: VirtualRegister,
    d: VirtualRegister,
    span: Span,
) -> (Lowering, Contributions) {
    match op {
        BinaryOp::Add => (state, seq![(a, d), (b, d)]),
        BinaryOp::Sub => both_pushed(state, a, Term::Leaf(d), b, negated_rule(d), span),
        BinaryOp::Mul => both_pushed(state, a, product_rule(d, b), b, product_rule(d, a), span),
        BinaryOp::Div => both_pushed(state, a, dividend_rule(b, d), b, divisor_rule(b, y, d), span),
        // A constant exponent is the polynomial case, where `ln a` would fault
        // on a negative base the power itself is fine with.
        BinaryOp::Pow => if b is Const {
            let (s1, to_a) = term_emitted(state, base_rule(a, b, d), span);
            (s1, seq![(a, to_a)])
        } else {
            both_pushed(state, a, base_rule(a, b, d), b, exponent_rule(a, y, d), span)
        },
        BinaryOp::Max => extremum_pushed(state, a, b, true, d, span),
        BinaryOp::Min => extremum_pushed(state, a, b, false, d, span),
        BinaryOp::LogB => {
            let (s1, ln_a) = term_emitted(state, *applied(UnaryOp::Ln, leaf(a)), span);
            let (s2, to_b) = term_emitted(s1, antilogarithm_rule(b, ln_a, d), span);
            let (s3, to_a) = term_emitted(s2, logarithm_base_rule(a, ln_a, y, d), span);
            (s3, seq![(a, to_a), (b, to_b)])
        },
        BinaryOp::Rem => (state, Seq::empty()),
    }
}

/// An adjoint pushed through an instruction to each operand.
pub open spec fn pushed(state: Lowering, insn: Instruction<VirtualRegister>, d: VirtualRegister, span: Span) -> (
    Lowering,
    Contributions,
) {
    match insn {
        Instruction::Load { .. } | Instruction::Check { .. } | Instruction::Gather { .. } => (state, Seq::empty()),
        Instruction::Copy { src, .. } => (state, seq![(src, d)]),
        Instruction::Unary { dst, op, a } => {
            let (next, to_a) = term_emitted(state, unary_rule(op, a, dst, d), span);
            (next, seq![(a, to_a)])
        },
        Instruction::Binary { dst, op, a, b } => binary_pushed(state, op, a, b, dst, d, span),
        // The residual is `a - b` or `b - a`, plus a constant nudge.
        Instruction::Compare { op, a, b, .. } => {
            let (next, opposite) = term_emitted(state, negated_rule(d), span);
            match op {
                CompareOp::Lte | CompareOp::Lt => (next, seq![(a, d), (b, opposite)]),
                CompareOp::Gte | CompareOp::Gt => (next, seq![(a, opposite), (b, d)]),
            }
        },
        Instruction::Combine { how, a, b, .. } => match how {
            Accumulate::Sum => (state, seq![(a, d), (b, d)]),
            Accumulate::Prod => both_pushed(state, a, product_rule(d, b), b, product_rule(d, a), span),
            Accumulate::Worst => extremum_pushed(state, a, b, true, d, span),
        },
    }
}

/// A sweep under way: the tape, and which register has each value's adjoint.
pub ghost struct Sweeping {
    pub state: Lowering,
    pub adjoint: Map<VirtualRegister, VirtualRegister>,
}

/// The first contributions added to the adjoints of their operands; a
/// constant's is dropped.
pub open spec fn accumulated(sweeping: Sweeping, contributions: Contributions, span: Span, upto: int) -> Sweeping
    decreases upto,
{
    if upto <= 0 {
        sweeping
    } else {
        let before = accumulated(sweeping, contributions, span, upto - 1);
        let (source, contribution) = contributions[upto - 1];
        if source is Const {
            before
        } else if before.adjoint.contains_key(source) {
            let (next, total) = term_emitted(
                before.state,
                *joined(BinaryOp::Add, leaf(before.adjoint[source]), leaf(contribution)),
                span,
            );
            Sweeping { state: next, adjoint: before.adjoint.insert(source, total) }
        } else {
            Sweeping { adjoint: before.adjoint.insert(source, contribution), ..before }
        }
    }
}

/// One instruction, backwards: nothing where its value has no adjoint.
pub open spec fn swept_one(sweeping: Sweeping, insn: Instruction<VirtualRegister>, span: Span) -> Sweeping {
    match insn.written() {
        None => sweeping,
        Some(dst) => if sweeping.adjoint.contains_key(dst) {
            let (next, contributions) = pushed(sweeping.state, insn, sweeping.adjoint[dst], span);
            accumulated(Sweeping { state: next, ..sweeping }, contributions, span, contributions.len() as int)
        } else {
            sweeping
        },
    }
}

/// The instructions from `from` on, backwards.
pub open spec fn swept_from(
    start: Sweeping,
    insns: Seq<Instruction<VirtualRegister>>,
    spans: Seq<Span>,
    from: int,
) -> Sweeping
    decreases insns.len() - from,
{
    if from < 0 || from >= insns.len() {
        start
    } else {
        swept_one(swept_from(start, insns, spans, from + 1), insns[from], spans[from])
    }
}

/// Whether an instruction has a derivative the sweep can spell.
pub open spec fn has_derivative(insn: Instruction<VirtualRegister>) -> bool {
    match insn {
        Instruction::Unary { op, .. } => !(op is Ceil) && !(op is Floor) && !(op is Sgn),
        Instruction::Binary { op, .. } => !(op is Rem),
        Instruction::Gather { .. } => false,
        _ => true,
    }
}

/// The tape before the backward sweep: the primal in single assignment, and
/// one for the result's adjoint.
pub open spec fn sweep_start(primal: VirtualTape) -> Sweeping {
    let done = renaming(primal.insns@, primal.temps as int);
    let result = latest(done.version, primal.result);
    let state = Lowering {
        pool: primal.consts@,
        temps: done.temps,
        insns: done.insns,
        spans: primal.spans@,
        loads: Seq::empty(),
        assigned: Seq::empty(),
    }.pooled(one());
    Sweeping { state, adjoint: Map::empty().insert(result, pool_register(state.pool, one())) }
}

/// The whole sweep, and zero for what the tape never loads.
pub open spec fn sweep_end(primal: VirtualTape) -> Sweeping {
    let done = renaming(primal.insns@, primal.temps as int);
    let last = swept_from(sweep_start(primal), done.insns, primal.spans@, 0);
    Sweeping { state: last.state.pooled(zero()), ..last }
}

/// The register the first load of a row is in.
pub open spec fn load_of(insns: Seq<Instruction<VirtualRegister>>, input: u32, from: int) -> Option<VirtualRegister>
    decreases insns.len() - from,
{
    if from < 0 || from >= insns.len() {
        None
    } else if insns[from] matches Instruction::Load { dst, input: row } && row == input {
        Some(insns[from].written()->0)
    } else {
        load_of(insns, input, from + 1)
    }
}

/// The register of the partial by a row.
pub open spec fn partial_of(primal: VirtualTape, input: u32) -> VirtualRegister {
    let end = sweep_end(primal);
    match load_of(renaming(primal.insns@, primal.temps as int).insns, input, 0) {
        Some(dst) => if end.adjoint.contains_key(dst) {
            end.adjoint[dst]
        } else {
            pool_register(end.state.pool, zero())
        },
        None => pool_register(end.state.pool, zero()),
    }
}

/// Whether a tape is the derivative of another.
pub open spec fn is_derivative(tape: VirtualTape, primal: VirtualTape, positions: Seq<u32>) -> bool {
    let end = sweep_end(primal);
    &&& tape.consts.well_formed()
    &&& tape.consts@ == end.state.pool
    &&& tape.locals == primal.locals
    &&& tape.temps == end.state.temps
    &&& tape.insns@ == end.state.insns
    &&& tape.spans@ == end.state.spans
    &&& tape.result == latest(renaming(primal.insns@, primal.temps as int).version, primal.result)
    &&& tape.partials@ == positions.map_values(|input: u32| partial_of(primal, input))
}

// ---- emitting ----

fn differentiable(insn: &Instruction<VirtualRegister>) -> (yes: bool)
    ensures
        yes == has_derivative(*insn),
{
    match insn {
        Instruction::Unary { op, .. } => match op {
            UnaryOp::Ceil | UnaryOp::Floor | UnaryOp::Sgn => false,
            _ => true,
        },
        Instruction::Binary { op, .. } => match op {
            BinaryOp::Rem => false,
            _ => true,
        },
        Instruction::Gather { .. } => false,
        _ => true,
    }
}

/// The tape under construction: the primal, then the sweep's instructions.
struct Sweep {
    tape: VirtualTape,
    /// The span every emitted instruction takes: the primal instruction's.
    span: Span,
}

impl View for Sweep {
    type V = Lowering;

    closed spec fn view(&self) -> Lowering {
        Lowering {
            pool: self.tape.consts@,
            temps: self.tape.temps as int,
            insns: self.tape.insns@,
            spans: self.tape.spans@,
            loads: Seq::empty(),
            assigned: Seq::empty(),
        }
    }
}

impl Sweep {
    /// What a formula adds, and nothing else.
    spec fn becomes(before: Sweep, after: Sweep, next: Lowering) -> bool {
        &&& after.tape.consts.well_formed()
        &&& after@ == next
        &&& after.span == before.span
        &&& after.tape.locals == before.tape.locals
    }

    fn emit(&mut self, insn: Instruction<VirtualRegister>)
        requires
            old(self).tape.consts.well_formed(),
        ensures
            Sweep::becomes(*old(self), *final(self), old(self)@.emitted(insn, old(self).span)),
    {
        self.tape.insns.push(insn);
        self.tape.spans.push(self.span);
    }

    fn constant(&mut self, value: Real) -> (register: VirtualRegister)
        requires
            old(self).tape.consts.well_formed(),
            fits_a_tape(old(self)@.pooled(value)),
        ensures
            Sweep::becomes(*old(self), *final(self), old(self)@.pooled(value)),
            register == pool_register(old(self)@.pooled(value).pool, value),
    {
        self.tape.consts.intern(value)
    }

    fn unary(&mut self, op: UnaryOp, a: VirtualRegister) -> (dst: VirtualRegister)
        requires
            old(self).tape.consts.well_formed(),
            old(self)@.temps + 1 <= u32::MAX,
        ensures
            Sweep::becomes(*old(self), *final(self), unary_emitted(old(self)@, op, a, old(self).span).0),
            dst == unary_emitted(old(self)@, op, a, old(self).span).1,
    {
        let dst = self.tape.fresh_temp();
        self.emit(Instruction::Unary { dst, op, a });
        dst
    }

    fn binary(&mut self, op: BinaryOp, a: VirtualRegister, b: VirtualRegister) -> (dst: VirtualRegister)
        requires
            old(self).tape.consts.well_formed(),
            old(self)@.temps + 1 <= u32::MAX,
        ensures
            Sweep::becomes(*old(self), *final(self), binary_emitted(old(self)@, op, a, b, old(self).span).0),
            dst == binary_emitted(old(self)@, op, a, b, old(self).span).1,
    {
        let dst = self.tape.fresh_temp();
        self.emit(Instruction::Binary { dst, op, a, b });
        dst
    }

    fn scaled(&mut self, a: VirtualRegister, by: Real) -> (dst: VirtualRegister)
        requires
            old(self).tape.consts.well_formed(),
            fits_a_tape(old(self)@.pooled(by)),
            old(self)@.temps + 1 <= u32::MAX,
        ensures
            ({
                let pooled = old(self)@.pooled(by);
                let (next, register) = binary_emitted(
                    pooled,
                    BinaryOp::Mul,
                    a,
                    pool_register(pooled.pool, by),
                    old(self).span,
                );
                Sweep::becomes(*old(self), *final(self), next) && dst == register
            }),
    {
        let c = self.constant(by);
        self.binary(BinaryOp::Mul, a, c)
    }

    fn share(&mut self, a: VirtualRegister, b: VirtualRegister, larger: bool) -> (dst: VirtualRegister)
        requires
            old(self).tape.consts.well_formed(),
            fits_a_tape(term_emitted(old(self)@, share_rule(a, b, larger), old(self).span).0),
        ensures
            Sweep::becomes(
                *old(self),
                *final(self),
                term_emitted(old(self)@, share_rule(a, b, larger), old(self).span).0,
            ),
            dst == term_emitted(old(self)@, share_rule(a, b, larger), old(self).span).1,
    {
        proof {
            reveal_with_fuel(term_emitted, 6);
            pooling_continues(self@, one());
            pooling_continues(self@.pooled(one()), half());
        }
        let unit = self.constant(one());
        let difference = self.binary(BinaryOp::Sub, a, b);
        let sign = self.unary(UnaryOp::Sgn, difference);
        let shifted = if larger {
            self.binary(BinaryOp::Add, unit, sign)
        } else {
            self.binary(BinaryOp::Sub, unit, sign)
        };
        self.scaled(shifted, half())
    }

    /// `d` times the derivative of `op` at `a`, with `y = op(a)` in hand.
    #[verifier::rlimit(60)]
    fn through_unary(
        &mut self,
        op: UnaryOp,
        a: VirtualRegister,
        y: VirtualRegister,
        d: VirtualRegister,
    ) -> (dst: VirtualRegister)
        requires
            old(self).tape.consts.well_formed(),
            fits_a_tape(term_emitted(old(self)@, unary_rule(op, a, y, d), old(self).span).0),
            !(op is Ceil) && !(op is Floor) && !(op is Sgn),
        ensures
            Sweep::becomes(
                *old(self),
                *final(self),
                term_emitted(old(self)@, unary_rule(op, a, y, d), old(self).span).0,
            ),
            dst == term_emitted(old(self)@, unary_rule(op, a, y, d), old(self).span).1,
    {
        proof {
            reveal_with_fuel(term_emitted, 7);
        }
        match op {
            UnaryOp::Negate => self.unary(UnaryOp::Negate, d),
            UnaryOp::Sqr => {
                let by_a = self.binary(BinaryOp::Mul, d, a);
                self.scaled(by_a, two())
            },
            UnaryOp::Cube => {
                let a2 = self.unary(UnaryOp::Sqr, a);
                let by_a2 = self.binary(BinaryOp::Mul, d, a2);
                self.scaled(by_a2, three())
            },
            UnaryOp::Sqrt => {
                let two_y = self.scaled(y, two());
                self.binary(BinaryOp::Div, d, two_y)
            },
            UnaryOp::Cbrt => {
                let y2 = self.unary(UnaryOp::Sqr, y);
                let three_y2 = self.scaled(y2, three());
                self.binary(BinaryOp::Div, d, three_y2)
            },
            UnaryOp::Ln => self.binary(BinaryOp::Div, d, a),
            UnaryOp::Log10 => {
                let a_ln10 = self.scaled(a, ln_ten());
                self.binary(BinaryOp::Div, d, a_ln10)
            },
            UnaryOp::Sin => {
                let cos = self.unary(UnaryOp::Cos, a);
                self.binary(BinaryOp::Mul, d, cos)
            },
            UnaryOp::Cos => {
                let sin = self.unary(UnaryOp::Sin, a);
                let by_sin = self.binary(BinaryOp::Mul, d, sin);
                self.unary(UnaryOp::Negate, by_sin)
            },
            UnaryOp::Tan => {
                let unit = self.constant(one());
                let y2 = self.unary(UnaryOp::Sqr, y);
                let sec2 = self.binary(BinaryOp::Add, unit, y2);
                self.binary(BinaryOp::Mul, d, sec2)
            },
            UnaryOp::Cot => {
                let unit = self.constant(one());
                let y2 = self.unary(UnaryOp::Sqr, y);
                let sec2 = self.binary(BinaryOp::Add, unit, y2);
                let by_sec2 = self.binary(BinaryOp::Mul, d, sec2);
                self.unary(UnaryOp::Negate, by_sec2)
            },
            UnaryOp::Asin => {
                let unit = self.constant(one());
                let a2 = self.unary(UnaryOp::Sqr, a);
                let inside = self.binary(BinaryOp::Sub, unit, a2);
                let root = self.unary(UnaryOp::Sqrt, inside);
                self.binary(BinaryOp::Div, d, root)
            },
            UnaryOp::Acos => {
                let unit = self.constant(one());
                let a2 = self.unary(UnaryOp::Sqr, a);
                let inside = self.binary(BinaryOp::Sub, unit, a2);
                let root = self.unary(UnaryOp::Sqrt, inside);
                let over = self.binary(BinaryOp::Div, d, root);
                self.unary(UnaryOp::Negate, over)
            },
            UnaryOp::Atan => {
                let unit = self.constant(one());
                let a2 = self.unary(UnaryOp::Sqr, a);
                let inside = self.binary(BinaryOp::Add, unit, a2);
                self.binary(BinaryOp::Div, d, inside)
            },
            UnaryOp::Sinh => {
                let cosh = self.unary(UnaryOp::Cosh, a);
                self.binary(BinaryOp::Mul, d, cosh)
            },
            UnaryOp::Cosh => {
                let sinh = self.unary(UnaryOp::Sinh, a);
                self.binary(BinaryOp::Mul, d, sinh)
            },
            UnaryOp::Tanh => {
                let unit = self.constant(one());
                let y2 = self.unary(UnaryOp::Sqr, y);
                let sech2 = self.binary(BinaryOp::Sub, unit, y2);
                self.binary(BinaryOp::Mul, d, sech2)
            },
            UnaryOp::Abs => {
                let sign = self.unary(UnaryOp::Sgn, a);
                self.binary(BinaryOp::Mul, d, sign)
            },
            UnaryOp::Ceil | UnaryOp::Floor | UnaryOp::Sgn => d,
        }
    }
}

impl Sweep {
    /// An adjoint pushed through `max(a, b)` (`larger`) or `min(a, b)`: to
    /// whichever operand is selected, halves at a tie.
    fn through_extremum(
        &mut self,
        a: VirtualRegister,
        b: VirtualRegister,
        larger: bool,
        d: VirtualRegister,
    ) -> (contributions: Vec<
        (VirtualRegister, VirtualRegister),
    >)
        requires
            old(self).tape.consts.well_formed(),
            fits_a_tape(extremum_pushed(old(self)@, a, b, larger, d, old(self).span).0),
        ensures
            Sweep::becomes(*old(self), *final(self), extremum_pushed(old(self)@, a, b, larger, d, old(self).span).0),
            contributions@ == extremum_pushed(old(self)@, a, b, larger, d, old(self).span).1,
    {
        let ghost span = self.span;
        proof {
            reveal_with_fuel(term_emitted, 2);
            let (s1, share_a) = term_emitted(self@, share_rule(a, b, larger), span);
            let (s2, share_b) = term_emitted(s1, share_rule(a, b, !larger), span);
            let (s3, to_a) = term_emitted(s2, product_rule(d, share_a), span);
            emitting_continues(s1, share_rule(a, b, !larger), span);
            emitting_continues(s2, product_rule(d, share_a), span);
            emitting_continues(s3, product_rule(d, share_b), span);
        }
        let share_a = self.share(a, b, larger);
        let share_b = self.share(a, b, !larger);
        let to_a = self.binary(BinaryOp::Mul, d, share_a);
        let to_b = self.binary(BinaryOp::Mul, d, share_b);
        vec![(a, to_a), (b, to_b)]
    }

    /// An adjoint pushed through `y = a op b` to `a` and `b`.
    #[verifier::rlimit(60)]
    fn through_binary(
        &mut self,
        op: BinaryOp,
        a: VirtualRegister,
        b: VirtualRegister,
        y: VirtualRegister,
        d: VirtualRegister,
    ) -> (contributions: Vec<(VirtualRegister, VirtualRegister)>)
        requires
            old(self).tape.consts.well_formed(),
            fits_a_tape(binary_pushed(old(self)@, op, a, b, y, d, old(self).span).0),
            !(op is Rem),
        ensures
            Sweep::becomes(*old(self), *final(self), binary_pushed(old(self)@, op, a, b, y, d, old(self).span).0),
            contributions@ == binary_pushed(old(self)@, op, a, b, y, d, old(self).span).1,
    {
        let ghost span = self.span;
        let ghost start = self@;
        match op {
            BinaryOp::Add => vec![(a, d), (b, d)],
            BinaryOp::Sub => {
                proof {
                    reveal_with_fuel(term_emitted, 2);
                }
                let negated = self.unary(UnaryOp::Negate, d);
                vec![(a, d), (b, negated)]
            },
            BinaryOp::Mul => {
                proof {
                    reveal_with_fuel(term_emitted, 2);
                }
                let to_a = self.binary(BinaryOp::Mul, d, b);
                let to_b = self.binary(BinaryOp::Mul, d, a);
                vec![(a, to_a), (b, to_b)]
            },
            BinaryOp::Div => {
                proof {
                    reveal_with_fuel(term_emitted, 4);
                }
                let to_a = self.binary(BinaryOp::Div, d, b);
                let y_over_b = self.binary(BinaryOp::Div, y, b);
                let by = self.binary(BinaryOp::Mul, d, y_over_b);
                let to_b = self.unary(UnaryOp::Negate, by);
                vec![(a, to_a), (b, to_b)]
            },
            BinaryOp::Pow => {
                proof {
                    reveal_with_fuel(term_emitted, 5);
                    pooling_continues(start, one());
                }
                let unit = self.constant(one());
                let b_less_one = self.binary(BinaryOp::Sub, b, unit);
                let a_pow = self.binary(BinaryOp::Pow, a, b_less_one);
                let b_a_pow = self.binary(BinaryOp::Mul, b, a_pow);
                let to_a = self.binary(BinaryOp::Mul, d, b_a_pow);
                match b {
                    VirtualRegister::Const(_) => vec![(a, to_a)],
                    _ => {
                        let ln_a = self.unary(UnaryOp::Ln, a);
                        let y_ln_a = self.binary(BinaryOp::Mul, y, ln_a);
                        let to_b = self.binary(BinaryOp::Mul, d, y_ln_a);
                        vec![(a, to_a), (b, to_b)]
                    },
                }
            },
            BinaryOp::Max => self.through_extremum(a, b, true, d),
            BinaryOp::Min => self.through_extremum(a, b, false, d),
            BinaryOp::LogB => {
                proof {
                    reveal_with_fuel(term_emitted, 5);
                }
                let ln_a = self.unary(UnaryOp::Ln, a);
                let b_ln_a = self.binary(BinaryOp::Mul, b, ln_a);
                let to_b = self.binary(BinaryOp::Div, d, b_ln_a);
                let a_ln_a = self.binary(BinaryOp::Mul, a, ln_a);
                let y_over = self.binary(BinaryOp::Div, y, a_ln_a);
                let by = self.binary(BinaryOp::Mul, d, y_over);
                let to_a = self.unary(UnaryOp::Negate, by);
                vec![(a, to_a), (b, to_b)]
            },
            BinaryOp::Rem => Vec::new(),
        }
    }

    /// An adjoint pushed through `insn` to each operand.
    fn pushed_down(&mut self, insn: &Instruction<VirtualRegister>, d: VirtualRegister) -> (contributions: Vec<
        (VirtualRegister, VirtualRegister),
    >)
        requires
            old(self).tape.consts.well_formed(),
            fits_a_tape(pushed(old(self)@, *insn, d, old(self).span).0),
            has_derivative(*insn),
        ensures
            Sweep::becomes(*old(self), *final(self), pushed(old(self)@, *insn, d, old(self).span).0),
            contributions@ == pushed(old(self)@, *insn, d, old(self).span).1,
    {
        match *insn {
            Instruction::Load { .. } | Instruction::Check { .. } | Instruction::Gather { .. } => Vec::new(),
            Instruction::Copy { src, .. } => vec![(src, d)],
            Instruction::Unary { dst, op, a } => {
                let to_a = self.through_unary(op, a, dst, d);
                vec![(a, to_a)]
            },
            Instruction::Binary { dst, op, a, b } => self.through_binary(op, a, b, dst, d),
            Instruction::Compare { op, a, b, .. } => {
                proof {
                    reveal_with_fuel(term_emitted, 2);
                }
                let negated = self.unary(UnaryOp::Negate, d);
                match op {
                    CompareOp::Lte | CompareOp::Lt => vec![(a, d), (b, negated)],
                    CompareOp::Gte | CompareOp::Gt => vec![(a, negated), (b, d)],
                }
            },
            Instruction::Combine { how, a, b, .. } => match how {
                Accumulate::Sum => vec![(a, d), (b, d)],
                Accumulate::Prod => {
                    proof {
                        reveal_with_fuel(term_emitted, 2);
                    }
                    let to_a = self.binary(BinaryOp::Mul, d, b);
                    let to_b = self.binary(BinaryOp::Mul, d, a);
                    vec![(a, to_a), (b, to_b)]
                },
                Accumulate::Worst => self.through_extremum(a, b, true, d),
            },
        }
    }
}

/// A table of adjoints by register number.
spec fn tabulates(table: Map<u64, VirtualRegister>, adjoint: Map<VirtualRegister, VirtualRegister>) -> bool {
    forall|register: VirtualRegister|
        (#[trigger] adjoint.contains_key(register) <==> table.contains_key(code(register))) && (adjoint.contains_key(register)
            ==> table[code(register)] == adjoint[register])
}

proof fn codes_differ(a: VirtualRegister, b: VirtualRegister)
    requires
        a != b,
    ensures
        code(a) != code(b),
{
}

fn adjoint_of(
    table: &HashMap<u64, VirtualRegister>,
    register: VirtualRegister,
    adjoint: Ghost<Map<VirtualRegister, VirtualRegister>>,
) -> (
    found: Option<VirtualRegister>)
    requires
        tabulates(table@, adjoint@),
    ensures
        match found {
            Some(at) => adjoint@.contains_key(register) && adjoint@[register] == at,
            None => !adjoint@.contains_key(register),
        },
{
    let number: u64 = coded(register);
    assert(adjoint@.contains_key(register) <==> table@.contains_key(code(register)));
    match table.get(&number) {
        Some(at) => Some(*at),
        None => None,
    }
}

fn set_adjoint(
    table: &mut HashMap<u64, VirtualRegister>,
    register: VirtualRegister,
    at: VirtualRegister,
    adjoint: Ghost<Map<VirtualRegister, VirtualRegister>>,
)
    requires
        tabulates(old(table)@, adjoint@),
    ensures
        tabulates(final(table)@, adjoint@.insert(register, at)),
{
    let ghost before = table@;
    let number: u64 = coded(register);
    table.insert(number, at);
    proof {
        let after = adjoint@.insert(register, at);
        assert forall|other: VirtualRegister|
            (#[trigger] after.contains_key(other) <==> table@.contains_key(code(other))) && (after.contains_key(other)
                ==> table@[code(other)] == after[other]) by {
            assert(adjoint@.contains_key(other) <==> before.contains_key(code(other)));
            if other != register {
                codes_differ(other, register);
            }
        }
    }
}

proof fn accumulating_continues(sweeping: Sweeping, contributions: Contributions, span: Span, from: int, upto: int)
    requires
        from <= upto,
    ensures
        continues(
            accumulated(sweeping, contributions, span, from).state,
            accumulated(sweeping, contributions, span, upto).state,
        ),
    decreases upto - from,
{
    if from < upto {
        accumulating_continues(sweeping, contributions, span, from, upto - 1);
        let before = accumulated(sweeping, contributions, span, upto - 1);
        if upto > 0 {
            let (source, contribution) = contributions[upto - 1];
            emitting_continues(
                before.state,
                *joined(BinaryOp::Add, leaf(before.adjoint[source]), leaf(contribution)),
                span,
            );
        }
    }
}

proof fn pushing_continues(state: Lowering, insn: Instruction<VirtualRegister>, d: VirtualRegister, span: Span)
    ensures
        continues(state, pushed(state, insn, d, span).0),
{
    match insn {
        Instruction::Load { .. } | Instruction::Check { .. } | Instruction::Gather { .. } | Instruction::Copy { .. } => {},
        Instruction::Unary { dst, op, a } => emitting_continues(state, unary_rule(op, a, dst, d), span),
        Instruction::Binary { dst, op, a, b } => {
            match op {
                BinaryOp::Add | BinaryOp::Rem => {},
                BinaryOp::Sub => pushing_both_continues(state, Term::Leaf(d), negated_rule(d), span),
                BinaryOp::Mul => pushing_both_continues(state, product_rule(d, b), product_rule(d, a), span),
                BinaryOp::Div => pushing_both_continues(state, dividend_rule(b, d), divisor_rule(b, dst, d), span),
                BinaryOp::Pow => {
                    emitting_continues(state, base_rule(a, b, d), span);
                    pushing_both_continues(state, base_rule(a, b, d), exponent_rule(a, dst, d), span);
                },
                BinaryOp::Max => pushing_extremum_continues(state, a, b, true, d, span),
                BinaryOp::Min => pushing_extremum_continues(state, a, b, false, d, span),
                BinaryOp::LogB => {
                    let first = *applied(UnaryOp::Ln, leaf(a));
                    let (s1, ln_a) = term_emitted(state, first, span);
                    let (s2, to_b) = term_emitted(s1, antilogarithm_rule(b, ln_a, d), span);
                    emitting_continues(state, first, span);
                    emitting_continues(s1, antilogarithm_rule(b, ln_a, d), span);
                    emitting_continues(s2, logarithm_base_rule(a, ln_a, dst, d), span);
                },
            }
        },
        Instruction::Compare { .. } => emitting_continues(state, negated_rule(d), span),
        Instruction::Combine { how, a, b, .. } => {
            match how {
                Accumulate::Sum => {},
                Accumulate::Prod => pushing_both_continues(state, product_rule(d, b), product_rule(d, a), span),
                Accumulate::Worst => pushing_extremum_continues(state, a, b, true, d, span),
            }
        },
    }
}

proof fn pushing_both_continues(
    state: Lowering,
    first: Term<VirtualRegister>,
    second: Term<VirtualRegister>,
    span: Span,
)
    ensures
        continues(state, term_emitted(term_emitted(state, first, span).0, second, span).0),
{
    emitting_continues(state, first, span);
    emitting_continues(term_emitted(state, first, span).0, second, span);
}

proof fn pushing_extremum_continues(
    state: Lowering,
    a: VirtualRegister,
    b: VirtualRegister,
    larger: bool,
    d: VirtualRegister,
    span: Span,
)
    ensures
        continues(state, extremum_pushed(state, a, b, larger, d, span).0),
{
    let (s1, share_a) = term_emitted(state, share_rule(a, b, larger), span);
    let (s2, share_b) = term_emitted(s1, share_rule(a, b, !larger), span);
    let (s3, to_a) = term_emitted(s2, product_rule(d, share_a), span);
    emitting_continues(state, share_rule(a, b, larger), span);
    emitting_continues(s1, share_rule(a, b, !larger), span);
    emitting_continues(s2, product_rule(d, share_a), span);
    emitting_continues(s3, product_rule(d, share_b), span);
}

proof fn sweeping_one_continues(sweeping: Sweeping, insn: Instruction<VirtualRegister>, span: Span)
    ensures
        continues(sweeping.state, swept_one(sweeping, insn, span).state),
{
    if insn.written() is Some && sweeping.adjoint.contains_key(insn.written()->0) {
        let (next, contributions) = pushed(sweeping.state, insn, sweeping.adjoint[insn.written()->0], span);
        pushing_continues(sweeping.state, insn, sweeping.adjoint[insn.written()->0], span);
        accumulating_continues(
            Sweeping { state: next, ..sweeping },
            contributions,
            span,
            0,
            contributions.len() as int,
        );
    }
}

proof fn sweeping_continues(
    start: Sweeping,
    insns: Seq<Instruction<VirtualRegister>>,
    spans: Seq<Span>,
    from: int,
    to: int,
)
    requires
        0 <= to <= from <= insns.len(),
    ensures
        continues(swept_from(start, insns, spans, from).state, swept_from(start, insns, spans, to).state),
    decreases from - to,
{
    if to < from {
        sweeping_continues(start, insns, spans, from, to + 1);
        sweeping_one_continues(swept_from(start, insns, spans, to + 1), insns[to], spans[to]);
    }
}

fn first_load(insns: &Vec<Instruction<VirtualRegister>>, count: usize, input: u32) -> (found: Option<VirtualRegister>)
    requires
        count <= insns@.len(),
    ensures
        found == load_of(insns@.take(count as int), input, 0),
{
    let ghost part = insns@.take(count as int);
    let mut i: usize = 0;
    while i < count
        invariant
            i <= count,
            count <= insns@.len(),
            part == insns@.take(count as int),
            load_of(part, input, 0) == load_of(part, input, i as int),
        decreases count - i,
    {
        assert(part[i as int] == insns@[i as int]);
        match &insns[i] {
            Instruction::Load { dst, input: row } => {
                if *row == input {
                    return Some(*dst);
                }
            },
            _ => {},
        }
        i = i + 1;
    }
    None
}

/// The derivative tape of `primal`: its instructions in single assignment,
/// followed by the reverse sweep. The result is the primal value, and the `s`th
/// partial is the derivative by the row `positions[s]`; a row the tape never
/// loads has the zero constant for its partial.
///
/// `None` when the tape holds an instruction with no derivative.
pub fn differentiate(primal: &VirtualTape, positions: &Vec<u32>) -> (derivative: Option<VirtualTape>)
    requires
        primal.consts.well_formed(),
        primal.spans@.len() == primal.insns@.len(),
        primal.temps + writes(primal.insns@) <= u32::MAX,
        fits_a_tape(sweep_end(*primal).state),
    ensures
        match derivative {
            Some(tape) => {
                &&& forall|i: int| 0 <= i < primal.insns@.len() ==> has_derivative(#[trigger] primal.insns@[i])
                &&& is_derivative(tape, *primal, positions@)
            },
            None => exists|i: int| 0 <= i < primal.insns@.len() && !has_derivative(#[trigger] primal.insns@[i]),
        },
{
    for i in 0..primal.insns.len()
        invariant
            forall|j: int| 0 <= j < i ==> has_derivative(#[trigger] primal.insns@[j]),
    {
        if !differentiable(&primal.insns[i]) {
            return None;
        }
    }
    let renamed = primal.single_assignment();
    let ghost done = renaming(primal.insns@, primal.temps as int);
    let ghost all = done.insns;
    let ghost marks = primal.spans@;
    proof {
        renaming_keeps_derivatives(primal.insns@, primal.temps as int);
    }
    let result = renamed.result;
    let total: usize = renamed.insns.len();
    let mut sweep = Sweep { tape: renamed, span: Span::new(0, 0) };
    let ghost start = sweep_start(*primal);
    let ghost end = swept_from(start, all, marks, 0);
    proof {
        pooling_continues(end.state, zero());
        sweeping_continues(start, all, marks, all.len() as int, 0);
        assert(swept_from(start, all, marks, all.len() as int) == start);
    }
    let unit = sweep.constant(one());
    let ghost mut adjoint: Map<VirtualRegister, VirtualRegister> = Map::empty();
    let mut table: HashMap<u64, VirtualRegister> = HashMap::new();
    set_adjoint(&mut table, result, unit, Ghost(adjoint));
    proof {
        adjoint = adjoint.insert(result, unit);
        assert(sweep@.insns.take(total as int) =~= all);
        assert(sweep@.spans.take(total as int) =~= marks);
    }
    let mut i: usize = total;
    while i > 0
        invariant
            i <= total,
            total == all.len() == marks.len(),
            sweep.tape.consts.well_formed(),
            sweep.tape.locals == primal.locals,
            total <= sweep@.insns.len(),
            total <= sweep@.spans.len(),
            sweep@.insns.take(total as int) == all,
            sweep@.spans.take(total as int) == marks,
            forall|j: int| 0 <= j < all.len() ==> has_derivative(#[trigger] all[j]),
            tabulates(table@, adjoint),
            fits_a_tape(end.state),
            end == swept_from(start, all, marks, 0),
            swept_from(start, all, marks, i as int) == (Sweeping { state: sweep@, adjoint }),
        decreases i,
    {
        i = i - 1;
        let ghost before = Sweeping { state: sweep@, adjoint };
        proof {
            sweeping_continues(start, all, marks, i as int, 0);
            sweeping_one_continues(before, all[i as int], marks[i as int]);
            assert(sweep@.insns[i as int] == sweep@.insns.take(total as int)[i as int]);
            assert(sweep@.spans[i as int] == sweep@.spans.take(total as int)[i as int]);
        }
        let insn = sweep.tape.insns[i];
        let span = sweep.tape.spans[i];
        let dst = match insn.dst() {
            Some(dst) => dst,
            None => {
                continue;
            },
        };
        let d = match adjoint_of(&table, dst, Ghost(adjoint)) {
            Some(d) => d,
            None => {
                continue;
            },
        };
        sweep.span = span;
        let ghost (next, given) = pushed(before.state, insn, d, span);
        let ghost pushing = Sweeping { state: next, adjoint };
        let ghost last = accumulated(pushing, given, span, given.len() as int);
        proof {
            accumulating_continues(pushing, given, span, 0, given.len() as int);
            pushing_continues(before.state, insn, d, span);
            assert(sweep@ == before.state);
        }
        let contributions = sweep.pushed_down(&insn, d);
        for k in 0..contributions.len()
            invariant
                contributions@ == given,
                sweep.tape.consts.well_formed(),
                sweep.tape.locals == primal.locals,
                sweep.span == span,
                tabulates(table@, adjoint),
                last == accumulated(pushing, given, span, given.len() as int),
                fits_a_tape(last.state),
                accumulated(pushing, given, span, k as int) == (Sweeping { state: sweep@, adjoint }),
        {
            let (source, contribution) = contributions[k];
            proof {
                accumulating_continues(pushing, given, span, k + 1, given.len() as int);
                reveal_with_fuel(term_emitted, 2);
            }
            let constant_source = match source {
                VirtualRegister::Const(_) => true,
                _ => false,
            };
            if !constant_source {
                let total_so_far = match adjoint_of(&table, source, Ghost(adjoint)) {
                    Some(so_far) => sweep.binary(BinaryOp::Add, so_far, contribution),
                    None => contribution,
                };
                set_adjoint(&mut table, source, total_so_far, Ghost(adjoint));
                proof {
                    adjoint = adjoint.insert(source, total_so_far);
                }
            }
        }
        proof {
            let after = Sweeping { state: sweep@, adjoint };
            assert(after == swept_one(before, all[i as int], marks[i as int]));
            assert(continues(before.state, sweep@));
            assert(sweep@.insns.take(total as int) =~= before.state.insns.take(total as int));
            assert(sweep@.spans.take(total as int) =~= before.state.spans.take(total as int));
        }
    }
    let none = sweep.constant(zero());
    let ghost final_sweep = sweep_end(*primal);
    proof {
        assert(final_sweep.state == sweep@);
        assert(final_sweep.adjoint == adjoint);
        assert(sweep@.insns.take(total as int) =~= all);
    }
    let mut partials: Vec<VirtualRegister> = Vec::with_capacity(positions.len());
    for s in 0..positions.len()
        invariant
            total <= sweep.tape.insns@.len(),
            sweep.tape.insns@.take(total as int) == all,
            all == renaming(primal.insns@, primal.temps as int).insns,
            tabulates(table@, adjoint),
            final_sweep == sweep_end(*primal),
            final_sweep.adjoint == adjoint,
            none == pool_register(final_sweep.state.pool, zero()),
            partials@ =~= positions@.take(s as int).map_values(|input: u32| partial_of(*primal, input)),
    {
        let partial = match first_load(&sweep.tape.insns, total, positions[s]) {
            Some(dst) => match adjoint_of(&table, dst, Ghost(adjoint)) {
                Some(at) => at,
                None => none,
            },
            None => none,
        };
        partials.push(partial);
    }
    assert(positions@.take(positions@.len() as int) =~= positions@);
    let mut tape = sweep.tape;
    tape.result = result;
    tape.partials = partials;
    Some(tape)
}

/// Renaming changes registers and nothing else, so derivatives stay.
proof fn renaming_keeps_derivatives(insns: Seq<Instruction<VirtualRegister>>, temps: int)
    requires
        forall|i: int| 0 <= i < insns.len() ==> has_derivative(#[trigger] insns[i]),
    ensures
        renaming(insns, temps).insns.len() == insns.len(),
        forall|i: int| 0 <= i < insns.len() ==> has_derivative(#[trigger] renaming(insns, temps).insns[i]),
    decreases insns.len(),
{
    if insns.len() > 0 {
        let rest = insns.drop_last();
        assert forall|i: int| 0 <= i < rest.len() implies has_derivative(#[trigger] rest[i]) by {
            assert(rest[i] == insns[i]);
        }
        renaming_keeps_derivatives(rest, temps);
        assert(has_derivative(insns[insns.len() - 1]));
        let done = renaming(insns, temps).insns;
        assert forall|i: int| 0 <= i < insns.len() implies has_derivative(#[trigger] done[i]) by {
            if i < rest.len() {
                assert(done[i] == renaming(rest, temps).insns[i]);
            }
        }
    }
}

// ---- laws ----

/// What a formula comes to.
pub open spec fn evaluated(term: Term<Real>, arithmetic: Arithmetic) -> Real
    decreases term,
{
    match term {
        Term::Leaf(value) => value,
        Term::Constant(value) => value,
        Term::Unary(op, a) => op.value(arithmetic, evaluated(*a, arithmetic)),
        Term::Binary(op, a, b) => op.value(arithmetic, evaluated(*a, arithmetic), evaluated(*b, arithmetic)),
    }
}

/// A formula over registers, as one over what they hold.
pub open spec fn valued(term: Term<VirtualRegister>, registers: Map<VirtualRegister, Real>) -> Term<Real>
    decreases term,
{
    match term {
        Term::Leaf(register) => Term::Leaf(held(registers, register)),
        Term::Constant(value) => Term::Constant(value),
        Term::Unary(op, a) => Term::Unary(op, Box::new(valued(*a, registers))),
        Term::Binary(op, a, b) => Term::Binary(
            op,
            Box::new(valued(*a, registers)),
            Box::new(valued(*b, registers)),
        ),
    }
}

/// How many operations a formula has.
pub open spec fn operations(term: Term<VirtualRegister>) -> nat
    decreases term,
{
    match term {
        Term::Leaf(_) | Term::Constant(_) => 0,
        Term::Unary(_, a) => 1 + operations(*a),
        Term::Binary(_, a, b) => 1 + operations(*a) + operations(*b),
    }
}

proof fn emitting_costs_its_operations(state: Lowering, term: Term<VirtualRegister>, span: Span)
    ensures
        term_emitted(state, term, span).0.insns.len() == state.insns.len() + operations(term),
    decreases term,
{
    match term {
        Term::Leaf(_) | Term::Constant(_) => {},
        Term::Unary(op, a) => emitting_costs_its_operations(state, *a, span),
        Term::Binary(op, a, b) => {
            emitting_costs_its_operations(state, *a, span);
            emitting_costs_its_operations(term_emitted(state, *a, span).0, *b, span);
        },
    }
}

proof fn a_push_is_short(state: Lowering, insn: Instruction<VirtualRegister>, d: VirtualRegister, span: Span)
    ensures
        pushed(state, insn, d, span).0.insns.len() <= state.insns.len() + 10,
        pushed(state, insn, d, span).1.len() <= 2,
{
    reveal_with_fuel(operations, 7);
    match insn {
        Instruction::Load { .. } | Instruction::Check { .. } | Instruction::Gather { .. } | Instruction::Copy { .. } => {},
        Instruction::Unary { dst, op, a } => emitting_costs_its_operations(state, unary_rule(op, a, dst, d), span),
        Instruction::Binary { dst, op, a, b } => {
            match op {
                BinaryOp::Add | BinaryOp::Rem => {},
                BinaryOp::Sub => both_are_short(state, Term::Leaf(d), negated_rule(d), span),
                BinaryOp::Mul => both_are_short(state, product_rule(d, b), product_rule(d, a), span),
                BinaryOp::Div => both_are_short(state, dividend_rule(b, d), divisor_rule(b, dst, d), span),
                BinaryOp::Pow => both_are_short(state, base_rule(a, b, d), exponent_rule(a, dst, d), span),
                BinaryOp::Max => an_extremum_is_short(state, a, b, true, d, span),
                BinaryOp::Min => an_extremum_is_short(state, a, b, false, d, span),
                BinaryOp::LogB => {
                    let first = *applied(UnaryOp::Ln, leaf(a));
                    let (s1, ln_a) = term_emitted(state, first, span);
                    let (s2, to_b) = term_emitted(s1, antilogarithm_rule(b, ln_a, d), span);
                    emitting_costs_its_operations(state, first, span);
                    emitting_costs_its_operations(s1, antilogarithm_rule(b, ln_a, d), span);
                    emitting_costs_its_operations(s2, logarithm_base_rule(a, ln_a, dst, d), span);
                },
            }
        },
        Instruction::Compare { .. } => emitting_costs_its_operations(state, negated_rule(d), span),
        Instruction::Combine { how, a, b, .. } => {
            match how {
                Accumulate::Sum => {},
                Accumulate::Prod => both_are_short(state, product_rule(d, b), product_rule(d, a), span),
                Accumulate::Worst => an_extremum_is_short(state, a, b, true, d, span),
            }
        },
    }
}

proof fn both_are_short(state: Lowering, first: Term<VirtualRegister>, second: Term<VirtualRegister>, span: Span)
    ensures
        term_emitted(state, first, span).0.insns.len() == state.insns.len() + operations(first),
        term_emitted(term_emitted(state, first, span).0, second, span).0.insns.len() == state.insns.len() + operations(
            first,
        ) + operations(second),
{
    emitting_costs_its_operations(state, first, span);
    emitting_costs_its_operations(term_emitted(state, first, span).0, second, span);
}

proof fn an_extremum_is_short(
    state: Lowering,
    a: VirtualRegister,
    b: VirtualRegister,
    larger: bool,
    d: VirtualRegister,
    span: Span,
)
    ensures
        extremum_pushed(state, a, b, larger, d, span).0.insns.len() == state.insns.len() + 10,
{
    reveal_with_fuel(operations, 7);
    let (s1, share_a) = term_emitted(state, share_rule(a, b, larger), span);
    let (s2, share_b) = term_emitted(s1, share_rule(a, b, !larger), span);
    let (s3, to_a) = term_emitted(s2, product_rule(d, share_a), span);
    emitting_costs_its_operations(state, share_rule(a, b, larger), span);
    emitting_costs_its_operations(s1, share_rule(a, b, !larger), span);
    emitting_costs_its_operations(s2, product_rule(d, share_a), span);
    emitting_costs_its_operations(s3, product_rule(d, share_b), span);
}

proof fn accumulating_is_short(sweeping: Sweeping, contributions: Contributions, span: Span, upto: int)
    requires
        0 <= upto,
    ensures
        accumulated(sweeping, contributions, span, upto).state.insns.len() <= sweeping.state.insns.len() + upto,
    decreases upto,
{
    if upto > 0 {
        accumulating_is_short(sweeping, contributions, span, upto - 1);
        let before = accumulated(sweeping, contributions, span, upto - 1);
        let (source, contribution) = contributions[upto - 1];
        reveal_with_fuel(operations, 3);
        emitting_costs_its_operations(
            before.state,
            *joined(BinaryOp::Add, leaf(before.adjoint[source]), leaf(contribution)),
            span,
        );
    }
}

proof fn sweeping_is_short(start: Sweeping, insns: Seq<Instruction<VirtualRegister>>, spans: Seq<Span>, from: int)
    requires
        0 <= from <= insns.len(),
    ensures
        swept_from(start, insns, spans, from).state.insns.len() <= start.state.insns.len() + 12 * (insns.len() - from),
    decreases insns.len() - from,
{
    if from < insns.len() {
        sweeping_is_short(start, insns, spans, from + 1);
        let before = swept_from(start, insns, spans, from + 1);
        let insn = insns[from];
        if insn.written() is Some && before.adjoint.contains_key(insn.written()->0) {
            let (next, contributions) = pushed(before.state, insn, before.adjoint[insn.written()->0], spans[from]);
            a_push_is_short(before.state, insn, before.adjoint[insn.written()->0], spans[from]);
            accumulating_is_short(
                Sweeping { state: next, ..before },
                contributions,
                spans[from],
                contributions.len() as int,
            );
        }
    }
}

/// The sweep is a fixed multiple of the primal, whatever the number of inputs.
pub proof fn the_sweep_is_a_fixed_multiple(primal: VirtualTape)
    requires
        primal.temps + writes(primal.insns@) <= u32::MAX,
    ensures
        sweep_end(primal).state.insns.len() <= 13 * primal.insns@.len(),
{
    let done = renaming(primal.insns@, primal.temps as int);
    renaming_length(primal.insns@, primal.temps as int);
    sweeping_is_short(sweep_start(primal), done.insns, primal.spans@, 0);
}

/// A derivative begins with its primal: the constants of the primal first, then
/// more; the instructions of the primal first, in single assignment and where
/// they were, then the sweep; and its result is the primal's.
pub proof fn a_derivative_begins_with_its_primal(tape: VirtualTape, primal: VirtualTape, positions: Seq<u32>)
    requires
        is_derivative(tape, primal, positions),
        primal.temps + writes(primal.insns@) <= u32::MAX,
        forall|i: int| 0 <= i < primal.insns@.len() ==> numbered(#[trigger] primal.insns@[i], primal.temps as int),
    ensures
        ({
            let done = renaming(primal.insns@, primal.temps as int);
            let count = primal.insns@.len() as int;
            &&& primal.consts@.is_prefix_of(tape.consts@)
            &&& done.temps <= tape.temps
            &&& count <= tape.insns@.len()
            &&& tape.insns@.take(count) == done.insns
            &&& primal.spans@.is_prefix_of(tape.spans@)
            &&& forall|i: int, j: int|
                0 <= i < j < count && tape.insns@[i].written() is Some ==> #[trigger] tape.insns@[i].written()
                    != #[trigger] tape.insns@[j].written()
            &&& forall|i: int, j: int, k: int|
                0 <= i <= j < count && 0 <= k < tape.insns@[i].read().len() ==> #[trigger] tape.insns@[j].written()
                    != Some(#[trigger] tape.insns@[i].read()[k])
            &&& tape.result == latest(done.version, primal.result)
        }),
{
    let temps = primal.temps as int;
    let done = renaming(primal.insns@, temps);
    let count = primal.insns@.len() as int;
    renaming_length(primal.insns@, temps);
    renaming_assigns_once(primal.insns@, temps);
    let start = sweep_start(primal);
    let last = swept_from(start, done.insns, primal.spans@, 0);
    let plain = Lowering {
        pool: primal.consts@,
        temps: done.temps,
        insns: done.insns,
        spans: primal.spans@,
        loads: Seq::empty(),
        assigned: Seq::empty(),
    };
    pooling_continues(plain, one());
    sweeping_continues(start, done.insns, primal.spans@, done.insns.len() as int, 0);
    pooling_continues(last.state, zero());
    assert(swept_from(start, done.insns, primal.spans@, done.insns.len() as int) == start);
    assert(tape.insns@.take(count) =~= done.insns) by {
        assert(done.insns.is_prefix_of(tape.insns@));
        assert forall|i: int| 0 <= i < count implies tape.insns@[i] == done.insns[i] by {
            assert(tape.insns@.subrange(0, count)[i] == tape.insns@[i]);
        }
    }
    assert forall|i: int| 0 <= i < count implies tape.insns@[i] == #[trigger] done.insns[i] by {
        assert(tape.insns@.take(count)[i] == tape.insns@[i]);
    }
    assert forall|i: int, j: int| 0 <= i < j < count && tape.insns@[i].written() is Some implies
        #[trigger] tape.insns@[i].written() != #[trigger] tape.insns@[j].written() by {
        assert(done.insns[i].written() != done.insns[j].written());
    }
    assert forall|i: int, j: int, k: int|
        0 <= i <= j < count && 0 <= k < tape.insns@[i].read().len() implies #[trigger] tape.insns@[j].written() != Some(
        #[trigger] tape.insns@[i].read()[k],
    ) by {
        assert(done.insns[j].written() != Some(done.insns[i].read()[k]));
    }
}

proof fn renaming_length(insns: Seq<Instruction<VirtualRegister>>, temps: int)
    ensures
        renaming(insns, temps).insns.len() == insns.len(),
    decreases insns.len(),
{
    if insns.len() > 0 {
        renaming_length(insns.drop_last(), temps);
    }
}

// What the sweep computes.

/// Whether a register can hold something on a tape under construction.
spec fn usable(state: Lowering, register: VirtualRegister) -> bool {
    match register {
        VirtualRegister::Const(i) => i < state.pool.len(),
        VirtualRegister::Local(_) => true,
        VirtualRegister::Temp(t) => t < state.temps,
    }
}

spec fn leaves_usable(state: Lowering, term: Term<VirtualRegister>) -> bool
    decreases term,
{
    match term {
        Term::Leaf(register) => usable(state, register),
        Term::Constant(_) => true,
        Term::Unary(_, a) => leaves_usable(state, *a),
        Term::Binary(_, a, b) => leaves_usable(state, *a) && leaves_usable(state, *b),
    }
}

proof fn usable_stays(a: Lowering, b: Lowering, term: Term<VirtualRegister>)
    requires
        continues(a, b),
        leaves_usable(a, term),
    ensures
        leaves_usable(b, term),
    decreases term,
{
    match term {
        Term::Leaf(_) | Term::Constant(_) => {},
        Term::Unary(_, x) => usable_stays(a, b, *x),
        Term::Binary(_, x, y) => {
            usable_stays(a, b, *x);
            usable_stays(a, b, *y);
        },
    }
}

/// The setting of a run: what it computes with, and the whole pool.
pub ghost struct Running {
    pub semantics: Semantics,
    pub row: Seq<Real>,
    pub pool: Seq<Real>,
}

/// A tape under construction, run.
spec fn ran(running: Running, state: Lowering) -> Run<VirtualRegister> {
    run(state.insns, running.semantics, running.row, primed(running.pool))
}

spec fn registers(running: Running, state: Lowering) -> Map<VirtualRegister, Real> {
    ran(running, state)->Running_0
}

/// Whether a tape under construction runs, with its constants in place.
spec fn runs(running: Running, state: Lowering) -> bool {
    &&& ran(running, state) is Running
    &&& state.pool.is_prefix_of(running.pool)
    &&& running.pool.len() <= 65536
    &&& 0 <= state.temps <= u32::MAX
    &&& forall|i: u16| i < running.pool.len() ==> #[trigger] held(registers(running, state), VirtualRegister::Const(i))
        == running.pool[i as int]
}

/// Whether what could be held is still held.
spec fn still_held(running: Running, a: Lowering, b: Lowering) -> bool {
    forall|register: VirtualRegister|
        usable(a, register) ==> #[trigger] held(registers(running, b), register) == held(registers(running, a), register)
}

proof fn same_values(running: Running, a: Lowering, b: Lowering, term: Term<VirtualRegister>)
    requires
        still_held(running, a, b),
        leaves_usable(a, term),
    ensures
        valued(term, registers(running, a)) == valued(term, registers(running, b)),
    decreases term,
{
    match term {
        Term::Leaf(_) | Term::Constant(_) => {},
        Term::Unary(_, x) => same_values(running, a, b, *x),
        Term::Binary(_, x, y) => {
            same_values(running, a, b, *x);
            same_values(running, a, b, *y);
        },
    }
}

proof fn earlier_ran(running: Running, a: Lowering, b: Lowering)
    requires
        continues(a, b),
        ran(running, b) is Running,
    ensures
        ran(running, a) is Running,
{
    earlier_runs_on(b.insns, running.semantics, running.row, primed(running.pool), a.insns.len() as int);
    assert(b.insns.take(a.insns.len() as int) =~= a.insns);
}

proof fn one_more_runs(running: Running, state: Lowering, insn: Instruction<VirtualRegister>, span: Span)
    requires
        runs(running, state),
        state.temps + 1 <= u32::MAX,
        insn.written() == Some(VirtualRegister::Temp(state.temps as u32)),
        ran(running, state.fresh().0.emitted(insn, span)) is Running,
    ensures
        ({
            let next = state.fresh().0.emitted(insn, span);
            &&& runs(running, next)
            &&& still_held(running, state, next)
            &&& step(insn, running.semantics, running.row, registers(running, state)) is Ok
            &&& registers(running, next) == step(insn, running.semantics, running.row, registers(running, state))->Ok_0
        }),
{
    let next = state.fresh().0.emitted(insn, span);
    assert(next.insns.drop_last() =~= state.insns);
    assert(next.insns.last() == insn);
    let before = registers(running, state);
    assert forall|register: VirtualRegister| usable(state, register) implies #[trigger] held(
        registers(running, next),
        register,
    ) == held(before, register) by {
        a_step_writes_one(insn, running.semantics, running.row, before, register);
    }
    assert forall|i: u16| i < running.pool.len() implies #[trigger] held(
        registers(running, next),
        VirtualRegister::Const(i),
    ) == running.pool[i as int] by {
        a_step_writes_one(insn, running.semantics, running.row, before, VirtualRegister::Const(i));
        assert(held(before, VirtualRegister::Const(i)) == running.pool[i as int]);
    }
}

proof fn held_through(running: Running, a: Lowering, b: Lowering, c: Lowering)
    requires
        continues(a, b),
        still_held(running, a, b),
        still_held(running, b, c),
    ensures
        still_held(running, a, c),
{
    assert forall|register: VirtualRegister| usable(a, register) implies #[trigger] held(registers(running, c), register)
        == held(registers(running, a), register) by {
        assert(usable(b, register));
        assert(held(registers(running, b), register) == held(registers(running, a), register));
    }
}

/// A formula's register holds what the formula comes to.
proof fn a_term_computes(running: Running, state: Lowering, term: Term<VirtualRegister>, span: Span)
    requires
        runs(running, state),
        leaves_usable(state, term),
        ({
            let after = term_emitted(state, term, span).0;
            &&& ran(running, after) is Running
            &&& after.pool.is_prefix_of(running.pool)
            &&& after.temps <= u32::MAX
        }),
    ensures
        ({
            let (after, register) = term_emitted(state, term, span);
            &&& runs(running, after)
            &&& still_held(running, state, after)
            &&& usable(after, register)
            &&& held(registers(running, after), register) == evaluated(
                valued(term, registers(running, state)),
                running.semantics.arithmetic,
            )
        }),
    decreases term,
{
    let (after, register) = term_emitted(state, term, span);
    match term {
        Term::Leaf(_) => {},
        Term::Constant(value) => {
            pooling_continues(state, value);
            let at = after.pool.index_of(value);
            assert(0 <= at < after.pool.len() && after.pool[at] == value);
            assert(running.pool[at] == after.pool[at]);
            assert(held(registers(running, after), VirtualRegister::Const(at as u16)) == running.pool[at]);
        },
        Term::Unary(op, a) => {
            let (s1, r1) = term_emitted(state, *a, span);
            let insn = Instruction::Unary { dst: VirtualRegister::Temp(s1.temps as u32), op, a: r1 };
            emitting_continues(state, *a, span);
            assert(continues(s1, after));
            earlier_ran(running, s1, after);
            a_term_computes(running, state, *a, span);
            one_more_runs(running, s1, insn, span);
            held_through(running, state, s1, after);
        },
        Term::Binary(op, a, b) => {
            let (s1, r1) = term_emitted(state, *a, span);
            let (s2, r2) = term_emitted(s1, *b, span);
            let insn = Instruction::Binary { dst: VirtualRegister::Temp(s2.temps as u32), op, a: r1, b: r2 };
            emitting_continues(state, *a, span);
            emitting_continues(s1, *b, span);
            assert(continues(s2, after));
            earlier_ran(running, s2, after);
            earlier_ran(running, s1, s2);
            a_term_computes(running, state, *a, span);
            usable_stays(state, s1, *b);
            a_term_computes(running, s1, *b, span);
            same_values(running, state, s1, *b);
            assert(held(registers(running, s2), r1) == held(registers(running, s1), r1));
            one_more_runs(running, s2, insn, span);
            held_through(running, state, s1, s2);
            held_through(running, state, s2, after);
        },
    }
}

/// Pairs of an operand and its contribution.
pub type Slopes = Seq<(VirtualRegister, Real)>;

/// An adjoint pushed through `max(a, b)` or `min(a, b)`, as numbers.
pub open spec fn extremum_slopes(
    arithmetic: Arithmetic,
    held_in: Map<VirtualRegister, Real>,
    a: VirtualRegister,
    b: VirtualRegister,
    larger: bool,
    d: Real,
) -> Slopes {
    let share_a = evaluated(share_rule(held(held_in, a), held(held_in, b), larger), arithmetic);
    let share_b = evaluated(share_rule(held(held_in, a), held(held_in, b), !larger), arithmetic);
    seq![
        (a, evaluated(product_rule(d, share_a), arithmetic)),
        (b, evaluated(product_rule(d, share_b), arithmetic)),
    ]
}

/// An adjoint pushed through an instruction to each operand, as numbers: the
/// chain rule.
pub open spec fn slopes(
    arithmetic: Arithmetic,
    held_in: Map<VirtualRegister, Real>,
    insn: Instruction<VirtualRegister>,
    d: Real,
) -> Slopes {
    match insn {
        Instruction::Load { .. } | Instruction::Check { .. } | Instruction::Gather { .. } => Seq::empty(),
        Instruction::Copy { src, .. } => seq![(src, d)],
        Instruction::Unary { dst, op, a } => seq![
            (a, evaluated(unary_rule(op, held(held_in, a), held(held_in, dst), d), arithmetic)),
        ],
        Instruction::Binary { dst, op, a, b } => {
            let p = held(held_in, a);
            let q = held(held_in, b);
            let y = held(held_in, dst);
            match op {
                BinaryOp::Add => seq![(a, d), (b, d)],
                BinaryOp::Sub => seq![(a, d), (b, evaluated(negated_rule(d), arithmetic))],
                BinaryOp::Mul => seq![
                    (a, evaluated(product_rule(d, q), arithmetic)),
                    (b, evaluated(product_rule(d, p), arithmetic)),
                ],
                BinaryOp::Div => seq![
                    (a, evaluated(dividend_rule(q, d), arithmetic)),
                    (b, evaluated(divisor_rule(q, y, d), arithmetic)),
                ],
                BinaryOp::Pow => if b is Const {
                    seq![(a, evaluated(base_rule(p, q, d), arithmetic))]
                } else {
                    seq![
                        (a, evaluated(base_rule(p, q, d), arithmetic)),
                        (b, evaluated(exponent_rule(p, y, d), arithmetic)),
                    ]
                },
                BinaryOp::Max => extremum_slopes(arithmetic, held_in, a, b, true, d),
                BinaryOp::Min => extremum_slopes(arithmetic, held_in, a, b, false, d),
                BinaryOp::LogB => {
                    let ln_a = UnaryOp::Ln.value(arithmetic, p);
                    seq![
                        (a, evaluated(logarithm_base_rule(p, ln_a, y, d), arithmetic)),
                        (b, evaluated(antilogarithm_rule(q, ln_a, d), arithmetic)),
                    ]
                },
                BinaryOp::Rem => Seq::empty(),
            }
        },
        Instruction::Compare { op, a, b, .. } => {
            let opposite = evaluated(negated_rule(d), arithmetic);
            match op {
                CompareOp::Lte | CompareOp::Lt => seq![(a, d), (b, opposite)],
                CompareOp::Gte | CompareOp::Gt => seq![(a, opposite), (b, d)],
            }
        },
        Instruction::Combine { how, a, b, .. } => match how {
            Accumulate::Sum => seq![(a, d), (b, d)],
            Accumulate::Prod => seq![
                (a, evaluated(product_rule(d, held(held_in, b)), arithmetic)),
                (b, evaluated(product_rule(d, held(held_in, a)), arithmetic)),
            ],
            Accumulate::Worst => extremum_slopes(arithmetic, held_in, a, b, true, d),
        },
    }
}

/// The first slopes added to the adjoints of their operands.
pub open spec fn slopes_added(
    arithmetic: Arithmetic,
    adjoint: Map<VirtualRegister, Real>,
    slopes: Slopes,
    upto: int,
) -> Map<
    VirtualRegister,
    Real,
>
    decreases upto,
{
    if upto <= 0 {
        adjoint
    } else {
        let before = slopes_added(arithmetic, adjoint, slopes, upto - 1);
        let (source, slope) = slopes[upto - 1];
        if source is Const {
            before
        } else if before.contains_key(source) {
            before.insert(source, arithmetic.plus(before[source], slope))
        } else {
            before.insert(source, slope)
        }
    }
}

/// The adjoints of the values of straight-line code, from instruction `from`
/// on: what reverse accumulation makes of the numbers held.
pub open spec fn adjoints(
    arithmetic: Arithmetic,
    held_in: Map<VirtualRegister, Real>,
    insns: Seq<Instruction<VirtualRegister>>,
    result: VirtualRegister,
    from: int,
) -> Map<VirtualRegister, Real>
    decreases insns.len() - from,
{
    if from < 0 || from >= insns.len() {
        Map::empty().insert(result, one())
    } else {
        let after = adjoints(arithmetic, held_in, insns, result, from + 1);
        match insns[from].written() {
            None => after,
            Some(dst) => if after.contains_key(dst) {
                let pushed = slopes(arithmetic, held_in, insns[from], after[dst]);
                slopes_added(arithmetic, after, pushed, pushed.len() as int)
            } else {
                after
            },
        }
    }
}

// A rule over registers, read off what they hold, is the rule over numbers.

#[verifier::rlimit(80)]
proof fn unary_rule_is_natural(
    state: Lowering,
    held_in: Map<VirtualRegister, Real>,
    op: UnaryOp,
    a: VirtualRegister,
    y: VirtualRegister,
    d: VirtualRegister,
)
    requires
        usable(state, a),
        usable(state, y),
        usable(state, d),
    ensures
        leaves_usable(state, unary_rule(op, a, y, d)),
        valued(unary_rule(op, a, y, d), held_in) == unary_rule(op, held(held_in, a), held(held_in, y), held(held_in, d)),
{
    match op {
        UnaryOp::Negate => {
            reveal_with_fuel(leaves_usable, 6);
            reveal_with_fuel(valued, 6);
        },
        UnaryOp::Sqr => {
            reveal_with_fuel(leaves_usable, 6);
            reveal_with_fuel(valued, 6);
        },
        UnaryOp::Cube => {
            reveal_with_fuel(leaves_usable, 6);
            reveal_with_fuel(valued, 6);
        },
        UnaryOp::Sqrt => {
            reveal_with_fuel(leaves_usable, 6);
            reveal_with_fuel(valued, 6);
        },
        UnaryOp::Cbrt => {
            reveal_with_fuel(leaves_usable, 6);
            reveal_with_fuel(valued, 6);
        },
        UnaryOp::Ln => {
            reveal_with_fuel(leaves_usable, 6);
            reveal_with_fuel(valued, 6);
        },
        UnaryOp::Log10 => {
            reveal_with_fuel(leaves_usable, 6);
            reveal_with_fuel(valued, 6);
        },
        UnaryOp::Sin => {
            reveal_with_fuel(leaves_usable, 6);
            reveal_with_fuel(valued, 6);
        },
        UnaryOp::Cos => {
            reveal_with_fuel(leaves_usable, 6);
            reveal_with_fuel(valued, 6);
        },
        UnaryOp::Tan => {
            reveal_with_fuel(leaves_usable, 6);
            reveal_with_fuel(valued, 6);
        },
        UnaryOp::Cot => {
            reveal_with_fuel(leaves_usable, 6);
            reveal_with_fuel(valued, 6);
        },
        UnaryOp::Asin => {
            reveal_with_fuel(leaves_usable, 6);
            reveal_with_fuel(valued, 6);
        },
        UnaryOp::Acos => {
            reveal_with_fuel(leaves_usable, 6);
            reveal_with_fuel(valued, 6);
        },
        UnaryOp::Atan => {
            reveal_with_fuel(leaves_usable, 6);
            reveal_with_fuel(valued, 6);
        },
        UnaryOp::Sinh => {
            reveal_with_fuel(leaves_usable, 6);
            reveal_with_fuel(valued, 6);
        },
        UnaryOp::Cosh => {
            reveal_with_fuel(leaves_usable, 6);
            reveal_with_fuel(valued, 6);
        },
        UnaryOp::Tanh => {
            reveal_with_fuel(leaves_usable, 6);
            reveal_with_fuel(valued, 6);
        },
        UnaryOp::Abs => {
            reveal_with_fuel(leaves_usable, 6);
            reveal_with_fuel(valued, 6);
        },
        UnaryOp::Ceil => {
            reveal_with_fuel(leaves_usable, 6);
            reveal_with_fuel(valued, 6);
        },
        UnaryOp::Floor => {
            reveal_with_fuel(leaves_usable, 6);
            reveal_with_fuel(valued, 6);
        },
        UnaryOp::Sgn => {
            reveal_with_fuel(leaves_usable, 6);
            reveal_with_fuel(valued, 6);
        },
    }
}

proof fn share_rule_is_natural(
    state: Lowering,
    held_in: Map<VirtualRegister, Real>,
    a: VirtualRegister,
    b: VirtualRegister,
    larger: bool,
)
    requires
        usable(state, a),
        usable(state, b),
    ensures
        leaves_usable(state, share_rule(a, b, larger)),
        valued(share_rule(a, b, larger), held_in) == share_rule(held(held_in, a), held(held_in, b), larger),
{
    reveal_with_fuel(leaves_usable, 6);
    reveal_with_fuel(valued, 6);
}

proof fn negated_rule_is_natural(state: Lowering, held_in: Map<VirtualRegister, Real>, d: VirtualRegister)
    requires
        usable(state, d),
    ensures
        leaves_usable(state, negated_rule(d)),
        valued(negated_rule(d), held_in) == negated_rule(held(held_in, d)),
{
    reveal_with_fuel(leaves_usable, 3);
    reveal_with_fuel(valued, 3);
}

proof fn product_rule_is_natural(
    state: Lowering,
    held_in: Map<VirtualRegister, Real>,
    d: VirtualRegister,
    other: VirtualRegister,
)
    requires
        usable(state, d),
        usable(state, other),
    ensures
        leaves_usable(state, product_rule(d, other)),
        valued(product_rule(d, other), held_in) == product_rule(held(held_in, d), held(held_in, other)),
{
    reveal_with_fuel(leaves_usable, 3);
    reveal_with_fuel(valued, 3);
}

proof fn dividend_rule_is_natural(
    state: Lowering,
    held_in: Map<VirtualRegister, Real>,
    b: VirtualRegister,
    d: VirtualRegister,
)
    requires
        usable(state, b),
        usable(state, d),
    ensures
        leaves_usable(state, dividend_rule(b, d)),
        valued(dividend_rule(b, d), held_in) == dividend_rule(held(held_in, b), held(held_in, d)),
{
    reveal_with_fuel(leaves_usable, 3);
    reveal_with_fuel(valued, 3);
}

proof fn divisor_rule_is_natural(
    state: Lowering,
    held_in: Map<VirtualRegister, Real>,
    b: VirtualRegister,
    y: VirtualRegister,
    d: VirtualRegister,
)
    requires
        usable(state, b),
        usable(state, y),
        usable(state, d),
    ensures
        leaves_usable(state, divisor_rule(b, y, d)),
        valued(divisor_rule(b, y, d), held_in) == divisor_rule(held(held_in, b), held(held_in, y), held(held_in, d)),
{
    reveal_with_fuel(leaves_usable, 5);
    reveal_with_fuel(valued, 5);
}

proof fn base_rule_is_natural(
    state: Lowering,
    held_in: Map<VirtualRegister, Real>,
    a: VirtualRegister,
    b: VirtualRegister,
    d: VirtualRegister,
)
    requires
        usable(state, a),
        usable(state, b),
        usable(state, d),
    ensures
        leaves_usable(state, base_rule(a, b, d)),
        valued(base_rule(a, b, d), held_in) == base_rule(held(held_in, a), held(held_in, b), held(held_in, d)),
{
    reveal_with_fuel(leaves_usable, 6);
    reveal_with_fuel(valued, 6);
}

proof fn exponent_rule_is_natural(
    state: Lowering,
    held_in: Map<VirtualRegister, Real>,
    a: VirtualRegister,
    y: VirtualRegister,
    d: VirtualRegister,
)
    requires
        usable(state, a),
        usable(state, y),
        usable(state, d),
    ensures
        leaves_usable(state, exponent_rule(a, y, d)),
        valued(exponent_rule(a, y, d), held_in) == exponent_rule(held(held_in, a), held(held_in, y), held(held_in, d)),
{
    reveal_with_fuel(leaves_usable, 5);
    reveal_with_fuel(valued, 5);
}

proof fn antilogarithm_rule_is_natural(
    state: Lowering,
    held_in: Map<VirtualRegister, Real>,
    b: VirtualRegister,
    ln_a: VirtualRegister,
    d: VirtualRegister,
)
    requires
        usable(state, b),
        usable(state, ln_a),
        usable(state, d),
    ensures
        leaves_usable(state, antilogarithm_rule(b, ln_a, d)),
        valued(antilogarithm_rule(b, ln_a, d), held_in) == antilogarithm_rule(held(held_in, b), held(held_in, ln_a), held(held_in, d)),
{
    reveal_with_fuel(leaves_usable, 4);
    reveal_with_fuel(valued, 4);
}

proof fn logarithm_base_rule_is_natural(
    state: Lowering,
    held_in: Map<VirtualRegister, Real>,
    a: VirtualRegister,
    ln_a: VirtualRegister,
    y: VirtualRegister,
    d: VirtualRegister,
)
    requires
        usable(state, a),
        usable(state, ln_a),
        usable(state, y),
        usable(state, d),
    ensures
        leaves_usable(state, logarithm_base_rule(a, ln_a, y, d)),
        valued(logarithm_base_rule(a, ln_a, y, d), held_in) == logarithm_base_rule(held(held_in, a), held(held_in, ln_a), held(held_in, y), held(held_in, d)),
{
    reveal_with_fuel(leaves_usable, 6);
    reveal_with_fuel(valued, 6);
}

/// Whether contributions hold slopes.
spec fn hold_slopes(running: Running, state: Lowering, contributions: Contributions, slopes: Slopes) -> bool {
    &&& contributions.len() == slopes.len()
    &&& forall|k: int|
        0 <= k < slopes.len() ==> (#[trigger] contributions[k]).0 == slopes[k].0 && usable(state, contributions[k].1)
            && held(registers(running, state), contributions[k].1) == slopes[k].1
}

proof fn two_terms_compute(
    running: Running,
    state: Lowering,
    first: Term<VirtualRegister>,
    second: Term<VirtualRegister>,
    span: Span,
)
    requires
        runs(running, state),
        leaves_usable(state, first),
        leaves_usable(state, second),
        ({
            let after = term_emitted(term_emitted(state, first, span).0, second, span).0;
            &&& ran(running, after) is Running
            &&& after.pool.is_prefix_of(running.pool)
            &&& after.temps <= u32::MAX
        }),
    ensures
        ({
            let (s1, r1) = term_emitted(state, first, span);
            let (s2, r2) = term_emitted(s1, second, span);
            let arithmetic = running.semantics.arithmetic;
            &&& runs(running, s1)
            &&& runs(running, s2)
            &&& still_held(running, state, s2)
            &&& usable(s2, r1)
            &&& usable(s2, r2)
            &&& held(registers(running, s2), r1) == evaluated(valued(first, registers(running, state)), arithmetic)
            &&& held(registers(running, s2), r2) == evaluated(valued(second, registers(running, state)), arithmetic)
        }),
{
    let (s1, r1) = term_emitted(state, first, span);
    let (s2, r2) = term_emitted(s1, second, span);
    emitting_continues(state, first, span);
    emitting_continues(s1, second, span);
    earlier_ran(running, s1, s2);
    a_term_computes(running, state, first, span);
    usable_stays(state, s1, second);
    a_term_computes(running, s1, second, span);
    same_values(running, state, s1, second);
    assert(held(registers(running, s2), r1) == held(registers(running, s1), r1));
    assert forall|register: VirtualRegister| usable(state, register) implies #[trigger] held(
        registers(running, s2),
        register,
    ) == held(registers(running, state), register) by {
        assert(usable(s1, register));
        assert(held(registers(running, s1), register) == held(registers(running, state), register));
    }
}

proof fn an_extremum_computes(
    running: Running,
    state: Lowering,
    a: VirtualRegister,
    b: VirtualRegister,
    larger: bool,
    d: VirtualRegister,
    span: Span,
)
    requires
        runs(running, state),
        usable(state, a),
        usable(state, b),
        usable(state, d),
        ({
            let after = extremum_pushed(state, a, b, larger, d, span).0;
            &&& ran(running, after) is Running
            &&& after.pool.is_prefix_of(running.pool)
            &&& after.temps <= u32::MAX
        }),
    ensures
        ({
            let (after, contributions) = extremum_pushed(state, a, b, larger, d, span);
            let before = registers(running, state);
            &&& runs(running, after)
            &&& still_held(running, state, after)
            &&& hold_slopes(
                running,
                after,
                contributions,
                extremum_slopes(running.semantics.arithmetic, before, a, b, larger, held(before, d)),
            )
        }),
{
    let (s1, share_a) = term_emitted(state, share_rule(a, b, larger), span);
    let (s2, share_b) = term_emitted(s1, share_rule(a, b, !larger), span);
    let (s3, to_a) = term_emitted(s2, product_rule(d, share_a), span);
    let (s4, to_b) = term_emitted(s3, product_rule(d, share_b), span);
    emitting_continues(state, share_rule(a, b, larger), span);
    emitting_continues(s1, share_rule(a, b, !larger), span);
    emitting_continues(s2, product_rule(d, share_a), span);
    emitting_continues(s3, product_rule(d, share_b), span);
    earlier_ran(running, s2, s4);
    let before = registers(running, state);
    share_rule_is_natural(state, before, a, b, larger);
    share_rule_is_natural(state, before, a, b, !larger);
    two_terms_compute(running, state, share_rule(a, b, larger), share_rule(a, b, !larger), span);
    let middle = registers(running, s2);
    assert(held(middle, d) == held(before, d));
    assert(usable(s2, d));
    product_rule_is_natural(s2, middle, d, share_a);
    product_rule_is_natural(s2, middle, d, share_b);
    two_terms_compute(running, s2, product_rule(d, share_a), product_rule(d, share_b), span);
    held_through(running, state, s2, s4);
}

/// What is pushed through an instruction is the chain rule's.
proof fn a_push_computes(
    running: Running,
    state: Lowering,
    insn: Instruction<VirtualRegister>,
    d: VirtualRegister,
    span: Span,
)
    requires
        runs(running, state),
        usable(state, d),
        insn.written() is Some ==> usable(state, insn.written()->0),
        forall|k: int| 0 <= k < insn.read().len() ==> usable(state, #[trigger] insn.read()[k]),
        ({
            let after = pushed(state, insn, d, span).0;
            &&& ran(running, after) is Running
            &&& after.pool.is_prefix_of(running.pool)
            &&& after.temps <= u32::MAX
        }),
    ensures
        ({
            let (after, contributions) = pushed(state, insn, d, span);
            let before = registers(running, state);
            &&& runs(running, after)
            &&& still_held(running, state, after)
            &&& hold_slopes(
                running,
                after,
                contributions,
                slopes(running.semantics.arithmetic, before, insn, held(before, d)),
            )
        }),
{
    operands(insn);
    assert(forall|k: int| 0 <= k < insn.read().len() ==> usable(state, #[trigger] insn.read()[k]));
    let before = registers(running, state);
    match insn {
        Instruction::Load { .. } | Instruction::Check { .. } | Instruction::Gather { .. } => {},
        Instruction::Copy { src, .. } => {},
        Instruction::Unary { dst, op, a } => {
            assert(usable(state, insn.read()[0]));
            unary_rule_is_natural(state, before, op, a, dst, d);
            a_term_computes(running, state, unary_rule(op, a, dst, d), span);
        },
        Instruction::Binary { dst, op, a, b } => {
            assert(usable(state, insn.read()[0]) && usable(state, insn.read()[1]));
            a_binary_push_computes(running, state, op, a, b, dst, d, span);
        },
        Instruction::Compare { op, a, b, .. } => {
            negated_rule_is_natural(state, before, d);
            a_term_computes(running, state, negated_rule(d), span);
            let (after, opposite) = term_emitted(state, negated_rule(d), span);
            emitting_continues(state, negated_rule(d), span);
            assert(held(registers(running, after), d) == held(before, d));
        },
        Instruction::Combine { how, a, b, .. } => {
            assert(usable(state, insn.read()[0]) && usable(state, insn.read()[1]));
            match how {
                Accumulate::Sum => {},
                Accumulate::Prod => {
                    product_rule_is_natural(state, before, d, b);
                    product_rule_is_natural(state, before, d, a);
                    two_terms_compute(running, state, product_rule(d, b), product_rule(d, a), span);
                },
                Accumulate::Worst => an_extremum_computes(running, state, a, b, true, d, span),
            }
        },
    }
}

proof fn a_binary_push_computes(
    running: Running,
    state: Lowering,
    op: BinaryOp,
    a: VirtualRegister,
    b: VirtualRegister,
    y: VirtualRegister,
    d: VirtualRegister,
    span: Span,
)
    requires
        runs(running, state),
        usable(state, a),
        usable(state, b),
        usable(state, y),
        usable(state, d),
        ({
            let after = binary_pushed(state, op, a, b, y, d, span).0;
            &&& ran(running, after) is Running
            &&& after.pool.is_prefix_of(running.pool)
            &&& after.temps <= u32::MAX
        }),
    ensures
        ({
            let (after, contributions) = binary_pushed(state, op, a, b, y, d, span);
            let before = registers(running, state);
            let insn = Instruction::Binary { dst: y, op, a, b };
            &&& runs(running, after)
            &&& still_held(running, state, after)
            &&& hold_slopes(
                running,
                after,
                contributions,
                slopes(running.semantics.arithmetic, before, insn, held(before, d)),
            )
        }),
{
    let before = registers(running, state);
    match op {
        BinaryOp::Add | BinaryOp::Rem => {},
        BinaryOp::Sub => {
            negated_rule_is_natural(state, before, d);
            assert(leaves_usable(state, Term::Leaf(d)));
            assert(valued(Term::Leaf(d), before) == Term::Leaf(held(before, d)));
            two_terms_compute(running, state, Term::Leaf(d), negated_rule(d), span);
        },
        BinaryOp::Mul => {
            product_rule_is_natural(state, before, d, b);
            product_rule_is_natural(state, before, d, a);
            two_terms_compute(running, state, product_rule(d, b), product_rule(d, a), span);
        },
        BinaryOp::Div => {
            dividend_rule_is_natural(state, before, b, d);
            divisor_rule_is_natural(state, before, b, y, d);
            two_terms_compute(running, state, dividend_rule(b, d), divisor_rule(b, y, d), span);
        },
        BinaryOp::Pow => {
            base_rule_is_natural(state, before, a, b, d);
            if b is Const {
                a_term_computes(running, state, base_rule(a, b, d), span);
            } else {
                exponent_rule_is_natural(state, before, a, y, d);
                two_terms_compute(running, state, base_rule(a, b, d), exponent_rule(a, y, d), span);
            }
        },
        BinaryOp::Max => an_extremum_computes(running, state, a, b, true, d, span),
        BinaryOp::Min => an_extremum_computes(running, state, a, b, false, d, span),
        BinaryOp::LogB => a_logarithm_computes(running, state, a, b, y, d, span),
    }
}

proof fn a_logarithm_computes(
    running: Running,
    state: Lowering,
    a: VirtualRegister,
    b: VirtualRegister,
    y: VirtualRegister,
    d: VirtualRegister,
    span: Span,
)
    requires
        runs(running, state),
        usable(state, a),
        usable(state, b),
        usable(state, y),
        usable(state, d),
        ({
            let after = binary_pushed(state, BinaryOp::LogB, a, b, y, d, span).0;
            &&& ran(running, after) is Running
            &&& after.pool.is_prefix_of(running.pool)
            &&& after.temps <= u32::MAX
        }),
    ensures
        ({
            let (after, contributions) = binary_pushed(state, BinaryOp::LogB, a, b, y, d, span);
            let before = registers(running, state);
            let insn = Instruction::Binary { dst: y, op: BinaryOp::LogB, a, b };
            &&& runs(running, after)
            &&& still_held(running, state, after)
            &&& hold_slopes(
                running,
                after,
                contributions,
                slopes(running.semantics.arithmetic, before, insn, held(before, d)),
            )
        }),
{
    let first = *applied(UnaryOp::Ln, leaf(a));
    let (s1, ln_a) = term_emitted(state, first, span);
    let to_b = antilogarithm_rule(b, ln_a, d);
    let (s2, at_b) = term_emitted(s1, to_b, span);
    let to_a = logarithm_base_rule(a, ln_a, y, d);
    let (s3, at_a) = term_emitted(s2, to_a, span);
    emitting_continues(state, first, span);
    emitting_continues(s1, to_b, span);
    emitting_continues(s2, to_a, span);
    earlier_ran(running, s1, s3);
    let before = registers(running, state);
    assert(leaves_usable(state, first) && valued(first, before) == *applied(UnaryOp::Ln, leaf(held(before, a)))) by {
        reveal_with_fuel(leaves_usable, 2);
        reveal_with_fuel(valued, 2);
    }
    a_term_computes(running, state, first, span);
    assert(evaluated(valued(first, before), running.semantics.arithmetic) == UnaryOp::Ln.value(
        running.semantics.arithmetic,
        held(before, a),
    )) by {
        reveal_with_fuel(evaluated, 2);
    }
    let middle = registers(running, s1);
    assert(held(middle, ln_a) == UnaryOp::Ln.value(running.semantics.arithmetic, held(before, a)));
    assert(usable(s1, a) && usable(s1, b) && usable(s1, y) && usable(s1, d));
    assert(held(middle, a) == held(before, a));
    assert(held(middle, b) == held(before, b));
    assert(held(middle, y) == held(before, y));
    assert(held(middle, d) == held(before, d));
    antilogarithm_rule_is_natural(s1, middle, b, ln_a, d);
    logarithm_base_rule_is_natural(s1, middle, a, ln_a, y, d);
    two_terms_compute(running, s1, to_b, to_a, span);
    held_through(running, state, s1, s3);
}

/// Whether the adjoint registers hold the adjoints.
spec fn hold_adjoints(running: Running, sweeping: Sweeping, adjoint: Map<VirtualRegister, Real>) -> bool {
    forall|register: VirtualRegister|
        (#[trigger] sweeping.adjoint.contains_key(register) <==> adjoint.contains_key(register)) && (
        sweeping.adjoint.contains_key(register) ==> usable(sweeping.state, sweeping.adjoint[register]) && held(
            registers(running, sweeping.state),
            sweeping.adjoint[register],
        ) == adjoint[register])
}

proof fn accumulating_computes(
    running: Running,
    sweeping: Sweeping,
    contributions: Contributions,
    span: Span,
    adjoint: Map<VirtualRegister, Real>,
    slopes: Slopes,
    upto: int,
)
    requires
        0 <= upto <= contributions.len(),
        runs(running, sweeping.state),
        hold_adjoints(running, sweeping, adjoint),
        hold_slopes(running, sweeping.state, contributions, slopes),
        ({
            let after = accumulated(sweeping, contributions, span, upto).state;
            &&& ran(running, after) is Running
            &&& after.pool.is_prefix_of(running.pool)
            &&& after.temps <= u32::MAX
        }),
    ensures
        ({
            let after = accumulated(sweeping, contributions, span, upto);
            &&& runs(running, after.state)
            &&& still_held(running, sweeping.state, after.state)
            &&& hold_adjoints(
                running,
                after,
                slopes_added(running.semantics.arithmetic, adjoint, slopes, upto),
            )
        }),
    decreases upto,
{
    if upto > 0 {
        let arithmetic = running.semantics.arithmetic;
        let before = accumulated(sweeping, contributions, span, upto - 1);
        let after = accumulated(sweeping, contributions, span, upto);
        let (source, contribution) = contributions[upto - 1];
        let values = slopes_added(arithmetic, adjoint, slopes, upto - 1);
        let next_values = slopes_added(arithmetic, adjoint, slopes, upto);
        accumulating_continues(sweeping, contributions, span, upto - 1, upto);
        accumulating_continues(sweeping, contributions, span, 0, upto - 1);
        earlier_ran(running, before.state, after.state);
        accumulating_computes(running, sweeping, contributions, span, adjoint, slopes, upto - 1);
        assert(contributions[upto - 1].0 == slopes[upto - 1].0);
        assert(usable(before.state, contribution));
        assert(held(registers(running, before.state), contribution) == slopes[upto - 1].1) by {
            assert(held(registers(running, before.state), contribution) == held(
                registers(running, sweeping.state),
                contribution,
            ));
        }
        assert(before.adjoint.contains_key(source) <==> values.contains_key(source));
        if !(source is Const) && before.adjoint.contains_key(source) {
            let so_far = before.adjoint[source];
            let sum = *joined(BinaryOp::Add, leaf(so_far), leaf(contribution));
            reveal_with_fuel(leaves_usable, 3);
            reveal_with_fuel(valued, 3);
            reveal_with_fuel(evaluated, 3);
            a_term_computes(running, before.state, sum, span);
            assert forall|register: VirtualRegister|
                (#[trigger] after.adjoint.contains_key(register) <==> next_values.contains_key(register)) && (
                after.adjoint.contains_key(register) ==> usable(after.state, after.adjoint[register]) && held(
                    registers(running, after.state),
                    after.adjoint[register],
                ) == next_values[register]) by {
                assert(before.adjoint.contains_key(register) <==> values.contains_key(register));
                if register != source && before.adjoint.contains_key(register) {
                    assert(usable(before.state, before.adjoint[register]));
                    assert(held(registers(running, after.state), before.adjoint[register]) == held(
                        registers(running, before.state),
                        before.adjoint[register],
                    ));
                }
            }
        } else {
            assert forall|register: VirtualRegister|
                (#[trigger] after.adjoint.contains_key(register) <==> next_values.contains_key(register)) && (
                after.adjoint.contains_key(register) ==> usable(after.state, after.adjoint[register]) && held(
                    registers(running, after.state),
                    after.adjoint[register],
                ) == next_values[register]) by {
                assert(before.adjoint.contains_key(register) <==> values.contains_key(register));
            }
        }
        assert forall|register: VirtualRegister| usable(sweeping.state, register) implies #[trigger] held(
            registers(running, after.state),
            register,
        ) == held(registers(running, sweeping.state), register) by {
            assert(usable(before.state, register));
            assert(held(registers(running, before.state), register) == held(
                registers(running, sweeping.state),
                register,
            ));
        }
    }
}

/// Slopes look only at what the instruction mentions.
proof fn same_slopes(
    running: Running,
    a: Lowering,
    b: Lowering,
    insn: Instruction<VirtualRegister>,
    d: Real,
)
    requires
        still_held(running, a, b),
        insn.written() is Some ==> usable(a, insn.written()->0),
        forall|k: int| 0 <= k < insn.read().len() ==> usable(a, #[trigger] insn.read()[k]),
    ensures
        slopes(running.semantics.arithmetic, registers(running, a), insn, d) == slopes(
            running.semantics.arithmetic,
            registers(running, b),
            insn,
            d,
        ),
{
    operands(insn);
    assert forall|k: int| 0 <= k < insn.read().len() implies held(registers(running, b), #[trigger] insn.read()[k])
        == held(registers(running, a), insn.read()[k]) by {
        assert(usable(a, insn.read()[k]));
    }
}

proof fn sweeping_computes(
    running: Running,
    start: Sweeping,
    insns: Seq<Instruction<VirtualRegister>>,
    spans: Seq<Span>,
    result: VirtualRegister,
    from: int,
)
    requires
        0 <= from <= insns.len(),
        runs(running, start.state),
        hold_adjoints(running, start, Map::empty().insert(result, one())),
        forall|i: int|
            0 <= i < insns.len() ==> ((#[trigger] insns[i]).written() is Some ==> usable(start.state, insns[i].written()->0)),
        forall|i: int, k: int|
            0 <= i < insns.len() && 0 <= k < insns[i].read().len() ==> usable(start.state, #[trigger] insns[i].read()[k]),
        ({
            let after = swept_from(start, insns, spans, from).state;
            &&& ran(running, after) is Running
            &&& after.pool.is_prefix_of(running.pool)
            &&& after.temps <= u32::MAX
        }),
    ensures
        ({
            let after = swept_from(start, insns, spans, from);
            &&& runs(running, after.state)
            &&& still_held(running, start.state, after.state)
            &&& hold_adjoints(
                running,
                after,
                adjoints(
                    running.semantics.arithmetic,
                    registers(running, start.state),
                    insns,
                    result,
                    from,
                ),
            )
        }),
    decreases insns.len() - from,
{
    if from < insns.len() {
        let arithmetic = running.semantics.arithmetic;
        let before = swept_from(start, insns, spans, from + 1);
        let after = swept_from(start, insns, spans, from);
        let insn = insns[from];
        let span = spans[from];
        sweeping_continues(start, insns, spans, insns.len() as int, from + 1);
        sweeping_one_continues(before, insn, span);
        earlier_ran(running, before.state, after.state);
        sweeping_computes(running, start, insns, spans, result, from + 1);
        let values = adjoints(arithmetic, registers(running, start.state), insns, result, from + 1);
        if insn.written() is Some {
            let dst = insn.written()->0;
            assert(before.adjoint.contains_key(dst) <==> values.contains_key(dst));
            if before.adjoint.contains_key(dst) {
                let d = before.adjoint[dst];
                let (next, contributions) = pushed(before.state, insn, d, span);
                let pushing = Sweeping { state: next, ..before };
                pushing_continues(before.state, insn, d, span);
                accumulating_continues(pushing, contributions, span, 0, contributions.len() as int);
                earlier_ran(running, next, after.state);
                assert forall|k: int| 0 <= k < insn.read().len() implies usable(before.state, #[trigger] insn.read()[k]) by {
                    assert(usable(start.state, insns[from].read()[k]));
                }
                a_push_computes(running, before.state, insn, d, span);
                same_slopes(running, start.state, before.state, insn, values[dst]);
                let given = slopes(arithmetic, registers(running, start.state), insn, values[dst]);
                assert forall|register: VirtualRegister|
                    (#[trigger] pushing.adjoint.contains_key(register) <==> values.contains_key(register)) && (
                    pushing.adjoint.contains_key(register) ==> usable(next, pushing.adjoint[register]) && held(
                        registers(running, next),
                        pushing.adjoint[register],
                    ) == values[register]) by {
                    assert(before.adjoint.contains_key(register) <==> values.contains_key(register));
                    if before.adjoint.contains_key(register) {
                        assert(usable(before.state, before.adjoint[register]));
                        assert(held(registers(running, next), before.adjoint[register]) == held(
                            registers(running, before.state),
                            before.adjoint[register],
                        ));
                    }
                }
                accumulating_computes(
                    running,
                    pushing,
                    contributions,
                    span,
                    values,
                    given,
                    contributions.len() as int,
                );
                assert forall|register: VirtualRegister| usable(start.state, register) implies #[trigger] held(
                    registers(running, after.state),
                    register,
                ) == held(registers(running, start.state), register) by {
                    assert(usable(before.state, register));
                    assert(usable(next, register));
                    assert(held(registers(running, before.state), register) == held(
                        registers(running, start.state),
                        register,
                    ));
                    assert(held(registers(running, next), register) == held(
                        registers(running, before.state),
                        register,
                    ));
                }
            }
        }
    }
}

/// What the derivative tape computes. Where it runs to its end on a row, its
/// result is the primal's value, and the partial by each row is the adjoint
/// that reverse accumulation of the chain rule gives the load of that row, or
/// zero where the row is never loaded or does not reach the result.
pub proof fn the_partials_are_the_adjoints(
    tape: VirtualTape,
    primal: VirtualTape,
    positions: Seq<u32>,
    semantics: Semantics,
    row: Seq<Real>,
    s: int,
)
    requires
        is_derivative(tape, primal, positions),
        primal.spans@.len() == primal.insns@.len(),
        primal.temps + writes(primal.insns@) <= u32::MAX,
        fits_a_tape(sweep_end(primal).state),
        fits(primal.result, primal.consts@.len() as int, primal.locals as int, primal.temps as int),
        forall|i: int|
            0 <= i < primal.insns@.len() ==> all_fit(
                #[trigger] primal.insns@[i],
                primal.consts@.len() as int,
                primal.locals as int,
                primal.temps as int,
            ),
        run(tape.insns@, semantics, row, primed(tape.consts@)) is Running,
        0 <= s < positions.len(),
    ensures
        ({
            let done = renaming(primal.insns@, primal.temps as int);
            let end = run(tape.insns@, semantics, row, primed(tape.consts@))->Running_0;
            let before = run(primal.insns@, semantics, row, primed(tape.consts@));
            let all = adjoints(
                semantics.arithmetic,
                run(done.insns, semantics, row, primed(tape.consts@))->Running_0,
                done.insns,
                tape.result,
                0,
            );
            &&& before is Running
            &&& held(end, tape.result) == held(before->Running_0, primal.result)
            &&& held(end, tape.partials@[s]) == (match load_of(done.insns, positions[s], 0) {
                Some(dst) => if all.contains_key(dst) {
                    all[dst]
                } else {
                    zero()
                },
                None => zero(),
            })
        }),
{
    let pool = primal.consts@.len() as int;
    let locals = primal.locals as int;
    let temps = primal.temps as int;
    let done = renaming(primal.insns@, temps);
    let running = Running { semantics, row, pool: tape.consts@ };
    let start = sweep_start(primal);
    let last = swept_from(start, done.insns, primal.spans@, 0);
    let end = sweep_end(primal);
    let result = latest(done.version, primal.result);
    let plain = Lowering {
        pool: primal.consts@,
        temps: done.temps,
        insns: done.insns,
        spans: primal.spans@,
        loads: Seq::empty(),
        assigned: Seq::empty(),
    };
    pooling_continues(plain, one());
    pooling_continues(last.state, zero());
    sweeping_continues(start, done.insns, primal.spans@, done.insns.len() as int, 0);
    renaming_stays_in_range(primal.insns@, pool, locals, temps);
    assert(ran(running, end.state) is Running);
    earlier_ran(running, last.state, end.state);
    earlier_ran(running, start.state, last.state);
    // The constants are in place throughout: nothing of the primal writes one.
    let began = registers(running, start.state);
    assert forall|i: u16| i < running.pool.len() implies #[trigger] held(began, VirtualRegister::Const(i))
        == running.pool[i as int] by {
        assert forall|j: int| 0 <= j < done.insns.len() implies (#[trigger] done.insns[j]).written() != Some(
            VirtualRegister::Const(i),
        ) by {
            assert(done.insns[j].written() is Some ==> done.insns[j].written()->0 is Temp);
        }
        held_to_the_end(
            done.insns,
            semantics,
            row,
            primed(running.pool),
            0,
            VirtualRegister::Const(i),
        );
        assert(done.insns.take(0) =~= Seq::empty());
    }
    assert(start.state.pool.is_prefix_of(running.pool));
    assert(runs(running, start.state));
    let unit = pool_register(start.state.pool, one());
    let at = start.state.pool.index_of(one());
    assert(0 <= at < start.state.pool.len() && start.state.pool[at] == one());
    assert(held(began, VirtualRegister::Const(at as u16)) == running.pool[at]);
    assert(hold_adjoints(running, start, Map::empty().insert(result, one())));
    assert forall|i: int| 0 <= i < done.insns.len() implies ((#[trigger] done.insns[i]).written() is Some ==> usable(
        start.state,
        done.insns[i].written()->0,
    )) by {
        assert(all_fit(done.insns[i], pool, locals, done.temps));
    }
    assert forall|i: int, k: int| 0 <= i < done.insns.len() && 0 <= k < done.insns[i].read().len() implies usable(
        start.state,
        #[trigger] done.insns[i].read()[k],
    ) by {
        assert(all_fit(done.insns[i], pool, locals, done.temps));
        assert(fits(done.insns[i].read()[k], pool, locals, done.temps));
    }
    sweeping_computes(running, start, done.insns, primal.spans@, result, 0);
    assert forall|i: int| 0 <= i < primal.insns@.len() implies numbered(#[trigger] primal.insns@[i], temps) by {
        assert(all_fit(primal.insns@[i], pool, locals, temps));
        assert forall|k: int| 0 <= k < primal.insns@[i].read().len() implies below(
            #[trigger] primal.insns@[i].read()[k],
            temps,
        ) by {
            assert(fits(primal.insns@[i].read()[k], pool, locals, temps));
        }
    }
    renaming_computes_the_same(primal.insns@, temps, semantics, row, primed(running.pool));
    assert(registers(running, end.state) == registers(running, last.state));
    assert(usable(start.state, result)) by {
        assert(fits(latest(done.version, primal.result), pool, locals, done.temps));
    }
    assert(held(registers(running, last.state), result) == held(began, result));
    // Zero, for what is never loaded.
    let none = end.state.pool.index_of(zero());
    assert(0 <= none < end.state.pool.len() && end.state.pool[none] == zero());
    assert(held(registers(running, last.state), VirtualRegister::Const(none as u16)) == running.pool[none]);
    match load_of(done.insns, positions[s], 0) {
        Some(dst) => {
            let all = adjoints(semantics.arithmetic, began, done.insns, result, 0);
            assert(last.adjoint.contains_key(dst) <==> all.contains_key(dst));
        },
        None => {},
    }
}

} // verus!
