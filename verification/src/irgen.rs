//! Lowering: a [`Program`] to a [`VirtualTape`], one post-order walk emitting
//! instructions in exactly the order a walk of the tree evaluates nodes, so
//! that a fault lands on the same span and a fold accumulates in the same
//! order.
//!
//! Literals become constant registers, local slots become local registers
//! one-to-one, and everything else is a temporary.

use vstd::prelude::*;
use crate::ast::{Assignment, BinaryOp, Block, CompareOp, Expr, Kind, LocalSlot, Program};
use crate::diagnostics::Span;
use crate::number::Real;
use crate::tape::{interned, pool_register, Accumulate, Constants, Instruction, VirtualRegister, VirtualTape};

verus! {

/// A tape under construction.
pub ghost struct Lowering {
    /// The constants asked for so far, each once.
    pub pool: Seq<Real>,
    /// The temporaries minted so far.
    pub temps: int,
    pub insns: Seq<Instruction<VirtualRegister>>,
    pub spans: Seq<Span>,
    /// Which register already holds which row.
    pub loads: Seq<(u32, VirtualRegister)>,
    /// Which local slots are written.
    pub assigned: Seq<bool>,
}

impl Lowering {
    pub open spec fn emitted(self, insn: Instruction<VirtualRegister>, span: Span) -> Lowering {
        Lowering { insns: self.insns.push(insn), spans: self.spans.push(span), ..self }
    }

    pub open spec fn pooled(self, value: Real) -> Lowering {
        Lowering { pool: interned(self.pool, value), ..self }
    }

    /// A temporary nothing has written yet.
    pub open spec fn fresh(self) -> (Lowering, VirtualRegister) {
        (Lowering { temps: self.temps + 1, ..self }, VirtualRegister::Temp(self.temps as u32))
    }

    /// The destination asked for, or a fresh one.
    pub open spec fn target(self, dst: Option<VirtualRegister>) -> (Lowering, VirtualRegister) {
        match dst {
            Some(dst) => (self, dst),
            None => self.fresh(),
        }
    }

    /// A value that already lives in a register, delivered to the destination
    /// asked for, if any.
    pub open spec fn placed(self, value: VirtualRegister, dst: Option<VirtualRegister>, span: Span) -> (
        Lowering,
        VirtualRegister,
    ) {
        match dst {
            Some(dst) => if dst != value {
                (self.emitted(Instruction::Copy { dst, src: value }, span), dst)
            } else {
                (self, value)
            },
            None => (self, value),
        }
    }

    /// Whether a row has been loaded.
    pub open spec fn has_loaded(self, input: u32) -> bool {
        exists|i: int| 0 <= i < self.loads.len() && (#[trigger] self.loads[i]).0 == input
    }

    /// The register of a loaded row.
    pub open spec fn loaded_in(self, input: u32) -> VirtualRegister {
        self.loads[load_index(self.loads, input)].1
    }

    /// A row, loaded on its first use.
    pub open spec fn loaded(self, input: u32, span: Span) -> (Lowering, VirtualRegister) {
        if self.has_loaded(input) {
            (self, self.loaded_in(input))
        } else {
            let (next, dst) = self.fresh();
            let next = next.emitted(Instruction::Load { dst, input }, span);
            (Lowering { loads: next.loads.push((input, dst)), ..next }, dst)
        }
    }
}

/// Where a row is in a list of loads.
pub open spec fn load_index(loads: Seq<(u32, VirtualRegister)>, input: u32) -> int {
    choose|i: int| 0 <= i < loads.len() && (#[trigger] loads[i]).0 == input
}

pub open spec fn local_register(slot: LocalSlot) -> VirtualRegister {
    VirtualRegister::Local(slot.0 as u16)
}

/// The instructions of a near equality, once its operands are in `a` and `b`:
/// bracket `b` by the tolerance, compare `a` against each end, and take the
/// worse residual.
pub open spec fn lower_near(
    state: Lowering,
    a: VirtualRegister,
    b: VirtualRegister,
    tolerance: Real,
    dst: Option<VirtualRegister>,
    span: Span,
) -> (Lowering, VirtualRegister) {
    let state = state.pooled(tolerance);
    let margin = pool_register(state.pool, tolerance);
    let (state, floor) = state.fresh();
    let state = state.emitted(Instruction::Binary { dst: floor, op: BinaryOp::Sub, a: b, b: margin }, span);
    let (state, ceiling) = state.fresh();
    let state = state.emitted(Instruction::Binary { dst: ceiling, op: BinaryOp::Add, a: b, b: margin }, span);
    let (state, at_least) = state.fresh();
    let state = state.emitted(Instruction::Compare { dst: at_least, op: CompareOp::Gte, a, b: floor }, span);
    let (state, at_most) = state.fresh();
    let state = state.emitted(Instruction::Compare { dst: at_most, op: CompareOp::Lte, a, b: ceiling }, span);
    let (state, dst) = state.target(dst);
    (
        state.emitted(
            Instruction::Combine { dst, how: Accumulate::Worst, a: at_least, b: at_most, last: true },
            span,
        ),
        dst,
    )
}

/// The tape once `e` has been lowered onto it, into `dst` if given, and the
/// register that holds the value.
pub open spec fn lower(e: Expr, positions: Seq<u32>, dst: Option<VirtualRegister>, state: Lowering) -> (
    Lowering,
    VirtualRegister,
)
    decreases e, 0nat,
{
    let span = e.span;
    match e.kind {
        Kind::Literal(value) => {
            let state = state.pooled(value);
            state.placed(pool_register(state.pool, value), dst, span)
        },
        Kind::Global(id) => {
            let (state, register) = state.loaded(positions[id.0 as int], span);
            state.placed(register, dst, span)
        },
        Kind::Local(slot) => {
            let register = local_register(slot);
            let state = if state.assigned[slot.0 as int] {
                state
            } else {
                state.emitted(Instruction::Check { reg: register }, span)
            };
            state.placed(register, dst, span)
        },
        Kind::DynamicIndex(subscript) => {
            let (state, index) = lower(*subscript, positions, None, state);
            let (state, dst) = state.target(dst);
            (state.emitted(Instruction::Gather { dst, index, subscript: subscript.span }, span), dst)
        },
        Kind::Unary { op, arg } => {
            let (state, a) = lower(*arg, positions, None, state);
            let (state, dst) = state.target(dst);
            (state.emitted(Instruction::Unary { dst, op, a }, span), dst)
        },
        Kind::Binary { op, lhs, rhs } => {
            let (state, a) = lower(*lhs, positions, None, state);
            let (state, b) = lower(*rhs, positions, None, state);
            let (state, dst) = state.target(dst);
            (state.emitted(Instruction::Binary { dst, op, a, b }, span), dst)
        },
        Kind::Compare { op, lhs, rhs } => {
            let (state, a) = lower(*lhs, positions, None, state);
            let (state, b) = lower(*rhs, positions, None, state);
            let (state, dst) = state.target(dst);
            (state.emitted(Instruction::Compare { dst, op, a, b }, span), dst)
        },
        Kind::NearEq { lhs, rhs, tolerance } => {
            let (state, a) = lower(*lhs, positions, None, state);
            let (state, b) = lower(*rhs, positions, None, state);
            lower_near(state, a, b, tolerance, dst, span)
        },
        Kind::Fold { kind, terms } => lower_fold(terms@, Accumulate::from_aggregate(kind), positions, dst, span, state),
        Kind::And { terms } => lower_fold(terms@, Accumulate::Worst, positions, dst, span, state),
        Kind::Block(block) => lower_block(*block, positions, dst, state),
        Kind::Aggregate { .. } => (state, VirtualRegister::Temp(0)),
    }
}

/// A fold: left to right from the identity, one `Combine` per term, checked
/// only on the last.
pub open spec fn lower_fold(
    terms: Seq<Expr>,
    how: Accumulate,
    positions: Seq<u32>,
    dst: Option<VirtualRegister>,
    span: Span,
    state: Lowering,
) -> (Lowering, VirtualRegister)
    decreases terms, 1nat,
{
    let state = state.pooled(how.identity());
    let identity = pool_register(state.pool, how.identity());
    if terms.len() == 0 {
        state.placed(identity, dst, span)
    } else {
        let (state, accumulator) = state.target(dst);
        (lower_terms(terms, terms.len() as int, how, positions, identity, accumulator, span, state), accumulator)
    }
}

/// The first terms of a fold of `count`.
pub open spec fn lower_terms(
    terms: Seq<Expr>,
    count: int,
    how: Accumulate,
    positions: Seq<u32>,
    identity: VirtualRegister,
    accumulator: VirtualRegister,
    span: Span,
    state: Lowering,
) -> Lowering
    decreases terms, 0nat,
{
    if terms.len() == 0 {
        state
    } else {
        let before = lower_terms(
            terms.drop_last(),
            count,
            how,
            positions,
            identity,
            accumulator,
            span,
            state,
        );
        let (state, b) = lower(terms.last(), positions, None, before);
        state.emitted(
            Instruction::Combine {
                dst: accumulator,
                how,
                a: if terms.len() == 1 {
                    identity
                } else {
                    accumulator
                },
                b,
                last: terms.len() == count,
            },
            span,
        )
    }
}

/// Each assignment lowered into its own slot.
pub open spec fn lower_assignments(assignments: Seq<Assignment>, positions: Seq<u32>, state: Lowering) -> Lowering
    decreases assignments, 0nat,
{
    if assignments.len() == 0 {
        state
    } else {
        let before = lower_assignments(assignments.drop_last(), positions, state);
        let assignment = assignments.last();
        let state = lower(assignment.value, positions, Some(local_register(assignment.slot)), before).0;
        Lowering { assigned: state.assigned.update(assignment.slot.0 as int, true), ..state }
    }
}

pub open spec fn lower_block(
    block: Block,
    positions: Seq<u32>,
    dst: Option<VirtualRegister>,
    state: Lowering,
) -> (Lowering, VirtualRegister)
    decreases block, 0nat,
{
    lower(block.result, positions, dst, lower_assignments(block.assignments@, positions, state))
}

/// Nothing emitted yet, for a frame of `locals` slots.
pub open spec fn blank(locals: nat) -> Lowering {
    Lowering {
        pool: Seq::empty(),
        temps: 0,
        insns: Seq::empty(),
        spans: Seq::empty(),
        loads: Seq::empty(),
        assigned: Seq::new(locals, |i: int| false),
    }
}

/// A program lowered.
pub open spec fn lowered(program: Program, positions: Seq<u32>) -> (Lowering, VirtualRegister) {
    lower_block(program.body, positions, None, blank(program.frame_size as nat))
}

impl Expr {
    /// Whether the expression can be lowered: its globals among `symbols`, its
    /// slots below `frame`, and no aggregate left in it.
    pub open spec fn lowerable(self, symbols: int, frame: int) -> bool
        decreases self,
    {
        match self.kind {
            Kind::Literal(_) => true,
            Kind::Global(id) => id.0 < symbols,
            Kind::Local(slot) => slot.0 < frame,
            Kind::Unary { arg, .. } => arg.lowerable(symbols, frame),
            Kind::DynamicIndex(arg) => arg.lowerable(symbols, frame),
            Kind::Binary { lhs, rhs, .. } => lhs.lowerable(symbols, frame) && rhs.lowerable(symbols, frame),
            Kind::Compare { lhs, rhs, .. } => lhs.lowerable(symbols, frame) && rhs.lowerable(symbols, frame),
            Kind::NearEq { lhs, rhs, .. } => lhs.lowerable(symbols, frame) && rhs.lowerable(symbols, frame),
            Kind::And { terms } => forall|i: int|
                0 <= i < terms@.len() ==> (#[trigger] terms@[i]).lowerable(symbols, frame),
            Kind::Fold { terms, .. } => forall|i: int|
                0 <= i < terms@.len() ==> (#[trigger] terms@[i]).lowerable(symbols, frame),
            Kind::Block(block) => block.lowerable(symbols, frame),
            Kind::Aggregate { .. } => false,
        }
    }
}

impl Block {
    pub open spec fn lowerable(self, symbols: int, frame: int) -> bool
        decreases self,
    {
        &&& forall|i: int|
            0 <= i < self.assignments@.len() ==> (#[trigger] self.assignments@[i]).slot.0 < frame
                && self.assignments@[i].value.lowerable(symbols, frame)
        &&& self.result.lowerable(symbols, frame)
    }
}

/// Whether `later` continues `earlier`: nothing taken back.
pub open spec fn continues(earlier: Lowering, later: Lowering) -> bool {
    &&& earlier.pool.is_prefix_of(later.pool)
    &&& earlier.temps <= later.temps
    &&& earlier.insns.is_prefix_of(later.insns)
    &&& earlier.spans.is_prefix_of(later.spans)
    &&& earlier.loads.is_prefix_of(later.loads)
    &&& earlier.insns.len() == earlier.spans.len() ==> later.insns.len() == later.spans.len()
    &&& earlier.pool.no_duplicates() ==> later.pool.no_duplicates()
}

proof fn continuing_is_transitive(a: Lowering, b: Lowering, c: Lowering)
    requires
        continues(a, b),
        continues(b, c),
    ensures
        continues(a, c),
{
}

pub proof fn pooling_continues(state: Lowering, value: Real)
    ensures
        continues(state, state.pooled(value)),
        state.pooled(value).pool.contains(value),
{
    if !state.pool.contains(value) {
        assert(state.pool.push(value)[state.pool.len() as int] == value);
        if state.pool.no_duplicates() {
            let next = state.pool.push(value);
            assert forall|i: int, j: int| 0 <= i < next.len() && 0 <= j < next.len() && i != j implies next[i] != next[j] by {
                if i < state.pool.len() && j < state.pool.len() {
                } else if i < state.pool.len() {
                    assert(state.pool.contains(state.pool[i]));
                } else {
                    assert(state.pool.contains(state.pool[j]));
                }
            }
        }
    }
}

/// Lowering only adds.
pub proof fn lowering_continues(e: Expr, positions: Seq<u32>, dst: Option<VirtualRegister>, state: Lowering)
    ensures
        continues(state, lower(e, positions, dst, state).0),
    decreases e, 0nat,
{
    match e.kind {
        Kind::Literal(value) => pooling_continues(state, value),
        Kind::Global(_) | Kind::Local(_) | Kind::Aggregate { .. } => {},
        Kind::DynamicIndex(subscript) => lowering_continues(*subscript, positions, None, state),
        Kind::Unary { arg, .. } => lowering_continues(*arg, positions, None, state),
        Kind::Binary { lhs, rhs, .. } => {
            lowering_continues(*lhs, positions, None, state);
            lowering_continues(*rhs, positions, None, lower(*lhs, positions, None, state).0);
        },
        Kind::Compare { lhs, rhs, .. } => {
            lowering_continues(*lhs, positions, None, state);
            lowering_continues(*rhs, positions, None, lower(*lhs, positions, None, state).0);
        },
        Kind::NearEq { lhs, rhs, tolerance } => {
            lowering_continues(*lhs, positions, None, state);
            let middle = lower(*lhs, positions, None, state).0;
            lowering_continues(*rhs, positions, None, middle);
            pooling_continues(lower(*rhs, positions, None, middle).0, tolerance);
        },
        Kind::Fold { kind, terms } => fold_continues(
            terms@,
            Accumulate::from_aggregate(kind),
            positions,
            dst,
            e.span,
            state,
        ),
        Kind::And { terms } => fold_continues(terms@, Accumulate::Worst, positions, dst, e.span, state),
        Kind::Block(block) => {
            block_continues(*block, positions, dst, state);
        },
    }
}

pub proof fn fold_continues(
    terms: Seq<Expr>,
    how: Accumulate,
    positions: Seq<u32>,
    dst: Option<VirtualRegister>,
    span: Span,
    state: Lowering,
)
    ensures
        continues(state, lower_fold(terms, how, positions, dst, span, state).0),
    decreases terms, 1nat,
{
    let pooled = state.pooled(how.identity());
    pooling_continues(state, how.identity());
    if terms.len() > 0 {
        let (aimed, accumulator) = pooled.target(dst);
        terms_continue(
            terms,
            terms.len() as int,
            how,
            positions,
            pool_register(pooled.pool, how.identity()),
            accumulator,
            span,
            aimed,
        );
    }
}

pub proof fn terms_continue(
    terms: Seq<Expr>,
    count: int,
    how: Accumulate,
    positions: Seq<u32>,
    identity: VirtualRegister,
    accumulator: VirtualRegister,
    span: Span,
    state: Lowering,
)
    ensures
        continues(state, lower_terms(terms, count, how, positions, identity, accumulator, span, state)),
    decreases terms, 0nat,
{
    if terms.len() > 0 {
        let before = lower_terms(terms.drop_last(), count, how, positions, identity, accumulator, span, state);
        terms_continue(terms.drop_last(), count, how, positions, identity, accumulator, span, state);
        lowering_continues(terms.last(), positions, None, before);
        continuing_is_transitive(state, before, lower(terms.last(), positions, None, before).0);
    }
}

pub proof fn assignments_continue(assignments: Seq<Assignment>, positions: Seq<u32>, state: Lowering)
    ensures
        continues(state, lower_assignments(assignments, positions, state)),
    decreases assignments, 0nat,
{
    if assignments.len() > 0 {
        let before = lower_assignments(assignments.drop_last(), positions, state);
        let assignment = assignments.last();
        assignments_continue(assignments.drop_last(), positions, state);
        lowering_continues(assignment.value, positions, Some(local_register(assignment.slot)), before);
    }
}

pub proof fn block_continues(block: Block, positions: Seq<u32>, dst: Option<VirtualRegister>, state: Lowering)
    ensures
        continues(state, lower_block(block, positions, dst, state).0),
    decreases block, 0nat,
{
    assignments_continue(block.assignments@, positions, state);
    lowering_continues(block.result, positions, dst, lower_assignments(block.assignments@, positions, state));
}

/// Whether an instruction loads a row.
pub open spec fn loads_row(insn: Instruction<VirtualRegister>, input: u32) -> bool {
    insn matches Instruction::Load { input: row, .. } && row == input
}

/// Whether no two of a list of instructions load the same row.
pub open spec fn loads_each_once(insns: Seq<Instruction<VirtualRegister>>) -> bool {
    forall|i: int, j: int, input: u32|
        0 <= i < j < insns.len() && #[trigger] loads_row(insns[i], input) ==> !(#[trigger] loads_row(insns[j], input))
}

/// Whether every row loaded so far is loaded once, and known to be.
spec fn keeps_loads(state: Lowering) -> bool {
    &&& loads_each_once(state.insns)
    &&& forall|i: int, input: u32|
        0 <= i < state.insns.len() && #[trigger] loads_row(state.insns[i], input) ==> state.has_loaded(input)
}

proof fn emitting_keeps_loads(state: Lowering, insn: Instruction<VirtualRegister>, span: Span)
    requires
        keeps_loads(state),
        !(insn is Load),
    ensures
        keeps_loads(state.emitted(insn, span)),
{
    let next = state.emitted(insn, span);
    assert forall|i: int, input: u32|
        0 <= i < next.insns.len() && #[trigger] loads_row(next.insns[i], input) implies next.has_loaded(input) by {
        assert(loads_row(state.insns[i], input));
        let k = choose|k: int| 0 <= k < state.loads.len() && (#[trigger] state.loads[k]).0 == input;
        assert(next.loads[k].0 == input);
    }
    assert forall|i: int, j: int, input: u32|
        0 <= i < j < next.insns.len() && #[trigger] loads_row(next.insns[i], input) implies !(#[trigger] loads_row(
        next.insns[j],
        input,
    )) by {
        assert(loads_row(state.insns[i], input));
        if j < state.insns.len() {
            assert(next.insns[j] == state.insns[j]);
        }
    }
}

proof fn loading_keeps_loads(state: Lowering, input: u32, span: Span)
    requires
        keeps_loads(state),
    ensures
        keeps_loads(state.loaded(input, span).0),
{
    if !state.has_loaded(input) {
        let next = state.loaded(input, span).0;
        let last = state.insns.len() as int;
        assert(next.loads[state.loads.len() as int].0 == input);
        assert forall|i: int, row: u32|
            0 <= i < next.insns.len() && #[trigger] loads_row(next.insns[i], row) implies next.has_loaded(row) by {
            if i < last {
                assert(loads_row(state.insns[i], row));
                let k = choose|k: int| 0 <= k < state.loads.len() && (#[trigger] state.loads[k]).0 == row;
                assert(next.loads[k].0 == row);
            }
        }
        assert forall|i: int, j: int, row: u32|
            0 <= i < j < next.insns.len() && #[trigger] loads_row(next.insns[i], row) implies !(#[trigger] loads_row(
            next.insns[j],
            row,
        )) by {
            assert(loads_row(state.insns[i], row));
            if j < last {
                assert(next.insns[j] == state.insns[j]);
            } else {
                assert(state.has_loaded(row));
            }
        }
    }
}

/// What is known of the loads does not depend on the constants, the temporaries
/// and the slots.
proof fn loads_are_all_that_counts(state: Lowering, other: Lowering)
    requires
        keeps_loads(state),
        other.insns == state.insns,
        other.loads == state.loads,
    ensures
        keeps_loads(other),
{
    assert forall|i: int, input: u32|
        0 <= i < other.insns.len() && #[trigger] loads_row(other.insns[i], input) implies other.has_loaded(input) by {
        assert(state.has_loaded(input));
    }
}

proof fn placing_keeps_loads(state: Lowering, value: VirtualRegister, dst: Option<VirtualRegister>, span: Span)
    requires
        keeps_loads(state),
    ensures
        keeps_loads(state.placed(value, dst, span).0),
{
    if let Some(aim) = dst {
        emitting_keeps_loads(state, Instruction::Copy { dst: aim, src: value }, span);
    }
}

/// One more instruction after a target.
proof fn aiming_keeps_loads(
    state: Lowering,
    dst: Option<VirtualRegister>,
    insn: Instruction<VirtualRegister>,
    span: Span,
)
    requires
        keeps_loads(state),
        !(insn is Load),
    ensures
        keeps_loads(state.target(dst).0.emitted(insn, span)),
{
    loads_are_all_that_counts(state, state.target(dst).0);
    emitting_keeps_loads(state.target(dst).0, insn, span);
}

proof fn a_near_equality_keeps_loads(
    state: Lowering,
    a: VirtualRegister,
    b: VirtualRegister,
    tolerance: Real,
    dst: Option<VirtualRegister>,
    span: Span,
)
    requires
        keeps_loads(state),
    ensures
        keeps_loads(lower_near(state, a, b, tolerance, dst, span).0),
{
    let pooled = state.pooled(tolerance);
    loads_are_all_that_counts(state, pooled);
    let margin = pool_register(pooled.pool, tolerance);
    let (s1, floor) = pooled.fresh();
    let minus = Instruction::Binary { dst: floor, op: BinaryOp::Sub, a: b, b: margin };
    aiming_keeps_loads(pooled, None, minus, span);
    let s1 = s1.emitted(minus, span);
    let (s2, ceiling) = s1.fresh();
    let plus = Instruction::Binary { dst: ceiling, op: BinaryOp::Add, a: b, b: margin };
    aiming_keeps_loads(s1, None, plus, span);
    let s2 = s2.emitted(plus, span);
    let (s3, at_least) = s2.fresh();
    let low = Instruction::Compare { dst: at_least, op: CompareOp::Gte, a, b: floor };
    aiming_keeps_loads(s2, None, low, span);
    let s3 = s3.emitted(low, span);
    let (s4, at_most) = s3.fresh();
    let high = Instruction::Compare { dst: at_most, op: CompareOp::Lte, a, b: ceiling };
    aiming_keeps_loads(s3, None, high, span);
    let s4 = s4.emitted(high, span);
    let aim = s4.target(dst).1;
    let worst = Instruction::Combine { dst: aim, how: Accumulate::Worst, a: at_least, b: at_most, last: true };
    aiming_keeps_loads(s4, dst, worst, span);
}

proof fn lowering_keeps_loads(e: Expr, positions: Seq<u32>, dst: Option<VirtualRegister>, state: Lowering)
    requires
        keeps_loads(state),
    ensures
        keeps_loads(lower(e, positions, dst, state).0),
    decreases e, 0nat,
{
    let span = e.span;
    match e.kind {
        Kind::Literal(value) => {
            let pooled = state.pooled(value);
            loads_are_all_that_counts(state, pooled);
            placing_keeps_loads(pooled, pool_register(pooled.pool, value), dst, span);
        },
        Kind::Global(id) => {
            let (next, register) = state.loaded(positions[id.0 as int], span);
            loading_keeps_loads(state, positions[id.0 as int], span);
            placing_keeps_loads(next, register, dst, span);
        },
        Kind::Local(slot) => {
            let register = local_register(slot);
            emitting_keeps_loads(state, Instruction::Check { reg: register }, span);
            let next = if state.assigned[slot.0 as int] {
                state
            } else {
                state.emitted(Instruction::Check { reg: register }, span)
            };
            placing_keeps_loads(next, register, dst, span);
        },
        Kind::DynamicIndex(subscript) => {
            lowering_keeps_loads(*subscript, positions, None, state);
            let (next, index) = lower(*subscript, positions, None, state);
            let aim = next.target(dst).1;
            let gather = Instruction::Gather { dst: aim, index, subscript: subscript.span };
            aiming_keeps_loads(next, dst, gather, span);
        },
        Kind::Unary { op, arg } => {
            lowering_keeps_loads(*arg, positions, None, state);
            let (next, a) = lower(*arg, positions, None, state);
            aiming_keeps_loads(next, dst, Instruction::Unary { dst: next.target(dst).1, op, a }, span);
        },
        Kind::Binary { op, lhs, rhs } => {
            lowering_keeps_loads(*lhs, positions, None, state);
            let (middle, a) = lower(*lhs, positions, None, state);
            lowering_keeps_loads(*rhs, positions, None, middle);
            let (next, b) = lower(*rhs, positions, None, middle);
            aiming_keeps_loads(next, dst, Instruction::Binary { dst: next.target(dst).1, op, a, b }, span);
        },
        Kind::Compare { op, lhs, rhs } => {
            lowering_keeps_loads(*lhs, positions, None, state);
            let (middle, a) = lower(*lhs, positions, None, state);
            lowering_keeps_loads(*rhs, positions, None, middle);
            let (next, b) = lower(*rhs, positions, None, middle);
            aiming_keeps_loads(next, dst, Instruction::Compare { dst: next.target(dst).1, op, a, b }, span);
        },
        Kind::NearEq { lhs, rhs, tolerance } => {
            lowering_keeps_loads(*lhs, positions, None, state);
            let (middle, a) = lower(*lhs, positions, None, state);
            lowering_keeps_loads(*rhs, positions, None, middle);
            let (next, b) = lower(*rhs, positions, None, middle);
            a_near_equality_keeps_loads(next, a, b, tolerance, dst, span);
        },
        Kind::Fold { kind, terms } => a_fold_keeps_loads(
            terms@,
            Accumulate::from_aggregate(kind),
            positions,
            dst,
            span,
            state,
        ),
        Kind::And { terms } => a_fold_keeps_loads(terms@, Accumulate::Worst, positions, dst, span, state),
        Kind::Block(block) => a_block_keeps_loads(*block, positions, dst, state),
        Kind::Aggregate { .. } => {},
    }
}

proof fn a_fold_keeps_loads(
    terms: Seq<Expr>,
    how: Accumulate,
    positions: Seq<u32>,
    dst: Option<VirtualRegister>,
    span: Span,
    state: Lowering,
)
    requires
        keeps_loads(state),
    ensures
        keeps_loads(lower_fold(terms, how, positions, dst, span, state).0),
    decreases terms, 1nat,
{
    let pooled = state.pooled(how.identity());
    loads_are_all_that_counts(state, pooled);
    let identity = pool_register(pooled.pool, how.identity());
    if terms.len() == 0 {
        placing_keeps_loads(pooled, identity, dst, span);
    } else {
        let (aimed, accumulator) = pooled.target(dst);
        loads_are_all_that_counts(pooled, aimed);
        terms_keep_loads(terms, terms.len() as int, how, positions, identity, accumulator, span, aimed);
    }
}

proof fn terms_keep_loads(
    terms: Seq<Expr>,
    count: int,
    how: Accumulate,
    positions: Seq<u32>,
    identity: VirtualRegister,
    accumulator: VirtualRegister,
    span: Span,
    state: Lowering,
)
    requires
        keeps_loads(state),
    ensures
        keeps_loads(lower_terms(terms, count, how, positions, identity, accumulator, span, state)),
    decreases terms, 0nat,
{
    if terms.len() > 0 {
        let before = lower_terms(terms.drop_last(), count, how, positions, identity, accumulator, span, state);
        terms_keep_loads(terms.drop_last(), count, how, positions, identity, accumulator, span, state);
        lowering_keeps_loads(terms.last(), positions, None, before);
        let (next, b) = lower(terms.last(), positions, None, before);
        let a = if terms.len() == 1 {
            identity
        } else {
            accumulator
        };
        let step = Instruction::Combine { dst: accumulator, how, a, b, last: terms.len() == count };
        emitting_keeps_loads(next, step, span);
    }
}

proof fn assignments_keep_loads(assignments: Seq<Assignment>, positions: Seq<u32>, state: Lowering)
    requires
        keeps_loads(state),
    ensures
        keeps_loads(lower_assignments(assignments, positions, state)),
    decreases assignments, 0nat,
{
    if assignments.len() > 0 {
        let before = lower_assignments(assignments.drop_last(), positions, state);
        let assignment = assignments.last();
        assignments_keep_loads(assignments.drop_last(), positions, state);
        lowering_keeps_loads(assignment.value, positions, Some(local_register(assignment.slot)), before);
        let after = lower(assignment.value, positions, Some(local_register(assignment.slot)), before).0;
        loads_are_all_that_counts(after, lower_assignments(assignments, positions, state));
    }
}

proof fn a_block_keeps_loads(block: Block, positions: Seq<u32>, dst: Option<VirtualRegister>, state: Lowering)
    requires
        keeps_loads(state),
    ensures
        keeps_loads(lower_block(block, positions, dst, state).0),
    decreases block, 0nat,
{
    assignments_keep_loads(block.assignments@, positions, state);
    lowering_keeps_loads(block.result, positions, dst, lower_assignments(block.assignments@, positions, state));
}

/// A row is loaded once, however often a program reads it.
pub proof fn a_row_is_loaded_once(program: Program, positions: Seq<u32>)
    ensures
        loads_each_once(lowered(program, positions).0.insns),
{
    a_block_keeps_loads(program.body, positions, None, blank(program.frame_size as nat));
}

/// Whether what was emitted fits a tape: at most `2^16` constants and fewer
/// than `2^32` temporaries.
pub open spec fn fits_a_tape(state: Lowering) -> bool {
    state.pool.len() <= 65536 && state.temps <= u32::MAX
}

struct Emitter<'a> {
    global_positions: &'a Vec<u32>,
    consts: Constants,
    next_temp: u32,
    insns: Vec<Instruction<VirtualRegister>>,
    spans: Vec<Span>,
    loads: Vec<(u32, VirtualRegister)>,
    assigned: Vec<bool>,
}

impl<'a> View for Emitter<'a> {
    type V = Lowering;

    closed spec fn view(&self) -> Lowering {
        Lowering {
            pool: self.consts@,
            temps: self.next_temp as int,
            insns: self.insns@,
            spans: self.spans@,
            loads: self.loads@,
            assigned: self.assigned@,
        }
    }
}

impl<'a> Emitter<'a> {
    /// The pool holds each value once and no row is loaded twice.
    spec fn well_formed(&self) -> bool {
        &&& self.consts.well_formed()
        &&& self.loads@.map_values(|load: (u32, VirtualRegister)| load.0).no_duplicates()
        &&& self.assigned@.len() <= 65536
    }

    fn emit(&mut self, insn: Instruction<VirtualRegister>, span: Span)
        requires
            old(self).well_formed(),
        ensures
            final(self).well_formed(),
            final(self)@ == old(self)@.emitted(insn, span),
            final(self).global_positions == old(self).global_positions,
    {
        self.insns.push(insn);
        self.spans.push(span);
    }

    fn temp(&mut self) -> (register: VirtualRegister)
        requires
            old(self).well_formed(),
            old(self)@.temps < u32::MAX,
        ensures
            final(self).well_formed(),
            (final(self)@, register) == old(self)@.fresh(),
            final(self).global_positions == old(self).global_positions,
    {
        let register = VirtualRegister::Temp(self.next_temp);
        self.next_temp = self.next_temp + 1;
        register
    }

    fn target(&mut self, dst: Option<VirtualRegister>) -> (register: VirtualRegister)
        requires
            old(self).well_formed(),
            old(self)@.target(dst).0.temps <= u32::MAX,
        ensures
            final(self).well_formed(),
            (final(self)@, register) == old(self)@.target(dst),
            final(self).global_positions == old(self).global_positions,
    {
        match dst {
            Some(dst) => dst,
            None => self.temp(),
        }
    }

    fn constant(&mut self, value: Real) -> (register: VirtualRegister)
        requires
            old(self).well_formed(),
            old(self)@.pooled(value).pool.len() <= 65536,
        ensures
            final(self).well_formed(),
            final(self)@ == old(self)@.pooled(value),
            register == pool_register(final(self)@.pool, value),
            final(self).global_positions == old(self).global_positions,
    {
        self.consts.intern(value)
    }

    fn place(&mut self, value: VirtualRegister, dst: Option<VirtualRegister>, span: Span) -> (register: VirtualRegister)
        requires
            old(self).well_formed(),
        ensures
            final(self).well_formed(),
            (final(self)@, register) == old(self)@.placed(value, dst, span),
            final(self).global_positions == old(self).global_positions,
    {
        match dst {
            Some(dst) => {
                if dst != value {
                    self.emit(Instruction::Copy { dst, src: value }, span);
                    dst
                } else {
                    value
                }
            },
            None => value,
        }
    }

    fn load(&mut self, input: u32, span: Span) -> (register: VirtualRegister)
        requires
            old(self).well_formed(),
            old(self)@.loaded(input, span).0.temps <= u32::MAX,
        ensures
            final(self).well_formed(),
            (final(self)@, register) == old(self)@.loaded(input, span),
            final(self).global_positions == old(self).global_positions,
    {
        let ghost inputs = self.loads@.map_values(|load: (u32, VirtualRegister)| load.0);
        for i in 0..self.loads.len()
            invariant
                self.well_formed(),
                *self == *old(self),
                inputs == self.loads@.map_values(|load: (u32, VirtualRegister)| load.0),
                forall|j: int| 0 <= j < i ==> (#[trigger] self.loads@[j]).0 != input,
        {
            if self.loads[i].0 == input {
                proof {
                    let listed = self@.loads;
                    assert(listed[i as int].0 == input);
                    let at = load_index(listed, input);
                    assert(0 <= at < listed.len() && listed[at].0 == input);
                    assert(inputs[at] == inputs[i as int]);
                    assert(at == i);
                }
                return self.loads[i].1;
            }
        }
        assert(!self@.has_loaded(input));
        let dst = self.temp();
        self.emit(Instruction::Load { dst, input }, span);
        proof {
            let next = self.loads@.push((input, dst)).map_values(|load: (u32, VirtualRegister)| load.0);
            assert(next =~= inputs.push(input));
            assert(forall|j: int| 0 <= j < inputs.len() ==> inputs[j] == (#[trigger] self.loads@[j]).0);
        }
        self.loads.push((input, dst));
        dst
    }

    fn local(slot: LocalSlot) -> (register: VirtualRegister)
        requires
            slot.0 < 65536,
        ensures
            register == local_register(slot),
    {
        VirtualRegister::Local(slot.index() as u16)
    }

    fn block(&mut self, block: &Block, dst: Option<VirtualRegister>) -> (register: VirtualRegister)
        requires
            old(self).well_formed(),
            block.lowerable(old(self).global_positions@.len() as int, old(self)@.assigned.len() as int),
            fits_a_tape(lower_block(*block, old(self).global_positions@, dst, old(self)@).0),
        ensures
            final(self).well_formed(),
            (final(self)@, register) == lower_block(*block, old(self).global_positions@, dst, old(self)@),
            final(self).global_positions == old(self).global_positions,
            final(self)@.assigned.len() == old(self)@.assigned.len(),
        decreases block, 0nat,
    {
        let ghost positions = self.global_positions@;
        let ghost start = self@;
        let ghost all = lower_assignments(block.assignments@, positions, start);
        proof {
            lowering_continues(block.result, positions, dst, all);
        }
        for i in 0..block.assignments.len()
            invariant
                self.well_formed(),
                positions == self.global_positions@,
                self.global_positions == old(self).global_positions,
                block.lowerable(positions.len() as int, start.assigned.len() as int),
                self@.assigned.len() == start.assigned.len(),
                self@ == lower_assignments(block.assignments@.take(i as int), positions, start),
                all == lower_assignments(block.assignments@, positions, start),
                fits_a_tape(all),
        {
            let assignment = &block.assignments[i];
            let ghost before = self@;
            assert(decreases_to!(block => block.assignments@[i as int].value));
            proof {
                let done = block.assignments@.take(i + 1);
                assert(done.drop_last() =~= block.assignments@.take(i as int));
                assert(done.last() == *assignment);
                later_assignments_continue(block.assignments@, i + 1, positions, start);
            }
            let slot = Self::local(assignment.slot);
            let value = self.expr(&assignment.value, Some(slot));
            self.assigned.set(assignment.slot.index(), true);
        }
        assert(block.assignments@.take(block.assignments@.len() as int) =~= block.assignments@);
        self.expr(&block.result, dst)
    }

    /// Lowers `expr`, into `dst` if given, and returns the register holding the
    /// value.
    fn expr(&mut self, expr: &Expr, dst: Option<VirtualRegister>) -> (register: VirtualRegister)
        requires
            old(self).well_formed(),
            expr.lowerable(old(self).global_positions@.len() as int, old(self)@.assigned.len() as int),
            fits_a_tape(lower(*expr, old(self).global_positions@, dst, old(self)@).0),
        ensures
            final(self).well_formed(),
            (final(self)@, register) == lower(*expr, old(self).global_positions@, dst, old(self)@),
            final(self).global_positions == old(self).global_positions,
            final(self)@.assigned.len() == old(self)@.assigned.len(),
        decreases expr, 0nat,
    {
        let span = expr.span;
        let ghost positions = self.global_positions@;
        match &expr.kind {
            Kind::Literal(value) => {
                let constant = self.constant(*value);
                self.place(constant, dst, span)
            },
            Kind::Global(id) => {
                let input: u32 = self.global_positions[id.index()];
                let register = self.load(input, span);
                self.place(register, dst, span)
            },
            Kind::Local(slot) => {
                let register = Self::local(*slot);
                if !self.assigned[slot.index()] {
                    self.emit(Instruction::Check { reg: register }, span);
                }
                self.place(register, dst, span)
            },
            Kind::DynamicIndex(subscript) => {
                let index = self.expr(subscript, None);
                let dst = self.target(dst);
                self.emit(Instruction::Gather { dst, index, subscript: subscript.span }, span);
                dst
            },
            Kind::Unary { op, arg } => {
                let a = self.expr(arg, None);
                let dst = self.target(dst);
                self.emit(Instruction::Unary { dst, op: *op, a }, span);
                dst
            },
            Kind::Binary { op, lhs, rhs } => {
                proof {
                    lowering_continues(**rhs, positions, None, lower(**lhs, positions, None, self@).0);
                }
                let a = self.expr(lhs, None);
                let b = self.expr(rhs, None);
                let dst = self.target(dst);
                self.emit(Instruction::Binary { dst, op: *op, a, b }, span);
                dst
            },
            Kind::Compare { op, lhs, rhs } => {
                proof {
                    lowering_continues(**rhs, positions, None, lower(**lhs, positions, None, self@).0);
                }
                let a = self.expr(lhs, None);
                let b = self.expr(rhs, None);
                let dst = self.target(dst);
                self.emit(Instruction::Compare { dst, op: *op, a, b }, span);
                dst
            },
            Kind::NearEq { lhs, rhs, tolerance } => {
                proof {
                    let middle = lower(**lhs, positions, None, self@).0;
                    lowering_continues(**rhs, positions, None, middle);
                    pooling_continues(lower(**rhs, positions, None, middle).0, *tolerance);
                }
                let a = self.expr(lhs, None);
                let b = self.expr(rhs, None);
                let margin = self.constant(*tolerance);
                let floor = self.temp();
                self.emit(Instruction::Binary { dst: floor, op: BinaryOp::Sub, a: b, b: margin }, span);
                let ceiling = self.temp();
                self.emit(Instruction::Binary { dst: ceiling, op: BinaryOp::Add, a: b, b: margin }, span);
                let at_least = self.temp();
                self.emit(Instruction::Compare { dst: at_least, op: CompareOp::Gte, a, b: floor }, span);
                let at_most = self.temp();
                self.emit(Instruction::Compare { dst: at_most, op: CompareOp::Lte, a, b: ceiling }, span);
                let dst = self.target(dst);
                self.emit(
                    Instruction::Combine { dst, how: Accumulate::Worst, a: at_least, b: at_most, last: true },
                    span,
                );
                dst
            },
            Kind::Fold { kind, terms } => self.fold(Accumulate::from_aggregate(*kind), terms, dst, span),
            Kind::And { terms } => self.fold(Accumulate::Worst, terms, dst, span),
            Kind::Block(block) => self.block(block, dst),
            Kind::Aggregate { .. } => VirtualRegister::Temp(0),
        }
    }

    /// Left to right from the identity, one `Combine` per term, checked only on
    /// the last. A term is lowered when the chain reaches it rather than
    /// beforehand, so that one operand is live at a time.
    fn fold(&mut self, how: Accumulate, terms: &Vec<Expr>, dst: Option<VirtualRegister>, span: Span) -> (register:
        VirtualRegister)
        requires
            old(self).well_formed(),
            forall|i: int|
                0 <= i < terms@.len() ==> (#[trigger] terms@[i]).lowerable(
                    old(self).global_positions@.len() as int,
                    old(self)@.assigned.len() as int,
                ),
            fits_a_tape(lower_fold(terms@, how, old(self).global_positions@, dst, span, old(self)@).0),
        ensures
            final(self).well_formed(),
            (final(self)@, register) == lower_fold(terms@, how, old(self).global_positions@, dst, span, old(self)@),
            final(self).global_positions == old(self).global_positions,
            final(self)@.assigned.len() == old(self)@.assigned.len(),
        decreases terms, 0nat,
    {
        let ghost positions = self.global_positions@;
        let ghost frame = self@.assigned.len();
        proof {
            fold_continues(terms@, how, positions, dst, span, self@);
            pooling_continues(self@, how.identity());
            if terms@.len() > 0 {
                let pooled = self@.pooled(how.identity());
                let (aimed, accumulator) = pooled.target(dst);
                terms_continue(
                    terms@,
                    terms@.len() as int,
                    how,
                    positions,
                    pool_register(pooled.pool, how.identity()),
                    accumulator,
                    span,
                    aimed,
                );
            }
        }
        let identity = self.constant(how.identity());
        let count: usize = terms.len();
        if count == 0 {
            return self.place(identity, dst, span);
        }
        let acc = self.target(dst);
        let ghost start = self@;
        let ghost all = lower_terms(terms@, count as int, how, positions, identity, acc, span, start);
        for k in 0..count
            invariant
                self.well_formed(),
                positions == self.global_positions@,
                self.global_positions == old(self).global_positions,
                self@.assigned.len() == frame,
                count == terms@.len(),
                forall|i: int| 0 <= i < terms@.len() ==> (#[trigger] terms@[i]).lowerable(positions.len() as int, frame as int),
                self@ == lower_terms(terms@.take(k as int), count as int, how, positions, identity, acc, span, start),
                all == lower_terms(terms@, count as int, how, positions, identity, acc, span, start),
                fits_a_tape(all),
        {
            assert(decreases_to!(terms => terms@[k as int]));
            proof {
                let done = terms@.take(k + 1);
                assert(done.drop_last() =~= terms@.take(k as int));
                assert(done.last() == terms@[k as int]);
                later_terms_continue(terms@, k + 1, count as int, how, positions, identity, acc, span, start);
            }
            let b = self.expr(&terms[k], None);
            let a = if k == 0 {
                identity
            } else {
                acc
            };
            self.emit(Instruction::Combine { dst: acc, how, a, b, last: k == count - 1 }, span);
        }
        assert(terms@.take(count as int) =~= terms@);
        acc
    }
}

proof fn later_assignments_continue(assignments: Seq<Assignment>, at: int, positions: Seq<u32>, state: Lowering)
    requires
        0 <= at <= assignments.len(),
    ensures
        continues(
            lower_assignments(assignments.take(at), positions, state),
            lower_assignments(assignments, positions, state),
        ),
    decreases assignments.len() - at,
{
    if at == assignments.len() {
        assert(assignments.take(at) =~= assignments);
    } else {
        later_assignments_continue(assignments, at + 1, positions, state);
        let next = assignments.take(at + 1);
        assert(next.drop_last() =~= assignments.take(at));
        let before = lower_assignments(assignments.take(at), positions, state);
        lowering_continues(next.last().value, positions, Some(local_register(next.last().slot)), before);
        continuing_is_transitive(
            before,
            lower_assignments(next, positions, state),
            lower_assignments(assignments, positions, state),
        );
    }
}

proof fn later_terms_continue(
    terms: Seq<Expr>,
    at: int,
    count: int,
    how: Accumulate,
    positions: Seq<u32>,
    identity: VirtualRegister,
    accumulator: VirtualRegister,
    span: Span,
    state: Lowering,
)
    requires
        0 <= at <= terms.len(),
    ensures
        continues(
            lower_terms(terms.take(at), count, how, positions, identity, accumulator, span, state),
            lower_terms(terms, count, how, positions, identity, accumulator, span, state),
        ),
    decreases terms.len() - at,
{
    if at == terms.len() {
        assert(terms.take(at) =~= terms);
    } else {
        later_terms_continue(terms, at + 1, count, how, positions, identity, accumulator, span, state);
        let next = terms.take(at + 1);
        assert(next.drop_last() =~= terms.take(at));
        let before = lower_terms(terms.take(at), count, how, positions, identity, accumulator, span, state);
        lowering_continues(next.last(), positions, None, before);
        continuing_is_transitive(
            before,
            lower_terms(next, count, how, positions, identity, accumulator, span, state),
            lower_terms(terms, count, how, positions, identity, accumulator, span, state),
        );
    }
}

/// Emits `program`, with `global_positions[GlobalId]` giving each symbol's row.
pub fn emit(program: &Program, global_positions: &Vec<u32>) -> (tape: VirtualTape)
    requires
        program.frame_size < 65536,
        program.body.lowerable(global_positions@.len() as int, program.frame_size as int),
        fits_a_tape(lowered(*program, global_positions@).0),
    ensures
        ({
            let (state, result) = lowered(*program, global_positions@);
            &&& tape.consts.well_formed()
            &&& tape.consts@ == state.pool
            &&& tape.locals == program.frame_size
            &&& tape.temps == state.temps
            &&& tape.insns@ == state.insns
            &&& tape.spans@ == state.spans
            &&& tape.result == result
            &&& tape.partials@.len() == 0
        }),
{
    let assigned: Vec<bool> = vec![false; program.frame_size as usize];
    let mut emitter = Emitter {
        global_positions,
        consts: Constants::new(),
        next_temp: 0,
        insns: Vec::new(),
        spans: Vec::new(),
        loads: Vec::new(),
        assigned,
    };
    proof {
        assert(emitter.assigned@ =~= Seq::new(program.frame_size as nat, |i: int| false));
        assert(emitter.loads@.map_values(|load: (u32, VirtualRegister)| load.0) =~= Seq::empty());
        assert(emitter@ == blank(program.frame_size as nat));
    }
    let result = emitter.block(&program.body, None);
    VirtualTape::new(
        emitter.consts,
        program.frame_size as u16,
        emitter.next_temp,
        emitter.insns,
        emitter.spans,
        result,
    )
}

} // verus!
