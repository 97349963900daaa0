//! What is emitted can be run: every register is the tape's own, constants are
//! never written, and no temporary is read before it is written.

use vstd::prelude::*;
use crate::ast::{Assignment, Block, Expr, Kind, Program};
use crate::diagnostics::Span;
use crate::irgen::{
    blank, block_continues, continues, fits_a_tape, local_register, lower, lower_assignments,
    lower_block, lower_fold, lower_near, lower_terms, lowered, lowering_continues,
    pooling_continues, terms_continue, Lowering,
};
use crate::number::Real;
use crate::regalloc::{is_temp, written_by};
use crate::renaming::{all_fit, fits};
use crate::tape::{operands, pool_register, Accumulate, Instruction, VirtualRegister, VirtualTape};

verus! {

/// Whether a register may be read once the first `i` instructions have run.
spec fn in_use(state: Lowering, frame: int, register: VirtualRegister, i: int) -> bool {
    match register {
        VirtualRegister::Const(c) => c < state.pool.len(),
        VirtualRegister::Local(l) => l < frame,
        VirtualRegister::Temp(t) => t < state.temps && written_by(state.insns, i, t as int),
    }
}

/// Whether a register may be written.
spec fn writable(state: Lowering, frame: int, register: VirtualRegister) -> bool {
    match register {
        VirtualRegister::Const(_) => false,
        VirtualRegister::Local(l) => l < frame,
        VirtualRegister::Temp(t) => t < state.temps,
    }
}

/// Whether everything emitted so far is in order.
spec fn orderly(state: Lowering, frame: int) -> bool {
    &&& 0 <= state.temps
    &&& forall|i: int|
        0 <= i < state.insns.len() ==> ((#[trigger] state.insns[i]).written() is Some ==> writable(
            state,
            frame,
            state.insns[i].written()->0,
        ))
    &&& forall|i: int, k: int|
        0 <= i < state.insns.len() && 0 <= k < state.insns[i].read().len() ==> in_use(
            state,
            frame,
            #[trigger] state.insns[i].read()[k],
            i,
        )
    &&& forall|j: int|
        0 <= j < state.loads.len() ==> in_use(state, frame, (#[trigger] state.loads[j]).1, state.insns.len() as int)
}

proof fn stays_in_use(a: Lowering, b: Lowering, frame: int, register: VirtualRegister, i: int, j: int)
    requires
        continues(a, b),
        in_use(a, frame, register, i),
        i <= j,
        i <= a.insns.len(),
    ensures
        in_use(b, frame, register, j),
{
    if let VirtualRegister::Temp(t) = register {
        let k = choose|k: int|
            0 <= k < i && (#[trigger] a.insns[k]).written() is Some && is_temp(a.insns[k].written()->0, t as int);
        assert(b.insns[k] == a.insns[k]);
    }
}

/// Asking for a constant or a temporary leaves everything in order.
proof fn preparing(state: Lowering, frame: int, next: Lowering)
    requires
        orderly(state, frame),
        continues(state, next),
        next.insns == state.insns,
        next.loads == state.loads,
    ensures
        orderly(next, frame),
{
    assert forall|i: int, k: int| 0 <= i < next.insns.len() && 0 <= k < next.insns[i].read().len() implies in_use(
        next,
        frame,
        #[trigger] next.insns[i].read()[k],
        i,
    ) by {
        stays_in_use(state, next, frame, state.insns[i].read()[k], i, i);
    }
    assert forall|j: int| 0 <= j < next.loads.len() implies in_use(
        next,
        frame,
        (#[trigger] next.loads[j]).1,
        next.insns.len() as int,
    ) by {
        stays_in_use(state, next, frame, state.loads[j].1, state.insns.len() as int, state.insns.len() as int);
    }
}

/// So does an instruction that reads what is in use and writes what may be.
proof fn emitting(state: Lowering, frame: int, insn: Instruction<VirtualRegister>, span: Span)
    requires
        orderly(state, frame),
        insn.written() is Some ==> writable(state, frame, insn.written()->0),
        forall|k: int|
            0 <= k < insn.read().len() ==> in_use(state, frame, #[trigger] insn.read()[k], state.insns.len() as int),
    ensures
        orderly(state.emitted(insn, span), frame),
        insn.written() is Some ==> in_use(
            state.emitted(insn, span),
            frame,
            insn.written()->0,
            (state.insns.len() + 1) as int,
        ),
{
    let next = state.emitted(insn, span);
    let n = state.insns.len() as int;
    assert(continues(state, next));
    assert(next.insns[n] == insn);
    assert forall|i: int, k: int| 0 <= i < next.insns.len() && 0 <= k < next.insns[i].read().len() implies in_use(
        next,
        frame,
        #[trigger] next.insns[i].read()[k],
        i,
    ) by {
        if i < n {
            assert(next.insns[i] == state.insns[i]);
            stays_in_use(state, next, frame, state.insns[i].read()[k], i, i);
        } else {
            stays_in_use(state, next, frame, insn.read()[k], n, n);
        }
    }
    assert forall|i: int| 0 <= i < next.insns.len() implies ((#[trigger] next.insns[i]).written() is Some ==> writable(
        next,
        frame,
        next.insns[i].written()->0,
    )) by {
        if i < n {
            assert(next.insns[i] == state.insns[i]);
        }
    }
    assert forall|j: int| 0 <= j < next.loads.len() implies in_use(
        next,
        frame,
        (#[trigger] next.loads[j]).1,
        next.insns.len() as int,
    ) by {
        stays_in_use(state, next, frame, state.loads[j].1, n, n + 1);
    }
}

/// A destination: none, or a local.
spec fn aimed(dst: Option<VirtualRegister>, frame: int) -> bool {
    dst matches Some(register) ==> (register matches VirtualRegister::Local(l) && l < frame)
}

/// Everything in order, and the value's register in use.
spec fn delivered(after: (Lowering, VirtualRegister), frame: int) -> bool {
    orderly(after.0, frame) && in_use(after.0, frame, after.1, after.0.insns.len() as int)
}

proof fn placing(state: Lowering, frame: int, value: VirtualRegister, dst: Option<VirtualRegister>, span: Span)
    requires
        orderly(state, frame),
        in_use(state, frame, value, state.insns.len() as int),
        aimed(dst, frame),
    ensures
        delivered(state.placed(value, dst, span), frame),
{
    if let Some(register) = dst {
        if register != value {
            let insn = Instruction::Copy { dst: register, src: value };
            operands(insn);
            emitting(state, frame, insn, span);
        }
    }
}

/// An instruction into the destination asked for, or into a fresh temporary.
proof fn finishing(
    state: Lowering,
    frame: int,
    dst: Option<VirtualRegister>,
    insn: Instruction<VirtualRegister>,
    span: Span,
)
    requires
        orderly(state, frame),
        aimed(dst, frame),
        state.target(dst).0.temps <= u32::MAX,
        insn.written() == Some(state.target(dst).1),
        forall|k: int|
            0 <= k < insn.read().len() ==> in_use(state, frame, #[trigger] insn.read()[k], state.insns.len() as int),
    ensures
        delivered((state.target(dst).0.emitted(insn, span), state.target(dst).1), frame),
{
    let (next, register) = state.target(dst);
    preparing(state, frame, next);
    assert forall|k: int| 0 <= k < insn.read().len() implies in_use(
        next,
        frame,
        #[trigger] insn.read()[k],
        next.insns.len() as int,
    ) by {
        stays_in_use(state, next, frame, insn.read()[k], state.insns.len() as int, state.insns.len() as int);
    }
    emitting(next, frame, insn, span);
}

proof fn pooled_is_in_use(state: Lowering, frame: int, value: Real)
    requires
        orderly(state, frame),
        state.pooled(value).pool.len() <= 65536,
    ensures
        orderly(state.pooled(value), frame),
        in_use(
            state.pooled(value),
            frame,
            pool_register(state.pooled(value).pool, value),
            state.insns.len() as int,
        ),
{
    let next = state.pooled(value);
    pooling_continues(state, value);
    preparing(state, frame, next);
    let at = next.pool.index_of(value);
    assert(0 <= at < next.pool.len() && next.pool[at] == value);
}

proof fn near_is_orderly(
    state: Lowering,
    frame: int,
    a: VirtualRegister,
    b: VirtualRegister,
    tolerance: Real,
    dst: Option<VirtualRegister>,
    span: Span,
)
    requires
        orderly(state, frame),
        in_use(state, frame, a, state.insns.len() as int),
        in_use(state, frame, b, state.insns.len() as int),
        aimed(dst, frame),
        fits_a_tape(lower_near(state, a, b, tolerance, dst, span).0),
    ensures
        delivered(lower_near(state, a, b, tolerance, dst, span), frame),
{
    let n = state.insns.len() as int;
    let s0 = state.pooled(tolerance);
    pooling_continues(state, tolerance);
    pooled_is_in_use(state, frame, tolerance);
    let margin = pool_register(s0.pool, tolerance);
    stays_in_use(state, s0, frame, a, n, n);
    stays_in_use(state, s0, frame, b, n, n);
    let (f0, floor) = s0.fresh();
    let i0 = Instruction::Binary { dst: floor, op: crate::ast::BinaryOp::Sub, a: b, b: margin };
    operands(i0);
    finishing(s0, frame, None, i0, span);
    let s1 = f0.emitted(i0, span);
    stays_in_use(s0, s1, frame, a, n, n + 1);
    stays_in_use(s0, s1, frame, b, n, n + 1);
    stays_in_use(s0, s1, frame, margin, n, n + 1);
    let (f1, ceiling) = s1.fresh();
    let i1 = Instruction::Binary { dst: ceiling, op: crate::ast::BinaryOp::Add, a: b, b: margin };
    operands(i1);
    finishing(s1, frame, None, i1, span);
    let s2 = f1.emitted(i1, span);
    stays_in_use(s1, s2, frame, a, n + 1, n + 2);
    stays_in_use(s1, s2, frame, floor, n + 1, n + 2);
    let (f2, at_least) = s2.fresh();
    let i2 = Instruction::Compare { dst: at_least, op: crate::ast::CompareOp::Gte, a, b: floor };
    operands(i2);
    finishing(s2, frame, None, i2, span);
    let s3 = f2.emitted(i2, span);
    stays_in_use(s2, s3, frame, a, n + 2, n + 3);
    stays_in_use(s2, s3, frame, ceiling, n + 2, n + 3);
    let (f3, at_most) = s3.fresh();
    let i3 = Instruction::Compare { dst: at_most, op: crate::ast::CompareOp::Lte, a, b: ceiling };
    operands(i3);
    finishing(s3, frame, None, i3, span);
    let s4 = f3.emitted(i3, span);
    stays_in_use(s3, s4, frame, at_least, n + 3, n + 4);
    let (f4, out) = s4.target(dst);
    let i4 = Instruction::Combine { dst: out, how: Accumulate::Worst, a: at_least, b: at_most, last: true };
    operands(i4);
    finishing(s4, frame, dst, i4, span);
}

proof fn lowering_is_orderly(e: Expr, positions: Seq<u32>, dst: Option<VirtualRegister>, state: Lowering, frame: int)
    requires
        orderly(state, frame),
        frame <= 65536,
        e.lowerable(positions.len() as int, frame),
        aimed(dst, frame),
        fits_a_tape(lower(e, positions, dst, state).0),
    ensures
        delivered(lower(e, positions, dst, state), frame),
    decreases e, 0nat,
{
    let span = e.span;
    match e.kind {
        Kind::Literal(value) => {
            pooled_is_in_use(state, frame, value);
            let pooled = state.pooled(value);
            placing(pooled, frame, pool_register(pooled.pool, value), dst, span);
        },
        Kind::Global(id) => {
            let input = positions[id.0 as int];
            let (loaded, register) = state.loaded(input, span);
            if state.has_loaded(input) {
                let j = crate::irgen::load_index(state.loads, input);
                assert(in_use(state, frame, state.loads[j].1, state.insns.len() as int));
            } else {
                let (fresh, temp) = state.fresh();
                let insn = Instruction::Load { dst: temp, input };
                finishing(state, frame, None, insn, span);
                let emitted = fresh.emitted(insn, span);
                assert(loaded.insns == emitted.insns);
                assert forall|j: int| 0 <= j < loaded.loads.len() implies in_use(
                    loaded,
                    frame,
                    (#[trigger] loaded.loads[j]).1,
                    loaded.insns.len() as int,
                ) by {
                    if j < emitted.loads.len() {
                        assert(loaded.loads[j] == emitted.loads[j]);
                        assert(in_use(emitted, frame, emitted.loads[j].1, emitted.insns.len() as int));
                    }
                }
                assert forall|i: int, k: int|
                    0 <= i < loaded.insns.len() && 0 <= k < loaded.insns[i].read().len() implies in_use(
                    loaded,
                    frame,
                    #[trigger] loaded.insns[i].read()[k],
                    i,
                ) by {
                    assert(in_use(emitted, frame, emitted.insns[i].read()[k], i));
                }
                assert forall|i: int| 0 <= i < loaded.insns.len() implies ((#[trigger] loaded.insns[i]).written() is Some
                    ==> writable(loaded, frame, loaded.insns[i].written()->0)) by {
                    assert(emitted.insns[i].written() is Some ==> writable(emitted, frame, emitted.insns[i].written()->0));
                }
            }
            placing(loaded, frame, register, dst, span);
        },
        Kind::Local(slot) => {
            let register = local_register(slot);
            if !state.assigned[slot.0 as int] {
                let insn = Instruction::Check { reg: register };
                operands(insn);
                emitting(state, frame, insn, span);
                placing(state.emitted(insn, span), frame, register, dst, span);
            } else {
                placing(state, frame, register, dst, span);
            }
        },
        Kind::DynamicIndex(subscript) => {
            let (middle, index) = lower(*subscript, positions, None, state);
            lowering_is_orderly(*subscript, positions, None, state, frame);
            let insn = Instruction::Gather { dst: middle.target(dst).1, index, subscript: subscript.span };
            operands(insn);
            finishing(middle, frame, dst, insn, span);
        },
        Kind::Unary { op, arg } => {
            let (middle, a) = lower(*arg, positions, None, state);
            lowering_is_orderly(*arg, positions, None, state, frame);
            let insn = Instruction::Unary { dst: middle.target(dst).1, op, a };
            operands(insn);
            finishing(middle, frame, dst, insn, span);
        },
        Kind::Binary { op, lhs, rhs } => {
            let (left, a) = lower(*lhs, positions, None, state);
            let (right, b) = lower(*rhs, positions, None, left);
            lowering_continues(*rhs, positions, None, left);
            lowering_is_orderly(*lhs, positions, None, state, frame);
            lowering_is_orderly(*rhs, positions, None, left, frame);
            stays_in_use(left, right, frame, a, left.insns.len() as int, right.insns.len() as int);
            let insn = Instruction::Binary { dst: right.target(dst).1, op, a, b };
            operands(insn);
            finishing(right, frame, dst, insn, span);
        },
        Kind::Compare { op, lhs, rhs } => {
            let (left, a) = lower(*lhs, positions, None, state);
            let (right, b) = lower(*rhs, positions, None, left);
            lowering_continues(*rhs, positions, None, left);
            lowering_is_orderly(*lhs, positions, None, state, frame);
            lowering_is_orderly(*rhs, positions, None, left, frame);
            stays_in_use(left, right, frame, a, left.insns.len() as int, right.insns.len() as int);
            let insn = Instruction::Compare { dst: right.target(dst).1, op, a, b };
            operands(insn);
            finishing(right, frame, dst, insn, span);
        },
        Kind::NearEq { lhs, rhs, tolerance } => {
            let (left, a) = lower(*lhs, positions, None, state);
            let (right, b) = lower(*rhs, positions, None, left);
            lowering_continues(*rhs, positions, None, left);
            pooling_continues(right, tolerance);
            lowering_is_orderly(*lhs, positions, None, state, frame);
            lowering_is_orderly(*rhs, positions, None, left, frame);
            stays_in_use(left, right, frame, a, left.insns.len() as int, right.insns.len() as int);
            near_is_orderly(right, frame, a, b, tolerance, dst, span);
        },
        Kind::Fold { kind, terms } => fold_is_orderly(
            terms@,
            Accumulate::from_aggregate(kind),
            positions,
            dst,
            span,
            state,
            frame,
        ),
        Kind::And { terms } => fold_is_orderly(terms@, Accumulate::Worst, positions, dst, span, state, frame),
        Kind::Block(block) => block_is_orderly(*block, positions, dst, state, frame),
        Kind::Aggregate { .. } => {},
    }
}

proof fn fold_is_orderly(
    terms: Seq<Expr>,
    how: Accumulate,
    positions: Seq<u32>,
    dst: Option<VirtualRegister>,
    span: Span,
    state: Lowering,
    frame: int,
)
    requires
        orderly(state, frame),
        frame <= 65536,
        forall|i: int| 0 <= i < terms.len() ==> (#[trigger] terms[i]).lowerable(positions.len() as int, frame),
        aimed(dst, frame),
        fits_a_tape(lower_fold(terms, how, positions, dst, span, state).0),
    ensures
        delivered(lower_fold(terms, how, positions, dst, span, state), frame),
    decreases terms, 1nat,
{
    let pooled = state.pooled(how.identity());
    let identity = pool_register(pooled.pool, how.identity());
    if terms.len() == 0 {
        pooled_is_in_use(state, frame, how.identity());
        placing(pooled, frame, identity, dst, span);
    } else {
        let (start, accumulator) = pooled.target(dst);
        terms_continue(terms, terms.len() as int, how, positions, identity, accumulator, span, start);
        pooled_is_in_use(state, frame, how.identity());
        preparing(pooled, frame, start);
        terms_are_orderly(terms, terms.len() as int, how, positions, identity, accumulator, span, start, frame);
    }
}

proof fn terms_are_orderly(
    terms: Seq<Expr>,
    count: int,
    how: Accumulate,
    positions: Seq<u32>,
    identity: VirtualRegister,
    accumulator: VirtualRegister,
    span: Span,
    state: Lowering,
    frame: int,
)
    requires
        orderly(state, frame),
        frame <= 65536,
        forall|i: int| 0 <= i < terms.len() ==> (#[trigger] terms[i]).lowerable(positions.len() as int, frame),
        identity is Const,
        in_use(state, frame, identity, state.insns.len() as int),
        writable(state, frame, accumulator),
        fits_a_tape(lower_terms(terms, count, how, positions, identity, accumulator, span, state)),
    ensures
        ({
            let after = lower_terms(terms, count, how, positions, identity, accumulator, span, state);
            orderly(after, frame) && (terms.len() > 0 ==> in_use(after, frame, accumulator, after.insns.len() as int))
        }),
    decreases terms, 0nat,
{
    if terms.len() > 0 {
        let rest = terms.drop_last();
        let before = lower_terms(rest, count, how, positions, identity, accumulator, span, state);
        let (middle, b) = lower(terms.last(), positions, None, before);
        terms_continue(rest, count, how, positions, identity, accumulator, span, state);
        lowering_continues(terms.last(), positions, None, before);
        assert forall|i: int| 0 <= i < rest.len() implies (#[trigger] rest[i]).lowerable(positions.len() as int, frame) by {
            assert(rest[i] == terms[i]);
        }
        assert(terms.last() == terms[terms.len() - 1]);
        terms_are_orderly(rest, count, how, positions, identity, accumulator, span, state, frame);
        lowering_is_orderly(terms.last(), positions, None, before, frame);
        let a = if terms.len() == 1 {
            identity
        } else {
            accumulator
        };
        if terms.len() > 1 {
            stays_in_use(before, middle, frame, accumulator, before.insns.len() as int, middle.insns.len() as int);
        }
        let insn = Instruction::Combine { dst: accumulator, how, a, b, last: terms.len() == count };
        operands(insn);
        emitting(middle, frame, insn, span);
    }
}

proof fn assignments_are_orderly(assignments: Seq<Assignment>, positions: Seq<u32>, state: Lowering, frame: int)
    requires
        orderly(state, frame),
        frame <= 65536,
        forall|i: int|
            0 <= i < assignments.len() ==> (#[trigger] assignments[i]).slot.0 < frame && assignments[i].value.lowerable(
                positions.len() as int,
                frame,
            ),
        fits_a_tape(lower_assignments(assignments, positions, state)),
    ensures
        orderly(lower_assignments(assignments, positions, state), frame),
    decreases assignments, 0nat,
{
    if assignments.len() > 0 {
        let rest = assignments.drop_last();
        let assignment = assignments.last();
        let before = lower_assignments(rest, positions, state);
        let dst = Some(local_register(assignment.slot));
        assert(assignment == assignments[assignments.len() - 1]);
        assert forall|i: int|
            0 <= i < rest.len() implies (#[trigger] rest[i]).slot.0 < frame && rest[i].value.lowerable(
            positions.len() as int,
            frame,
        ) by {
            assert(rest[i] == assignments[i]);
        }
        lowering_continues(assignment.value, positions, dst, before);
        assignments_are_orderly(rest, positions, state, frame);
        lowering_is_orderly(assignment.value, positions, dst, before, frame);
        let middle = lower(assignment.value, positions, dst, before).0;
        let after = lower_assignments(assignments, positions, state);
        preparing(middle, frame, after);
    }
}

proof fn block_is_orderly(block: Block, positions: Seq<u32>, dst: Option<VirtualRegister>, state: Lowering, frame: int)
    requires
        orderly(state, frame),
        frame <= 65536,
        block.lowerable(positions.len() as int, frame),
        aimed(dst, frame),
        fits_a_tape(lower_block(block, positions, dst, state).0),
    ensures
        delivered(lower_block(block, positions, dst, state), frame),
    decreases block, 0nat,
{
    let middle = lower_assignments(block.assignments@, positions, state);
    lowering_continues(block.result, positions, dst, middle);
    assignments_are_orderly(block.assignments@, positions, state, frame);
    lowering_is_orderly(block.result, positions, dst, middle, frame);
}

/// Whether a tape is what a program was lowered to.
pub open spec fn is_emitted(tape: VirtualTape, program: Program, positions: Seq<u32>) -> bool {
    let (state, result) = lowered(program, positions);
    &&& tape.consts.well_formed()
    &&& tape.consts@ == state.pool
    &&& tape.locals == program.frame_size
    &&& tape.temps == state.temps
    &&& tape.insns@ == state.insns
    &&& tape.spans@ == state.spans
    &&& tape.result == result
    &&& tape.partials@.len() == 0
}

/// What is emitted can be run.
pub proof fn an_emitted_tape_is_runnable(tape: VirtualTape, program: Program, positions: Seq<u32>)
    requires
        program.frame_size < 65536,
        program.body.lowerable(positions.len() as int, program.frame_size as int),
        fits_a_tape(lowered(program, positions).0),
        is_emitted(tape, program, positions),
    ensures
        tape.runnable(),
{
    let frame = program.frame_size as int;
    let start = blank(program.frame_size as nat);
    let (state, result) = lowered(program, positions);
    block_continues(program.body, positions, None, start);
    block_is_orderly(program.body, positions, None, start, frame);
    assert forall|i: int| 0 <= i < tape.insns@.len() implies ((#[trigger] tape.insns@[i]).written() is Some ==> tape.has(
        tape.insns@[i].written()->0,
    ) && !(tape.insns@[i].written()->0 is Const)) by {
        assert(state.insns[i].written() is Some ==> writable(state, frame, state.insns[i].written()->0));
    }
    assert forall|i: int, k: int| 0 <= i < tape.insns@.len() && 0 <= k < tape.insns@[i].read().len() implies tape.readable(
        #[trigger] tape.insns@[i].read()[k],
        i,
    ) by {
        assert(in_use(state, frame, state.insns[i].read()[k], i));
    }
    assert forall|k: int| 0 <= k < tape.outputs().len() implies tape.readable(
        #[trigger] tape.outputs()[k],
        tape.insns@.len() as int,
    ) by {
        assert(tape.outputs()[k] == result);
    }
}

/// Every register of what is lowered is one of the pool's, the frame's or the
/// temporaries'.
pub proof fn what_is_lowered_fits(program: Program, positions: Seq<u32>)
    requires
        program.frame_size < 65536,
        program.body.lowerable(positions.len() as int, program.frame_size as int),
        fits_a_tape(lowered(program, positions).0),
    ensures
        ({
            let (state, result) = lowered(program, positions);
            &&& 0 <= state.temps
            &&& fits(result, state.pool.len() as int, program.frame_size as int, state.temps)
            &&& forall|i: int|
                0 <= i < state.insns.len() ==> all_fit(
                    #[trigger] state.insns[i],
                    state.pool.len() as int,
                    program.frame_size as int,
                    state.temps,
                )
        }),
{
    let frame = program.frame_size as int;
    let (state, result) = lowered(program, positions);
    block_is_orderly(program.body, positions, None, blank(program.frame_size as nat), frame);
    assert forall|i: int| 0 <= i < state.insns.len() implies all_fit(
        #[trigger] state.insns[i],
        state.pool.len() as int,
        frame,
        state.temps,
    ) by {
        assert(state.insns[i].written() is Some ==> writable(state, frame, state.insns[i].written()->0));
        assert forall|k: int| 0 <= k < state.insns[i].read().len() implies fits(
            #[trigger] state.insns[i].read()[k],
            state.pool.len() as int,
            frame,
            state.temps,
        ) by {
            assert(in_use(state, frame, state.insns[i].read()[k], i));
        }
    }
}

} // verus!
