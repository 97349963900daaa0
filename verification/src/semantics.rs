//! What an expression and a tape mean.
//!
//! [`evaluate`] is the meaning of a tree: a walk in source order that stops at
//! the first value that is not finite. [`run`] is the meaning of a tape. That
//! lowering takes the one to the other is proved where lowering is.

use vstd::prelude::*;
use crate::ast::{marked, Assignment, BinaryOp, Block, CompareOp, Expr, Kind, UnaryOp, POWER_LIMIT};
use crate::diagnostics::Span;
use crate::machine::Arithmetic;
use crate::number::{at_most_one_integer, index_of, is_index, nan, negative_infinity, one, zero, Real};
use crate::tape::{Accumulate, FaultKind, Instruction};

verus! {

/// The arithmetic a program runs on: the machine's, and the residual a
/// comparison stands for under the `<= 0` convention.
pub ghost struct Semantics {
    pub arithmetic: Arithmetic,
    pub residual: spec_fn(CompareOp, Real, Real) -> Real,
}

/// A fault and the text it is reported at.
pub ghost struct Trouble {
    pub kind: FaultKind,
    pub span: Span,
}

/// A value that has to be finite.
pub open spec fn checked(value: Real) -> Result<Real, FaultKind> {
    if value.finite() {
        Ok(value)
    } else {
        Err(FaultKind::NonFinite(value))
    }
}

/// `row[index]`, one-based, for an index that has to be a whole number and in
/// range.
pub open spec fn gathered(row: Seq<Real>, index: Real) -> Result<Real, FaultKind> {
    match index_of(index) {
        None => Err(FaultKind::NotAnInteger(index)),
        Some(n) => if 1 <= n <= row.len() {
            checked(row[n - 1])
        } else {
            Err(FaultKind::OutOfBounds { requested_1index: n, available: row.len() as usize })
        },
    }
}

/// Where a fault of a subscripted read is reported: a bad subscript at the
/// subscript, a bad value at the read.
pub open spec fn gather_span(kind: FaultKind, subscript: Span, at: Span) -> Span {
    match kind {
        FaultKind::NonFinite(_) => at,
        _ => subscript,
    }
}

// ---- trees ----

/// The values of the locals, `None` where nothing was assigned yet.
pub type Frame = Seq<Option<Real>>;

/// A checked value, as the outcome of a node at `span`.
pub open spec fn settled(value: Real, frame: Frame, span: Span) -> Result<(Real, Frame), Trouble> {
    match checked(value) {
        Ok(value) => Ok((value, frame)),
        Err(kind) => Err(Trouble { kind, span }),
    }
}

/// `(b - t)` and `(b + t)` bracket `b`; the residual is the worse of `a`
/// against each end. Every step is checked.
pub open spec fn near(semantics: Semantics, a: Real, b: Real, tolerance: Real, frame: Frame, span: Span) -> Result<
    (Real, Frame),
    Trouble,
> {
    let floor = semantics.arithmetic.minus(b, tolerance);
    let ceiling = semantics.arithmetic.plus(b, tolerance);
    let at_least = (semantics.residual)(CompareOp::Gte, a, floor);
    let at_most = (semantics.residual)(CompareOp::Lte, a, ceiling);
    if !floor.finite() {
        settled(floor, frame, span)
    } else if !ceiling.finite() {
        settled(ceiling, frame, span)
    } else if !at_least.finite() {
        settled(at_least, frame, span)
    } else if !at_most.finite() {
        settled(at_most, frame, span)
    } else {
        settled(at_least.larger(at_most), frame, span)
    }
}

/// What `e` evaluates to at `row`, where `positions[g]` is the row a global
/// reads, and the frame afterwards.
pub open spec fn evaluate(e: Expr, semantics: Semantics, positions: Seq<u32>, row: Seq<Real>, frame: Frame) -> Result<
    (Real, Frame),
    Trouble,
>
    decreases e, 0nat,
{
    match e.kind {
        Kind::Literal(value) => Ok((value, frame)),
        Kind::Global(id) => settled(row[positions[id.0 as int] as int], frame, e.span),
        Kind::Local(slot) => match frame[slot.0 as int] {
            Some(value) => Ok((value, frame)),
            None => settled(nan(), frame, e.span),
        },
        Kind::DynamicIndex(subscript) => match evaluate(*subscript, semantics, positions, row, frame) {
            Err(trouble) => Err(trouble),
            Ok((index, frame)) => match gathered(row, index) {
                Ok(value) => Ok((value, frame)),
                Err(kind) => Err(Trouble { kind, span: gather_span(kind, subscript.span, e.span) }),
            },
        },
        Kind::Unary { op, arg } => match evaluate(*arg, semantics, positions, row, frame) {
            Err(trouble) => Err(trouble),
            Ok((a, frame)) => settled(op.value(semantics.arithmetic, a), frame, e.span),
        },
        Kind::Binary { op, lhs, rhs } => match evaluate(*lhs, semantics, positions, row, frame) {
            Err(trouble) => Err(trouble),
            Ok((a, frame)) => match evaluate(*rhs, semantics, positions, row, frame) {
                Err(trouble) => Err(trouble),
                Ok((b, frame)) => settled(op.value(semantics.arithmetic, a, b), frame, e.span),
            },
        },
        Kind::Compare { op, lhs, rhs } => match evaluate(*lhs, semantics, positions, row, frame) {
            Err(trouble) => Err(trouble),
            Ok((a, frame)) => match evaluate(*rhs, semantics, positions, row, frame) {
                Err(trouble) => Err(trouble),
                Ok((b, frame)) => settled((semantics.residual)(op, a, b), frame, e.span),
            },
        },
        Kind::NearEq { lhs, rhs, tolerance } => match evaluate(*lhs, semantics, positions, row, frame) {
            Err(trouble) => Err(trouble),
            Ok((a, frame)) => match evaluate(*rhs, semantics, positions, row, frame) {
                Err(trouble) => Err(trouble),
                Ok((b, frame)) => near(semantics, a, b, tolerance, frame, e.span),
            },
        },
        Kind::Fold { kind, terms } => evaluate_fold(
            terms@,
            Accumulate::from_aggregate(kind),
            semantics,
            positions,
            row,
            frame,
            e.span,
        ),
        Kind::And { terms } => evaluate_fold(terms@, Accumulate::Worst, semantics, positions, row, frame, e.span),
        Kind::Block(block) => evaluate_block(*block, semantics, positions, row, frame),
        Kind::Aggregate { .. } => Ok((nan(), frame)),
    }
}

/// A fold's value: its terms accumulated left to right, checked at the end and
/// nowhere before.
pub open spec fn evaluate_fold(
    terms: Seq<Expr>,
    how: Accumulate,
    semantics: Semantics,
    positions: Seq<u32>,
    row: Seq<Real>,
    frame: Frame,
    span: Span,
) -> Result<(Real, Frame), Trouble>
    decreases terms, 1nat,
{
    if terms.len() == 0 {
        Ok((how.identity(), frame))
    } else {
        match evaluate_terms(terms, how, semantics, positions, row, frame) {
            Err(trouble) => Err(trouble),
            Ok((value, frame)) => settled(value, frame, span),
        }
    }
}

/// The terms accumulated left to right from the identity.
pub open spec fn evaluate_terms(
    terms: Seq<Expr>,
    how: Accumulate,
    semantics: Semantics,
    positions: Seq<u32>,
    row: Seq<Real>,
    frame: Frame,
) -> Result<(Real, Frame), Trouble>
    decreases terms, 0nat,
{
    if terms.len() == 0 {
        Ok((how.identity(), frame))
    } else {
        match evaluate_terms(terms.drop_last(), how, semantics, positions, row, frame) {
            Err(trouble) => Err(trouble),
            Ok((accumulated, frame)) => match evaluate(terms.last(), semantics, positions, row, frame) {
                Err(trouble) => Err(trouble),
                Ok((term, frame)) => Ok((how.value(semantics.arithmetic, accumulated, term), frame)),
            },
        }
    }
}

/// The frame after a sequence of assignments.
pub open spec fn evaluate_assignments(
    assignments: Seq<Assignment>,
    semantics: Semantics,
    positions: Seq<u32>,
    row: Seq<Real>,
    frame: Frame,
) -> Result<Frame, Trouble>
    decreases assignments, 0nat,
{
    if assignments.len() == 0 {
        Ok(frame)
    } else {
        match evaluate_assignments(assignments.drop_last(), semantics, positions, row, frame) {
            Err(trouble) => Err(trouble),
            Ok(frame) => match evaluate(assignments.last().value, semantics, positions, row, frame) {
                Err(trouble) => Err(trouble),
                Ok((value, frame)) => Ok(frame.update(assignments.last().slot.0 as int, Some(value))),
            },
        }
    }
}

/// A block: its assignments in order, then its result.
pub open spec fn evaluate_block(
    block: Block,
    semantics: Semantics,
    positions: Seq<u32>,
    row: Seq<Real>,
    frame: Frame,
) -> Result<(Real, Frame), Trouble>
    decreases block, 0nat,
{
    match evaluate_assignments(block.assignments@, semantics, positions, row, frame) {
        Err(trouble) => Err(trouble),
        Ok(frame) => evaluate(block.result, semantics, positions, row, frame),
    }
}

// ---- tapes ----

/// The register file: what was never written reads as a NaN.
pub open spec fn held<R>(registers: Map<R, Real>, register: R) -> Real {
    if registers.contains_key(register) {
        registers[register]
    } else {
        nan()
    }
}

/// The register file after a write of a value that has to be finite.
pub open spec fn wrote<R>(registers: Map<R, Real>, dst: R, value: Result<Real, FaultKind>) -> Result<
    Map<R, Real>,
    FaultKind,
> {
    match value {
        Ok(value) => Ok(registers.insert(dst, value)),
        Err(kind) => Err(kind),
    }
}

/// One instruction.
pub open spec fn step<R>(insn: Instruction<R>, semantics: Semantics, row: Seq<Real>, registers: Map<R, Real>) -> Result<
    Map<R, Real>,
    FaultKind,
> {
    match insn {
        Instruction::Load { dst, input } => wrote(registers, dst, checked(row[input as int])),
        Instruction::Copy { dst, src } => Ok(registers.insert(dst, held(registers, src))),
        Instruction::Unary { dst, op, a } => wrote(
            registers,
            dst,
            checked(op.value(semantics.arithmetic, held(registers, a))),
        ),
        Instruction::Binary { dst, op, a, b } => wrote(
            registers,
            dst,
            checked(op.value(semantics.arithmetic, held(registers, a), held(registers, b))),
        ),
        Instruction::Compare { dst, op, a, b } => wrote(
            registers,
            dst,
            checked((semantics.residual)(op, held(registers, a), held(registers, b))),
        ),
        Instruction::Combine { dst, how, a, b, last } => {
            let value = how.value(semantics.arithmetic, held(registers, a), held(registers, b));
            wrote(registers, dst, if last { checked(value) } else { Ok(value) })
        },
        Instruction::Check { reg } => match checked(held(registers, reg)) {
            Ok(_) => Ok(registers),
            Err(kind) => Err(kind),
        },
        Instruction::Gather { dst, index, subscript } => wrote(registers, dst, gathered(row, held(registers, index))),
    }
}

/// How far a tape got.
#[verifier::reject_recursive_types(R)]
pub ghost enum Run<R> {
    Running(Map<R, Real>),
    Faulted { insn: int, kind: FaultKind },
}

/// The instructions in order, up to the first fault.
pub open spec fn run<R>(
    insns: Seq<Instruction<R>>,
    semantics: Semantics,
    row: Seq<Real>,
    registers: Map<R, Real>,
) -> Run<R>
    decreases insns.len(),
{
    if insns.len() == 0 {
        Run::Running(registers)
    } else {
        match run(insns.drop_last(), semantics, row, registers) {
            Run::Faulted { insn, kind } => Run::Faulted { insn, kind },
            Run::Running(before) => match step(insns.last(), semantics, row, before) {
                Ok(after) => Run::Running(after),
                Err(kind) => Run::Faulted { insn: insns.len() - 1, kind },
            },
        }
    }
}

/// Where a tape reports a fault of one of its instructions.
pub open spec fn reported<R>(insn: Instruction<R>, span: Span, kind: FaultKind) -> Trouble {
    match insn {
        Instruction::Gather { subscript, .. } => Trouble { kind, span: gather_span(kind, subscript, span) },
        _ => Trouble { kind, span },
    }
}

/// Appending an instruction runs it last.
pub proof fn run_of_push<R>(
    insns: Seq<Instruction<R>>,
    insn: Instruction<R>,
    semantics: Semantics,
    row: Seq<Real>,
    registers: Map<R, Real>,
)
    ensures
        run(insns.push(insn), semantics, row, registers) == (match run(insns, semantics, row, registers) {
            Run::Faulted { insn, kind } => Run::Faulted { insn, kind },
            Run::Running(before) => match step(insn, semantics, row, before) {
                Ok(after) => Run::Running(after),
                Err(kind) => Run::Faulted { insn: insns.len() as int, kind },
            },
        }),
{
    assert(insns.push(insn).drop_last() =~= insns);
}

/// A fault is final: nothing after it changes it.
pub proof fn a_fault_is_final<R>(
    insns: Seq<Instruction<R>>,
    more: Seq<Instruction<R>>,
    semantics: Semantics,
    row: Seq<Real>,
    registers: Map<R, Real>,
)
    requires
        run(insns, semantics, row, registers) is Faulted,
    ensures
        run(insns + more, semantics, row, registers) == run(insns, semantics, row, registers),
    decreases more.len(),
{
    if more.len() == 0 {
        assert(insns + more =~= insns);
    } else {
        a_fault_is_final(insns, more.drop_last(), semantics, row, registers);
        assert((insns + more).drop_last() =~= insns + more.drop_last());
    }
}

// ---- what a value means ----

/// An equality to a tolerance holds exactly where both of its halves do: what is on
/// the left is at least the tolerance below what is on the right, and at most the
/// tolerance above.
pub proof fn near_is_between(semantics: Semantics, a: Real, b: Real, tolerance: Real, frame: Frame, span: Span)
    requires
        near(semantics, a, b, tolerance, frame, span) is Ok,
    ensures
        ({
            let (value, after) = near(semantics, a, b, tolerance, frame, span)->Ok_0;
            let low = semantics.arithmetic.minus(b, tolerance);
            let high = semantics.arithmetic.plus(b, tolerance);
            &&& after == frame
            &&& value.at_most(zero()) <==> (semantics.residual)(CompareOp::Gte, a, low).at_most(zero())
                && (semantics.residual)(CompareOp::Lte, a, high).at_most(zero())
        }),
{
}

/// What has to be finite is: an operator's value, a comparison's, and an input's that
/// come out are finite, and what is not is a fault that names it.
pub proof fn what_comes_out_is_finite(value: Real, frame: Frame, span: Span)
    ensures
        match settled(value, frame, span) {
            Ok((out, after)) => out == value && out.finite() && after == frame,
            Err(trouble) => !value.finite() && trouble.kind == FaultKind::NonFinite(value) && trouble.span == span,
        },
{
}

/// A subscript counts from one: what it reads is the input of that place, where it
/// is a whole number from one to as many as there are; a fraction and a place that
/// there is not are faults of their own.
pub proof fn a_subscript_counts_from_one(row: Seq<Real>, index: Real, n: i64)
    requires
        is_index(index, n),
        row.len() <= usize::MAX,
    ensures
        1 <= n <= row.len() && row[n - 1].finite() ==> gathered(row, index) == Ok::<Real, FaultKind>(row[n - 1]),
        1 <= n <= row.len() && !row[n - 1].finite() ==> gathered(row, index) == Err::<Real, FaultKind>(
            FaultKind::NonFinite(row[n - 1]),
        ),
        !(1 <= n <= row.len()) ==> gathered(row, index) == Err::<Real, FaultKind>(
            FaultKind::OutOfBounds { requested_1index: n, available: row.len() as usize },
        ),
{
    let found = choose|m: i64| is_index(index, m);
    assert(is_index(index, found));
    at_most_one_integer(index, n as int, found as int);
}

/// A number that is no whole number is no subscript.
pub proof fn a_fraction_is_no_subscript(row: Seq<Real>, index: Real)
    requires
        forall|n: i64| !#[trigger] is_index(index, n),
    ensures
        gathered(row, index) == Err::<Real, FaultKind>(FaultKind::NotAnInteger(index)),
{
}

/// A sum is its terms added, a product its terms multiplied, and a conjunction the
/// worst of them: what a list of terms comes to is what the list without its last
/// comes to and the last come to together.
pub proof fn a_fold_takes_every_term(
    terms: Seq<Expr>,
    how: Accumulate,
    semantics: Semantics,
    positions: Seq<u32>,
    row: Seq<Real>,
    frame: Frame,
)
    requires
        terms.len() > 0,
        evaluate_terms(terms, how, semantics, positions, row, frame) is Ok,
    ensures
        ({
            let fewer = evaluate_terms(terms.drop_last(), how, semantics, positions, row, frame);
            let last = evaluate(terms.last(), semantics, positions, row, fewer->Ok_0.1);
            let all = evaluate_terms(terms, how, semantics, positions, row, frame)->Ok_0;
            &&& fewer is Ok
            &&& last is Ok
            &&& how is Sum ==> all.0 == semantics.arithmetic.plus(fewer->Ok_0.0, last->Ok_0.0)
            &&& how is Prod ==> all.0 == semantics.arithmetic.times(fewer->Ok_0.0, last->Ok_0.0)
            &&& how is Worst ==> all.0 == fewer->Ok_0.0.larger(last->Ok_0.0)
        }),
{
}

/// A list of no terms comes to what changes nothing: a sum to zero, a product to
/// one, a conjunction to what every constraint is better than.
pub proof fn a_fold_starts_from_nothing(
    how: Accumulate,
    semantics: Semantics,
    positions: Seq<u32>,
    row: Seq<Real>,
    frame: Frame,
)
    ensures
        evaluate_terms(Seq::empty(), how, semantics, positions, row, frame) == Ok::<(Real, Frame), Trouble>(
            (
                if how is Sum {
                    zero()
                } else if how is Prod {
                    one()
                } else {
                    negative_infinity()
                },
                frame,
            ),
        ),
{
}

/// A conjunction holds exactly where each of its terms does: the worst of them is at
/// most zero where all of them are.
pub proof fn a_conjunction_holds_where_its_terms_do(
    terms: Seq<Expr>,
    semantics: Semantics,
    positions: Seq<u32>,
    row: Seq<Real>,
    frame: Frame,
)
    requires
        terms.len() > 0,
        evaluate_terms(terms, Accumulate::Worst, semantics, positions, row, frame) is Ok,
        !(evaluate_terms(terms, Accumulate::Worst, semantics, positions, row, frame)->Ok_0.0).nan(),
    ensures
        ({
            let fewer = evaluate_terms(terms.drop_last(), Accumulate::Worst, semantics, positions, row, frame)->Ok_0;
            let last = evaluate(terms.last(), semantics, positions, row, fewer.1)->Ok_0.0;
            let all = evaluate_terms(terms, Accumulate::Worst, semantics, positions, row, frame)->Ok_0.0;
            all.at_most(zero()) <==> fewer.0.at_most(zero()) && last.at_most(zero())
        }),
{
}

/// A local reads what was assigned to it last.
pub proof fn a_local_is_what_was_assigned(
    assignments: Seq<Assignment>,
    semantics: Semantics,
    positions: Seq<u32>,
    row: Seq<Real>,
    frame: Frame,
    e: Expr,
)
    requires
        assignments.len() > 0,
        evaluate_assignments(assignments, semantics, positions, row, frame) is Ok,
        assignments.last().slot.0 < evaluate(
            assignments.last().value,
            semantics,
            positions,
            row,
            evaluate_assignments(assignments.drop_last(), semantics, positions, row, frame)->Ok_0,
        )->Ok_0.1.len(),
        e.kind == Kind::Local(assignments.last().slot),
    ensures
        ({
            let before = evaluate_assignments(assignments.drop_last(), semantics, positions, row, frame);
            let value = evaluate(assignments.last().value, semantics, positions, row, before->Ok_0);
            let after = evaluate_assignments(assignments, semantics, positions, row, frame)->Ok_0;
            &&& before is Ok
            &&& value is Ok
            &&& evaluate(e, semantics, positions, row, after) == Ok::<(Real, Frame), Trouble>((value->Ok_0.0, after))
        }),
{
    let before = evaluate_assignments(assignments.drop_last(), semantics, positions, row, frame);
    assert(before is Ok);
    let value = evaluate(assignments.last().value, semantics, positions, row, before->Ok_0);
    assert(value is Ok);
    let after = evaluate_assignments(assignments, semantics, positions, row, frame)->Ok_0;
    assert(after == value->Ok_0.1.update(assignments.last().slot.0 as int, Some(value->Ok_0.0)));
    assert(after[assignments.last().slot.0 as int] == Some(value->Ok_0.0));
}

/// A tree is evaluated operand by operand, left before right: an operator's value is
/// what the operator makes of its operands', and a fault of an operand is the fault of
/// the whole.
pub proof fn an_operator_is_applied_to_its_operands(
    e: Expr,
    semantics: Semantics,
    positions: Seq<u32>,
    row: Seq<Real>,
    frame: Frame,
)
    ensures
        e.kind matches Kind::Binary { op, lhs, rhs } ==> {
            let a = evaluate(*lhs, semantics, positions, row, frame);
            let b = evaluate(*rhs, semantics, positions, row, a->Ok_0.1);
            let all = evaluate(e, semantics, positions, row, frame);
            &&& a is Err ==> all == a
            &&& a is Ok && b is Err ==> all == b
            &&& a is Ok && b is Ok && op.value(semantics.arithmetic, a->Ok_0.0, b->Ok_0.0).finite() ==> all == Ok::<
                (Real, Frame),
                Trouble,
            >((op.value(semantics.arithmetic, a->Ok_0.0, b->Ok_0.0), b->Ok_0.1))
        },
        e.kind matches Kind::Unary { op, arg } ==> {
            let a = evaluate(*arg, semantics, positions, row, frame);
            let all = evaluate(e, semantics, positions, row, frame);
            &&& a is Err ==> all == a
            &&& a is Ok && op.value(semantics.arithmetic, a->Ok_0.0).finite() ==> all == Ok::<(Real, Frame), Trouble>(
                (op.value(semantics.arithmetic, a->Ok_0.0), a->Ok_0.1),
            )
        },
        e.kind matches Kind::Global(id) ==> {
            let value = row[positions[id.0 as int] as int];
            value.finite() ==> evaluate(e, semantics, positions, row, frame) == Ok::<(Real, Frame), Trouble>(
                (value, frame),
            )
        },
        e.kind matches Kind::Literal(value) ==> evaluate(e, semantics, positions, row, frame) == Ok::<
            (Real, Frame),
            Trouble,
        >((value, frame)),
{
}

// ---- whole numbers ----

/// Whether a number is a whole one.
pub open spec fn is_whole(value: Real) -> bool {
    exists|n: int| #[trigger] value.equals_integer(n)
}

/// Whether a function gives a whole number, where it gives a finite one: `floor`,
/// `ceil` and the sign of anything, and what has no fraction of what has none.
pub open spec fn function_keeps_wholes(arithmetic: Arithmetic, op: UnaryOp, a: Real) -> bool {
    let given = match op {
        UnaryOp::Floor | UnaryOp::Ceil | UnaryOp::Sgn => true,
        UnaryOp::Negate | UnaryOp::Abs | UnaryOp::Sqr | UnaryOp::Cube => is_whole(a),
        _ => false,
    };
    given && op.value(arithmetic, a).finite() ==> is_whole(op.value(arithmetic, a))
}

/// Whether an operator gives a whole number of whole ones, where it gives a finite one:
/// all but the quotient and the logarithm, and a power only to a small whole exponent
/// that is not negative.
pub open spec fn operator_keeps_wholes(arithmetic: Arithmetic, op: BinaryOp, a: Real, b: Real) -> bool {
    let given = match op {
        BinaryOp::Div | BinaryOp::LogB => false,
        BinaryOp::Pow => exists|n: int| 0 <= n <= POWER_LIMIT && #[trigger] b.equals_integer(n),
        _ => true,
    };
    given && is_whole(a) && is_whole(b) && op.value(arithmetic, a, b).finite() ==> is_whole(op.value(arithmetic, a, b))
}

/// Whether whole numbers stay whole under the functions and operators that are to keep
/// them so.
pub open spec fn keeps_wholes(arithmetic: Arithmetic) -> bool {
    &&& forall|op: UnaryOp, a: Real| #[trigger] function_keeps_wholes(arithmetic, op, a)
    &&& forall|op: BinaryOp, a: Real, b: Real| #[trigger] operator_keeps_wholes(arithmetic, op, a, b)
}

/// Whether a tree is made of numbers, variables, functions and operators alone.
pub open spec fn is_formula(e: Expr) -> bool
    decreases e,
{
    match e.kind {
        Kind::Literal(_) | Kind::Global(_) | Kind::Local(_) => true,
        Kind::Unary { arg, .. } => is_formula(*arg),
        Kind::Binary { lhs, rhs, .. } => is_formula(*lhs) && is_formula(*rhs),
        _ => false,
    }
}

/// Whether every local that is marked, and assigned, is a whole number.
pub open spec fn are_whole_where_marked(marks: Seq<bool>, frame: Frame) -> bool {
    forall|slot: int|
        0 <= slot < marks.len() && #[trigger] marks[slot] ==> (frame[slot] matches Some(value) ==> is_whole(value))
}

/// A formula that is whole by construction is whole: where the marked locals are whole
/// numbers, and whole numbers stay whole under what is to keep them so, what it comes
/// to is one; and it changes no local.
pub proof fn what_is_integral_is_whole(
    e: Expr,
    semantics: Semantics,
    positions: Seq<u32>,
    row: Seq<Real>,
    marks: Seq<bool>,
    frame: Frame,
)
    requires
        is_formula(e),
        e.fits(marks.len() as int),
        keeps_wholes(semantics.arithmetic),
        are_whole_where_marked(marks, frame),
    ensures
        evaluate(e, semantics, positions, row, frame) matches Ok(end) ==> end.1 == frame && (e.integral(marks)
            ==> is_whole(end.0)),
    decreases e,
{
    match e.kind {
        Kind::Literal(value) => {
            if index_of(value) is Some {
                let n = choose|n: i64| is_index(value, n);
                assert(value.equals_integer(n as int));
            }
        },
        Kind::Local(slot) => {
            assert(marks[slot.0 as int] ==> (frame[slot.0 as int] matches Some(value) ==> is_whole(value)));
        },
        Kind::Unary { op, arg } => {
            what_is_integral_is_whole(*arg, semantics, positions, row, marks, frame);
            if let Ok((a, after)) = evaluate(*arg, semantics, positions, row, frame) {
                assert(function_keeps_wholes(semantics.arithmetic, op, a));
            }
        },
        Kind::Binary { op, lhs, rhs } => {
            what_is_integral_is_whole(*lhs, semantics, positions, row, marks, frame);
            what_is_integral_is_whole(*rhs, semantics, positions, row, marks, frame);
            if let Ok((a, after)) = evaluate(*lhs, semantics, positions, row, frame) {
                if let Ok((b, end)) = evaluate(*rhs, semantics, positions, row, after) {
                    assert(operator_keeps_wholes(semantics.arithmetic, op, a, b));
                    if op is Pow && rhs.exponent() is Some && rhs.exponent()->0 >= 0 {
                        let n = choose|n: i64| is_index(b, n);
                        assert(is_index(b, n));
                        assert(b.equals_integer(n as int));
                    }
                }
            }
        },
        _ => {},
    }
}

/// A local that is marked whole was assigned a whole number: as assignments of formulas
/// go by, the marks stay true of the locals.
pub proof fn what_is_marked_is_whole(
    assignments: Seq<Assignment>,
    semantics: Semantics,
    positions: Seq<u32>,
    row: Seq<Real>,
    marks: Seq<bool>,
    frame: Frame,
)
    requires
        forall|i: int|
            0 <= i < assignments.len() ==> is_formula((#[trigger] assignments[i]).value) && assignments[i].slot.0
                < marks.len() && assignments[i].value.fits(marks.len() as int),
        marks.len() == frame.len(),
        keeps_wholes(semantics.arithmetic),
        are_whole_where_marked(marks, frame),
    ensures
        evaluate_assignments(assignments, semantics, positions, row, frame) matches Ok(end)
            ==> are_whole_where_marked(marked(assignments, marks), end) && end.len() == frame.len(),
        marked(assignments, marks).len() == marks.len(),
    decreases assignments.len(),
{
    if assignments.len() > 0 {
        let fewer = assignments.drop_last();
        let last = assignments.last();
        assert forall|i: int| 0 <= i < fewer.len() implies is_formula((#[trigger] fewer[i]).value) && fewer[i].slot.0
            < marks.len() && fewer[i].value.fits(marks.len() as int) by {
            assert(fewer[i] == assignments[i]);
        }
        what_is_marked_is_whole(fewer, semantics, positions, row, marks, frame);
        let before = marked(fewer, marks);
        assert(assignments[assignments.len() - 1] == last);
        if let Ok(middle) = evaluate_assignments(fewer, semantics, positions, row, frame) {
            what_is_integral_is_whole(last.value, semantics, positions, row, before, middle);
            let after = marked(assignments, marks);
            if let Ok(end) = evaluate_assignments(assignments, semantics, positions, row, frame) {
                assert forall|slot: int| 0 <= slot < after.len() && #[trigger] after[slot] implies (
                end[slot] matches Some(value) ==> is_whole(value)) by {
                    if slot != last.slot.0 {
                        assert(before[slot]);
                    }
                }
            }
        }
    }
}

} // verus!
