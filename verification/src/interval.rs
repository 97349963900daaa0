//! Closed intervals, and the arithmetic on them as the crate sees it.
//!
//! An interval stands for every number between its ends. What an operator makes
//! of whole intervals, and what it must have been given to land in one, is
//! decided by whoever implements [`Intervals`]; one rule is asked of it, that
//! the answer is a superset ([`encloses`]). Too wide costs a rejected proposal,
//! never a wrong point.

use vstd::prelude::*;
use crate::ast::{maximum, minimum, BinaryOp, UnaryOp};
use crate::machine::{arithmetic_of, deterministic, minus, Arithmetic, Machine};
use crate::number::{index_of, infinity, negative_infinity, Real};

verus! {

/// The numbers from `lo` to `hi`, both included.
#[derive(Debug, Clone, Copy, PartialEq, Eq, Structural)]
pub struct Interval {
    pub lo: Real,
    pub hi: Real,
}

impl Interval {
    #[verifier::allow_in_spec]
    pub fn new(lo: Real, hi: Real) -> Interval
        returns
            (Interval { lo, hi }),
    {
        Interval { lo, hi }
    }

    /// One number.
    #[verifier::allow_in_spec]
    pub fn point(value: Real) -> Interval
        returns
            (Interval { lo: value, hi: value }),
    {
        Interval { lo: value, hi: value }
    }

    /// Every number: what is known where nothing was concluded.
    #[verifier::allow_in_spec]
    pub fn entire() -> Interval
        returns
            (Interval { lo: negative_infinity(), hi: infinity() }),
    {
        Interval { lo: negative_infinity(), hi: infinity() }
    }

    /// No number.
    #[verifier::allow_in_spec]
    pub fn empty() -> Interval
        returns
            (Interval { lo: infinity(), hi: negative_infinity() }),
    {
        Interval { lo: infinity(), hi: negative_infinity() }
    }

    /// Whether `value` is between the ends.
    pub open spec fn has_value(self, value: Real) -> bool {
        self.lo.at_most(value) && value.at_most(self.hi)
    }

    pub fn contains(self, value: Real) -> (contained: bool)
        ensures
            contained == self.has_value(value),
    {
        self.lo.le(value) && value.le(self.hi)
    }

    /// Whether nothing is between the ends.
    pub open spec fn has_nothing(self) -> bool {
        !self.lo.at_most(self.hi)
    }

    pub fn is_empty(self) -> (empty: bool)
        ensures
            empty == self.has_nothing(),
    {
        !self.lo.le(self.hi)
    }

    pub fn is_entire(self) -> (entire: bool)
        ensures
            entire == (self == Interval::entire()),
    {
        self.lo.to_bits() == negative_infinity().to_bits() && self.hi.to_bits() == infinity().to_bits()
    }

    /// What is in both.
    pub open spec fn common(self, other: Interval) -> Interval {
        Interval { lo: self.lo.larger(other.lo), hi: self.hi.smaller(other.hi) }
    }

    pub fn intersect(self, other: Interval) -> (both: Interval)
        ensures
            both == self.common(other),
    {
        Interval { lo: maximum(self.lo, other.lo), hi: minimum(self.hi, other.hi) }
    }

    /// How far apart the ends are.
    pub open spec fn extent(self, arithmetic: Arithmetic) -> Real {
        arithmetic.minus(self.hi, self.lo)
    }

    pub fn width<M: Machine>(self, machine: &M) -> (width: Real)
        ensures
            deterministic(*machine) ==> width == self.extent(arithmetic_of(*machine)),
    {
        minus(machine, self.hi, self.lo)
    }
}

/// What is in two intervals is in what they have in common.
pub proof fn common_has_what_both_have(a: Interval, b: Interval, value: Real)
    requires
        a.has_value(value),
        b.has_value(value),
    ensures
        a.common(b).has_value(value),
{
}

/// What two intervals have in common has nothing else.
pub proof fn common_has_nothing_else(a: Interval, b: Interval, value: Real)
    requires
        a.common(b).has_value(value),
    ensures
        a.has_value(value),
        b.has_value(value),
{
}

/// An interval that has a number is not empty, and the other way round.
pub proof fn empty_has_nothing(a: Interval)
    ensures
        a.has_nothing() <==> forall|value: Real| !#[trigger] a.has_value(value),
{
    if !a.has_nothing() {
        assert(a.has_value(a.lo));
    }
}

/// Everything but a NaN is in [`Interval::entire`].
pub proof fn entire_has_every_number(value: Real)
    requires
        !value.nan(),
    ensures
        Interval::entire().has_value(value),
{
}

// ---- operators ----

/// A source of interval arithmetic.
pub trait Intervals {
    /// What `op` may give, of what is in `x`.
    fn unary(&self, op: UnaryOp, x: Interval) -> (image: Interval);

    fn binary(&self, op: BinaryOp, a: Interval, b: Interval) -> (image: Interval);

    /// What the whole power `n` may give.
    fn power(&self, x: Interval, n: i64) -> (image: Interval);

    /// What in `x` may give something in `target`.
    fn invert_unary(&self, op: UnaryOp, target: Interval, x: Interval) -> (preimage: Interval);

    fn invert_binary(
        &self,
        op: BinaryOp,
        target: Interval,
        a: Interval,
        b: Interval,
    ) -> (preimages: (Interval, Interval));

    fn invert_power(&self, target: Interval, n: i64, x: Interval) -> (preimage: Interval);
}

/// An interval arithmetic: the answer to every question.
pub ghost struct Enclosures {
    pub unary: spec_fn(UnaryOp, Interval) -> Interval,
    pub binary: spec_fn(BinaryOp, Interval, Interval) -> Interval,
    pub power: spec_fn(Interval, i64) -> Interval,
    pub invert_unary: spec_fn(UnaryOp, Interval, Interval) -> Interval,
    pub invert_binary: spec_fn(BinaryOp, Interval, Interval, Interval) -> (Interval, Interval),
    pub invert_power: spec_fn(Interval, i64, Interval) -> Interval,
}

/// Whether every answer `intervals` can give is the one `enclosures` has.
pub open spec fn answers<I: Intervals>(intervals: I, enclosures: Enclosures) -> bool {
    &&& forall|op: UnaryOp, x: Interval, y: Interval| #[trigger]
        call_ensures(I::unary, (&intervals, op, x), y) ==> y == (enclosures.unary)(op, x)
    &&& forall|op: BinaryOp, a: Interval, b: Interval, y: Interval| #[trigger]
        call_ensures(I::binary, (&intervals, op, a, b), y) ==> y == (enclosures.binary)(op, a, b)
    &&& forall|x: Interval, n: i64, y: Interval| #[trigger]
        call_ensures(I::power, (&intervals, x, n), y) ==> y == (enclosures.power)(x, n)
    &&& forall|op: UnaryOp, target: Interval, x: Interval, y: Interval| #[trigger]
        call_ensures(I::invert_unary, (&intervals, op, target, x), y) ==> y == (enclosures.invert_unary)(op, target, x)
    &&& forall|op: BinaryOp, target: Interval, a: Interval, b: Interval, y: (Interval, Interval)| #[trigger]
        call_ensures(I::invert_binary, (&intervals, op, target, a, b), y) ==> y == (enclosures.invert_binary)(
            op,
            target,
            a,
            b,
        )
    &&& forall|target: Interval, n: i64, x: Interval, y: Interval| #[trigger]
        call_ensures(I::invert_power, (&intervals, target, n, x), y) ==> y == (enclosures.invert_power)(target, n, x)
}

/// Whether `intervals` answers one question in one way.
pub open spec fn regular<I: Intervals>(intervals: I) -> bool {
    exists|enclosures: Enclosures| answers(intervals, enclosures)
}

/// The interval arithmetic of a regular source.
pub open spec fn enclosures_of<I: Intervals>(intervals: I) -> Enclosures {
    choose|enclosures: Enclosures| answers(intervals, enclosures)
}

/// Whether an image has the result for a value of its operand, if that is a
/// number.
pub open spec fn encloses_unary(
    enclosures: Enclosures,
    arithmetic: Arithmetic,
    op: UnaryOp,
    x: Interval,
    value: Real,
) -> bool {
    x.has_value(value) && !op.value(arithmetic, value).nan() ==> (enclosures.unary)(op, x).has_value(
        op.value(arithmetic, value),
    )
}

pub open spec fn encloses_binary(
    enclosures: Enclosures,
    arithmetic: Arithmetic,
    op: BinaryOp,
    a: Interval,
    b: Interval,
    p: Real,
    q: Real,
) -> bool {
    a.has_value(p) && b.has_value(q) && !op.value(arithmetic, p, q).nan() ==> (enclosures.binary)(op, a, b).has_value(
        op.value(arithmetic, p, q),
    )
}

pub open spec fn encloses_power(
    enclosures: Enclosures,
    arithmetic: Arithmetic,
    x: Interval,
    n: i64,
    value: Real,
    exponent: Real,
) -> bool {
    x.has_value(value) && index_of(exponent) == Some(n) && !BinaryOp::Pow.value(arithmetic, value, exponent).nan()
        ==> (enclosures.power)(x, n).has_value(BinaryOp::Pow.value(arithmetic, value, exponent))
}

/// Whether a preimage has a value of the operand that gives something in the
/// target.
pub open spec fn undoes_unary(
    enclosures: Enclosures,
    arithmetic: Arithmetic,
    op: UnaryOp,
    target: Interval,
    x: Interval,
    value: Real,
) -> bool {
    x.has_value(value) && target.has_value(op.value(arithmetic, value)) ==> (enclosures.invert_unary)(
        op,
        target,
        x,
    ).has_value(value)
}

pub open spec fn undoes_binary(
    enclosures: Enclosures,
    arithmetic: Arithmetic,
    op: BinaryOp,
    target: Interval,
    a: Interval,
    b: Interval,
    p: Real,
    q: Real,
) -> bool {
    let preimages = (enclosures.invert_binary)(op, target, a, b);
    a.has_value(p) && b.has_value(q) && target.has_value(op.value(arithmetic, p, q)) ==> preimages.0.has_value(p)
        && preimages.1.has_value(q)
}

pub open spec fn undoes_power(
    enclosures: Enclosures,
    arithmetic: Arithmetic,
    target: Interval,
    n: i64,
    x: Interval,
    value: Real,
    exponent: Real,
) -> bool {
    x.has_value(value) && index_of(exponent) == Some(n) && target.has_value(
        BinaryOp::Pow.value(arithmetic, value, exponent),
    ) ==> (enclosures.invert_power)(target, n, x).has_value(value)
}

/// The superset rule without exception: an image has every result that is a
/// number, and a preimage has every operand that gives something in the target.
///
/// Rounding breaks the second half: a sum can be in a target that the exact sum
/// is not in. What a sweep rests on is the rule for what it asks at a point,
/// [`crate::hc4::IntervalTape::encloses_at`].
pub open spec fn encloses(enclosures: Enclosures, arithmetic: Arithmetic) -> bool {
    &&& forall|op: UnaryOp, x: Interval, value: Real| #[trigger] encloses_unary(enclosures, arithmetic, op, x, value)
    &&& forall|op: BinaryOp, a: Interval, b: Interval, p: Real, q: Real| #[trigger]
        encloses_binary(enclosures, arithmetic, op, a, b, p, q)
    &&& forall|x: Interval, n: i64, value: Real, exponent: Real| #[trigger]
        encloses_power(enclosures, arithmetic, x, n, value, exponent)
    &&& forall|op: UnaryOp, target: Interval, x: Interval, value: Real| #[trigger]
        undoes_unary(enclosures, arithmetic, op, target, x, value)
    &&& forall|op: BinaryOp, target: Interval, a: Interval, b: Interval, p: Real, q: Real| #[trigger]
        undoes_binary(enclosures, arithmetic, op, target, a, b, p, q)
    &&& forall|target: Interval, n: i64, x: Interval, value: Real, exponent: Real| #[trigger]
        undoes_power(enclosures, arithmetic, target, n, x, value, exponent)
}

pub fn unary<I: Intervals>(intervals: &I, op: UnaryOp, x: Interval) -> (image: Interval)
    ensures
        regular(*intervals) ==> image == (enclosures_of(*intervals).unary)(op, x),
{
    intervals.unary(op, x)
}

pub fn binary<I: Intervals>(intervals: &I, op: BinaryOp, a: Interval, b: Interval) -> (image: Interval)
    ensures
        regular(*intervals) ==> image == (enclosures_of(*intervals).binary)(op, a, b),
{
    intervals.binary(op, a, b)
}

pub fn power<I: Intervals>(intervals: &I, x: Interval, n: i64) -> (image: Interval)
    ensures
        regular(*intervals) ==> image == (enclosures_of(*intervals).power)(x, n),
{
    intervals.power(x, n)
}

pub fn invert_unary<I: Intervals>(intervals: &I, op: UnaryOp, target: Interval, x: Interval) -> (preimage: Interval)
    ensures
        regular(*intervals) ==> preimage == (enclosures_of(*intervals).invert_unary)(op, target, x),
{
    intervals.invert_unary(op, target, x)
}

pub fn invert_binary<I: Intervals>(
    intervals: &I,
    op: BinaryOp,
    target: Interval,
    a: Interval,
    b: Interval,
) -> (preimages: (
    Interval,
    Interval,
))
    ensures
        regular(*intervals) ==> preimages == (enclosures_of(*intervals).invert_binary)(op, target, a, b),
{
    intervals.invert_binary(op, target, a, b)
}

pub fn invert_power<I: Intervals>(intervals: &I, target: Interval, n: i64, x: Interval) -> (preimage: Interval)
    ensures
        regular(*intervals) ==> preimage == (enclosures_of(*intervals).invert_power)(target, n, x),
{
    intervals.invert_power(target, n, x)
}

} // verus!
