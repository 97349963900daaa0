//! A validated set of constraints over a box: the data every strategy reads.
//!
//! Construction is the validation. Every constraint is parsed, checked to be a
//! constraint rather than a bare expression, and bound to the box; then two
//! things are derived from the set and kept: the plans, which say which
//! coordinates an equality computes from the others, and the incidence of
//! constraints and coordinates.
//!
//! What the system answers is the simple point questions: is this point in the
//! box and feasible ([`ConstraintSystem::is_feasible`]), and how badly does it
//! miss ([`ConstraintSystem::worst_residual`]). It does not search.

use vstd::prelude::*;
use crate::calculus::{
    adds_exactly, multiplies_exactly, quantity, signs_are_exact, subtracts_exactly, the_constants_are_what_they_say,
};
use crate::classify::{least_shared, shape, sides, some_shared, Shape};
use crate::diagnostics::{all_nameable, spells, spells_as, CompilationFailure};
use crate::frontend::Ast;
use crate::hc4::{compilable, compile, is_tape_of, IntervalTape};
use crate::interval::Interval;
use crate::machine::{arithmetic_of, deterministic, minus, plus, times, Arithmetic, Machine};
use crate::nodes::{position, Schema};
use crate::number::{minus_one, negative_infinity, one, zero, Real};
use crate::plans::{are_the_matchings, integers, place, plans, plans_are_over_the_names, plans_of, splits, Plan};
use crate::text::{contents, decimal, integer, join, joined, natural, quote, quoted};

verus! {

/// A point in the input space, one value per variable in declaration order.
pub type Point = Vec<Real>;

/// One input variable and the range it may take.
#[derive(Debug, Clone)]
pub struct InputVariable {
    pub name: String,
    pub lower_bound: Real,
    pub upper_bound: Real,
}

impl InputVariable {
    pub fn new(name: &str, lower_bound: Real, upper_bound: Real) -> (variable: Self)
        ensures
            variable.name@ == name@,
            variable.lower_bound == lower_bound,
            variable.upper_bound == upper_bound,
    {
        Self { name: name.to_owned(), lower_bound, upper_bound }
    }

    /// The range.
    pub open spec fn range(self) -> Interval {
        Interval { lo: self.lower_bound, hi: self.upper_bound }
    }

    pub fn contains(&self, value: Real) -> (contained: bool)
        ensures
            contained == self.range().has_value(value),
    {
        self.lower_bound.le(value) && value.le(self.upper_bound)
    }

    /// How wide the range is.
    pub open spec fn extent(self, arithmetic: Arithmetic) -> Real {
        arithmetic.minus(self.upper_bound, self.lower_bound)
    }

    pub fn width<M: Machine>(&self, machine: &M) -> (width: Real)
        ensures
            deterministic(*machine) ==> width == self.extent(arithmetic_of(*machine)),
    {
        minus(machine, self.upper_bound, self.lower_bound)
    }
}

/// One constraint, in a form a caller can read.
#[derive(Debug, Clone, PartialEq, Eq)]
pub struct ConstraintRef {
    /// Position in the list given to [`ConstraintSystem::new`].
    pub index: usize,
    /// The constraint as it was written.
    pub source: String,
}

/// What compiled constraints and their gradients evaluate to. The residual is
/// at most zero where the constraint holds, and `None` where it cannot be
/// evaluated; the gradient has a partial per symbol, and is `None` where there
/// is none or it is not finite.
pub trait Evaluate {
    fn eval_row(&self, point: &Vec<Real>) -> (residual: Option<Real>);

    /// Whether there is a gradient at all.
    fn has_gradient(&self) -> (yes: bool);

    fn gradient(&self, point: &Vec<Real>) -> (partials: Option<Vec<Real>>);
}

/// A judgement: the residual at every point.
pub type Judge = spec_fn(Seq<Real>) -> Option<Real>;

/// Whether every residual `compiled` can give is the one `judge` has.
pub open spec fn judges<E: Evaluate>(compiled: E, judge: Judge) -> bool {
    forall|point: &Vec<Real>, residual: Option<Real>| #[trigger]
        call_ensures(E::eval_row, (&compiled, point), residual) ==> residual == judge(point@)
}

/// Whether `compiled` gives one residual per point.
pub open spec fn consistent<E: Evaluate>(compiled: E) -> bool {
    exists|judge: Judge| judges(compiled, judge)
}

/// A residual, where it is a finite number: an evaluation that comes to
/// anything else has faulted, whatever it says.
pub open spec fn evaluated(found: Option<Real>) -> Option<Real> {
    match found {
        Some(value) => if value.finite() {
            found
        } else {
            None
        },
        None => None,
    }
}

/// The judgement of a consistent constraint.
pub open spec fn judge_of<E: Evaluate>(compiled: E) -> Judge {
    let raw = choose|judge: Judge| judges(compiled, judge);
    |point: Seq<Real>| evaluated(raw(point))
}

/// The residual at a point.
pub fn residual<E: Evaluate>(compiled: &E, point: &Vec<Real>) -> (found: Option<Real>)
    ensures
        consistent(*compiled) ==> found == judge_of(*compiled)(point@),
        found matches Some(value) ==> value.finite(),
{
    match compiled.eval_row(point) {
        Some(value) => if value.is_finite() {
            Some(value)
        } else {
            None
        },
        None => None,
    }
}

/// The partials at every point.
pub type Slope = spec_fn(Seq<Real>) -> Option<Seq<Real>>;

/// Partials as a sequence.
pub open spec fn partials_of(partials: Option<Vec<Real>>) -> Option<Seq<Real>> {
    match partials {
        Some(list) => Some(list@),
        None => None,
    }
}

/// Whether every gradient `compiled` can give is the one `slope` has.
pub open spec fn grades<E: Evaluate>(compiled: E, slope: Slope) -> bool {
    forall|point: &Vec<Real>, partials: Option<Vec<Real>>| #[trigger]
        call_ensures(E::gradient, (&compiled, point), partials) ==> partials_of(partials) == slope(point@)
}

/// Whether `compiled` gives one gradient per point.
pub open spec fn graded<E: Evaluate>(compiled: E) -> bool {
    exists|slope: Slope| grades(compiled, slope)
}

/// The gradients of a graded constraint.
pub open spec fn slope_of<E: Evaluate>(compiled: E) -> Slope {
    choose|slope: Slope| grades(compiled, slope)
}

/// Whether every answer `compiled` can give on having a gradient is `yes`.
pub open spec fn tells<E: Evaluate>(compiled: E, yes: bool) -> bool {
    forall|found: bool| #[trigger] call_ensures(E::has_gradient, (&compiled,), found) ==> found == yes
}

/// Whether `compiled` gives one answer on having a gradient.
pub open spec fn is_told<E: Evaluate>(compiled: E) -> bool {
    exists|yes: bool| tells(compiled, yes)
}

/// Whether a constraint that gives one answer has a gradient.
pub open spec fn told<E: Evaluate>(compiled: E) -> bool {
    choose|yes: bool| tells(compiled, yes)
}

/// Whether there is a gradient.
pub fn differentiable<E: Evaluate>(compiled: &E) -> (yes: bool)
    ensures
        is_told(*compiled) ==> yes == told(*compiled),
{
    compiled.has_gradient()
}

/// One constraint, as written and as compiled.
#[derive(Debug, Clone)]
pub struct Constraint<E> {
    pub written: Ast,
    pub compiled: E,
    pub intervals: IntervalTape,
}

/// Whether a constraint's residual at a point is at most zero. A residual that
/// cannot be evaluated is not a pass.
pub open spec fn passes(judge: Judge, point: Seq<Real>) -> bool {
    judge(point) matches Some(residual) && residual.at_most(zero())
}

/// How far a clearance asks for along a variable.
pub open spec fn step_along(arithmetic: Arithmetic, variable: InputVariable, clearance: Real) -> Real {
    arithmetic.times(clearance, variable.extent(arithmetic))
}

/// A value moved by a step, up or down.
pub open spec fn offset(arithmetic: Arithmetic, value: Real, sign: Real, step: Real) -> Real {
    arithmetic.plus(value, arithmetic.times(sign, step))
}

/// A point moved by a step along a coordinate.
pub open spec fn moved(arithmetic: Arithmetic, point: Seq<Real>, coordinate: int, sign: Real, step: Real) -> Seq<Real> {
    point.update(coordinate, offset(arithmetic, point[coordinate], sign, step))
}

/// Whether a constraint holds at a point moved either way along a coordinate,
/// which asks nothing where the coordinate has no room.
pub open spec fn clear_along(
    judge: Judge,
    arithmetic: Arithmetic,
    variables: Seq<InputVariable>,
    clearance: Real,
    point: Seq<Real>,
    coordinate: int,
) -> bool {
    let step = step_along(arithmetic, variables[coordinate], clearance);
    step.at_most(zero()) || (passes(judge, moved(arithmetic, point, coordinate, minus_one(), step)) && passes(
        judge,
        moved(arithmetic, point, coordinate, one(), step),
    ))
}

/// Whether a constraint holds at a point and, where the clearance is not zero,
/// at the point moved either way along each of the coordinates it names.
pub open spec fn holds_clear(
    judge: Judge,
    arithmetic: Arithmetic,
    rows: Seq<usize>,
    variables: Seq<InputVariable>,
    clearance: Real,
    point: Seq<Real>,
) -> bool {
    &&& passes(judge, point)
    &&& clearance.same(zero()) || forall|k: int|
        0 <= k < rows.len() ==> clear_along(judge, arithmetic, variables, clearance, point, #[trigger] rows[k] as int)
}

impl<E: Evaluate> Constraint<E> {
    fn passes(&self, point: &Vec<Real>) -> (passing: bool)
        ensures
            consistent(self.compiled) ==> passing == passes(judge_of(self.compiled), point@),
    {
        match residual(&self.compiled, point) {
            Some(found) => found.le(zero()),
            None => false,
        }
    }

    /// Whether this constraint holds at `point`, and for a positive clearance
    /// at `point` moved `clearance` widths either way along each coordinate in
    /// `rows`, the ones it names: moving any other leaves its residual where it
    /// was. `neighbour` is lent, equal to `point` on entry and on return.
    pub fn holds<M: Machine>(
        &self,
        machine: &M,
        point: &Vec<Real>,
        rows: &Vec<usize>,
        variables: &Vec<InputVariable>,
        clearance: Real,
        neighbour: &mut Vec<Real>,
    ) -> (held: bool)
        requires
            !clearance.same(zero()) ==> old(neighbour)@ == point@,
            forall|k: int| 0 <= k < rows@.len() ==> (#[trigger] rows@[k]) < variables@.len(),
            point@.len() == variables@.len(),
        ensures
            final(neighbour)@ == old(neighbour)@,
            deterministic(*machine) && consistent(self.compiled) ==> held == holds_clear(
                judge_of(self.compiled),
                arithmetic_of(*machine),
                rows@,
                variables@,
                clearance,
                point@,
            ),
    {
        if !self.passes(point) {
            return false;
        }
        if clearance.equals(zero()) {
            return true;
        }
        let ghost known = deterministic(*machine) && consistent(self.compiled);
        let ghost judge = judge_of(self.compiled);
        let ghost arithmetic = arithmetic_of(*machine);
        for k in 0..rows.len()
            invariant
                neighbour@ == point@,
                old(neighbour)@ == point@,
                point@.len() == variables@.len(),
                forall|k: int| 0 <= k < rows@.len() ==> (#[trigger] rows@[k]) < variables@.len(),
                known == (deterministic(*machine) && consistent(self.compiled)),
                judge == judge_of(self.compiled),
                arithmetic == arithmetic_of(*machine),
                !clearance.same(zero()),
                known ==> passes(judge, point@),
                known ==> forall|j: int|
                    0 <= j < k ==> clear_along(
                        judge,
                        arithmetic,
                        variables@,
                        clearance,
                        point@,
                        #[trigger] rows@[j] as int,
                    ),
        {
            let coordinate: usize = rows[k];
            let step = times(machine, clearance, variables[coordinate].width(machine));
            if !step.le(zero()) {
                let back = plus(machine, point[coordinate], times(machine, minus_one(), step));
                neighbour.set(coordinate, back);
                let before = self.passes(neighbour);
                let forth = plus(machine, point[coordinate], times(machine, one(), step));
                if before {
                    neighbour.set(coordinate, forth);
                    assert(neighbour@ =~= point@.update(coordinate as int, forth));
                }
                let after = before && self.passes(neighbour);
                neighbour.set(coordinate, point[coordinate]);
                assert(neighbour@ =~= point@);
                if !after {
                    assert(known ==> !clear_along(
                        judge,
                        arithmetic,
                        variables@,
                        clearance,
                        point@,
                        rows@[k as int] as int,
                    ));
                    return false;
                }
            }
        }
        true
    }
}

// ---- which constraints name which coordinates ----

/// Which constraints name which coordinates, both ways round.
#[derive(Debug, Clone)]
pub struct Incidence {
    /// Per constraint, the coordinate of each of its symbols.
    pub rows: Vec<Vec<usize>>,
    /// Per coordinate, the constraints naming it, in order.
    pub naming: Vec<Vec<usize>>,
    /// The constraints any move affects, whichever coordinate it touches.
    pub always: Vec<bool>,
}

/// Whether a constraint names a coordinate.
pub open spec fn names_row(rows: Seq<Vec<usize>>, constraint: int, row: int) -> bool {
    integers(rows[constraint]@).contains(row)
}

/// The constraints below `upto` that name a coordinate, in order.
pub open spec fn naming_below(rows: Seq<Vec<usize>>, row: int, upto: int) -> Seq<int>
    decreases upto,
{
    if upto <= 0 {
        Seq::empty()
    } else if names_row(rows, upto - 1, row) {
        naming_below(rows, row, upto - 1).push(upto - 1)
    } else {
        naming_below(rows, row, upto - 1)
    }
}

/// The constraints below `upto` affected by a move of a coordinate, in order.
pub open spec fn affected_below(rows: Seq<Vec<usize>>, always: Seq<bool>, row: int, upto: int) -> Seq<int>
    decreases upto,
{
    if upto <= 0 {
        Seq::empty()
    } else if always[upto - 1] || names_row(rows, upto - 1, row) {
        affected_below(rows, always, row, upto - 1).push(upto - 1)
    } else {
        affected_below(rows, always, row, upto - 1)
    }
}

fn names(rows: &Vec<usize>, row: usize) -> (named: bool)
    ensures
        named == integers(rows@).contains(row as int),
{
    for k in 0..rows.len()
        invariant
            forall|j: int| 0 <= j < k ==> rows@[j] != row,
    {
        if rows[k] == row {
            assert(integers(rows@)[k as int] == row);
            return true;
        }
    }
    proof {
        if integers(rows@).contains(row as int) {
            let j = choose|j: int| 0 <= j < integers(rows@).len() && integers(rows@)[j] == row;
            assert(rows@[j] == row);
        }
    }
    false
}

impl Incidence {
    /// Whether the incidence is of so many constraints and coordinates.
    pub open spec fn is_of(&self, constraints: int, coordinates: int) -> bool {
        &&& self.rows@.len() == constraints
        &&& self.always@.len() == constraints
        &&& self.naming@.len() == coordinates
        &&& forall|c: int, k: int|
            0 <= c < constraints && 0 <= k < self.rows@[c]@.len() ==> (#[trigger] self.rows@[c]@[k]) < coordinates
        &&& forall|r: int|
            0 <= r < coordinates ==> integers((#[trigger] self.naming@[r])@) == naming_below(self.rows@, r, constraints)
    }

    /// The constraints a move of a coordinate affects, in order: those naming
    /// it, and those any move affects.
    pub fn affected(&self, row: usize) -> (ids: Vec<usize>)
        requires
            self.always@.len() == self.rows@.len(),
        ensures
            integers(ids@) == affected_below(self.rows@, self.always@, row as int, self.rows@.len() as int),
    {
        let mut ids: Vec<usize> = Vec::new();
        assert(integers(ids@) =~= Seq::empty());
        for c in 0..self.rows.len()
            invariant
                self.always@.len() == self.rows@.len(),
                integers(ids@) == affected_below(self.rows@, self.always@, row as int, c as int),
        {
            if self.always[c] || names(&self.rows[c], row) {
                let ghost before = ids@;
                ids.push(c);
                assert(integers(ids@) =~= integers(before).push(c as int));
            }
        }
        ids
    }
}

proof fn naming_ones(rows: Seq<Vec<usize>>, row: int, upto: int)
    ensures
        forall|i: int|
            0 <= i < naming_below(rows, row, upto).len() ==> {
                let c = #[trigger] naming_below(rows, row, upto)[i];
                0 <= c < upto && names_row(rows, c, row)
            },
        forall|c: int| 0 <= c < upto && #[trigger] names_row(rows, c, row) ==> naming_below(rows, row, upto).contains(c),
    decreases upto,
{
    if upto > 0 {
        naming_ones(rows, row, upto - 1);
        let before = naming_below(rows, row, upto - 1);
        let after = naming_below(rows, row, upto);
        assert forall|c: int| 0 <= c < upto && #[trigger] names_row(rows, c, row) implies after.contains(c) by {
            if c == upto - 1 {
                assert(after[before.len() as int] == c);
            } else {
                let i = choose|i: int| 0 <= i < before.len() && before[i] == c;
                assert(after[i] == c);
            }
        }
    }
}

/// The constraints listed for a coordinate are those that name it.
pub proof fn naming_lists_who_names(incidence: Incidence, constraints: int, coordinates: int, row: int, constraint: int)
    requires
        incidence.is_of(constraints, coordinates),
        0 <= row < coordinates,
    ensures
        integers(incidence.naming@[row]@).contains(constraint) <==> (0 <= constraint < constraints && names_row(
            incidence.rows@,
            constraint,
            row,
        )),
{
    naming_ones(incidence.rows@, row, constraints);
    let list = integers(incidence.naming@[row]@);
    if list.contains(constraint) {
        let i = choose|i: int| 0 <= i < list.len() && list[i] == constraint;
        assert(naming_below(incidence.rows@, row, constraints)[i] == constraint);
    }
}

// ---- the system ----

/// A variable box and the constraints over it, proven to fit together.
#[derive(Debug, Clone)]
pub struct ConstraintSystem<E> {
    pub variables: Vec<InputVariable>,
    pub constraints: Vec<Constraint<E>>,
    /// Which coordinates are computed from the others: one plan per way of
    /// choosing, none when nothing is driven.
    pub plans: Vec<Plan>,
    pub incidence: Incidence,
}

impl<E> ConstraintSystem<E> {
    pub open spec fn well_formed(&self) -> bool {
        &&& self.incidence.is_of(self.constraints@.len() as int, self.variables@.len() as int)
        &&& forall|c: int|
            0 <= c < self.constraints@.len() ==> (#[trigger] self.constraints@[c]).intervals.well_formed()
                && self.constraints@[c].intervals.symbols == self.incidence.rows@[c]@.len()
        &&& forall|p: int|
            0 <= p < self.plans@.len() ==> is_plan_over(#[trigger] self.plans@[p], self.variables@.len() as int)
        &&& self.variables@.len() <= u32::MAX
    }

    /// Whether a point has a value for every variable.
    pub open spec fn fits(&self, point: Seq<Real>) -> bool {
        point.len() == self.variables@.len()
    }

    /// Whether a point is in the box.
    pub open spec fn in_box(&self, point: Seq<Real>) -> bool {
        self.fits(point) && forall|k: int|
            0 <= k < point.len() ==> (#[trigger] self.variables@[k]).range().has_value(point[k])
    }
}

/// Whether a plan is over so many coordinates, and drives none twice.
pub open spec fn is_plan_over(plan: Plan, coordinates: int) -> bool {
    &&& plan.driven@.no_duplicates()
    &&& forall|k: int| 0 <= k < plan.driven@.len() ==> (#[trigger] plan.driven@[k]) < coordinates
    &&& forall|k: int| 0 <= k < plan.free@.len() ==> (#[trigger] plan.free@[k]) < coordinates
}

/// Whether a coordinate is inside its bounds with room to spare on each side;
/// with no clearance, or none that comes to a step, it is judged on containment
/// alone.
pub open spec fn is_within(arithmetic: Arithmetic, variable: InputVariable, value: Real, clearance: Real) -> bool {
    let step = step_along(arithmetic, variable, clearance);
    &&& variable.range().has_value(value)
    &&& clearance.same(zero()) || !zero().below(step) || (variable.range().has_value(
        offset(arithmetic, value, minus_one(), step),
    ) && variable.range().has_value(offset(arithmetic, value, one(), step)))
}

impl<E: Evaluate> ConstraintSystem<E> {
    /// Whether every constraint gives one residual per point.
    pub open spec fn judged(&self) -> bool {
        forall|c: int| 0 <= c < self.constraints@.len() ==> consistent((#[trigger] self.constraints@[c]).compiled)
    }

    /// The judgement of a constraint.
    pub open spec fn judge(&self, c: int) -> Judge {
        judge_of(self.constraints@[c].compiled)
    }

    /// Whether every constraint gives one gradient per point, and one answer on
    /// having any.
    pub open spec fn all_graded(&self) -> bool {
        forall|c: int|
            0 <= c < self.constraints@.len() ==> graded((#[trigger] self.constraints@[c]).compiled) && is_told(
                self.constraints@[c].compiled,
            )
    }

    /// The gradients of a constraint.
    pub open spec fn slope(&self, c: int) -> Slope {
        slope_of(self.constraints@[c].compiled)
    }

    /// Whether a point is inside the box and satisfies every constraint, with
    /// `clearance` box widths to spare in every coordinate direction.
    pub open spec fn feasible(&self, arithmetic: Arithmetic, point: Seq<Real>, clearance: Real) -> bool {
        &&& self.fits(point)
        &&& forall|k: int|
            0 <= k < self.variables@.len() ==> is_within(
                arithmetic,
                #[trigger] self.variables@[k],
                point[k],
                clearance,
            )
        &&& forall|c: int|
            0 <= c < self.constraints@.len() ==> #[trigger] self.holds_at(arithmetic, c, point, clearance)
    }

    /// Whether a constraint holds at a point with room to spare.
    pub open spec fn holds_at(&self, arithmetic: Arithmetic, c: int, point: Seq<Real>, clearance: Real) -> bool {
        holds_clear(self.judge(c), arithmetic, self.incidence.rows@[c]@, self.variables@, clearance, point)
    }

    /// Whether `point[coordinate]` is inside its bounds with `clearance` box
    /// widths to spare on each side.
    pub fn within<M: Machine>(&self, machine: &M, point: &Vec<Real>, coordinate: usize, clearance: Real) -> (inside: bool)
        requires
            coordinate < self.variables@.len(),
            coordinate < point@.len(),
        ensures
            deterministic(*machine) ==> inside == is_within(
                arithmetic_of(*machine),
                self.variables@[coordinate as int],
                point@[coordinate as int],
                clearance,
            ),
    {
        let variable = &self.variables[coordinate];
        let value = point[coordinate];
        if !variable.contains(value) {
            return false;
        }
        if clearance.equals(zero()) {
            return true;
        }
        let step = times(machine, clearance, variable.width(machine));
        if zero().lt(step) {
            variable.contains(plus(machine, value, times(machine, minus_one(), step))) && variable.contains(
                plus(machine, value, times(machine, one(), step)),
            )
        } else {
            true
        }
    }

    /// The oracle: whether a point is inside the box and satisfies every
    /// constraint, with `clearance` box widths of room to spare in every
    /// coordinate direction. At zero clearance that is the whole question;
    /// above it, each constraint must also hold at the point moved that far
    /// either way along each variable it names.
    pub fn is_feasible<M: Machine>(&self, machine: &M, point: &Vec<Real>, clearance: Real) -> (yes: bool)
        requires
            self.well_formed(),
        ensures
            !self.fits(point@) ==> !yes,
            deterministic(*machine) && self.judged() ==> yes == self.feasible(arithmetic_of(*machine), point@, clearance),
    {
        if point.len() != self.variables.len() {
            return false;
        }
        let ghost known = deterministic(*machine) && self.judged();
        let ghost arithmetic = arithmetic_of(*machine);
        for k in 0..self.variables.len()
            invariant
                point@.len() == self.variables@.len(),
                known == (deterministic(*machine) && self.judged()),
                arithmetic == arithmetic_of(*machine),
                known ==> forall|j: int|
                    0 <= j < k ==> is_within(arithmetic, #[trigger] self.variables@[j], point@[j], clearance),
        {
            if !self.within(machine, point, k, clearance) {
                assert(known ==> !is_within(arithmetic, self.variables@[k as int], point@[k as int], clearance));
                return false;
            }
        }
        let mut neighbour: Vec<Real> = copied(point);
        for c in 0..self.constraints.len()
            invariant
                self.well_formed(),
                neighbour@ == point@,
                point@.len() == self.variables@.len(),
                known == (deterministic(*machine) && self.judged()),
                arithmetic == arithmetic_of(*machine),
                known ==> forall|j: int|
                    0 <= j < self.variables@.len() ==> is_within(
                        arithmetic,
                        #[trigger] self.variables@[j],
                        point@[j],
                        clearance,
                    ),
                known ==> forall|d: int| 0 <= d < c ==> #[trigger] self.holds_at(arithmetic, d, point@, clearance),
        {
            let rows = &self.incidence.rows[c];
            proof {
                assert forall|k: int| 0 <= k < rows@.len() implies (#[trigger] rows@[k]) < self.variables@.len() by {
                    assert(self.incidence.rows@[c as int]@[k] < self.variables@.len());
                }
            }
            let held = self.constraints[c].holds(machine, point, rows, &self.variables, clearance, &mut neighbour);
            proof {
                if known {
                    assert(consistent(self.constraints@[c as int].compiled));
                    assert(held == self.holds_at(arithmetic, c as int, point@, clearance));
                }
            }
            if !held {
                return false;
            }
        }
        true
    }

    /// The largest residual of the first constraints, if all can be evaluated.
    pub open spec fn worst_of(&self, point: Seq<Real>, upto: int) -> Option<Real>
        decreases upto,
    {
        if upto <= 0 {
            Some(negative_infinity())
        } else {
            match self.worst_of(point, upto - 1) {
                None => None,
                Some(worst) => match self.judge(upto - 1)(point) {
                    None => None,
                    Some(residual) => Some(worst.upper(residual)),
                },
            }
        }
    }

    /// The largest residual of all, inside the box.
    pub open spec fn worst_at(&self, point: Seq<Real>) -> Option<Real> {
        if self.in_box(point) {
            self.worst_of(point, self.constraints@.len() as int)
        } else {
            None
        }
    }

    /// How badly the worst constraint is violated, or `None` if the point is
    /// outside the box or a constraint cannot be evaluated there. At most zero
    /// is feasible, and the size of a positive answer is how badly the point
    /// misses.
    pub fn worst_residual(&self, point: &Vec<Real>) -> (worst: Option<Real>)
        ensures
            !self.in_box(point@) ==> worst is None,
            self.judged() ==> worst == self.worst_at(point@),
    {
        if point.len() != self.variables.len() {
            return None;
        }
        for k in 0..self.variables.len()
            invariant
                point@.len() == self.variables@.len(),
                forall|j: int| 0 <= j < k ==> (#[trigger] self.variables@[j]).range().has_value(point@[j]),
        {
            if !self.variables[k].contains(point[k]) {
                assert(!self.variables@[k as int].range().has_value(point@[k as int]));
                return None;
            }
        }
        let mut worst = negative_infinity();
        for c in 0..self.constraints.len()
            invariant
                self.in_box(point@),
                self.judged() ==> self.worst_of(point@, c as int) == Some(worst),
        {
            proof {
                if self.judged() {
                    assert(consistent(self.constraints@[c as int].compiled));
                }
            }
            match residual(&self.constraints[c].compiled, point) {
                None => {
                    proof {
                        if self.judged() {
                            self.no_worst_stays_none(point@, c + 1, self.constraints@.len() as int);
                        }
                    }
                    return None;
                },
                Some(found) => {
                    worst = worst.max(found);
                },
            }
        }
        Some(worst)
    }

    proof fn no_worst_stays_none(&self, point: Seq<Real>, from: int, upto: int)
        requires
            from <= upto,
            self.worst_of(point, from) is None,
        ensures
            self.worst_of(point, upto) is None,
        decreases upto - from,
    {
        if from < upto {
            self.no_worst_stays_none(point, from, upto - 1);
        }
    }

    /// The candidates that are inside the box and satisfy every constraint, in
    /// order.
    pub open spec fn survivors(&self, candidates: Seq<Seq<Real>>) -> Seq<Seq<Real>>
        decreases candidates.len(),
    {
        if candidates.len() == 0 {
            Seq::empty()
        } else {
            let before = self.survivors(candidates.drop_last());
            if self.satisfies(candidates.last()) {
                before.push(candidates.last())
            } else {
                before
            }
        }
    }

    /// Whether a point is inside the box and satisfies every constraint.
    pub open spec fn satisfies(&self, point: Seq<Real>) -> bool {
        self.in_box(point) && forall|c: int| 0 <= c < self.constraints@.len() ==> passes(#[trigger] self.judge(c), point)
    }

    /// The columns of `candidates` that are inside the box and satisfy every
    /// constraint, in column order: the twin of [`ConstraintSystem::is_feasible`]
    /// at zero clearance for a batch. A candidate whose evaluation faults is one
    /// the constraint does not hold for.
    pub fn feasible_columns(&self, candidates: &Vec<Point>) -> (found: Vec<Point>)
        ensures
            self.judged() ==> points(found@) == self.survivors(points(candidates@)),
            forall|i: int| 0 <= i < found@.len() ==> self.in_box((#[trigger] found@[i])@),
    {
        let mut found: Vec<Point> = Vec::new();
        proof {
            assert(points(found@) =~= self.survivors(points(candidates@).take(0)));
        }
        for i in 0..candidates.len()
            invariant
                self.judged() ==> points(found@) == self.survivors(points(candidates@).take(i as int)),
                forall|j: int| 0 <= j < found@.len() ==> self.in_box((#[trigger] found@[j])@),
        {
            let point = &candidates[i];
            let kept = self.kept(point);
            proof {
                let all = points(candidates@);
                assert(all.take(i + 1).drop_last() =~= all.take(i as int));
                assert(all.take(i + 1).last() == point@);
            }
            if kept {
                let ghost before = found@;
                let copy = copied(point);
                found.push(copy);
                assert(points(found@) =~= points(before).push(point@));
            }
        }
        assert(points(candidates@).take(candidates@.len() as int) =~= points(candidates@));
        found
    }

    fn kept(&self, point: &Vec<Real>) -> (kept: bool)
        ensures
            kept ==> self.in_box(point@),
            self.judged() ==> kept == self.satisfies(point@),
    {
        if point.len() != self.variables.len() {
            return false;
        }
        for k in 0..self.variables.len()
            invariant
                point@.len() == self.variables@.len(),
                forall|j: int| 0 <= j < k ==> (#[trigger] self.variables@[j]).range().has_value(point@[j]),
        {
            if !self.variables[k].contains(point[k]) {
                assert(!self.variables@[k as int].range().has_value(point@[k as int]));
                return false;
            }
        }
        for c in 0..self.constraints.len()
            invariant
                self.in_box(point@),
                self.judged() ==> forall|d: int| 0 <= d < c ==> passes(#[trigger] self.judge(d), point@),
        {
            proof {
                if self.judged() {
                    assert(consistent(self.constraints@[c as int].compiled));
                }
            }
            if !self.constraints[c].passes(point) {
                assert(self.judged() ==> !passes(self.judge(c as int), point@));
                return false;
            }
        }
        true
    }

    /// The gradient of a constraint's residual at a point, one partial per
    /// coordinate the constraint names, in its own order.
    pub fn gradient(&self, index: usize, point: &Vec<Real>) -> (partials: Option<Vec<Real>>)
        requires
            index < self.constraints@.len(),
        ensures
            call_ensures(E::gradient, (&self.constraints@[index as int].compiled, point), partials),
            graded(self.constraints@[index as int].compiled) ==> partials_of(partials) == self.slope(index as int)(
                point@,
            ),
    {
        self.constraints[index].compiled.gradient(point)
    }
}

/// The points of a list.
pub open spec fn points(list: Seq<Point>) -> Seq<Seq<Real>> {
    list.map_values(|point: Point| point@)
}

pub fn copied(point: &Vec<Real>) -> (copy: Vec<Real>)
    ensures
        copy@ == point@,
{
    let mut copy: Vec<Real> = Vec::with_capacity(point.len());
    for i in 0..point.len()
        invariant
            copy@ =~= point@.take(i as int),
    {
        copy.push(point[i]);
    }
    assert(copy@ =~= point@);
    copy
}

/// The ranges of a list of variables.
pub open spec fn ranges(variables: Seq<InputVariable>) -> Seq<Interval> {
    variables.map_values(|variable: InputVariable| variable.range())
}

impl<E> ConstraintSystem<E> {
    pub fn variables(&self) -> (variables: &Vec<InputVariable>)
        ensures
            *variables == self.variables,
    {
        &self.variables
    }

    /// The constraints as written, in the order they were given.
    pub fn constraints(&self) -> (sources: Vec<&str>)
        ensures
            sources@.len() == self.constraints@.len(),
            forall|c: int| 0 <= c < sources@.len() ==> (#[trigger] sources@[c])@ == self.constraints@[c].written.source@,
    {
        let mut sources: Vec<&str> = Vec::new();
        for c in 0..self.constraints.len()
            invariant
                sources@.len() == c,
                forall|d: int| 0 <= d < c ==> (#[trigger] sources@[d])@ == self.constraints@[d].written.source@,
        {
            sources.push(self.constraints[c].written.source.as_str());
        }
        sources
    }

    /// The declared box, one interval per variable in order.
    pub fn declared(&self) -> (bounds: Vec<Interval>)
        ensures
            bounds@ == ranges(self.variables@),
    {
        let mut bounds: Vec<Interval> = Vec::with_capacity(self.variables.len());
        for k in 0..self.variables.len()
            invariant
                bounds@ =~= ranges(self.variables@).take(k as int),
        {
            bounds.push(Interval::new(self.variables[k].lower_bound, self.variables[k].upper_bound));
        }
        assert(bounds@ =~= ranges(self.variables@));
        bounds
    }

    /// The constraint at `index`, as a caller reads it.
    pub fn named(&self, index: usize) -> (named: ConstraintRef)
        requires
            index < self.constraints@.len(),
        ensures
            named.index == index,
            named.source@ == self.constraints@[index as int].written.source@,
    {
        ConstraintRef { index, source: self.constraints[index].written.source.clone() }
    }
}

// ---- a system that does not hold together ----

/// A literal subscript past the box.
#[derive(Debug, Clone, Copy, PartialEq, Eq, Structural)]
pub struct OutOfRange {
    /// The one-based index the source asked for.
    pub requested: i64,
    pub available: usize,
}

/// A system that does not hold together.
#[derive(Debug, Clone)]
pub enum SystemError {
    /// A constraint's text is not an expression. Carries every problem found.
    Unparsable { constraint: ConstraintRef, failure: CompilationFailure },
    /// A constraint names variables the box does not declare.
    Unbound { constraint: ConstraintRef, missing: Vec<String> },
    /// A scalar expression where a constraint was wanted.
    NotAConstraint { constraint: ConstraintRef },
    /// A variable named on both sides, so that the equality is implicit in it.
    /// A refusal of the phrasing, not a claim that nothing satisfies it.
    Implicit { constraint: ConstraintRef, variable: String },
    /// `var[3]` against a box that declares two variables.
    SubscriptOutOfRange {
        constraint: ConstraintRef,
        /// The one-based index the source asked for.
        requested: i64,
        /// How many variables the box declares.
        available: usize,
    },
}

/// What became of one constraint's text.
pub ghost enum Verdict<E> {
    Unparsable(CompilationFailure),
    Scalar,
    PastTheBox(OutOfRange),
    Unbound(Seq<Seq<char>>),
    Implicit(Seq<char>),
    Fits(Ast, E),
}

/// The symbols among the first `upto` that the names do not have, in order.
pub open spec fn undeclared(symbols: Seq<Seq<char>>, names: Seq<Seq<char>>, upto: int) -> Seq<Seq<char>>
    decreases upto,
{
    if upto <= 0 {
        Seq::empty()
    } else {
        let before = undeclared(symbols, names, upto - 1);
        if names.contains(symbols[upto - 1]) {
            before
        } else {
            before.push(symbols[upto - 1])
        }
    }
}

/// The symbols of a constraint that the names do not have.
pub open spec fn missing_from(constraint: Ast, names: Seq<Seq<char>>) -> Seq<Seq<char>> {
    undeclared(contents(constraint.symbols@), names, constraint.symbols@.len() as int)
}

/// The variable a constraint is implicit in, by name.
pub open spec fn implicit_in(constraint: Ast) -> Option<Seq<char>> {
    match sides(constraint) {
        None => None,
        Some(pair) => if some_shared(pair.0, pair.1) {
            Some(
                contents(constraint.symbols@)[(choose|id: crate::ast::GlobalId|
                    least_shared(pair.0, pair.1, id)).0 as int],
            )
        } else {
            None
        },
    }
}

/// What becomes of a resolved constraint, bound as `compiled`.
pub open spec fn bound_verdict<E>(resolved: Ast, compiled: E) -> Verdict<E> {
    match implicit_in(resolved) {
        Some(variable) => Verdict::Implicit(variable),
        None => Verdict::Fits(resolved, compiled),
    }
}

/// Whether reading, resolving and binding a constraint's text came to a
/// verdict.
pub open spec fn comes_to<E, P, Q, B>(
    parse: P,
    resolve: Q,
    bind: B,
    schema: Schema,
    source: String,
    verdict: Verdict<E>,
) -> bool where
    P: Fn(&String) -> Result<Ast, CompilationFailure>,
    Q: Fn(Ast, &Schema) -> Result<Ast, OutOfRange>,
    B: Fn(&Ast, &Schema) -> E,
 {
    match verdict {
        Verdict::Unparsable(failure) => call_ensures(parse, (&source,), Err::<Ast, CompilationFailure>(failure)),
        Verdict::Scalar => exists|ast: Ast|
            #[trigger] call_ensures(parse, (&source,), Ok::<Ast, CompilationFailure>(ast)) && !ast.is_constraint,
        Verdict::PastTheBox(past) => exists|ast: Ast|
            #[trigger] call_ensures(parse, (&source,), Ok::<Ast, CompilationFailure>(ast)) && ast.is_constraint
                && call_ensures(resolve, (ast, &schema), Err::<Ast, OutOfRange>(past)),
        Verdict::Unbound(missing) => exists|ast: Ast, resolved: Ast|
            {
                &&& #[trigger] call_ensures(parse, (&source,), Ok::<Ast, CompilationFailure>(ast))
                &&& ast.is_constraint
                &&& #[trigger] call_ensures(resolve, (ast, &schema), Ok::<Ast, OutOfRange>(resolved))
                &&& missing == missing_from(resolved, contents(schema.inputs@))
                &&& missing.len() > 0
            },
        _ => exists|ast: Ast, resolved: Ast, compiled: E|
            {
                &&& #[trigger] call_ensures(parse, (&source,), Ok::<Ast, CompilationFailure>(ast))
                &&& ast.is_constraint
                &&& #[trigger] call_ensures(resolve, (ast, &schema), Ok::<Ast, OutOfRange>(resolved))
                &&& missing_from(resolved, contents(schema.inputs@)).len() == 0
                &&& #[trigger] call_ensures(bind, (&resolved, &schema), compiled)
                &&& verdict == bound_verdict(resolved, compiled)
            },
    }
}

/// Whether a verdict is reported as an error of a constraint.
pub open spec fn is_error<E>(error: SystemError, verdict: Verdict<E>, index: int, source: Seq<char>) -> bool {
    match verdict {
        Verdict::Unparsable(failure) => {
            &&& error matches SystemError::Unparsable { constraint, failure: given }
            &&& refers(constraint, index, source)
            &&& given == failure
        },
        Verdict::Scalar => error matches SystemError::NotAConstraint { constraint } && refers(constraint, index, source),
        Verdict::PastTheBox(past) => {
            &&& error matches SystemError::SubscriptOutOfRange { constraint, requested, available }
            &&& refers(constraint, index, source)
            &&& requested == past.requested
            &&& available == past.available
        },
        Verdict::Unbound(names) => {
            &&& error matches SystemError::Unbound { constraint, missing }
            &&& refers(constraint, index, source)
            &&& contents(missing@) == names
        },
        Verdict::Implicit(name) => {
            &&& error matches SystemError::Implicit { constraint, variable }
            &&& refers(constraint, index, source)
            &&& variable@ == name
        },
        Verdict::Fits(_, _) => false,
    }
}

pub open spec fn refers(constraint: ConstraintRef, index: int, source: Seq<char>) -> bool {
    constraint.index == index && constraint.source@ == source
}

/// The names of a list of variables.
pub open spec fn variable_names(variables: Seq<InputVariable>) -> Seq<Seq<char>> {
    variables.map_values(|variable: InputVariable| variable.name@)
}

/// Whether a schema is of a list of variables.
pub open spec fn is_schema_of(schema: Schema, variables: Seq<InputVariable>) -> bool {
    contents(schema.inputs@) == variable_names(variables) && schema.intermediates@.len() == 0
}

/// The constraints that fit.
pub open spec fn fitting<E>(verdicts: Seq<Verdict<E>>) -> Seq<Ast> {
    verdicts.map_values(|verdict: Verdict<E>| verdict->Fits_0)
}

/// Whether any move affects a constraint: it has a computed subscript, which
/// reads a coordinate nothing static names, or it names a driven coordinate,
/// which every move recomputes.
pub open spec fn is_always<E>(system: ConstraintSystem<E>, c: int) -> bool {
    system.constraints@[c].written.contains_dynamic_lookup || exists|p: int, k: int|
        0 <= p < system.plans@.len() && 0 <= k < system.plans@[p].driven@.len() && names_row(
            system.incidence.rows@,
            c,
            #[trigger] system.plans@[p].driven@[k] as int,
        )
}

/// Whether a system is the one of constraints that fit.
pub open spec fn is_system_of<E>(
    system: ConstraintSystem<E>,
    variables: Seq<InputVariable>,
    verdicts: Seq<Verdict<E>>,
) -> bool {
    let names = variable_names(variables);
    &&& system.variables@ == variables
    &&& system.constraints@.len() == verdicts.len()
    &&& forall|c: int|
        0 <= c < verdicts.len() ==> {
            &&& (#[trigger] system.constraints@[c]).written == verdicts[c]->Fits_0
            &&& system.constraints@[c].compiled == verdicts[c]->Fits_1
            &&& is_tape_of(system.constraints@[c].intervals, verdicts[c]->Fits_0)
        }
    &&& exists|found: Seq<Seq<Option<usize>>>| #[trigger]
        are_the_matchings(fitting(verdicts), names, found) && splits(system.plans@) == plans_of(
            fitting(verdicts),
            names,
            found,
            found.len() as int,
        )
    &&& forall|c: int| 0 <= c < verdicts.len() ==> are_rows_of(#[trigger] system.incidence.rows@[c]@, verdicts[c]->Fits_0, names)
    &&& forall|c: int| 0 <= c < verdicts.len() ==> (#[trigger] system.incidence.always@[c] <==> is_always(system, c))
    &&& system.well_formed()
}

/// Whether `rows` are where a constraint's symbols are among the names.
pub open spec fn are_rows_of(rows: Seq<usize>, constraint: Ast, names: Seq<Seq<char>>) -> bool {
    &&& rows.len() == constraint.symbols@.len()
    &&& forall|k: int|
        0 <= k < rows.len() ==> place(contents(constraint.symbols@), names, k) == Some(#[trigger] rows[k] as int)
}

/// Whether no constraint lists a coordinate twice.
pub open spec fn names_each_once<E>(system: ConstraintSystem<E>) -> bool {
    forall|c: int| 0 <= c < system.constraints@.len() ==> (#[trigger] system.incidence.rows@[c])@.no_duplicates()
}

/// Whether no constraint has a symbol twice.
pub open spec fn has_each_once<E>(system: ConstraintSystem<E>) -> bool {
    forall|c: int|
        0 <= c < system.constraints@.len() ==> contents(
            (#[trigger] system.constraints@[c]).written.symbols@,
        ).no_duplicates()
}

/// Symbols that are distinct are distinct coordinates.
pub proof fn distinct_symbols_are_distinct_rows(rows: Seq<usize>, constraint: Ast, names: Seq<Seq<char>>)
    requires
        are_rows_of(rows, constraint, names),
        contents(constraint.symbols@).no_duplicates(),
    ensures
        rows.no_duplicates(),
{
    let symbols = contents(constraint.symbols@);
    assert forall|i: int, j: int| 0 <= i < rows.len() && 0 <= j < rows.len() && i != j implies rows[i] != rows[j] by {
        assert(place(symbols, names, i) == Some(rows[i] as int));
        assert(place(symbols, names, j) == Some(rows[j] as int));
        crate::nodes::first_in_has(names, symbols[i]);
        crate::nodes::first_in_has(names, symbols[j]);
        assert(symbols[i] != symbols[j]);
    }
}

/// Whether a result is what the verdicts on a list of constraints come to: the
/// first that does not fit is the error, and nothing after it is looked at.
pub open spec fn builds<E>(
    variables: Seq<InputVariable>,
    sources: Seq<String>,
    verdicts: Seq<Verdict<E>>,
    result: Result<ConstraintSystem<E>, SystemError>,
) -> bool {
    &&& verdicts.len() <= sources.len()
    &&& forall|i: int| 0 <= i < verdicts.len() - 1 ==> (#[trigger] verdicts[i]) is Fits
    &&& match result {
        Ok(system) => {
            &&& verdicts.len() == sources.len()
            &&& forall|i: int| 0 <= i < verdicts.len() ==> (#[trigger] verdicts[i]) is Fits
            &&& is_system_of(system, variables, verdicts)
        },
        Err(error) => {
            &&& verdicts.len() > 0
            &&& is_error(error, verdicts.last(), verdicts.len() - 1, sources[verdicts.len() - 1]@)
        },
    }
}

/// Whether every constraint looked at came to its verdict.
pub open spec fn all_come_to<E, P, Q, B>(
    parse: P,
    resolve: Q,
    bind: B,
    schema: Schema,
    sources: Seq<String>,
    verdicts: Seq<Verdict<E>>,
) -> bool where
    P: Fn(&String) -> Result<Ast, CompilationFailure>,
    Q: Fn(Ast, &Schema) -> Result<Ast, OutOfRange>,
    B: Fn(&Ast, &Schema) -> E,
 {
    forall|i: int|
        0 <= i < verdicts.len() ==> comes_to(parse, resolve, bind, schema, sources[i], #[trigger] verdicts[i])
}

fn find_missing(constraint: &Ast, names: &Vec<String>) -> (missing: Vec<String>)
    ensures
        contents(missing@) == missing_from(*constraint, contents(names@)),
{
    let ghost symbols = contents(constraint.symbols@);
    let mut missing: Vec<String> = Vec::new();
    assert(contents(missing@) =~= Seq::empty());
    for k in 0..constraint.symbols.len()
        invariant
            symbols == contents(constraint.symbols@),
            contents(missing@) == undeclared(symbols, contents(names@), k as int),
    {
        assert(symbols[k as int] == constraint.symbols@[k as int]@);
        match position(names, constraint.symbols[k].as_str()) {
            Some(_) => {},
            None => {
                let ghost before = missing@;
                missing.push(constraint.symbols[k].clone());
                assert(contents(missing@) =~= contents(before).push(symbols[k as int]));
            },
        }
    }
    missing
}

proof fn nothing_undeclared(symbols: Seq<Seq<char>>, names: Seq<Seq<char>>, upto: int, k: int)
    requires
        undeclared(symbols, names, upto).len() == 0,
        0 <= k < upto,
    ensures
        names.contains(symbols[k]),
    decreases upto,
{
    if k < upto - 1 {
        nothing_undeclared(symbols, names, upto - 1, k);
    }
}

fn locate_symbols(constraint: &Ast, names: &Vec<String>) -> (rows: Vec<usize>)
    requires
        missing_from(*constraint, contents(names@)).len() == 0,
        constraint.symbols@.len() <= u32::MAX,
    ensures
        are_rows_of(rows@, *constraint, contents(names@)),
        forall|k: int| 0 <= k < rows@.len() ==> (#[trigger] rows@[k]) < names@.len(),
{
    let ghost symbols = contents(constraint.symbols@);
    let ghost texts = contents(names@);
    let mut rows: Vec<usize> = Vec::new();
    for k in 0..constraint.symbols.len()
        invariant
            symbols == contents(constraint.symbols@),
            texts == contents(names@),
            missing_from(*constraint, texts).len() == 0,
            constraint.symbols@.len() <= u32::MAX,
            rows@.len() == k,
            forall|j: int|
                0 <= j < k ==> place(symbols, texts, j) == Some(#[trigger] rows@[j] as int) && rows@[j] < names@.len(),
    {
        proof {
            nothing_undeclared(symbols, texts, symbols.len() as int, k as int);
        }
        match position(names, constraint.symbols[k].as_str()) {
            Some(row) => rows.push(row),
            None => {
                assert(symbols[k as int] == constraint.symbols@[k as int]@);
                assert(false);
            },
        }
    }
    rows
}

fn schema_of(variables: &Vec<InputVariable>) -> (schema: Schema)
    ensures
        is_schema_of(schema, variables@),
{
    let mut inputs: Vec<String> = Vec::new();
    for k in 0..variables.len()
        invariant
            contents(inputs@) =~= variable_names(variables@).take(k as int),
    {
        let ghost before = inputs@;
        inputs.push(variables[k].name.clone());
        assert(contents(inputs@) =~= contents(before).push(variables@[k as int].name@));
    }
    assert(contents(inputs@) =~= variable_names(variables@));
    Schema { inputs, intermediates: Vec::new() }
}

fn all_naming(rows: &Vec<Vec<usize>>, coordinates: usize) -> (naming: Vec<Vec<usize>>)
    ensures
        naming@.len() == coordinates,
        forall|r: int|
            0 <= r < coordinates ==> integers((#[trigger] naming@[r])@) == naming_below(rows@, r, rows@.len() as int),
{
    let mut naming: Vec<Vec<usize>> = Vec::new();
    for r in 0..coordinates
        invariant
            naming@.len() == r,
            forall|q: int| 0 <= q < r ==> integers((#[trigger] naming@[q])@) == naming_below(rows@, q, rows@.len() as int),
    {
        let mut ids: Vec<usize> = Vec::new();
        assert(integers(ids@) =~= Seq::empty());
        for c in 0..rows.len()
            invariant
                integers(ids@) == naming_below(rows@, r as int, c as int),
        {
            if names(&rows[c], r) {
                let ghost before = ids@;
                ids.push(c);
                assert(integers(ids@) =~= integers(before).push(c as int));
            }
        }
        naming.push(ids);
    }
    naming
}

/// Whether a constraint's rows have a coordinate some plan drives.
fn names_a_driven(rows: &Vec<usize>, plans: &Vec<Plan>) -> (named: bool)
    ensures
        named == exists|p: int, k: int|
            0 <= p < plans@.len() && 0 <= k < plans@[p].driven@.len() && integers(rows@).contains(
                #[trigger] plans@[p].driven@[k] as int,
            ),
{
    for p in 0..plans.len()
        invariant
            forall|q: int, k: int|
                0 <= q < p && 0 <= k < plans@[q].driven@.len() ==> !integers(rows@).contains(
                    #[trigger] plans@[q].driven@[k] as int,
                ),
    {
        let driven = &plans[p].driven;
        let count: usize = driven.len();
        for k in 0..count
            invariant
                p < plans@.len(),
                count == driven@.len(),
                *driven == plans@[p as int].driven,
                forall|j: int| 0 <= j < k ==> !integers(rows@).contains(#[trigger] driven@[j] as int),
        {
            if names(rows, driven[k]) {
                assert(integers(rows@).contains(plans@[p as int].driven@[k as int] as int));
                return true;
            }
        }
    }
    false
}

fn same_constraint(index: usize, source: &String) -> (named: ConstraintRef)
    ensures
        refers(named, index as int, source@),
{
    ConstraintRef { index, source: source.clone() }
}

/// One constraint's text, read, resolved and bound.
fn judge_text<E, P, Q, B>(parse: &P, resolve: &Q, bind: &B, schema: &Schema, index: usize, source: &String) -> (result: (
    Result<(Ast, E), SystemError>,
    Ghost<Verdict<E>>,
)) where
    P: Fn(&String) -> Result<Ast, CompilationFailure>,
    Q: Fn(Ast, &Schema) -> Result<Ast, OutOfRange>,
    B: Fn(&Ast, &Schema) -> E,

    requires
        ready(*parse, *resolve, *bind),
    ensures
        comes_to(*parse, *resolve, *bind, *schema, *source, result.1@),
        match result.0 {
            Ok((ast, compiled)) => {
                &&& result.1@ == Verdict::Fits(ast, compiled)
                &&& compilable(ast)
                &&& missing_from(ast, contents(schema.inputs@)).len() == 0
            },
            Err(error) => is_error(error, result.1@, index as int, source@),
        },
{
    let ast = match parse(source) {
        Ok(ast) => ast,
        Err(failure) => {
            let ghost verdict = Verdict::<E>::Unparsable(failure);
            return (
                Err(SystemError::Unparsable { constraint: same_constraint(index, source), failure }),
                Ghost(verdict),
            );
        },
    };
    if !ast.is_constraint {
        return (
            Err(SystemError::NotAConstraint { constraint: same_constraint(index, source) }),
            Ghost(Verdict::<E>::Scalar),
        );
    }
    let ghost parsed = ast;
    let resolved = match resolve(ast, schema) {
        Ok(resolved) => resolved,
        Err(past) => {
            return (
                Err(
                    SystemError::SubscriptOutOfRange {
                        constraint: same_constraint(index, source),
                        requested: past.requested,
                        available: past.available,
                    },
                ),
                Ghost(Verdict::<E>::PastTheBox(past)),
            );
        },
    };
    proof {
        assert(call_ensures(*parse, (source,), Ok::<Ast, CompilationFailure>(parsed)));
        assert(call_ensures(*resolve, (parsed, schema), Ok::<Ast, OutOfRange>(resolved)));
    }
    let missing = find_missing(&resolved, &schema.inputs);
    assert(contents(missing@).len() == missing@.len());
    if missing.len() > 0 {
        let ghost verdict = Verdict::<E>::Unbound(contents(missing@));
        assert(comes_to(*parse, *resolve, *bind, *schema, *source, verdict));
        return (Err(SystemError::Unbound { constraint: same_constraint(index, source), missing }), Ghost(verdict));
    }
    let compiled = bind(&resolved, schema);
    let ghost verdict = bound_verdict(resolved, compiled);
    proof {
        assert(call_ensures(*bind, (&resolved, schema), compiled));
        assert(comes_to(*parse, *resolve, *bind, *schema, *source, verdict));
    }
    match shape(&resolved) {
        Shape::Implicit { variable } => {
            proof {
                let pair = sides(resolved)->0;
                let least = choose|id: crate::ast::GlobalId| least_shared(pair.0, pair.1, id);
                assert(least_shared(pair.0, pair.1, variable));
                assert(crate::classify::is_shared(pair.0, pair.1, variable.0 as int));
                assert(least_shared(pair.0, pair.1, least));
                assert(crate::classify::is_shared(pair.0, pair.1, least.0 as int));
                assert(least == variable);
                implicit_names_a_symbol(resolved, variable);
            }
            let name = resolved.symbols[variable.index()].clone();
            assert(contents(resolved.symbols@)[variable.0 as int] == resolved.symbols@[variable.0 as int]@);
            return (
                Err(SystemError::Implicit { constraint: same_constraint(index, source), variable: name }),
                Ghost(verdict),
            );
        },
        _ => {},
    }
    (Ok((resolved, compiled)), Ghost(verdict))
}

/// A global on both sides is one of the constraint's symbols.
proof fn implicit_names_a_symbol(constraint: Ast, variable: crate::ast::GlobalId)
    requires
        constraint.well_formed(),
        sides(constraint) is Some,
        least_shared((sides(constraint)->0).0, (sides(constraint)->0).1, variable),
    ensures
        variable.0 < constraint.symbols@.len(),
{
    let body = constraint.program.body;
    let (lhs, rhs) = sides(constraint)->0;
    let walk = body.result.walk();
    let nodes = lhs.walk();
    let i = choose|i: int| 0 <= i < nodes.len() && crate::frontend::refers_to(#[trigger] nodes[i], variable.0 as int);
    assert(walk == seq![body.result] + (lhs.walk() + rhs.walk()));
    assert(walk[i + 1] == nodes[i]);
    let all = body.walk();
    assert(all == crate::ast::walk_assignments(body.assignments@) + walk);
    assert(crate::ast::walk_assignments(body.assignments@).len() == 0);
    assert(all[i + 1] == nodes[i]);
}

/// Whether a parser and a resolver can be asked anything, a binder anything that
/// names nothing outside its schema, and what is resolved is well formed and can
/// be compiled.
pub open spec fn ready<E, P, Q, B>(parse: P, resolve: Q, bind: B) -> bool where
    P: Fn(&String) -> Result<Ast, CompilationFailure>,
    Q: Fn(Ast, &Schema) -> Result<Ast, OutOfRange>,
    B: Fn(&Ast, &Schema) -> E,
 {
    &&& forall|source: &String| #[trigger] call_requires(parse, (source,))
    &&& forall|ast: Ast, schema: &Schema| #[trigger] call_requires(resolve, (ast, schema))
    &&& forall|ast: &Ast, schema: &Schema|
        missing_from(*ast, contents(schema.inputs@)).len() == 0 ==> #[trigger] call_requires(bind, (ast, schema))
    &&& forall|ast: Ast, schema: &Schema, resolved: Ast| #[trigger]
        call_ensures(resolve, (ast, schema), Ok::<Ast, OutOfRange>(resolved)) ==> resolved.well_formed() && compilable(
            resolved,
        )
}

impl<E> ConstraintSystem<E> {
    /// Parses every constraint, checks that each is one, and that each binds to
    /// the box. The error is the first constraint that does not fit: one rather
    /// than all, since an unbound name is nearly always a typo, and a list of
    /// consequences is less use than the cause.
    ///
    /// `parse` reads a text, `resolve` resolves its literal subscripts against
    /// the box, and `bind` compiles it over the schema.
    pub fn new<P, Q, B>(
        variables: Vec<InputVariable>,
        sources: &Vec<String>,
        parse: P,
        resolve: Q,
        bind: B,
    ) -> (result: Result<Self, SystemError>) where
        P: Fn(&String) -> Result<Ast, CompilationFailure>,
        Q: Fn(Ast, &Schema) -> Result<Ast, OutOfRange>,
        B: Fn(&Ast, &Schema) -> E,

        requires
            variables@.len() <= u32::MAX,
            ready(parse, resolve, bind),
        ensures
            exists|schema: Schema, verdicts: Seq<Verdict<E>>|
                {
                    &&& is_schema_of(schema, variables@)
                    &&& #[trigger] all_come_to(parse, resolve, bind, schema, sources@, verdicts)
                    &&& builds(variables@, sources@, verdicts, result)
                },
            result matches Ok(system) ==> (has_each_once(system) ==> names_each_once(system)),
    {
        let schema = schema_of(&variables);
        let ghost texts = variable_names(variables@);
        let ghost mut verdicts: Seq<Verdict<E>> = Seq::empty();
        let mut resolved: Vec<Ast> = Vec::new();
        let mut compiled: Vec<E> = Vec::new();
        for i in 0..sources.len()
            invariant
                ready(parse, resolve, bind),
                is_schema_of(schema, variables@),
                texts == variable_names(variables@),
                verdicts.len() == i,
                resolved@.len() == i,
                compiled@.len() == i,
                all_come_to(parse, resolve, bind, schema, sources@, verdicts),
                forall|c: int|
                    0 <= c < i ==> {
                        &&& (#[trigger] verdicts[c]) == Verdict::Fits(resolved@[c], compiled@[c])
                        &&& compilable(resolved@[c])
                        &&& missing_from(resolved@[c], texts).len() == 0
                    },
        {
            let (outcome, verdict) = judge_text(&parse, &resolve, &bind, &schema, i, &sources[i]);
            proof {
                let before = verdicts;
                verdicts = verdicts.push(verdict@);
                assert forall|j: int| 0 <= j < verdicts.len() implies comes_to(
                    parse,
                    resolve,
                    bind,
                    schema,
                    sources@[j],
                    #[trigger] verdicts[j],
                ) by {
                    if j < i {
                        assert(verdicts[j] == before[j]);
                    }
                }
            }
            match outcome {
                Err(error) => {
                    let result: Result<Self, SystemError> = Err(error);
                    proof {
                        assert(all_come_to(parse, resolve, bind, schema, sources@, verdicts));
                        assert(builds(variables@, sources@, verdicts, result));
                    }
                    return result;
                },
                Ok((ast, tape)) => {
                    resolved.push(ast);
                    compiled.push(tape);
                },
            }
        }
        let plans = plans(&resolved, &schema.inputs);
        proof {
            assert(fitting(verdicts) =~= resolved@);
            let found = choose|found: Seq<Seq<Option<usize>>>| #[trigger]
                are_the_matchings(resolved@, texts, found) && splits(plans@) == plans_of(
                    resolved@,
                    texts,
                    found,
                    found.len() as int,
                );
            assert(are_the_matchings(fitting(verdicts), texts, found));
        }
        let system = assemble(variables, &schema.inputs, resolved, compiled, plans);
        let ghost checked = system;
        let result: Result<Self, SystemError> = Ok(system);
        proof {
            assert(is_system_of(checked, variables@, verdicts));
            assert(all_come_to(parse, resolve, bind, schema, sources@, verdicts));
            assert(builds(variables@, sources@, verdicts, result));
            if has_each_once(checked) {
                assert forall|c: int| 0 <= c < checked.constraints@.len() implies (
                #[trigger] checked.incidence.rows@[c])@.no_duplicates() by {
                    let written = checked.constraints@[c].written;
                    assert(contents(written.symbols@).no_duplicates());
                    assert(are_rows_of(checked.incidence.rows@[c]@, written, texts));
                    distinct_symbols_are_distinct_rows(checked.incidence.rows@[c]@, written, texts);
                }
            }
        }
        result
    }
}

/// The system of constraints that fit.
fn assemble<E>(
    variables: Vec<InputVariable>,
    names: &Vec<String>,
    resolved: Vec<Ast>,
    compiled: Vec<E>,
    plans: Vec<Plan>,
) -> (system: ConstraintSystem<E>)
    requires
        variables@.len() <= u32::MAX,
        contents(names@) == variable_names(variables@),
        resolved@.len() == compiled@.len(),
        forall|c: int|
            0 <= c < resolved@.len() ==> compilable(#[trigger] resolved@[c]) && missing_from(
                resolved@[c],
                contents(names@),
            ).len() == 0,
        exists|found: Seq<Seq<Option<usize>>>| #[trigger]
            are_the_matchings(resolved@, contents(names@), found) && splits(plans@) == plans_of(
                resolved@,
                contents(names@),
                found,
                found.len() as int,
            ),
    ensures
        system.variables == variables,
        system.plans == plans,
        system.constraints@.len() == resolved@.len(),
        forall|c: int|
            0 <= c < resolved@.len() ==> {
                &&& (#[trigger] system.constraints@[c]).written == resolved@[c]
                &&& system.constraints@[c].compiled == compiled@[c]
                &&& is_tape_of(system.constraints@[c].intervals, resolved@[c])
            },
        forall|c: int|
            0 <= c < resolved@.len() ==> are_rows_of(
                #[trigger] system.incidence.rows@[c]@,
                resolved@[c],
                contents(names@),
            ),
        forall|c: int| 0 <= c < resolved@.len() ==> (#[trigger] system.incidence.always@[c] <==> is_always(system, c)),
        system.well_formed(),
{
    let total: usize = resolved.len();
    let coordinates: usize = variables.len();
    assert(contents(names@).len() == names@.len());
    let ghost asts = resolved@;
    let ghost tapes = compiled@;
    let mut rows: Vec<Vec<usize>> = Vec::new();
    let mut always: Vec<bool> = Vec::new();
    for c in 0..total
        invariant
            total == resolved@.len(),
            coordinates == names@.len(),
            asts == resolved@,
            forall|c: int|
                0 <= c < resolved@.len() ==> compilable(#[trigger] resolved@[c]) && missing_from(
                    resolved@[c],
                    contents(names@),
                ).len() == 0,
            rows@.len() == c,
            always@.len() == c,
            forall|d: int| 0 <= d < c ==> are_rows_of(#[trigger] rows@[d]@, asts[d], contents(names@)),
            forall|d: int, k: int| 0 <= d < c && 0 <= k < rows@[d]@.len() ==> (#[trigger] rows@[d]@[k]) < coordinates,
            forall|d: int|
                0 <= d < c ==> (#[trigger] always@[d] <==> (asts[d].contains_dynamic_lookup || exists|p: int, k: int|
                    0 <= p < plans@.len() && 0 <= k < plans@[p].driven@.len() && names_row(
                        rows@,
                        d,
                        #[trigger] plans@[p].driven@[k] as int,
                    ))),
    {
        assert(compilable(resolved@[c as int]));
        let own = locate_symbols(&resolved[c], names);
        let marked = resolved[c].contains_dynamic_lookup || names_a_driven(&own, &plans);
        let ghost before = rows@;
        rows.push(own);
        always.push(marked);
        proof {
            assert forall|d: int| 0 <= d < c implies #[trigger] rows@[d] == before[d] by {}
            assert forall|d: int|
                0 <= d < c + 1 implies (#[trigger] always@[d] <==> (asts[d].contains_dynamic_lookup || exists|p: int, k: int|
                0 <= p < plans@.len() && 0 <= k < plans@[p].driven@.len() && names_row(
                    rows@,
                    d,
                    #[trigger] plans@[p].driven@[k] as int,
                ))) by {
                assert forall|p: int, k: int|
                    0 <= p < plans@.len() && 0 <= k < plans@[p].driven@.len() implies names_row(
                    rows@,
                    d,
                    #[trigger] plans@[p].driven@[k] as int,
                ) == (if d < c {
                    names_row(before, d, plans@[p].driven@[k] as int)
                } else {
                    integers(own@).contains(plans@[p].driven@[k] as int)
                }) by {}
            }
        }
    }
    let naming = all_naming(&rows, coordinates);
    let incidence = Incidence { rows, naming, always };
    let mut waiting = resolved;
    let mut taped = compiled;
    let mut constraints: Vec<Constraint<E>> = Vec::new();
    assert(waiting@ =~= asts.skip(0));
    assert(taped@ =~= tapes.skip(0));
    for c in 0..total
        invariant
            total == asts.len() == tapes.len(),
            waiting@ == asts.skip(c as int),
            taped@ == tapes.skip(c as int),
            forall|c: int| 0 <= c < asts.len() ==> compilable(#[trigger] asts[c]),
            constraints@.len() == c,
            forall|d: int|
                0 <= d < c ==> {
                    &&& (#[trigger] constraints@[d]).written == asts[d]
                    &&& constraints@[d].compiled == tapes[d]
                    &&& is_tape_of(constraints@[d].intervals, asts[d])
                },
    {
        let written = waiting.remove(0);
        let tape = taped.remove(0);
        proof {
            assert(written == asts[c as int]);
            assert(waiting@ =~= asts.skip(c + 1));
            assert(taped@ =~= tapes.skip(c + 1));
        }
        let intervals = compile(&written);
        constraints.push(Constraint { written, compiled: tape, intervals });
    }
    let system = ConstraintSystem { variables, constraints, plans, incidence };
    proof {
        let texts = contents(names@);
        let found = choose|found: Seq<Seq<Option<usize>>>| #[trigger]
            are_the_matchings(asts, texts, found) && splits(plans@) == plans_of(asts, texts, found, found.len() as int);
        plans_are_over_the_names(asts, texts, found);
        assert forall|p: int| 0 <= p < system.plans@.len() implies is_plan_over(
            #[trigger] system.plans@[p],
            coordinates as int,
        ) by {
            let plan = system.plans@[p];
            assert(splits(plans@)[p] == plan@);
            assert forall|k: int| 0 <= k < plan.driven@.len() implies (#[trigger] plan.driven@[k]) < coordinates by {
                assert(plan@.driven[k] == plan.driven@[k]);
            }
            assert forall|j: int, k: int| 0 <= j < plan.driven@.len() && 0 <= k < plan.driven@.len() && j != k implies plan.driven@[j]
                != plan.driven@[k] by {
                assert(plan@.driven[j] != plan@.driven[k]);
            }
            assert forall|k: int| 0 <= k < plan.free@.len() implies (#[trigger] plan.free@[k]) < coordinates by {
                assert(plan@.free[k] == plan.free@[k]);
            }
        }
        assert forall|c: int|
            0 <= c < system.constraints@.len() implies (#[trigger] system.constraints@[c]).intervals.well_formed()
            && system.constraints@[c].intervals.symbols == system.incidence.rows@[c]@.len() by {
            assert(are_rows_of(system.incidence.rows@[c]@, asts[c], texts));
        }
    }
    system
}

// ---- laws ----

/// A point is judged in a batch as it is alone, with no clearance.
pub proof fn a_batch_agrees_with_one_at_a_time<E: Evaluate>(
    system: ConstraintSystem<E>,
    arithmetic: Arithmetic,
    point: Seq<Real>,
)
    ensures
        system.satisfies(point) == system.feasible(arithmetic, point, zero()),
{
    if system.satisfies(point) {
        assert forall|c: int| 0 <= c < system.constraints@.len() implies #[trigger] system.holds_at(
            arithmetic,
            c,
            point,
            zero(),
        ) by {
            assert(passes(system.judge(c), point));
        }
    }
    if system.feasible(arithmetic, point, zero()) {
        assert forall|k: int| 0 <= k < point.len() implies (#[trigger] system.variables@[k]).range().has_value(point[k]) by {
            assert(is_within(arithmetic, system.variables@[k], point[k], zero()));
        }
        assert forall|c: int| 0 <= c < system.constraints@.len() implies passes(#[trigger] system.judge(c), point) by {
            assert(system.holds_at(arithmetic, c, point, zero()));
        }
    }
}

/// What comes back of a batch is exactly the candidates that are feasible one at
/// a time, each as often as it occurs and in their order.
pub proof fn a_batch_keeps_the_feasible<E: Evaluate>(
    system: ConstraintSystem<E>,
    arithmetic: Arithmetic,
    candidates: Seq<Seq<Real>>,
)
    ensures
        system.survivors(candidates) == candidates.filter(
            |point: Seq<Real>| system.feasible(arithmetic, point, zero()),
        ),
    decreases candidates.len(),
{
    reveal(Seq::filter);
    if candidates.len() > 0 {
        a_batch_keeps_the_feasible(system, arithmetic, candidates.drop_last());
        a_batch_agrees_with_one_at_a_time(system, arithmetic, candidates.last());
    }
}

proof fn the_worst_of_the_first<E: Evaluate>(system: ConstraintSystem<E>, point: Seq<Real>, upto: int)
    requires
        0 <= upto <= system.constraints@.len(),
    ensures
        (system.worst_of(point, upto) matches Some(worst) && worst.at_most(zero())) <==> forall|c: int|
            0 <= c < upto ==> passes(#[trigger] system.judge(c), point),
        system.worst_of(point, upto) matches Some(worst) ==> !worst.nan(),
        system.worst_of(point, upto) is None <==> exists|c: int|
            0 <= c < upto && (#[trigger] system.judge(c))(point) is None,
    decreases upto,
{
    if upto > 0 {
        the_worst_of_the_first(system, point, upto - 1);
        let judge = system.judge(upto - 1);
        assert(judge(point) matches Some(residual) ==> !residual.nan());
        if forall|c: int| 0 <= c < upto ==> passes(#[trigger] system.judge(c), point) {
            assert(passes(system.judge(upto - 1), point));
        }
    }
}

/// The worst residual says whether a point is feasible: it is there and at most
/// zero exactly where the point is, and not there exactly where the point is
/// outside the box or a constraint cannot be evaluated.
pub proof fn the_worst_residual_is_the_verdict<E: Evaluate>(
    system: ConstraintSystem<E>,
    arithmetic: Arithmetic,
    point: Seq<Real>,
)
    ensures
        (system.worst_at(point) matches Some(worst) && worst.at_most(zero())) <==> system.feasible(
            arithmetic,
            point,
            zero(),
        ),
        system.worst_at(point) is None <==> (!system.in_box(point) || exists|c: int|
            0 <= c < system.constraints@.len() && (#[trigger] system.judge(c))(point) is None),
{
    the_worst_of_the_first(system, point, system.constraints@.len() as int);
    a_batch_agrees_with_one_at_a_time(system, arithmetic, point);
}

/// Room to spare is asked on top of holding: a point that is feasible with a
/// clearance is feasible without, and its worst residual is at most zero.
pub proof fn clearance_asks_for_more<E: Evaluate>(
    system: ConstraintSystem<E>,
    arithmetic: Arithmetic,
    point: Seq<Real>,
    clearance: Real,
)
    requires
        system.feasible(arithmetic, point, clearance),
    ensures
        system.feasible(arithmetic, point, zero()),
        system.satisfies(point),
        system.worst_at(point) matches Some(worst) && worst.at_most(zero()),
{
    assert forall|k: int| 0 <= k < system.variables@.len() implies is_within(
        arithmetic,
        #[trigger] system.variables@[k],
        point[k],
        zero(),
    ) by {
        assert(is_within(arithmetic, system.variables@[k], point[k], clearance));
    }
    assert forall|c: int| 0 <= c < system.constraints@.len() implies #[trigger] system.holds_at(
        arithmetic,
        c,
        point,
        zero(),
    ) by {
        assert(system.holds_at(arithmetic, c, point, clearance));
    }
    the_worst_residual_is_the_verdict(system, arithmetic, point);
    a_batch_agrees_with_one_at_a_time(system, arithmetic, point);
}

/// Whether a constraint's residual depends on nothing but the coordinates it
/// names. One with a computed subscript may read any.
pub open spec fn reads_what_it_names<E: Evaluate>(system: ConstraintSystem<E>, c: int) -> bool {
    forall|p: Seq<Real>, q: Seq<Real>|
        #![trigger system.judge(c)(p), system.judge(c)(q)]
        system.fits(p) && system.fits(q) && (forall|k: int|
            0 <= k < system.incidence.rows@[c]@.len() ==> p[(#[trigger] system.incidence.rows@[c]@[k]) as int]
                == q[system.incidence.rows@[c]@[k] as int]) ==> system.judge(c)(p) == system.judge(c)(q)
}

/// A clearance is room along every axis: where each constraint reads what it
/// names, a point that is feasible with a clearance has feasible neighbours that
/// far away either way along every coordinate.
pub proof fn the_neighbours_are_feasible<E: Evaluate>(
    system: ConstraintSystem<E>,
    arithmetic: Arithmetic,
    point: Seq<Real>,
    clearance: Real,
    coordinate: int,
    sign: Real,
)
    requires
        system.well_formed(),
        system.feasible(arithmetic, point, clearance),
        0 <= coordinate < system.variables@.len(),
        sign == one() || sign == minus_one(),
        !clearance.same(zero()),
        zero().below(step_along(arithmetic, system.variables@[coordinate], clearance)),
        forall|c: int| 0 <= c < system.constraints@.len() ==> #[trigger] reads_what_it_names(system, c),
    ensures
        system.feasible(
            arithmetic,
            moved(
                arithmetic,
                point,
                coordinate,
                sign,
                step_along(arithmetic, system.variables@[coordinate], clearance),
            ),
            zero(),
        ),
{
    let step = step_along(arithmetic, system.variables@[coordinate], clearance);
    let there = moved(arithmetic, point, coordinate, sign, step);
    assert forall|k: int| 0 <= k < system.variables@.len() implies is_within(
        arithmetic,
        #[trigger] system.variables@[k],
        there[k],
        zero(),
    ) by {
        assert(is_within(arithmetic, system.variables@[k], point[k], clearance));
    }
    assert forall|c: int| 0 <= c < system.constraints@.len() implies #[trigger] system.holds_at(
        arithmetic,
        c,
        there,
        zero(),
    ) by {
        assert(system.holds_at(arithmetic, c, point, clearance));
        assert(reads_what_it_names(system, c));
        let rows = system.incidence.rows@[c]@;
        if exists|k: int| 0 <= k < rows.len() && (#[trigger] rows[k]) == coordinate {
            let k = choose|k: int| 0 <= k < rows.len() && (#[trigger] rows[k]) == coordinate;
            assert(clear_along(
                system.judge(c),
                arithmetic,
                system.variables@,
                clearance,
                point,
                rows[k] as int,
            ));
        } else {
            assert forall|k: int| 0 <= k < rows.len() implies point[(#[trigger] rows[k]) as int] == there[rows[k] as int] by {
                assert(rows[k] != coordinate);
                assert(system.incidence.rows@[c]@[k] < system.variables@.len());
            }
            assert(system.judge(c)(point) == system.judge(c)(there));
        }
    }
}

// ---- what an error says ----

impl ConstraintRef {
    /// The constraint in quotes.
    pub fn text(&self) -> (text: String)
        ensures
            text@ == quoted(self.source@),
    {
        quote(self.source.as_str())
    }
}

impl SystemError {
    /// Whether the error can be spelled out.
    pub open spec fn nameable(self) -> bool {
        match self {
            SystemError::Unparsable { failure, .. } => all_nameable(failure.problems@),
            _ => true,
        }
    }

    /// What the error says, for a spelling of numbers.
    pub open spec fn sentence(self, spelled: spec_fn(Real) -> Seq<char>) -> Seq<char> {
        match self {
            SystemError::Unparsable { constraint, failure } => "constraint "@ + quoted(constraint.source@)
                + " did not parse: "@ + failure.rendering(false, spelled),
            SystemError::Unbound { constraint, missing } => "constraint "@ + quoted(constraint.source@)
                + " references "@ + joined(contents(missing@), ", "@) + " which is not an input variable"@,
            SystemError::NotAConstraint { constraint } => quoted(constraint.source@)
                + " is a scalar expression, not a constraint: it has no truth value"@,
            SystemError::Implicit { constraint, variable } => "constraint "@ + quoted(constraint.source@)
                + " is implicit in "@ + variable@ + ": it names "@ + variable@
                + " on both sides,          so nothing can solve it for "@ + variable@
                + " without rearranging it first. Write "@ + variable@
                + "          on one side only - `a == b + a/2` is `a/2 - b == 0`"@,
            SystemError::SubscriptOutOfRange { constraint, requested, available } => "constraint "@ + quoted(
                constraint.source@,
            ) + " reads var["@ + decimal(requested as int) + "], and the box declares "@ + decimal(available as int)
                + " variable(s)"@,
        }
    }

    pub fn text<F: Fn(Real) -> String>(&self, spell: &F) -> (text: String)
        requires
            self.nameable(),
            spells(*spell),
        ensures
            forall|spelled: spec_fn(Real) -> Seq<char>| #[trigger]
                spells_as(*spell, spelled) ==> text@ == self.sentence(spelled),
    {
        match self {
            SystemError::Unparsable { constraint, failure } => {
                let mut text = "constraint ".to_owned();
                text.append(constraint.text().as_str());
                text.append(" did not parse: ");
                text.append(failure.render(false, spell).as_str());
                text
            },
            SystemError::Unbound { constraint, missing } => {
                let mut text = "constraint ".to_owned();
                text.append(constraint.text().as_str());
                text.append(" references ");
                text.append(join(missing, ", ").as_str());
                text.append(" which is not an input variable");
                text
            },
            SystemError::NotAConstraint { constraint } => {
                let mut text = constraint.text();
                text.append(" is a scalar expression, not a constraint: it has no truth value");
                text
            },
            SystemError::Implicit { constraint, variable } => {
                let mut text = "constraint ".to_owned();
                text.append(constraint.text().as_str());
                text.append(" is implicit in ");
                text.append(variable.as_str());
                text.append(": it names ");
                text.append(variable.as_str());
                text.append(" on both sides,          so nothing can solve it for ");
                text.append(variable.as_str());
                text.append(" without rearranging it first. Write ");
                text.append(variable.as_str());
                text.append("          on one side only - `a == b + a/2` is `a/2 - b == 0`");
                text
            },
            SystemError::SubscriptOutOfRange { constraint, requested, available } => {
                let mut text = "constraint ".to_owned();
                text.append(constraint.text().as_str());
                text.append(" reads var[");
                text.append(integer(*requested).as_str());
                text.append("], and the box declares ");
                text.append(natural(*available as u64).as_str());
                text.append(" variable(s)");
                text
            },
        }
    }
}

/// To be feasible with no clearance is to be in the box with every constraint's
/// residual there and at most zero.
pub proof fn feasible_is_holding_in_the_box<E: Evaluate>(
    system: ConstraintSystem<E>,
    arithmetic: Arithmetic,
    point: Seq<Real>,
)
    ensures
        system.feasible(arithmetic, point, zero()) <==> {
            &&& point.len() == system.variables@.len()
            &&& forall|k: int|
                0 <= k < point.len() ==> (#[trigger] system.variables@[k]).lower_bound.at_most(point[k])
                    && point[k].at_most(system.variables@[k].upper_bound)
            &&& forall|c: int|
                0 <= c < system.constraints@.len() ==> ((#[trigger] system.judge(c))(point) matches Some(residual)
                    && residual.at_most(zero()))
        },
{
    if system.feasible(arithmetic, point, zero()) {
        clearance_asks_for_more(system, arithmetic, point, zero());
        assert forall|c: int| 0 <= c < system.constraints@.len() implies ((#[trigger] system.judge(c))(point) matches Some(
            residual,
        ) && residual.at_most(zero())) by {
            assert(system.holds_at(arithmetic, c, point, zero()));
        }
    } else if point.len() == system.variables@.len() {
        if forall|c: int|
            0 <= c < system.constraints@.len() ==> ((#[trigger] system.judge(c))(point) matches Some(residual)
                && residual.at_most(zero())) {
            assert forall|c: int| 0 <= c < system.constraints@.len() implies #[trigger] system.holds_at(
                arithmetic,
                c,
                point,
                zero(),
            ) by {
                assert(passes(system.judge(c), point));
            }
        }
    }
}

/// The worst residual is the largest: no residual of a constraint that could be
/// evaluated is above it.
pub proof fn no_residual_is_above_the_worst<E: Evaluate>(system: ConstraintSystem<E>, point: Seq<Real>, upto: int, c: int)
    requires
        0 <= c < upto <= system.constraints@.len(),
        system.worst_of(point, upto) is Some,
    ensures
        system.judge(c)(point) matches Some(residual) && !(system.worst_of(point, upto)->0).below(residual),
    decreases upto,
{
    the_worst_is_a_number(system, point, upto - 1);
    if c < upto - 1 {
        no_residual_is_above_the_worst(system, point, upto - 1, c);
    }
}

proof fn the_worst_is_a_number<E: Evaluate>(system: ConstraintSystem<E>, point: Seq<Real>, upto: int)
    ensures
        system.worst_of(point, upto) matches Some(worst) ==> !worst.nan(),
    decreases upto,
{
    if upto > 0 {
        the_worst_is_a_number(system, point, upto - 1);
    }
}

/// A move affects every constraint that names the coordinate, and those any move
/// affects, and no other.
pub proof fn a_move_affects_who_names_it(rows: Seq<Vec<usize>>, always: Seq<bool>, row: int, upto: int, c: int)
    requires
        0 <= c < upto,
    ensures
        affected_below(rows, always, row, upto).contains(c) <==> always[c] || names_row(rows, c, row),
    decreases upto,
{
    let before = affected_below(rows, always, row, upto - 1);
    let after = affected_below(rows, always, row, upto);
    affected_are_below(rows, always, row, upto - 1);
    if c < upto - 1 {
        a_move_affects_who_names_it(rows, always, row, upto - 1, c);
        if before.contains(c) {
            let j = choose|j: int| 0 <= j < before.len() && before[j] == c;
            assert(after[j] == c);
        }
        if after.contains(c) {
            let j = choose|j: int| 0 <= j < after.len() && after[j] == c;
            assert(before[j] == c);
        }
    } else {
        if always[c] || names_row(rows, c, row) {
            assert(after[after.len() - 1] == c);
        } else if after.contains(c) {
            let j = choose|j: int| 0 <= j < after.len() && after[j] == c;
            assert(before[j] < upto - 1);
        }
    }
}

proof fn affected_are_below(rows: Seq<Vec<usize>>, always: Seq<bool>, row: int, upto: int)
    ensures
        forall|j: int|
            0 <= j < affected_below(rows, always, row, upto).len() ==> (#[trigger] affected_below(rows, always, row, upto)[j])
                < upto,
    decreases upto,
{
    if upto > 0 {
        affected_are_below(rows, always, row, upto - 1);
        let before = affected_below(rows, always, row, upto - 1);
        let after = affected_below(rows, always, row, upto);
        assert forall|j: int| 0 <= j < after.len() implies (#[trigger] after[j]) < upto by {
            if j < before.len() {
                assert(after[j] == before[j]);
            }
        }
    }
}

/// A clearance is counted in widths of the box: where the answers are exact, what it
/// asks for along a variable is so many times the distance between its bounds, and
/// the neighbours are that far above and below.
pub proof fn a_clearance_is_counted_in_widths(
    arithmetic: Arithmetic,
    variable: InputVariable,
    clearance: Real,
    value: Real,
)
    requires
        subtracts_exactly(arithmetic, variable.upper_bound, variable.lower_bound),
        multiplies_exactly(arithmetic, clearance, variable.extent(arithmetic)),
        multiplies_exactly(arithmetic, one(), step_along(arithmetic, variable, clearance)),
        multiplies_exactly(arithmetic, minus_one(), step_along(arithmetic, variable, clearance)),
        adds_exactly(arithmetic, value, arithmetic.times(one(), step_along(arithmetic, variable, clearance))),
        adds_exactly(arithmetic, value, arithmetic.times(minus_one(), step_along(arithmetic, variable, clearance))),
    ensures
        ({
            let step = step_along(arithmetic, variable, clearance);
            let room = quantity(clearance) * (quantity(variable.upper_bound) - quantity(variable.lower_bound));
            &&& quantity(step) == room
            &&& quantity(offset(arithmetic, value, one(), step)) == quantity(value) + room
            &&& quantity(offset(arithmetic, value, minus_one(), step)) == quantity(value) - room
        }),
{
    the_constants_are_what_they_say();
    signs_are_exact(value);
    let step = quantity(step_along(arithmetic, variable, clearance));
    assert(1real * step == step) by (nonlinear_arith);
    assert(-1real * step == -step) by (nonlinear_arith);
}

/// What is missing is what nothing declares: the symbols that are none of the names, in
/// the order they come in, and no others.
pub proof fn what_is_missing_is_undeclared(symbols: Seq<Seq<char>>, names: Seq<Seq<char>>)
    ensures
        undeclared(symbols, names, symbols.len() as int) == symbols.filter(|symbol: Seq<char>| !names.contains(symbol)),
    decreases symbols.len(),
{
    reveal(Seq::filter);
    if symbols.len() > 0 {
        let rest = symbols.drop_last();
        what_is_missing_is_undeclared(rest, names);
        undeclared_so_far(symbols, rest, names, rest.len() as int);
    } else {
        assert(symbols.filter(|symbol: Seq<char>| !names.contains(symbol)) =~= Seq::empty());
    }
}

proof fn undeclared_so_far(symbols: Seq<Seq<char>>, others: Seq<Seq<char>>, names: Seq<Seq<char>>, upto: int)
    requires
        upto <= symbols.len(),
        upto <= others.len(),
        forall|i: int| 0 <= i < upto ==> #[trigger] symbols[i] == others[i],
    ensures
        undeclared(symbols, names, upto) == undeclared(others, names, upto),
    decreases upto,
{
    if upto > 0 {
        undeclared_so_far(symbols, others, names, upto - 1);
        assert(symbols[upto - 1] == others[upto - 1]);
    }
}

} // verus!
