//! What a local solve is given and what it is believed on.
//!
//! A derivative-free trust-region solver over the unit cube answers two
//! questions: a first feasible point, and the feasible point nearest a given
//! one. The solver is the caller's. What is here is the problem as it sees it
//! (the cost and the rows at a point of the cube) and the judgement of every
//! point it evaluates: what leaves is the best point *judged* on the way, never
//! the optimum the solver reports.
//!
//! The seed's cost is the sum of the residuals, which every coordinate that
//! any constraint names moves; the worst residual does not, and a solver
//! converges on its plateau. A projection's rows are the constraints with the
//! clearance built in: the worst of a residual at the point and at the point
//! stepped a margin either way along each coordinate the constraint names. So
//! the boundary the solver converges onto is inside the true one.

use vstd::prelude::*;
use crate::calculus::{
    adds_exactly, an_order_of_quantities, multiplies_exactly, quantity, signs_are_exact, subtracts_exactly,
    the_constants_are_what_they_say,
};
use rand::rngs::Xoshiro256PlusPlus;
use crate::cube::{side_rows, Cube, Frame};
use crate::interval::{enclosures_of, regular, Interval, Intervals};
use crate::machine::{arithmetic_of, deterministic, minus, plus, times, Arithmetic, Machine};
use crate::number::{half, infinity, minus_one, negative_infinity, one, two, zero, Real};
use crate::random::words;
use crate::slicing::{centre, centred_point, settle, settled_point};
use crate::system::{copied, moved, passes, ranges, residual, ConstraintSystem, Evaluate, Judge, Point};

verus! {

/// How many starts a seed over the declared box gets: the centre, then draws.
pub const STARTS: usize = 4;

/// Cost evaluations a start may spend, per dimension plus one.
pub const EVALS_PER_DIMENSION: u64 = 8;

/// Cost evaluations a projection may spend, per dimension plus one.
pub const PROJECTION_EVALS_PER_DIMENSION: u64 = 64;

/// `0.25`: the first trust-region radius of a seed, in the unit cube.
pub const INITIAL_RADIUS: u64 = 0x3fd0_0000_0000_0000;

/// `1e-6`: the radius at which a solve has converged.
pub const FINAL_RADIUS: u64 = 0x3eb0_c6f7_a0b5_ed8d;

/// `0.05`: the first trust-region radius of a projection, smaller than a
/// seed's because a proposal is usually a hair outside.
pub const PROJECTION_RADIUS: u64 = 0x3fa9_9999_9999_999a;

/// `1e-9`: the least margin a projection's rows are shifted inward by.
pub const LEAST_MARGIN: u64 = 0x3e11_2e0b_e826_d695;

#[verifier::allow_in_spec]
pub fn least_margin() -> Real
    returns
        (Real { bits: LEAST_MARGIN }),
{
    Real { bits: LEAST_MARGIN }
}

// ---- residuals ----

/// The residual at a point, and infinity where it is not a finite number: a
/// point the solver is to step away from.
pub open spec fn penalised(judge: Judge, point: Seq<Real>) -> Real {
    match judge(point) {
        Some(value) => if value.finite() {
            value
        } else {
            infinity()
        },
        None => infinity(),
    }
}

/// Every constraint's residual at a point.
pub open spec fn residuals_at<E: Evaluate>(system: ConstraintSystem<E>, point: Seq<Real>) -> Seq<Real> {
    Seq::new(system.constraints@.len(), |c: int| penalised(system.judge(c), point))
}

/// The sum of numbers, from the first.
pub open spec fn sum_of(arithmetic: Arithmetic, list: Seq<Real>) -> Real
    decreases list.len(),
{
    if list.len() == 0 {
        zero()
    } else {
        arithmetic.plus(sum_of(arithmetic, list.drop_last()), list.last())
    }
}

/// The largest of numbers, or minus infinity.
pub open spec fn largest_of(list: Seq<Real>) -> Real
    decreases list.len(),
{
    if list.len() == 0 {
        negative_infinity()
    } else {
        largest_of(list.drop_last()).upper(list.last())
    }
}

fn penalty<E: Evaluate>(compiled: &E, point: &Vec<Real>) -> (value: Real)
    ensures
        crate::system::consistent(*compiled) ==> value == penalised(crate::system::judge_of(*compiled), point@),
{
    match residual(compiled, point) {
        Some(value) => if value.is_finite() {
            value
        } else {
            infinity()
        },
        None => infinity(),
    }
}

/// Every constraint's residual at `point`, a fault as infinity.
pub fn residuals<E: Evaluate>(problem: &ConstraintSystem<E>, point: &Vec<Real>) -> (list: Vec<Real>)
    ensures
        list@.len() == problem.constraints@.len(),
        problem.judged() ==> list@ == residuals_at(*problem, point@),
{
    let mut list: Vec<Real> = Vec::new();
    for c in 0..problem.constraints.len()
        invariant
            list@.len() == c,
            problem.judged() ==> forall|d: int| 0 <= d < c ==> (#[trigger] list@[d]) == residuals_at(*problem, point@)[d],
    {
        proof {
            if problem.judged() {
                assert(crate::system::consistent(problem.constraints@[c as int].compiled));
            }
        }
        list.push(penalty(&problem.constraints[c].compiled, point));
    }
    list
}

fn sum<M: Machine>(machine: &M, list: &Vec<Real>) -> (total: Real)
    ensures
        deterministic(*machine) ==> total == sum_of(arithmetic_of(*machine), list@),
{
    let mut total = zero();
    for i in 0..list.len()
        invariant
            deterministic(*machine) ==> total == sum_of(arithmetic_of(*machine), list@.take(i as int)),
    {
        total = plus(machine, total, list[i]);
        assert(list@.take(i + 1).drop_last() =~= list@.take(i as int));
    }
    assert(list@.take(list@.len() as int) =~= list@);
    total
}

fn largest(list: &Vec<Real>) -> (worst: Real)
    ensures
        worst == largest_of(list@),
{
    let mut worst = negative_infinity();
    for i in 0..list.len()
        invariant
            worst == largest_of(list@.take(i as int)),
    {
        worst = worst.max(list[i]);
        assert(list@.take(i + 1).drop_last() =~= list@.take(i as int));
    }
    assert(list@.take(list@.len() as int) =~= list@);
    worst
}

// ---- what is kept ----

/// A kept point as a sequence.
pub open spec fn kept_of(best: Option<(Real, Point)>) -> Option<(Real, Seq<Real>)> {
    match best {
        Some(pair) => Some((pair.0, pair.1@)),
        None => None,
    }
}

/// The lower of what was kept and a scored point.
pub open spec fn keeping(best: Option<(Real, Seq<Real>)>, score: Real, point: Seq<Real>) -> Option<(Real, Seq<Real>)> {
    match best {
        Some(pair) => if score.below(pair.0) {
            Some((score, point))
        } else {
            best
        },
        None => Some((score, point)),
    }
}

fn keep(best: &mut Option<(Real, Point)>, score: Real, point: &Vec<Real>)
    ensures
        kept_of(*final(best)) == keeping(kept_of(*old(best)), score, point@),
{
    let better = match best {
        Some(pair) => score.lt(pair.0),
        None => true,
    };
    if better {
        *best = Some((score, copied(point)));
    }
}

/// Nothing scored is lower than what is kept after it, and what is kept is one
/// of the two.
pub proof fn the_lowest_is_kept(best: Option<(Real, Seq<Real>)>, score: Real, point: Seq<Real>)
    ensures
        keeping(best, score, point) is Some,
        !score.below((keeping(best, score, point)->0).0),
        best matches Some(pair) ==> !pair.0.below((keeping(best, score, point)->0).0),
        keeping(best, score, point) == best || keeping(best, score, point) == Some((score, point)),
{
}

// ---- the seed ----

/// Whether a point is in a box, closed on every side.
pub open spec fn lies_in(bounds: Seq<Interval>, point: Seq<Real>) -> bool {
    &&& bounds.len() <= point.len()
    &&& forall|k: int| 0 <= k < bounds.len() ==> (#[trigger] bounds[k]).has_value(point[k])
}

fn is_inside(bounds: &Vec<Interval>, point: &Vec<Real>) -> (inside: bool)
    ensures
        inside == lies_in(bounds@, point@),
{
    if bounds.len() > point.len() {
        return false;
    }
    for k in 0..bounds.len()
        invariant
            bounds@.len() <= point@.len(),
            forall|j: int| 0 <= j < k ==> (#[trigger] bounds@[j]).has_value(point@[j]),
    {
        if !bounds[k].contains(point[k]) {
            assert(!bounds@[k as int].has_value(point@[k as int]));
            return false;
        }
    }
    true
}

/// The seed search as the solver sees it: over the unit cube of a box, judged
/// as it goes.
#[derive(Debug)]
pub struct Landing {
    /// The box, which nothing kept is outside.
    pub bounds: Vec<Interval>,
    pub cube: Cube,
    /// The judged point with the lowest worst residual so far, and that
    /// residual.
    pub best: Option<(Real, Point)>,
    /// Raised once a point has been judged feasible.
    pub stop: bool,
}

/// Whether a point is one the seed keeps: in the box it searches and in the
/// declared one, and no residual above zero or not a finite number.
pub open spec fn is_landing<E: Evaluate>(system: ConstraintSystem<E>, bounds: Seq<Interval>, point: Seq<Real>) -> bool {
    &&& lies_in(bounds, point)
    &&& system.in_box(point)
    &&& largest_of(residuals_at(system, point)).at_most(zero())
}

proof fn no_residual_is_above(list: Seq<Real>, c: int)
    requires
        0 <= c < list.len(),
        forall|d: int| 0 <= d < list.len() ==> !(#[trigger] list[d]).nan(),
        largest_of(list).at_most(zero()),
    ensures
        list[c].at_most(zero()),
    decreases list.len(),
{
    not_a_nan(list.drop_last());
    if c < list.len() - 1 {
        no_residual_is_above(list.drop_last(), c);
    }
}

proof fn not_a_nan(list: Seq<Real>)
    requires
        forall|d: int| 0 <= d < list.len() ==> !(#[trigger] list[d]).nan(),
    ensures
        !largest_of(list).nan(),
    decreases list.len(),
{
    if list.len() > 0 {
        not_a_nan(list.drop_last());
    }
}

/// What the seed keeps satisfies the system, and is in the box it searches.
pub proof fn a_landing_satisfies<E: Evaluate>(system: ConstraintSystem<E>, bounds: Seq<Interval>, point: Seq<Real>)
    requires
        is_landing(system, bounds, point),
    ensures
        system.satisfies(point),
        lies_in(bounds, point),
{
    let list = residuals_at(system, point);
    assert forall|c: int| 0 <= c < system.constraints@.len() implies passes(#[trigger] system.judge(c), point) by {
        assert forall|d: int| 0 <= d < list.len() implies !(#[trigger] list[d]).nan() by {
            assert(list[d] == penalised(system.judge(d), point));
        }
        no_residual_is_above(list, c);
        assert(list[c] == penalised(system.judge(c), point));
    }
}

impl Landing {
    /// Whether what is kept was judged feasible, and lies in the box.
    pub open spec fn is_judged<E: Evaluate>(&self, system: ConstraintSystem<E>) -> bool {
        self.best matches Some(pair) ==> system.satisfies(pair.1@) && lies_in(self.bounds@, pair.1@)
    }

    pub fn over<M: Machine>(machine: &M, bounds: &Vec<Interval>) -> (landing: Self)
        ensures
            landing.bounds@ == bounds@,
            landing.cube.well_formed(),
            landing.cube.lower@.len() == bounds@.len(),
            deterministic(*machine) ==> landing.cube@ == Frame::over(arithmetic_of(*machine), bounds@),
            landing.best is None,
            !landing.stop,
    {
        let mut own: Vec<Interval> = Vec::with_capacity(bounds.len());
        for k in 0..bounds.len()
            invariant
                own@ =~= bounds@.take(k as int),
        {
            own.push(bounds[k]);
        }
        assert(own@ =~= bounds@);
        Self { bounds: own, cube: Cube::over(machine, bounds), best: None, stop: false }
    }

    /// The cost at `unit`, the sum of the residuals there; and the point it
    /// names, its driven coordinates put on their surfaces, kept if it is in the
    /// box, feasible and deeper than what was.
    pub fn cost<E: Evaluate, I: Intervals, M: Machine>(
        &mut self,
        problem: &ConstraintSystem<E>,
        intervals: &I,
        machine: &M,
        unit: &Vec<Real>,
    ) -> (total: Real)
        requires
            problem.well_formed(),
            old(self).cube.well_formed(),
            old(self).cube.lower@.len() == problem.variables@.len(),
            problem.fits(unit@),
        ensures
            final(self).bounds == old(self).bounds,
            final(self).cube == old(self).cube,
            deterministic(*machine) && problem.judged() ==> total == sum_of(
                arithmetic_of(*machine),
                residuals_at(*problem, old(self).cube@.outside(arithmetic_of(*machine), unit@)),
            ),
            deterministic(*machine) && problem.judged() && regular(*intervals) ==> {
                let arithmetic = arithmetic_of(*machine);
                let candidate = centred_point(
                    *problem,
                    enclosures_of(*intervals),
                    arithmetic,
                    old(self).cube@.outside(arithmetic, unit@),
                );
                if is_landing(*problem, old(self).bounds@, candidate) {
                    &&& final(self).stop
                    &&& kept_of(final(self).best) == keeping(
                        kept_of(old(self).best),
                        largest_of(residuals_at(*problem, candidate)),
                        candidate,
                    )
                } else {
                    &&& final(self).stop == old(self).stop
                    &&& kept_of(final(self).best) == kept_of(old(self).best)
                }
            },
            problem.judged() && old(self).is_judged(*problem) ==> final(self).is_judged(*problem),
    {
        let mut candidate = self.cube.denormalised(machine, unit);
        let total = sum(machine, &residuals(problem, &candidate));
        centre(problem, intervals, machine, &mut candidate);
        let judged = residuals(problem, &candidate);
        let worst = largest(&judged);
        let mut inside = true;
        for k in 0..problem.variables.len()
            invariant
                problem.fits(candidate@),
                inside == forall|j: int|
                    0 <= j < k ==> (#[trigger] problem.variables@[j]).range().has_value(candidate@[j]),
        {
            if !problem.variables[k].contains(candidate[k]) {
                assert(!problem.variables@[k as int].range().has_value(candidate@[k as int]));
                inside = false;
            }
        }
        assert(inside == problem.in_box(candidate@));
        if is_inside(&self.bounds, &candidate) && inside && worst.le(zero()) {
            proof {
                if problem.judged() {
                    a_landing_satisfies(*problem, self.bounds@, candidate@);
                    the_lowest_is_kept(kept_of(self.best), worst, candidate@);
                }
            }
            keep(&mut self.best, worst, &candidate);
            self.stop = true;
        }
        total
    }

    /// The rows at `unit`: every residual, then the sides of the cube.
    pub fn constraints<E: Evaluate, M: Machine>(
        &self,
        problem: &ConstraintSystem<E>,
        machine: &M,
        unit: &Vec<Real>,
    ) -> (rows: Vec<Real>)
        requires
            self.cube.well_formed(),
            self.cube.lower@.len() == problem.variables@.len(),
            problem.fits(unit@),
        ensures
            rows@.len() == problem.constraints@.len() + 2 * problem.variables@.len(),
            deterministic(*machine) && problem.judged() ==> rows@ == residuals_at(
                *problem,
                self.cube@.outside(arithmetic_of(*machine), unit@),
            ) + side_rows(arithmetic_of(*machine), unit@),
    {
        let mut rows = residuals(problem, &self.cube.denormalised(machine, unit));
        Cube::rows(machine, unit, &mut rows);
        rows
    }
}

/// How many cost evaluations a start may spend.
pub open spec fn seed_budget(dimensions: int) -> int {
    EVALS_PER_DIMENSION * (dimensions + 1)
}

/// One start of a seed search: where it started and what came of it.
pub ghost struct Trial {
    pub from: Seq<Real>,
    pub outcome: Option<Seq<Real>>,
}

pub open spec fn outcome_of(outcome: Option<Point>) -> Option<Seq<Real>> {
    match outcome {
        Some(point) => Some(point@),
        None => None,
    }
}

/// Whether a landing is a fresh one over a box.
pub open spec fn is_fresh<M: Machine>(landing: Landing, machine: M, bounds: Seq<Interval>) -> bool {
    &&& landing.bounds@ == bounds
    &&& landing.cube.well_formed()
    &&& landing.cube.lower@.len() == bounds.len()
    &&& deterministic(machine) ==> landing.cube@ == Frame::over(arithmetic_of(machine), bounds)
    &&& landing.best is None
    &&& !landing.stop
}

/// Whether numbers are drawn from a generator one after another, each from the
/// generator as the one before left it.
pub open spec fn are_units<U: Fn(&Xoshiro256PlusPlus) -> (Real, Xoshiro256PlusPlus)>(
    unit: U,
    before: Xoshiro256PlusPlus,
    values: Seq<Real>,
    after: Xoshiro256PlusPlus,
) -> bool
    decreases values.len(),
{
    if values.len() == 0 {
        after == before
    } else {
        exists|between: Xoshiro256PlusPlus|
            are_units(unit, before, values.drop_last(), between) && #[trigger] call_ensures(
                unit,
                (&between,),
                (values.last(), after),
            )
    }
}

/// Whether a trial is the one of a start: from the centre of the cube for the
/// first and from a draw for the others, and what the solver answered when
/// handed a fresh landing, the start and the budget.
pub open spec fn is_trial<
    M: Machine,
    U: Fn(&Xoshiro256PlusPlus) -> (Real, Xoshiro256PlusPlus),
    R: Fn(&Landing, &Vec<Real>, u64) -> Option<Point>,
>(
    machine: M,
    bounds: Seq<Interval>,
    dimensions: nat,
    unit: U,
    run: R,
    start: int,
    before: Xoshiro256PlusPlus,
    trial: Trial,
    after: Xoshiro256PlusPlus,
) -> bool {
    &&& start == 0 ==> trial.from == Seq::new(dimensions, |k: int| half()) && after == before
    &&& start > 0 ==> trial.from.len() == dimensions && are_units(unit, before, trial.from, after)
    &&& exists|landing: Landing, from: Vec<Real>, outcome: Option<Point>|
        {
            &&& #[trigger] call_ensures(run, (&landing, &from, seed_budget(dimensions as int) as u64), outcome)
            &&& is_fresh(landing, machine, bounds)
            &&& trial.from == from@
            &&& trial.outcome == outcome_of(outcome)
        }
}

/// Whether trials are those of the first starts, each drawn from the generator as
/// the one before left it.
pub open spec fn are_trials<
    M: Machine,
    U: Fn(&Xoshiro256PlusPlus) -> (Real, Xoshiro256PlusPlus),
    R: Fn(&Landing, &Vec<Real>, u64) -> Option<Point>,
>(
    machine: M,
    bounds: Seq<Interval>,
    dimensions: nat,
    unit: U,
    run: R,
    before: Xoshiro256PlusPlus,
    trials: Seq<Trial>,
    after: Xoshiro256PlusPlus,
) -> bool
    decreases trials.len(),
{
    if trials.len() == 0 {
        after == before
    } else {
        exists|between: Xoshiro256PlusPlus|
            are_trials(machine, bounds, dimensions, unit, run, before, trials.drop_last(), between) && #[trigger] is_trial(
                machine,
                bounds,
                dimensions,
                unit,
                run,
                trials.len() - 1,
                between,
                trials.last(),
                after,
            )
    }
}

/// Whether the trial's point is feasible and in the box searched.
pub open spec fn is_accepted<E: Evaluate>(
    system: ConstraintSystem<E>,
    arithmetic: Arithmetic,
    bounds: Seq<Interval>,
    trial: Trial,
) -> bool {
    trial.outcome matches Some(point) && lies_in(bounds, point) && system.feasible(arithmetic, point, zero())
}

/// Whether an answer is what trials come to: the first that is accepted, and
/// nothing where every start was tried and none is.
pub open spec fn is_decided<E: Evaluate>(
    system: ConstraintSystem<E>,
    arithmetic: Arithmetic,
    bounds: Seq<Interval>,
    starts: int,
    trials: Seq<Trial>,
    found: Option<Seq<Real>>,
) -> bool {
    &&& trials.len() <= starts
    &&& forall|s: int| 0 <= s < trials.len() - 1 ==> !is_accepted(system, arithmetic, bounds, #[trigger] trials[s])
    &&& match found {
        Some(point) => {
            &&& trials.len() > 0
            &&& is_accepted(system, arithmetic, bounds, trials.last())
            &&& trials.last().outcome == Some(point)
        },
        None => {
            &&& trials.len() == starts
            &&& forall|s: int| 0 <= s < trials.len() ==> !is_accepted(system, arithmetic, bounds, #[trigger] trials[s])
        },
    }
}

/// Whether an answer is what a search comes to from a generator, and leaves it,
/// whatever was drawn from it and the solver answered.
pub open spec fn is_found<
    E: Evaluate,
    M: Machine,
    U: Fn(&Xoshiro256PlusPlus) -> (Real, Xoshiro256PlusPlus),
    R: Fn(&Landing, &Vec<Real>, u64) -> Option<Point>,
>(
    system: ConstraintSystem<E>,
    machine: M,
    bounds: Seq<Interval>,
    starts: int,
    unit: U,
    run: R,
    before: Xoshiro256PlusPlus,
    found: Option<Seq<Real>>,
    after: Xoshiro256PlusPlus,
) -> bool {
    exists|trials: Seq<Trial>|
        {
            &&& #[trigger] is_decided(system, arithmetic_of(machine), bounds, starts, trials, found)
            &&& are_trials(machine, bounds, system.variables@.len(), unit, run, before, trials, after)
        }
}

/// The numbers of a start: one for each coordinate, drawn from `rng` in order.
fn drawn_start<U: Fn(&Xoshiro256PlusPlus) -> (Real, Xoshiro256PlusPlus)>(
    dimensions: usize,
    rng: &mut Xoshiro256PlusPlus,
    unit: &U,
) -> (from: Vec<Real>)
    requires
        forall|generator: &Xoshiro256PlusPlus| #[trigger] call_requires(*unit, (generator,)),
    ensures
        from@.len() == dimensions,
        are_units(*unit, *old(rng), from@, *final(rng)),
{
    let ghost before = *rng;
    let mut from: Vec<Real> = Vec::new();
    for k in 0..dimensions
        invariant
            from@.len() == k,
            are_units(*unit, before, from@, *rng),
            forall|generator: &Xoshiro256PlusPlus| #[trigger] call_requires(*unit, (generator,)),
    {
        let ghost between = *rng;
        let ghost earlier = from@;
        let (value, after) = unit(&*rng);
        *rng = after;
        from.push(value);
        assert(from@.drop_last() =~= earlier);
        assert(call_ensures(*unit, (&between,), (from@.last(), *rng)));
    }
    from
}

/// A feasible point of `problem` inside `bounds`, found by local solves from
/// `starts` starts, or `None` when no start gave one. The first start is the
/// centre of the cube over `bounds`; the others are drawn from `rng`, a number
/// of the unit interval at a time, by `unit`, which hands the generator back as
/// it stands after. `run` runs the solver and answers the best point judged. Its
/// answer passes the oracle once more on the way out, and one outside `bounds`
/// counts as none.
pub fn find_initial<
    E: Evaluate,
    M: Machine,
    U: Fn(&Xoshiro256PlusPlus) -> (Real, Xoshiro256PlusPlus),
    R: Fn(&Landing, &Vec<Real>, u64) -> Option<Point>,
>(
    problem: &ConstraintSystem<E>,
    machine: &M,
    bounds: &Vec<Interval>,
    starts: usize,
    rng: &mut Xoshiro256PlusPlus,
    unit: &U,
    run: &R,
) -> (found: Option<Point>)
    requires
        problem.well_formed(),
        forall|generator: &Xoshiro256PlusPlus| #[trigger] call_requires(*unit, (generator,)),
        forall|landing: &Landing, from: &Vec<Real>, budget: u64| #[trigger] call_requires(*run, (landing, from, budget)),
    ensures
        problem.variables@.len() == 0 || starts <= 1 ==> *final(rng) == *old(rng),
        problem.variables@.len() == 0 ==> found is None,
        found matches Some(point) ==> problem.fits(point@) && lies_in(bounds@, point@),
        deterministic(*machine) && problem.judged() ==> (found matches Some(point) ==> problem.feasible(
            arithmetic_of(*machine),
            point@,
            zero(),
        )),
        problem.variables@.len() > 0 && deterministic(*machine) && problem.judged() ==> is_found(
            *problem,
            *machine,
            bounds@,
            starts as int,
            *unit,
            *run,
            *old(rng),
            outcome_of(found),
            *final(rng),
        ),
{
    let dimensions: usize = problem.variables.len();
    if dimensions == 0 {
        return None;
    }
    let budget: u64 = EVALS_PER_DIMENSION * (dimensions as u64 + 1);
    let ghost arithmetic = arithmetic_of(*machine);
    let ghost known = deterministic(*machine) && problem.judged();
    let ghost first = *rng;
    let ghost mut trials: Seq<Trial> = Seq::empty();
    for start in 0..starts
        invariant
            problem.well_formed(),
            dimensions == problem.variables@.len(),
            dimensions > 0,
            budget == seed_budget(dimensions as int),
            arithmetic == arithmetic_of(*machine),
            known == (deterministic(*machine) && problem.judged()),
            forall|generator: &Xoshiro256PlusPlus| #[trigger] call_requires(*unit, (generator,)),
            forall|landing: &Landing, from: &Vec<Real>, b: u64| #[trigger] call_requires(*run, (landing, from, b)),
            first == *old(rng),
            start <= 1 ==> *rng == first,
            trials.len() == start,
            are_trials(*machine, bounds@, problem.variables@.len(), *unit, *run, first, trials, *rng),
            known ==> forall|s: int| 0 <= s < trials.len() ==> !is_accepted(*problem, arithmetic, bounds@, #[trigger] trials[s]),
    {
        let ghost between = *rng;
        let mut from: Vec<Real> = Vec::new();
        if start == 0 {
            for k in 0..dimensions
                invariant
                    from@ =~= Seq::new(k as nat, |j: int| half()),
            {
                from.push(half());
            }
        } else {
            from = drawn_start(dimensions, rng, unit);
        }
        let landing = Landing::over(machine, bounds);
        let outcome = run(&landing, &from, budget);
        let ghost trial = Trial { from: from@, outcome: outcome_of(outcome) };
        let ghost before = trials;
        proof {
            trials = trials.push(trial);
            assert(seed_budget(dimensions as int) as u64 == budget);
            assert(call_ensures(*run, (&landing, &from, seed_budget(dimensions as int) as u64), outcome));
            assert(start == 0 ==> from@ =~= Seq::new(dimensions as nat, |k: int| half()));
            assert(trials.drop_last() =~= before);
            assert(trials.last() == trial);
            assert(is_trial(
                *machine,
                bounds@,
                problem.variables@.len(),
                *unit,
                *run,
                trials.len() - 1,
                between,
                trials.last(),
                *rng,
            ));
            assert(are_trials(*machine, bounds@, problem.variables@.len(), *unit, *run, first, trials, *rng));
        }
        if let Some(point) = outcome {
            let feasible = problem.is_feasible(machine, &point, zero());
            if feasible && is_inside(bounds, &point) {
                proof {
                    if known {
                        assert(is_accepted(*problem, arithmetic, bounds@, trial));
                        assert forall|s: int| 0 <= s < trials.len() - 1 implies !is_accepted(
                            *problem,
                            arithmetic,
                            bounds@,
                            #[trigger] trials[s],
                        ) by {
                            assert(trials[s] == before[s]);
                        }
                        assert(is_decided(*problem, arithmetic, bounds@, starts as int, trials, Some(point@)));
                    }
                }
                return Some(point);
            }
        }
        proof {
            if known {
                assert forall|s: int| 0 <= s < trials.len() implies !is_accepted(*problem, arithmetic, bounds@, #[trigger] trials[s]) by {
                    if s < before.len() {
                        assert(trials[s] == before[s]);
                    }
                }
            }
        }
    }
    assert(known ==> is_decided(*problem, arithmetic, bounds@, starts as int, trials, None));
    None
}

// ---- the projection ----

/// The projection as the solver sees it: squared distance to the target over
/// the unit cube of the declared box, judged as it goes.
#[derive(Debug)]
pub struct Projection {
    pub cube: Cube,
    /// What nearness is measured to, in the cube.
    pub target: Vec<Real>,
    pub clearance: Real,
    /// How far inside the true boundary the rows put the solver's, as a
    /// fraction of each box width.
    pub margin: Real,
    /// The nearest judged point with the clearance, with its squared distance.
    pub clear: Option<(Real, Point)>,
    /// The nearest feasible one without it.
    pub feasible: Option<(Real, Point)>,
}

/// Squared distance between points of the cube, over the first coordinates.
pub open spec fn squared_distance(arithmetic: Arithmetic, unit: Seq<Real>, target: Seq<Real>, upto: int) -> Real
    decreases upto,
{
    if upto <= 0 {
        zero()
    } else {
        let gap = arithmetic.minus(unit[upto - 1], target[upto - 1]);
        arithmetic.plus(squared_distance(arithmetic, unit, target, upto - 1), arithmetic.times(gap, gap))
    }
}

/// A residual with a margin built in: the worst of it at the point and at the
/// point stepped the margin either way along the first of the coordinates
/// named. A coordinate without room is not stepped along.
pub open spec fn margined(
    judge: Judge,
    arithmetic: Arithmetic,
    named: Seq<usize>,
    width: Seq<Real>,
    margin: Real,
    point: Seq<Real>,
    upto: int,
) -> Real
    decreases upto,
{
    if upto <= 0 {
        penalised(judge, point)
    } else {
        let before = margined(judge, arithmetic, named, width, margin, point, upto - 1);
        let coordinate = named[upto - 1] as int;
        let step = arithmetic.times(margin, width[coordinate]);
        if step.at_most(zero()) {
            before
        } else {
            before.upper(penalised(judge, moved(arithmetic, point, coordinate, minus_one(), step))).upper(
                penalised(judge, moved(arithmetic, point, coordinate, one(), step)),
            )
        }
    }
}

/// Every residual with a margin built in.
pub open spec fn margined_rows<E: Evaluate>(
    system: ConstraintSystem<E>,
    arithmetic: Arithmetic,
    width: Seq<Real>,
    margin: Real,
    point: Seq<Real>,
) -> Seq<Real> {
    Seq::new(
        system.constraints@.len(),
        |c: int|
            margined(
                system.judge(c),
                arithmetic,
                system.incidence.rows@[c]@,
                width,
                margin,
                point,
                system.incidence.rows@[c]@.len() as int,
            ),
    )
}

/// The sides of the cube, shifted inward by a margin.
pub open spec fn margined_sides(arithmetic: Arithmetic, margin: Real, unit: Seq<Real>) -> Seq<Real> {
    Seq::new(unit.len(), |k: int| arithmetic.minus(margin, unit[k])) + Seq::new(
        unit.len(),
        |k: int| arithmetic.minus(arithmetic.plus(unit[k], margin), one()),
    )
}

/// Twice the clearance, so that a landing on the shifted boundary has the
/// clearance itself with room for rounding, and never less than the least.
pub open spec fn margin_of(arithmetic: Arithmetic, clearance: Real) -> Real {
    arithmetic.times(two(), clearance).upper(least_margin())
}

impl Projection {
    /// Whether a projection is over a system of so many coordinates.
    pub open spec fn well_formed(&self, dimensions: nat) -> bool {
        self.cube.well_formed() && self.cube.lower@.len() == dimensions && self.target@.len() == dimensions
    }

    /// Whether everything kept was judged: the clear point with the clearance,
    /// the feasible one without.
    pub open spec fn is_judged<E: Evaluate>(&self, system: ConstraintSystem<E>, arithmetic: Arithmetic) -> bool {
        &&& self.clear matches Some(pair) ==> system.feasible(arithmetic, pair.1@, self.clearance)
        &&& self.feasible matches Some(pair) ==> system.feasible(arithmetic, pair.1@, zero())
    }

    /// Whether this is the projection of a target before anything was judged.
    pub open spec fn is_of<E, M: Machine>(
        &self,
        system: ConstraintSystem<E>,
        machine: M,
        target: Seq<Real>,
        clearance: Real,
    ) -> bool {
        &&& self.well_formed(system.variables@.len())
        &&& self.clearance == clearance
        &&& self.clear is None
        &&& self.feasible is None
        &&& deterministic(machine) ==> {
            let arithmetic = arithmetic_of(machine);
            &&& self.cube@ == Frame::over(arithmetic, ranges(system.variables@))
            &&& self.target@ == self.cube@.inside(arithmetic, target)
            &&& self.margin == margin_of(arithmetic, clearance)
        }
    }

    pub fn new<E, M: Machine>(
        problem: &ConstraintSystem<E>,
        machine: &M,
        target: &Vec<Real>,
        clearance: Real,
    ) -> (projection: Self)
        requires
            problem.fits(target@),
        ensures
            projection.is_of(*problem, *machine, target@, clearance),
    {
        let cube = Cube::over(machine, &problem.declared());
        let inside = cube.normalised(machine, target);
        let margin = times(machine, two(), clearance).max(least_margin());
        Self { cube, target: inside, clearance, margin, clear: None, feasible: None }
    }

    fn distance<M: Machine>(&self, machine: &M, unit: &Vec<Real>) -> (squared: Real)
        requires
            unit@.len() == self.target@.len(),
        ensures
            deterministic(*machine) ==> squared == squared_distance(
                arithmetic_of(*machine),
                unit@,
                self.target@,
                unit@.len() as int,
            ),
    {
        let mut squared = zero();
        for k in 0..unit.len()
            invariant
                unit@.len() == self.target@.len(),
                deterministic(*machine) ==> squared == squared_distance(
                    arithmetic_of(*machine),
                    unit@,
                    self.target@,
                    k as int,
                ),
        {
            let gap = minus(machine, unit[k], self.target[k]);
            squared = plus(machine, squared, times(machine, gap, gap));
        }
        squared
    }

    /// Every constraint's residual at `point` with the margin built in.
    pub fn rows<E: Evaluate, M: Machine>(
        &self,
        problem: &ConstraintSystem<E>,
        machine: &M,
        point: &Vec<Real>,
    ) -> (rows: Vec<Real>)
        requires
            problem.well_formed(),
            problem.fits(point@),
            self.well_formed(problem.variables@.len()),
        ensures
            rows@.len() == problem.constraints@.len(),
            deterministic(*machine) && problem.judged() ==> rows@ == margined_rows(
                *problem,
                arithmetic_of(*machine),
                self.cube.width@,
                self.margin,
                point@,
            ),
    {
        let ghost known = deterministic(*machine) && problem.judged();
        let ghost arithmetic = arithmetic_of(*machine);
        let ghost all = margined_rows(*problem, arithmetic, self.cube.width@, self.margin, point@);
        let mut neighbour = copied(point);
        let mut rows: Vec<Real> = Vec::new();
        for c in 0..problem.constraints.len()
            invariant
                problem.well_formed(),
                problem.fits(point@),
                self.well_formed(problem.variables@.len()),
                neighbour@ == point@,
                known == (deterministic(*machine) && problem.judged()),
                arithmetic == arithmetic_of(*machine),
                all == margined_rows(*problem, arithmetic, self.cube.width@, self.margin, point@),
                rows@.len() == c,
                known ==> forall|d: int| 0 <= d < c ==> (#[trigger] rows@[d]) == all[d],
        {
            let compiled = &problem.constraints[c].compiled;
            let ghost judge = problem.judge(c as int);
            proof {
                if problem.judged() {
                    assert(crate::system::consistent(problem.constraints@[c as int].compiled));
                }
            }
            let named = &problem.incidence.rows[c];
            let mut worst = penalty(compiled, point);
            for i in 0..named.len()
                invariant
                    problem.well_formed(),
                    problem.fits(point@),
                    self.well_formed(problem.variables@.len()),
                    c < problem.constraints@.len(),
                    *named == problem.incidence.rows@[c as int],
                    *compiled == problem.constraints@[c as int].compiled,
                    judge == problem.judge(c as int),
                    known ==> crate::system::consistent(*compiled),
                    known == (deterministic(*machine) && problem.judged()),
                    arithmetic == arithmetic_of(*machine),
                    neighbour@ == point@,
                    known ==> worst == margined(
                        judge,
                        arithmetic,
                        named@,
                        self.cube.width@,
                        self.margin,
                        point@,
                        i as int,
                    ),
            {
                assert(problem.incidence.rows@[c as int]@[i as int] < problem.variables@.len());
                let coordinate: usize = named[i];
                let step = times(machine, self.margin, self.cube.width[coordinate]);
                if !step.le(zero()) {
                    neighbour.set(coordinate, plus(machine, point[coordinate], times(machine, minus_one(), step)));
                    assert(known ==> neighbour@ =~= moved(arithmetic, point@, coordinate as int, minus_one(), step));
                    worst = worst.max(penalty(compiled, &neighbour));
                    neighbour.set(coordinate, plus(machine, point[coordinate], times(machine, one(), step)));
                    assert(known ==> neighbour@ =~= moved(arithmetic, point@, coordinate as int, one(), step));
                    worst = worst.max(penalty(compiled, &neighbour));
                    neighbour.set(coordinate, point[coordinate]);
                    assert(neighbour@ =~= point@);
                }
            }
            rows.push(worst);
        }
        rows
    }

    /// The cost at `unit`, its squared distance to the target; and the point it
    /// names, its driven coordinates settled, kept if it is nearer than what
    /// was: as the clear one if it has the clearance, as the feasible one if it
    /// is feasible.
    pub fn cost<E: Evaluate, I: Intervals, M: Machine>(
        &mut self,
        problem: &ConstraintSystem<E>,
        intervals: &I,
        machine: &M,
        unit: &Vec<Real>,
    ) -> (squared: Real)
        requires
            problem.well_formed(),
            old(self).well_formed(problem.variables@.len()),
            problem.fits(unit@),
        ensures
            final(self).cube == old(self).cube,
            final(self).target == old(self).target,
            final(self).clearance == old(self).clearance,
            final(self).margin == old(self).margin,
            deterministic(*machine) ==> squared == squared_distance(
                arithmetic_of(*machine),
                unit@,
                old(self).target@,
                unit@.len() as int,
            ),
            deterministic(*machine) && problem.judged() && regular(*intervals) ==> {
                let arithmetic = arithmetic_of(*machine);
                let frame = old(self).cube@;
                let point = settled_point(
                    *problem,
                    enclosures_of(*intervals),
                    arithmetic,
                    frame.outside(arithmetic, unit@),
                );
                let distance = squared_distance(
                    arithmetic,
                    frame.inside(arithmetic, point),
                    old(self).target@,
                    unit@.len() as int,
                );
                &&& kept_of(final(self).clear) == if problem.feasible(arithmetic, point, old(self).clearance) {
                    keeping(kept_of(old(self).clear), distance, point)
                } else {
                    kept_of(old(self).clear)
                }
                &&& kept_of(final(self).feasible) == if problem.feasible(arithmetic, point, zero()) {
                    keeping(kept_of(old(self).feasible), distance, point)
                } else {
                    kept_of(old(self).feasible)
                }
            },
            deterministic(*machine) && problem.judged() && old(self).is_judged(*problem, arithmetic_of(*machine))
                ==> final(self).is_judged(*problem, arithmetic_of(*machine)),
    {
        let mut point = self.cube.denormalised(machine, unit);
        settle(problem, intervals, machine, &mut point);
        let inside = self.cube.normalised(machine, &point);
        let distance = self.distance(machine, &inside);
        let squared = self.distance(machine, unit);
        proof {
            the_lowest_is_kept(kept_of(self.clear), distance, point@);
            the_lowest_is_kept(kept_of(self.feasible), distance, point@);
        }
        if problem.is_feasible(machine, &point, self.clearance) {
            keep(&mut self.clear, distance, &point);
        }
        if problem.is_feasible(machine, &point, zero()) {
            keep(&mut self.feasible, distance, &point);
        }
        squared
    }

    /// The rows at `unit`: every residual with the margin built in, then the
    /// sides of the cube shifted inward by it.
    pub fn constraints<E: Evaluate, M: Machine>(
        &self,
        problem: &ConstraintSystem<E>,
        machine: &M,
        unit: &Vec<Real>,
    ) -> (rows: Vec<Real>)
        requires
            problem.well_formed(),
            self.well_formed(problem.variables@.len()),
            problem.fits(unit@),
        ensures
            rows@.len() == problem.constraints@.len() + 2 * problem.variables@.len(),
            deterministic(*machine) && problem.judged() ==> rows@ == margined_rows(
                *problem,
                arithmetic_of(*machine),
                self.cube.width@,
                self.margin,
                self.cube@.outside(arithmetic_of(*machine), unit@),
            ) + margined_sides(arithmetic_of(*machine), self.margin, unit@),
    {
        let ghost arithmetic = arithmetic_of(*machine);
        let mut rows = self.rows(problem, machine, &self.cube.denormalised(machine, unit));
        let ghost first = rows@;
        let ghost below = Seq::new(unit@.len(), |k: int| arithmetic.minus(self.margin, unit@[k]));
        let ghost above = Seq::new(
            unit@.len(),
            |k: int| arithmetic.minus(arithmetic.plus(unit@[k], self.margin), one()),
        );
        for k in 0..unit.len()
            invariant
                arithmetic == arithmetic_of(*machine),
                below == Seq::new(unit@.len(), |j: int| arithmetic.minus(self.margin, unit@[j])),
                rows@.len() == first.len() + k,
                deterministic(*machine) ==> rows@ == first + below.take(k as int),
        {
            rows.push(minus(machine, self.margin, unit[k]));
            assert(below.take(k + 1) =~= below.take(k as int).push(below[k as int]));
        }
        assert(below.take(unit@.len() as int) =~= below);
        for k in 0..unit.len()
            invariant
                arithmetic == arithmetic_of(*machine),
                below.len() == unit@.len(),
                above == Seq::new(
                    unit@.len(),
                    |j: int| arithmetic.minus(arithmetic.plus(unit@[j], self.margin), one()),
                ),
                rows@.len() == first.len() + unit@.len() + k,
                deterministic(*machine) ==> rows@ == first + below + above.take(k as int),
        {
            rows.push(minus(machine, plus(machine, unit[k], self.margin), one()));
            assert(above.take(k + 1) =~= above.take(k as int).push(above[k as int]));
        }
        assert(above.take(unit@.len() as int) =~= above);
        assert(first + below + above =~= first + (below + above));
        rows
    }
}

/// What a projection found: the nearest judged point with the clearance, and
/// the nearest feasible one without it.
#[derive(Debug)]
pub struct Projected {
    pub clear: Option<Point>,
    pub feasible: Option<Point>,
}

/// How many cost evaluations a projection may spend.
pub open spec fn projection_budget(dimensions: int) -> int {
    PROJECTION_EVALS_PER_DIMENSION * (dimensions + 1)
}

/// What is left of an answer once it is judged with a clearance.
pub open spec fn accepted<E: Evaluate>(
    system: ConstraintSystem<E>,
    arithmetic: Arithmetic,
    clearance: Real,
    answer: Option<Seq<Real>>,
) -> Option<Seq<Real>> {
    match answer {
        Some(point) => if system.feasible(arithmetic, point, clearance) {
            answer
        } else {
            None
        },
        None => None,
    }
}

fn accept<E: Evaluate, M: Machine>(
    problem: &ConstraintSystem<E>,
    machine: &M,
    clearance: Real,
    answer: Option<Point>,
) -> (found: Option<Point>)
    requires
        problem.well_formed(),
    ensures
        found matches Some(point) ==> problem.fits(point@),
        deterministic(*machine) && problem.judged() ==> outcome_of(found) == accepted(
            *problem,
            arithmetic_of(*machine),
            clearance,
            outcome_of(answer),
        ),
{
    match answer {
        Some(point) => if problem.is_feasible(machine, &point, clearance) {
            Some(point)
        } else {
            None
        },
        None => None,
    }
}

/// The feasible point nearest `target`, sought by one local solve from `from`
/// over the declared box. `run` is handed the projection, where to start and
/// how many costs it may evaluate, and answers the projection as it left it;
/// only what passes the oracle leaves.
pub fn nearest<E: Evaluate, M: Machine, R: Fn(&Projection, &Vec<Real>, u64) -> Projected>(
    problem: &ConstraintSystem<E>,
    machine: &M,
    run: &R,
    from: &Vec<Real>,
    target: &Vec<Real>,
    clearance: Real,
) -> (found: Projected)
    requires
        problem.well_formed(),
        problem.fits(from@),
        problem.fits(target@),
        forall|projection: &Projection, start: &Vec<Real>, budget: u64| #[trigger]
            call_requires(*run, (projection, start, budget)),
    ensures
        found.clear matches Some(point) ==> problem.fits(point@),
        found.feasible matches Some(point) ==> problem.fits(point@),
        deterministic(*machine) && problem.judged() ==> is_nearest(
            *problem,
            *machine,
            *run,
            from@,
            target@,
            clearance,
            found,
        ),
{
    let projection = Projection::new(problem, machine, target, clearance);
    let start = projection.cube.normalised(machine, from);
    let budget: u64 = PROJECTION_EVALS_PER_DIMENSION * (problem.variables.len() as u64 + 1);
    let answer = run(&projection, &start, budget);
    let ghost said = (outcome_of(answer.clear), outcome_of(answer.feasible));
    let Projected { clear, feasible } = answer;
    let found = Projected {
        clear: accept(problem, machine, clearance, clear),
        feasible: accept(problem, machine, zero(), feasible),
    };
    proof {
        if deterministic(*machine) && problem.judged() {
            assert(call_ensures(*run, (&projection, &start, projection_budget(problem.variables@.len() as int) as u64), answer));
            assert(is_nearest(*problem, *machine, *run, from@, target@, clearance, found));
        }
    }
    found
}

/// Whether what was found is what the solver answered when handed the
/// projection of the target, the start and the budget, judged on the way out.
pub open spec fn is_nearest<E: Evaluate, M: Machine, R: Fn(&Projection, &Vec<Real>, u64) -> Projected>(
    system: ConstraintSystem<E>,
    machine: M,
    run: R,
    from: Seq<Real>,
    target: Seq<Real>,
    clearance: Real,
    found: Projected,
) -> bool {
    let arithmetic = arithmetic_of(machine);
    exists|projection: Projection, start: Vec<Real>, answer: Projected|
        {
            &&& #[trigger] call_ensures(
                run,
                (&projection, &start, projection_budget(system.variables@.len() as int) as u64),
                answer,
            )
            &&& projection.is_of(system, machine, target, clearance)
            &&& start@ == projection.cube@.inside(arithmetic, from)
            &&& outcome_of(found.clear) == accepted(system, arithmetic, clearance, outcome_of(answer.clear))
            &&& outcome_of(found.feasible) == accepted(system, arithmetic, zero(), outcome_of(answer.feasible))
        }
}

// ---- the same every time ----

/// Whether two projections are the same problem, judged as far.
pub open spec fn are_alike(a: Projection, b: Projection) -> bool {
    &&& a.cube@ == b.cube@
    &&& a.target@ == b.target@
    &&& a.clearance == b.clearance
    &&& a.margin == b.margin
    &&& kept_of(a.clear) == kept_of(b.clear)
    &&& kept_of(a.feasible) == kept_of(b.feasible)
}

/// Whether local solves of projections are a function of what they are asked
/// with.
pub open spec fn projects_steadily<R: Fn(&Projection, &Vec<Real>, u64) -> Projected>(run: R) -> bool {
    forall|p: &Projection, q: &Projection, s: &Vec<Real>, t: &Vec<Real>, budget: u64, a: Projected, b: Projected|
        #![trigger call_ensures(run, (p, s, budget), a), call_ensures(run, (q, t, budget), b)]
        call_ensures(run, (p, s, budget), a) && call_ensures(run, (q, t, budget), b) && are_alike(*p, *q) && s@ == t@
            ==> outcome_of(a.clear) == outcome_of(b.clear) && outcome_of(a.feasible) == outcome_of(b.feasible)
}

/// Whether draws from the unit interval are a function of the generator: the
/// number, and how it is left.
pub open spec fn units_are_steady<U: Fn(&Xoshiro256PlusPlus) -> (Real, Xoshiro256PlusPlus)>(unit: U) -> bool {
    forall|
        g: &Xoshiro256PlusPlus,
        h: &Xoshiro256PlusPlus,
        a: (Real, Xoshiro256PlusPlus),
        b: (Real, Xoshiro256PlusPlus),
    |
        #![trigger call_ensures(unit, (g,), a), call_ensures(unit, (h,), b)]
        call_ensures(unit, (g,), a) && call_ensures(unit, (h,), b) && words(*g) == words(*h) ==> a.0 == b.0 && words(a.1)
            == words(b.1)
}

/// Whether local solves of seeds are a function of what they are asked with.
pub open spec fn seeds_steadily<F: Fn(&Landing, &Vec<Real>, u64) -> Option<Point>>(seed: F) -> bool {
    forall|p: &Landing, q: &Landing, s: &Vec<Real>, t: &Vec<Real>, budget: u64, a: Option<Point>, b: Option<Point>|
        #![trigger call_ensures(seed, (p, s, budget), a), call_ensures(seed, (q, t, budget), b)]
        {
            &&& call_ensures(seed, (p, s, budget), a)
            &&& call_ensures(seed, (q, t, budget), b)
            &&& p.bounds@ == q.bounds@
            &&& p.cube@ == q.cube@
            &&& kept_of(p.best) == kept_of(q.best)
            &&& p.stop == q.stop
            &&& s@ == t@
        } ==> outcome_of(a) == outcome_of(b)
}

/// From one state of the generator come the same numbers, and the same state.
pub proof fn units_are_the_same<U: Fn(&Xoshiro256PlusPlus) -> (Real, Xoshiro256PlusPlus)>(
    unit: U,
    g: Xoshiro256PlusPlus,
    a: Seq<Real>,
    after_a: Xoshiro256PlusPlus,
    h: Xoshiro256PlusPlus,
    b: Seq<Real>,
    after_b: Xoshiro256PlusPlus,
)
    requires
        units_are_steady(unit),
        words(g) == words(h),
        a.len() == b.len(),
        are_units(unit, g, a, after_a),
        are_units(unit, h, b, after_b),
    ensures
        a == b,
        words(after_a) == words(after_b),
    decreases a.len(),
{
    if a.len() > 0 {
        let x = choose|between: Xoshiro256PlusPlus|
            are_units(unit, g, a.drop_last(), between) && #[trigger] call_ensures(unit, (&between,), (a.last(), after_a));
        let y = choose|between: Xoshiro256PlusPlus|
            are_units(unit, h, b.drop_last(), between) && #[trigger] call_ensures(unit, (&between,), (b.last(), after_b));
        units_are_the_same(unit, g, a.drop_last(), x, h, b.drop_last(), y);
        assert(call_ensures(unit, (&x,), (a.last(), after_a)));
        assert(call_ensures(unit, (&y,), (b.last(), after_b)));
        assert(a =~= a.drop_last().push(a.last()));
        assert(b =~= b.drop_last().push(b.last()));
    } else {
        assert(a =~= b);
    }
}

proof fn a_trial_is_the_same<
    M: Machine,
    U: Fn(&Xoshiro256PlusPlus) -> (Real, Xoshiro256PlusPlus),
    F: Fn(&Landing, &Vec<Real>, u64) -> Option<Point>,
>(
    machine: M,
    bounds: Seq<Interval>,
    dimensions: nat,
    unit: U,
    seed: F,
    s: int,
    g: Xoshiro256PlusPlus,
    first: Trial,
    after_g: Xoshiro256PlusPlus,
    h: Xoshiro256PlusPlus,
    second: Trial,
    after_h: Xoshiro256PlusPlus,
)
    requires
        deterministic(machine),
        units_are_steady(unit),
        seeds_steadily(seed),
        s >= 0,
        words(g) == words(h),
        is_trial(machine, bounds, dimensions, unit, seed, s, g, first, after_g),
        is_trial(machine, bounds, dimensions, unit, seed, s, h, second, after_h),
    ensures
        first == second,
        words(after_g) == words(after_h),
{
    let budget = seed_budget(dimensions as int) as u64;
    if s > 0 {
        units_are_the_same(unit, g, first.from, after_g, h, second.from, after_h);
    }
    let (p, f, x) = choose|landing: Landing, from: Vec<Real>, outcome: Option<Point>|
        {
            &&& #[trigger] call_ensures(seed, (&landing, &from, budget), outcome)
            &&& is_fresh(landing, machine, bounds)
            &&& first.from == from@
            &&& first.outcome == outcome_of(outcome)
        };
    let (q, i, y) = choose|landing: Landing, from: Vec<Real>, outcome: Option<Point>|
        {
            &&& #[trigger] call_ensures(seed, (&landing, &from, budget), outcome)
            &&& is_fresh(landing, machine, bounds)
            &&& second.from == from@
            &&& second.outcome == outcome_of(outcome)
        };
    assert(f@ == i@);
    assert(call_ensures(seed, (&p, &f, budget), x));
    assert(call_ensures(seed, (&q, &i, budget), y));
    assert(outcome_of(x) == outcome_of(y));
}

proof fn trials_are_the_same<
    M: Machine,
    U: Fn(&Xoshiro256PlusPlus) -> (Real, Xoshiro256PlusPlus),
    F: Fn(&Landing, &Vec<Real>, u64) -> Option<Point>,
>(
    machine: M,
    bounds: Seq<Interval>,
    dimensions: nat,
    unit: U,
    seed: F,
    g: Xoshiro256PlusPlus,
    a: Seq<Trial>,
    after_g: Xoshiro256PlusPlus,
    h: Xoshiro256PlusPlus,
    b: Seq<Trial>,
    after_h: Xoshiro256PlusPlus,
)
    requires
        deterministic(machine),
        units_are_steady(unit),
        seeds_steadily(seed),
        words(g) == words(h),
        a.len() == b.len(),
        are_trials(machine, bounds, dimensions, unit, seed, g, a, after_g),
        are_trials(machine, bounds, dimensions, unit, seed, h, b, after_h),
    ensures
        a == b,
        words(after_g) == words(after_h),
    decreases a.len(),
{
    if a.len() > 0 {
        let s = a.len() - 1;
        let x = choose|between: Xoshiro256PlusPlus|
            are_trials(machine, bounds, dimensions, unit, seed, g, a.drop_last(), between) && #[trigger] is_trial(
                machine,
                bounds,
                dimensions,
                unit,
                seed,
                s,
                between,
                a.last(),
                after_g,
            );
        let y = choose|between: Xoshiro256PlusPlus|
            are_trials(machine, bounds, dimensions, unit, seed, h, b.drop_last(), between) && #[trigger] is_trial(
                machine,
                bounds,
                dimensions,
                unit,
                seed,
                s,
                between,
                b.last(),
                after_h,
            );
        trials_are_the_same(machine, bounds, dimensions, unit, seed, g, a.drop_last(), x, h, b.drop_last(), y);
        a_trial_is_the_same(machine, bounds, dimensions, unit, seed, s, x, a.last(), after_g, y, b.last(), after_h);
        assert(a =~= a.drop_last().push(a.last()));
        assert(b =~= b.drop_last().push(b.last()));
    } else {
        assert(a =~= b);
    }
}

proof fn earlier_trials<
    M: Machine,
    U: Fn(&Xoshiro256PlusPlus) -> (Real, Xoshiro256PlusPlus),
    F: Fn(&Landing, &Vec<Real>, u64) -> Option<Point>,
>(
    machine: M,
    bounds: Seq<Interval>,
    dimensions: nat,
    unit: U,
    seed: F,
    before: Xoshiro256PlusPlus,
    trials: Seq<Trial>,
    after: Xoshiro256PlusPlus,
    upto: int,
) -> (between: Xoshiro256PlusPlus)
    requires
        are_trials(machine, bounds, dimensions, unit, seed, before, trials, after),
        0 <= upto <= trials.len(),
    ensures
        are_trials(machine, bounds, dimensions, unit, seed, before, trials.take(upto), between),
    decreases trials.len(),
{
    if upto == trials.len() {
        assert(trials.take(upto) =~= trials);
        after
    } else {
        let x = choose|between: Xoshiro256PlusPlus|
            are_trials(machine, bounds, dimensions, unit, seed, before, trials.drop_last(), between)
                && #[trigger] is_trial(
                machine,
                bounds,
                dimensions,
                unit,
                seed,
                trials.len() - 1,
                between,
                trials.last(),
                after,
            );
        assert(trials.take(upto) =~= trials.drop_last().take(upto));
        earlier_trials(machine, bounds, dimensions, unit, seed, before, trials.drop_last(), x, upto)
    }
}

/// A seed is the same every time: where the draws are a function of the
/// generator and the solver of what it is asked with, two searches of one box
/// from one state of the generator come to one answer, and leave one state.
pub proof fn a_seed_is_the_same_every_time<
    E: Evaluate,
    M: Machine,
    U: Fn(&Xoshiro256PlusPlus) -> (Real, Xoshiro256PlusPlus),
    F: Fn(&Landing, &Vec<Real>, u64) -> Option<Point>,
>(
    system: ConstraintSystem<E>,
    machine: M,
    bounds: Seq<Interval>,
    starts: int,
    unit: U,
    seed: F,
    g: Xoshiro256PlusPlus,
    first: Option<Seq<Real>>,
    after_g: Xoshiro256PlusPlus,
    h: Xoshiro256PlusPlus,
    second: Option<Seq<Real>>,
    after_h: Xoshiro256PlusPlus,
)
    requires
        deterministic(machine),
        units_are_steady(unit),
        seeds_steadily(seed),
        words(g) == words(h),
        is_found(system, machine, bounds, starts, unit, seed, g, first, after_g),
        is_found(system, machine, bounds, starts, unit, seed, h, second, after_h),
    ensures
        first == second,
        words(after_g) == words(after_h),
{
    let arithmetic = arithmetic_of(machine);
    let dimensions = system.variables@.len();
    let a = choose|trials: Seq<Trial>|
        {
            &&& #[trigger] is_decided(system, arithmetic, bounds, starts, trials, first)
            &&& are_trials(machine, bounds, dimensions, unit, seed, g, trials, after_g)
        };
    let b = choose|trials: Seq<Trial>|
        {
            &&& #[trigger] is_decided(system, arithmetic, bounds, starts, trials, second)
            &&& are_trials(machine, bounds, dimensions, unit, seed, h, trials, after_h)
        };
    if a.len() < b.len() {
        let x = earlier_trials(machine, bounds, dimensions, unit, seed, h, b, after_h, a.len() as int);
        trials_are_the_same(machine, bounds, dimensions, unit, seed, g, a, after_g, h, b.take(a.len() as int), x);
        let last = a.len() - 1;
        if first is Some {
            assert(b.take(a.len() as int)[last] == b[last]);
            assert(is_accepted(system, arithmetic, bounds, b[last]));
        }
        assert(false);
    } else if b.len() < a.len() {
        let x = earlier_trials(machine, bounds, dimensions, unit, seed, g, a, after_g, b.len() as int);
        trials_are_the_same(machine, bounds, dimensions, unit, seed, g, a.take(b.len() as int), x, h, b, after_h);
        let last = b.len() - 1;
        if second is Some {
            assert(a.take(b.len() as int)[last] == a[last]);
            assert(is_accepted(system, arithmetic, bounds, a[last]));
        }
        assert(false);
    } else {
        trials_are_the_same(machine, bounds, dimensions, unit, seed, g, a, after_g, h, b, after_h);
        if first is Some && second is None || first is None && second is Some {
            assert(a[a.len() - 1] == b[b.len() - 1]);
        }
    }
}

/// A projection is the same every time: where the solver is a function of what
/// it is asked with, two projections of one point from one start come to one
/// answer.
pub proof fn a_projection_is_the_same_every_time<
    E: Evaluate,
    M: Machine,
    R: Fn(&Projection, &Vec<Real>, u64) -> Projected,
>(
    system: ConstraintSystem<E>,
    machine: M,
    run: R,
    from: Seq<Real>,
    target: Seq<Real>,
    clearance: Real,
    first: Projected,
    second: Projected,
)
    requires
        deterministic(machine),
        projects_steadily(run),
        is_nearest(system, machine, run, from, target, clearance, first),
        is_nearest(system, machine, run, from, target, clearance, second),
    ensures
        outcome_of(first.clear) == outcome_of(second.clear),
        outcome_of(first.feasible) == outcome_of(second.feasible),
{
    let arithmetic = arithmetic_of(machine);
    let budget = projection_budget(system.variables@.len() as int) as u64;
    let (p, s, x) = choose|projection: Projection, start: Vec<Real>, answer: Projected|
        {
            &&& #[trigger] call_ensures(run, (&projection, &start, budget), answer)
            &&& projection.is_of(system, machine, target, clearance)
            &&& start@ == projection.cube@.inside(arithmetic, from)
            &&& outcome_of(first.clear) == accepted(system, arithmetic, clearance, outcome_of(answer.clear))
            &&& outcome_of(first.feasible) == accepted(system, arithmetic, zero(), outcome_of(answer.feasible))
        };
    let (q, t, y) = choose|projection: Projection, start: Vec<Real>, answer: Projected|
        {
            &&& #[trigger] call_ensures(run, (&projection, &start, budget), answer)
            &&& projection.is_of(system, machine, target, clearance)
            &&& start@ == projection.cube@.inside(arithmetic, from)
            &&& outcome_of(second.clear) == accepted(system, arithmetic, clearance, outcome_of(answer.clear))
            &&& outcome_of(second.feasible) == accepted(system, arithmetic, zero(), outcome_of(answer.feasible))
        };
    assert(are_alike(p, q));
    assert(call_ensures(run, (&p, &s, budget), x));
    assert(call_ensures(run, (&q, &t, budget), y));
}

// ---- what a solver is asked for ----

/// The sum of the squares of the first gaps.
pub open spec fn squares(a: Seq<Real>, b: Seq<Real>, upto: int) -> real
    decreases upto,
{
    if upto <= 0 {
        0real
    } else {
        let gap = quantity(a[upto - 1]) - quantity(b[upto - 1]);
        squares(a, b, upto - 1) + gap * gap
    }
}

/// Whether every answer a squared distance asks for along a coordinate is exact.
pub open spec fn is_squared_along(arithmetic: Arithmetic, a: Seq<Real>, b: Seq<Real>, k: int) -> bool {
    let gap = arithmetic.minus(a[k], b[k]);
    &&& subtracts_exactly(arithmetic, a[k], b[k])
    &&& multiplies_exactly(arithmetic, gap, gap)
    &&& adds_exactly(arithmetic, squared_distance(arithmetic, a, b, k), arithmetic.times(gap, gap))
}

/// A projection's cost is the squared distance: where the answers are exact, the sum
/// of the squares of the gaps to the target.
pub proof fn a_cost_is_the_squared_distance(arithmetic: Arithmetic, a: Seq<Real>, b: Seq<Real>, upto: int)
    requires
        0 <= upto,
        forall|k: int| 0 <= k < upto ==> #[trigger] is_squared_along(arithmetic, a, b, k),
    ensures
        quantity(squared_distance(arithmetic, a, b, upto)) == squares(a, b, upto),
    decreases upto,
{
    signs_are_exact(zero());
    if upto > 0 {
        a_cost_is_the_squared_distance(arithmetic, a, b, upto - 1);
        assert(is_squared_along(arithmetic, a, b, upto - 1));
    }
}

/// A point at which a row with a margin built in is at most zero has that margin:
/// the constraint passes there, and so far away either way along every coordinate it
/// names.
pub proof fn a_margined_row_has_its_margin(
    judge: Judge,
    arithmetic: Arithmetic,
    named: Seq<usize>,
    width: Seq<Real>,
    margin: Real,
    point: Seq<Real>,
    upto: int,
    k: int,
)
    requires
        0 <= k < upto <= named.len(),
        margined(judge, arithmetic, named, width, margin, point, upto).at_most(zero()),
    ensures
        passes(judge, point),
        ({
            let coordinate = named[k] as int;
            let step = arithmetic.times(margin, width[coordinate]);
            step.at_most(zero()) || (passes(judge, moved(arithmetic, point, coordinate, minus_one(), step)) && passes(
                judge,
                moved(arithmetic, point, coordinate, one(), step),
            ))
        }),
    decreases upto,
{
    let before = margined(judge, arithmetic, named, width, margin, point, upto - 1);
    a_margined_row_is_a_number(judge, arithmetic, named, width, margin, point, upto - 1);
    assert(before.at_most(zero()));
    if k < upto - 1 {
        a_margined_row_has_its_margin(judge, arithmetic, named, width, margin, point, upto - 1, k);
    } else {
        a_margined_row_holds(judge, arithmetic, named, width, margin, point, upto - 1);
        let coordinate = named[k] as int;
        let step = arithmetic.times(margin, width[coordinate]);
        if !step.at_most(zero()) {
            let down = penalised(judge, moved(arithmetic, point, coordinate, minus_one(), step));
            let up = penalised(judge, moved(arithmetic, point, coordinate, one(), step));
            assert(!down.nan() && !up.nan());
            assert(down.at_most(zero()) && up.at_most(zero()));
        }
    }
}

proof fn a_margined_row_is_a_number(
    judge: Judge,
    arithmetic: Arithmetic,
    named: Seq<usize>,
    width: Seq<Real>,
    margin: Real,
    point: Seq<Real>,
    upto: int,
)
    ensures
        !margined(judge, arithmetic, named, width, margin, point, upto).nan(),
    decreases upto,
{
    if upto > 0 {
        a_margined_row_is_a_number(judge, arithmetic, named, width, margin, point, upto - 1);
    }
}

proof fn a_margined_row_holds(
    judge: Judge,
    arithmetic: Arithmetic,
    named: Seq<usize>,
    width: Seq<Real>,
    margin: Real,
    point: Seq<Real>,
    upto: int,
)
    requires
        margined(judge, arithmetic, named, width, margin, point, upto).at_most(zero()),
    ensures
        passes(judge, point),
    decreases upto,
{
    if upto > 0 {
        a_margined_row_is_a_number(judge, arithmetic, named, width, margin, point, upto - 1);
        a_margined_row_holds(judge, arithmetic, named, width, margin, point, upto - 1);
    }
}

/// A point at which the shifted sides of the cube are at most zero is the margin
/// inside it, where the answers are exact.
pub proof fn a_shifted_side_has_its_margin(arithmetic: Arithmetic, margin: Real, unit: Seq<Real>, k: int)
    requires
        0 <= k < unit.len(),
        subtracts_exactly(arithmetic, margin, unit[k]),
        adds_exactly(arithmetic, unit[k], margin),
        subtracts_exactly(arithmetic, arithmetic.plus(unit[k], margin), one()),
        arithmetic.minus(margin, unit[k]).finite(),
        arithmetic.minus(arithmetic.plus(unit[k], margin), one()).finite(),
    ensures
        margined_sides(arithmetic, margin, unit)[k].at_most(zero()) <==> quantity(margin) <= quantity(unit[k]),
        margined_sides(arithmetic, margin, unit)[unit.len() + k].at_most(zero()) <==> quantity(unit[k]) <= 1real
            - quantity(margin),
{
    the_constants_are_what_they_say();
    signs_are_exact(zero());
    let rows = margined_sides(arithmetic, margin, unit);
    assert(rows[k] == arithmetic.minus(margin, unit[k]));
    assert(rows[unit.len() + k] == arithmetic.minus(arithmetic.plus(unit[k], margin), one()));
    an_order_of_quantities(rows[k], zero());
    an_order_of_quantities(rows[unit.len() + k], zero());
}

/// A margin is no less than twice the clearance, and no less than the least.
pub proof fn a_margin_has_room_to_spare(arithmetic: Arithmetic, clearance: Real)
    ensures
        !margin_of(arithmetic, clearance).below(arithmetic.times(two(), clearance)),
        !margin_of(arithmetic, clearance).below(least_margin()),
        margin_of(arithmetic, clearance) == arithmetic.times(two(), clearance) || margin_of(arithmetic, clearance)
            == least_margin(),
{
}

/// Numbers added up.
pub open spec fn added_up(list: Seq<Real>) -> real
    decreases list.len(),
{
    if list.len() == 0 {
        0real
    } else {
        added_up(list.drop_last()) + quantity(list.last())
    }
}

/// A sum adds up everything, where the answers are exact.
pub proof fn a_sum_adds_up_everything(arithmetic: Arithmetic, list: Seq<Real>)
    requires
        forall|i: int|
            0 <= i < list.len() ==> adds_exactly(arithmetic, sum_of(arithmetic, list.take(i)), #[trigger] list[i]),
    ensures
        quantity(sum_of(arithmetic, list)) == added_up(list),
    decreases list.len(),
{
    if list.len() > 0 {
        let rest = list.drop_last();
        assert forall|i: int| 0 <= i < rest.len() implies adds_exactly(
            arithmetic,
            sum_of(arithmetic, rest.take(i)),
            #[trigger] rest[i],
        ) by {
            assert(rest[i] == list[i]);
            assert(rest.take(i) =~= list.take(i));
        }
        a_sum_adds_up_everything(arithmetic, rest);
        assert(list[list.len() - 1] == list.last());
        assert(list.take(list.len() - 1) =~= rest);
    } else {
        signs_are_exact(zero());
    }
}

/// The largest is the largest: of numbers none is above it, and it is one of them, or
/// minus infinity where there is none.
pub proof fn the_largest_is_the_largest(list: Seq<Real>)
    requires
        forall|i: int| 0 <= i < list.len() ==> !(#[trigger] list[i]).nan(),
    ensures
        !largest_of(list).nan(),
        forall|i: int| 0 <= i < list.len() ==> (#[trigger] list[i]).at_most(largest_of(list)),
        largest_of(list) == negative_infinity() || list.contains(largest_of(list)),
    decreases list.len(),
{
    if list.len() > 0 {
        let rest = list.drop_last();
        assert forall|i: int| 0 <= i < rest.len() implies !(#[trigger] rest[i]).nan() by {
            assert(rest[i] == list[i]);
        }
        the_largest_is_the_largest(rest);
        assert(list[list.len() - 1] == list.last());
        assert forall|i: int| 0 <= i < list.len() implies (#[trigger] list[i]).at_most(largest_of(list)) by {
            if i < rest.len() {
                assert(rest[i] == list[i]);
            }
        }
        if rest.contains(largest_of(rest)) {
            let i = choose|i: int| 0 <= i < rest.len() && rest[i] == largest_of(rest);
            assert(list[i] == largest_of(rest));
        }
    }
}

/// What is not a number is as bad as can be: a residual that there is not, or that is
/// not finite, counts as above every finite one, and any other as what it is.
pub proof fn what_cannot_be_judged_is_worst(judge: Judge, point: Seq<Real>, other: Real)
    requires
        other.finite(),
    ensures
        !penalised(judge, point).nan(),
        judge(point) is None || !(judge(point)->0).finite() ==> other.below(penalised(judge, point)),
        judge(point) is Some && (judge(point)->0).finite() ==> penalised(judge, point) == judge(point)->0,
{
}

} // verus!
