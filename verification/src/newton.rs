//! The projection by Newton on the optimality conditions, over an active set.
//!
//! The nearest feasible point to `p` minimises half the squared distance
//! subject to every row being at most zero. At the answer, the displacement
//! from `p` is a combination of the gradients of the rows *active* there, with
//! multipliers that are not negative. The Newton step for an active set is the
//! projection of `p` onto those rows linearised where the iterate stands:
//!
//! ```text
//! (J J^T) lambda = J (p - u) + g(u)        J = one gradient per active row
//! u' = p - J^T lambda
//! ```
//!
//! Which rows are active is not known in advance, and is a fixed point: the
//! guess is the rows violated at the start, a row violated where the iteration
//! lands joins, and one whose multiplier came out negative leaves. Bounds are
//! rows like any other. Every way this can fail answers `None`: a residual or
//! a gradient that is missing or not finite, a solve that is not, an iteration
//! that has not converged in its budget, a set that has not settled in its.

use vstd::prelude::*;
use crate::calculus::{
    adds_exactly, divides_exactly, multiplies_exactly, quantity, signs_are_exact, subtracts_exactly,
    the_constants_are_what_they_say,
};
use crate::ast::UnaryOp;
use crate::cube::{Cube, Frame};
use crate::machine::{arithmetic_of, deterministic, minus, over, plus, times, Arithmetic, Machine};
use crate::number::{minus_one, one, zero, Real};
use crate::system::{copied, points, residual, ConstraintSystem, Evaluate, Point};

verus! {

/// Newton iterations one active set gets to converge. A linear row converges
/// in one; a curved one linearly, and one that bends too sharply not at all,
/// which the cap catches.
pub const NEWTON_ITERATIONS: usize = 128;

/// `1e-13`: the step below which an iteration has converged, in the unit cube.
pub const NEWTON_STEP: u64 = 0x3d3c_25c2_6849_7682;

#[verifier::allow_in_spec]
pub fn newton_step() -> Real
    returns
        (Real { bits: NEWTON_STEP }),
{
    Real { bits: NEWTON_STEP }
}

/// `-1e-9`: how far below zero a residual may be at the landing for its row to
/// count as a wall the landing stands on.
pub const TIGHT: u64 = 0xbe11_2e0b_e826_d695;

#[verifier::allow_in_spec]
pub fn tight() -> Real
    returns
        (Real { bits: TIGHT }),
{
    Real { bits: TIGHT }
}

/// The active set may change once per row, and this many times more for the
/// rows that leave.
pub const ROUNDS_TO_SPARE: usize = 8;

/// A converged projection: the point, on the boundary of the rows active
/// there, and the direction into the region from it.
#[derive(Debug)]
pub struct Landing {
    pub point: Point,
    /// The negated sum of the unit normals of every row the landing stands on,
    /// in the caller's coordinates: the bisector of the wedge they make.
    pub inward: Vec<Real>,
}

/// A landing as sequences.
pub ghost struct Landed {
    pub point: Seq<Real>,
    pub inward: Seq<Real>,
}

impl View for Landing {
    type V = Landed;

    open spec fn view(&self) -> Landed {
        Landed { point: self.point@, inward: self.inward@ }
    }
}

// ---- the rows ----

/// How many rows a system has: its constraints, then the lower bounds, then
/// the upper bounds.
pub open spec fn row_count<E>(system: ConstraintSystem<E>) -> int {
    system.constraints@.len() as int + 2 * system.variables@.len() as int
}

/// The box of a system, as a frame.
pub open spec fn frame_of<E>(system: ConstraintSystem<E>, arithmetic: Arithmetic) -> Frame {
    Frame::declared(arithmetic, system.variables@)
}

/// A row's residual at a point of the box and the point of the cube it is: at
/// most zero where the row holds, and `None` where it is not a finite number.
pub open spec fn row_residual<E: Evaluate>(
    system: ConstraintSystem<E>,
    arithmetic: Arithmetic,
    row: int,
    x: Seq<Real>,
    unit: Seq<Real>,
) -> Option<Real> {
    let constraints = system.constraints@.len() as int;
    let dimensions = system.variables@.len() as int;
    if row < constraints {
        match system.judge(row)(x) {
            Some(value) => if value.finite() {
                Some(value)
            } else {
                None
            },
            None => None,
        }
    } else if row < constraints + dimensions {
        Some(unit[row - constraints].negated())
    } else {
        Some(arithmetic.minus(unit[row - constraints - dimensions], one()))
    }
}

/// Partials with respect to the cube: each scaled by its coordinate's width.
pub open spec fn scaled(
    arithmetic: Arithmetic,
    named: Seq<usize>,
    partials: Seq<Real>,
    width: Seq<Real>,
) -> Seq<(usize, Real)> {
    Seq::new(
        if named.len() <= partials.len() {
            named.len()
        } else {
            partials.len()
        },
        |k: int| (named[k], arithmetic.times(partials[k], width[named[k] as int])),
    )
}

/// Whether every partial is a finite number.
pub open spec fn all_finite(partials: Seq<(usize, Real)>) -> bool {
    forall|k: int| 0 <= k < partials.len() ==> (#[trigger] partials[k]).1.finite()
}

/// A row's gradient with respect to the cube at a point of the box, as the
/// coordinates it names and their partials.
pub open spec fn row_gradient<E: Evaluate>(
    system: ConstraintSystem<E>,
    arithmetic: Arithmetic,
    row: int,
    x: Seq<Real>,
) -> Option<Seq<(usize, Real)>> {
    let constraints = system.constraints@.len() as int;
    let dimensions = system.variables@.len() as int;
    if row < constraints {
        match system.slope(row)(x) {
            None => None,
            Some(partials) => {
                let found = scaled(
                    arithmetic,
                    system.incidence.rows@[row]@,
                    partials,
                    frame_of(system, arithmetic).width,
                );
                if all_finite(found) {
                    Some(found)
                } else {
                    None
                }
            },
        }
    } else if row < constraints + dimensions {
        Some(seq![((row - constraints) as usize, minus_one())])
    } else {
        Some(seq![((row - constraints - dimensions) as usize, one())])
    }
}

fn residual_of<E: Evaluate, M: Machine>(
    system: &ConstraintSystem<E>,
    machine: &M,
    row: usize,
    x: &Vec<Real>,
    unit: &Vec<Real>,
) -> (found: Option<Real>)
    requires
        row < row_count(*system),
        unit@.len() == system.variables@.len(),
    ensures
        deterministic(*machine) && system.judged() ==> found == row_residual(
            *system,
            arithmetic_of(*machine),
            row as int,
            x@,
            unit@,
        ),
{
    let constraints: usize = system.constraints.len();
    let dimensions: usize = system.variables.len();
    if row < constraints {
        proof {
            if system.judged() {
                assert(crate::system::consistent(system.constraints@[row as int].compiled));
            }
        }
        match residual(&system.constraints[row].compiled, x) {
            Some(value) => if value.is_finite() {
                Some(value)
            } else {
                None
            },
            None => None,
        }
    } else if row - constraints < dimensions {
        Some(unit[row - constraints].negate())
    } else {
        Some(minus(machine, unit[row - constraints - dimensions], one()))
    }
}

/// Whether every coordinate named is one of so many.
pub open spec fn are_coordinates(partials: Seq<(usize, Real)>, dimensions: int) -> bool {
    forall|k: int| 0 <= k < partials.len() ==> (#[trigger] partials[k]).0 < dimensions
}

/// A gradient as a sequence.
pub open spec fn listed(partials: Option<Vec<(usize, Real)>>) -> Option<Seq<(usize, Real)>> {
    match partials {
        Some(list) => Some(list@),
        None => None,
    }
}

fn gradient_of<E: Evaluate, M: Machine>(
    system: &ConstraintSystem<E>,
    machine: &M,
    cube: &Cube,
    row: usize,
    x: &Vec<Real>,
) -> (found: Option<Vec<(usize, Real)>>)
    requires
        system.well_formed(),
        row < row_count(*system),
        cube.well_formed(),
        cube.lower@.len() == system.variables@.len(),
        deterministic(*machine) ==> cube@ == frame_of(*system, arithmetic_of(*machine)),
    ensures
        found matches Some(partials) ==> are_coordinates(partials@, system.variables@.len() as int),
        deterministic(*machine) && system.all_graded() ==> listed(found) == row_gradient(
            *system,
            arithmetic_of(*machine),
            row as int,
            x@,
        ),
{
    let constraints: usize = system.constraints.len();
    let dimensions: usize = system.variables.len();
    let ghost known = deterministic(*machine) && system.all_graded();
    let ghost arithmetic = arithmetic_of(*machine);
    if row < constraints {
        proof {
            if system.all_graded() {
                assert(crate::system::graded(system.constraints@[row as int].compiled));
            }
        }
        let partials = match system.gradient(row, x) {
            Some(partials) => partials,
            None => {
                return None;
            },
        };
        let named = &system.incidence.rows[row];
        let ghost all = scaled(arithmetic, named@, partials@, frame_of(*system, arithmetic).width);
        let mut found: Vec<(usize, Real)> = Vec::new();
        let mut k: usize = 0;
        while k < named.len() && k < partials.len()
            invariant
                system.well_formed(),
                row < system.constraints@.len(),
                *named == system.incidence.rows@[row as int],
                cube.well_formed(),
                cube.lower@.len() == system.variables@.len(),
                deterministic(*machine) ==> cube@ == frame_of(*system, arithmetic_of(*machine)),
                known == (deterministic(*machine) && system.all_graded()),
                arithmetic == arithmetic_of(*machine),
                all == scaled(arithmetic, named@, partials@, frame_of(*system, arithmetic).width),
                k <= named@.len(),
                k <= partials@.len(),
                found@.len() == k,
                are_coordinates(found@, system.variables@.len() as int),
                known ==> found@ == all.take(k as int),
            decreases named@.len() - k,
        {
            assert(system.incidence.rows@[row as int]@[k as int] < system.variables@.len());
            let coordinate: usize = named[k];
            let partial = times(machine, partials[k], cube.width[coordinate]);
            let ghost before = found@;
            found.push((coordinate, partial));
            proof {
                assert forall|j: int| 0 <= j < found@.len() implies (#[trigger] found@[j]).0 < system.variables@.len() by {
                    if j < before.len() {
                        assert(found@[j] == before[j]);
                    }
                }
                if known {
                    assert(all.take(k + 1) =~= all.take(k as int).push(all[k as int]));
                }
            }
            k = k + 1;
        }
        assert(known ==> all.take(k as int) =~= all);
        let mut j: usize = 0;
        while j < found.len()
            invariant
                j <= found@.len(),
                known ==> found@ == all,
                known ==> row_gradient(*system, arithmetic, row as int, x@) == (if all_finite(all) {
                    Some(all)
                } else {
                    None
                }),
                known == (deterministic(*machine) && system.all_graded()),
                arithmetic == arithmetic_of(*machine),
                forall|i: int| 0 <= i < j ==> (#[trigger] found@[i]).1.finite(),
            decreases found@.len() - j,
        {
            if !found[j].1.is_finite() {
                assert(!found@[j as int].1.finite());
                return None;
            }
            j = j + 1;
        }
        Some(found)
    } else {
        let mut found: Vec<(usize, Real)> = Vec::new();
        if row - constraints < dimensions {
            found.push((row - constraints, minus_one()));
        } else {
            found.push((row - constraints - dimensions, one()));
        }
        proof {
            let expected = row_gradient(*system, arithmetic, row as int, x@)->0;
            assert(found@ =~= expected);
        }
        Some(found)
    }
}

// ---- the step ----

/// No slope in any of so many coordinates.
pub open spec fn flat(dimensions: nat) -> Seq<Real> {
    Seq::new(dimensions, |k: int| zero())
}

/// The first partials, gathered by coordinate.
pub open spec fn gathered(arithmetic: Arithmetic, partials: Seq<(usize, Real)>, dimensions: nat, upto: int) -> Seq<Real>
    decreases upto,
{
    if upto <= 0 {
        flat(dimensions)
    } else {
        let before = gathered(arithmetic, partials, dimensions, upto - 1);
        let coordinate = partials[upto - 1].0 as int;
        before.update(coordinate, arithmetic.plus(before[coordinate], partials[upto - 1].1))
    }
}

/// How far the first coordinates of the way from `u` to `p` go along a slope.
pub open spec fn along(arithmetic: Arithmetic, slope: Seq<Real>, p: Seq<Real>, u: Seq<Real>, upto: int) -> Real
    decreases upto,
{
    if upto <= 0 {
        zero()
    } else {
        arithmetic.plus(
            along(arithmetic, slope, p, u, upto - 1),
            arithmetic.times(slope[upto - 1], arithmetic.minus(p[upto - 1], u[upto - 1])),
        )
    }
}

/// The linear equations of the rows of an active set, slopes and right hand
/// sides: what the displacement has to undo.
pub ghost struct Equations {
    pub slopes: Seq<Seq<Real>>,
    pub sides: Seq<Real>,
}

/// The equations of the first rows of an active set where the iterate stands,
/// or `None` where a row has no residual or no gradient.
pub open spec fn equations<E: Evaluate>(
    system: ConstraintSystem<E>,
    arithmetic: Arithmetic,
    active: Seq<usize>,
    p: Seq<Real>,
    u: Seq<Real>,
    upto: int,
) -> Option<Equations>
    decreases upto,
{
    let x = frame_of(system, arithmetic).outside(arithmetic, u);
    if upto <= 0 {
        Some(Equations { slopes: Seq::empty(), sides: Seq::empty() })
    } else {
        match equations(system, arithmetic, active, p, u, upto - 1) {
            None => None,
            Some(before) => match row_residual(system, arithmetic, active[upto - 1] as int, x, u) {
                None => None,
                Some(value) => match row_gradient(system, arithmetic, active[upto - 1] as int, x) {
                    None => None,
                    Some(partials) => {
                        let slope = gathered(arithmetic, partials, system.variables@.len(), partials.len() as int);
                        Some(
                            Equations {
                                slopes: before.slopes.push(slope),
                                sides: before.sides.push(
                                    arithmetic.plus(
                                        along(arithmetic, slope, p, u, system.variables@.len() as int),
                                        value,
                                    ),
                                ),
                            },
                        )
                    },
                },
            },
        }
    }
}

proof fn no_equations_stays_none<E: Evaluate>(
    system: ConstraintSystem<E>,
    arithmetic: Arithmetic,
    active: Seq<usize>,
    p: Seq<Real>,
    u: Seq<Real>,
    from: int,
    upto: int,
)
    requires
        from <= upto,
        equations(system, arithmetic, active, p, u, from) is None,
    ensures
        equations(system, arithmetic, active, p, u, upto) is None,
    decreases upto - from,
{
    if from < upto {
        no_equations_stays_none(system, arithmetic, active, p, u, from, upto - 1);
    }
}

/// Whether every row of an active set is one of a system's.
pub open spec fn are_rows<E>(system: ConstraintSystem<E>, active: Seq<usize>) -> bool {
    forall|i: int| 0 <= i < active.len() ==> (#[trigger] active[i]) < row_count(system)
}

/// Whether the machine gives one answer to one question and every constraint
/// one residual and one gradient per point.
pub open spec fn is_steady<E: Evaluate, M: Machine>(system: ConstraintSystem<E>, machine: M) -> bool {
    deterministic(machine) && system.judged() && system.all_graded()
}

/// Whether a cube is the one of a system.
pub open spec fn is_cube_of<E, M: Machine>(cube: Cube, system: ConstraintSystem<E>, machine: M) -> bool {
    &&& cube.well_formed()
    &&& cube.lower@.len() == system.variables@.len()
    &&& deterministic(machine) ==> cube@ == frame_of(system, arithmetic_of(machine))
}

fn gather<M: Machine>(machine: &M, partials: &Vec<(usize, Real)>, dimensions: usize) -> (slope: Vec<Real>)
    requires
        are_coordinates(partials@, dimensions as int),
    ensures
        slope@.len() == dimensions,
        deterministic(*machine) ==> slope@ == gathered(
            arithmetic_of(*machine),
            partials@,
            dimensions as nat,
            partials@.len() as int,
        ),
{
    let mut slope: Vec<Real> = Vec::new();
    for k in 0..dimensions
        invariant
            slope@.len() == k,
            forall|j: int| 0 <= j < k ==> (#[trigger] slope@[j]) == zero(),
    {
        slope.push(zero());
    }
    assert(slope@ =~= flat(dimensions as nat));
    for k in 0..partials.len()
        invariant
            are_coordinates(partials@, dimensions as int),
            slope@.len() == dimensions,
            deterministic(*machine) ==> slope@ == gathered(
                arithmetic_of(*machine),
                partials@,
                dimensions as nat,
                k as int,
            ),
    {
        assert(partials@[k as int].0 < dimensions);
        let coordinate: usize = partials[k].0;
        let sum = plus(machine, slope[coordinate], partials[k].1);
        slope.set(coordinate, sum);
    }
    slope
}

fn linearise<E: Evaluate, M: Machine>(
    system: &ConstraintSystem<E>,
    machine: &M,
    cube: &Cube,
    active: &Vec<usize>,
    p: &Vec<Real>,
    u: &Vec<Real>,
) -> (found: Option<(Vec<Vec<Real>>, Vec<Real>)>)
    requires
        system.well_formed(),
        is_cube_of(*cube, *system, *machine),
        are_rows(*system, active@),
        system.fits(p@),
        system.fits(u@),
    ensures
        found matches Some(pair) ==> pair.0@.len() == active@.len() && pair.1@.len() == active@.len() && forall|i: int|
            0 <= i < active@.len() ==> (#[trigger] pair.0@[i])@.len() == system.variables@.len(),
        is_steady(*system, *machine) ==> match found {
            Some(pair) => equations(
                *system,
                arithmetic_of(*machine),
                active@,
                p@,
                u@,
                active@.len() as int,
            ) == Some(Equations { slopes: points(pair.0@), sides: pair.1@ }),
            None => equations(*system, arithmetic_of(*machine), active@, p@, u@, active@.len() as int) is None,
        },
{
    let ghost known = is_steady(*system, *machine);
    let ghost arithmetic = arithmetic_of(*machine);
    let dimensions: usize = system.variables.len();
    let x = cube.denormalised(machine, u);
    let mut slopes: Vec<Vec<Real>> = Vec::new();
    let mut sides: Vec<Real> = Vec::new();
    assert(points(slopes@) =~= Seq::<Seq<Real>>::empty());
    for i in 0..active.len()
        invariant
            system.well_formed(),
            is_cube_of(*cube, *system, *machine),
            are_rows(*system, active@),
            system.fits(p@),
            system.fits(u@),
            dimensions == system.variables@.len(),
            known == is_steady(*system, *machine),
            arithmetic == arithmetic_of(*machine),
            known ==> x@ == frame_of(*system, arithmetic).outside(arithmetic, u@),
            slopes@.len() == i,
            sides@.len() == i,
            forall|k: int| 0 <= k < i ==> (#[trigger] slopes@[k])@.len() == system.variables@.len(),
            known ==> equations(*system, arithmetic, active@, p@, u@, i as int) == Some(
                Equations { slopes: points(slopes@), sides: sides@ },
            ),
    {
        assert(active@[i as int] < row_count(*system));
        let row: usize = active[i];
        let value = match residual_of(system, machine, row, &x, u) {
            Some(value) => value,
            None => {
                proof {
                    if known {
                        no_equations_stays_none(*system, arithmetic, active@, p@, u@, i + 1, active@.len() as int);
                    }
                }
                return None;
            },
        };
        let partials = match gradient_of(system, machine, cube, row, &x) {
            Some(partials) => partials,
            None => {
                proof {
                    if known {
                        no_equations_stays_none(*system, arithmetic, active@, p@, u@, i + 1, active@.len() as int);
                    }
                }
                return None;
            },
        };
        let slope = gather(machine, &partials, dimensions);
        let mut sum = zero();
        for k in 0..dimensions
            invariant
                dimensions == slope@.len() == p@.len() == u@.len(),
                arithmetic == arithmetic_of(*machine),
                deterministic(*machine) ==> sum == along(arithmetic, slope@, p@, u@, k as int),
        {
            sum = plus(machine, sum, times(machine, slope[k], minus(machine, p[k], u[k])));
        }
        let ghost before = slopes@;
        slopes.push(slope);
        sides.push(plus(machine, sum, value));
        assert(points(slopes@) =~= points(before).push(slope@));
    }
    Some((slopes, sides))
}

/// What a linear solve makes of slopes `J` and right hand sides: the
/// multipliers `(J J^T)^-1 b`, and what they pull by, `J^T` times them.
pub type Solving = spec_fn(Seq<Seq<Real>>, Seq<Real>) -> (Seq<Real>, Seq<Real>);

/// Whether every answer `solve` can give is the one `model` has.
pub open spec fn solves_as<S: Fn(&Vec<Vec<Real>>, &Vec<Real>) -> (Vec<Real>, Vec<Real>)>(
    solve: S,
    model: Solving,
) -> bool {
    forall|slopes: &Vec<Vec<Real>>, sides: &Vec<Real>, found: (Vec<Real>, Vec<Real>)| #[trigger]
        call_ensures(solve, (slopes, sides), found) ==> (found.0@, found.1@) == model(points(slopes@), sides@)
}

/// Whether `solve` gives one answer per system of equations.
pub open spec fn solves_steadily<S: Fn(&Vec<Vec<Real>>, &Vec<Real>) -> (Vec<Real>, Vec<Real>)>(solve: S) -> bool {
    exists|model: Solving| solves_as(solve, model)
}

/// The answers of a steady solve.
pub open spec fn solving_of<S: Fn(&Vec<Vec<Real>>, &Vec<Real>) -> (Vec<Real>, Vec<Real>)>(solve: S) -> Solving {
    choose|model: Solving| solves_as(solve, model)
}

/// Whether `solve` can be asked about any equations, and answers a multiplier
/// per row and a pull per coordinate.
pub open spec fn is_solver<S: Fn(&Vec<Vec<Real>>, &Vec<Real>) -> (Vec<Real>, Vec<Real>)>(solve: S) -> bool {
    &&& forall|slopes: &Vec<Vec<Real>>, sides: &Vec<Real>| #[trigger] call_requires(solve, (slopes, sides))
    &&& forall|slopes: &Vec<Vec<Real>>, sides: &Vec<Real>, found: (Vec<Real>, Vec<Real>)| #[trigger]
        call_ensures(solve, (slopes, sides), found) ==> {
            &&& found.0@.len() == sides@.len()
            &&& slopes@.len() > 0 ==> found.1@.len() == slopes@[0]@.len()
        }
}

/// Where a step goes, and with which multipliers.
pub ghost struct Step {
    pub unit: Seq<Real>,
    pub multipliers: Seq<Real>,
}

/// The Newton step of an active set where the iterate stands: to the target
/// itself where the set is empty.
pub open spec fn stepped<E: Evaluate>(
    system: ConstraintSystem<E>,
    arithmetic: Arithmetic,
    solving: Solving,
    active: Seq<usize>,
    p: Seq<Real>,
    u: Seq<Real>,
) -> Option<Step> {
    match equations(system, arithmetic, active, p, u, active.len() as int) {
        None => None,
        Some(rows) => if active.len() == 0 {
            Some(Step { unit: p, multipliers: Seq::empty() })
        } else {
            let (multipliers, pull) = solving(rows.slopes, rows.sides);
            if forall|i: int| 0 <= i < multipliers.len() ==> (#[trigger] multipliers[i]).finite() {
                Some(
                    Step {
                        unit: Seq::new(system.variables@.len(), |k: int| arithmetic.minus(p[k], pull[k])),
                        multipliers,
                    },
                )
            } else {
                None
            }
        },
    }
}

/// How far the first coordinates moved, at most: the largest of the moves.
pub open spec fn largest_move(arithmetic: Arithmetic, next: Seq<Real>, u: Seq<Real>, upto: int) -> Real
    decreases upto,
{
    if upto <= 0 {
        zero()
    } else {
        largest_move(arithmetic, next, u, upto - 1).upper(arithmetic.minus(next[upto - 1], u[upto - 1]).absolute())
    }
}

/// Where the iteration of an active set converges in so many steps, if it
/// does: at the first step smaller than [`newton_step`].
pub open spec fn converged<E: Evaluate>(
    system: ConstraintSystem<E>,
    arithmetic: Arithmetic,
    solving: Solving,
    active: Seq<usize>,
    p: Seq<Real>,
    u: Seq<Real>,
    left: nat,
) -> Option<Step>
    decreases left,
{
    if left == 0 {
        None
    } else {
        match stepped(system, arithmetic, solving, active, p, u) {
            None => None,
            Some(step) => if largest_move(arithmetic, step.unit, u, u.len() as int).below(newton_step()) {
                Some(step)
            } else {
                converged(system, arithmetic, solving, active, p, step.unit, (left - 1) as nat)
            },
        }
    }
}

/// Whether everything a projection asks gives one answer to one question.
pub open spec fn is_repeatable<E: Evaluate, M: Machine, S: Fn(&Vec<Vec<Real>>, &Vec<Real>) -> (Vec<Real>, Vec<Real>)>(
    system: ConstraintSystem<E>,
    machine: M,
    solve: S,
) -> bool {
    is_steady(system, machine) && solves_steadily(solve)
}

fn step<E: Evaluate, M: Machine, S: Fn(&Vec<Vec<Real>>, &Vec<Real>) -> (Vec<Real>, Vec<Real>)>(
    system: &ConstraintSystem<E>,
    machine: &M,
    solve: &S,
    cube: &Cube,
    active: &Vec<usize>,
    p: &Vec<Real>,
    u: &Vec<Real>,
) -> (found: Option<(Vec<Real>, Vec<Real>)>)
    requires
        system.well_formed(),
        is_cube_of(*cube, *system, *machine),
        is_solver(*solve),
        are_rows(*system, active@),
        system.fits(p@),
        system.fits(u@),
    ensures
        found matches Some(pair) ==> system.fits(pair.0@) && pair.1@.len() == active@.len(),
        is_repeatable(*system, *machine, *solve) ==> match found {
            Some(pair) => stepped(
                *system,
                arithmetic_of(*machine),
                solving_of(*solve),
                active@,
                p@,
                u@,
            ) == Some(Step { unit: pair.0@, multipliers: pair.1@ }),
            None => stepped(*system, arithmetic_of(*machine), solving_of(*solve), active@, p@, u@) is None,
        },
{
    let ghost known = is_repeatable(*system, *machine, *solve);
    let ghost arithmetic = arithmetic_of(*machine);
    let (slopes, sides) = match linearise(system, machine, cube, active, p, u) {
        Some(pair) => pair,
        None => {
            return None;
        },
    };
    if active.len() == 0 {
        let none: Vec<Real> = Vec::new();
        assert(none@ =~= Seq::<Real>::empty());
        return Some((copied(p), none));
    }
    let (multipliers, pull) = solve(&slopes, &sides);
    assert(slopes@[0]@.len() == system.variables@.len());
    let ghost answer = solving_of(*solve)(points(slopes@), sides@);
    assert(known ==> answer == (multipliers@, pull@));
    for i in 0..multipliers.len()
        invariant
            known == is_repeatable(*system, *machine, *solve),
            known ==> answer == (multipliers@, pull@),
            known ==> equations(*system, arithmetic_of(*machine), active@, p@, u@, active@.len() as int) == Some(
                Equations { slopes: points(slopes@), sides: sides@ },
            ),
            answer == solving_of(*solve)(points(slopes@), sides@),
            active@.len() > 0,
            forall|j: int| 0 <= j < i ==> (#[trigger] multipliers@[j]).finite(),
    {
        if !multipliers[i].is_finite() {
            assert(!multipliers@[i as int].finite());
            return None;
        }
    }
    let mut next: Vec<Real> = Vec::new();
    for k in 0..system.variables.len()
        invariant
            system.fits(p@),
            pull@.len() == system.variables@.len(),
            next@.len() == k,
            arithmetic == arithmetic_of(*machine),
            deterministic(*machine) ==> forall|j: int|
                0 <= j < k ==> (#[trigger] next@[j]) == arithmetic.minus(p@[j], pull@[j]),
    {
        next.push(minus(machine, p[k], pull[k]));
    }
    proof {
        if known {
            assert(next@ =~= Seq::new(system.variables@.len(), |k: int| arithmetic.minus(p@[k], pull@[k])));
        }
    }
    Some((next, multipliers))
}

fn converge<E: Evaluate, M: Machine, S: Fn(&Vec<Vec<Real>>, &Vec<Real>) -> (Vec<Real>, Vec<Real>)>(
    system: &ConstraintSystem<E>,
    machine: &M,
    solve: &S,
    cube: &Cube,
    active: &Vec<usize>,
    p: &Vec<Real>,
    from: &Vec<Real>,
) -> (found: Option<(Vec<Real>, Vec<Real>)>)
    requires
        system.well_formed(),
        is_cube_of(*cube, *system, *machine),
        is_solver(*solve),
        are_rows(*system, active@),
        system.fits(p@),
        system.fits(from@),
    ensures
        found matches Some(pair) ==> system.fits(pair.0@) && pair.1@.len() == active@.len(),
        is_repeatable(*system, *machine, *solve) ==> match found {
            Some(pair) => converged(
                *system,
                arithmetic_of(*machine),
                solving_of(*solve),
                active@,
                p@,
                from@,
                NEWTON_ITERATIONS as nat,
            ) == Some(Step { unit: pair.0@, multipliers: pair.1@ }),
            None => converged(
                *system,
                arithmetic_of(*machine),
                solving_of(*solve),
                active@,
                p@,
                from@,
                NEWTON_ITERATIONS as nat,
            ) is None,
        },
{
    let ghost known = is_repeatable(*system, *machine, *solve);
    let ghost arithmetic = arithmetic_of(*machine);
    let ghost solving = solving_of(*solve);
    let mut u = copied(from);
    for iteration in 0..NEWTON_ITERATIONS
        invariant
            system.well_formed(),
            is_cube_of(*cube, *system, *machine),
            is_solver(*solve),
            are_rows(*system, active@),
            system.fits(p@),
            system.fits(u@),
            known == is_repeatable(*system, *machine, *solve),
            arithmetic == arithmetic_of(*machine),
            solving == solving_of(*solve),
            known ==> converged(*system, arithmetic, solving, active@, p@, from@, NEWTON_ITERATIONS as nat) == converged(
                *system,
                arithmetic,
                solving,
                active@,
                p@,
                u@,
                (NEWTON_ITERATIONS - iteration) as nat,
            ),
    {
        let (next, multipliers) = match step(system, machine, solve, cube, active, p, &u) {
            Some(pair) => pair,
            None => {
                return None;
            },
        };
        let mut largest = zero();
        for k in 0..u.len()
            invariant
                next@.len() == u@.len(),
                arithmetic == arithmetic_of(*machine),
                deterministic(*machine) ==> largest == largest_move(arithmetic, next@, u@, k as int),
        {
            largest = largest.max(minus(machine, next[k], u[k]).abs());
        }
        if largest.lt(newton_step()) {
            return Some((next, multipliers));
        }
        u = next;
    }
    None
}

// ---- the active set ----

/// The rows below `upto`, other than those skipped, that are violated.
pub open spec fn violated_below<E: Evaluate>(
    system: ConstraintSystem<E>,
    arithmetic: Arithmetic,
    skipped: Seq<usize>,
    x: Seq<Real>,
    u: Seq<Real>,
    upto: int,
) -> Seq<usize>
    decreases upto,
{
    if upto <= 0 {
        Seq::empty()
    } else {
        let before = violated_below(system, arithmetic, skipped, x, u, upto - 1);
        if !skipped.contains((upto - 1) as usize) && is_violated(system, arithmetic, upto - 1, x, u) {
            before.push((upto - 1) as usize)
        } else {
            before
        }
    }
}

pub open spec fn is_violated<E: Evaluate>(
    system: ConstraintSystem<E>,
    arithmetic: Arithmetic,
    row: int,
    x: Seq<Real>,
    u: Seq<Real>,
) -> bool {
    row_residual(system, arithmetic, row, x, u) matches Some(value) && zero().below(value)
}

/// Whether a row below `upto`, other than those skipped, has no residual.
pub open spec fn some_fault<E: Evaluate>(
    system: ConstraintSystem<E>,
    arithmetic: Arithmetic,
    skipped: Seq<usize>,
    x: Seq<Real>,
    u: Seq<Real>,
    upto: int,
) -> bool {
    exists|row: int|
        0 <= row < upto && !skipped.contains(row as usize) && #[trigger] row_residual(system, arithmetic, row, x, u) is None
}

/// Whether a row is a wall the landing stands on: active, or tight without
/// having been violated.
pub open spec fn is_stood_on<E: Evaluate>(
    system: ConstraintSystem<E>,
    arithmetic: Arithmetic,
    active: Seq<usize>,
    row: int,
    x: Seq<Real>,
    u: Seq<Real>,
) -> bool {
    active.contains(row as usize) || (row_residual(system, arithmetic, row, x, u) matches Some(value) && tight().at_most(
        value,
    ))
}

/// The sum of the squares of the first partials.
pub open spec fn squares(arithmetic: Arithmetic, partials: Seq<(usize, Real)>, upto: int) -> Real
    decreases upto,
{
    if upto <= 0 {
        zero()
    } else {
        arithmetic.plus(
            squares(arithmetic, partials, upto - 1),
            arithmetic.times(partials[upto - 1].1, partials[upto - 1].1),
        )
    }
}

/// How long a gradient is.
pub open spec fn norm_of(arithmetic: Arithmetic, partials: Seq<(usize, Real)>) -> Real {
    UnaryOp::Sqrt.value(arithmetic, squares(arithmetic, partials, partials.len() as int))
}

/// A direction with the first partials of a normal, by its length, taken off.
pub open spec fn leaning(
    arithmetic: Arithmetic,
    direction: Seq<Real>,
    partials: Seq<(usize, Real)>,
    norm: Real,
    upto: int,
) -> Seq<Real>
    decreases upto,
{
    if upto <= 0 {
        direction
    } else {
        let before = leaning(arithmetic, direction, partials, norm, upto - 1);
        let coordinate = partials[upto - 1].0 as int;
        before.update(coordinate, arithmetic.minus(before[coordinate], arithmetic.over(partials[upto - 1].1, norm)))
    }
}

/// The negated sum of the unit normals of the walls among the rows below
/// `upto`, or `None` where one has no gradient. A wall without a slope counts
/// for nothing.
pub open spec fn bisector<E: Evaluate>(
    system: ConstraintSystem<E>,
    arithmetic: Arithmetic,
    active: Seq<usize>,
    x: Seq<Real>,
    u: Seq<Real>,
    upto: int,
) -> Option<Seq<Real>>
    decreases upto,
{
    if upto <= 0 {
        Some(flat(system.variables@.len()))
    } else {
        match bisector(system, arithmetic, active, x, u, upto - 1) {
            None => None,
            Some(direction) => if is_stood_on(system, arithmetic, active, upto - 1, x, u) {
                match row_gradient(system, arithmetic, upto - 1, x) {
                    None => None,
                    Some(partials) => {
                        let norm = norm_of(arithmetic, partials);
                        if zero().below(norm) {
                            Some(leaning(arithmetic, direction, partials, norm, partials.len() as int))
                        } else {
                            Some(direction)
                        }
                    },
                }
            } else {
                Some(direction)
            },
        }
    }
}

proof fn no_bisector_stays_none<E: Evaluate>(
    system: ConstraintSystem<E>,
    arithmetic: Arithmetic,
    active: Seq<usize>,
    x: Seq<Real>,
    u: Seq<Real>,
    from: int,
    upto: int,
)
    requires
        from <= upto,
        bisector(system, arithmetic, active, x, u, from) is None,
    ensures
        bisector(system, arithmetic, active, x, u, upto) is None,
    decreases upto - from,
{
    if from < upto {
        no_bisector_stays_none(system, arithmetic, active, x, u, from, upto - 1);
    }
}

/// The landing of an active set where the iterate stands.
pub open spec fn landed<E: Evaluate>(
    system: ConstraintSystem<E>,
    arithmetic: Arithmetic,
    active: Seq<usize>,
    u: Seq<Real>,
) -> Option<Landed> {
    let frame = frame_of(system, arithmetic);
    let x = frame.outside(arithmetic, u);
    match bisector(system, arithmetic, active, x, u, row_count(system)) {
        None => None,
        Some(direction) => Some(
            Landed {
                point: x,
                inward: Seq::new(system.variables@.len(), |k: int| arithmetic.times(direction[k], frame.width[k])),
            },
        ),
    }
}

/// The position from `from` on of the first negative multiplier, or how many
/// multipliers there are.
pub open spec fn first_negative(multipliers: Seq<Real>, from: int) -> int
    decreases multipliers.len() - from,
{
    if from >= multipliers.len() || multipliers[from].below(zero()) {
        from
    } else {
        first_negative(multipliers, from + 1)
    }
}

/// Where an active set settles in so many rounds, if it does: a round runs the
/// iteration, then drops the first row whose multiplier is negative, or adds
/// every other row that is violated, or is the last.
pub open spec fn settled<E: Evaluate>(
    system: ConstraintSystem<E>,
    arithmetic: Arithmetic,
    solving: Solving,
    active: Seq<usize>,
    p: Seq<Real>,
    u: Seq<Real>,
    left: nat,
) -> Option<Landed>
    decreases left,
{
    if left == 0 {
        None
    } else {
        match converged(system, arithmetic, solving, active, p, u, NEWTON_ITERATIONS as nat) {
            None => None,
            Some(step) => {
                let x = frame_of(system, arithmetic).outside(arithmetic, step.unit);
                let rows = row_count(system);
                let position = first_negative(step.multipliers, 0);
                let joining = violated_below(system, arithmetic, active, x, step.unit, rows);
                if position < step.multipliers.len() {
                    settled(system, arithmetic, solving, active.remove(position), p, step.unit, (left - 1) as nat)
                } else if some_fault(system, arithmetic, active, x, step.unit, rows) {
                    None
                } else if joining.len() == 0 {
                    landed(system, arithmetic, active, step.unit)
                } else {
                    settled(system, arithmetic, solving, active + joining, p, step.unit, (left - 1) as nat)
                }
            },
        }
    }
}

/// The projection of `target`, sought from `from`: the active set starts as
/// the rows violated there, all of which must have a residual.
pub open spec fn projected<E: Evaluate>(
    system: ConstraintSystem<E>,
    arithmetic: Arithmetic,
    solving: Solving,
    from: Seq<Real>,
    target: Seq<Real>,
) -> Option<Landed> {
    let frame = frame_of(system, arithmetic);
    let rows = row_count(system);
    let u = frame.inside(arithmetic, from);
    let nothing = Seq::<usize>::empty();
    if some_fault(system, arithmetic, nothing, from, u, rows) {
        None
    } else {
        settled(
            system,
            arithmetic,
            solving,
            violated_below(system, arithmetic, nothing, from, u, rows),
            frame.inside(arithmetic, target),
            u,
            (rows + ROUNDS_TO_SPARE) as nat,
        )
    }
}

fn holds(list: &Vec<usize>, row: usize) -> (held: bool)
    ensures
        held == list@.contains(row),
{
    for i in 0..list.len()
        invariant
            forall|j: int| 0 <= j < i ==> (#[trigger] list@[j]) != row,
    {
        if list[i] == row {
            assert(list@[i as int] == row);
            return true;
        }
    }
    false
}

/// The rows other than those skipped that are violated, or `None` where one of
/// them has no residual.
fn violated<E: Evaluate, M: Machine>(
    system: &ConstraintSystem<E>,
    machine: &M,
    rows: usize,
    skipped: &Vec<usize>,
    x: &Vec<Real>,
    u: &Vec<Real>,
) -> (found: Option<Vec<usize>>)
    requires
        rows == row_count(*system),
        system.fits(u@),
    ensures
        found matches Some(list) ==> are_rows(*system, list@),
        is_steady(*system, *machine) ==> match found {
            Some(list) => {
                &&& !some_fault(*system, arithmetic_of(*machine), skipped@, x@, u@, rows as int)
                &&& list@ == violated_below(*system, arithmetic_of(*machine), skipped@, x@, u@, rows as int)
            },
            None => some_fault(*system, arithmetic_of(*machine), skipped@, x@, u@, rows as int),
        },
{
    let ghost known = is_steady(*system, *machine);
    let ghost arithmetic = arithmetic_of(*machine);
    let mut found: Vec<usize> = Vec::new();
    for row in 0..rows
        invariant
            rows == row_count(*system),
            system.fits(u@),
            known == is_steady(*system, *machine),
            arithmetic == arithmetic_of(*machine),
            are_rows(*system, found@),
            known ==> !some_fault(*system, arithmetic, skipped@, x@, u@, row as int),
            known ==> found@ == violated_below(*system, arithmetic, skipped@, x@, u@, row as int),
    {
        let ghost before = found@;
        if !holds(skipped, row) {
            let value = match residual_of(system, machine, row, x, u) {
                Some(value) => value,
                None => {
                    assert(known ==> row_residual(*system, arithmetic, row as int, x@, u@) is None);
                    return None;
                },
            };
            if zero().lt(value) {
                found.push(row);
            }
        }
        proof {
            assert forall|i: int| 0 <= i < found@.len() implies (#[trigger] found@[i]) < row_count(*system) by {
                if i < before.len() {
                    assert(found@[i] == before[i]);
                }
            }
            if known {
                assert(!some_fault(*system, arithmetic, skipped@, x@, u@, row + 1)) by {
                    if some_fault(*system, arithmetic, skipped@, x@, u@, row + 1) {
                        let bad = choose|bad: int|
                            0 <= bad < row + 1 && !skipped@.contains(bad as usize) && #[trigger] row_residual(
                                *system,
                                arithmetic,
                                bad,
                                x@,
                                u@,
                            ) is None;
                        assert(bad < row);
                    }
                }
            }
        }
    }
    Some(found)
}

/// A landing as sequences, if there is one.
pub open spec fn seen(found: Option<Landing>) -> Option<Landed> {
    match found {
        Some(landing) => Some(landing@),
        None => None,
    }
}

fn land<E: Evaluate, M: Machine>(
    system: &ConstraintSystem<E>,
    machine: &M,
    cube: &Cube,
    rows: usize,
    active: &Vec<usize>,
    u: &Vec<Real>,
) -> (found: Option<Landing>)
    requires
        system.well_formed(),
        is_cube_of(*cube, *system, *machine),
        rows == row_count(*system),
        system.fits(u@),
    ensures
        found matches Some(landing) ==> system.fits(landing.point@) && system.fits(landing.inward@),
        is_steady(*system, *machine) ==> seen(found) == landed(*system, arithmetic_of(*machine), active@, u@),
{
    let ghost known = is_steady(*system, *machine);
    let ghost arithmetic = arithmetic_of(*machine);
    let dimensions: usize = system.variables.len();
    let x = cube.denormalised(machine, u);
    let nothing: Vec<(usize, Real)> = Vec::new();
    let mut inward = gather(machine, &nothing, dimensions);
    for row in 0..rows
        invariant
            system.well_formed(),
            is_cube_of(*cube, *system, *machine),
            rows == row_count(*system),
            dimensions == system.variables@.len(),
            system.fits(u@),
            inward@.len() == dimensions,
            known == is_steady(*system, *machine),
            arithmetic == arithmetic_of(*machine),
            known ==> x@ == frame_of(*system, arithmetic).outside(arithmetic, u@),
            known ==> bisector(*system, arithmetic, active@, x@, u@, row as int) == Some(inward@),
    {
        let mut standing = holds(active, row);
        if !standing {
            standing = match residual_of(system, machine, row, &x, u) {
                Some(value) => tight().le(value),
                None => false,
            };
        }
        if standing {
            let partials = match gradient_of(system, machine, cube, row, &x) {
                Some(partials) => partials,
                None => {
                    proof {
                        if known {
                            no_bisector_stays_none(*system, arithmetic, active@, x@, u@, row + 1, rows as int);
                        }
                    }
                    return None;
                },
            };
            let mut sum = zero();
            for k in 0..partials.len()
                invariant
                    arithmetic == arithmetic_of(*machine),
                    deterministic(*machine) ==> sum == squares(arithmetic, partials@, k as int),
            {
                sum = plus(machine, sum, times(machine, partials[k].1, partials[k].1));
            }
            let norm = UnaryOp::Sqrt.apply(machine, sum);
            if zero().lt(norm) {
                let ghost direction = inward@;
                for k in 0..partials.len()
                    invariant
                        arithmetic == arithmetic_of(*machine),
                        are_coordinates(partials@, dimensions as int),
                        inward@.len() == dimensions,
                        deterministic(*machine) ==> inward@ == leaning(arithmetic, direction, partials@, norm, k as int),
                {
                    assert(partials@[k as int].0 < dimensions);
                    let coordinate: usize = partials[k].0;
                    let turned = minus(machine, inward[coordinate], over(machine, partials[k].1, norm));
                    inward.set(coordinate, turned);
                }
            }
        }
    }
    let mut scaled_inward: Vec<Real> = Vec::new();
    for k in 0..dimensions
        invariant
            is_cube_of(*cube, *system, *machine),
            dimensions == system.variables@.len(),
            inward@.len() == dimensions,
            scaled_inward@.len() == k,
            arithmetic == arithmetic_of(*machine),
            deterministic(*machine) ==> forall|j: int|
                0 <= j < k ==> (#[trigger] scaled_inward@[j]) == arithmetic.times(
                    inward@[j],
                    frame_of(*system, arithmetic).width[j],
                ),
    {
        scaled_inward.push(times(machine, inward[k], cube.width[k]));
    }
    proof {
        if known {
            assert(scaled_inward@ =~= landed(*system, arithmetic, active@, u@)->0.inward);
        }
    }
    Some(Landing { point: x, inward: scaled_inward })
}

fn negative(multipliers: &Vec<Real>) -> (position: usize)
    ensures
        position == first_negative(multipliers@, 0),
        position <= multipliers@.len(),
{
    let mut position: usize = 0;
    while position < multipliers.len() && !multipliers[position].lt(zero())
        invariant
            position <= multipliers@.len(),
            first_negative(multipliers@, 0) == first_negative(multipliers@, position as int),
        decreases multipliers@.len() - position,
    {
        position = position + 1;
    }
    position
}

/// The nearest point of a system's feasible set to `target`, sought from
/// `from`, on the boundary of the rows active there; `None` where the method
/// does not apply or does not converge.
pub fn nearest<E: Evaluate, M: Machine, S: Fn(&Vec<Vec<Real>>, &Vec<Real>) -> (Vec<Real>, Vec<Real>)>(
    system: &ConstraintSystem<E>,
    machine: &M,
    solve: &S,
    from: &Vec<Real>,
    target: &Vec<Real>,
) -> (found: Option<Landing>)
    requires
        system.well_formed(),
        system.fits(from@),
        system.fits(target@),
        is_solver(*solve),
        row_count(*system) + ROUNDS_TO_SPARE <= usize::MAX,
    ensures
        found matches Some(landing) ==> system.fits(landing.point@) && system.fits(landing.inward@),
        is_repeatable(*system, *machine, *solve) ==> seen(found) == projected(
            *system,
            arithmetic_of(*machine),
            solving_of(*solve),
            from@,
            target@,
        ),
{
    let ghost known = is_repeatable(*system, *machine, *solve);
    let ghost arithmetic = arithmetic_of(*machine);
    let ghost solving = solving_of(*solve);
    let dimensions: usize = system.variables.len();
    let rows: usize = system.constraints.len() + 2 * dimensions;
    let cube = Cube::declared(machine, &system.variables);
    let p = cube.normalised(machine, target);
    let mut u = cube.normalised(machine, from);
    let nothing: Vec<usize> = Vec::new();
    assert(nothing@ =~= Seq::<usize>::empty());
    let mut active = match violated(system, machine, rows, &nothing, from, &u) {
        Some(active) => active,
        None => {
            return None;
        },
    };
    let rounds: usize = rows + ROUNDS_TO_SPARE;
    let ghost whole = projected(*system, arithmetic, solving, from@, target@);
    for round in 0..rounds
        invariant
            system.well_formed(),
            is_cube_of(cube, *system, *machine),
            is_solver(*solve),
            rows == row_count(*system),
            rounds == rows + ROUNDS_TO_SPARE,
            system.fits(p@),
            system.fits(u@),
            are_rows(*system, active@),
            known == is_repeatable(*system, *machine, *solve),
            arithmetic == arithmetic_of(*machine),
            solving == solving_of(*solve),
            whole == projected(*system, arithmetic, solving, from@, target@),
            known ==> whole == settled(*system, arithmetic, solving, active@, p@, u@, (rounds - round) as nat),
    {
        let (next, multipliers) = match converge(system, machine, solve, &cube, &active, &p, &u) {
            Some(pair) => pair,
            None => {
                return None;
            },
        };
        u = next;
        let position = negative(&multipliers);
        if position < multipliers.len() {
            let ghost before = active@;
            let dropped: usize = active.remove(position);
            proof {
                assert forall|i: int| 0 <= i < active@.len() implies (#[trigger] active@[i]) < row_count(*system) by {
                    assert(active@[i] == before[i] || active@[i] == before[i + 1]);
                }
            }
        } else {
            let x = cube.denormalised(machine, &u);
            let mut joining = match violated(system, machine, rows, &active, &x, &u) {
                Some(joining) => joining,
                None => {
                    return None;
                },
            };
            if joining.len() == 0 {
                return land(system, machine, &cube, rows, &active, &u);
            }
            let ghost before = active@;
            let ghost added = joining@;
            active.append(&mut joining);
            proof {
                assert(active@ =~= before + added);
                assert forall|i: int| 0 <= i < active@.len() implies (#[trigger] active@[i]) < row_count(*system) by {
                    if i < before.len() {
                        assert(active@[i] == before[i]);
                    } else {
                        assert(active@[i] == added[i - before.len()]);
                    }
                }
            }
        }
    }
    None
}

// ---- what a landing is ----

/// Whether a landing meets the optimality conditions: the last step of an
/// active set moved by less than [`newton_step`], no multiplier of it is
/// negative, and where it landed every row off the set has a residual and is
/// not violated.
pub open spec fn is_optimal<E: Evaluate>(
    system: ConstraintSystem<E>,
    arithmetic: Arithmetic,
    solving: Solving,
    p: Seq<Real>,
    active: Seq<usize>,
    before: Seq<Real>,
    step: Step,
    landing: Landed,
) -> bool {
    let x = frame_of(system, arithmetic).outside(arithmetic, step.unit);
    &&& stepped(system, arithmetic, solving, active, p, before) == Some(step)
    &&& largest_move(arithmetic, step.unit, before, before.len() as int).below(newton_step())
    &&& forall|i: int| 0 <= i < step.multipliers.len() ==> !(#[trigger] step.multipliers[i]).below(zero())
    &&& forall|row: int|
        0 <= row < row_count(system) && !active.contains(row as usize) ==> ((#[trigger] row_residual(
            system,
            arithmetic,
            row,
            x,
            step.unit,
        )) matches Some(value) && !zero().below(value))
    &&& landed(system, arithmetic, active, step.unit) == Some(landing)
}

proof fn convergence_has_a_last_step<E: Evaluate>(
    system: ConstraintSystem<E>,
    arithmetic: Arithmetic,
    solving: Solving,
    active: Seq<usize>,
    p: Seq<Real>,
    u: Seq<Real>,
    left: nat,
) -> (before: Seq<Real>)
    requires
        converged(system, arithmetic, solving, active, p, u, left) is Some,
    ensures
        stepped(system, arithmetic, solving, active, p, before) == converged(
            system,
            arithmetic,
            solving,
            active,
            p,
            u,
            left,
        ),
        largest_move(
            arithmetic,
            converged(system, arithmetic, solving, active, p, u, left)->0.unit,
            before,
            before.len() as int,
        ).below(newton_step()),
    decreases left,
{
    let step = stepped(system, arithmetic, solving, active, p, u)->0;
    if largest_move(arithmetic, step.unit, u, u.len() as int).below(newton_step()) {
        u
    } else {
        convergence_has_a_last_step(system, arithmetic, solving, active, p, step.unit, (left - 1) as nat)
    }
}

proof fn none_is_negative(multipliers: Seq<Real>, from: int)
    requires
        0 <= from,
        first_negative(multipliers, from) >= multipliers.len(),
    ensures
        forall|i: int| from <= i < multipliers.len() ==> !(#[trigger] multipliers[i]).below(zero()),
    decreases multipliers.len() - from,
{
    if from < multipliers.len() {
        none_is_negative(multipliers, from + 1);
    }
}

proof fn what_is_violated_is_listed<E: Evaluate>(
    system: ConstraintSystem<E>,
    arithmetic: Arithmetic,
    skipped: Seq<usize>,
    x: Seq<Real>,
    u: Seq<Real>,
    upto: int,
    row: int,
)
    requires
        0 <= row < upto,
        !skipped.contains(row as usize),
        is_violated(system, arithmetic, row, x, u),
    ensures
        violated_below(system, arithmetic, skipped, x, u, upto).len() > 0,
    decreases upto,
{
    if row < upto - 1 {
        what_is_violated_is_listed(system, arithmetic, skipped, x, u, upto - 1, row);
    }
}

proof fn settling_is_optimal<E: Evaluate>(
    system: ConstraintSystem<E>,
    arithmetic: Arithmetic,
    solving: Solving,
    active: Seq<usize>,
    p: Seq<Real>,
    u: Seq<Real>,
    left: nat,
)
    requires
        settled(system, arithmetic, solving, active, p, u, left) is Some,
    ensures
        exists|set: Seq<usize>, before: Seq<Real>, step: Step| #[trigger]
            is_optimal(
                system,
                arithmetic,
                solving,
                p,
                set,
                before,
                step,
                settled(system, arithmetic, solving, active, p, u, left)->0,
            ),
    decreases left,
{
    let step = converged(system, arithmetic, solving, active, p, u, NEWTON_ITERATIONS as nat)->0;
    let x = frame_of(system, arithmetic).outside(arithmetic, step.unit);
    let rows = row_count(system);
    let position = first_negative(step.multipliers, 0);
    let joining = violated_below(system, arithmetic, active, x, step.unit, rows);
    if position < step.multipliers.len() {
        settling_is_optimal(system, arithmetic, solving, active.remove(position), p, step.unit, (left - 1) as nat);
    } else if joining.len() > 0 {
        settling_is_optimal(system, arithmetic, solving, active + joining, p, step.unit, (left - 1) as nat);
    } else {
        let before = convergence_has_a_last_step(
            system,
            arithmetic,
            solving,
            active,
            p,
            u,
            NEWTON_ITERATIONS as nat,
        );
        none_is_negative(step.multipliers, 0);
        assert forall|row: int| 0 <= row < rows && !active.contains(row as usize) implies ((#[trigger] row_residual(
            system,
            arithmetic,
            row,
            x,
            step.unit,
        )) matches Some(value) && !zero().below(value)) by {
            if is_violated(system, arithmetic, row, x, step.unit) {
                what_is_violated_is_listed(system, arithmetic, active, x, step.unit, rows, row);
            }
        }
        assert(is_optimal(
            system,
            arithmetic,
            solving,
            p,
            active,
            before,
            step,
            settled(system, arithmetic, solving, active, p, u, left)->0,
        ));
    }
}

/// The optimality conditions are verified rather than supposed: whatever a
/// projection answers was reached by a step of an active set that had
/// converged, with no negative multiplier, onto a point that violates no row
/// off the set.
pub proof fn a_projection_is_optimal<E: Evaluate>(
    system: ConstraintSystem<E>,
    arithmetic: Arithmetic,
    solving: Solving,
    from: Seq<Real>,
    target: Seq<Real>,
)
    requires
        projected(system, arithmetic, solving, from, target) is Some,
    ensures
        exists|active: Seq<usize>, before: Seq<Real>, step: Step| #[trigger]
            is_optimal(
                system,
                arithmetic,
                solving,
                frame_of(system, arithmetic).inside(arithmetic, target),
                active,
                before,
                step,
                projected(system, arithmetic, solving, from, target)->0,
            ),
{
    let frame = frame_of(system, arithmetic);
    let rows = row_count(system);
    let u = frame.inside(arithmetic, from);
    settling_is_optimal(
        system,
        arithmetic,
        solving,
        violated_below(system, arithmetic, Seq::empty(), from, u, rows),
        frame.inside(arithmetic, target),
        u,
        (rows + ROUNDS_TO_SPARE) as nat,
    );
}

// ---- what a step is for ----

/// The slope along a way, over the reals.
pub open spec fn climb(slope: Seq<Real>, way: Seq<real>, upto: int) -> real
    decreases upto,
{
    if upto <= 0 {
        0real
    } else {
        climb(slope, way, upto - 1) + quantity(slope[upto - 1]) * way[upto - 1]
    }
}

/// The way from one point of the cube to another.
pub open spec fn way(to: Seq<Real>, from: Seq<Real>) -> Seq<real> {
    Seq::new(to.len(), |k: int| quantity(to[k]) - quantity(from[k]))
}

proof fn along_is_the_climb(
    arithmetic: Arithmetic,
    slope: Seq<Real>,
    p: Seq<Real>,
    u: Seq<Real>,
    upto: int,
)
    requires
        0 <= upto <= p.len(),
        is_followed_exactly(arithmetic, slope, p, u, upto),
    ensures
        quantity(along(arithmetic, slope, p, u, upto)) == climb(slope, way(p, u), upto),
    decreases upto,
{
    signs_are_exact(zero());
    if upto > 0 {
        let k = upto - 1;
        assert(is_followed_at(arithmetic, slope, p, u, k));
        along_is_the_climb(arithmetic, slope, p, u, k);
    }
}

/// Whether every answer asked for on the way along a slope, at a coordinate, is
/// exact.
pub open spec fn is_followed_at(arithmetic: Arithmetic, slope: Seq<Real>, p: Seq<Real>, u: Seq<Real>, k: int) -> bool {
    let gap = arithmetic.minus(p[k], u[k]);
    &&& subtracts_exactly(arithmetic, p[k], u[k])
    &&& multiplies_exactly(arithmetic, slope[k], gap)
    &&& adds_exactly(arithmetic, along(arithmetic, slope, p, u, k), arithmetic.times(slope[k], gap))
}

/// Whether every answer asked for on the way along a slope is exact.
pub open spec fn is_followed_exactly(
    arithmetic: Arithmetic,
    slope: Seq<Real>,
    p: Seq<Real>,
    u: Seq<Real>,
    upto: int,
) -> bool {
    forall|k: int| 0 <= k < upto ==> #[trigger] is_followed_at(arithmetic, slope, p, u, k)
}

proof fn a_climb_is_linear(slope: Seq<Real>, a: Seq<real>, b: Seq<real>, sum: Seq<real>, upto: int)
    requires
        forall|k: int| 0 <= k < upto ==> (#[trigger] sum[k]) == a[k] - b[k],
    ensures
        climb(slope, sum, upto) == climb(slope, a, upto) - climb(slope, b, upto),
    decreases upto,
{
    if upto > 0 {
        a_climb_is_linear(slope, a, b, sum, upto - 1);
        let s = quantity(slope[upto - 1]);
        let x = a[upto - 1];
        let y = b[upto - 1];
        assert(s * (x - y) == s * x - s * y) by (nonlinear_arith);
        assert(sum[upto - 1] == x - y);
    }
}

/// A Newton step puts the rows of its active set to zero: where the answers are
/// exact and the pull is what the equations ask for, every row's residual, followed
/// along its slope from where the iterate stands to where the step goes, is zero
/// there.
pub proof fn a_step_puts_its_rows_to_zero<E: Evaluate>(
    system: ConstraintSystem<E>,
    arithmetic: Arithmetic,
    solving: Solving,
    active: Seq<usize>,
    p: Seq<Real>,
    u: Seq<Real>,
    i: int,
)
    requires
        0 <= i < active.len(),
        p.len() == system.variables@.len(),
        u.len() == system.variables@.len(),
        stepped(system, arithmetic, solving, active, p, u) is Some,
        ({
            let rows = equations(system, arithmetic, active, p, u, active.len() as int)->0;
            let pull = solving(rows.slopes, rows.sides).1;
            let count = system.variables@.len();
            let value = row_residual(
                system,
                arithmetic,
                active[i] as int,
                frame_of(system, arithmetic).outside(arithmetic, u),
                u,
            )->0;
            &&& is_followed_exactly(arithmetic, rows.slopes[i], p, u, count as int)
            &&& adds_exactly(arithmetic, along(arithmetic, rows.slopes[i], p, u, count as int), value)
            &&& forall|k: int| 0 <= k < count ==> subtracts_exactly(arithmetic, p[k], #[trigger] pull[k])
            &&& climb(rows.slopes[i], Seq::new(count, |k: int| quantity(pull[k])), count as int) == quantity(
                rows.sides[i],
            )
        }),
    ensures
        ({
            let next = stepped(system, arithmetic, solving, active, p, u)->0.unit;
            let x = frame_of(system, arithmetic).outside(arithmetic, u);
            let partials = row_gradient(system, arithmetic, active[i] as int, x)->0;
            let slope = gathered(arithmetic, partials, system.variables@.len(), partials.len() as int);
            &&& row_residual(system, arithmetic, active[i] as int, x, u) is Some
            &&& row_gradient(system, arithmetic, active[i] as int, x) is Some
            &&& quantity(row_residual(system, arithmetic, active[i] as int, x, u)->0) + climb(
                slope,
                way(next, u),
                system.variables@.len() as int,
            ) == 0real
        }),
{
    let count = system.variables@.len();
    let rows = equations(system, arithmetic, active, p, u, active.len() as int)->0;
    let pull = solving(rows.slopes, rows.sides).1;
    let next = stepped(system, arithmetic, solving, active, p, u)->0.unit;
    let x = frame_of(system, arithmetic).outside(arithmetic, u);
    an_equation_is_of_its_row(system, arithmetic, active, p, u, active.len() as int, i);
    let value = row_residual(system, arithmetic, active[i] as int, x, u)->0;
    let slope = rows.slopes[i];
    along_is_the_climb(arithmetic, slope, p, u, count as int);
    let pulled = Seq::new(count, |k: int| quantity(pull[k]));
    let there = way(next, u);
    let target = way(p, u);
    assert forall|k: int| 0 <= k < count implies (#[trigger] there[k]) == target[k] - pulled[k] by {
        assert(subtracts_exactly(arithmetic, p[k], pull[k]));
        assert(next[k] == arithmetic.minus(p[k], pull[k]));
    }
    a_climb_is_linear(slope, target, pulled, there, count as int);
}

/// Each equation is of its row: its slope is the row's gradient by coordinate, and
/// its side what the row's residual comes to on the way back to the target.
pub proof fn an_equation_is_of_its_row<E: Evaluate>(
    system: ConstraintSystem<E>,
    arithmetic: Arithmetic,
    active: Seq<usize>,
    p: Seq<Real>,
    u: Seq<Real>,
    upto: int,
    i: int,
)
    requires
        0 <= i < upto <= active.len(),
        equations(system, arithmetic, active, p, u, upto) is Some,
    ensures
        ({
            let rows = equations(system, arithmetic, active, p, u, upto)->0;
            let x = frame_of(system, arithmetic).outside(arithmetic, u);
            let partials = row_gradient(system, arithmetic, active[i] as int, x)->0;
            let slope = gathered(arithmetic, partials, system.variables@.len(), partials.len() as int);
            &&& rows.slopes.len() == upto && rows.sides.len() == upto
            &&& row_residual(system, arithmetic, active[i] as int, x, u) is Some
            &&& row_gradient(system, arithmetic, active[i] as int, x) is Some
            &&& rows.slopes[i] == slope
            &&& rows.sides[i] == arithmetic.plus(
                along(arithmetic, slope, p, u, system.variables@.len() as int),
                row_residual(system, arithmetic, active[i] as int, x, u)->0,
            )
        }),
    decreases upto,
{
    equations_are_as_many(system, arithmetic, active, p, u, upto - 1);
    if i < upto - 1 {
        an_equation_is_of_its_row(system, arithmetic, active, p, u, upto - 1, i);
    }
}

proof fn equations_are_as_many<E: Evaluate>(
    system: ConstraintSystem<E>,
    arithmetic: Arithmetic,
    active: Seq<usize>,
    p: Seq<Real>,
    u: Seq<Real>,
    upto: int,
)
    requires
        0 <= upto,
        equations(system, arithmetic, active, p, u, upto) is Some,
    ensures
        (equations(system, arithmetic, active, p, u, upto)->0).slopes.len() == upto,
        (equations(system, arithmetic, active, p, u, upto)->0).sides.len() == upto,
    decreases upto,
{
    if upto > 0 {
        equations_are_as_many(system, arithmetic, active, p, u, upto - 1);
    }
}

/// A row holds where its residual is at most zero: a constraint's where the
/// constraint does, and a bound's where the coordinate is on its side of it.
pub proof fn a_row_is_a_wall<E: Evaluate>(
    system: ConstraintSystem<E>,
    arithmetic: Arithmetic,
    row: int,
    x: Seq<Real>,
    unit: Seq<Real>,
)
    requires
        0 <= row < row_count(system),
        unit.len() == system.variables@.len(),
        forall|k: int|
            0 <= k < unit.len() ==> {
                &&& (#[trigger] unit[k]).finite()
                &&& arithmetic.minus(unit[k], one()).finite()
                &&& subtracts_exactly(arithmetic, unit[k], one())
            },
    ensures
        ({
            let constraints = system.constraints@.len() as int;
            let dimensions = system.variables@.len() as int;
            let found = row_residual(system, arithmetic, row, x, unit);
            &&& row < constraints && found is Some ==> (found->0.at_most(zero()) <==> crate::system::passes(
                system.judge(row),
                x,
            ))
            &&& constraints <= row < constraints + dimensions ==> found is Some && (found->0.at_most(zero())
                <==> zero().at_most(unit[row - constraints]))
            &&& constraints + dimensions <= row ==> found is Some && (found->0.at_most(zero()) <==> unit[row - constraints
                - dimensions].at_most(one()))
        }),
{
    let constraints = system.constraints@.len() as int;
    let dimensions = system.variables@.len() as int;
    if constraints <= row < constraints + dimensions {
        assert(unit[row - constraints].finite());
        crate::cube::the_sides_are_walls(arithmetic, unit, row - constraints);
        assert(crate::cube::side_rows(arithmetic, unit)[row - constraints] == unit[row - constraints].negated());
    } else if constraints + dimensions <= row {
        let k = row - constraints - dimensions;
        assert(unit[k].finite());
        crate::cube::the_sides_are_walls(arithmetic, unit, k);
        assert(crate::cube::side_rows(arithmetic, unit)[unit.len() + k] == arithmetic.minus(unit[k], one()));
    }
}

/// A slope over the cube is the slope over the box times the width: where the
/// answers are exact, each partial is scaled by its coordinate's width, and a bound's
/// row falls or rises as fast as the coordinate.
pub proof fn a_gradient_is_over_the_cube<E: Evaluate>(
    system: ConstraintSystem<E>,
    arithmetic: Arithmetic,
    row: int,
    x: Seq<Real>,
    k: int,
)
    requires
        0 <= row < row_count(system),
        row_gradient(system, arithmetic, row, x) is Some,
        0 <= k < (row_gradient(system, arithmetic, row, x)->0).len(),
        row < system.constraints@.len() ==> ({
            let at = system.incidence.rows@[row]@[k] as int;
            let partial = (system.slope(row)(x)->0)[k];
            &&& at < system.variables@.len()
            &&& multiplies_exactly(arithmetic, partial, system.variables@[at].extent(arithmetic))
        }),
    ensures
        ({
            let constraints = system.constraints@.len() as int;
            let dimensions = system.variables@.len() as int;
            let (coordinate, slope) = (row_gradient(system, arithmetic, row, x)->0)[k];
            &&& row < constraints ==> {
                &&& coordinate == system.incidence.rows@[row]@[k]
                &&& quantity(slope) == quantity((system.slope(row)(x)->0)[k]) * quantity(
                    system.variables@[coordinate as int].extent(arithmetic),
                )
            }
            &&& constraints <= row < constraints + dimensions ==> coordinate == (row - constraints) as usize && quantity(
                slope,
            ) == -1real
            &&& constraints + dimensions <= row ==> coordinate == (row - constraints - dimensions) as usize && quantity(
                slope,
            ) == 1real
        }),
{
    the_constants_are_what_they_say();
    signs_are_exact(zero());
}

/// How far the first partials of a wall, by its length, lean a direction along a
/// coordinate: against each.
pub open spec fn lean_along(partials: Seq<(usize, Real)>, norm: Real, k: int, upto: int) -> real
    decreases upto,
{
    if upto <= 0 {
        0real
    } else {
        lean_along(partials, norm, k, upto - 1) - if partials[upto - 1].0 == k {
            quantity(partials[upto - 1].1) / quantity(norm)
        } else {
            0real
        }
    }
}

/// Whether a partial is taken off a direction exactly.
pub open spec fn is_leaned_exactly(
    arithmetic: Arithmetic,
    direction: Seq<Real>,
    partials: Seq<(usize, Real)>,
    norm: Real,
    j: int,
) -> bool {
    let before = leaning(arithmetic, direction, partials, norm, j);
    let part = arithmetic.over(partials[j].1, norm);
    &&& partials[j].0 < direction.len()
    &&& divides_exactly(arithmetic, partials[j].1, norm)
    &&& subtracts_exactly(arithmetic, before[partials[j].0 as int], part)
}

/// A direction leans off a wall along its unit normal: where the answers are exact,
/// every coordinate of it goes against the wall's slope along it, by the wall's length.
pub proof fn a_direction_leans_off_its_wall(
    arithmetic: Arithmetic,
    direction: Seq<Real>,
    partials: Seq<(usize, Real)>,
    norm: Real,
    k: int,
    upto: int,
)
    requires
        0 <= upto <= partials.len(),
        0 <= k < direction.len(),
        forall|j: int| 0 <= j < upto ==> #[trigger] is_leaned_exactly(arithmetic, direction, partials, norm, j),
    ensures
        leaning(arithmetic, direction, partials, norm, upto).len() == direction.len(),
        quantity(leaning(arithmetic, direction, partials, norm, upto)[k]) == quantity(direction[k]) + lean_along(
            partials,
            norm,
            k,
            upto,
        ),
    decreases upto,
{
    if upto > 0 {
        a_direction_leans_off_its_wall(arithmetic, direction, partials, norm, k, upto - 1);
        assert(is_leaned_exactly(arithmetic, direction, partials, norm, upto - 1));
    }
}

/// How far the walls among the rows below `upto` lean along a coordinate, together.
pub open spec fn walls_lean<E: Evaluate>(
    system: ConstraintSystem<E>,
    arithmetic: Arithmetic,
    active: Seq<usize>,
    x: Seq<Real>,
    u: Seq<Real>,
    k: int,
    upto: int,
) -> real
    decreases upto,
{
    if upto <= 0 {
        0real
    } else {
        let before = walls_lean(system, arithmetic, active, x, u, k, upto - 1);
        match row_gradient(system, arithmetic, upto - 1, x) {
            Some(partials) => if is_stood_on(system, arithmetic, active, upto - 1, x, u) && zero().below(
                norm_of(arithmetic, partials),
            ) {
                before + lean_along(partials, norm_of(arithmetic, partials), k, partials.len() as int)
            } else {
                before
            },
            None => before,
        }
    }
}

/// Whether a row that is stood on is leaned off exactly, from where the rows before it
/// left the direction.
pub open spec fn is_left_exactly<E: Evaluate>(
    system: ConstraintSystem<E>,
    arithmetic: Arithmetic,
    active: Seq<usize>,
    x: Seq<Real>,
    u: Seq<Real>,
    row: int,
) -> bool {
    is_stood_on(system, arithmetic, active, row, x, u) ==> (row_gradient(system, arithmetic, row, x) matches Some(
        partials,
    ) ==> forall|j: int|
        0 <= j < partials.len() ==> #[trigger] is_leaned_exactly(
            arithmetic,
            bisector(system, arithmetic, active, x, u, row)->0,
            partials,
            norm_of(arithmetic, partials),
            j,
        ))
}

/// The way inward bisects the wedge: where the answers are exact, it is the sum of the
/// unit normals of all the walls the landing stands on, turned round, and of no others.
pub proof fn the_way_inward_bisects_the_wedge<E: Evaluate>(
    system: ConstraintSystem<E>,
    arithmetic: Arithmetic,
    active: Seq<usize>,
    x: Seq<Real>,
    u: Seq<Real>,
    k: int,
    upto: int,
)
    requires
        0 <= upto,
        0 <= k < system.variables@.len(),
        bisector(system, arithmetic, active, x, u, upto) is Some,
        forall|row: int|
            0 <= row < upto ==> #[trigger] is_left_exactly(system, arithmetic, active, x, u, row),
    ensures
        (bisector(system, arithmetic, active, x, u, upto)->0).len() == system.variables@.len(),
        quantity((bisector(system, arithmetic, active, x, u, upto)->0)[k]) == walls_lean(
            system,
            arithmetic,
            active,
            x,
            u,
            k,
            upto,
        ),
    decreases upto,
{
    if upto > 0 {
        the_way_inward_bisects_the_wedge(system, arithmetic, active, x, u, k, upto - 1);
        assert(is_left_exactly(system, arithmetic, active, x, u, upto - 1));
        let direction = bisector(system, arithmetic, active, x, u, upto - 1)->0;
        match row_gradient(system, arithmetic, upto - 1, x) {
            Some(partials) => {
                let norm = norm_of(arithmetic, partials);
                if is_stood_on(system, arithmetic, active, upto - 1, x, u) && zero().below(norm) {
                    a_direction_leans_off_its_wall(
                        arithmetic,
                        direction,
                        partials,
                        norm,
                        k,
                        partials.len() as int,
                    );
                }
            },
            None => {},
        }
    } else {
        signs_are_exact(zero());
    }
}

/// The violated are listed: the rows below `upto` that have a residual above zero and
/// are not skipped, each once and in order, and no others.
pub proof fn the_violated_are_listed<E: Evaluate>(
    system: ConstraintSystem<E>,
    arithmetic: Arithmetic,
    skipped: Seq<usize>,
    x: Seq<Real>,
    u: Seq<Real>,
    upto: int,
)
    requires
        0 <= upto <= usize::MAX,
    ensures
        ({
            let list = violated_below(system, arithmetic, skipped, x, u, upto);
            &&& forall|row: usize| #[trigger]
                list.contains(row) <==> row < upto && !skipped.contains(row) && (row_residual(
                    system,
                    arithmetic,
                    row as int,
                    x,
                    u,
                ) matches Some(value) && zero().below(value))
            &&& forall|i: int, j: int| 0 <= i < j < list.len() ==> (#[trigger] list[i]) < (#[trigger] list[j])
        }),
    decreases upto,
{
    if upto > 0 {
        the_violated_are_listed(system, arithmetic, skipped, x, u, upto - 1);
        let before = violated_below(system, arithmetic, skipped, x, u, upto - 1);
        let list = violated_below(system, arithmetic, skipped, x, u, upto);
        let last = (upto - 1) as usize;
        assert forall|row: usize| #[trigger]
            list.contains(row) <==> row < upto && !skipped.contains(row) && (row_residual(
                system,
                arithmetic,
                row as int,
                x,
                u,
            ) matches Some(value) && zero().below(value)) by {
            if before.contains(row) {
                let i = choose|i: int| 0 <= i < before.len() && before[i] == row;
                assert(list[i] == row);
            }
            if list.contains(row) && row != last {
                let i = choose|i: int| 0 <= i < list.len() && list[i] == row;
                assert(before[i] == row);
            }
            if row == last && list.len() > before.len() {
                assert(list[before.len() as int] == row);
            }
            if row == last {
                assert(!before.contains(row));
            }
        }
        assert forall|i: int, j: int| 0 <= i < j < list.len() implies (#[trigger] list[i]) < (#[trigger] list[j]) by {
            assert(before[i] == list[i]);
            assert(before.contains(before[i]));
        }
    }
}

/// No coordinate moved farther than the largest move, and one moved that far or none
/// moved at all, where moves are numbers.
pub proof fn no_move_is_larger(arithmetic: Arithmetic, next: Seq<Real>, u: Seq<Real>, upto: int)
    requires
        0 <= upto,
        forall|k: int| 0 <= k < upto ==> !(#[trigger] arithmetic.minus(next[k], u[k])).absolute().nan(),
    ensures
        !largest_move(arithmetic, next, u, upto).nan(),
        forall|k: int|
            0 <= k < upto ==> (#[trigger] arithmetic.minus(next[k], u[k])).absolute().at_most(
                largest_move(arithmetic, next, u, upto),
            ),
        zero().at_most(largest_move(arithmetic, next, u, upto)),
        largest_move(arithmetic, next, u, upto) == zero() || exists|k: int|
            0 <= k < upto && (#[trigger] arithmetic.minus(next[k], u[k])).absolute() == largest_move(
                arithmetic,
                next,
                u,
                upto,
            ),
    decreases upto,
{
    if upto > 0 {
        no_move_is_larger(arithmetic, next, u, upto - 1);
        let move_here = arithmetic.minus(next[upto - 1], u[upto - 1]).absolute();
        assert(!move_here.nan());
    }
}

} // verus!
