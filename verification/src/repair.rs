//! A feasible point near a given one, deterministically.
//!
//! The consumer is an optimizer that cannot evaluate its objective at an
//! infeasible point. Every point it proposes that fails the constraints comes
//! here and must come back feasible by the same oracle the search uses, near
//! where it was, and the same every time it is asked.
//!
//! Every stage that lands hands its point to an aggregator, and the nearest
//! with the clearance wins. "Nearest" is Euclidean over box-normalised
//! coordinates. The stages, cheapest and most exact first:
//!
//! - **Clamp**, where every constraint is local ([`CLAMP_LOCAL`]). Where the
//!   coordinates it moved are *separable*, the axis move is the exact
//!   projection and is the answer.
//! - **Newton**, the projection from the point. A clear landing ends it here.
//! - **Sample and the derivative-free solve**, where Newton declined: uniform
//!   draws in a box around the point, doubled while empty and shrunk onto the
//!   nearest hit, then a chord from that hit; and the local solve where the box
//!   found nothing or the dimension is small ([`SOLVE_CHEAP`]).
//! - **Reference**, where nothing feasible was seen at all: a feasible point to
//!   walk in from, a chord from it to the point, and the projection from where
//!   the chord lands.
//!
//! A **clearance** is a fraction of each variable's width that the answer keeps
//! between itself and every wall: the caller stores points normalised, and an
//! ulp of that round trip can move a residual by more than an ulp.

use vstd::prelude::*;
use rand::rngs::Xoshiro256PlusPlus;
use crate::ast::UnaryOp;
use crate::calculus::{
    adds_exactly, an_order_of_quantities, divides_exactly, multiplies_exactly, quantity, signs_are_exact,
    subtracts_exactly, the_constants_are_what_they_say,
};
use crate::clamping::{
    a_sweep_lands_where_its_clamps_want, aimed, are_apart, are_of, clamp_in, clamp_of, clamping_is_judged,
    clamps_below, every_clamp_is_listed, in_turn, is_known, is_landing, release, released, releasing_keeps_the_clearance,
    swept, swept_from, the_cheapest_goes_first, turns_of, Clamp, Swept, CLAMP_SWEEPS,
};
use crate::diagnostics::{spells, spells_as};
use crate::hc4::is_plain;
use crate::interval::{enclosures_of, Enclosures, Interval, Intervals};
use crate::local::{
    a_projection_is_the_same_every_time,
    a_seed_is_the_same_every_time,
    find_initial,
    is_decided,
    is_found,
    is_nearest,
    keeping,
    kept_of,
    nearest as solved_nearest,
    outcome_of,
    projects_steadily,
    seeds_steadily,
    units_are_steady,
    Landing as Seeding,
    Projected,
    Projection,
    Trial,
    STARTS,
};
use crate::machine::{arithmetic_of, deterministic, minus, over, plus, times, Arithmetic, Function, Machine};
use crate::newton::{
    flat,
    is_repeatable,
    is_solver,
    nearest as newton_nearest,
    projected,
    row_count,
    solving_of,
    Landing as Stand,
    Landed,
    Solving,
    ROUNDS_TO_SPARE,
};
use crate::number::{epsilon, half, one, two, zero, Real};
use crate::random::{expanded, seeded, words};
use crate::semantics::Semantics;
use crate::plans::integers;
use crate::slicing::{
    a_slice_has_every_solution, centre, centred_point, clamp, clamped, conditions, encloses_around, first_row_is,
    is_between, settle, settled_point, slice_of, sliced, tape_holds, tapes_agree,
};
use crate::system::{
    clearance_asks_for_more, copied, differentiable, names_each_once, naming_lists_who_names, ranges, residual, told, ConstraintSystem, Evaluate,
    Point,
};

verus! {

/// The most coordinates a constraint may name for the clamp to be run: one that
/// names many costs a walk of its tree per coordinate, and is one no
/// single-coordinate clamp can land on.
pub const CLAMP_LOCAL: usize = 16;

/// The most dimensions at which the derivative-free solve runs beside the
/// sampling box rather than only where the box fails.
pub const SOLVE_CHEAP: usize = 8;

/// Bisection steps along a chord.
pub const CHORD_BITS: usize = 60;

/// The seed the reference point's extra starts are drawn from: a constant, so
/// that the reference is a function of the system alone.
pub const REFERENCE_SEED: u64 = 0x5eed_0f1d;

/// The seed the sampling box draws from, a constant for the same reason.
pub const SAMPLING_SEED: u64 = 0xb00b_0f5a;

/// Rounds the sampling box gets.
pub const SAMPLING_ROUNDS: usize = 20;

/// Draws per round of the sampling box.
pub const SAMPLING_DRAWS: usize = 256;

/// A sixty-fourth: where the sampling box starts, as a fraction of every width.
pub const SAMPLING_RADIUS: u64 = 0x3f90_0000_0000_0000;

#[verifier::allow_in_spec]
pub fn sampling_radius() -> Real
    returns
        (Real { bits: SAMPLING_RADIUS }),
{
    Real { bits: SAMPLING_RADIUS }
}

/// The most a positive number can be doubled before it reaches one.
pub const RUNGS: usize = 1074;

/// Why a point could not be repaired.
#[derive(Debug, Clone)]
pub enum RepairError {
    /// Nothing feasible was reached.
    Stranded,
    /// A feasible point was reached, but nowhere with the clearance asked for.
    /// `nearest` is that point; a smaller clearance is the usual answer.
    Cramped { nearest: Point, clearance: Real },
}

/// What a stage hands up: a point with the clearance, or one that is feasible
/// without it.
#[derive(Debug)]
pub enum Landing {
    Clear(Point),
    Feasible(Point),
}

/// A landing as a sequence.
pub ghost enum Reached {
    Clear(Seq<Real>),
    Feasible(Seq<Real>),
}

impl View for Landing {
    type V = Reached;

    open spec fn view(&self) -> Reached {
        match self {
            Landing::Clear(point) => Reached::Clear(point@),
            Landing::Feasible(point) => Reached::Feasible(point@),
        }
    }
}

impl Reached {
    pub open spec fn point(self) -> Seq<Real> {
        match self {
            Reached::Clear(point) => point,
            Reached::Feasible(point) => point,
        }
    }

    /// Whether the point is what the landing says it is.
    pub open spec fn is_judged<E: Evaluate>(
        self,
        system: ConstraintSystem<E>,
        arithmetic: Arithmetic,
        clearance: Real,
    ) -> bool {
        match self {
            Reached::Clear(point) => system.feasible(arithmetic, point, clearance),
            Reached::Feasible(point) => system.feasible(arithmetic, point, zero()),
        }
    }
}

/// Landings as sequences.
pub open spec fn reached(list: Seq<Landing>) -> Seq<Reached> {
    list.map_values(|landing: Landing| landing@)
}

/// A landing as a sequence, if there is one.
pub open spec fn reached_of(landing: Option<Landing>) -> Option<Reached> {
    match landing {
        Some(found) => Some(found@),
        None => None,
    }
}

/// A list of none or one.
pub open spec fn listed(landing: Option<Reached>) -> Seq<Reached> {
    match landing {
        Some(found) => seq![found],
        None => Seq::empty(),
    }
}

/// Whether one of the landings has the clearance.
pub open spec fn some_clear(list: Seq<Reached>) -> bool {
    exists|i: int| 0 <= i < list.len() && (#[trigger] list[i]) is Clear
}

/// Whether every landing is over so many coordinates.
pub open spec fn all_fit(list: Seq<Landing>, coordinates: nat) -> bool {
    forall|i: int| 0 <= i < list.len() ==> (#[trigger] list[i])@.point().len() == coordinates
}

fn any_clear(list: &Vec<Landing>) -> (yes: bool)
    ensures
        yes == some_clear(reached(list@)),
{
    for i in 0..list.len()
        invariant
            forall|j: int| 0 <= j < i ==> !(#[trigger] reached(list@)[j] is Clear),
    {
        if let Landing::Clear(_) = &list[i] {
            assert(reached(list@)[i as int] is Clear);
            return true;
        }
        assert(!(reached(list@)[i as int] is Clear));
    }
    false
}

fn hand_up(list: &mut Vec<Landing>, landing: Option<Landing>)
    ensures
        reached(final(list)@) == reached(old(list)@) + listed(reached_of(landing)),
        forall|coordinates: nat|
            all_fit(old(list)@, coordinates) && (landing matches Some(found) ==> found@.point().len() == coordinates)
                ==> #[trigger] all_fit(final(list)@, coordinates),
{
    let ghost first = list@;
    if let Some(found) = landing {
        list.push(found);
        assert(reached(list@) =~= reached(first) + seq![found@]);
        assert forall|coordinates: nat|
            all_fit(first, coordinates) && found@.point().len() == coordinates implies #[trigger] all_fit(
            list@,
            coordinates,
        ) by {
            assert forall|i: int| 0 <= i < list@.len() implies (#[trigger] list@[i])@.point().len() == coordinates by {
                if i < first.len() {
                    assert(list@[i] == first[i]);
                }
            }
        }
    } else {
        assert(reached(list@) =~= reached(first) + Seq::<Reached>::empty());
    }
}

// ---- distance ----

/// The widths of a system's box.
pub open spec fn widths_of<E>(system: ConstraintSystem<E>, arithmetic: Arithmetic) -> Seq<Real> {
    Seq::new(system.variables@.len(), |k: int| system.variables@[k].extent(arithmetic))
}

/// The sum of the squared gaps of the first coordinates, each as a fraction of
/// its width; one without width contributes nothing.
pub open spec fn gaps(arithmetic: Arithmetic, widths: Seq<Real>, a: Seq<Real>, b: Seq<Real>, upto: int) -> Real
    decreases upto,
{
    if upto <= 0 {
        zero()
    } else {
        let k = upto - 1;
        let fraction = arithmetic.over(arithmetic.minus(a[k], b[k]), widths[k]);
        arithmetic.plus(
            gaps(arithmetic, widths, a, b, k),
            if zero().below(widths[k]) {
                arithmetic.times(fraction, fraction)
            } else {
                zero()
            },
        )
    }
}

/// Euclidean distance over box-normalised coordinates.
pub open spec fn distance_of(arithmetic: Arithmetic, widths: Seq<Real>, a: Seq<Real>, b: Seq<Real>) -> Real {
    UnaryOp::Sqrt.value(arithmetic, gaps(arithmetic, widths, a, b, a.len() as int))
}

fn distance<M: Machine>(machine: &M, widths: &Vec<Real>, a: &Vec<Real>, b: &Vec<Real>) -> (length: Real)
    requires
        a@.len() == b@.len() == widths@.len(),
    ensures
        deterministic(*machine) ==> length == distance_of(arithmetic_of(*machine), widths@, a@, b@),
{
    let mut sum = zero();
    for k in 0..a.len()
        invariant
            a@.len() == b@.len() == widths@.len(),
            deterministic(*machine) ==> sum == gaps(arithmetic_of(*machine), widths@, a@, b@, k as int),
    {
        let term = if zero().lt(widths[k]) {
            let fraction = over(machine, minus(machine, a[k], b[k]), widths[k]);
            times(machine, fraction, fraction)
        } else {
            zero()
        };
        sum = plus(machine, sum, term);
    }
    UnaryOp::Sqrt.apply(machine, sum)
}

pub(crate) fn widths<E, M: Machine>(system: &ConstraintSystem<E>, machine: &M) -> (list: Vec<Real>)
    ensures
        list@.len() == system.variables@.len(),
        deterministic(*machine) ==> list@ == widths_of(*system, arithmetic_of(*machine)),
{
    let mut list: Vec<Real> = Vec::new();
    for k in 0..system.variables.len()
        invariant
            list@.len() == k,
            deterministic(*machine) ==> forall|j: int|
                0 <= j < k ==> (#[trigger] list@[j]) == widths_of(*system, arithmetic_of(*machine))[j],
    {
        list.push(system.variables[k].width(machine));
    }
    list
}

// ---- off the boundary ----

/// A point moved along a direction.
pub open spec fn shifted(arithmetic: Arithmetic, point: Seq<Real>, direction: Seq<Real>, by: Real) -> Seq<Real> {
    Seq::new(point.len(), |k: int| arithmetic.plus(point[k], arithmetic.times(by, direction[k])))
}

/// The first of so many doublings of a rung at which a landing moved inward,
/// its driven coordinates settled, has the clearance; none once the rung is a
/// whole box.
pub open spec fn climbed<E: Evaluate>(
    system: ConstraintSystem<E>,
    enclosures: Enclosures,
    arithmetic: Arithmetic,
    landing: Seq<Real>,
    inward: Seq<Real>,
    clearance: Real,
    rung: Real,
    left: nat,
) -> Option<Seq<Real>>
    decreases left,
{
    if left == 0 || !rung.below(one()) {
        None
    } else {
        let probe = settled_point(system, enclosures, arithmetic, shifted(arithmetic, landing, inward, rung));
        if system.feasible(arithmetic, probe, clearance) {
            Some(probe)
        } else {
            climbed(
                system,
                enclosures,
                arithmetic,
                landing,
                inward,
                clearance,
                arithmetic.times(rung, two()),
                (left - 1) as nat,
            )
        }
    }
}

/// A landing backed off along `inward` in doublings, from the clearance, or
/// from an ulp's worth of the box where none was asked for.
pub open spec fn backed<E: Evaluate>(
    system: ConstraintSystem<E>,
    enclosures: Enclosures,
    arithmetic: Arithmetic,
    landing: Seq<Real>,
    inward: Seq<Real>,
    clearance: Real,
) -> Option<Seq<Real>> {
    let length = distance_of(arithmetic, widths_of(system, arithmetic), inward, flat(inward.len()));
    if zero().below(length) {
        climbed(
            system,
            enclosures,
            arithmetic,
            landing,
            inward,
            clearance,
            arithmetic.over(clearance.upper(epsilon()), length),
            RUNGS as nat,
        )
    } else {
        None
    }
}

/// A point of so many zeros.
fn nothing(count: usize) -> (zeros: Vec<Real>)
    ensures
        zeros@ == flat(count as nat),
{
    let mut zeros: Vec<Real> = Vec::new();
    for k in 0..count
        invariant
            zeros@ =~= flat(k as nat),
    {
        zeros.push(zero());
    }
    zeros
}

fn shift<M: Machine>(machine: &M, point: &Vec<Real>, direction: &Vec<Real>, by: Real) -> (there: Vec<Real>)
    requires
        direction@.len() == point@.len(),
    ensures
        there@.len() == point@.len(),
        deterministic(*machine) ==> there@ == shifted(arithmetic_of(*machine), point@, direction@, by),
{
    let mut there: Vec<Real> = Vec::new();
    for k in 0..point.len()
        invariant
            direction@.len() == point@.len(),
            there@.len() == k,
            deterministic(*machine) ==> forall|j: int|
                0 <= j < k ==> (#[trigger] there@[j]) == shifted(arithmetic_of(*machine), point@, direction@, by)[j],
    {
        there.push(plus(machine, point[k], times(machine, by, direction[k])));
    }
    there
}

fn backed_off<E: Evaluate, I: Intervals, M: Machine>(
    system: &ConstraintSystem<E>,
    intervals: &I,
    machine: &M,
    widths: &Vec<Real>,
    landing: &Vec<Real>,
    inward: &Vec<Real>,
    clearance: Real,
) -> (found: Option<Point>)
    requires
        system.well_formed(),
        system.fits(landing@),
        system.fits(inward@),
        widths@.len() == system.variables@.len(),
        deterministic(*machine) ==> widths@ == widths_of(*system, arithmetic_of(*machine)),
    ensures
        found matches Some(point) ==> system.fits(point@),
        deterministic(*machine) && system.judged() ==> (found matches Some(point) ==> system.feasible(
            arithmetic_of(*machine),
            point@,
            clearance,
        )),
        is_known(*system, *intervals, *machine) ==> outcome_of(found) == backed(
            *system,
            enclosures_of(*intervals),
            arithmetic_of(*machine),
            landing@,
            inward@,
            clearance,
        ),
{
    let ghost known = is_known(*system, *intervals, *machine);
    let ghost enclosures = enclosures_of(*intervals);
    let ghost arithmetic = arithmetic_of(*machine);
    let length = distance(machine, widths, inward, &nothing(inward.len()));
    if !zero().lt(length) {
        return None;
    }
    let mut rung = over(machine, clearance.max(epsilon()), length);
    let ghost whole = climbed(*system, enclosures, arithmetic, landing@, inward@, clearance, rung, RUNGS as nat);
    let mut climbs: usize = 0;
    while climbs < RUNGS && rung.lt(one())
        invariant
            system.well_formed(),
            system.fits(landing@),
            system.fits(inward@),
            climbs <= RUNGS,
            known == is_known(*system, *intervals, *machine),
            enclosures == enclosures_of(*intervals),
            arithmetic == arithmetic_of(*machine),
            known ==> backed(*system, enclosures, arithmetic, landing@, inward@, clearance) == whole,
            known ==> whole == climbed(
                *system,
                enclosures,
                arithmetic,
                landing@,
                inward@,
                clearance,
                rung,
                (RUNGS - climbs) as nat,
            ),
        decreases RUNGS - climbs,
    {
        let mut probe = shift(machine, landing, inward, rung);
        settle(system, intervals, machine, &mut probe);
        if system.is_feasible(machine, &probe, clearance) {
            return Some(probe);
        }
        rung = times(machine, rung, two());
        climbs = climbs + 1;
    }
    None
}

/// A landing on the boundary stepped inside: along the way from the point to it
/// first, then by the clamp; and where neither has the clearance, what the
/// clamp reached if that is feasible, or the landing itself if that is.
pub open spec fn stepped_from_boundary<E: Evaluate>(
    system: ConstraintSystem<E>,
    enclosures: Enclosures,
    arithmetic: Arithmetic,
    landing: Seq<Real>,
    point: Seq<Real>,
    clearance: Real,
) -> Option<Reached> {
    let inward = Seq::new(landing.len(), |k: int| arithmetic.minus(landing[k], point[k]));
    match backed(system, enclosures, arithmetic, landing, inward, clearance) {
        Some(clear) => Some(Reached::Clear(clear)),
        None => {
            let found = swept(system, enclosures, arithmetic, landing, clearance, CLAMP_SWEEPS as nat);
            if found.clear {
                Some(Reached::Clear(found.point))
            } else if system.feasible(arithmetic, found.point, zero()) {
                Some(Reached::Feasible(found.point))
            } else if system.feasible(arithmetic, landing, zero()) {
                Some(Reached::Feasible(landing))
            } else {
                None
            }
        },
    }
}

fn off_the_boundary<E: Evaluate, I: Intervals, M: Machine>(
    system: &ConstraintSystem<E>,
    intervals: &I,
    machine: &M,
    widths: &Vec<Real>,
    landing: Point,
    point: &Vec<Real>,
    clearance: Real,
) -> (found: Option<Landing>)
    requires
        system.well_formed(),
        system.fits(landing@),
        system.fits(point@),
        widths@.len() == system.variables@.len(),
        deterministic(*machine) ==> widths@ == widths_of(*system, arithmetic_of(*machine)),
    ensures
        found matches Some(there) ==> system.fits(there@.point()),
        deterministic(*machine) && system.judged() ==> (found matches Some(there) ==> there@.is_judged(
            *system,
            arithmetic_of(*machine),
            clearance,
        )),
        is_known(*system, *intervals, *machine) ==> reached_of(found) == stepped_from_boundary(
            *system,
            enclosures_of(*intervals),
            arithmetic_of(*machine),
            landing@,
            point@,
            clearance,
        ),
{
    let ghost arithmetic = arithmetic_of(*machine);
    let mut inward: Vec<Real> = Vec::new();
    for k in 0..landing.len()
        invariant
            system.fits(landing@),
            system.fits(point@),
            arithmetic == arithmetic_of(*machine),
            inward@.len() == k,
            deterministic(*machine) ==> forall|j: int|
                0 <= j < k ==> (#[trigger] inward@[j]) == arithmetic.minus(landing@[j], point@[j]),
    {
        inward.push(minus(machine, landing[k], point[k]));
    }
    assert(deterministic(*machine) ==> inward@ =~= Seq::new(
        landing@.len(),
        |k: int| arithmetic.minus(landing@[k], point@[k]),
    ));
    if let Some(clear) = backed_off(system, intervals, machine, widths, &landing, &inward, clearance) {
        return Some(Landing::Clear(clear));
    }
    let there = match clamp_in(system, intervals, machine, copied(&landing), clearance) {
        Ok(clear) => {
            return Some(Landing::Clear(clear));
        },
        Err(there) => there,
    };
    if system.is_feasible(machine, &there, zero()) {
        Some(Landing::Feasible(there))
    } else if system.is_feasible(machine, &landing, zero()) {
        Some(Landing::Feasible(landing))
    } else {
        None
    }
}

/// A Newton landing stepped inside: along the wedge's bisector, then the way
/// every other landing goes.
pub open spec fn stepped_from_newton<E: Evaluate>(
    system: ConstraintSystem<E>,
    enclosures: Enclosures,
    arithmetic: Arithmetic,
    landing: Landed,
    point: Seq<Real>,
    clearance: Real,
) -> Option<Reached> {
    match backed(system, enclosures, arithmetic, landing.point, landing.inward, clearance) {
        Some(clear) => Some(Reached::Clear(clear)),
        None => stepped_from_boundary(system, enclosures, arithmetic, landing.point, point, clearance),
    }
}

fn stepped_inside<E: Evaluate, I: Intervals, M: Machine>(
    system: &ConstraintSystem<E>,
    intervals: &I,
    machine: &M,
    widths: &Vec<Real>,
    landing: Stand,
    point: &Vec<Real>,
    clearance: Real,
) -> (found: Option<Landing>)
    requires
        system.well_formed(),
        system.fits(landing.point@),
        system.fits(landing.inward@),
        system.fits(point@),
        widths@.len() == system.variables@.len(),
        deterministic(*machine) ==> widths@ == widths_of(*system, arithmetic_of(*machine)),
    ensures
        found matches Some(there) ==> system.fits(there@.point()),
        deterministic(*machine) && system.judged() ==> (found matches Some(there) ==> there@.is_judged(
            *system,
            arithmetic_of(*machine),
            clearance,
        )),
        is_known(*system, *intervals, *machine) ==> reached_of(found) == stepped_from_newton(
            *system,
            enclosures_of(*intervals),
            arithmetic_of(*machine),
            landing@,
            point@,
            clearance,
        ),
{
    if let Some(clear) = backed_off(system, intervals, machine, widths, &landing.point, &landing.inward, clearance) {
        return Some(Landing::Clear(clear));
    }
    off_the_boundary(system, intervals, machine, widths, landing.point, point, clearance)
}

/// What a local solve found.
pub ghost struct Found {
    pub clear: Option<Seq<Real>>,
    pub feasible: Option<Seq<Real>>,
}

pub open spec fn found_of(answer: Projected) -> Found {
    Found { clear: outcome_of(answer.clear), feasible: outcome_of(answer.feasible) }
}

/// The landings of a local solve stepped off their walls: the clear one by the
/// clamp, the feasible one as every landing on the boundary.
pub open spec fn stepped_from_solve<E: Evaluate>(
    system: ConstraintSystem<E>,
    enclosures: Enclosures,
    arithmetic: Arithmetic,
    answer: Found,
    point: Seq<Real>,
    clearance: Real,
) -> Seq<Reached> {
    let first = match answer.clear {
        Some(landing) => {
            let found = swept(system, enclosures, arithmetic, landing, clearance, CLAMP_SWEEPS as nat);
            seq![Reached::Clear(if found.clear { found.point } else { landing })]
        },
        None => Seq::empty(),
    };
    match answer.feasible {
        Some(landing) => first + listed(
            stepped_from_boundary(system, enclosures, arithmetic, landing, point, clearance),
        ),
        None => first,
    }
}

fn stepped_off<E: Evaluate, I: Intervals, M: Machine>(
    system: &ConstraintSystem<E>,
    intervals: &I,
    machine: &M,
    widths: &Vec<Real>,
    answer: Projected,
    point: &Vec<Real>,
    clearance: Real,
) -> (list: Vec<Landing>)
    requires
        system.well_formed(),
        answer.clear matches Some(landing) ==> system.fits(landing@),
        answer.feasible matches Some(landing) ==> system.fits(landing@),
        system.fits(point@),
        widths@.len() == system.variables@.len(),
        deterministic(*machine) ==> widths@ == widths_of(*system, arithmetic_of(*machine)),
    ensures
        all_fit(list@, system.variables@.len()),
        deterministic(*machine) && system.judged() && is_found_judged(
            *system,
            arithmetic_of(*machine),
            clearance,
            found_of(answer),
        ) ==> all_judged(*system, arithmetic_of(*machine), reached(list@), clearance),
        is_known(*system, *intervals, *machine) ==> reached(list@) == stepped_from_solve(
            *system,
            enclosures_of(*intervals),
            arithmetic_of(*machine),
            found_of(answer),
            point@,
            clearance,
        ),
{
    let mut list: Vec<Landing> = Vec::new();
    let Projected { clear, feasible } = answer;
    assert(reached(list@) =~= Seq::<Reached>::empty());
    if let Some(landing) = clear {
        let there = match clamp_in(system, intervals, machine, copied(&landing), clearance) {
            Ok(there) => there,
            Err(_) => landing,
        };
        let ghost kept = there@;
        list.push(Landing::Clear(there));
        assert(reached(list@) =~= seq![Reached::Clear(kept)]);
    }
    if let Some(landing) = feasible {
        let there = off_the_boundary(system, intervals, machine, widths, landing, point, clearance);
        hand_up(&mut list, there);
    }
    list
}

// ---- the chord ----

/// A point on the segment from `reference` to `point`.
pub open spec fn between(arithmetic: Arithmetic, reference: Seq<Real>, point: Seq<Real>, at: Real) -> Seq<Real> {
    Seq::new(
        reference.len(),
        |k: int| arithmetic.plus(reference[k], arithmetic.times(at, arithmetic.minus(point[k], reference[k]))),
    )
}

/// The last feasible probe of a bisection of the segment between `lower` and
/// `upper`, in so many steps; `held` where no probe is.
pub open spec fn chorded<E: Evaluate>(
    system: ConstraintSystem<E>,
    enclosures: Enclosures,
    arithmetic: Arithmetic,
    reference: Seq<Real>,
    point: Seq<Real>,
    held: Seq<Real>,
    lower: Real,
    upper: Real,
    left: nat,
) -> Seq<Real>
    decreases left,
{
    let middle = arithmetic.times(half(), arithmetic.plus(lower, upper));
    if left == 0 || middle.at_most(lower) || upper.at_most(middle) {
        held
    } else {
        let probe = settled_point(system, enclosures, arithmetic, between(arithmetic, reference, point, middle));
        if system.feasible(arithmetic, probe, zero()) {
            chorded(system, enclosures, arithmetic, reference, point, probe, middle, upper, (left - 1) as nat)
        } else {
            chorded(system, enclosures, arithmetic, reference, point, held, lower, middle, (left - 1) as nat)
        }
    }
}

/// Where a chord from a reference to a point lands.
pub open spec fn chord_of<E: Evaluate>(
    system: ConstraintSystem<E>,
    enclosures: Enclosures,
    arithmetic: Arithmetic,
    reference: Seq<Real>,
    point: Seq<Real>,
) -> Seq<Real> {
    chorded(system, enclosures, arithmetic, reference, point, reference, zero(), one(), CHORD_BITS as nat)
}

/// The last feasible point along the segment from `reference` to `point`, by
/// bisection, with driven coordinates settled at every probe. The feasible end
/// is always a probe that passed, or the reference itself.
pub fn along_chord<E: Evaluate, I: Intervals, M: Machine>(
    system: &ConstraintSystem<E>,
    intervals: &I,
    machine: &M,
    reference: &Vec<Real>,
    point: &Vec<Real>,
) -> (held: Point)
    requires
        system.well_formed(),
        system.fits(reference@),
        system.fits(point@),
    ensures
        system.fits(held@),
        deterministic(*machine) && system.judged() && system.feasible(arithmetic_of(*machine), reference@, zero())
            ==> system.feasible(arithmetic_of(*machine), held@, zero()),
        is_known(*system, *intervals, *machine) ==> held@ == chord_of(
            *system,
            enclosures_of(*intervals),
            arithmetic_of(*machine),
            reference@,
            point@,
        ),
{
    let ghost known = is_known(*system, *intervals, *machine);
    let ghost enclosures = enclosures_of(*intervals);
    let ghost arithmetic = arithmetic_of(*machine);
    let mut held = copied(reference);
    let mut lower = zero();
    let mut upper = one();
    let mut bits: usize = 0;
    let mut open: bool = true;
    while open && bits < CHORD_BITS
        invariant
            system.well_formed(),
            system.fits(reference@),
            system.fits(point@),
            system.fits(held@),
            bits <= CHORD_BITS,
            known == is_known(*system, *intervals, *machine),
            enclosures == enclosures_of(*intervals),
            arithmetic == arithmetic_of(*machine),
            deterministic(*machine) && system.judged() && system.feasible(arithmetic, reference@, zero())
                ==> system.feasible(arithmetic, held@, zero()),
            known && open ==> chord_of(*system, enclosures, arithmetic, reference@, point@) == chorded(
                *system,
                enclosures,
                arithmetic,
                reference@,
                point@,
                held@,
                lower,
                upper,
                (CHORD_BITS - bits) as nat,
            ),
            known && !open ==> chord_of(*system, enclosures, arithmetic, reference@, point@) == held@,
        decreases CHORD_BITS - bits + if open {
            1int
        } else {
            0
        },
    {
        let middle = times(machine, half(), plus(machine, lower, upper));
        if middle.le(lower) || upper.le(middle) {
            open = false;
        } else {
            let mut probe: Vec<Real> = Vec::new();
            for k in 0..reference.len()
                invariant
                    system.fits(reference@),
                    system.fits(point@),
                    arithmetic == arithmetic_of(*machine),
                    probe@.len() == k,
                    deterministic(*machine) ==> forall|j: int|
                        0 <= j < k ==> (#[trigger] probe@[j]) == between(arithmetic, reference@, point@, middle)[j],
            {
                let gap = minus(machine, point[k], reference[k]);
                probe.push(plus(machine, reference[k], times(machine, middle, gap)));
            }
            assert(known ==> probe@ =~= between(arithmetic, reference@, point@, middle));
            settle(system, intervals, machine, &mut probe);
            if system.is_feasible(machine, &probe, zero()) {
                lower = middle;
                held = probe;
            } else {
                upper = middle;
            }
            bits = bits + 1;
        }
    }
    held
}

proof fn what_is_held_is_feasible<E: Evaluate>(
    system: ConstraintSystem<E>,
    enclosures: Enclosures,
    arithmetic: Arithmetic,
    reference: Seq<Real>,
    point: Seq<Real>,
    held: Seq<Real>,
    lower: Real,
    upper: Real,
    left: nat,
)
    requires
        system.feasible(arithmetic, held, zero()),
    ensures
        system.feasible(
            arithmetic,
            chorded(system, enclosures, arithmetic, reference, point, held, lower, upper, left),
            zero(),
        ),
    decreases left,
{
    let middle = arithmetic.times(half(), arithmetic.plus(lower, upper));
    if left > 0 && !middle.at_most(lower) && !upper.at_most(middle) {
        let probe = settled_point(system, enclosures, arithmetic, between(arithmetic, reference, point, middle));
        if system.feasible(arithmetic, probe, zero()) {
            what_is_held_is_feasible(
                system,
                enclosures,
                arithmetic,
                reference,
                point,
                probe,
                middle,
                upper,
                (left - 1) as nat,
            );
        } else {
            what_is_held_is_feasible(
                system,
                enclosures,
                arithmetic,
                reference,
                point,
                held,
                lower,
                middle,
                (left - 1) as nat,
            );
        }
    }
}

/// A chord from a feasible reference lands on a feasible point.
pub proof fn a_chord_lands_feasible<E: Evaluate>(
    system: ConstraintSystem<E>,
    enclosures: Enclosures,
    arithmetic: Arithmetic,
    reference: Seq<Real>,
    point: Seq<Real>,
)
    requires
        system.feasible(arithmetic, reference, zero()),
    ensures
        system.feasible(arithmetic, chord_of(system, enclosures, arithmetic, reference, point), zero()),
{
    what_is_held_is_feasible(
        system,
        enclosures,
        arithmetic,
        reference,
        point,
        reference,
        zero(),
        one(),
        CHORD_BITS as nat,
    );
}

// ---- the sampling box ----

/// Where the sampling box stands: its radius, the nearest hit, and whether this
/// round has had one.
pub ghost struct Sampling {
    pub radius: Real,
    pub best: Option<(Real, Seq<Real>)>,
    pub found: bool,
}

/// A draw put inside the box and its driven coordinates at the middle of their
/// bands.
pub open spec fn candidate_of<E>(
    system: ConstraintSystem<E>,
    enclosures: Enclosures,
    arithmetic: Arithmetic,
    draw: Seq<Real>,
) -> Seq<Real> {
    centred_point(
        system,
        enclosures,
        arithmetic,
        Seq::new(system.variables@.len(), |k: int| clamped(system.variables@[k].range(), draw[k])),
    )
}

/// The radius of the next round: onto the nearest hit, and doubled while there
/// is none.
pub open spec fn next_radius(arithmetic: Arithmetic, state: Sampling) -> Real {
    match state.best {
        Some(pair) => if state.found {
            pair.0
        } else {
            pair.0.lower(state.radius)
        },
        None => arithmetic.times(state.radius, two()).lower(one()),
    }
}

/// Where the sampling box stands after a draw.
pub open spec fn drawn<E: Evaluate>(
    system: ConstraintSystem<E>,
    enclosures: Enclosures,
    arithmetic: Arithmetic,
    point: Seq<Real>,
    clearance: Real,
    state: Sampling,
    draw: Seq<Real>,
) -> Sampling {
    let candidate = candidate_of(system, enclosures, arithmetic, draw);
    if system.feasible(arithmetic, candidate, clearance) {
        Sampling {
            radius: state.radius,
            best: keeping(
                state.best,
                distance_of(arithmetic, widths_of(system, arithmetic), candidate, point),
                candidate,
            ),
            found: true,
        }
    } else {
        state
    }
}

/// Where the sampling box stands after so many draws of a round.
pub open spec fn round_so_far<E: Evaluate>(
    system: ConstraintSystem<E>,
    enclosures: Enclosures,
    arithmetic: Arithmetic,
    point: Seq<Real>,
    clearance: Real,
    state: Sampling,
    draws: Seq<Seq<Real>>,
) -> Sampling
    decreases draws.len(),
{
    if draws.len() == 0 {
        state
    } else {
        drawn(
            system,
            enclosures,
            arithmetic,
            point,
            clearance,
            round_so_far(system, enclosures, arithmetic, point, clearance, state, draws.drop_last()),
            draws.last(),
        )
    }
}

/// Where the sampling box stands after whole rounds.
pub open spec fn after_rounds<E: Evaluate>(
    system: ConstraintSystem<E>,
    enclosures: Enclosures,
    arithmetic: Arithmetic,
    point: Seq<Real>,
    clearance: Real,
    rounds: Seq<Seq<Seq<Real>>>,
) -> Sampling
    decreases rounds.len(),
{
    if rounds.len() == 0 {
        Sampling { radius: sampling_radius(), best: None, found: false }
    } else {
        let before = after_rounds(system, enclosures, arithmetic, point, clearance, rounds.drop_last());
        let state = round_so_far(system, enclosures, arithmetic, point, clearance, before, rounds.last());
        Sampling { radius: next_radius(arithmetic, state), best: state.best, found: false }
    }
}

/// Whether values are drawn for the first coordinates, one after another: each
/// uniform around the point within the radius, from the generator as the one
/// before left it.
pub open spec fn are_drawn<D: Fn(&Xoshiro256PlusPlus, Real, Real) -> (Real, Xoshiro256PlusPlus)>(
    arithmetic: Arithmetic,
    widths: Seq<Real>,
    point: Seq<Real>,
    draw: D,
    radius: Real,
    before: Xoshiro256PlusPlus,
    values: Seq<Real>,
    after: Xoshiro256PlusPlus,
) -> bool
    decreases values.len(),
{
    if values.len() == 0 {
        after == before
    } else {
        let k = values.len() - 1;
        let step = arithmetic.times(radius, widths[k]);
        exists|between: Xoshiro256PlusPlus|
            are_drawn(arithmetic, widths, point, draw, radius, before, values.drop_last(), between)
                && #[trigger] call_ensures(
                draw,
                (&between, arithmetic.minus(point[k], step), arithmetic.plus(point[k], step)),
                (values.last(), after),
            )
    }
}

/// Whether a point is drawn: a value for every coordinate.
pub open spec fn is_drawn<D: Fn(&Xoshiro256PlusPlus, Real, Real) -> (Real, Xoshiro256PlusPlus)>(
    arithmetic: Arithmetic,
    widths: Seq<Real>,
    point: Seq<Real>,
    draw: D,
    radius: Real,
    before: Xoshiro256PlusPlus,
    values: Seq<Real>,
    after: Xoshiro256PlusPlus,
) -> bool {
    values.len() == point.len() && are_drawn(arithmetic, widths, point, draw, radius, before, values, after)
}

/// Whether the draws of a round are drawn one after another, each around the
/// point within the radius the round began with.
pub open spec fn are_draws<D: Fn(&Xoshiro256PlusPlus, Real, Real) -> (Real, Xoshiro256PlusPlus)>(
    arithmetic: Arithmetic,
    widths: Seq<Real>,
    point: Seq<Real>,
    draw: D,
    radius: Real,
    before: Xoshiro256PlusPlus,
    draws: Seq<Seq<Real>>,
    after: Xoshiro256PlusPlus,
) -> bool
    decreases draws.len(),
{
    if draws.len() == 0 {
        after == before
    } else {
        exists|between: Xoshiro256PlusPlus|
            are_draws(arithmetic, widths, point, draw, radius, before, draws.drop_last(), between)
                && #[trigger] is_drawn(arithmetic, widths, point, draw, radius, between, draws.last(), after)
    }
}

/// Whether a round is drawn: so many draws.
pub open spec fn is_round<D: Fn(&Xoshiro256PlusPlus, Real, Real) -> (Real, Xoshiro256PlusPlus)>(
    arithmetic: Arithmetic,
    widths: Seq<Real>,
    point: Seq<Real>,
    draw: D,
    radius: Real,
    before: Xoshiro256PlusPlus,
    draws: Seq<Seq<Real>>,
    after: Xoshiro256PlusPlus,
) -> bool {
    draws.len() == SAMPLING_DRAWS && are_draws(arithmetic, widths, point, draw, radius, before, draws, after)
}

/// Whether rounds are drawn one after another, each within the radius the ones
/// before left.
pub open spec fn are_rounds<E: Evaluate, D: Fn(&Xoshiro256PlusPlus, Real, Real) -> (Real, Xoshiro256PlusPlus)>(
    system: ConstraintSystem<E>,
    enclosures: Enclosures,
    arithmetic: Arithmetic,
    point: Seq<Real>,
    clearance: Real,
    draw: D,
    before: Xoshiro256PlusPlus,
    rounds: Seq<Seq<Seq<Real>>>,
    after: Xoshiro256PlusPlus,
) -> bool
    decreases rounds.len(),
{
    if rounds.len() == 0 {
        after == before
    } else {
        let earlier = rounds.drop_last();
        exists|between: Xoshiro256PlusPlus|
            are_rounds(system, enclosures, arithmetic, point, clearance, draw, before, earlier, between)
                && #[trigger] is_round(
                arithmetic,
                widths_of(system, arithmetic),
                point,
                draw,
                after_rounds(system, enclosures, arithmetic, point, clearance, earlier).radius,
                between,
                rounds.last(),
                after,
            )
    }
}

/// The point of what is kept.
pub open spec fn hit_of(best: Option<(Real, Seq<Real>)>) -> Option<Seq<Real>> {
    match best {
        Some(pair) => Some(pair.1),
        None => None,
    }
}

/// Whether a hit is what the sampling box comes to, whatever was drawn from a
/// generator of its seed.
pub open spec fn is_sampled<E: Evaluate, D: Fn(&Xoshiro256PlusPlus, Real, Real) -> (Real, Xoshiro256PlusPlus)>(
    system: ConstraintSystem<E>,
    enclosures: Enclosures,
    arithmetic: Arithmetic,
    point: Seq<Real>,
    clearance: Real,
    draw: D,
    hit: Option<Seq<Real>>,
) -> bool {
    exists|before: Xoshiro256PlusPlus, rounds: Seq<Seq<Seq<Real>>>, after: Xoshiro256PlusPlus|
        {
            &&& #[trigger] are_rounds(system, enclosures, arithmetic, point, clearance, draw, before, rounds, after)
            &&& words(before) == expanded(SAMPLING_SEED)
            &&& rounds.len() == SAMPLING_ROUNDS
            &&& hit == hit_of(after_rounds(system, enclosures, arithmetic, point, clearance, rounds).best)
        }
}

/// The nearest feasible point the sampling box finds around `point`: uniform
/// draws in a box centred on it, doubled while it holds nothing and shrunk onto
/// the nearest hit once it does. It needs no slice, no gradient and no
/// continuity, only a region fat enough to sample over its free coordinates.
/// Every number is drawn from one generator, of a seed that is always the same,
/// by `draw`, which is handed the generator and the ends and hands the generator
/// back as it stands after.
pub fn sampled<E: Evaluate, I: Intervals, M: Machine, D: Fn(&Xoshiro256PlusPlus, Real, Real) -> (Real, Xoshiro256PlusPlus)>(
    system: &ConstraintSystem<E>,
    intervals: &I,
    machine: &M,
    draw: &D,
    widths: &Vec<Real>,
    point: &Vec<Real>,
    clearance: Real,
) -> (hit: Option<Point>)
    requires
        system.well_formed(),
        system.fits(point@),
        widths@.len() == system.variables@.len(),
        deterministic(*machine) ==> widths@ == widths_of(*system, arithmetic_of(*machine)),
        forall|generator: &Xoshiro256PlusPlus, lo: Real, hi: Real| #[trigger] call_requires(*draw, (generator, lo, hi)),
    ensures
        hit matches Some(found) ==> system.fits(found@),
        is_known(*system, *intervals, *machine) ==> is_sampled(
            *system,
            enclosures_of(*intervals),
            arithmetic_of(*machine),
            point@,
            clearance,
            *draw,
            outcome_of(hit),
        ),
{
    let ghost known = is_known(*system, *intervals, *machine);
    let ghost enclosures = enclosures_of(*intervals);
    let ghost arithmetic = arithmetic_of(*machine);
    let ghost mut rounds: Seq<Seq<Seq<Real>>> = Seq::empty();
    let mut rng = seeded(SAMPLING_SEED);
    let ghost begin = rng;
    let mut radius = sampling_radius();
    let mut best: Option<(Real, Point)> = None;
    for round in 0..SAMPLING_ROUNDS
        invariant
            system.well_formed(),
            system.fits(point@),
            widths@.len() == system.variables@.len(),
            deterministic(*machine) ==> widths@ == widths_of(*system, arithmetic_of(*machine)),
            forall|generator: &Xoshiro256PlusPlus, lo: Real, hi: Real| #[trigger]
                call_requires(*draw, (generator, lo, hi)),
            known == is_known(*system, *intervals, *machine),
            enclosures == enclosures_of(*intervals),
            arithmetic == arithmetic_of(*machine),
            rounds.len() == round,
            best matches Some(pair) ==> system.fits(pair.1@),
            known ==> are_rounds(*system, enclosures, arithmetic, point@, clearance, *draw, begin, rounds, rng),
            known ==> after_rounds(*system, enclosures, arithmetic, point@, clearance, rounds) == (Sampling {
                radius,
                best: kept_of(best),
                found: false,
            }),
    {
        let mut found = false;
        let ghost mut draws: Seq<Seq<Real>> = Seq::empty();
        let ghost start = Sampling { radius, best: kept_of(best), found: false };
        let ghost opened = rng;
        for n in 0..SAMPLING_DRAWS
            invariant
                system.well_formed(),
                system.fits(point@),
                widths@.len() == system.variables@.len(),
                deterministic(*machine) ==> widths@ == widths_of(*system, arithmetic_of(*machine)),
                forall|generator: &Xoshiro256PlusPlus, lo: Real, hi: Real| #[trigger]
                    call_requires(*draw, (generator, lo, hi)),
                known == is_known(*system, *intervals, *machine),
                enclosures == enclosures_of(*intervals),
                arithmetic == arithmetic_of(*machine),
                draws.len() == n,
                best matches Some(pair) ==> system.fits(pair.1@),
                start.radius == radius,
                known ==> are_draws(arithmetic, widths@, point@, *draw, radius, opened, draws, rng),
                known ==> round_so_far(*system, enclosures, arithmetic, point@, clearance, start, draws) == (Sampling {
                    radius,
                    best: kept_of(best),
                    found,
                }),
        {
            let ghost drawing = rng;
            let ghost mut raw: Seq<Real> = Seq::empty();
            let mut candidate: Vec<Real> = Vec::new();
            for k in 0..point.len()
                invariant
                    system.fits(point@),
                    widths@.len() == system.variables@.len(),
                    forall|generator: &Xoshiro256PlusPlus, lo: Real, hi: Real| #[trigger]
                        call_requires(*draw, (generator, lo, hi)),
                    arithmetic == arithmetic_of(*machine),
                    raw.len() == k,
                    candidate@.len() == k,
                    deterministic(*machine) ==> are_drawn(
                        arithmetic,
                        widths@,
                        point@,
                        *draw,
                        radius,
                        drawing,
                        raw,
                        rng,
                    ),
                    forall|j: int|
                        0 <= j < k ==> (#[trigger] candidate@[j]) == clamped(system.variables@[j].range(), raw[j]),
            {
                let step = times(machine, radius, widths[k]);
                let lo = minus(machine, point[k], step);
                let hi = plus(machine, point[k], step);
                let ghost between = rng;
                let (value, after) = draw(&rng, lo, hi);
                rng = after;
                let variable = &system.variables[k];
                let ghost before = raw;
                proof {
                    raw = raw.push(value);
                    assert(raw.drop_last() =~= before);
                    if deterministic(*machine) {
                        let ahead = arithmetic.times(radius, widths@[k as int]);
                        assert(call_ensures(
                            *draw,
                            (
                                &between,
                                arithmetic.minus(point@[raw.len() - 1], ahead),
                                arithmetic.plus(point@[raw.len() - 1], ahead),
                            ),
                            (raw.last(), rng),
                        ));
                        assert(are_drawn(arithmetic, widths@, point@, *draw, radius, drawing, raw, rng));
                    }
                }
                candidate.push(clamp(Interval::new(variable.lower_bound, variable.upper_bound), value));
            }
            assert(candidate@ =~= Seq::new(
                system.variables@.len(),
                |k: int| clamped(system.variables@[k].range(), raw[k]),
            ));
            centre(system, intervals, machine, &mut candidate);
            let ghost before = draws;
            let ghost kept = kept_of(best);
            proof {
                draws = draws.push(raw);
                assert(draws.drop_last() =~= before);
                if known {
                    assert(is_drawn(arithmetic, widths@, point@, *draw, radius, drawing, draws.last(), rng));
                    assert(are_draws(arithmetic, widths@, point@, *draw, radius, opened, draws, rng));
                }
                        }
            if system.is_feasible(machine, &candidate, clearance) {
                found = true;
                let at = distance(machine, widths, &candidate, point);
                let nearer = match &best {
                    Some(pair) => at.lt(pair.0),
                    None => true,
                };
                if nearer {
                    best = Some((at, candidate));
                }
            }
        }
        let ghost before = rounds;
        let ghost state = Sampling { radius, best: kept_of(best), found };
        let ghost old_radius = radius;
        radius = match &best {
            Some(pair) => if found {
                pair.0
            } else {
                pair.0.min(radius)
            },
            None => times(machine, radius, two()).min(one()),
        };
        proof {
            rounds = rounds.push(draws);
            assert(rounds.drop_last() =~= before);
            if known {
                assert(radius == next_radius(arithmetic, state));
                assert(is_round(
                    arithmetic,
                    widths_of(*system, arithmetic),
                    point@,
                    *draw,
                    after_rounds(*system, enclosures, arithmetic, point@, clearance, before).radius,
                    opened,
                    rounds.last(),
                    rng,
                ));
                assert(are_rounds(*system, enclosures, arithmetic, point@, clearance, *draw, begin, rounds, rng));
            }
        }
    }
    let hit = match best {
        Some(pair) => Some(pair.1),
        None => None,
    };
    assert(known ==> outcome_of(hit) == hit_of(
        after_rounds(*system, enclosures, arithmetic, point@, clearance, rounds).best,
    ));
    hit
}

// ---- the aggregator ----

/// The nearest of what was handed up: with the clearance, and without it.
pub ghost struct Tally {
    pub clear: Option<(Real, Seq<Real>)>,
    pub cramped: Option<(Real, Seq<Real>)>,
}

/// The tally of the first landings, each with the clearance released first.
pub open spec fn tallied<E: Evaluate>(
    system: ConstraintSystem<E>,
    arithmetic: Arithmetic,
    list: Seq<Reached>,
    point: Seq<Real>,
    clearance: Real,
    upto: int,
) -> Tally
    decreases upto,
{
    let widths = widths_of(system, arithmetic);
    if upto <= 0 {
        Tally { clear: None, cramped: None }
    } else {
        let before = tallied(system, arithmetic, list, point, clearance, upto - 1);
        match list[upto - 1] {
            Reached::Clear(candidate) => {
                let back = released(system, arithmetic, candidate, point, clearance, candidate.len() as int);
                Tally {
                    clear: keeping(before.clear, distance_of(arithmetic, widths, back, point), back),
                    cramped: before.cramped,
                }
            },
            Reached::Feasible(candidate) => Tally {
                clear: before.clear,
                cramped: keeping(before.cramped, distance_of(arithmetic, widths, candidate, point), candidate),
            },
        }
    }
}

/// What a repair comes to.
pub ghost enum Repaired {
    Clear(Seq<Real>),
    Cramped(Seq<Real>),
    Stranded,
}

/// The answer of a tally: the nearest with the clearance, or the nearest
/// feasible one as a consolation, or neither.
pub open spec fn answered(tally: Tally) -> Repaired {
    match tally.clear {
        Some(pair) => Repaired::Clear(pair.1),
        None => match tally.cramped {
            Some(pair) => Repaired::Cramped(pair.1),
            None => Repaired::Stranded,
        },
    }
}

/// The answer of landings.
pub open spec fn aggregated<E: Evaluate>(
    system: ConstraintSystem<E>,
    arithmetic: Arithmetic,
    list: Seq<Reached>,
    point: Seq<Real>,
    clearance: Real,
) -> Repaired {
    answered(tallied(system, arithmetic, list, point, clearance, list.len() as int))
}

/// Whether a result is what a repair comes to.
pub open spec fn is_answer(result: Result<Point, RepairError>, clearance: Real, answer: Repaired) -> bool {
    match answer {
        Repaired::Clear(point) => result matches Ok(found) && found@ == point,
        Repaired::Cramped(point) => {
            &&& result matches Err(RepairError::Cramped { nearest, clearance: asked })
            &&& nearest@ == point
            &&& asked == clearance
        },
        Repaired::Stranded => result == Err::<Point, RepairError>(RepairError::Stranded),
    }
}

fn nearer(slot: &mut Option<(Real, Point)>, at: Real, candidate: Point)
    ensures
        kept_of(*final(slot)) == keeping(kept_of(*old(slot)), at, candidate@),
{
    let closer = match slot {
        Some(pair) => at.lt(pair.0),
        None => true,
    };
    if closer {
        *slot = Some((at, candidate));
    }
}

/// Every candidate released, since reverting a coordinate can only bring it
/// nearer; the nearest with the clearance is the answer, the nearest feasible
/// one without it the consolation.
pub fn nearest_of<E: Evaluate, M: Machine>(
    system: &ConstraintSystem<E>,
    machine: &M,
    widths: &Vec<Real>,
    landings: Vec<Landing>,
    point: &Vec<Real>,
    clearance: Real,
) -> (result: Result<Point, RepairError>)
    requires
        system.well_formed(),
        system.fits(point@),
        all_fit(landings@, system.variables@.len()),
        widths@.len() == system.variables@.len(),
        deterministic(*machine) ==> widths@ == widths_of(*system, arithmetic_of(*machine)),
    ensures
        deterministic(*machine) && system.judged() ==> is_answer(
            result,
            clearance,
            aggregated(*system, arithmetic_of(*machine), reached(landings@), point@, clearance),
        ),
        deterministic(*machine) && system.judged() && all_judged(
            *system,
            arithmetic_of(*machine),
            reached(landings@),
            clearance,
        ) ==> keeps_its_word(*system, arithmetic_of(*machine), clearance, result),
{
    let ghost known = deterministic(*machine) && system.judged();
    let ghost arithmetic = arithmetic_of(*machine);
    let ghost all = reached(landings@);
    let count: usize = landings.len();
    let mut landings = landings;
    let mut best: Option<(Real, Point)> = None;
    let mut cramped: Option<(Real, Point)> = None;
    for i in 0..count
        invariant
            system.well_formed(),
            system.fits(point@),
            all_fit(landings@, system.variables@.len()),
            widths@.len() == system.variables@.len(),
            deterministic(*machine) ==> widths@ == widths_of(*system, arithmetic_of(*machine)),
            known == (deterministic(*machine) && system.judged()),
            arithmetic == arithmetic_of(*machine),
            count == all.len(),
            landings@.len() == count - i,
            reached(landings@) == all.skip(i as int),
            known ==> tallied(*system, arithmetic, all, point@, clearance, i as int) == (Tally {
                clear: kept_of(best),
                cramped: kept_of(cramped),
            }),
    {
        let ghost before = landings@;
        assert(before[0]@ == reached(before)[0]);
        assert(all.skip(i as int)[0] == all[i as int]);
        let landing = landings.remove(0);
        proof {
            assert(reached(landings@) =~= reached(before).skip(1));
            assert(all.skip(i as int).skip(1) =~= all.skip(i + 1));
            assert forall|j: int| 0 <= j < landings@.len() implies (#[trigger] landings@[j])@.point().len()
                == system.variables@.len() by {
                assert(landings@[j] == before[j + 1]);
            }
        }
        match landing {
            Landing::Clear(candidate) => {
                let back = release(system, machine, candidate, point, clearance);
                let at = distance(machine, widths, &back, point);
                nearer(&mut best, at, back);
            },
            Landing::Feasible(candidate) => {
                let at = distance(machine, widths, &candidate, point);
                nearer(&mut cramped, at, candidate);
            },
        }
    }
    proof {
        if known && all_judged(*system, arithmetic, all, clearance) {
            tallies_are_judged(*system, arithmetic, all, point@, clearance, count as int);
        }
    }
    match best {
        Some(pair) => Ok(pair.1),
        None => match cramped {
            Some(pair) => Err(RepairError::Cramped { nearest: pair.1, clearance }),
            None => Err(RepairError::Stranded),
        },
    }
}

/// Whether a result is what a repair promises: a point with the clearance, or a
/// feasible one and the clearance there was no room for.
pub open spec fn keeps_its_word<E: Evaluate>(
    system: ConstraintSystem<E>,
    arithmetic: Arithmetic,
    clearance: Real,
    result: Result<Point, RepairError>,
) -> bool {
    match result {
        Ok(found) => system.feasible(arithmetic, found@, clearance),
        Err(RepairError::Cramped { nearest, clearance: asked }) => {
            &&& system.feasible(arithmetic, nearest@, zero())
            &&& asked == clearance
        },
        Err(RepairError::Stranded) => true,
    }
}

/// Whether every landing is what it says it is.
pub open spec fn all_judged<E: Evaluate>(
    system: ConstraintSystem<E>,
    arithmetic: Arithmetic,
    list: Seq<Reached>,
    clearance: Real,
) -> bool {
    forall|i: int| 0 <= i < list.len() ==> (#[trigger] list[i]).is_judged(system, arithmetic, clearance)
}

/// The distance a landing is ranked by.
pub open spec fn ranked<E: Evaluate>(
    system: ConstraintSystem<E>,
    arithmetic: Arithmetic,
    landing: Reached,
    point: Seq<Real>,
    clearance: Real,
) -> Real {
    let widths = widths_of(system, arithmetic);
    match landing {
        Reached::Clear(candidate) => distance_of(
            arithmetic,
            widths,
            released(system, arithmetic, candidate, point, clearance, candidate.len() as int),
            point,
        ),
        Reached::Feasible(candidate) => distance_of(arithmetic, widths, candidate, point),
    }
}

/// The nearest wins: of landings whose distances are numbers, none with the
/// clearance is nearer than what is answered, and where none has the clearance
/// none is nearer than the consolation. There is an answer with the clearance
/// exactly where a landing has it.
pub proof fn the_nearest_wins<E: Evaluate>(
    system: ConstraintSystem<E>,
    arithmetic: Arithmetic,
    list: Seq<Reached>,
    point: Seq<Real>,
    clearance: Real,
    upto: int,
)
    requires
        0 <= upto <= list.len(),
        forall|i: int|
            0 <= i < list.len() ==> !ranked(system, arithmetic, #[trigger] list[i], point, clearance).nan(),
    ensures
        ({
            let tally = tallied(system, arithmetic, list, point, clearance, upto);
            &&& tally.clear is Some <==> exists|i: int| 0 <= i < upto && (#[trigger] list[i]) is Clear
            &&& tally.cramped is Some <==> exists|i: int| 0 <= i < upto && (#[trigger] list[i]) is Feasible
            &&& tally.clear matches Some(pair) ==> !pair.0.nan()
            &&& tally.cramped matches Some(pair) ==> !pair.0.nan()
            &&& forall|i: int|
                0 <= i < upto && (#[trigger] list[i]) is Clear ==> (tally.clear->0).0.at_most(
                    ranked(system, arithmetic, list[i], point, clearance),
                )
            &&& forall|i: int|
                0 <= i < upto && (#[trigger] list[i]) is Feasible ==> (tally.cramped->0).0.at_most(
                    ranked(system, arithmetic, list[i], point, clearance),
                )
        }),
    decreases upto,
{
    if upto > 0 {
        the_nearest_wins(system, arithmetic, list, point, clearance, upto - 1);
        let before = tallied(system, arithmetic, list, point, clearance, upto - 1);
        let tally = tallied(system, arithmetic, list, point, clearance, upto);
        assert(!ranked(system, arithmetic, list[upto - 1], point, clearance).nan());
        if list[upto - 1] is Clear {
            assert(tally.clear is Some);
        } else {
            assert(tally.cramped is Some);
        }
        if before.clear is Some {
            let i = choose|i: int| 0 <= i < upto - 1 && (#[trigger] list[i]) is Clear;
            assert(list[i] is Clear);
        }
        if before.cramped is Some {
            let i = choose|i: int| 0 <= i < upto - 1 && (#[trigger] list[i]) is Feasible;
            assert(list[i] is Feasible);
        }
        assert forall|i: int| 0 <= i < upto && (#[trigger] list[i]) is Clear implies (tally.clear->0).0.at_most(
            ranked(system, arithmetic, list[i], point, clearance),
        ) by {
            if i < upto - 1 {
                assert((before.clear->0).0.at_most(ranked(system, arithmetic, list[i], point, clearance)));
            }
        }
        assert forall|i: int| 0 <= i < upto && (#[trigger] list[i]) is Feasible implies (tally.cramped->0).0.at_most(
            ranked(system, arithmetic, list[i], point, clearance),
        ) by {
            if i < upto - 1 {
                assert((before.cramped->0).0.at_most(ranked(system, arithmetic, list[i], point, clearance)));
            }
        }
    }
}

proof fn tallies_are_judged<E: Evaluate>(
    system: ConstraintSystem<E>,
    arithmetic: Arithmetic,
    list: Seq<Reached>,
    point: Seq<Real>,
    clearance: Real,
    upto: int,
)
    requires
        0 <= upto <= list.len(),
        system.fits(point),
        all_judged(system, arithmetic, list, clearance),
    ensures
        ({
            let tally = tallied(system, arithmetic, list, point, clearance, upto);
            &&& tally.clear matches Some(pair) ==> system.feasible(arithmetic, pair.1, clearance)
            &&& tally.cramped matches Some(pair) ==> system.feasible(arithmetic, pair.1, zero())
        }),
    decreases upto,
{
    if upto > 0 {
        tallies_are_judged(system, arithmetic, list, point, clearance, upto - 1);
        assert(list[upto - 1].is_judged(system, arithmetic, clearance));
        if let Reached::Clear(candidate) = list[upto - 1] {
            releasing_keeps_the_clearance(system, arithmetic, candidate, point, clearance, candidate.len() as int);
        }
    }
}

// ---- the stages ----

/// Whether every constraint names few enough coordinates for the clamp.
pub open spec fn is_local<E>(system: ConstraintSystem<E>) -> bool {
    forall|c: int| 0 <= c < system.constraints@.len() ==> (#[trigger] system.incidence.rows@[c])@.len() <= CLAMP_LOCAL
}

/// Whether every constraint naming a coordinate names it alone.
pub open spec fn is_named_alone<E>(system: ConstraintSystem<E>, coordinate: int) -> bool {
    forall|i: int|
        0 <= i < system.incidence.naming@[coordinate]@.len() ==> system.incidence.rows@[(
        #[trigger] system.incidence.naming@[coordinate]@[i]) as int]@.len() == 1
}

/// Whether every coordinate that moved is separable from the others: then the
/// axis move is the exact projection.
pub open spec fn is_separable<E>(system: ConstraintSystem<E>, from: Seq<Real>, to: Seq<Real>) -> bool {
    forall|k: int| 0 <= k < to.len() && !(#[trigger] to[k]).same(from[k]) ==> is_named_alone(system, k)
}

/// Whether every constraint has a gradient or holds at the point.
pub open spec fn is_smooth<E: Evaluate>(system: ConstraintSystem<E>, point: Seq<Real>) -> bool {
    forall|c: int|
        0 <= c < system.constraints@.len() ==> told((#[trigger] system.constraints@[c]).compiled) || crate::system::passes(
            system.judge(c),
            point,
        )
}

/// What the stages that ask nobody else come to: the answer outright, or the
/// landings so far and where the local solve is to start.
pub ghost enum Opening {
    Done(Repaired),
    Open { landings: Seq<Reached>, start: Seq<Real> },
}

/// The clamp stage.
pub open spec fn clamp_stage<E: Evaluate>(
    system: ConstraintSystem<E>,
    enclosures: Enclosures,
    arithmetic: Arithmetic,
    point: Seq<Real>,
    clearance: Real,
) -> Opening {
    let found = swept(system, enclosures, arithmetic, point, clearance, CLAMP_SWEEPS as nat);
    if !is_local(system) {
        Opening::Open { landings: Seq::empty(), start: point }
    } else if found.clear && is_separable(system, point, found.point) {
        Opening::Done(
            Repaired::Clear(
                released(system, arithmetic, found.point, point, clearance, found.point.len() as int),
            ),
        )
    } else if found.clear {
        Opening::Open { landings: seq![Reached::Clear(found.point)], start: found.point }
    } else if system.feasible(arithmetic, found.point, zero()) {
        Opening::Open { landings: seq![Reached::Feasible(found.point)], start: found.point }
    } else {
        Opening::Open { landings: Seq::empty(), start: found.point }
    }
}

/// The Newton stage's landing.
pub open spec fn newton_stage<E: Evaluate>(
    system: ConstraintSystem<E>,
    enclosures: Enclosures,
    arithmetic: Arithmetic,
    solving: Solving,
    point: Seq<Real>,
    clearance: Real,
) -> Option<Reached> {
    if is_smooth(system, point) {
        match projected(system, arithmetic, solving, point, point) {
            Some(landing) => stepped_from_newton(system, enclosures, arithmetic, landing, point, clearance),
            None => None,
        }
    } else {
        None
    }
}

/// The stages up to and with Newton.
pub open spec fn opening<E: Evaluate>(
    system: ConstraintSystem<E>,
    enclosures: Enclosures,
    arithmetic: Arithmetic,
    solving: Solving,
    point: Seq<Real>,
    clearance: Real,
) -> Opening {
    if system.feasible(arithmetic, point, clearance) {
        Opening::Done(Repaired::Clear(point))
    } else {
        match clamp_stage(system, enclosures, arithmetic, point, clearance) {
            Opening::Done(answer) => Opening::Done(answer),
            Opening::Open { landings, start } => {
                let all = landings + listed(newton_stage(system, enclosures, arithmetic, solving, point, clearance));
                if some_clear(all) {
                    Opening::Done(aggregated(system, arithmetic, all, point, clearance))
                } else {
                    Opening::Open { landings: all, start }
                }
            },
        }
    }
}

/// What those who are asked answered: the sampling box, the local solve from
/// where the clamp got, the search for a reference, and the local solve from
/// the chord's landing.
pub ghost struct Outcomes {
    pub hit: Option<Seq<Real>>,
    pub solved: Found,
    pub reference: Option<Seq<Real>>,
    pub walked: Found,
}

/// The landings once the sampling box and the local solve have been asked.
pub open spec fn boxed<E: Evaluate>(
    system: ConstraintSystem<E>,
    enclosures: Enclosures,
    arithmetic: Arithmetic,
    point: Seq<Real>,
    clearance: Real,
    landings: Seq<Reached>,
    outcomes: Outcomes,
) -> Seq<Reached> {
    let after = match outcomes.hit {
        Some(hit) => landings + listed(
            stepped_from_boundary(
                system,
                enclosures,
                arithmetic,
                chord_of(system, enclosures, arithmetic, hit, point),
                point,
                clearance,
            ),
        ),
        None => landings,
    };
    if is_solve_due(system, outcomes.hit) {
        after + stepped_from_solve(system, enclosures, arithmetic, outcomes.solved, point, clearance)
    } else {
        after
    }
}

/// Whether the local solve is due: the box found nothing, or it is cheap.
pub open spec fn is_solve_due<E>(system: ConstraintSystem<E>, hit: Option<Seq<Real>>) -> bool {
    hit is None || system.variables@.len() <= SOLVE_CHEAP
}

/// The landings of the walk in from a reference.
pub open spec fn walked_in<E: Evaluate>(
    system: ConstraintSystem<E>,
    enclosures: Enclosures,
    arithmetic: Arithmetic,
    point: Seq<Real>,
    clearance: Real,
    outcomes: Outcomes,
) -> Seq<Reached> {
    match outcomes.reference {
        None => Seq::empty(),
        Some(reference) => {
            let chord = chord_of(system, enclosures, arithmetic, reference, point);
            let stepped = stepped_from_solve(system, enclosures, arithmetic, outcomes.walked, point, clearance);
            let found = swept(system, enclosures, arithmetic, chord, clearance, CLAMP_SWEEPS as nat);
            if some_clear(stepped) {
                stepped
            } else if found.clear {
                stepped.push(Reached::Clear(found.point))
            } else {
                stepped.push(Reached::Feasible(chord))
            }
        },
    }
}

/// What a repair comes to, given what those who are asked answered.
pub open spec fn repaired<E: Evaluate>(
    system: ConstraintSystem<E>,
    enclosures: Enclosures,
    arithmetic: Arithmetic,
    solving: Solving,
    point: Seq<Real>,
    clearance: Real,
    outcomes: Outcomes,
) -> Repaired {
    match opening(system, enclosures, arithmetic, solving, point, clearance) {
        Opening::Done(answer) => answer,
        Opening::Open { landings, start } => {
            let seen = boxed(system, enclosures, arithmetic, point, clearance, landings, outcomes);
            if seen.len() > 0 {
                aggregated(system, arithmetic, seen, point, clearance)
            } else {
                aggregated(
                    system,
                    arithmetic,
                    walked_in(system, enclosures, arithmetic, point, clearance, outcomes),
                    point,
                    clearance,
                )
            }
        },
    }
}

/// Whether what a local solve found is what it answered when asked.
pub open spec fn is_solved<E: Evaluate, M: Machine, R: Fn(&Projection, &Vec<Real>, u64) -> Projected>(
    system: ConstraintSystem<E>,
    machine: M,
    run: R,
    from: Seq<Real>,
    point: Seq<Real>,
    clearance: Real,
    found: Found,
) -> bool {
    exists|answer: Projected| #[trigger]
        is_nearest(system, machine, run, from, point, clearance, answer) && found_of(answer) == found
}

/// Whether outcomes are what those who are asked answered, each where it is
/// asked.
pub open spec fn are_outcomes<
    E: Evaluate,
    I: Intervals,
    M: Machine,
    S: Fn(&Vec<Vec<Real>>, &Vec<Real>) -> (Vec<Real>, Vec<Real>),
    D: Fn(&Xoshiro256PlusPlus, Real, Real) -> (Real, Xoshiro256PlusPlus),
    R: Fn(&Projection, &Vec<Real>, u64) -> Projected,
    B: Fn(&Xoshiro256PlusPlus) -> (Real, Xoshiro256PlusPlus),
    F: Fn(&Seeding, &Vec<Real>, u64) -> Option<Point>,
>(
    system: ConstraintSystem<E>,
    intervals: I,
    machine: M,
    helpers: Helpers<S, D, R, B, F>,
    point: Seq<Real>,
    clearance: Real,
    outcomes: Outcomes,
) -> bool {
    let enclosures = enclosures_of(intervals);
    let arithmetic = arithmetic_of(machine);
    match opening(system, enclosures, arithmetic, solving_of(helpers.solve), point, clearance) {
        Opening::Done(answer) => true,
        Opening::Open { landings, start } => {
            let seen = boxed(system, enclosures, arithmetic, point, clearance, landings, outcomes);
            &&& is_sampled(system, enclosures, arithmetic, point, clearance, helpers.draw, outcomes.hit)
            &&& is_solve_due(system, outcomes.hit) ==> is_solved(
                system,
                machine,
                helpers.project,
                start,
                point,
                clearance,
                outcomes.solved,
            )
            &&& seen.len() == 0 ==> is_reference(system, machine, helpers.unit, helpers.seed, outcomes.reference)
            &&& seen.len() == 0 ==> (outcomes.reference matches Some(reference) ==> is_solved(
                system,
                machine,
                helpers.project,
                chord_of(system, enclosures, arithmetic, reference, point),
                point,
                clearance,
                outcomes.walked,
            ))
        },
    }
}

/// Whether a reference is what the search over the declared box comes to, with a
/// generator of its seed.
pub open spec fn is_reference<
    E: Evaluate,
    M: Machine,
    B: Fn(&Xoshiro256PlusPlus) -> (Real, Xoshiro256PlusPlus),
    F: Fn(&Seeding, &Vec<Real>, u64) -> Option<Point>,
>(system: ConstraintSystem<E>, machine: M, unit: B, seed: F, reference: Option<Seq<Real>>) -> bool {
    if system.variables@.len() == 0 {
        reference is None
    } else {
        exists|before: Xoshiro256PlusPlus, after: Xoshiro256PlusPlus|
            {
                &&& #[trigger] is_found(
                    system,
                    machine,
                    ranges(system.variables@),
                    STARTS as int,
                    unit,
                    seed,
                    before,
                    reference,
                    after,
                )
                &&& words(before) == expanded(REFERENCE_SEED)
            }
    }
}

/// Who a repair asks: the linear solve of Newton's step, a draw between two ends
/// for the sampling box, the local solve of a projection, a draw from the unit
/// interval for the starts of a reference search, and the local solve of one. A
/// draw is handed a generator, and hands it back as it stands after.
#[derive(Debug)]
pub struct Helpers<S, D, R, B, F> {
    pub solve: S,
    pub draw: D,
    pub project: R,
    pub unit: B,
    pub seed: F,
}

/// Whether every helper can be asked anything.
pub open spec fn can_help<
    S: Fn(&Vec<Vec<Real>>, &Vec<Real>) -> (Vec<Real>, Vec<Real>),
    D: Fn(&Xoshiro256PlusPlus, Real, Real) -> (Real, Xoshiro256PlusPlus),
    R: Fn(&Projection, &Vec<Real>, u64) -> Projected,
    B: Fn(&Xoshiro256PlusPlus) -> (Real, Xoshiro256PlusPlus),
    F: Fn(&Seeding, &Vec<Real>, u64) -> Option<Point>,
>(helpers: Helpers<S, D, R, B, F>) -> bool {
    &&& is_solver(helpers.solve)
    &&& forall|generator: &Xoshiro256PlusPlus, lo: Real, hi: Real| #[trigger]
        call_requires(helpers.draw, (generator, lo, hi))
    &&& forall|projection: &Projection, start: &Vec<Real>, budget: u64| #[trigger]
        call_requires(helpers.project, (projection, start, budget))
    &&& forall|generator: &Xoshiro256PlusPlus| #[trigger] call_requires(helpers.unit, (generator,))
    &&& forall|landing: &Seeding, from: &Vec<Real>, budget: u64| #[trigger]
        call_requires(helpers.seed, (landing, from, budget))
}

fn clamps_cheaply<E>(system: &ConstraintSystem<E>) -> (yes: bool)
    requires
        system.well_formed(),
    ensures
        yes == is_local(*system),
{
    for c in 0..system.constraints.len()
        invariant
            system.well_formed(),
            forall|d: int| 0 <= d < c ==> (#[trigger] system.incidence.rows@[d])@.len() <= CLAMP_LOCAL,
    {
        if system.incidence.rows[c].len() > CLAMP_LOCAL {
            assert(system.incidence.rows@[c as int]@.len() > CLAMP_LOCAL);
            return false;
        }
    }
    true
}

fn named_alone<E>(system: &ConstraintSystem<E>, coordinate: usize) -> (yes: bool)
    requires
        system.well_formed(),
        coordinate < system.variables@.len(),
    ensures
        yes == is_named_alone(*system, coordinate as int),
{
    let naming = &system.incidence.naming[coordinate];
    for i in 0..naming.len()
        invariant
            system.well_formed(),
            coordinate < system.variables@.len(),
            *naming == system.incidence.naming@[coordinate as int],
            forall|j: int|
                0 <= j < i ==> system.incidence.rows@[(#[trigger] system.incidence.naming@[coordinate as int]@[j]) as int]@.len()
                    == 1,
    {
        proof {
            crate::system::naming_lists_who_names(
                system.incidence,
                system.constraints@.len() as int,
                system.variables@.len() as int,
                coordinate as int,
                naming@[i as int] as int,
            );
            assert(crate::plans::integers(naming@)[i as int] == naming@[i as int]);
        }
        let c: usize = naming[i];
        if system.incidence.rows[c].len() != 1 {
            assert(system.incidence.rows@[system.incidence.naming@[coordinate as int]@[i as int] as int]@.len() != 1);
            return false;
        }
    }
    true
}

fn separable<E>(system: &ConstraintSystem<E>, from: &Vec<Real>, to: &Vec<Real>) -> (yes: bool)
    requires
        system.well_formed(),
        system.fits(from@),
        system.fits(to@),
    ensures
        yes == is_separable(*system, from@, to@),
{
    for k in 0..to.len()
        invariant
            system.well_formed(),
            system.fits(from@),
            system.fits(to@),
            forall|j: int| 0 <= j < k && !(#[trigger] to@[j]).same(from@[j]) ==> is_named_alone(*system, j),
    {
        if !to[k].equals(from[k]) && !named_alone(system, k) {
            assert(!to@[k as int].same(from@[k as int]));
            return false;
        }
    }
    true
}

fn smooth<E: Evaluate>(system: &ConstraintSystem<E>, point: &Vec<Real>) -> (yes: bool)
    ensures
        system.judged() && system.all_graded() ==> yes == is_smooth(*system, point@),
{
    let ghost known = system.judged() && system.all_graded();
    for c in 0..system.constraints.len()
        invariant
            known == (system.judged() && system.all_graded()),
            known ==> forall|d: int|
                0 <= d < c ==> told((#[trigger] system.constraints@[d]).compiled) || crate::system::passes(
                    system.judge(d),
                    point@,
                ),
    {
        let compiled = &system.constraints[c].compiled;
        proof {
            if known {
                assert(crate::system::consistent(system.constraints@[c as int].compiled));
                assert(crate::system::is_told(system.constraints@[c as int].compiled));
            }
        }
        let fine = differentiable(compiled) || match residual(compiled, point) {
            Some(value) => value.le(zero()),
            None => false,
        };
        if !fine {
            assert(known ==> !told(system.constraints@[c as int].compiled) && !crate::system::passes(
                system.judge(c as int),
                point@,
            ));
            return false;
        }
    }
    true
}

fn hand_up_all(list: &mut Vec<Landing>, more: &mut Vec<Landing>, coordinates: usize)
    requires
        all_fit(old(list)@, coordinates as nat),
        all_fit(old(more)@, coordinates as nat),
    ensures
        reached(final(list)@) == reached(old(list)@) + reached(old(more)@),
        all_fit(final(list)@, coordinates as nat),
{
    let ghost first = list@;
    let ghost second = more@;
    list.append(more);
    proof {
        assert(list@ =~= first + second);
        assert(reached(list@) =~= reached(first) + reached(second));
        assert forall|i: int| 0 <= i < list@.len() implies (#[trigger] list@[i])@.point().len() == coordinates by {
            if i < first.len() {
                assert(list@[i] == first[i]);
            } else {
                assert(list@[i] == second[i - first.len()]);
            }
        }
    }
}

proof fn solving_is_judged<E: Evaluate, M: Machine, R: Fn(&Projection, &Vec<Real>, u64) -> Projected>(
    system: ConstraintSystem<E>,
    machine: M,
    run: R,
    from: Seq<Real>,
    point: Seq<Real>,
    clearance: Real,
    found: Found,
)
    requires
        is_solved(system, machine, run, from, point, clearance, found),
    ensures
        is_found_judged(system, arithmetic_of(machine), clearance, found),
{
}

proof fn reference_is_judged<
    E: Evaluate,
    M: Machine,
    B: Fn(&Xoshiro256PlusPlus) -> (Real, Xoshiro256PlusPlus),
    F: Fn(&Seeding, &Vec<Real>, u64) -> Option<Point>,
>(system: ConstraintSystem<E>, machine: M, unit: B, seed: F, reference: Option<Seq<Real>>)
    requires
        is_reference(system, machine, unit, seed, reference),
    ensures
        reference matches Some(point) ==> system.feasible(arithmetic_of(machine), point, zero()),
{
    if system.variables@.len() > 0 {
        let trials = choose|trials: Seq<Trial>| #[trigger]
            is_decided(system, arithmetic_of(machine), ranges(system.variables@), STARTS as int, trials, reference);
    }
}

/// Whether everything a repair asks that is to give one answer to one question
/// does.
pub open spec fn is_deterministic<
    E: Evaluate,
    I: Intervals,
    M: Machine,
    S: Fn(&Vec<Vec<Real>>, &Vec<Real>) -> (Vec<Real>, Vec<Real>),
>(system: ConstraintSystem<E>, intervals: I, machine: M, solve: S) -> bool {
    is_known(system, intervals, machine) && is_repeatable(system, machine, solve)
}

/// A point that satisfies `system` with `clearance` to spare, near `point`: the
/// point itself if it already does.
#[verifier::rlimit(60)]
pub fn repair<
    E: Evaluate,
    I: Intervals,
    M: Machine,
    S: Fn(&Vec<Vec<Real>>, &Vec<Real>) -> (Vec<Real>, Vec<Real>),
    D: Fn(&Xoshiro256PlusPlus, Real, Real) -> (Real, Xoshiro256PlusPlus),
    R: Fn(&Projection, &Vec<Real>, u64) -> Projected,
    B: Fn(&Xoshiro256PlusPlus) -> (Real, Xoshiro256PlusPlus),
    F: Fn(&Seeding, &Vec<Real>, u64) -> Option<Point>,
>(
    system: &ConstraintSystem<E>,
    intervals: &I,
    machine: &M,
    helpers: &Helpers<S, D, R, B, F>,
    point: &Vec<Real>,
    clearance: Real,
) -> (result: Result<Point, RepairError>)
    requires
        system.well_formed(),
        system.fits(point@),
        clearance.finite(),
        zero().at_most(clearance),
        can_help(*helpers),
        row_count(*system) + ROUNDS_TO_SPARE <= usize::MAX,
    ensures
        deterministic(*machine) && system.judged() && system.feasible(arithmetic_of(*machine), point@, clearance)
            ==> (result matches Ok(found) && found@ == point@),
        is_deterministic(*system, *intervals, *machine, helpers.solve) ==> exists|outcomes: Outcomes|
            {
                &&& #[trigger] are_outcomes(*system, *intervals, *machine, *helpers, point@, clearance, outcomes)
                &&& are_judged(*system, arithmetic_of(*machine), clearance, outcomes)
                &&& is_answer(
                    result,
                    clearance,
                    repaired_by(*system, *intervals, *machine, *helpers, point@, clearance, outcomes),
                )
            },
        is_deterministic(*system, *intervals, *machine, helpers.solve) && helps_steadily(*helpers) ==> is_answer(
            result,
            clearance,
            the_repair(*system, *intervals, *machine, *helpers, point@, clearance),
        ),
        deterministic(*machine) && system.judged() ==> keeps_its_word(
            *system,
            arithmetic_of(*machine),
            clearance,
            result,
        ),
{
    let ghost judging = deterministic(*machine) && system.judged();
    let ghost known = is_deterministic(*system, *intervals, *machine, helpers.solve);
    let ghost enclosures = enclosures_of(*intervals);
    let ghost arithmetic = arithmetic_of(*machine);
    let ghost solving = solving_of(helpers.solve);
    let ghost nobody = Outcomes {
        hit: None,
        solved: Found { clear: None, feasible: None },
        reference: None,
        walked: Found { clear: None, feasible: None },
    };
    let ghost first = opening(*system, enclosures, arithmetic, solving, point@, clearance);
    let dimensions: usize = system.variables.len();
    if system.is_feasible(machine, point, clearance) {
        let same = copied(point);
        proof {
            assert(known ==> are_outcomes(*system, *intervals, *machine, *helpers, point@, clearance, nobody));
            the_repair_is_one(*system, *intervals, *machine, *helpers, point@, clearance, nobody);
        }
        return Ok(same);
    }
    let widths = widths(system, machine);
    let mut landings: Vec<Landing> = Vec::new();
    assert(reached(landings@) =~= Seq::<Reached>::empty());
    let mut start = copied(point);
    let ghost clamps = clamp_stage(*system, enclosures, arithmetic, point@, clearance);
    if clamps_cheaply(system) {
        match clamp_in(system, intervals, machine, copied(point), clearance) {
            Ok(there) => {
                if separable(system, point, &there) {
                    let back = release(system, machine, there, point, clearance);
                    proof {
                        releasing_keeps_the_clearance(
                            *system,
                            arithmetic,
                            there@,
                            point@,
                            clearance,
                            there@.len() as int,
                        );
                        assert(known ==> are_outcomes(
                            *system,
                            *intervals,
                            *machine,
                            *helpers,
                            point@,
                            clearance,
                            nobody,
                        ));
                        the_repair_is_one(*system, *intervals, *machine, *helpers, point@, clearance, nobody);
                    }
                    return Ok(back);
                }
                start = copied(&there);
                landings.push(Landing::Clear(there));
                assert(reached(landings@) =~= seq![Reached::Clear(start@)]);
            },
            Err(there) => {
                start = copied(&there);
                if system.is_feasible(machine, &there, zero()) {
                    landings.push(Landing::Feasible(there));
                    assert(reached(landings@) =~= seq![Reached::Feasible(start@)]);
                }
            },
        }
    }
    assert(known ==> clamps == (Opening::Open { landings: reached(landings@), start: start@ }));
    let mut newton: Option<Landing> = None;
    if smooth(system, point) {
        if let Some(landing) = newton_nearest(system, machine, &helpers.solve, point, point) {
            newton = stepped_inside(system, intervals, machine, &widths, landing, point, clearance);
        }
    }
    assert(known ==> reached_of(newton) == newton_stage(*system, enclosures, arithmetic, solving, point@, clearance));
    hand_up(&mut landings, newton);
    assert(judging ==> all_judged(*system, arithmetic, reached(landings@), clearance));
    if any_clear(&landings) {
        let result = nearest_of(system, machine, &widths, landings, point, clearance);
        proof {
            assert(known ==> are_outcomes(*system, *intervals, *machine, *helpers, point@, clearance, nobody));
            the_repair_is_one(*system, *intervals, *machine, *helpers, point@, clearance, nobody);
        }
        return result;
    }
    assert(known ==> first == (Opening::Open { landings: reached(landings@), start: start@ }));
    let ghost open = reached(landings@);
    let hit = sampled(system, intervals, machine, &helpers.draw, &widths, point, clearance);
    let ghost hit_at = outcome_of(hit);
    let due = hit.is_none() || dimensions <= SOLVE_CHEAP;
    if let Some(there) = &hit {
        let chord = along_chord(system, intervals, machine, there, point);
        let landing = off_the_boundary(system, intervals, machine, &widths, chord, point, clearance);
        hand_up(&mut landings, landing);
    }
    let ghost mut solved = nobody.solved;
    if due {
        let answer = solved_nearest(system, machine, &helpers.project, &start, point, clearance);
        proof {
            solved = found_of(answer);
            if judging {
                assert(is_solved(*system, *machine, helpers.project, start@, point@, clearance, solved));
                solving_is_judged(*system, *machine, helpers.project, start@, point@, clearance, solved);
            }
        }
        let mut stepped = stepped_off(system, intervals, machine, &widths, answer, point, clearance);
        hand_up_all(&mut landings, &mut stepped, dimensions);
    }
    let ghost mut outcomes = Outcomes { hit: hit_at, solved, reference: None, walked: nobody.walked };
    let ghost seen = boxed(*system, enclosures, arithmetic, point@, clearance, open, outcomes);
    assert(known ==> reached(landings@) == seen);
    assert(judging ==> all_judged(*system, arithmetic, reached(landings@), clearance));
    if landings.len() > 0 {
        let result = nearest_of(system, machine, &widths, landings, point, clearance);
        proof {
            if known {
                assert(are_outcomes(*system, *intervals, *machine, *helpers, point@, clearance, outcomes));
                the_repair_is_one(*system, *intervals, *machine, *helpers, point@, clearance, outcomes);
            }
        }
        return result;
    }
    assert(reached(landings@) =~= Seq::<Reached>::empty());
    let bounds = system.declared();
    let mut rng = seeded(REFERENCE_SEED);
    let reference = find_initial(system, machine, &bounds, STARTS, &mut rng, &helpers.unit, &helpers.seed);
    let ghost mut walked = nobody.walked;
    let ghost reference_at = outcome_of(reference);
    if let Some(there) = &reference {
        let chord = along_chord(system, intervals, machine, there, point);
        let answer = solved_nearest(system, machine, &helpers.project, &chord, point, clearance);
        proof {
            walked = found_of(answer);
            if judging {
                assert(is_solved(*system, *machine, helpers.project, chord@, point@, clearance, walked));
                solving_is_judged(*system, *machine, helpers.project, chord@, point@, clearance, walked);
            }
        }
        let mut stepped = stepped_off(system, intervals, machine, &widths, answer, point, clearance);
        hand_up_all(&mut landings, &mut stepped, dimensions);
        let ghost handed = reached(landings@);
        if !any_clear(&landings) {
            let last = match clamp_in(system, intervals, machine, copied(&chord), clearance) {
                Ok(clear) => Landing::Clear(clear),
                Err(_) => Landing::Feasible(chord),
            };
            let ghost said = last@;
            hand_up(&mut landings, Some(last));
            assert(reached(landings@) =~= handed.push(said));
        }
    }
    assert(judging ==> all_judged(*system, arithmetic, reached(landings@), clearance));
    proof {
        outcomes = Outcomes { hit: hit_at, solved, reference: reference_at, walked };
        if known {
            assert(boxed(*system, enclosures, arithmetic, point@, clearance, open, outcomes) == seen);
            assert(reached(landings@) == walked_in(*system, enclosures, arithmetic, point@, clearance, outcomes));
            assert(is_reference(*system, *machine, helpers.unit, helpers.seed, reference_at));
            assert(are_outcomes(*system, *intervals, *machine, *helpers, point@, clearance, outcomes));
            reference_is_judged(*system, *machine, helpers.unit, helpers.seed, reference_at);
            the_repair_is_one(*system, *intervals, *machine, *helpers, point@, clearance, outcomes);
        }
    }
    nearest_of(system, machine, &widths, landings, point, clearance)
}

// ---- what a repair guarantees ----

/// Whether what those who are asked answered is what the oracle says it is.
pub open spec fn are_judged<E: Evaluate>(
    system: ConstraintSystem<E>,
    arithmetic: Arithmetic,
    clearance: Real,
    outcomes: Outcomes,
) -> bool {
    &&& is_found_judged(system, arithmetic, clearance, outcomes.solved)
    &&& outcomes.reference matches Some(reference) ==> system.feasible(arithmetic, reference, zero())
    &&& is_found_judged(system, arithmetic, clearance, outcomes.walked)
}

pub open spec fn is_found_judged<E: Evaluate>(
    system: ConstraintSystem<E>,
    arithmetic: Arithmetic,
    clearance: Real,
    found: Found,
) -> bool {
    &&& found.clear matches Some(point) ==> system.feasible(arithmetic, point, clearance)
    &&& found.feasible matches Some(point) ==> system.feasible(arithmetic, point, zero())
}

proof fn climbing_is_judged<E: Evaluate>(
    system: ConstraintSystem<E>,
    enclosures: Enclosures,
    arithmetic: Arithmetic,
    landing: Seq<Real>,
    inward: Seq<Real>,
    clearance: Real,
    rung: Real,
    left: nat,
)
    ensures
        climbed(system, enclosures, arithmetic, landing, inward, clearance, rung, left) matches Some(point)
            ==> system.feasible(arithmetic, point, clearance),
    decreases left,
{
    if left > 0 {
        climbing_is_judged(
            system,
            enclosures,
            arithmetic,
            landing,
            inward,
            clearance,
            arithmetic.times(rung, two()),
            (left - 1) as nat,
        );
    }
}

proof fn backing_off_is_judged<E: Evaluate>(
    system: ConstraintSystem<E>,
    enclosures: Enclosures,
    arithmetic: Arithmetic,
    landing: Seq<Real>,
    inward: Seq<Real>,
    clearance: Real,
)
    ensures
        backed(system, enclosures, arithmetic, landing, inward, clearance) matches Some(point) ==> system.feasible(
            arithmetic,
            point,
            clearance,
        ),
{
    let length = distance_of(arithmetic, widths_of(system, arithmetic), inward, flat(inward.len()));
    climbing_is_judged(
        system,
        enclosures,
        arithmetic,
        landing,
        inward,
        clearance,
        arithmetic.over(clearance.upper(epsilon()), length),
        RUNGS as nat,
    );
}

proof fn stepping_from_boundary_is_judged<E: Evaluate>(
    system: ConstraintSystem<E>,
    enclosures: Enclosures,
    arithmetic: Arithmetic,
    landing: Seq<Real>,
    point: Seq<Real>,
    clearance: Real,
)
    ensures
        stepped_from_boundary(system, enclosures, arithmetic, landing, point, clearance) matches Some(there)
            ==> there.is_judged(system, arithmetic, clearance),
{
    let inward = Seq::new(landing.len(), |k: int| arithmetic.minus(landing[k], point[k]));
    backing_off_is_judged(system, enclosures, arithmetic, landing, inward, clearance);
    clamping_is_judged(system, enclosures, arithmetic, landing, clearance, CLAMP_SWEEPS as nat);
}

proof fn stepping_from_solve_is_judged<E: Evaluate>(
    system: ConstraintSystem<E>,
    enclosures: Enclosures,
    arithmetic: Arithmetic,
    answer: Found,
    point: Seq<Real>,
    clearance: Real,
)
    requires
        is_found_judged(system, arithmetic, clearance, answer),
    ensures
        all_judged(
            system,
            arithmetic,
            stepped_from_solve(system, enclosures, arithmetic, answer, point, clearance),
            clearance,
        ),
{
    if let Some(landing) = answer.clear {
        clamping_is_judged(system, enclosures, arithmetic, landing, clearance, CLAMP_SWEEPS as nat);
    }
    if let Some(landing) = answer.feasible {
        stepping_from_boundary_is_judged(system, enclosures, arithmetic, landing, point, clearance);
    }
}

proof fn opening_is_judged<E: Evaluate>(
    system: ConstraintSystem<E>,
    enclosures: Enclosures,
    arithmetic: Arithmetic,
    solving: Solving,
    point: Seq<Real>,
    clearance: Real,
)
    requires
        system.fits(point),
    ensures
        match opening(system, enclosures, arithmetic, solving, point, clearance) {
            Opening::Done(answer) => is_promised(system, arithmetic, clearance, answer),
            Opening::Open { landings, start } => all_judged(system, arithmetic, landings, clearance),
        },
{
    if !system.feasible(arithmetic, point, clearance) {
        clamping_is_judged(system, enclosures, arithmetic, point, clearance, CLAMP_SWEEPS as nat);
        let found = swept(system, enclosures, arithmetic, point, clearance, CLAMP_SWEEPS as nat);
        if found.clear {
            releasing_keeps_the_clearance(
                system,
                arithmetic,
                found.point,
                point,
                clearance,
                found.point.len() as int,
            );
        }
        if let Some(landing) = projected(system, arithmetic, solving, point, point) {
            backing_off_is_judged(system, enclosures, arithmetic, landing.point, landing.inward, clearance);
            stepping_from_boundary_is_judged(system, enclosures, arithmetic, landing.point, point, clearance);
        }
        if let Opening::Open { landings, start } = clamp_stage(system, enclosures, arithmetic, point, clearance) {
            let all = landings + listed(newton_stage(system, enclosures, arithmetic, solving, point, clearance));
            assert(all_judged(system, arithmetic, all, clearance));
            tallies_are_judged(system, arithmetic, all, point, clearance, all.len() as int);
        }
    }
}

/// Whether an answer is what a repair promises: with the clearance where it
/// says so, and feasible where it is a consolation.
pub open spec fn is_promised<E: Evaluate>(
    system: ConstraintSystem<E>,
    arithmetic: Arithmetic,
    clearance: Real,
    answer: Repaired,
) -> bool {
    match answer {
        Repaired::Clear(point) => system.feasible(arithmetic, point, clearance),
        Repaired::Cramped(point) => system.feasible(arithmetic, point, zero()),
        Repaired::Stranded => true,
    }
}

/// Whatever a repair answers passes the oracle: with the clearance where it is
/// an answer, and without where it is a consolation.
pub proof fn a_repair_is_feasible<E: Evaluate>(
    system: ConstraintSystem<E>,
    enclosures: Enclosures,
    arithmetic: Arithmetic,
    solving: Solving,
    point: Seq<Real>,
    clearance: Real,
    outcomes: Outcomes,
)
    requires
        system.fits(point),
        are_judged(system, arithmetic, clearance, outcomes),
    ensures
        is_promised(
            system,
            arithmetic,
            clearance,
            repaired(system, enclosures, arithmetic, solving, point, clearance, outcomes),
        ),
{
    opening_is_judged(system, enclosures, arithmetic, solving, point, clearance);
    if let Opening::Open { landings, start } = opening(system, enclosures, arithmetic, solving, point, clearance) {
        if let Some(hit) = outcomes.hit {
            stepping_from_boundary_is_judged(
                system,
                enclosures,
                arithmetic,
                chord_of(system, enclosures, arithmetic, hit, point),
                point,
                clearance,
            );
        }
        stepping_from_solve_is_judged(system, enclosures, arithmetic, outcomes.solved, point, clearance);
        stepping_from_solve_is_judged(system, enclosures, arithmetic, outcomes.walked, point, clearance);
        let seen = boxed(system, enclosures, arithmetic, point, clearance, landings, outcomes);
        assert(all_judged(system, arithmetic, seen, clearance));
        tallies_are_judged(system, arithmetic, seen, point, clearance, seen.len() as int);
        let walked = walked_in(system, enclosures, arithmetic, point, clearance, outcomes);
        if let Some(reference) = outcomes.reference {
            let chord = chord_of(system, enclosures, arithmetic, reference, point);
            a_chord_lands_feasible(system, enclosures, arithmetic, reference, point);
            clamping_is_judged(system, enclosures, arithmetic, chord, clearance, CLAMP_SWEEPS as nat);
        }
        assert(all_judged(system, arithmetic, walked, clearance));
        tallies_are_judged(system, arithmetic, walked, point, clearance, walked.len() as int);
    }
}

/// A point with the clearance is its own repair, whoever is asked.
pub proof fn a_clear_point_is_left<E: Evaluate>(
    system: ConstraintSystem<E>,
    enclosures: Enclosures,
    arithmetic: Arithmetic,
    solving: Solving,
    point: Seq<Real>,
    clearance: Real,
    outcomes: Outcomes,
)
    requires
        system.feasible(arithmetic, point, clearance),
    ensures
        repaired(system, enclosures, arithmetic, solving, point, clearance, outcomes) == Repaired::Clear(point),
{
}

impl RepairError {
    /// What the error says, for a spelling of numbers.
    pub open spec fn sentence(self, spelled: spec_fn(Real) -> Seq<char>) -> Seq<char> {
        match self {
            RepairError::Stranded =>
            "no feasible point was reached: clamping could not land and the projection found nothing"@,
            RepairError::Cramped { clearance, .. } => "a feasible point was reached but none with clearance "@
                + spelled(clearance)
                + "; the feasible room is          narrower than the clearance asked for, so try a smaller one"@,
        }
    }

    pub fn text<F: Fn(Real) -> String>(&self, spell: &F) -> (text: String)
        requires
            spells(*spell),
        ensures
            forall|spelled: spec_fn(Real) -> Seq<char>| #[trigger]
                spells_as(*spell, spelled) ==> text@ == self.sentence(spelled),
    {
        match self {
            RepairError::Stranded =>
            "no feasible point was reached: clamping could not land and the projection found nothing".to_owned(),
            RepairError::Cramped { clearance, .. } => {
                let mut text = "a feasible point was reached but none with clearance ".to_owned();
                let number = spell(*clearance);
                text.append(number.as_str());
                text.append(
                    "; the feasible room is          narrower than the clearance asked for, so try a smaller one",
                );
                text
            },
        }
    }
}

/// Repairing twice is repairing once: what a repair answers with the clearance
/// is its own repair, whoever is asked the second time.
pub proof fn repairing_twice_changes_nothing<E: Evaluate>(
    system: ConstraintSystem<E>,
    enclosures: Enclosures,
    arithmetic: Arithmetic,
    solving: Solving,
    point: Seq<Real>,
    clearance: Real,
    outcomes: Outcomes,
    again: Outcomes,
)
    requires
        system.fits(point),
        are_judged(system, arithmetic, clearance, outcomes),
    ensures
        repaired(system, enclosures, arithmetic, solving, point, clearance, outcomes) matches Repaired::Clear(there)
            ==> repaired(system, enclosures, arithmetic, solving, there, clearance, again) == Repaired::Clear(there),
{
    a_repair_is_feasible(system, enclosures, arithmetic, solving, point, clearance, outcomes);
    if let Repaired::Clear(there) = repaired(system, enclosures, arithmetic, solving, point, clearance, outcomes) {
        a_clear_point_is_left(system, enclosures, arithmetic, solving, there, clearance, again);
    }
}

proof fn tallies_are_distances<E: Evaluate>(
    system: ConstraintSystem<E>,
    arithmetic: Arithmetic,
    list: Seq<Reached>,
    point: Seq<Real>,
    clearance: Real,
    upto: int,
)
    ensures
        tallied(system, arithmetic, list, point, clearance, upto).clear matches Some(pair) ==> pair.0 == distance_of(
            arithmetic,
            widths_of(system, arithmetic),
            pair.1,
            point,
        ),
    decreases upto,
{
    if upto > 0 {
        tallies_are_distances(system, arithmetic, list, point, clearance, upto - 1);
    }
}

/// A repair is no farther than clamping reached: where clamping lands with the
/// clearance, and distances are numbers, the answer has it too and is no
/// farther from the point than where clamping landed, released.
pub proof fn a_repair_is_no_farther_than_the_clamp<E: Evaluate>(
    system: ConstraintSystem<E>,
    enclosures: Enclosures,
    arithmetic: Arithmetic,
    solving: Solving,
    point: Seq<Real>,
    clearance: Real,
    outcomes: Outcomes,
)
    requires
        is_local(system),
        !system.feasible(arithmetic, point, clearance),
        swept(system, enclosures, arithmetic, point, clearance, CLAMP_SWEEPS as nat).clear,
        !ranked(
            system,
            arithmetic,
            Reached::Clear(swept(system, enclosures, arithmetic, point, clearance, CLAMP_SWEEPS as nat).point),
            point,
            clearance,
        ).nan(),
        newton_stage(system, enclosures, arithmetic, solving, point, clearance) matches Some(landing) ==> !ranked(
            system,
            arithmetic,
            landing,
            point,
            clearance,
        ).nan(),
    ensures
        ({
            let clamp_landing = Reached::Clear(
                swept(system, enclosures, arithmetic, point, clearance, CLAMP_SWEEPS as nat).point,
            );
            repaired(system, enclosures, arithmetic, solving, point, clearance, outcomes) matches Repaired::Clear(there)
                && distance_of(arithmetic, widths_of(system, arithmetic), there, point).at_most(
                ranked(system, arithmetic, clamp_landing, point, clearance),
            )
        }),
{
    let found = swept(system, enclosures, arithmetic, point, clearance, CLAMP_SWEEPS as nat);
    let clamp_landing = Reached::Clear(found.point);
    if !is_separable(system, point, found.point) {
        let all = seq![clamp_landing] + listed(
            newton_stage(system, enclosures, arithmetic, solving, point, clearance),
        );
        assert(all[0] is Clear);
        assert(some_clear(all));
        the_nearest_wins(system, arithmetic, all, point, clearance, all.len() as int);
        tallies_are_distances(system, arithmetic, all, point, clearance, all.len() as int);
    }
}

// ---- no clearance ----

/// Whether no clearance is no step: for a width that is finite, adding it and
/// taking it away leave a number where it is.
pub open spec fn steps_nowhere(arithmetic: Arithmetic) -> bool {
    forall|clearance: Real, width: Real, edge: Real|
        clearance.same(zero()) && width.finite() && !edge.nan() ==> (#[trigger] arithmetic.plus(
            edge,
            arithmetic.times(clearance, width),
        )).same(edge) && arithmetic.minus(edge, arithmetic.times(clearance, width)).same(edge)
}

/// Whether every variable's width is finite.
pub open spec fn has_finite_widths<E>(system: ConstraintSystem<E>, arithmetic: Arithmetic) -> bool {
    forall|k: int| 0 <= k < system.variables@.len() ==> (#[trigger] system.variables@[k]).extent(arithmetic).finite()
}

/// Whether intervals can be relied on at a point: the tapes agree with the
/// constraints there, and the interval operators enclose what is asked of them.
pub open spec fn is_relied_on<E: Evaluate>(
    system: ConstraintSystem<E>,
    enclosures: Enclosures,
    semantics: Semantics,
    point: Seq<Real>,
) -> bool {
    tapes_agree(system, semantics, point) && encloses_around(system, enclosures, semantics, point)
}

/// No clearance is no clearance, however its zero is signed.
proof fn no_clearance_is_zero<E: Evaluate>(
    system: ConstraintSystem<E>,
    arithmetic: Arithmetic,
    point: Seq<Real>,
    clearance: Real,
)
    requires
        clearance.same(zero()),
    ensures
        system.feasible(arithmetic, point, clearance) == system.feasible(arithmetic, point, zero()),
{
    let a = clearance;
    let b = zero();
    assert forall|k: int| 0 <= k < system.variables@.len() implies crate::system::is_within(
        arithmetic,
        #[trigger] system.variables@[k],
        point[k],
        a,
    ) == crate::system::is_within(arithmetic, system.variables@[k], point[k], b) by {}
    assert forall|c: int| 0 <= c < system.constraints@.len() implies #[trigger] system.holds_at(
        arithmetic,
        c,
        point,
        a,
    ) == system.holds_at(arithmetic, c, point, b) by {}
    if system.feasible(arithmetic, point, a) {
        assert forall|c: int| 0 <= c < system.constraints@.len() implies #[trigger] system.holds_at(
            arithmetic,
            c,
            point,
            b,
        ) by {
            assert(system.holds_at(arithmetic, c, point, a));
        }
    }
    if system.feasible(arithmetic, point, b) {
        assert forall|c: int| 0 <= c < system.constraints@.len() implies #[trigger] system.holds_at(
            arithmetic,
            c,
            point,
            a,
        ) by {
            assert(system.holds_at(arithmetic, c, point, b));
        }
    }
}

proof fn no_step_is_taken(arithmetic: Arithmetic, slice: Interval, value: Real, clearance: Real, width: Real)
    requires
        steps_nowhere(arithmetic),
        clearance.same(zero()),
        width.finite(),
        slice.has_value(value),
    ensures
        aimed(arithmetic, slice, value, clearance, width).same(value),
{
    let lo = arithmetic.plus(slice.lo, arithmetic.times(clearance, width));
    let hi = arithmetic.minus(slice.hi, arithmetic.times(clearance, width));
    assert(arithmetic.plus(slice.hi, arithmetic.times(clearance, width)).same(slice.hi));
    assert(lo.same(slice.lo) && hi.same(slice.hi));
}

/// Clamping with no clearance leaves a feasible point where it is, where the
/// intervals can be relied on there and every width is finite.
pub proof fn a_feasible_point_is_not_clamped<E: Evaluate>(
    system: ConstraintSystem<E>,
    enclosures: Enclosures,
    semantics: Semantics,
    point: Seq<Real>,
    clearance: Real,
)
    requires
        system.well_formed(),
        is_relied_on(system, enclosures, semantics, point),
        is_plain(semantics),
        steps_nowhere(semantics.arithmetic),
        has_finite_widths(system, semantics.arithmetic),
        names_each_once(system),
        clearance.same(zero()),
        system.feasible(semantics.arithmetic, point, zero()),
    ensures
        swept(system, enclosures, semantics.arithmetic, point, clearance, CLAMP_SWEEPS as nat) == (Swept {
            point,
            clear: true,
        }),
{
    let arithmetic = semantics.arithmetic;
    clearance_asks_for_more(system, arithmetic, point, zero());
    no_clearance_is_zero(system, arithmetic, point, clearance);
    assert forall|k: int| 0 <= k < point.len() implies !(#[trigger] point[k]).nan() by {
        assert(system.variables@[k].range().has_value(point[k]));
    }
    assert forall|k: int| 0 <= k < point.len() implies #[trigger] clamp_of(
        system,
        enclosures,
        arithmetic,
        point,
        clearance,
        k,
    ) is None by {
        assert(point.update(k, point[k]) =~= point);
        assert(system.variables@[k].range().has_value(point[k]));
        assert forall|c: int| 0 <= c < system.constraints@.len() implies #[trigger] tape_holds(
            system,
            semantics,
            c,
            point.update(k, point[k]),
        ) && system.incidence.rows@[c]@.no_duplicates() by {
            assert(crate::system::passes(system.judge(c), point));
        }
        a_slice_has_every_solution(system, enclosures, semantics, point, k, None, point[k]);
        let slice = slice_of(system, enclosures, point, k, None);
        assert(system.variables@[k].extent(arithmetic).finite());
        no_step_is_taken(arithmetic, slice, point[k], clearance, system.variables@[k].extent(arithmetic));
    }
    no_clamp_no_turn(system, enclosures, arithmetic, point, clearance, point.len() as int);
}

proof fn no_clamp_no_turn<E>(
    system: ConstraintSystem<E>,
    enclosures: Enclosures,
    arithmetic: Arithmetic,
    point: Seq<Real>,
    clearance: Real,
    upto: int,
)
    requires
        0 <= upto <= point.len(),
        forall|k: int|
            0 <= k < point.len() ==> (#[trigger] clamp_of(system, enclosures, arithmetic, point, clearance, k)) is None,
    ensures
        clamps_below(system, enclosures, arithmetic, point, clearance, upto).len() == 0,
    decreases upto,
{
    if upto > 0 {
        no_clamp_no_turn(system, enclosures, arithmetic, point, clearance, upto - 1);
        assert(clamp_of(system, enclosures, arithmetic, point, clearance, upto - 1) is None);
    }
}

/// Whether every landing has the clearance.
pub open spec fn all_clear(list: Seq<Reached>) -> bool {
    forall|i: int| 0 <= i < list.len() ==> (#[trigger] list[i]) is Clear
}

proof fn nothing_clear_is_cramped<E: Evaluate>(
    system: ConstraintSystem<E>,
    arithmetic: Arithmetic,
    list: Seq<Reached>,
    point: Seq<Real>,
    clearance: Real,
    upto: int,
)
    requires
        0 <= upto <= list.len(),
        all_clear(list),
    ensures
        tallied(system, arithmetic, list, point, clearance, upto).cramped is None,
    decreases upto,
{
    if upto > 0 {
        nothing_clear_is_cramped(system, arithmetic, list, point, clearance, upto - 1);
        assert(list[upto - 1] is Clear);
    }
}

proof fn a_boundary_landing_is_clear<E: Evaluate>(
    system: ConstraintSystem<E>,
    enclosures: Enclosures,
    semantics: Semantics,
    landing: Seq<Real>,
    point: Seq<Real>,
    clearance: Real,
)
    requires
        system.well_formed(),
        is_relied_on(system, enclosures, semantics, landing),
        is_plain(semantics),
        steps_nowhere(semantics.arithmetic),
        has_finite_widths(system, semantics.arithmetic),
        names_each_once(system),
        clearance.same(zero()),
    ensures
        all_clear(
            listed(stepped_from_boundary(system, enclosures, semantics.arithmetic, landing, point, clearance)),
        ),
{
    let arithmetic = semantics.arithmetic;
    let found = swept(system, enclosures, arithmetic, landing, clearance, CLAMP_SWEEPS as nat);
    clamping_is_judged(system, enclosures, arithmetic, landing, clearance, CLAMP_SWEEPS as nat);
    no_clearance_is_zero(system, arithmetic, found.point, clearance);
    if system.feasible(arithmetic, landing, zero()) {
        a_feasible_point_is_not_clamped(system, enclosures, semantics, landing, clearance);
    }
}

/// Whether a repair lands on a point before it steps off the walls there: Newton's
/// landing, the chord's from the sampling box or from the reference, and what a
/// local solve came to.
pub open spec fn lands_on<E: Evaluate>(
    system: ConstraintSystem<E>,
    enclosures: Enclosures,
    arithmetic: Arithmetic,
    solving: Solving,
    point: Seq<Real>,
    outcomes: Outcomes,
    there: Seq<Real>,
) -> bool {
    ||| projected(system, arithmetic, solving, point, point) matches Some(landing) && there == landing.point
    ||| outcomes.hit matches Some(hit) && there == chord_of(system, enclosures, arithmetic, hit, point)
    ||| outcomes.solved.feasible == Some(there)
    ||| outcomes.reference matches Some(reference) && there == chord_of(
        system,
        enclosures,
        arithmetic,
        reference,
        point,
    )
    ||| outcomes.walked.feasible == Some(there)
}

/// With no clearance to have, none is missed: where the intervals can be relied on
/// where the repair lands and every width is finite, a repair that asks for
/// feasibility alone is never told that there was no room.
pub proof fn without_clearance_nothing_is_cramped<E: Evaluate>(
    system: ConstraintSystem<E>,
    enclosures: Enclosures,
    semantics: Semantics,
    solving: Solving,
    point: Seq<Real>,
    clearance: Real,
    outcomes: Outcomes,
)
    requires
        system.well_formed(),
        system.fits(point),
        forall|there: Seq<Real>| #[trigger]
            lands_on(system, enclosures, semantics.arithmetic, solving, point, outcomes, there) ==> is_relied_on(
                system,
                enclosures,
                semantics,
                there,
            ),
        is_plain(semantics),
        steps_nowhere(semantics.arithmetic),
        has_finite_widths(system, semantics.arithmetic),
        names_each_once(system),
        clearance.same(zero()),
        are_judged(system, semantics.arithmetic, clearance, outcomes),
    ensures
        !(repaired(system, enclosures, semantics.arithmetic, solving, point, clearance, outcomes) is Cramped),
{
    let arithmetic = semantics.arithmetic;
    let found = swept(system, enclosures, arithmetic, point, clearance, CLAMP_SWEEPS as nat);
    clamping_is_judged(system, enclosures, arithmetic, point, clearance, CLAMP_SWEEPS as nat);
    no_clearance_is_zero(system, arithmetic, found.point, clearance);
    if let Some(landing) = projected(system, arithmetic, solving, point, point) {
        assert(lands_on(system, enclosures, arithmetic, solving, point, outcomes, landing.point));
        a_boundary_landing_is_clear(system, enclosures, semantics, landing.point, point, clearance);
        let there = stepped_from_boundary(system, enclosures, arithmetic, landing.point, point, clearance);
        if there is Some {
            assert(listed(there)[0] is Clear);
        }
    }
    let newton = listed(newton_stage(system, enclosures, arithmetic, solving, point, clearance));
    assert(all_clear(newton));
    if let Opening::Open { landings, start } = clamp_stage(system, enclosures, arithmetic, point, clearance) {
        let all = landings + newton;
        assert(all_clear(all));
        nothing_clear_is_cramped(system, arithmetic, all, point, clearance, all.len() as int);
    }
    if let Opening::Open { landings, start } = opening(system, enclosures, arithmetic, solving, point, clearance) {
        assert(all_clear(landings));
        let solved = stepped_from_solve(system, enclosures, arithmetic, outcomes.solved, point, clearance);
        if let Some(there) = outcomes.solved.feasible {
            assert(lands_on(system, enclosures, arithmetic, solving, point, outcomes, there));
        }
        solved_landings_are_clear(system, enclosures, semantics, outcomes.solved, point, clearance);
        if let Some(hit) = outcomes.hit {
            let chord = chord_of(system, enclosures, arithmetic, hit, point);
            assert(lands_on(system, enclosures, arithmetic, solving, point, outcomes, chord));
            a_boundary_landing_is_clear(
                system,
                enclosures,
                semantics,
                chord_of(system, enclosures, arithmetic, hit, point),
                point,
                clearance,
            );
        }
        let seen = boxed(system, enclosures, arithmetic, point, clearance, landings, outcomes);
        assert(all_clear(seen));
        nothing_clear_is_cramped(system, arithmetic, seen, point, clearance, seen.len() as int);
        let walked = walked_in(system, enclosures, arithmetic, point, clearance, outcomes);
        if let Some(there) = outcomes.walked.feasible {
            assert(lands_on(system, enclosures, arithmetic, solving, point, outcomes, there));
        }
        solved_landings_are_clear(system, enclosures, semantics, outcomes.walked, point, clearance);
        if let Some(reference) = outcomes.reference {
            let chord = chord_of(system, enclosures, arithmetic, reference, point);
            assert(lands_on(system, enclosures, arithmetic, solving, point, outcomes, chord));
            a_chord_lands_feasible(system, enclosures, arithmetic, reference, point);
            a_feasible_point_is_not_clamped(system, enclosures, semantics, chord, clearance);
        }
        assert(all_clear(walked));
        nothing_clear_is_cramped(system, arithmetic, walked, point, clearance, walked.len() as int);
    }
}

proof fn solved_landings_are_clear<E: Evaluate>(
    system: ConstraintSystem<E>,
    enclosures: Enclosures,
    semantics: Semantics,
    answer: Found,
    point: Seq<Real>,
    clearance: Real,
)
    requires
        system.well_formed(),
        answer.feasible matches Some(there) ==> is_relied_on(system, enclosures, semantics, there),
        is_plain(semantics),
        steps_nowhere(semantics.arithmetic),
        has_finite_widths(system, semantics.arithmetic),
        names_each_once(system),
        clearance.same(zero()),
    ensures
        all_clear(stepped_from_solve(system, enclosures, semantics.arithmetic, answer, point, clearance)),
{
    if let Some(landing) = answer.feasible {
        a_boundary_landing_is_clear(system, enclosures, semantics, landing, point, clearance);
    }
}

// ---- the same every time ----

/// Whether draws are a function of the generator and the ends: the number, and
/// how the generator is left.
pub open spec fn draws_are_steady<D: Fn(&Xoshiro256PlusPlus, Real, Real) -> (Real, Xoshiro256PlusPlus)>(draw: D) -> bool {
    forall|
        g: &Xoshiro256PlusPlus,
        h: &Xoshiro256PlusPlus,
        lo: Real,
        hi: Real,
        a: (Real, Xoshiro256PlusPlus),
        b: (Real, Xoshiro256PlusPlus),
    |
        #![trigger call_ensures(draw, (g, lo, hi), a), call_ensures(draw, (h, lo, hi), b)]
        call_ensures(draw, (g, lo, hi), a) && call_ensures(draw, (h, lo, hi), b) && words(*g) == words(*h) ==> a.0
            == b.0 && words(a.1) == words(b.1)
}

/// Whether every helper is a function of what it is asked with.
pub open spec fn helps_steadily<
    S: Fn(&Vec<Vec<Real>>, &Vec<Real>) -> (Vec<Real>, Vec<Real>),
    D: Fn(&Xoshiro256PlusPlus, Real, Real) -> (Real, Xoshiro256PlusPlus),
    R: Fn(&Projection, &Vec<Real>, u64) -> Projected,
    B: Fn(&Xoshiro256PlusPlus) -> (Real, Xoshiro256PlusPlus),
    F: Fn(&Seeding, &Vec<Real>, u64) -> Option<Point>,
>(helpers: Helpers<S, D, R, B, F>) -> bool {
    &&& draws_are_steady(helpers.draw)
    &&& projects_steadily(helpers.project)
    &&& units_are_steady(helpers.unit)
    &&& seeds_steadily(helpers.seed)
}

proof fn values_are_the_same<D: Fn(&Xoshiro256PlusPlus, Real, Real) -> (Real, Xoshiro256PlusPlus)>(
    arithmetic: Arithmetic,
    widths: Seq<Real>,
    point: Seq<Real>,
    draw: D,
    radius: Real,
    g: Xoshiro256PlusPlus,
    a: Seq<Real>,
    after_g: Xoshiro256PlusPlus,
    h: Xoshiro256PlusPlus,
    b: Seq<Real>,
    after_h: Xoshiro256PlusPlus,
)
    requires
        draws_are_steady(draw),
        words(g) == words(h),
        a.len() == b.len(),
        are_drawn(arithmetic, widths, point, draw, radius, g, a, after_g),
        are_drawn(arithmetic, widths, point, draw, radius, h, b, after_h),
    ensures
        a == b,
        words(after_g) == words(after_h),
    decreases a.len(),
{
    if a.len() > 0 {
        let k = a.len() - 1;
        let step = arithmetic.times(radius, widths[k]);
        let lo = arithmetic.minus(point[k], step);
        let hi = arithmetic.plus(point[k], step);
        let x = choose|between: Xoshiro256PlusPlus|
            are_drawn(arithmetic, widths, point, draw, radius, g, a.drop_last(), between) && #[trigger] call_ensures(
                draw,
                (&between, lo, hi),
                (a.last(), after_g),
            );
        let y = choose|between: Xoshiro256PlusPlus|
            are_drawn(arithmetic, widths, point, draw, radius, h, b.drop_last(), between) && #[trigger] call_ensures(
                draw,
                (&between, lo, hi),
                (b.last(), after_h),
            );
        values_are_the_same(arithmetic, widths, point, draw, radius, g, a.drop_last(), x, h, b.drop_last(), y);
        assert(call_ensures(draw, (&x, lo, hi), (a.last(), after_g)));
        assert(call_ensures(draw, (&y, lo, hi), (b.last(), after_h)));
        assert(a =~= a.drop_last().push(a.last()));
        assert(b =~= b.drop_last().push(b.last()));
    } else {
        assert(a =~= b);
    }
}

proof fn draws_are_the_same<D: Fn(&Xoshiro256PlusPlus, Real, Real) -> (Real, Xoshiro256PlusPlus)>(
    arithmetic: Arithmetic,
    widths: Seq<Real>,
    point: Seq<Real>,
    draw: D,
    radius: Real,
    g: Xoshiro256PlusPlus,
    a: Seq<Seq<Real>>,
    after_g: Xoshiro256PlusPlus,
    h: Xoshiro256PlusPlus,
    b: Seq<Seq<Real>>,
    after_h: Xoshiro256PlusPlus,
)
    requires
        draws_are_steady(draw),
        words(g) == words(h),
        a.len() == b.len(),
        are_draws(arithmetic, widths, point, draw, radius, g, a, after_g),
        are_draws(arithmetic, widths, point, draw, radius, h, b, after_h),
    ensures
        a == b,
        words(after_g) == words(after_h),
    decreases a.len(),
{
    if a.len() > 0 {
        let x = choose|between: Xoshiro256PlusPlus|
            are_draws(arithmetic, widths, point, draw, radius, g, a.drop_last(), between) && #[trigger] is_drawn(
                arithmetic,
                widths,
                point,
                draw,
                radius,
                between,
                a.last(),
                after_g,
            );
        let y = choose|between: Xoshiro256PlusPlus|
            are_draws(arithmetic, widths, point, draw, radius, h, b.drop_last(), between) && #[trigger] is_drawn(
                arithmetic,
                widths,
                point,
                draw,
                radius,
                between,
                b.last(),
                after_h,
            );
        draws_are_the_same(arithmetic, widths, point, draw, radius, g, a.drop_last(), x, h, b.drop_last(), y);
        values_are_the_same(arithmetic, widths, point, draw, radius, x, a.last(), after_g, y, b.last(), after_h);
        assert(a =~= a.drop_last().push(a.last()));
        assert(b =~= b.drop_last().push(b.last()));
    } else {
        assert(a =~= b);
    }
}

proof fn rounds_are_the_same<E: Evaluate, D: Fn(&Xoshiro256PlusPlus, Real, Real) -> (Real, Xoshiro256PlusPlus)>(
    system: ConstraintSystem<E>,
    enclosures: Enclosures,
    arithmetic: Arithmetic,
    point: Seq<Real>,
    clearance: Real,
    draw: D,
    g: Xoshiro256PlusPlus,
    a: Seq<Seq<Seq<Real>>>,
    after_g: Xoshiro256PlusPlus,
    h: Xoshiro256PlusPlus,
    b: Seq<Seq<Seq<Real>>>,
    after_h: Xoshiro256PlusPlus,
)
    requires
        draws_are_steady(draw),
        words(g) == words(h),
        a.len() == b.len(),
        are_rounds(system, enclosures, arithmetic, point, clearance, draw, g, a, after_g),
        are_rounds(system, enclosures, arithmetic, point, clearance, draw, h, b, after_h),
    ensures
        a == b,
        words(after_g) == words(after_h),
    decreases a.len(),
{
    if a.len() > 0 {
        let widths = widths_of(system, arithmetic);
        let first = a.drop_last();
        let second = b.drop_last();
        let radius = after_rounds(system, enclosures, arithmetic, point, clearance, first).radius;
        let other = after_rounds(system, enclosures, arithmetic, point, clearance, second).radius;
        let x = choose|between: Xoshiro256PlusPlus|
            are_rounds(system, enclosures, arithmetic, point, clearance, draw, g, first, between)
                && #[trigger] is_round(arithmetic, widths, point, draw, radius, between, a.last(), after_g);
        let y = choose|between: Xoshiro256PlusPlus|
            are_rounds(system, enclosures, arithmetic, point, clearance, draw, h, second, between)
                && #[trigger] is_round(arithmetic, widths, point, draw, other, between, b.last(), after_h);
        rounds_are_the_same(system, enclosures, arithmetic, point, clearance, draw, g, first, x, h, second, y);
        draws_are_the_same(arithmetic, widths, point, draw, radius, x, a.last(), after_g, y, b.last(), after_h);
        assert(a =~= first.push(a.last()));
        assert(b =~= second.push(b.last()));
    } else {
        assert(a =~= b);
    }
}

proof fn sampling_is_the_same<E: Evaluate, D: Fn(&Xoshiro256PlusPlus, Real, Real) -> (Real, Xoshiro256PlusPlus)>(
    system: ConstraintSystem<E>,
    enclosures: Enclosures,
    arithmetic: Arithmetic,
    point: Seq<Real>,
    clearance: Real,
    draw: D,
    first: Option<Seq<Real>>,
    second: Option<Seq<Real>>,
)
    requires
        draws_are_steady(draw),
        is_sampled(system, enclosures, arithmetic, point, clearance, draw, first),
        is_sampled(system, enclosures, arithmetic, point, clearance, draw, second),
    ensures
        first == second,
{
    let (g, a, x) = choose|before: Xoshiro256PlusPlus, rounds: Seq<Seq<Seq<Real>>>, after: Xoshiro256PlusPlus|
        {
            &&& #[trigger] are_rounds(system, enclosures, arithmetic, point, clearance, draw, before, rounds, after)
            &&& words(before) == expanded(SAMPLING_SEED)
            &&& rounds.len() == SAMPLING_ROUNDS
            &&& first == hit_of(after_rounds(system, enclosures, arithmetic, point, clearance, rounds).best)
        };
    let (h, b, y) = choose|before: Xoshiro256PlusPlus, rounds: Seq<Seq<Seq<Real>>>, after: Xoshiro256PlusPlus|
        {
            &&& #[trigger] are_rounds(system, enclosures, arithmetic, point, clearance, draw, before, rounds, after)
            &&& words(before) == expanded(SAMPLING_SEED)
            &&& rounds.len() == SAMPLING_ROUNDS
            &&& second == hit_of(after_rounds(system, enclosures, arithmetic, point, clearance, rounds).best)
        };
    rounds_are_the_same(system, enclosures, arithmetic, point, clearance, draw, g, a, x, h, b, y);
}

proof fn solving_is_the_same<E: Evaluate, M: Machine, R: Fn(&Projection, &Vec<Real>, u64) -> Projected>(
    system: ConstraintSystem<E>,
    machine: M,
    run: R,
    from: Seq<Real>,
    point: Seq<Real>,
    clearance: Real,
    first: Found,
    second: Found,
)
    requires
        deterministic(machine),
        projects_steadily(run),
        is_solved(system, machine, run, from, point, clearance, first),
        is_solved(system, machine, run, from, point, clearance, second),
    ensures
        first == second,
{
    let a = choose|answer: Projected| #[trigger]
        is_nearest(system, machine, run, from, point, clearance, answer) && found_of(answer) == first;
    let b = choose|answer: Projected| #[trigger]
        is_nearest(system, machine, run, from, point, clearance, answer) && found_of(answer) == second;
    a_projection_is_the_same_every_time(system, machine, run, from, point, clearance, a, b);
}

proof fn reference_is_the_same<
    E: Evaluate,
    M: Machine,
    B: Fn(&Xoshiro256PlusPlus) -> (Real, Xoshiro256PlusPlus),
    F: Fn(&Seeding, &Vec<Real>, u64) -> Option<Point>,
>(
    system: ConstraintSystem<E>,
    machine: M,
    unit: B,
    seed: F,
    first: Option<Seq<Real>>,
    second: Option<Seq<Real>>,
)
    requires
        deterministic(machine),
        units_are_steady(unit),
        seeds_steadily(seed),
        is_reference(system, machine, unit, seed, first),
        is_reference(system, machine, unit, seed, second),
    ensures
        first == second,
{
    if system.variables@.len() > 0 {
        let bounds = ranges(system.variables@);
        let (g, x) = choose|before: Xoshiro256PlusPlus, after: Xoshiro256PlusPlus|
            {
                &&& #[trigger] is_found(system, machine, bounds, STARTS as int, unit, seed, before, first, after)
                &&& words(before) == expanded(REFERENCE_SEED)
            };
        let (h, y) = choose|before: Xoshiro256PlusPlus, after: Xoshiro256PlusPlus|
            {
                &&& #[trigger] is_found(system, machine, bounds, STARTS as int, unit, seed, before, second, after)
                &&& words(before) == expanded(REFERENCE_SEED)
            };
        a_seed_is_the_same_every_time(
            system,
            machine,
            bounds,
            STARTS as int,
            unit,
            seed,
            g,
            first,
            x,
            h,
            second,
            y,
        );
    }
}

/// Whether two results are the same answer.
pub open spec fn are_same(a: Result<Point, RepairError>, b: Result<Point, RepairError>) -> bool {
    match (a, b) {
        (Ok(x), Ok(y)) => x@ == y@,
        (
            Err(RepairError::Cramped { nearest: x, clearance: c }),
            Err(RepairError::Cramped { nearest: y, clearance: d }),
        ) => x@ == y@ && c == d,
        (Err(RepairError::Stranded), Err(RepairError::Stranded)) => true,
        _ => false,
    }
}

proof fn outcomes_decide_alike<
    E: Evaluate,
    I: Intervals,
    M: Machine,
    S: Fn(&Vec<Vec<Real>>, &Vec<Real>) -> (Vec<Real>, Vec<Real>),
    D: Fn(&Xoshiro256PlusPlus, Real, Real) -> (Real, Xoshiro256PlusPlus),
    R: Fn(&Projection, &Vec<Real>, u64) -> Projected,
    B: Fn(&Xoshiro256PlusPlus) -> (Real, Xoshiro256PlusPlus),
    F: Fn(&Seeding, &Vec<Real>, u64) -> Option<Point>,
>(
    system: ConstraintSystem<E>,
    intervals: I,
    machine: M,
    helpers: Helpers<S, D, R, B, F>,
    point: Seq<Real>,
    clearance: Real,
    first: Outcomes,
    second: Outcomes,
)
    requires
        deterministic(machine),
        helps_steadily(helpers),
        are_outcomes(system, intervals, machine, helpers, point, clearance, first),
        are_outcomes(system, intervals, machine, helpers, point, clearance, second),
    ensures
        repaired_by(system, intervals, machine, helpers, point, clearance, first) == repaired_by(
            system,
            intervals,
            machine,
            helpers,
            point,
            clearance,
            second,
        ),
{
    let enclosures = enclosures_of(intervals);
    let arithmetic = arithmetic_of(machine);
    let solving = solving_of(helpers.solve);
    if let Opening::Open { landings, start } = opening(system, enclosures, arithmetic, solving, point, clearance) {
        sampling_is_the_same(
            system,
            enclosures,
            arithmetic,
            point,
            clearance,
            helpers.draw,
            first.hit,
            second.hit,
        );
        if is_solve_due(system, first.hit) {
            solving_is_the_same(
                system,
                machine,
                helpers.project,
                start,
                point,
                clearance,
                first.solved,
                second.solved,
            );
        }
        let seen = boxed(system, enclosures, arithmetic, point, clearance, landings, first);
        assert(seen == boxed(system, enclosures, arithmetic, point, clearance, landings, second));
        if seen.len() == 0 {
            reference_is_the_same(
                system,
                machine,
                helpers.unit,
                helpers.seed,
                first.reference,
                second.reference,
            );
            if let Some(reference) = first.reference {
                solving_is_the_same(
                    system,
                    machine,
                    helpers.project,
                    chord_of(system, enclosures, arithmetic, reference, point),
                    point,
                    clearance,
                    first.walked,
                    second.walked,
                );
            }
        }
    }
}

/// A repair is the same every time: its generators have seeds of their own, so
/// that where the draws are a function of the generator and the solves of what
/// they are asked with, two repairs of one point with one clearance come to one
/// answer.
pub proof fn a_repair_is_the_same_every_time<
    E: Evaluate,
    I: Intervals,
    M: Machine,
    S: Fn(&Vec<Vec<Real>>, &Vec<Real>) -> (Vec<Real>, Vec<Real>),
    D: Fn(&Xoshiro256PlusPlus, Real, Real) -> (Real, Xoshiro256PlusPlus),
    R: Fn(&Projection, &Vec<Real>, u64) -> Projected,
    B: Fn(&Xoshiro256PlusPlus) -> (Real, Xoshiro256PlusPlus),
    F: Fn(&Seeding, &Vec<Real>, u64) -> Option<Point>,
>(
    system: ConstraintSystem<E>,
    intervals: I,
    machine: M,
    helpers: Helpers<S, D, R, B, F>,
    point: Seq<Real>,
    clearance: Real,
    first: Outcomes,
    second: Outcomes,
    a: Result<Point, RepairError>,
    b: Result<Point, RepairError>,
)
    requires
        deterministic(machine),
        helps_steadily(helpers),
        are_outcomes(system, intervals, machine, helpers, point, clearance, first),
        are_outcomes(system, intervals, machine, helpers, point, clearance, second),
        is_answer(a, clearance, repaired_by(system, intervals, machine, helpers, point, clearance, first)),
        is_answer(b, clearance, repaired_by(system, intervals, machine, helpers, point, clearance, second)),
    ensures
        repaired_by(system, intervals, machine, helpers, point, clearance, first) == repaired_by(
            system,
            intervals,
            machine,
            helpers,
            point,
            clearance,
            second,
        ),
        are_same(a, b),
{
    outcomes_decide_alike(system, intervals, machine, helpers, point, clearance, first, second);
}

/// What a repair comes to with these helpers, given what they answered.
pub open spec fn repaired_by<
    E: Evaluate,
    I: Intervals,
    M: Machine,
    S: Fn(&Vec<Vec<Real>>, &Vec<Real>) -> (Vec<Real>, Vec<Real>),
    D: Fn(&Xoshiro256PlusPlus, Real, Real) -> (Real, Xoshiro256PlusPlus),
    R: Fn(&Projection, &Vec<Real>, u64) -> Projected,
    B: Fn(&Xoshiro256PlusPlus) -> (Real, Xoshiro256PlusPlus),
    F: Fn(&Seeding, &Vec<Real>, u64) -> Option<Point>,
>(
    system: ConstraintSystem<E>,
    intervals: I,
    machine: M,
    helpers: Helpers<S, D, R, B, F>,
    point: Seq<Real>,
    clearance: Real,
    outcomes: Outcomes,
) -> Repaired {
    repaired(
        system,
        enclosures_of(intervals),
        arithmetic_of(machine),
        solving_of(helpers.solve),
        point,
        clearance,
        outcomes,
    )
}

/// What a repair comes to with these helpers, whatever they answered: the one
/// answer there is where each is a function of what it is asked with.
pub open spec fn the_repair<
    E: Evaluate,
    I: Intervals,
    M: Machine,
    S: Fn(&Vec<Vec<Real>>, &Vec<Real>) -> (Vec<Real>, Vec<Real>),
    D: Fn(&Xoshiro256PlusPlus, Real, Real) -> (Real, Xoshiro256PlusPlus),
    R: Fn(&Projection, &Vec<Real>, u64) -> Projected,
    B: Fn(&Xoshiro256PlusPlus) -> (Real, Xoshiro256PlusPlus),
    F: Fn(&Seeding, &Vec<Real>, u64) -> Option<Point>,
>(
    system: ConstraintSystem<E>,
    intervals: I,
    machine: M,
    helpers: Helpers<S, D, R, B, F>,
    point: Seq<Real>,
    clearance: Real,
) -> Repaired {
    repaired_by(
        system,
        intervals,
        machine,
        helpers,
        point,
        clearance,
        choose|outcomes: Outcomes| #[trigger]
            are_outcomes(system, intervals, machine, helpers, point, clearance, outcomes),
    )
}

proof fn the_repair_is_one<
    E: Evaluate,
    I: Intervals,
    M: Machine,
    S: Fn(&Vec<Vec<Real>>, &Vec<Real>) -> (Vec<Real>, Vec<Real>),
    D: Fn(&Xoshiro256PlusPlus, Real, Real) -> (Real, Xoshiro256PlusPlus),
    R: Fn(&Projection, &Vec<Real>, u64) -> Projected,
    B: Fn(&Xoshiro256PlusPlus) -> (Real, Xoshiro256PlusPlus),
    F: Fn(&Seeding, &Vec<Real>, u64) -> Option<Point>,
>(
    system: ConstraintSystem<E>,
    intervals: I,
    machine: M,
    helpers: Helpers<S, D, R, B, F>,
    point: Seq<Real>,
    clearance: Real,
    outcomes: Outcomes,
)
    ensures
        deterministic(machine) && helps_steadily(helpers) && are_outcomes(
            system,
            intervals,
            machine,
            helpers,
            point,
            clearance,
            outcomes,
        ) ==> repaired_by(system, intervals, machine, helpers, point, clearance, outcomes) == the_repair(
            system,
            intervals,
            machine,
            helpers,
            point,
            clearance,
        ),
{
    if deterministic(machine) && helps_steadily(helpers) && are_outcomes(
        system,
        intervals,
        machine,
        helpers,
        point,
        clearance,
        outcomes,
    ) {
        let other = choose|outcomes: Outcomes| #[trigger]
            are_outcomes(system, intervals, machine, helpers, point, clearance, outcomes);
        outcomes_decide_alike(system, intervals, machine, helpers, point, clearance, outcomes, other);
    }
}

// ---- the nearest ----

proof fn a_lone_slice_is_the_same<E>(
    system: ConstraintSystem<E>,
    enclosures: Enclosures,
    a: Seq<Real>,
    b: Seq<Real>,
    k: int,
    upto: int,
)
    requires
        system.well_formed(),
        0 <= k < system.variables@.len(),
        is_named_alone(system, k),
        0 <= upto <= system.incidence.naming@[k]@.len(),
    ensures
        sliced(system, enclosures, a, k, None, upto) == sliced(system, enclosures, b, k, None, upto),
    decreases upto,
{
    if upto > 0 {
        a_lone_slice_is_the_same(system, enclosures, a, b, k, upto - 1);
        let before = sliced(system, enclosures, a, k, None, upto - 1);
        let list = system.incidence.naming@[k]@;
        let id = list[upto - 1] as int;
        assert(integers(list)[upto - 1] == id);
        naming_lists_who_names(
            system.incidence,
            system.constraints@.len() as int,
            system.variables@.len() as int,
            k,
            id,
        );
        let rows = system.incidence.rows@[id]@;
        assert(rows.len() == 1);
        let there = choose|j: int| 0 <= j < integers(rows).len() && integers(rows)[j] == k;
        assert(rows[0] == k);
        first_row_is(rows, k, 0);
        assert(conditions(rows, a, 0, before) =~= conditions(rows, b, 0, before));
    }
}

/// A coordinate that no constraint ties to another goes to the feasible place
/// nearest to it: with no clearance asked for, where its clamp wants it lies between
/// where it is and where it is at any feasible point, whatever that point is
/// elsewhere.
pub proof fn a_lone_clamp_is_the_projection<E: Evaluate>(
    system: ConstraintSystem<E>,
    enclosures: Enclosures,
    semantics: Semantics,
    point: Seq<Real>,
    clearance: Real,
    other: Seq<Real>,
    k: int,
)
    requires
        system.well_formed(),
        is_relied_on(system, enclosures, semantics, other),
        is_plain(semantics),
        steps_nowhere(semantics.arithmetic),
        has_finite_widths(system, semantics.arithmetic),
        names_each_once(system),
        clearance.same(zero()),
        system.feasible(semantics.arithmetic, other, zero()),
        system.fits(point),
        0 <= k < point.len(),
        !point[k].nan(),
        is_named_alone(system, k),
    ensures
        match clamp_of(system, enclosures, semantics.arithmetic, point, clearance, k) {
            Some(found) => is_between(point[k], found.target, other[k]),
            None => slice_of(system, enclosures, point, k, None).has_value(point[k]),
        },
{
    let arithmetic = semantics.arithmetic;
    clearance_asks_for_more(system, arithmetic, other, zero());
    assert forall|j: int| 0 <= j < other.len() implies !(#[trigger] other[j]).nan() by {
        assert(system.variables@[j].range().has_value(other[j]));
    }
    assert(other.update(k, other[k]) =~= other);
    assert(system.variables@[k].range().has_value(other[k]));
    assert forall|c: int| 0 <= c < system.constraints@.len() implies #[trigger] tape_holds(
        system,
        semantics,
        c,
        other.update(k, other[k]),
    ) && system.incidence.rows@[c]@.no_duplicates() by {
        assert(crate::system::passes(system.judge(c), other));
        assert(system.incidence.rows@[c]@.no_duplicates());
    }
    a_slice_has_every_solution(system, enclosures, semantics, other, k, None, other[k]);
    a_lone_slice_is_the_same(system, enclosures, other, point, k, system.incidence.naming@[k]@.len() as int);
    let slice = slice_of(system, enclosures, point, k, None);
    let width = system.variables@[k].extent(arithmetic);
    assert(system.variables@[k].extent(arithmetic).finite());
    let step = arithmetic.times(clearance, width);
    assert(arithmetic.plus(slice.lo, step).same(slice.lo));
    assert(arithmetic.plus(slice.hi, step).same(slice.hi));
    assert(arithmetic.minus(slice.hi, step).same(slice.hi));
    crate::clamping::the_target_is_the_nearest(arithmetic, slice, point[k], clearance, width, other[k]);
}

/// Where the moved coordinates are separable the axis move is the projection: with
/// no clearance asked for, where one sweep of clamps lands and nothing that moved is
/// tied to anything else, every coordinate of the repair is where it was or where
/// its clamp wants it, and that lies between where it was and where it is at any
/// feasible point.
pub proof fn a_separable_repair_is_the_projection<E: Evaluate>(
    system: ConstraintSystem<E>,
    enclosures: Enclosures,
    semantics: Semantics,
    solving: Solving,
    point: Seq<Real>,
    clearance: Real,
    outcomes: Outcomes,
    other: Seq<Real>,
    k: int,
)
    requires
        system.well_formed(),
        is_relied_on(system, enclosures, semantics, other),
        is_plain(semantics),
        steps_nowhere(semantics.arithmetic),
        has_finite_widths(system, semantics.arithmetic),
        names_each_once(system),
        clearance.same(zero()),
        system.feasible(semantics.arithmetic, other, zero()),
        system.fits(point),
        0 <= k < point.len(),
        !point[k].nan(),
        is_local(system),
        ({
            let list = turns_of(system, enclosures, semantics.arithmetic, point, clearance);
            let landed = swept_from(system, semantics.arithmetic, point, list, clearance, 0);
            landed.clear && is_separable(system, point, landed.point)
        }),
    ensures
        ({
            let answer = repaired(system, enclosures, semantics.arithmetic, solving, point, clearance, outcomes);
            &&& answer is Clear
            &&& answer->Clear_0[k].same(point[k]) || exists|target: Real|
                is_between(point[k], target, other[k]) && #[trigger] is_landing(
                    semantics.arithmetic,
                    point[k],
                    target,
                    system.variables@[k].extent(semantics.arithmetic),
                    answer->Clear_0[k],
                )
        }),
{
    let arithmetic = semantics.arithmetic;
    let list = turns_of(system, enclosures, arithmetic, point, clearance);
    let landed = swept_from(system, arithmetic, point, list, clearance, 0);
    let all = clamps_below(system, enclosures, arithmetic, point, clearance, point.len() as int);
    let answer = repaired(system, enclosures, arithmetic, solving, point, clearance, outcomes);
    let found = swept(system, enclosures, arithmetic, point, clearance, CLAMP_SWEEPS as nat);
    every_clamp_is_listed(system, enclosures, arithmetic, point, clearance, point.len() as int);
    the_turns_are_the_clamps(all);
    assert(are_of(list, point.len() as int)) by {
        assert forall|i: int| 0 <= i < list.len() implies (#[trigger] list[i]).coordinate < point.len() by {
            let j = choose|j: int| 0 <= j < all.len() && all[j] == list[i];
        }
    }
    assert(list.len() > 0);
    assert(found == landed);
    if system.feasible(arithmetic, point, clearance) {
        assert(answer == Repaired::Clear(point));
    } else {
        let back = released(system, arithmetic, found.point, point, clearance, found.point.len() as int);
        assert(answer == Repaired::Clear(back));
        a_sweep_lands_where_its_clamps_want(system, arithmetic, point, point, list, clearance, 0, k);
        releasing_keeps_the_clearance(system, arithmetic, found.point, point, clearance, found.point.len() as int);
        assert(back[k] == found.point[k] || back[k] == point[k]);
        if !back[k].same(point[k]) {
            assert(back[k] == found.point[k]);
            assert(is_named_alone(system, k));
            let i = choose|i: int|
                0 <= i < list.len() && (#[trigger] list[i]).coordinate == k && is_landing(
                    arithmetic,
                    point[k],
                    list[i].target,
                    system.variables@[k].extent(arithmetic),
                    landed.point[k],
                );
            let j = choose|j: int| 0 <= j < all.len() && all[j] == list[i];
            assert(clamp_of(system, enclosures, arithmetic, point, clearance, all[j].coordinate as int) == Some(all[j]));
            a_lone_clamp_is_the_projection(system, enclosures, semantics, point, clearance, other, k);
            assert(is_landing(
                arithmetic,
                point[k],
                list[i].target,
                system.variables@[k].extent(arithmetic),
                back[k],
            ));
        }
    }
}

proof fn the_turns_are_the_clamps(all: Seq<Clamp>)
    requires
        forall|i: int, j: int| 0 <= i < j < all.len() ==> all[i].coordinate < all[j].coordinate,
    ensures
        forall|i: int|
            0 <= i < in_turn(all, all.len() as int).len() ==> all.contains(#[trigger] in_turn(all, all.len() as int)[i]),
        are_apart(in_turn(all, all.len() as int)),
{
    broadcast use vstd::seq_lib::group_to_multiset_ensures;

    let list = in_turn(all, all.len() as int);
    the_cheapest_goes_first(all, all.len() as int);
    assert(all.take(all.len() as int) =~= all);
    assert forall|i: int| 0 <= i < list.len() implies all.contains(#[trigger] list[i]) by {
        assert(list.contains(list[i]));
        assert(list.to_multiset().count(list[i]) > 0);
    }
    assert(all.no_duplicates());
    all.lemma_multiset_has_no_duplicates();
    list.lemma_multiset_has_no_duplicates_conv();
    assert forall|i: int, j: int| 0 <= i < j < list.len() implies (#[trigger] list[i]).coordinate != (
    #[trigger] list[j]).coordinate by {
        let a = choose|a: int| 0 <= a < all.len() && all[a] == list[i];
        let b = choose|b: int| 0 <= b < all.len() && all[b] == list[j];
        assert(all.contains(list[i]) && all.contains(list[j]));
        assert(list[i] != list[j]);
        assert(a != b);
    }
}

/// The sum of the squares of the first gaps between two points, each as a part of
/// its width; a coordinate without width has none.
pub open spec fn squares(widths: Seq<Real>, a: Seq<Real>, b: Seq<Real>, upto: int) -> real
    decreases upto,
{
    if upto <= 0 {
        0real
    } else {
        let part = (quantity(a[upto - 1]) - quantity(b[upto - 1])) / quantity(widths[upto - 1]);
        squares(widths, a, b, upto - 1) + if zero().below(widths[upto - 1]) {
            part * part
        } else {
            0real
        }
    }
}

/// Whether every answer a distance asks for along a coordinate is exact.
pub open spec fn is_measured_along(arithmetic: Arithmetic, widths: Seq<Real>, a: Seq<Real>, b: Seq<Real>, k: int) -> bool {
    let gap = arithmetic.minus(a[k], b[k]);
    let part = arithmetic.over(gap, widths[k]);
    let sum = gaps(arithmetic, widths, a, b, k);
    if zero().below(widths[k]) {
        &&& subtracts_exactly(arithmetic, a[k], b[k])
        &&& divides_exactly(arithmetic, gap, widths[k])
        &&& multiplies_exactly(arithmetic, part, part)
        &&& adds_exactly(arithmetic, sum, arithmetic.times(part, part))
    } else {
        adds_exactly(arithmetic, sum, zero())
    }
}

/// A distance is Euclidean, over coordinates counted in widths of the box: where the
/// answers are exact, what its root is taken of is the sum of the squares of the
/// gaps, each as a part of its width.
pub proof fn a_distance_is_euclidean(
    arithmetic: Arithmetic,
    widths: Seq<Real>,
    a: Seq<Real>,
    b: Seq<Real>,
    upto: int,
)
    requires
        0 <= upto <= a.len(),
        forall|k: int| 0 <= k < upto ==> #[trigger] is_measured_along(arithmetic, widths, a, b, k),
    ensures
        quantity(gaps(arithmetic, widths, a, b, upto)) == squares(widths, a, b, upto),
        upto == a.len() ==> distance_of(arithmetic, widths, a, b) == (arithmetic.call)(
            Function::Sqrt,
            gaps(arithmetic, widths, a, b, upto),
        ),
    decreases upto,
{
    signs_are_exact(zero());
    if upto > 0 {
        a_distance_is_euclidean(arithmetic, widths, a, b, upto - 1);
        assert(is_measured_along(arithmetic, widths, a, b, upto - 1));
    }
}

/// A chord is the segment: where the answers are exact, the point at a part of the
/// way is that part of the way from the reference to the point, on every coordinate.
pub proof fn a_chord_is_straight(
    arithmetic: Arithmetic,
    reference: Seq<Real>,
    point: Seq<Real>,
    at: Real,
    k: int,
)
    requires
        0 <= k < reference.len(),
        subtracts_exactly(arithmetic, point[k], reference[k]),
        multiplies_exactly(arithmetic, at, arithmetic.minus(point[k], reference[k])),
        adds_exactly(arithmetic, reference[k], arithmetic.times(at, arithmetic.minus(point[k], reference[k]))),
    ensures
        quantity(between(arithmetic, reference, point, at)[k]) == quantity(reference[k]) + quantity(at) * (quantity(
            point[k],
        ) - quantity(reference[k])),
{
}

/// A chord ends on the segment: where it lands is the reference, or a place between
/// the two ends with the driven coordinates settled; and it goes on towards the
/// point wherever the place in the middle is feasible.
pub proof fn a_chord_goes_as_far_as_it_can<E: Evaluate>(
    system: ConstraintSystem<E>,
    enclosures: Enclosures,
    arithmetic: Arithmetic,
    reference: Seq<Real>,
    point: Seq<Real>,
    held: Seq<Real>,
    lower: Real,
    upper: Real,
    left: nat,
)
    requires
        lower.finite(),
        upper.finite(),
        forall|a: Real, b: Real|
            a.finite() && b.finite() ==> !(#[trigger] arithmetic.times(half(), arithmetic.plus(a, b))).nan(),
    ensures
        ({
            let end = chorded(system, enclosures, arithmetic, reference, point, held, lower, upper, left);
            let middle = arithmetic.times(half(), arithmetic.plus(lower, upper));
            let probe = settled_point(system, enclosures, arithmetic, between(arithmetic, reference, point, middle));
            &&& end == held || exists|at: Real|
                lower.below(at) && at.below(upper) && end == #[trigger] settled_point(
                    system,
                    enclosures,
                    arithmetic,
                    between(arithmetic, reference, point, at),
                )
            &&& left > 0 && lower.below(middle) && middle.below(upper) && system.feasible(arithmetic, probe, zero())
                ==> end == chorded(
                system,
                enclosures,
                arithmetic,
                reference,
                point,
                probe,
                middle,
                upper,
                (left - 1) as nat,
            )
        }),
    decreases left,
{
    let end = chorded(system, enclosures, arithmetic, reference, point, held, lower, upper, left);
    let middle = arithmetic.times(half(), arithmetic.plus(lower, upper));
    assert(!middle.nan());
    if left > 0 && !middle.at_most(lower) && !upper.at_most(middle) {
        let probe = settled_point(system, enclosures, arithmetic, between(arithmetic, reference, point, middle));
        if system.feasible(arithmetic, probe, zero()) {
            a_chord_goes_as_far_as_it_can(
                system,
                enclosures,
                arithmetic,
                reference,
                point,
                probe,
                middle,
                upper,
                (left - 1) as nat,
            );
        } else {
            a_chord_goes_as_far_as_it_can(
                system,
                enclosures,
                arithmetic,
                reference,
                point,
                held,
                lower,
                middle,
                (left - 1) as nat,
            );
        }
        if end != held {
            if end == probe {
                assert(end == settled_point(
                    system,
                    enclosures,
                    arithmetic,
                    between(arithmetic, reference, point, middle),
                ));
            } else {
                let at = choose|at: Real|
                    lower.below(at) && at.below(upper) && end == #[trigger] settled_point(
                        system,
                        enclosures,
                        arithmetic,
                        between(arithmetic, reference, point, at),
                    );
            }
        }
    }
}

// ---- what a climb, a draw and a stage come to ----

/// A rung after so many doublings.
pub open spec fn doubled(arithmetic: Arithmetic, rung: Real, times: nat) -> Real
    decreases times,
{
    if times == 0 {
        rung
    } else {
        doubled(arithmetic, arithmetic.times(rung, two()), (times - 1) as nat)
    }
}

/// Whether a rung and its first doublings are all less than a whole box.
pub open spec fn are_within(arithmetic: Arithmetic, rung: Real, times: nat) -> bool
    decreases times,
{
    rung.below(one()) && (times == 0 || are_within(arithmetic, arithmetic.times(rung, two()), (times - 1) as nat))
}

/// A landing moved inward by so much, its driven coordinates settled.
pub open spec fn moved_inward<E>(
    system: ConstraintSystem<E>,
    enclosures: Enclosures,
    arithmetic: Arithmetic,
    landing: Seq<Real>,
    inward: Seq<Real>,
    by: Real,
) -> Seq<Real> {
    settled_point(system, enclosures, arithmetic, shifted(arithmetic, landing, inward, by))
}

/// Whether a landing has the clearance after so many doublings of a rung.
pub open spec fn clears_at<E: Evaluate>(
    system: ConstraintSystem<E>,
    enclosures: Enclosures,
    arithmetic: Arithmetic,
    landing: Seq<Real>,
    inward: Seq<Real>,
    clearance: Real,
    rung: Real,
    times: nat,
) -> bool {
    are_within(arithmetic, rung, times) && system.feasible(
        arithmetic,
        moved_inward(system, enclosures, arithmetic, landing, inward, doubled(arithmetic, rung, times)),
        clearance,
    )
}

/// A climb stops at the first doubling that has the clearance, and stops nowhere
/// only where none has it.
pub proof fn a_climb_stops_at_the_first_that_clears<E: Evaluate>(
    system: ConstraintSystem<E>,
    enclosures: Enclosures,
    arithmetic: Arithmetic,
    landing: Seq<Real>,
    inward: Seq<Real>,
    clearance: Real,
    rung: Real,
    left: nat,
)
    ensures
        climbed(system, enclosures, arithmetic, landing, inward, clearance, rung, left) matches Some(end)
            ==> exists|n: nat|
            n < left && #[trigger] clears_at(system, enclosures, arithmetic, landing, inward, clearance, rung, n)
                && end == moved_inward(
                system,
                enclosures,
                arithmetic,
                landing,
                inward,
                doubled(arithmetic, rung, n),
            ) && forall|m: nat|
                m < n ==> !#[trigger] clears_at(
                    system,
                    enclosures,
                    arithmetic,
                    landing,
                    inward,
                    clearance,
                    rung,
                    m,
                ),
        climbed(system, enclosures, arithmetic, landing, inward, clearance, rung, left) is None ==> forall|n: nat|
            n < left ==> !#[trigger] clears_at(
                system,
                enclosures,
                arithmetic,
                landing,
                inward,
                clearance,
                rung,
                n,
            ),
    decreases left,
{
    let next = arithmetic.times(rung, two());
    assert forall|n: nat|
        n > 0 implies #[trigger] clears_at(system, enclosures, arithmetic, landing, inward, clearance, rung, n) == (
    rung.below(one()) && clears_at(
        system,
        enclosures,
        arithmetic,
        landing,
        inward,
        clearance,
        next,
        (n - 1) as nat,
    )) by {
        assert(doubled(arithmetic, rung, n) == doubled(arithmetic, next, (n - 1) as nat));
    }
    assert(doubled(arithmetic, rung, 0) == rung);
    if left > 0 && rung.below(one()) {
        let here = clears_at(system, enclosures, arithmetic, landing, inward, clearance, rung, 0);
        if !here {
            a_climb_stops_at_the_first_that_clears(
                system,
                enclosures,
                arithmetic,
                landing,
                inward,
                clearance,
                next,
                (left - 1) as nat,
            );
            let later = climbed(
                system,
                enclosures,
                arithmetic,
                landing,
                inward,
                clearance,
                next,
                (left - 1) as nat,
            );
            assert(climbed(system, enclosures, arithmetic, landing, inward, clearance, rung, left) == later);
            if later is Some {
                let n = choose|n: nat|
                    n < left - 1 && #[trigger] clears_at(
                        system,
                        enclosures,
                        arithmetic,
                        landing,
                        inward,
                        clearance,
                        next,
                        n,
                    ) && later->0 == moved_inward(
                        system,
                        enclosures,
                        arithmetic,
                        landing,
                        inward,
                        doubled(arithmetic, next, n),
                    ) && forall|m: nat|
                        m < n ==> !#[trigger] clears_at(
                            system,
                            enclosures,
                            arithmetic,
                            landing,
                            inward,
                            clearance,
                            next,
                            m,
                        );
                assert(clears_at(system, enclosures, arithmetic, landing, inward, clearance, rung, n + 1));
                assert(doubled(arithmetic, rung, n + 1) == doubled(arithmetic, next, n));
            }
        }
    } else if left > 0 {
        assert forall|n: nat| n < left implies !#[trigger] clears_at(
            system,
            enclosures,
            arithmetic,
            landing,
            inward,
            clearance,
            rung,
            n,
        ) by {
            assert(!are_within(arithmetic, rung, n));
        }
    }
}

/// Stepping off a wall starts as far in as the clearance asks: where the answer is
/// exact, the first rung is as many lengths of the way inward as come to the
/// clearance, or to an ulp's worth of the box where less was asked for.
pub proof fn a_step_inside_starts_at_the_clearance<E: Evaluate>(
    system: ConstraintSystem<E>,
    enclosures: Enclosures,
    arithmetic: Arithmetic,
    landing: Seq<Real>,
    inward: Seq<Real>,
    clearance: Real,
)
    requires
        clearance.finite(),
        backed(system, enclosures, arithmetic, landing, inward, clearance) is Some,
        divides_exactly(
            arithmetic,
            clearance.upper(epsilon()),
            distance_of(arithmetic, widths_of(system, arithmetic), inward, flat(inward.len())),
        ),
    ensures
        exists|first: Real, n: nat| #[trigger]
            clears_at(system, enclosures, arithmetic, landing, inward, clearance, first, n) && backed(
                system,
                enclosures,
                arithmetic,
                landing,
                inward,
                clearance,
            )->0 == moved_inward(system, enclosures, arithmetic, landing, inward, doubled(arithmetic, first, n))
                && quantity(first) * quantity(
                distance_of(arithmetic, widths_of(system, arithmetic), inward, flat(inward.len())),
            ) == (if quantity(clearance) < quantity(epsilon()) {
                quantity(epsilon())
            } else {
                quantity(clearance)
            }),
{
    let length = distance_of(arithmetic, widths_of(system, arithmetic), inward, flat(inward.len()));
    let asked = clearance.upper(epsilon());
    let first = arithmetic.over(asked, length);
    assert(epsilon().finite());
    an_order_of_quantities(clearance, epsilon());
    an_order_of_quantities(epsilon(), clearance);
    a_climb_stops_at_the_first_that_clears(
        system,
        enclosures,
        arithmetic,
        landing,
        inward,
        clearance,
        first,
        RUNGS as nat,
    );
    let a = quantity(asked);
    let b = quantity(length);
    assert((a / b) * b == a) by (nonlinear_arith)
        requires
            b != 0real,
    ;
}

/// Whether a draw hits: what is made of it has the clearance.
pub open spec fn is_hit<E: Evaluate>(
    system: ConstraintSystem<E>,
    enclosures: Enclosures,
    arithmetic: Arithmetic,
    clearance: Real,
    draw: Seq<Real>,
) -> bool {
    system.feasible(arithmetic, candidate_of(system, enclosures, arithmetic, draw), clearance)
}

/// How far what is made of a draw is from the point.
pub open spec fn miss<E>(
    system: ConstraintSystem<E>,
    enclosures: Enclosures,
    arithmetic: Arithmetic,
    point: Seq<Real>,
    draw: Seq<Real>,
) -> Real {
    distance_of(
        arithmetic,
        widths_of(system, arithmetic),
        candidate_of(system, enclosures, arithmetic, draw),
        point,
    )
}

/// The sampling box keeps the nearest hit: of draws whose distances are numbers, no
/// hit is nearer than what is kept, nor was what was kept before; what is kept is one
/// of them; and a round has had a hit exactly where a draw was one.
pub proof fn the_sampling_box_keeps_the_nearest<E: Evaluate>(
    system: ConstraintSystem<E>,
    enclosures: Enclosures,
    arithmetic: Arithmetic,
    point: Seq<Real>,
    clearance: Real,
    state: Sampling,
    draws: Seq<Seq<Real>>,
)
    requires
        state.best matches Some(pair) ==> !pair.0.nan(),
        forall|i: int|
            0 <= i < draws.len() ==> !miss(system, enclosures, arithmetic, point, #[trigger] draws[i]).nan(),
    ensures
        ({
            let after = round_so_far(system, enclosures, arithmetic, point, clearance, state, draws);
            &&& after.radius == state.radius
            &&& after.found <==> state.found || exists|i: int|
                0 <= i < draws.len() && is_hit(system, enclosures, arithmetic, clearance, #[trigger] draws[i])
            &&& after.best matches Some(pair) ==> !pair.0.nan()
            &&& after.best == state.best || exists|i: int|
                0 <= i < draws.len() && is_hit(system, enclosures, arithmetic, clearance, #[trigger] draws[i])
                    && after.best == Some(
                    (
                        miss(system, enclosures, arithmetic, point, draws[i]),
                        candidate_of(system, enclosures, arithmetic, draws[i]),
                    ),
                )
            &&& forall|i: int|
                0 <= i < draws.len() && is_hit(system, enclosures, arithmetic, clearance, #[trigger] draws[i])
                    ==> after.best is Some && (after.best->0).0.at_most(
                    miss(system, enclosures, arithmetic, point, draws[i]),
                )
            &&& state.best matches Some(pair) ==> after.best is Some && (after.best->0).0.at_most(pair.0)
        }),
    decreases draws.len(),
{
    if draws.len() > 0 {
        let fewer = draws.drop_last();
        let end = draws.len() - 1;
        assert forall|i: int| 0 <= i < fewer.len() implies !miss(
            system,
            enclosures,
            arithmetic,
            point,
            #[trigger] fewer[i],
        ).nan() by {
            assert(fewer[i] == draws[i]);
        }
        the_sampling_box_keeps_the_nearest(system, enclosures, arithmetic, point, clearance, state, fewer);
        let before = round_so_far(system, enclosures, arithmetic, point, clearance, state, fewer);
        let after = round_so_far(system, enclosures, arithmetic, point, clearance, state, draws);
        assert(!miss(system, enclosures, arithmetic, point, draws[end]).nan());
        assert forall|i: int|
            0 <= i < draws.len() && is_hit(system, enclosures, arithmetic, clearance, #[trigger] draws[i]) implies after.best is Some
            && (after.best->0).0.at_most(miss(system, enclosures, arithmetic, point, draws[i])) by {
            if i < end {
                assert(fewer[i] == draws[i]);
            }
        }
        if before.found && !state.found {
            let i = choose|i: int|
                0 <= i < fewer.len() && is_hit(system, enclosures, arithmetic, clearance, #[trigger] fewer[i]);
            assert(draws[i] == fewer[i]);
        }
        if after.found && !state.found && !before.found {
            assert(is_hit(system, enclosures, arithmetic, clearance, draws[end]));
        }
        if !after.found {
            assert forall|i: int| 0 <= i < draws.len() implies !is_hit(
                system,
                enclosures,
                arithmetic,
                clearance,
                #[trigger] draws[i],
            ) by {
                if i < end {
                    assert(fewer[i] == draws[i]);
                }
            }
        }
        if after.best == before.best && before.best != state.best {
            let i = choose|i: int|
                0 <= i < fewer.len() && is_hit(system, enclosures, arithmetic, clearance, #[trigger] fewer[i])
                    && before.best == Some(
                    (
                        miss(system, enclosures, arithmetic, point, fewer[i]),
                        candidate_of(system, enclosures, arithmetic, fewer[i]),
                    ),
                );
            assert(draws[i] == fewer[i]);
        } else if after.best != before.best {
            assert(is_hit(system, enclosures, arithmetic, clearance, draws[end]));
        }
    }
}

/// The sampling box closes in on what it has and opens while it has nothing: with a
/// hit its next radius is no farther than the nearest hit, and that distance where
/// the round had one, and never more than before where it had none; without, and
/// where the answer is exact, it is twice what it was, up to a whole box.
pub proof fn a_radius_closes_in_or_doubles(arithmetic: Arithmetic, state: Sampling)
    requires
        state.radius.finite(),
        arithmetic.times(state.radius, two()).finite(),
        multiplies_exactly(arithmetic, state.radius, two()),
        state.best matches Some(pair) ==> pair.0.finite(),
    ensures
        state.best matches Some(pair) ==> next_radius(arithmetic, state).at_most(pair.0),
        state.best is Some && state.found ==> next_radius(arithmetic, state) == (state.best->0).0,
        state.best is Some && !state.found ==> quantity(next_radius(arithmetic, state)) == (if quantity(
            state.radius,
        ) < quantity((state.best->0).0) {
            quantity(state.radius)
        } else {
            quantity((state.best->0).0)
        }),
        state.best is None ==> quantity(next_radius(arithmetic, state)) == (if quantity(state.radius) * 2real < 1real {
            quantity(state.radius) * 2real
        } else {
            1real
        }),
{
    the_constants_are_what_they_say();
    match state.best {
        Some(pair) => {
            an_order_of_quantities(pair.0, state.radius);
            an_order_of_quantities(state.radius, pair.0);
        },
        None => {
            let twice = arithmetic.times(state.radius, two());
            assert(one().finite());
            an_order_of_quantities(twice, one());
            an_order_of_quantities(one(), twice);
        },
    }
}

proof fn consolations_are_distances<E: Evaluate>(
    system: ConstraintSystem<E>,
    arithmetic: Arithmetic,
    list: Seq<Reached>,
    point: Seq<Real>,
    clearance: Real,
    upto: int,
)
    ensures
        tallied(system, arithmetic, list, point, clearance, upto).cramped matches Some(pair) ==> pair.0 == distance_of(
            arithmetic,
            widths_of(system, arithmetic),
            pair.1,
            point,
        ),
    decreases upto,
{
    if upto > 0 {
        consolations_are_distances(system, arithmetic, list, point, clearance, upto - 1);
    }
}

/// Whether an answer is as good as a landing: a landing with the clearance is
/// answered by one that has it and is no farther; one without, by one with the
/// clearance or by a consolation that is no farther.
pub open spec fn is_as_good_as<E: Evaluate>(
    system: ConstraintSystem<E>,
    arithmetic: Arithmetic,
    point: Seq<Real>,
    clearance: Real,
    answer: Repaired,
    landing: Reached,
) -> bool {
    let widths = widths_of(system, arithmetic);
    match answer {
        Repaired::Clear(there) => landing is Clear ==> distance_of(arithmetic, widths, there, point).at_most(
            ranked(system, arithmetic, landing, point, clearance),
        ),
        Repaired::Cramped(there) => landing is Feasible && distance_of(arithmetic, widths, there, point).at_most(
            ranked(system, arithmetic, landing, point, clearance),
        ),
        Repaired::Stranded => false,
    }
}

/// What is answered of landings whose distances are numbers is as good as each of
/// them, and is one of them, released where it has the clearance.
pub proof fn an_answer_is_as_good_as_each<E: Evaluate>(
    system: ConstraintSystem<E>,
    arithmetic: Arithmetic,
    list: Seq<Reached>,
    point: Seq<Real>,
    clearance: Real,
)
    requires
        forall|i: int|
            0 <= i < list.len() ==> !ranked(system, arithmetic, #[trigger] list[i], point, clearance).nan(),
    ensures
        forall|i: int|
            0 <= i < list.len() ==> is_as_good_as(
                system,
                arithmetic,
                point,
                clearance,
                aggregated(system, arithmetic, list, point, clearance),
                #[trigger] list[i],
            ),
        aggregated(system, arithmetic, list, point, clearance) is Stranded <==> list.len() == 0,
{
    let end = list.len() as int;
    the_nearest_wins(system, arithmetic, list, point, clearance, end);
    tallies_are_distances(system, arithmetic, list, point, clearance, end);
    consolations_are_distances(system, arithmetic, list, point, clearance, end);
    if list.len() > 0 {
        assert(list[0] is Clear || list[0] is Feasible);
    }
}

/// Nothing that was reached is passed over: where the clamp and Newton did not end
/// it, the answer is as good as what they reached, as where the nearest draw's chord
/// led, and, where the box had no hit or the coordinates are few, as what the local
/// solve led to.
pub proof fn nothing_reached_is_passed_over<E: Evaluate>(
    system: ConstraintSystem<E>,
    enclosures: Enclosures,
    arithmetic: Arithmetic,
    solving: Solving,
    point: Seq<Real>,
    clearance: Real,
    outcomes: Outcomes,
    reached: Seq<Reached>,
    start: Seq<Real>,
)
    requires
        opening(system, enclosures, arithmetic, solving, point, clearance) == (Opening::Open {
            landings: reached,
            start,
        }),
        forall|i: int|
            0 <= i < boxed(system, enclosures, arithmetic, point, clearance, reached, outcomes).len() ==> !ranked(
                system,
                arithmetic,
                #[trigger] boxed(system, enclosures, arithmetic, point, clearance, reached, outcomes)[i],
                point,
                clearance,
            ).nan(),
    ensures
        ({
            let answer = repaired(system, enclosures, arithmetic, solving, point, clearance, outcomes);
            let solves = outcomes.hit is None || system.variables@.len() <= SOLVE_CHEAP;
            &&& forall|i: int|
                0 <= i < reached.len() ==> is_as_good_as(
                    system,
                    arithmetic,
                    point,
                    clearance,
                    answer,
                    #[trigger] reached[i],
                )
            &&& outcomes.hit matches Some(hit) ==> (stepped_from_boundary(
                system,
                enclosures,
                arithmetic,
                chord_of(system, enclosures, arithmetic, hit, point),
                point,
                clearance,
            ) matches Some(landing) ==> is_as_good_as(system, arithmetic, point, clearance, answer, landing))
            &&& solves ==> (outcomes.solved.clear matches Some(there) ==> {
                let pushed = swept(system, enclosures, arithmetic, there, clearance, CLAMP_SWEEPS as nat);
                ||| pushed.clear && is_as_good_as(
                    system,
                    arithmetic,
                    point,
                    clearance,
                    answer,
                    Reached::Clear(pushed.point),
                )
                ||| !pushed.clear && is_as_good_as(system, arithmetic, point, clearance, answer, Reached::Clear(there))
            })
            &&& solves ==> (outcomes.solved.feasible matches Some(there) ==> (stepped_from_boundary(
                system,
                enclosures,
                arithmetic,
                there,
                point,
                clearance,
            ) matches Some(landing) ==> is_as_good_as(system, arithmetic, point, clearance, answer, landing)))
        }),
{
    let answer = repaired(system, enclosures, arithmetic, solving, point, clearance, outcomes);
    let seen = boxed(system, enclosures, arithmetic, point, clearance, reached, outcomes);
    let led = match outcomes.hit {
        Some(hit) => listed(
            stepped_from_boundary(
                system,
                enclosures,
                arithmetic,
                chord_of(system, enclosures, arithmetic, hit, point),
                point,
                clearance,
            ),
        ),
        None => Seq::empty(),
    };
    let solved = if is_solve_due(system, outcomes.hit) {
        stepped_from_solve(system, enclosures, arithmetic, outcomes.solved, point, clearance)
    } else {
        Seq::empty()
    };
    assert(seen =~= reached + led + solved);
    an_answer_is_as_good_as_each(system, arithmetic, seen, point, clearance);
    assert(seen.len() > 0 ==> answer == aggregated(system, arithmetic, seen, point, clearance));
    assert forall|i: int| 0 <= i < reached.len() implies is_as_good_as(
        system,
        arithmetic,
        point,
        clearance,
        answer,
        #[trigger] reached[i],
    ) by {
        assert(seen[i] == reached[i]);
    }
    if led.len() > 0 {
        assert(seen[reached.len() as int] == led[0]);
    }
    let past = reached.len() + led.len();
    if solved.len() > 0 {
        assert(seen[past as int] == solved[0]);
        assert(seen[past + solved.len() - 1] == solved.last());
    }
    if is_solve_due(system, outcomes.hit) && outcomes.solved.feasible is Some {
        let landing = stepped_from_boundary(
            system,
            enclosures,
            arithmetic,
            outcomes.solved.feasible->0,
            point,
            clearance,
        );
        if landing is Some {
            assert(solved.last() == landing->0);
        }
    }
}

/// A reference is walked in from where nothing else was reached: there is then an
/// answer, and it is as good as where the chord from the reference lands.
pub proof fn a_reference_is_walked_in_from<E: Evaluate>(
    system: ConstraintSystem<E>,
    enclosures: Enclosures,
    arithmetic: Arithmetic,
    solving: Solving,
    point: Seq<Real>,
    clearance: Real,
    outcomes: Outcomes,
    reference: Seq<Real>,
    start: Seq<Real>,
)
    requires
        opening(system, enclosures, arithmetic, solving, point, clearance) == (Opening::Open {
            landings: Seq::empty(),
            start,
        }),
        boxed(system, enclosures, arithmetic, point, clearance, Seq::empty(), outcomes).len() == 0,
        outcomes.reference == Some(reference),
        forall|i: int|
            0 <= i < walked_in(system, enclosures, arithmetic, point, clearance, outcomes).len() ==> !ranked(
                system,
                arithmetic,
                #[trigger] walked_in(system, enclosures, arithmetic, point, clearance, outcomes)[i],
                point,
                clearance,
            ).nan(),
    ensures
        is_as_good_as(
            system,
            arithmetic,
            point,
            clearance,
            repaired(system, enclosures, arithmetic, solving, point, clearance, outcomes),
            Reached::Feasible(chord_of(system, enclosures, arithmetic, reference, point)),
        ),
{
    let chord = chord_of(system, enclosures, arithmetic, reference, point);
    let stepped = stepped_from_solve(system, enclosures, arithmetic, outcomes.walked, point, clearance);
    let found = swept(system, enclosures, arithmetic, chord, clearance, CLAMP_SWEEPS as nat);
    let list = walked_in(system, enclosures, arithmetic, point, clearance, outcomes);
    an_answer_is_as_good_as_each(system, arithmetic, list, point, clearance);
    if some_clear(stepped) {
        let i = choose|i: int| 0 <= i < stepped.len() && (#[trigger] stepped[i]) is Clear;
        assert(list[i] is Clear);
    } else {
        assert(list[stepped.len() as int] == list.last());
    }
}

/// Whole rounds keep the nearest hit of all of them: of draws whose distances are
/// numbers, no hit of any round is nearer than what is kept in the end.
pub proof fn the_rounds_keep_the_nearest<E: Evaluate>(
    system: ConstraintSystem<E>,
    enclosures: Enclosures,
    arithmetic: Arithmetic,
    point: Seq<Real>,
    clearance: Real,
    rounds: Seq<Seq<Seq<Real>>>,
)
    requires
        forall|r: int, i: int|
            0 <= r < rounds.len() && 0 <= i < rounds[r].len() ==> !miss(
                system,
                enclosures,
                arithmetic,
                point,
                #[trigger] rounds[r][i],
            ).nan(),
    ensures
        ({
            let end = after_rounds(system, enclosures, arithmetic, point, clearance, rounds);
            &&& end.best matches Some(pair) ==> !pair.0.nan()
            &&& end.best is Some <==> exists|r: int, i: int|
                0 <= r < rounds.len() && 0 <= i < rounds[r].len() && is_hit(
                    system,
                    enclosures,
                    arithmetic,
                    clearance,
                    #[trigger] rounds[r][i],
                )
            &&& forall|r: int, i: int|
                0 <= r < rounds.len() && 0 <= i < rounds[r].len() && is_hit(
                    system,
                    enclosures,
                    arithmetic,
                    clearance,
                    #[trigger] rounds[r][i],
                ) ==> (end.best->0).0.at_most(miss(system, enclosures, arithmetic, point, rounds[r][i]))
        }),
    decreases rounds.len(),
{
    if rounds.len() > 0 {
        let fewer = rounds.drop_last();
        let last = rounds.len() - 1;
        let draws = rounds.last();
        assert forall|r: int, i: int| 0 <= r < fewer.len() && 0 <= i < fewer[r].len() implies !miss(
            system,
            enclosures,
            arithmetic,
            point,
            #[trigger] fewer[r][i],
        ).nan() by {
            assert(fewer[r][i] == rounds[r][i]);
        }
        assert forall|i: int| 0 <= i < draws.len() implies !miss(
            system,
            enclosures,
            arithmetic,
            point,
            #[trigger] draws[i],
        ).nan() by {
            assert(draws[i] == rounds[last][i]);
        }
        the_rounds_keep_the_nearest(system, enclosures, arithmetic, point, clearance, fewer);
        let before = after_rounds(system, enclosures, arithmetic, point, clearance, fewer);
        the_sampling_box_keeps_the_nearest(system, enclosures, arithmetic, point, clearance, before, draws);
        let end = after_rounds(system, enclosures, arithmetic, point, clearance, rounds);
        assert forall|r: int, i: int|
            0 <= r < rounds.len() && 0 <= i < rounds[r].len() && is_hit(
                system,
                enclosures,
                arithmetic,
                clearance,
                #[trigger] rounds[r][i],
            ) implies end.best is Some && (end.best->0).0.at_most(
            miss(system, enclosures, arithmetic, point, rounds[r][i]),
        ) by {
            if r < last {
                assert(fewer[r][i] == rounds[r][i]);
            } else {
                assert(draws[i] == rounds[r][i]);
            }
        }
        if end.best is Some {
            if before.best is Some {
                let (r, i) = choose|r: int, i: int|
                    0 <= r < fewer.len() && 0 <= i < fewer[r].len() && is_hit(
                        system,
                        enclosures,
                        arithmetic,
                        clearance,
                        #[trigger] fewer[r][i],
                    );
                assert(rounds[r][i] == fewer[r][i]);
            } else {
                let i = choose|i: int|
                    0 <= i < draws.len() && is_hit(system, enclosures, arithmetic, clearance, #[trigger] draws[i]);
                assert(rounds[last][i] == draws[i]);
            }
        }
    }
}

/// A feasible landing is never given up: stepped off its wall it is a landing still,
/// and one with the clearance exactly where a step along the way in, or the clamp, has
/// it; a Newton landing has the way between its walls besides.
pub proof fn a_feasible_landing_is_kept<E: Evaluate>(
    system: ConstraintSystem<E>,
    enclosures: Enclosures,
    arithmetic: Arithmetic,
    landing: Seq<Real>,
    between_walls: Seq<Real>,
    point: Seq<Real>,
    clearance: Real,
)
    ensures
        ({
            let along = Seq::new(landing.len(), |k: int| arithmetic.minus(landing[k], point[k]));
            let stepped = backed(system, enclosures, arithmetic, landing, along, clearance);
            let split = backed(system, enclosures, arithmetic, landing, between_walls, clearance);
            let pushed = swept(system, enclosures, arithmetic, landing, clearance, CLAMP_SWEEPS as nat);
            let off = stepped_from_boundary(system, enclosures, arithmetic, landing, point, clearance);
            let newton = stepped_from_newton(
                system,
                enclosures,
                arithmetic,
                Landed { point: landing, inward: between_walls },
                point,
                clearance,
            );
            &&& system.feasible(arithmetic, landing, zero()) ==> off is Some && newton is Some
            &&& (off is Some && off->0 is Clear) <==> stepped is Some || pushed.clear
            &&& (newton is Some && newton->0 is Clear) <==> split is Some || stepped is Some || pushed.clear
        }),
{
}

/// What a local solve found is never given up: a landing of it that is feasible is one
/// still once it is stepped off, and one with the clearance still has it.
pub proof fn what_a_solve_found_is_kept<E: Evaluate>(
    system: ConstraintSystem<E>,
    enclosures: Enclosures,
    arithmetic: Arithmetic,
    found: Found,
    point: Seq<Real>,
    clearance: Real,
)
    requires
        is_found_judged(system, arithmetic, clearance, found),
    ensures
        found.clear is Some ==> some_clear(
            stepped_from_solve(system, enclosures, arithmetic, found, point, clearance),
        ),
        found.clear is Some || found.feasible is Some ==> stepped_from_solve(
            system,
            enclosures,
            arithmetic,
            found,
            point,
            clearance,
        ).len() > 0,
{
    let list = stepped_from_solve(system, enclosures, arithmetic, found, point, clearance);
    if found.clear is Some {
        assert(list[0] is Clear);
    }
}

proof fn something_is_tallied<E: Evaluate>(
    system: ConstraintSystem<E>,
    arithmetic: Arithmetic,
    list: Seq<Reached>,
    point: Seq<Real>,
    clearance: Real,
    upto: int,
)
    requires
        0 < upto <= list.len(),
    ensures
        tallied(system, arithmetic, list, point, clearance, upto).clear is Some || tallied(
            system,
            arithmetic,
            list,
            point,
            clearance,
            upto,
        ).cramped is Some,
{
}

/// A repair is stranded only where nothing feasible was seen: not where the box had a
/// hit, nor where a local solve that was due found a landing, nor where there was a
/// reference to walk in from.
pub proof fn a_repair_is_stranded_only_with_nothing_seen<E: Evaluate>(
    system: ConstraintSystem<E>,
    enclosures: Enclosures,
    arithmetic: Arithmetic,
    solving: Solving,
    point: Seq<Real>,
    clearance: Real,
    outcomes: Outcomes,
)
    requires
        are_judged(system, arithmetic, clearance, outcomes),
        outcomes.hit matches Some(hit) ==> system.feasible(arithmetic, hit, zero()),
        repaired(system, enclosures, arithmetic, solving, point, clearance, outcomes) is Stranded,
    ensures
        !system.feasible(arithmetic, point, clearance),
        opening(system, enclosures, arithmetic, solving, point, clearance) is Open ==> {
            &&& outcomes.hit is None
            &&& outcomes.solved.clear is None
            &&& outcomes.solved.feasible is None
            &&& outcomes.reference is None
        },
{
    match opening(system, enclosures, arithmetic, solving, point, clearance) {
        Opening::Done(answer) => {},
        Opening::Open { landings, start } => {
            let seen = boxed(system, enclosures, arithmetic, point, clearance, landings, outcomes);
            what_a_solve_found_is_kept(system, enclosures, arithmetic, outcomes.solved, point, clearance);
            match outcomes.hit {
                Some(hit) => {
                    let chord = chord_of(system, enclosures, arithmetic, hit, point);
                    a_chord_lands_feasible(system, enclosures, arithmetic, hit, point);
                    a_feasible_landing_is_kept(
                        system,
                        enclosures,
                        arithmetic,
                        chord,
                        chord,
                        point,
                        clearance,
                    );
                    assert(seen.len() > 0);
                },
                None => {},
            }
            if seen.len() > 0 {
                something_is_tallied(system, arithmetic, seen, point, clearance, seen.len() as int);
            } else if outcomes.reference is Some {
                let list = walked_in(system, enclosures, arithmetic, point, clearance, outcomes);
                let stepped = stepped_from_solve(system, enclosures, arithmetic, outcomes.walked, point, clearance);
                assert(list.len() > 0);
                something_is_tallied(system, arithmetic, list, point, clearance, list.len() as int);
            }
        },
    }
}

} // verus!
