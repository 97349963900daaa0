//! What one coordinate may be with the others held, and the moves along an
//! equality's surface that are made of it.
//!
//! [`slice`] narrows a coordinate's declared range by every constraint that
//! names it. A point on an equality's surface leaves it under almost any move,
//! so the moves here compute the driven coordinates from the free ones: each in
//! plan order, in its slice, with only the coordinates already placed
//! conditioned on. Feasibility is never assumed of the outcome; a point is
//! judged like any other.

use vstd::prelude::*;
use crate::ast::GlobalId;
use crate::calculus::{
    adds_exactly, an_order_of_quantities, divides_exactly, quantity, signs_are_exact, subtracts_exactly,
    the_constants_are_what_they_say,
};
use crate::hc4::{enclosing_is_enclosing_everywhere, is_plain, narrowing_keeps_every_solution};
use crate::interval::{
    common_has_nothing_else, common_has_what_both_have, enclosures_of, encloses, regular, Enclosures, Interval,
    Intervals,
};
use crate::machine::{arithmetic_of, deterministic, over, plus, Arithmetic, Machine};
use crate::number::{infinity, one, two, zero, Real};
use crate::plans::{integers, Plan};
use crate::semantics::Semantics;
use crate::system::{
    is_plan_over, names_row, naming_lists_who_names, passes, ConstraintSystem, Evaluate, InputVariable, Point,
};

verus! {

/// Where a coordinate first is among rows, or their number.
pub open spec fn first_row(rows: Seq<usize>, coordinate: int) -> int
    decreases rows.len(),
{
    if rows.len() == 0 || rows[0] == coordinate {
        0
    } else {
        1 + first_row(rows.skip(1), coordinate)
    }
}

/// The first row of a coordinate is the first that is the coordinate.
pub proof fn first_row_is(rows: Seq<usize>, coordinate: int, at: int)
    requires
        0 <= at < rows.len(),
        rows[at] == coordinate,
        forall|k: int| 0 <= k < at ==> rows[k] != coordinate,
    ensures
        first_row(rows, coordinate) == at,
    decreases rows.len(),
{
    if at > 0 {
        assert forall|k: int| 0 <= k < at - 1 implies rows.skip(1)[k] != coordinate by {
            assert(rows.skip(1)[k] == rows[k + 1]);
        }
        first_row_is(rows.skip(1), coordinate, at - 1);
    }
}

/// A constraint's symbols as intervals: a point for everything held, and `kept`
/// for the one asked about.
pub open spec fn conditions(rows: Seq<usize>, point: Seq<Real>, wanted: int, kept: Interval) -> Seq<Interval> {
    Seq::new(
        rows.len(),
        |k: int|
            if k == wanted {
                kept
            } else {
                Interval::point(point[rows[k] as int])
            },
    )
}

/// Whether a constraint reads no other coordinate that is about to change.
pub open spec fn is_conditionable(rows: Seq<usize>, coordinate: int, settled: Option<Seq<bool>>) -> bool {
    settled matches Some(marks) ==> forall|k: int|
        0 <= k < rows.len() && (#[trigger] rows[k]) != coordinate ==> marks[rows[k] as int]
}

/// The declared range narrowed by the first of the constraints naming the
/// coordinate, each seeing what the ones before concluded, until nothing is
/// left.
pub open spec fn sliced<E>(
    system: ConstraintSystem<E>,
    enclosures: Enclosures,
    point: Seq<Real>,
    coordinate: int,
    settled: Option<Seq<bool>>,
    upto: int,
) -> Interval
    decreases upto,
{
    if upto <= 0 {
        system.variables@[coordinate].range()
    } else {
        let before = sliced(system, enclosures, point, coordinate, settled, upto - 1);
        let id = system.incidence.naming@[coordinate]@[upto - 1] as int;
        let rows = system.incidence.rows@[id]@;
        if (upto > 1 && before.has_nothing()) || !is_conditionable(rows, coordinate, settled) {
            before
        } else {
            let wanted = first_row(rows, coordinate);
            before.common(
                system.constraints@[id].intervals.narrowed(
                    enclosures,
                    conditions(rows, point, wanted, before),
                    wanted as u32,
                ),
            )
        }
    }
}

/// What a coordinate may be with every other held at its value, but for the
/// constraints naming one that is not settled.
pub open spec fn slice_of<E>(
    system: ConstraintSystem<E>,
    enclosures: Enclosures,
    point: Seq<Real>,
    coordinate: int,
    settled: Option<Seq<bool>>,
) -> Interval {
    sliced(
        system,
        enclosures,
        point,
        coordinate,
        settled,
        system.incidence.naming@[coordinate]@.len() as int,
    )
}

/// Marks as a sequence.
pub open spec fn mask(settled: Option<&Vec<bool>>) -> Option<Seq<bool>> {
    match settled {
        Some(marks) => Some(marks@),
        None => None,
    }
}

fn conditionable(rows: &Vec<usize>, coordinate: usize, settled: Option<&Vec<bool>>) -> (yes: bool)
    requires
        settled matches Some(marks) ==> forall|k: int| 0 <= k < rows@.len() ==> (#[trigger] rows@[k]) < marks@.len(),
    ensures
        yes == is_conditionable(rows@, coordinate as int, mask(settled)),
{
    match settled {
        None => true,
        Some(marks) => {
            for k in 0..rows.len()
                invariant
                    settled == Some(marks),
                    forall|k: int| 0 <= k < rows@.len() ==> (#[trigger] rows@[k]) < marks@.len(),
                    forall|j: int| 0 <= j < k && (#[trigger] rows@[j]) != coordinate ==> marks@[rows@[j] as int],
            {
                if rows[k] != coordinate && !marks[rows[k]] {
                    return false;
                }
            }
            true
        },
    }
}

fn position_of(rows: &Vec<usize>, coordinate: usize) -> (at: usize)
    requires
        integers(rows@).contains(coordinate as int),
    ensures
        at == first_row(rows@, coordinate as int),
        at < rows@.len(),
{
    for k in 0..rows.len()
        invariant
            forall|j: int| 0 <= j < k ==> rows@[j] != coordinate,
    {
        if rows[k] == coordinate {
            proof {
                first_row_is(rows@, coordinate as int, k as int);
            }
            return k;
        }
    }
    proof {
        let j = choose|j: int| 0 <= j < integers(rows@).len() && integers(rows@)[j] == coordinate;
        assert(rows@[j] == coordinate);
    }
    0
}

fn condition(rows: &Vec<usize>, point: &Vec<Real>, wanted: usize, kept: Interval) -> (globals: Vec<Interval>)
    requires
        forall|k: int| 0 <= k < rows@.len() ==> (#[trigger] rows@[k]) < point@.len(),
    ensures
        globals@ == conditions(rows@, point@, wanted as int, kept),
{
    let mut globals: Vec<Interval> = Vec::with_capacity(rows.len());
    for k in 0..rows.len()
        invariant
            forall|k: int| 0 <= k < rows@.len() ==> (#[trigger] rows@[k]) < point@.len(),
            globals@ =~= conditions(rows@, point@, wanted as int, kept).take(k as int),
    {
        if k == wanted {
            globals.push(kept);
        } else {
            globals.push(Interval::point(point[rows[k]]));
        }
    }
    assert(globals@ =~= conditions(rows@, point@, wanted as int, kept));
    globals
}

/// The interval `coordinate` may take with every other coordinate held at its
/// value in `point`: a superset of the feasible slice, so that a value drawn
/// from it is still judged.
pub fn slice<E, I: Intervals>(
    system: &ConstraintSystem<E>,
    intervals: &I,
    point: &Vec<Real>,
    coordinate: usize,
) -> (found: Interval)
    requires
        system.well_formed(),
        system.fits(point@),
        coordinate < system.variables@.len(),
    ensures
        regular(*intervals) ==> found == slice_of(
            *system,
            enclosures_of(*intervals),
            point@,
            coordinate as int,
            None,
        ),
{
    slice_conditioned(system, intervals, point, coordinate, None)
}

/// [`slice`], leaving out constraints that mention a coordinate whose value is
/// about to change: narrowing against one conditions on a stale number.
pub fn slice_conditioned<E, I: Intervals>(
    system: &ConstraintSystem<E>,
    intervals: &I,
    point: &Vec<Real>,
    coordinate: usize,
    settled: Option<&Vec<bool>>,
) -> (found: Interval)
    requires
        system.well_formed(),
        system.fits(point@),
        coordinate < system.variables@.len(),
        settled matches Some(marks) ==> marks@.len() == system.variables@.len(),
    ensures
        regular(*intervals) ==> found == slice_of(
            *system,
            enclosures_of(*intervals),
            point@,
            coordinate as int,
            mask(settled),
        ),
{
    let ghost enclosures = enclosures_of(*intervals);
    let variable = &system.variables[coordinate];
    let mut kept = Interval::new(variable.lower_bound, variable.upper_bound);
    let naming = &system.incidence.naming[coordinate];
    let total: usize = naming.len();
    let mut i: usize = 0;
    while i < total
        invariant
            system.well_formed(),
            system.fits(point@),
            coordinate < system.variables@.len(),
            settled matches Some(marks) ==> marks@.len() == system.variables@.len(),
            enclosures == enclosures_of(*intervals),
            naming@ == system.incidence.naming@[coordinate as int]@,
            total == naming@.len(),
            i <= total,
            regular(*intervals) ==> kept == sliced(
                *system,
                enclosures,
                point@,
                coordinate as int,
                mask(settled),
                i as int,
            ),
            i > 0 && kept.has_nothing() ==> regular(*intervals) ==> kept == slice_of(
                *system,
                enclosures,
                point@,
                coordinate as int,
                mask(settled),
            ),
        decreases total - i,
    {
        if i > 0 && kept.is_empty() {
            return kept;
        }
        let id: usize = naming[i];
        proof {
            assert(integers(naming@)[i as int] == id);
            assert(integers(naming@).contains(id as int));
            naming_lists_who_names(
                system.incidence,
                system.constraints@.len() as int,
                system.variables@.len() as int,
                coordinate as int,
                id as int,
            );
            assert(names_row(system.incidence.rows@, id as int, coordinate as int));
        }
        let rows = &system.incidence.rows[id];
        proof {
            assert forall|k: int| 0 <= k < rows@.len() implies (#[trigger] rows@[k]) < system.variables@.len() by {
                assert(system.incidence.rows@[id as int]@[k] < system.variables@.len());
            }
            assert(system.constraints@[id as int].intervals.well_formed());
        }
        if conditionable(rows, coordinate, settled) {
            let wanted: usize = position_of(rows, coordinate);
            let globals = condition(rows, point, wanted, kept);
            let more = system.constraints[id].intervals.narrow(intervals, &globals, GlobalId(wanted as u32));
            kept = kept.intersect(more);
        }
        i = i + 1;
        proof {
            if kept.has_nothing() && regular(*intervals) {
                nothing_more_is_cut(
                    *system,
                    enclosures,
                    point@,
                    coordinate as int,
                    mask(settled),
                    i as int,
                    total as int,
                );
            }
        }
    }
    kept
}

proof fn nothing_more_is_cut<E>(
    system: ConstraintSystem<E>,
    enclosures: Enclosures,
    point: Seq<Real>,
    coordinate: int,
    settled: Option<Seq<bool>>,
    from: int,
    upto: int,
)
    requires
        1 <= from <= upto,
        sliced(system, enclosures, point, coordinate, settled, from).has_nothing(),
    ensures
        sliced(system, enclosures, point, coordinate, settled, upto) == sliced(
            system,
            enclosures,
            point,
            coordinate,
            settled,
            from,
        ),
    decreases upto - from,
{
    if from < upto {
        nothing_more_is_cut(system, enclosures, point, coordinate, settled, from, upto - 1);
    }
}

// ---- driving ----

/// Everything settled but the driven coordinates from the `from`th on.
pub open spec fn settled_before(coordinates: nat, driven: Seq<usize>, from: int) -> Seq<bool> {
    Seq::new(coordinates, |c: int| !driven.skip(from).contains(c as usize))
}

/// The slice of the `i`th driven coordinate at a point at which those before it
/// have been placed.
pub open spec fn driving_slice<E>(
    system: ConstraintSystem<E>,
    enclosures: Enclosures,
    plan: Plan,
    point: Seq<Real>,
    i: int,
) -> Interval {
    slice_of(
        system,
        enclosures,
        point,
        plan.driven@[i] as int,
        Some(settled_before(system.variables@.len(), plan.driven@, i)),
    )
}

/// A point after its first driven coordinates have been placed, in plan order;
/// one whose slice is empty is left alone.
pub open spec fn driven_so_far<E>(
    system: ConstraintSystem<E>,
    enclosures: Enclosures,
    plan: Plan,
    point: Seq<Real>,
    place: spec_fn(Interval, Real) -> Real,
    upto: int,
) -> Seq<Real>
    decreases upto,
{
    if upto <= 0 {
        point
    } else {
        let before = driven_so_far(system, enclosures, plan, point, place, upto - 1);
        let slice = driving_slice(system, enclosures, plan, before, upto - 1);
        let at = plan.driven@[upto - 1] as int;
        if slice.has_nothing() {
            before
        } else {
            before.update(at, place(slice, before[at]))
        }
    }
}

/// A point with every driven coordinate placed.
pub open spec fn driven_by<E>(
    system: ConstraintSystem<E>,
    enclosures: Enclosures,
    plan: Plan,
    point: Seq<Real>,
    place: spec_fn(Interval, Real) -> Real,
) -> Seq<Real> {
    driven_so_far(system, enclosures, plan, point, place, plan.driven@.len() as int)
}

/// Whether a placing function places as a model has it.
pub open spec fn places_as<F: Fn(Interval, Real) -> Real>(place: F, model: spec_fn(Interval, Real) -> Real) -> bool {
    forall|slice: Interval, value: Real, placed: Real| #[trigger]
        call_ensures(place, (slice, value), placed) ==> placed == model(slice, value)
}

/// A point after its first driven coordinates have been put at the values
/// `placed`, in plan order; one whose slice is empty is left alone.
pub open spec fn driven_with<E>(
    system: ConstraintSystem<E>,
    enclosures: Enclosures,
    plan: Plan,
    point: Seq<Real>,
    placed: Seq<Real>,
    upto: int,
) -> Seq<Real>
    decreases upto,
{
    if upto <= 0 {
        point
    } else {
        let before = driven_with(system, enclosures, plan, point, placed, upto - 1);
        if driving_slice(system, enclosures, plan, before, upto - 1).has_nothing() {
            before
        } else {
            before.update(plan.driven@[upto - 1] as int, placed[upto - 1])
        }
    }
}

/// Whether `placed` are values that a placing function gave for the slices met.
pub open spec fn are_placed<E, F: Fn(Interval, Real) -> Real>(
    system: ConstraintSystem<E>,
    enclosures: Enclosures,
    plan: Plan,
    point: Seq<Real>,
    place: F,
    placed: Seq<Real>,
) -> bool {
    &&& placed.len() == plan.driven@.len()
    &&& forall|i: int|
        0 <= i < placed.len() ==> {
            let before = driven_with(system, enclosures, plan, point, placed, i);
            let slice = driving_slice(system, enclosures, plan, before, i);
            slice.has_nothing() || call_ensures(
                place,
                (slice, before[plan.driven@[i] as int]),
                #[trigger] placed[i],
            )
        }
}

proof fn a_model_decides<E, F: Fn(Interval, Real) -> Real>(
    system: ConstraintSystem<E>,
    enclosures: Enclosures,
    plan: Plan,
    point: Seq<Real>,
    place: F,
    placed: Seq<Real>,
    model: spec_fn(Interval, Real) -> Real,
    upto: int,
)
    requires
        are_placed(system, enclosures, plan, point, place, placed),
        places_as(place, model),
        upto <= placed.len(),
    ensures
        driven_with(system, enclosures, plan, point, placed, upto) == driven_so_far(
            system,
            enclosures,
            plan,
            point,
            model,
            upto,
        ),
    decreases upto,
{
    if upto > 0 {
        a_model_decides(system, enclosures, plan, point, place, placed, model, upto - 1);
        let value = placed[upto - 1];
    }
}

/// What comes after does not change what went before.
proof fn later_placements_do_not_matter<E>(
    system: ConstraintSystem<E>,
    enclosures: Enclosures,
    plan: Plan,
    point: Seq<Real>,
    placed: Seq<Real>,
    more: Real,
    upto: int,
)
    requires
        upto <= placed.len(),
    ensures
        driven_with(system, enclosures, plan, point, placed.push(more), upto) == driven_with(
            system,
            enclosures,
            plan,
            point,
            placed,
            upto,
        ),
    decreases upto,
{
    if upto > 0 {
        later_placements_do_not_matter(system, enclosures, plan, point, placed, more, upto - 1);
    }
}

proof fn settling_one(coordinates: nat, driven: Seq<usize>, i: int)
    requires
        0 <= i < driven.len(),
        driven.no_duplicates(),
        coordinates <= usize::MAX,
        driven[i] < coordinates,
    ensures
        settled_before(coordinates, driven, i + 1) == settled_before(coordinates, driven, i).update(driven[i] as int, true),
{
    let before = settled_before(coordinates, driven, i);
    let after = settled_before(coordinates, driven, i + 1);
    assert forall|c: int| 0 <= c < coordinates implies after[c] == before.update(driven[i] as int, true)[c] by {
        let rest = driven.skip(i);
        let later = driven.skip(i + 1);
        if later.contains(c as usize) {
            let k = choose|k: int| 0 <= k < later.len() && later[k] == c as usize;
            assert(rest[k + 1] == c as usize);
            assert(driven[i + 1 + k] == c as usize);
            assert(driven[i] != driven[i + 1 + k]);
        }
        if rest.contains(c as usize) {
            let k = choose|k: int| 0 <= k < rest.len() && rest[k] == c as usize;
            if k > 0 {
                assert(later[k - 1] == c as usize);
            }
        }
    }
    assert(after =~= before.update(driven[i] as int, true));
}

fn unsettled(coordinates: usize, driven: &Vec<usize>) -> (settled: Vec<bool>)
    requires
        forall|k: int| 0 <= k < driven@.len() ==> (#[trigger] driven@[k]) < coordinates,
    ensures
        settled@ == settled_before(coordinates as nat, driven@, 0),
{
    let mut settled: Vec<bool> = vec![true; coordinates];
    for i in 0..driven.len()
        invariant
            forall|k: int| 0 <= k < driven@.len() ==> (#[trigger] driven@[k]) < coordinates,
            settled@.len() == coordinates,
            forall|c: int| 0 <= c < coordinates ==> (#[trigger] settled@[c] <==> !driven@.take(i as int).contains(c as usize)),
    {
        let ghost before = settled@;
        let at: usize = driven[i];
        settled.set(at, false);
        proof {
            let earlier = driven@.take(i as int);
            let later = driven@.take(i + 1);
            assert(later =~= earlier.push(at));
            assert forall|c: int| 0 <= c < coordinates implies (#[trigger] settled@[c] <==> !later.contains(c as usize)) by {
                assert(before[c] <==> !earlier.contains(c as usize));
                if earlier.contains(c as usize) {
                    let k = choose|k: int| 0 <= k < earlier.len() && earlier[k] == c as usize;
                    assert(later[k] == c as usize);
                }
                assert(later[i as int] == at);
                if later.contains(c as usize) && c != at {
                    let k = choose|k: int| 0 <= k < later.len() && later[k] == c as usize;
                    assert(earlier[k] == c as usize);
                }
            }
        }
    }
    assert(driven@.take(driven@.len() as int) =~= driven@.skip(0));
    assert(settled@ =~= settled_before(coordinates as nat, driven@, 0));
    settled
}

/// Each driven coordinate in plan order, its slice with the coordinates already
/// placed conditioned on, and `place` deciding where in the slice it goes. A
/// driven coordinate holds a value that is about to be replaced, so it becomes
/// conditionable only once it has been placed.
pub fn drive<E, I: Intervals, F: Fn(Interval, Real) -> Real>(
    system: &ConstraintSystem<E>,
    intervals: &I,
    plan: &Plan,
    point: &mut Point,
    place: F,
)
    requires
        system.well_formed(),
        system.fits(old(point)@),
        is_plan_over(*plan, system.variables@.len() as int),
        forall|slice: Interval, value: Real| !slice.has_nothing() ==> #[trigger] call_requires(place, (slice, value)),
    ensures
        system.fits(final(point)@),
        forall|c: int|
            0 <= c < old(point)@.len() && !integers(plan.driven@).contains(c) ==> #[trigger] final(point)@[c] == old(point)@[c],
        regular(*intervals) ==> exists|placed: Seq<Real>|
            {
                &&& #[trigger] are_placed(*system, enclosures_of(*intervals), *plan, old(point)@, place, placed)
                &&& final(point)@ == driven_with(
                    *system,
                    enclosures_of(*intervals),
                    *plan,
                    old(point)@,
                    placed,
                    placed.len() as int,
                )
            },
{
    let ghost enclosures = enclosures_of(*intervals);
    let ghost start = point@;
    let ghost mut all: Seq<Real> = Seq::empty();
    let driven = &plan.driven;
    let count: usize = driven.len();
    let mut settled = unsettled(system.variables.len(), driven);
    for i in 0..count
        invariant
            system.well_formed(),
            system.fits(point@),
            start.len() == point@.len(),
            enclosures == enclosures_of(*intervals),
            *driven == plan.driven,
            count == driven@.len(),
            driven@.no_duplicates(),
            forall|k: int| 0 <= k < driven@.len() ==> (#[trigger] driven@[k]) < system.variables@.len(),
            forall|slice: Interval, value: Real| !slice.has_nothing() ==> #[trigger] call_requires(place, (slice, value)),
            settled@ == settled_before(system.variables@.len(), driven@, i as int),
            forall|c: int|
                0 <= c < start.len() && !integers(driven@).contains(c) ==> #[trigger] point@[c] == start[c],
            all.len() == i,
            regular(*intervals) ==> point@ == driven_with(*system, enclosures, *plan, start, all, i as int),
            regular(*intervals) ==> forall|j: int|
                0 <= j < i ==> {
                    let before = driven_with(*system, enclosures, *plan, start, all, j);
                    let slice = driving_slice(*system, enclosures, *plan, before, j);
                    slice.has_nothing() || call_ensures(
                        place,
                        (slice, before[plan.driven@[j] as int]),
                        #[trigger] all[j],
                    )
                },
    {
        let at: usize = driven[i];
        assert(integers(driven@)[i as int] == at);
        let slice = slice_conditioned(system, intervals, point, at, Some(&settled));
        let value = point[at];
        let ghost earlier = all;
        let ghost before = point@;
        if !slice.is_empty() {
            let placed = place(slice, value);
            point.set(at, placed);
            proof {
                all = all.push(placed);
            }
        } else {
            proof {
                all = all.push(value);
            }
        }
        proof {
            if regular(*intervals) {
                let more = all[i as int];
                assert(all =~= earlier.push(more));
                later_placements_do_not_matter(*system, enclosures, *plan, start, earlier, more, i as int);
                assert forall|j: int| 0 <= j < i + 1 implies {
                    let before = driven_with(*system, enclosures, *plan, start, all, j);
                    let slice = driving_slice(*system, enclosures, *plan, before, j);
                    slice.has_nothing() || call_ensures(
                        place,
                        (slice, before[plan.driven@[j] as int]),
                        #[trigger] all[j],
                    )
                } by {
                    if j < i {
                        later_placements_do_not_matter(*system, enclosures, *plan, start, earlier, more, j);
                        assert(all[j] == earlier[j]);
                    }
                }
            }
            assert(system.variables@.len() <= usize::MAX);
            settling_one(system.variables@.len(), driven@, i as int);
        }
        settled.set(at, true);
    }
    proof {
        if regular(*intervals) {
            assert(are_placed(*system, enclosures, *plan, start, place, all));
        }
    }
}

/// Where a value goes that has to be in a slice and no further from where it is
/// than that.
pub open spec fn clamped(slice: Interval, value: Real) -> Real {
    if value.below(slice.lo) {
        slice.lo
    } else if slice.hi.below(value) {
        slice.hi
    } else {
        value
    }
}

pub fn clamp(slice: Interval, value: Real) -> (placed: Real)
    ensures
        placed == clamped(slice, value),
{
    if value.lt(slice.lo) {
        slice.lo
    } else if slice.hi.lt(value) {
        slice.hi
    } else {
        value
    }
}

/// A clamped number is in the slice, and stays if it was there.
pub proof fn clamping_lands_inside(slice: Interval, value: Real)
    requires
        !slice.has_nothing(),
        !value.nan(),
    ensures
        slice.has_value(clamped(slice, value)),
        slice.has_value(value) ==> clamped(slice, value) == value,
{
}

/// Where a value goes that is kept if it is in a slice and put in the middle of
/// it if not.
pub open spec fn centred(arithmetic: Arithmetic, slice: Interval, value: Real) -> Real {
    if slice.has_value(value) {
        value
    } else {
        arithmetic.plus(slice.lo, arithmetic.over(slice.extent(arithmetic), two()))
    }
}

/// The middle of an interval.
pub open spec fn middle_of(arithmetic: Arithmetic, interval: Interval) -> Real {
    arithmetic.plus(interval.lo, arithmetic.over(interval.extent(arithmetic), two()))
}

pub fn middle<M: Machine>(machine: &M, interval: Interval) -> (value: Real)
    ensures
        deterministic(*machine) ==> value == middle_of(arithmetic_of(*machine), interval),
{
    plus(machine, interval.lo, over(machine, interval.width(machine), two()))
}

// ---- which plan ----

/// How close two plans' scores must be to tie: a rounding slack on sums of box
/// fractions, `1e-9`.
pub const TIE: u64 = 0x3e11_2e0b_e826_d695;

#[verifier::allow_in_spec]
pub fn tie() -> Real
    returns
        (Real { bits: TIE }),
{
    Real { bits: TIE }
}

/// How wide a driven coordinate's slice is as a fraction of its box. An empty
/// slice, or a box without width, counts as the whole box.
pub open spec fn fraction_of(arithmetic: Arithmetic, variable: InputVariable, slice: Interval) -> Real {
    let width = variable.extent(arithmetic);
    if slice.has_nothing() || width.at_most(zero()) {
        one()
    } else {
        arithmetic.over(slice.extent(arithmetic), width).lower(one())
    }
}

/// How wide the slices of a plan's first driven coordinates are together, with
/// the point left where it is.
pub open spec fn score_so_far<E>(
    system: ConstraintSystem<E>,
    enclosures: Enclosures,
    arithmetic: Arithmetic,
    plan: Plan,
    point: Seq<Real>,
    upto: int,
) -> Real
    decreases upto,
{
    if upto <= 0 {
        zero()
    } else {
        arithmetic.plus(
            score_so_far(system, enclosures, arithmetic, plan, point, upto - 1),
            fraction_of(
                arithmetic,
                system.variables@[plan.driven@[upto - 1] as int],
                driving_slice(system, enclosures, plan, point, upto - 1),
            ),
        )
    }
}

pub open spec fn score_of<E>(
    system: ConstraintSystem<E>,
    enclosures: Enclosures,
    arithmetic: Arithmetic,
    plan: Plan,
    point: Seq<Real>,
) -> Real {
    score_so_far(system, enclosures, arithmetic, plan, point, plan.driven@.len() as int)
}

/// The scores of a system's plans at a point.
pub open spec fn scores_of<E>(
    system: ConstraintSystem<E>,
    enclosures: Enclosures,
    arithmetic: Arithmetic,
    point: Seq<Real>,
) -> Seq<Real> {
    system.plans@.map_values(|plan: Plan| score_of(system, enclosures, arithmetic, plan, point))
}

/// The least of scores, or infinity.
pub open spec fn least_of(scores: Seq<Real>) -> Real
    decreases scores.len(),
{
    if scores.len() == 0 {
        infinity()
    } else {
        least_of(scores.drop_last()).lower(scores.last())
    }
}

/// The indices below `upto` of the scores that tie for the least, in order.
pub open spec fn tied_below(scores: Seq<Real>, limit: Real, upto: int) -> Seq<int>
    decreases upto,
{
    if upto <= 0 {
        Seq::empty()
    } else if scores[upto - 1].at_most(limit) {
        tied_below(scores, limit, upto - 1).push(upto - 1)
    } else {
        tied_below(scores, limit, upto - 1)
    }
}

/// The plans that pin a point hardest: every one, if there is one or none;
/// otherwise those whose score ties for the least.
pub open spec fn tightest_of<E>(
    system: ConstraintSystem<E>,
    enclosures: Enclosures,
    arithmetic: Arithmetic,
    point: Seq<Real>,
) -> Seq<int> {
    if system.plans@.len() <= 1 {
        Seq::new(system.plans@.len(), |i: int| i)
    } else {
        let scores = scores_of(system, enclosures, arithmetic, point);
        tied_below(scores, arithmetic.plus(least_of(scores), tie()), scores.len() as int)
    }
}

fn score<E, I: Intervals, M: Machine>(
    system: &ConstraintSystem<E>,
    intervals: &I,
    machine: &M,
    plan: &Plan,
    point: &Vec<Real>,
) -> (total: Real)
    requires
        system.well_formed(),
        system.fits(point@),
        is_plan_over(*plan, system.variables@.len() as int),
    ensures
        regular(*intervals) && deterministic(*machine) ==> total == score_of(
            *system,
            enclosures_of(*intervals),
            arithmetic_of(*machine),
            *plan,
            point@,
        ),
{
    let ghost enclosures = enclosures_of(*intervals);
    let ghost arithmetic = arithmetic_of(*machine);
    let driven = &plan.driven;
    let count: usize = driven.len();
    let mut settled = unsettled(system.variables.len(), driven);
    let mut total = zero();
    for i in 0..count
        invariant
            system.well_formed(),
            system.fits(point@),
            enclosures == enclosures_of(*intervals),
            arithmetic == arithmetic_of(*machine),
            *driven == plan.driven,
            count == driven@.len(),
            driven@.no_duplicates(),
            forall|k: int| 0 <= k < driven@.len() ==> (#[trigger] driven@[k]) < system.variables@.len(),
            settled@ == settled_before(system.variables@.len(), driven@, i as int),
            regular(*intervals) && deterministic(*machine) ==> total == score_so_far(
                *system,
                enclosures,
                arithmetic,
                *plan,
                point@,
                i as int,
            ),
    {
        let at: usize = driven[i];
        let slice = slice_conditioned(system, intervals, point, at, Some(&settled));
        let width = system.variables[at].width(machine);
        let fraction = if slice.is_empty() || width.le(zero()) {
            one()
        } else {
            over(machine, slice.width(machine), width).min(one())
        };
        total = plus(machine, total, fraction);
        proof {
            assert(system.variables@.len() <= usize::MAX);
            settling_one(system.variables@.len(), driven@, i as int);
        }
        settled.set(at, true);
    }
    total
}

/// The plans that pin `point` hardest: indices into the system's plans, in
/// order, every one that ties for it. On an arm of a disjunction the arm's own
/// parametrisation is the one whose driven coordinate is held to a band, so
/// this is what selects the branch a point is on. With one plan there is
/// nothing to score and nothing is spent.
pub fn tightest<E, I: Intervals, M: Machine>(
    system: &ConstraintSystem<E>,
    intervals: &I,
    machine: &M,
    point: &Vec<Real>,
) -> (found: Vec<usize>)
    requires
        system.well_formed(),
        system.fits(point@),
    ensures
        forall|i: int| 0 <= i < found@.len() ==> (#[trigger] found@[i]) < system.plans@.len(),
        system.plans@.len() == 1 ==> integers(found@) == seq![0int],
        regular(*intervals) && deterministic(*machine) ==> integers(found@) == tightest_of(
            *system,
            enclosures_of(*intervals),
            arithmetic_of(*machine),
            point@,
        ),
{
    let ghost known = regular(*intervals) && deterministic(*machine);
    let ghost enclosures = enclosures_of(*intervals);
    let ghost arithmetic = arithmetic_of(*machine);
    let total: usize = system.plans.len();
    let mut found: Vec<usize> = Vec::new();
    if total <= 1 {
        if total == 1 {
            found.push(0);
        }
        assert(integers(found@) =~= Seq::new(system.plans@.len(), |i: int| i));
        assert(total == 1 ==> integers(found@) =~= seq![0int]);
        return found;
    }
    let mut scores: Vec<Real> = Vec::with_capacity(total);
    let mut least = infinity();
    let ghost all = scores_of(*system, enclosures, arithmetic, point@);
    for p in 0..total
        invariant
            system.well_formed(),
                system.fits(point@),
            total == system.plans@.len(),
            known == (regular(*intervals) && deterministic(*machine)),
            enclosures == enclosures_of(*intervals),
            arithmetic == arithmetic_of(*machine),
            all == scores_of(*system, enclosures, arithmetic, point@),
            scores@.len() == p,
            known ==> scores@ == all.take(p as int),
            least == least_of(scores@),
    {
        assert(is_plan_over(system.plans@[p as int], system.variables@.len() as int));
        let one_score = score(system, intervals, machine, &system.plans[p], point);
        let ghost before = scores@;
        scores.push(one_score);
        proof {
            assert(scores@.drop_last() =~= before);
            if known {
                assert(all.take(p + 1) =~= all.take(p as int).push(all[p as int]));
            }
        }
        least = least.min(one_score);
    }
    proof {
        if known {
            assert(all.take(total as int) =~= all);
        }
    }
    let limit = plus(machine, least, tie());
    assert(integers(found@) =~= tied_below(scores@, limit, 0));
    for p in 0..total
        invariant
            total == system.plans@.len() == scores@.len(),
            integers(found@) == tied_below(scores@, limit, p as int),
            forall|i: int| 0 <= i < found@.len() ==> (#[trigger] found@[i]) < total,
    {
        if scores[p].le(limit) {
            let ghost before = found@;
            found.push(p);
            assert(integers(found@) =~= integers(before).push(p as int));
        }
    }
    found
}

/// Every driven coordinate moved the least distance that puts it in its slice,
/// under the first of the tightest plans; the point as it is where there is
/// none.
pub open spec fn settled_point<E>(
    system: ConstraintSystem<E>,
    enclosures: Enclosures,
    arithmetic: Arithmetic,
    point: Seq<Real>,
) -> Seq<Real> {
    let chosen = tightest_of(system, enclosures, arithmetic, point);
    if chosen.len() == 0 {
        point
    } else {
        driven_by(
            system,
            enclosures,
            system.plans@[chosen[0]],
            point,
            |slice: Interval, value: Real| clamped(slice, value),
        )
    }
}

/// Clamps every driven coordinate into its slice. A repair produces one point,
/// near a given one, and the same every time it is asked.
pub fn settle<E, I: Intervals, M: Machine>(system: &ConstraintSystem<E>, intervals: &I, machine: &M, point: &mut Point)
    requires
        system.well_formed(),
        system.fits(old(point)@),
    ensures
        system.fits(final(point)@),
        system.plans@.len() == 0 ==> final(point)@ == old(point)@,
        regular(*intervals) && deterministic(*machine) ==> final(point)@ == settled_point(
            *system,
            enclosures_of(*intervals),
            arithmetic_of(*machine),
            old(point)@,
        ),
{
    let chosen = tightest(system, intervals, machine, point);
    assert(integers(chosen@).len() == chosen@.len());
    if chosen.len() == 0 {
        return;
    }
    let plan = &system.plans[chosen[0]];
    assert(is_plan_over(*plan, system.variables@.len() as int));
    assert(integers(chosen@)[0] == chosen@[0]);
    let place = |slice: Interval, value: Real| -> (placed: Real)
        ensures
            placed == clamped(slice, value),
        { clamp(slice, value) };
    let ghost model = |slice: Interval, value: Real| clamped(slice, value);
    assert(places_as(place, model));
    let ghost start = point@;
    drive(system, intervals, plan, point, place);
    proof {
        if regular(*intervals) {
            let enclosures = enclosures_of(*intervals);
            let placed = choose|placed: Seq<Real>|
                {
                    &&& #[trigger] are_placed(*system, enclosures, *plan, start, place, placed)
                    &&& point@ == driven_with(*system, enclosures, *plan, start, placed, placed.len() as int)
                };
            a_model_decides(*system, enclosures, *plan, start, place, placed, model, placed.len() as int);
        }
    }
}

/// Every driven coordinate outside its slice put in the middle of it, under the
/// first of the tightest plans.
pub open spec fn centred_point<E>(
    system: ConstraintSystem<E>,
    enclosures: Enclosures,
    arithmetic: Arithmetic,
    point: Seq<Real>,
) -> Seq<Real> {
    let chosen = tightest_of(system, enclosures, arithmetic, point);
    if chosen.len() == 0 {
        point
    } else {
        driven_by(
            system,
            enclosures,
            system.plans@[chosen[0]],
            point,
            |slice: Interval, value: Real| centred(arithmetic, slice, value),
        )
    }
}

/// Puts every driven coordinate that is outside its slice at the centre of it:
/// what a seed wants, since the centre of a band is on the surface. One already
/// inside is left, because a slice may be the hull of two bands whose centre is
/// in neither.
pub fn centre<E, I: Intervals, M: Machine>(system: &ConstraintSystem<E>, intervals: &I, machine: &M, point: &mut Point)
    requires
        system.well_formed(),
        system.fits(old(point)@),
    ensures
        system.fits(final(point)@),
        system.plans@.len() == 0 ==> final(point)@ == old(point)@,
        regular(*intervals) && deterministic(*machine) ==> final(point)@ == centred_point(
            *system,
            enclosures_of(*intervals),
            arithmetic_of(*machine),
            old(point)@,
        ),
{
    let chosen = tightest(system, intervals, machine, point);
    assert(integers(chosen@).len() == chosen@.len());
    if chosen.len() == 0 {
        return;
    }
    let plan = &system.plans[chosen[0]];
    assert(is_plan_over(*plan, system.variables@.len() as int));
    assert(integers(chosen@)[0] == chosen@[0]);
    let place = |slice: Interval, value: Real| -> (placed: Real)
        ensures
            deterministic(*machine) ==> placed == centred(arithmetic_of(*machine), slice, value),
        {
            if slice.contains(value) {
                value
            } else {
                middle(machine, slice)
            }
        };
    let ghost arithmetic = arithmetic_of(*machine);
    let ghost model = |slice: Interval, value: Real| centred(arithmetic, slice, value);
    assert(deterministic(*machine) ==> places_as(place, model));
    let ghost start = point@;
    drive(system, intervals, plan, point, place);
    proof {
        if regular(*intervals) && deterministic(*machine) {
            let enclosures = enclosures_of(*intervals);
            let placed = choose|placed: Seq<Real>|
                {
                    &&& #[trigger] are_placed(*system, enclosures, *plan, start, place, placed)
                    &&& point@ == driven_with(*system, enclosures, *plan, start, placed, placed.len() as int)
                };
            a_model_decides(*system, enclosures, *plan, start, place, placed, model, placed.len() as int);
        }
    }
}

/// Draws every driven coordinate from its slice, or takes the lower end where
/// the slice has no width. With the others held, the feasible slice of a driven
/// coordinate is an interval, and drawing uniformly from it leaves the uniform
/// distribution over the region as it is.
pub fn retract<E, I: Intervals, M: Machine, D: Fn(Interval) -> Real>(
    system: &ConstraintSystem<E>,
    intervals: &I,
    machine: &M,
    plan: &Plan,
    point: &mut Point,
    draw: D,
)
    requires
        system.well_formed(),
        system.fits(old(point)@),
        is_plan_over(*plan, system.variables@.len() as int),
        forall|slice: Interval| !slice.has_nothing() ==> #[trigger] call_requires(draw, (slice,)),
    ensures
        system.fits(final(point)@),
        forall|c: int|
            0 <= c < old(point)@.len() && !integers(plan.driven@).contains(c) ==> #[trigger] final(point)@[c] == old(point)@[c],
        regular(*intervals) && deterministic(*machine) ==> exists|drawn: Seq<Real>|
            {
                &&& #[trigger] are_drawn(
                    *system,
                    enclosures_of(*intervals),
                    arithmetic_of(*machine),
                    *plan,
                    old(point)@,
                    draw,
                    drawn,
                )
                &&& final(point)@ == driven_with(
                    *system,
                    enclosures_of(*intervals),
                    *plan,
                    old(point)@,
                    drawn,
                    drawn.len() as int,
                )
            },
{
    let drawing = &draw;
    let place = |slice: Interval, value: Real| -> (placed: Real)
        requires
            !slice.has_nothing(),
        ensures
            deterministic(*machine) ==> if zero().below(slice.extent(arithmetic_of(*machine))) {
                call_ensures(*drawing, (slice,), placed)
            } else {
                placed == slice.lo
            },
        {
            if zero().lt(slice.width(machine)) {
                drawing(slice)
            } else {
                slice.lo
            }
        };
    let ghost start = point@;
    drive(system, intervals, plan, point, place);
    proof {
        if regular(*intervals) && deterministic(*machine) {
            let enclosures = enclosures_of(*intervals);
            let placed = choose|placed: Seq<Real>|
                {
                    &&& #[trigger] are_placed(*system, enclosures, *plan, start, place, placed)
                    &&& point@ == driven_with(*system, enclosures, *plan, start, placed, placed.len() as int)
                };
            assert forall|i: int| 0 <= i < placed.len() implies {
                let before = driven_with(*system, enclosures, *plan, start, placed, i);
                let slice = driving_slice(*system, enclosures, *plan, before, i);
                slice.has_nothing() || is_drawn(arithmetic_of(*machine), draw, slice, #[trigger] placed[i])
            } by {}
            assert(are_drawn(*system, enclosures, arithmetic_of(*machine), *plan, start, draw, placed));
        }
    }
}

/// Whether a value was drawn from a slice, or is the end of one without width.
pub open spec fn is_drawn<D: Fn(Interval) -> Real>(
    arithmetic: Arithmetic,
    draw: D,
    slice: Interval,
    value: Real,
) -> bool {
    if zero().below(slice.extent(arithmetic)) {
        call_ensures(draw, (slice,), value)
    } else {
        value == slice.lo
    }
}

/// Whether every value was drawn from the slice met.
pub open spec fn are_drawn<E, D: Fn(Interval) -> Real>(
    system: ConstraintSystem<E>,
    enclosures: Enclosures,
    arithmetic: Arithmetic,
    plan: Plan,
    point: Seq<Real>,
    draw: D,
    drawn: Seq<Real>,
) -> bool {
    &&& drawn.len() == plan.driven@.len()
    &&& forall|i: int|
        0 <= i < drawn.len() ==> {
            let before = driven_with(system, enclosures, plan, point, drawn, i);
            let slice = driving_slice(system, enclosures, plan, before, i);
            slice.has_nothing() || is_drawn(arithmetic, draw, slice, #[trigger] drawn[i])
        }
}

// ---- laws ----

/// A constraint's symbols at a point.
pub open spec fn row_at(rows: Seq<usize>, point: Seq<Real>) -> Seq<Real> {
    Seq::new(rows.len(), |k: int| point[rows[k] as int])
}

/// A slice is within the declared range: what a coordinate may be is what it may
/// be anywhere, narrowed.
pub proof fn a_slice_is_in_its_range<E>(
    system: ConstraintSystem<E>,
    enclosures: Enclosures,
    point: Seq<Real>,
    coordinate: int,
    settled: Option<Seq<bool>>,
    value: Real,
)
    requires
        slice_of(system, enclosures, point, coordinate, settled).has_value(value),
    ensures
        system.variables@[coordinate].range().has_value(value),
{
    slicing_only_narrows(
        system,
        enclosures,
        point,
        coordinate,
        settled,
        value,
        system.incidence.naming@[coordinate]@.len() as int,
    );
}

proof fn slicing_only_narrows<E>(
    system: ConstraintSystem<E>,
    enclosures: Enclosures,
    point: Seq<Real>,
    coordinate: int,
    settled: Option<Seq<bool>>,
    value: Real,
    upto: int,
)
    requires
        sliced(system, enclosures, point, coordinate, settled, upto).has_value(value),
    ensures
        system.variables@[coordinate].range().has_value(value),
    decreases upto,
{
    if upto > 0 {
        let before = sliced(system, enclosures, point, coordinate, settled, upto - 1);
        let id = system.incidence.naming@[coordinate]@[upto - 1] as int;
        let rows = system.incidence.rows@[id]@;
        if !((upto > 1 && before.has_nothing()) || !is_conditionable(rows, coordinate, settled)) {
            let wanted = first_row(rows, coordinate);
            common_has_nothing_else(
                before,
                system.constraints@[id].intervals.narrowed(
                    enclosures,
                    conditions(rows, point, wanted, before),
                    wanted as u32,
                ),
                value,
            );
        }
        slicing_only_narrows(system, enclosures, point, coordinate, settled, value, upto - 1);
    }
}

/// Whether a constraint's tape comes to a residual at most zero at a point,
/// without meeting a NaN.
pub open spec fn tape_holds<E>(system: ConstraintSystem<E>, semantics: Semantics, c: int, point: Seq<Real>) -> bool {
    system.constraints@[c].intervals.is_solution(
        semantics,
        Seq::empty(),
        row_at(system.incidence.rows@[c]@, point),
    )
}

/// Whether each constraint that passes at a point has its tape hold there.
pub open spec fn tapes_agree<E: Evaluate>(system: ConstraintSystem<E>, semantics: Semantics, point: Seq<Real>) -> bool {
    forall|c: int|
        0 <= c < system.constraints@.len() && passes(system.judge(c), point) ==> #[trigger] tape_holds(
            system,
            semantics,
            c,
            point,
        )
}

/// Whether what the constraints' sweeps ask of the interval operators they are
/// told rightly at a point, in whatever box around it they ask.
pub open spec fn encloses_around<E>(
    system: ConstraintSystem<E>,
    enclosures: Enclosures,
    semantics: Semantics,
    point: Seq<Real>,
) -> bool {
    forall|c: int, globals: Seq<Interval>, wanted: u32|
        0 <= c < system.constraints@.len() && system.constraints@[c].intervals.is_solution(
            semantics,
            globals,
            row_at(system.incidence.rows@[c]@, point),
        ) ==> #[trigger] system.constraints@[c].intervals.encloses_at(
            enclosures,
            semantics,
            globals,
            row_at(system.incidence.rows@[c]@, point),
            wanted,
        )
}

/// Where the interval operators enclose whatever they are asked, they do around
/// every point.
pub proof fn enclosing_is_enclosing_around<E>(
    system: ConstraintSystem<E>,
    enclosures: Enclosures,
    semantics: Semantics,
    point: Seq<Real>,
)
    requires
        encloses(enclosures, semantics.arithmetic),
    ensures
        encloses_around(system, enclosures, semantics, point),
{
    assert forall|c: int, globals: Seq<Interval>, wanted: u32|
        0 <= c < system.constraints@.len() && system.constraints@[c].intervals.is_solution(
            semantics,
            globals,
            row_at(system.incidence.rows@[c]@, point),
        ) implies #[trigger] system.constraints@[c].intervals.encloses_at(
        enclosures,
        semantics,
        globals,
        row_at(system.incidence.rows@[c]@, point),
        wanted,
    ) by {
        enclosing_is_enclosing_everywhere(
            system.constraints@[c].intervals,
            enclosures,
            semantics,
            globals,
            row_at(system.incidence.rows@[c]@, point),
            wanted,
        );
    }
}

/// A slice leaves no solution out: a value at which every constraint naming the
/// coordinate holds is in the coordinate's slice, where the interval operators
/// enclose what is asked of them there.
pub proof fn a_slice_has_every_solution<E>(
    system: ConstraintSystem<E>,
    enclosures: Enclosures,
    semantics: Semantics,
    point: Seq<Real>,
    coordinate: int,
    settled: Option<Seq<bool>>,
    value: Real,
)
    requires
        system.well_formed(),
        encloses_around(system, enclosures, semantics, point.update(coordinate, value)),
        is_plain(semantics),
        system.fits(point),
        0 <= coordinate < point.len(),
        forall|k: int| 0 <= k < point.len() ==> !(#[trigger] point[k]).nan(),
        system.variables@[coordinate].range().has_value(value),
        forall|c: int|
            0 <= c < system.constraints@.len() ==> #[trigger] tape_holds(
                system,
                semantics,
                c,
                point.update(coordinate, value),
            ) && system.incidence.rows@[c]@.no_duplicates(),
    ensures
        slice_of(system, enclosures, point, coordinate, settled).has_value(value),
{
    slicing_keeps_a_solution(
        system,
        enclosures,
        semantics,
        point,
        coordinate,
        settled,
        value,
        system.incidence.naming@[coordinate]@.len() as int,
    );
}

proof fn slicing_keeps_a_solution<E>(
    system: ConstraintSystem<E>,
    enclosures: Enclosures,
    semantics: Semantics,
    point: Seq<Real>,
    coordinate: int,
    settled: Option<Seq<bool>>,
    value: Real,
    upto: int,
)
    requires
        system.well_formed(),
        encloses_around(system, enclosures, semantics, point.update(coordinate, value)),
        is_plain(semantics),
        system.fits(point),
        0 <= coordinate < point.len(),
        forall|k: int| 0 <= k < point.len() ==> !(#[trigger] point[k]).nan(),
        system.variables@[coordinate].range().has_value(value),
        forall|c: int|
            0 <= c < system.constraints@.len() ==> #[trigger] tape_holds(
                system,
                semantics,
                c,
                point.update(coordinate, value),
            ) && system.incidence.rows@[c]@.no_duplicates(),
        upto <= system.incidence.naming@[coordinate]@.len(),
    ensures
        sliced(system, enclosures, point, coordinate, settled, upto).has_value(value),
    decreases upto,
{
    if upto > 0 {
        slicing_keeps_a_solution(system, enclosures, semantics, point, coordinate, settled, value, upto - 1);
        let before = sliced(system, enclosures, point, coordinate, settled, upto - 1);
        let list = system.incidence.naming@[coordinate]@;
        let id = list[upto - 1] as int;
        assert(integers(list)[upto - 1] == id);
        naming_lists_who_names(
            system.incidence,
            system.constraints@.len() as int,
            system.variables@.len() as int,
            coordinate,
            id,
        );
        let rows = system.incidence.rows@[id]@;
        let wanted = first_row(rows, coordinate);
        let there = choose|k: int| 0 <= k < integers(rows).len() && integers(rows)[k] == coordinate;
        assert(rows[there] == coordinate);
        assert(rows.no_duplicates()) by {
            assert(tape_holds(system, semantics, id, point.update(coordinate, value)));
        }
        first_row_is(rows, coordinate, there);
        let tape = system.constraints@[id].intervals;
        let globals = conditions(rows, point, wanted, before);
        let moved = point.update(coordinate, value);
        let row = row_at(rows, moved);
        assert(tape_holds(system, semantics, id, moved));
        assert forall|g: int| 0 <= g < globals.len() implies (#[trigger] globals[g]).has_value(row[g]) by {
            assert(system.incidence.rows@[id]@[g] < system.variables@.len());
            if g != wanted {
                assert(rows[g] != rows[wanted]);
                assert(!point[rows[g] as int].nan());
            }
        }
        assert(tape.well_formed());
        assert(tape.is_solution(semantics, globals, row));
        assert(tape.encloses_at(enclosures, semantics, globals, row, wanted as u32));
        narrowing_keeps_every_solution(tape, enclosures, semantics, globals, row, wanted as u32);
        common_has_what_both_have(before, tape.narrowed(enclosures, globals, wanted as u32), value);
    }
}

/// Whether a number is between two others, ends included.
pub open spec fn is_between(a: Real, middle: Real, b: Real) -> bool {
    (a.at_most(middle) && middle.at_most(b)) || (b.at_most(middle) && middle.at_most(a))
}

/// A clamped number is the nearest there is: it lies between the number and
/// whatever else the slice has.
pub proof fn clamping_goes_no_farther_than_it_must(slice: Interval, value: Real, other: Real)
    requires
        !value.nan(),
        slice.has_value(other),
    ensures
        slice.has_value(clamped(slice, value)),
        is_between(value, clamped(slice, value), other),
{
}

/// A slice heeds every constraint: it is inside what each constraint naming the
/// coordinate leaves of what the ones before it left, or there was nothing left.
pub proof fn a_slice_heeds_every_constraint<E>(
    system: ConstraintSystem<E>,
    enclosures: Enclosures,
    point: Seq<Real>,
    coordinate: int,
    i: int,
    upto: int,
)
    requires
        0 <= i < upto <= system.incidence.naming@[coordinate]@.len(),
    ensures
        ({
            let id = system.incidence.naming@[coordinate]@[i] as int;
            let rows = system.incidence.rows@[id]@;
            let wanted = first_row(rows, coordinate);
            let before = sliced(system, enclosures, point, coordinate, None, i);
            ||| i > 0 && before.has_nothing()
            ||| crate::hc4::is_inside(
                sliced(system, enclosures, point, coordinate, None, upto),
                system.constraints@[id].intervals.narrowed(
                    enclosures,
                    conditions(rows, point, wanted, before),
                    wanted as u32,
                ),
            )
        }),
    decreases upto,
{
    let after = sliced(system, enclosures, point, coordinate, None, upto);
    let less = sliced(system, enclosures, point, coordinate, None, upto - 1);
    let last = system.incidence.naming@[coordinate]@[upto - 1] as int;
    let rows = system.incidence.rows@[last]@;
    let wanted = first_row(rows, coordinate);
    let allowed = system.constraints@[last].intervals.narrowed(
        enclosures,
        conditions(rows, point, wanted, less),
        wanted as u32,
    );
    assert forall|value: Real| #[trigger] after.has_value(value) implies less.has_value(value) by {
        if !(upto > 1 && less.has_nothing()) {
            common_has_nothing_else(less, allowed, value);
        }
    }
    if i < upto - 1 {
        a_slice_heeds_every_constraint(system, enclosures, point, coordinate, i, upto - 1);
    } else if !(i > 0 && less.has_nothing()) {
        assert forall|value: Real| #[trigger] after.has_value(value) implies allowed.has_value(value) by {
            common_has_nothing_else(less, allowed, value);
        }
    }
}

/// A middle is as far from one end as from the other, where the answers are exact.
pub proof fn a_middle_is_in_the_middle(arithmetic: Arithmetic, interval: Interval)
    requires
        subtracts_exactly(arithmetic, interval.hi, interval.lo),
        divides_exactly(arithmetic, interval.extent(arithmetic), two()),
        adds_exactly(arithmetic, interval.lo, arithmetic.over(interval.extent(arithmetic), two())),
    ensures
        quantity(middle_of(arithmetic, interval)) - quantity(interval.lo) == quantity(interval.hi) - quantity(
            middle_of(arithmetic, interval),
        ),
{
    the_constants_are_what_they_say();
    let gap = quantity(interval.hi) - quantity(interval.lo);
    assert(gap / 2real + gap / 2real == gap) by (nonlinear_arith);
}

proof fn the_least_is_a_number(scores: Seq<Real>)
    ensures
        !least_of(scores).nan(),
    decreases scores.len(),
{
    if scores.len() > 0 {
        the_least_is_a_number(scores.drop_last());
    }
}

/// No score is below the least, and where every score is a number the least is one
/// of them.
pub proof fn the_least_is_the_least(scores: Seq<Real>, i: int)
    requires
        0 <= i < scores.len(),
    ensures
        !scores[i].below(least_of(scores)),
        (forall|j: int| 0 <= j < scores.len() ==> !(#[trigger] scores[j]).nan()) ==> exists|j: int|
            0 <= j < scores.len() && least_of(scores).same(#[trigger] scores[j]),
    decreases scores.len(),
{
    let fewer = scores.drop_last();
    the_least_is_a_number(fewer);
    if i < scores.len() - 1 {
        the_least_is_the_least(fewer, i);
    } else if fewer.len() > 0 {
        the_least_is_the_least(fewer, 0);
    }
    if forall|j: int| 0 <= j < scores.len() ==> !(#[trigger] scores[j]).nan() {
        assert forall|j: int| 0 <= j < fewer.len() implies !(#[trigger] fewer[j]).nan() by {
            assert(scores[j] == fewer[j]);
        }
        let last = scores[scores.len() - 1];
        if least_of(scores).same(last) {
        } else {
            if fewer.len() == 0 {
                assert(least_of(fewer) == infinity());
            } else {
                let j = choose|j: int| 0 <= j < fewer.len() && least_of(fewer).same(#[trigger] fewer[j]);
                assert(least_of(scores).same(scores[j]));
            }
        }
    }
}

/// The plans that pin a point hardest are all those whose score is within a rounding
/// of the least, in order, and no other.
pub proof fn all_that_tie_are_listed(scores: Seq<Real>, limit: Real, upto: int, i: int)
    requires
        0 <= i < upto <= scores.len(),
    ensures
        tied_below(scores, limit, upto).contains(i) <==> scores[i].at_most(limit),
    decreases upto,
{
    let before = tied_below(scores, limit, upto - 1);
    let after = tied_below(scores, limit, upto);
    tied_are_below(scores, limit, upto - 1);
    if i < upto - 1 {
        all_that_tie_are_listed(scores, limit, upto - 1, i);
        if before.contains(i) {
            let j = choose|j: int| 0 <= j < before.len() && before[j] == i;
            assert(after[j] == i);
        }
        if after.contains(i) {
            let j = choose|j: int| 0 <= j < after.len() && after[j] == i;
            assert(before[j] == i);
        }
    } else {
        if scores[i].at_most(limit) {
            assert(after[after.len() - 1] == i);
        } else if after.contains(i) {
            let j = choose|j: int| 0 <= j < after.len() && after[j] == i;
            assert(before[j] < upto - 1);
        }
    }
}

proof fn tied_are_below(scores: Seq<Real>, limit: Real, upto: int)
    ensures
        forall|j: int| 0 <= j < tied_below(scores, limit, upto).len() ==> (#[trigger] tied_below(scores, limit, upto)[j]) < upto,
    decreases upto,
{
    if upto > 0 {
        tied_are_below(scores, limit, upto - 1);
        let before = tied_below(scores, limit, upto - 1);
        let after = tied_below(scores, limit, upto);
        assert forall|j: int| 0 <= j < after.len() implies (#[trigger] after[j]) < upto by {
            if j < before.len() {
                assert(after[j] == before[j]);
            }
        }
    }
}

/// A fraction is of the box: where the answers are exact, it is how wide the slice is
/// over how wide the box is, and never more than all of it; an empty slice and a box
/// without width count as all of it.
pub proof fn a_fraction_is_of_its_box(arithmetic: Arithmetic, variable: InputVariable, slice: Interval)
    requires
        variable.lower_bound.finite(),
        variable.upper_bound.finite(),
        variable.extent(arithmetic).finite(),
        subtracts_exactly(arithmetic, variable.upper_bound, variable.lower_bound),
        !slice.has_nothing() && quantity(variable.lower_bound) < quantity(variable.upper_bound) ==> {
            &&& subtracts_exactly(arithmetic, slice.hi, slice.lo)
            &&& divides_exactly(arithmetic, slice.extent(arithmetic), variable.extent(arithmetic))
            &&& arithmetic.over(slice.extent(arithmetic), variable.extent(arithmetic)).finite()
        },
    ensures
        ({
            let whole = quantity(variable.upper_bound) - quantity(variable.lower_bound);
            let part = (quantity(slice.hi) - quantity(slice.lo)) / whole;
            quantity(fraction_of(arithmetic, variable, slice)) == if slice.has_nothing() || whole <= 0real || 1real
                <= part {
                1real
            } else {
                part
            }
        }),
{
    the_constants_are_what_they_say();
    signs_are_exact(zero());
    assert(zero().finite() && one().finite());
    an_order_of_quantities(variable.extent(arithmetic), zero());
    let share = arithmetic.over(slice.extent(arithmetic), variable.extent(arithmetic));
    if !slice.has_nothing() && !variable.extent(arithmetic).at_most(zero()) {
        an_order_of_quantities(share, one());
        an_order_of_quantities(one(), share);
    }
}

/// The fractions of a plan's first driven coordinates added up.
pub open spec fn fractions<E>(
    system: ConstraintSystem<E>,
    enclosures: Enclosures,
    arithmetic: Arithmetic,
    plan: Plan,
    point: Seq<Real>,
    upto: int,
) -> real
    decreases upto,
{
    if upto <= 0 {
        0real
    } else {
        fractions(system, enclosures, arithmetic, plan, point, upto - 1) + quantity(
            fraction_of(
                arithmetic,
                system.variables@[plan.driven@[upto - 1] as int],
                driving_slice(system, enclosures, plan, point, upto - 1),
            ),
        )
    }
}

/// A score is the sum of the fractions of all the coordinates a plan drives, where the
/// answers are exact.
pub proof fn a_score_adds_up_its_fractions<E>(
    system: ConstraintSystem<E>,
    enclosures: Enclosures,
    arithmetic: Arithmetic,
    plan: Plan,
    point: Seq<Real>,
    upto: int,
)
    requires
        0 <= upto <= plan.driven@.len(),
        forall|i: int|
            0 <= i < upto ==> adds_exactly(
                arithmetic,
                score_so_far(system, enclosures, arithmetic, plan, point, i),
                fraction_of(
                    arithmetic,
                    system.variables@[plan.driven@[i] as int],
                    #[trigger] driving_slice(system, enclosures, plan, point, i),
                ),
            ),
    ensures
        quantity(score_so_far(system, enclosures, arithmetic, plan, point, upto)) == fractions(
            system,
            enclosures,
            arithmetic,
            plan,
            point,
            upto,
        ),
        upto == plan.driven@.len() ==> score_of(system, enclosures, arithmetic, plan, point) == score_so_far(
            system,
            enclosures,
            arithmetic,
            plan,
            point,
            upto,
        ),
    decreases upto,
{
    if upto > 0 {
        a_score_adds_up_its_fractions(system, enclosures, arithmetic, plan, point, upto - 1);
        let slice = driving_slice(system, enclosures, plan, point, upto - 1);
        assert(adds_exactly(
            arithmetic,
            score_so_far(system, enclosures, arithmetic, plan, point, upto - 1),
            fraction_of(arithmetic, system.variables@[plan.driven@[upto - 1] as int], slice),
        ));
    } else {
        signs_are_exact(zero());
    }
}

/// Driving places the driven and leaves the rest: a coordinate that is not driven stays
/// where it was; one that is ends in the slice it had when its turn came, where it had
/// any, and stays where it was where it had none.
pub proof fn driving_places_only_the_driven<E>(
    system: ConstraintSystem<E>,
    enclosures: Enclosures,
    plan: Plan,
    point: Seq<Real>,
    place: spec_fn(Interval, Real) -> Real,
    upto: int,
)
    requires
        0 <= upto <= plan.driven@.len(),
        plan.driven@.no_duplicates(),
        forall|i: int| 0 <= i < plan.driven@.len() ==> (#[trigger] plan.driven@[i]) < point.len(),
        forall|slice: Interval, value: Real|
            !slice.has_nothing() ==> slice.has_value(#[trigger] place(slice, value)),
    ensures
        ({
            let after = driven_so_far(system, enclosures, plan, point, place, upto);
            &&& after.len() == point.len()
            &&& forall|c: int|
                0 <= c < point.len() && !plan.driven@.take(upto).contains(c as usize) ==> #[trigger] after[c] == point[c]
            &&& forall|i: int|
                0 <= i < upto ==> {
                    let slice = driving_slice(
                        system,
                        enclosures,
                        plan,
                        driven_so_far(system, enclosures, plan, point, place, i),
                        i,
                    );
                    let there = after[#[trigger] plan.driven@[i] as int];
                    if slice.has_nothing() {
                        there == point[plan.driven@[i] as int]
                    } else {
                        slice.has_value(there)
                    }
                }
        }),
    decreases upto,
{
    if upto > 0 {
        driving_places_only_the_driven(system, enclosures, plan, point, place, upto - 1);
        let before = driven_so_far(system, enclosures, plan, point, place, upto - 1);
        let after = driven_so_far(system, enclosures, plan, point, place, upto);
        let at = plan.driven@[upto - 1];
        let fewer = plan.driven@.take(upto - 1);
        let taken = plan.driven@.take(upto);
        assert(taken[upto - 1] == at);
        assert forall|c: int| 0 <= c < point.len() && !taken.contains(c as usize) implies #[trigger] after[c] == point[c] by {
            assert(!fewer.contains(c as usize)) by {
                if fewer.contains(c as usize) {
                    let i = choose|i: int| 0 <= i < fewer.len() && fewer[i] == c as usize;
                    assert(taken[i] == c as usize);
                }
            }
            assert(before[c] == point[c]);
        }
        assert(!fewer.contains(at));
        assert(before[at as int] == point[at as int]);
        assert forall|i: int| 0 <= i < upto implies {
            let slice = driving_slice(
                system,
                enclosures,
                plan,
                driven_so_far(system, enclosures, plan, point, place, i),
                i,
            );
            let there = after[#[trigger] plan.driven@[i] as int];
            if slice.has_nothing() {
                there == point[plan.driven@[i] as int]
            } else {
                slice.has_value(there)
            }
        } by {
            if i < upto - 1 {
                assert(plan.driven@[i] != at);
                assert(after[plan.driven@[i] as int] == before[plan.driven@[i] as int]);
            }
        }
    }
}

} // verus!
