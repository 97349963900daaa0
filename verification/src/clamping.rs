//! Clamping a point into its slices.
//!
//! Each coordinate has a conditional slice, the interval it may occupy with the
//! others held; clamping into it is the axis projection onto that coordinate's
//! constraints. A sweep takes every coordinate's clamp from the point as it
//! stands and applies them cheapest first, until the point has the clearance
//! asked for. A slice is an outer enclosure, so its edge is a hair outside the
//! true bound: a landing there is nudged inward, in doublings of an ulp.

use vstd::prelude::*;
use crate::calculus::{quantity, the_constants_are_what_they_say};
use crate::interval::{enclosures_of, regular, Enclosures, Interval, Intervals};
use crate::machine::{arithmetic_of, deterministic, minus, over, plus, times, Arithmetic, Machine};
use crate::number::{half, least_normal, minus_one, one, power_of_two, two_to, zero, Real};
use crate::slicing::{clamp, clamped, is_between, slice, slice_of};
use crate::system::{affected_below, copied, is_within, ConstraintSystem, Evaluate, Point};
use crate::plans::integers;

verus! {

/// How many rounds of clamping a point gets. A clamp is computed with the other
/// coordinates held, so one that moves can open room for another; a point that
/// has not landed after this many is one the slices do not describe.
pub const CLAMP_SWEEPS: usize = 8;

/// How far inward a landing may be nudged, as a power of two in ulps.
pub const LANDING_LADDER: u32 = 20;

/// Whether everything that judges and narrows gives one answer to one question.
pub open spec fn is_known<E: Evaluate, I: Intervals, M: Machine>(
    system: ConstraintSystem<E>,
    intervals: I,
    machine: M,
) -> bool {
    deterministic(machine) && system.judged() && regular(intervals)
}

// ---- one coordinate ----

/// A move of a coordinate to where its slice wants it, and what it costs: how
/// much of the box the move is.
#[derive(Debug, Clone, Copy)]
pub struct Clamp {
    pub cost: Real,
    pub coordinate: usize,
    pub target: Real,
}

/// Where a coordinate is to go: into the slice, the clearance inside each edge of
/// it, and to the middle where there is no room for that.
pub open spec fn aimed(arithmetic: Arithmetic, slice: Interval, value: Real, clearance: Real, width: Real) -> Real {
    let step = arithmetic.times(clearance, width);
    let lo = arithmetic.plus(slice.lo, step);
    let hi = arithmetic.minus(slice.hi, step);
    if lo.at_most(hi) {
        clamped(Interval { lo, hi }, value)
    } else {
        arithmetic.times(half(), arithmetic.plus(slice.lo, slice.hi))
    }
}

/// A coordinate's clamp, if its slice has anything and it is not there already.
pub open spec fn clamp_of<E>(
    system: ConstraintSystem<E>,
    enclosures: Enclosures,
    arithmetic: Arithmetic,
    point: Seq<Real>,
    clearance: Real,
    coordinate: int,
) -> Option<Clamp> {
    let slice = slice_of(system, enclosures, point, coordinate, None);
    let width = system.variables@[coordinate].extent(arithmetic);
    let value = point[coordinate];
    let target = aimed(arithmetic, slice, value, clearance, width);
    if slice.has_nothing() || target.same(value) {
        None
    } else {
        Some(
            Clamp {
                cost: if zero().below(width) {
                    arithmetic.over(arithmetic.minus(target, value).absolute(), width)
                } else {
                    zero()
                },
                coordinate: coordinate as usize,
                target,
            },
        )
    }
}

/// The clamps of the coordinates below `upto`, in order.
pub open spec fn clamps_below<E>(
    system: ConstraintSystem<E>,
    enclosures: Enclosures,
    arithmetic: Arithmetic,
    point: Seq<Real>,
    clearance: Real,
    upto: int,
) -> Seq<Clamp>
    decreases upto,
{
    if upto <= 0 {
        Seq::empty()
    } else {
        let before = clamps_below(system, enclosures, arithmetic, point, clearance, upto - 1);
        match clamp_of(system, enclosures, arithmetic, point, clearance, upto - 1) {
            Some(found) => before.push(found),
            None => before,
        }
    }
}

/// Whether a clamp is applied before another: the cheaper first, and the lower
/// coordinate of two that cost the same.
pub open spec fn comes_before(a: Clamp, b: Clamp) -> bool {
    a.cost.rank() < b.cost.rank() || a.cost.rank() == b.cost.rank() && a.coordinate < b.coordinate
}

/// A list with a clamp put in, after every one it does not come before.
pub open spec fn put_in(list: Seq<Clamp>, new: Clamp) -> Seq<Clamp>
    decreases list.len(),
{
    if list.len() == 0 || !comes_before(new, list.last()) {
        list.push(new)
    } else {
        put_in(list.drop_last(), new).push(list.last())
    }
}

/// The first clamps of a list, in the order they are applied.
pub open spec fn in_turn(list: Seq<Clamp>, upto: int) -> Seq<Clamp>
    decreases upto,
{
    if upto <= 0 {
        Seq::empty()
    } else {
        put_in(in_turn(list, upto - 1), list[upto - 1])
    }
}

/// Whether no clamp comes before an earlier one.
pub open spec fn is_in_turn(list: Seq<Clamp>) -> bool {
    forall|i: int, j: int| 0 <= i < j < list.len() ==> !comes_before(#[trigger] list[j], #[trigger] list[i])
}

proof fn putting_in_keeps_the_turn(list: Seq<Clamp>, new: Clamp)
    requires
        is_in_turn(list),
    ensures
        is_in_turn(put_in(list, new)),
        put_in(list, new).to_multiset() == list.to_multiset().insert(new),
        put_in(list, new).len() == list.len() + 1,
    decreases list.len(),
{
    broadcast use vstd::seq_lib::group_to_multiset_ensures;

    let result = put_in(list, new);
    if list.len() == 0 || !comes_before(new, list.last()) {
        assert forall|i: int, j: int| 0 <= i < j < result.len() implies !comes_before(
            #[trigger] result[j],
            #[trigger] result[i],
        ) by {
            if j == list.len() {
                assert(result[i] == list[i]);
                if i < list.len() - 1 {
                    assert(!comes_before(list[list.len() - 1], list[i]));
                }
            } else {
                assert(result[i] == list[i] && result[j] == list[j]);
            }
        }
    } else {
        let shorter = list.drop_last();
        assert forall|i: int, j: int| 0 <= i < j < shorter.len() implies !comes_before(
            #[trigger] shorter[j],
            #[trigger] shorter[i],
        ) by {
            assert(shorter[i] == list[i] && shorter[j] == list[j]);
        }
        putting_in_keeps_the_turn(shorter, new);
        let inner = put_in(shorter, new);
        assert(list =~= shorter.push(list.last()));
        assert forall|i: int, j: int| 0 <= i < j < result.len() implies !comes_before(
            #[trigger] result[j],
            #[trigger] result[i],
        ) by {
            if j == result.len() - 1 {
                assert(result[i] == inner[i]);
                assert(inner.to_multiset().count(inner[i]) > 0) by {
                    assert(inner.contains(inner[i]));
                }
                if inner[i] != new {
                    assert(shorter.to_multiset().count(inner[i]) > 0);
                    assert(shorter.contains(inner[i]));
                    let k = choose|k: int| 0 <= k < shorter.len() && shorter[k] == inner[i];
                    assert(list[k] == inner[i]);
                    assert(!comes_before(list[list.len() - 1], list[k]));
                }
            } else {
                assert(result[i] == inner[i] && result[j] == inner[j]);
            }
        }
    }
}

/// Clamps are applied cheapest first, every one of them and each once.
pub proof fn the_cheapest_goes_first(list: Seq<Clamp>, upto: int)
    requires
        0 <= upto <= list.len(),
    ensures
        is_in_turn(in_turn(list, upto)),
        in_turn(list, upto).to_multiset() == list.take(upto).to_multiset(),
        in_turn(list, upto).len() == upto,
    decreases upto,
{
    broadcast use vstd::seq_lib::group_to_multiset_ensures;

    if upto > 0 {
        the_cheapest_goes_first(list, upto - 1);
        putting_in_keeps_the_turn(in_turn(list, upto - 1), list[upto - 1]);
        assert(list.take(upto) =~= list.take(upto - 1).push(list[upto - 1]));
    } else {
        assert(list.take(0) =~= Seq::<Clamp>::empty());
    }
}

fn precedes(a: Clamp, b: Clamp) -> (before: bool)
    ensures
        before == comes_before(a, b),
{
    a.cost.ranks_before(b.cost) || !b.cost.ranks_before(a.cost) && a.coordinate < b.coordinate
}

fn put(list: &mut Vec<Clamp>, new: Clamp)
    ensures
        final(list)@ == put_in(old(list)@, new),
{
    let ghost first = list@;
    let mut place: usize = list.len();
    assert(first.take(place as int) =~= first);
    assert(first.skip(place as int) =~= Seq::<Clamp>::empty());
    assert(put_in(first, new) =~= put_in(first, new) + first.skip(place as int));
    while place > 0 && precedes(new, list[place - 1])
        invariant
            list@ == first,
            place <= first.len(),
            put_in(first, new) == put_in(first.take(place as int), new) + first.skip(place as int),
        decreases place,
    {
        proof {
            let shorter = first.take(place as int);
            assert(shorter.drop_last() =~= first.take(place - 1));
            assert(first.skip(place - 1) =~= seq![first[place - 1]] + first.skip(place as int));
            assert(put_in(shorter.drop_last(), new).push(shorter.last()) + first.skip(place as int)
                =~= put_in(first.take(place - 1), new) + first.skip(place - 1));
        }
        place = place - 1;
    }
    proof {
        let shorter = first.take(place as int);
        assert(put_in(shorter, new) == shorter.push(new));
        assert(first.insert(place as int, new) =~= shorter.push(new) + first.skip(place as int));
    }
    list.insert(place, new);
}

fn aim<M: Machine>(machine: &M, slice: Interval, value: Real, clearance: Real, width: Real) -> (target: Real)
    ensures
        deterministic(*machine) ==> target == aimed(arithmetic_of(*machine), slice, value, clearance, width),
{
    let step = times(machine, clearance, width);
    let lo = plus(machine, slice.lo, step);
    let hi = minus(machine, slice.hi, step);
    if lo.le(hi) {
        clamp(Interval { lo, hi }, value)
    } else {
        times(machine, half(), plus(machine, slice.lo, slice.hi))
    }
}

fn clamp_at<E, I: Intervals, M: Machine>(
    system: &ConstraintSystem<E>,
    intervals: &I,
    machine: &M,
    point: &Vec<Real>,
    clearance: Real,
    coordinate: usize,
) -> (found: Option<Clamp>)
    requires
        system.well_formed(),
        system.fits(point@),
        coordinate < system.variables@.len(),
    ensures
        found matches Some(one_clamp) ==> one_clamp.coordinate == coordinate,
        regular(*intervals) && deterministic(*machine) ==> found == clamp_of(
            *system,
            enclosures_of(*intervals),
            arithmetic_of(*machine),
            point@,
            clearance,
            coordinate as int,
        ),
{
    let found = slice(system, intervals, point, coordinate);
    if found.is_empty() {
        return None;
    }
    let width = system.variables[coordinate].width(machine);
    let value = point[coordinate];
    let target = aim(machine, found, value, clearance, width);
    if target.equals(value) {
        return None;
    }
    let cost = if zero().lt(width) {
        over(machine, minus(machine, target, value).abs(), width)
    } else {
        zero()
    };
    Some(Clamp { cost, coordinate, target })
}

/// Whether every clamp is of one of so many coordinates.
pub open spec fn are_of(list: Seq<Clamp>, coordinates: int) -> bool {
    forall|i: int| 0 <= i < list.len() ==> (#[trigger] list[i]).coordinate < coordinates
}

proof fn putting_in_stays_in_range(list: Seq<Clamp>, new: Clamp, coordinates: int)
    requires
        are_of(list, coordinates),
        new.coordinate < coordinates,
    ensures
        are_of(put_in(list, new), coordinates),
    decreases list.len(),
{
    let result = put_in(list, new);
    if list.len() == 0 || !comes_before(new, list.last()) {
        assert forall|i: int| 0 <= i < result.len() implies (#[trigger] result[i]).coordinate < coordinates by {
            if i < list.len() {
                assert(result[i] == list[i]);
            }
        }
    } else {
        let shorter = list.drop_last();
        assert forall|i: int| 0 <= i < shorter.len() implies (#[trigger] shorter[i]).coordinate < coordinates by {
            assert(shorter[i] == list[i]);
        }
        putting_in_stays_in_range(shorter, new, coordinates);
        let inner = put_in(shorter, new);
        assert forall|i: int| 0 <= i < result.len() implies (#[trigger] result[i]).coordinate < coordinates by {
            if i < inner.len() {
                assert(result[i] == inner[i]);
            } else {
                assert(result[i] == list[list.len() - 1]);
            }
        }
    }
}

/// Every coordinate's clamp from the point as it stands, cheapest first.
fn clamps<E, I: Intervals, M: Machine>(
    system: &ConstraintSystem<E>,
    intervals: &I,
    machine: &M,
    point: &Vec<Real>,
    clearance: Real,
) -> (list: Vec<Clamp>)
    requires
        system.well_formed(),
        system.fits(point@),
    ensures
        are_of(list@, system.variables@.len() as int),
        regular(*intervals) && deterministic(*machine) ==> list@ == turns_of(
            *system,
            enclosures_of(*intervals),
            arithmetic_of(*machine),
            point@,
            clearance,
        ),
{
    let ghost known = regular(*intervals) && deterministic(*machine);
    let ghost enclosures = enclosures_of(*intervals);
    let ghost arithmetic = arithmetic_of(*machine);
    let ghost mut all: Seq<Clamp> = Seq::empty();
    let mut list: Vec<Clamp> = Vec::new();
    assert(list@ =~= in_turn(all, 0));
    for coordinate in 0..point.len()
        invariant
            system.well_formed(),
            system.fits(point@),
            known == (regular(*intervals) && deterministic(*machine)),
            enclosures == enclosures_of(*intervals),
            arithmetic == arithmetic_of(*machine),
            are_of(list@, system.variables@.len() as int),
            list@ == in_turn(all, all.len() as int),
            known ==> all == clamps_below(*system, enclosures, arithmetic, point@, clearance, coordinate as int),
    {
        if let Some(found) = clamp_at(system, intervals, machine, point, clearance, coordinate) {
            proof {
                putting_in_stays_in_range(list@, found, system.variables@.len() as int);
                let longer = all.push(found);
                earlier_turns_stay(all, longer, all.len() as int);
                all = longer;
            }
            put(&mut list, found);
        }
    }
    list
}

proof fn earlier_turns_stay(list: Seq<Clamp>, longer: Seq<Clamp>, upto: int)
    requires
        upto <= list.len() <= longer.len(),
        forall|i: int| 0 <= i < list.len() ==> (#[trigger] longer[i]) == list[i],
    ensures
        in_turn(list, upto) == in_turn(longer, upto),
    decreases upto,
{
    if upto > 0 {
        earlier_turns_stay(list, longer, upto - 1);
        assert(longer[upto - 1] == list[upto - 1]);
    }
}

/// Every coordinate's clamp from the point as it stands, cheapest first.
pub open spec fn turns_of<E>(
    system: ConstraintSystem<E>,
    enclosures: Enclosures,
    arithmetic: Arithmetic,
    point: Seq<Real>,
    clearance: Real,
) -> Seq<Clamp> {
    let all = clamps_below(system, enclosures, arithmetic, point, clearance, point.len() as int);
    in_turn(all, all.len() as int)
}

// ---- landing ----

/// Whether the constraints a move of a coordinate affects hold at a point with
/// the clearance, and the box does on that coordinate.
pub open spec fn is_landed<E: Evaluate>(
    system: ConstraintSystem<E>,
    arithmetic: Arithmetic,
    point: Seq<Real>,
    coordinate: int,
    clearance: Real,
) -> bool {
    let ids = affected_below(
        system.incidence.rows@,
        system.incidence.always@,
        coordinate,
        system.incidence.rows@.len() as int,
    );
    &&& is_within(arithmetic, system.variables@[coordinate], point[coordinate], clearance)
    &&& forall|i: int| 0 <= i < ids.len() ==> system.holds_at(arithmetic, #[trigger] ids[i], point, clearance)
}

proof fn the_affected_are_constraints(rows: Seq<Vec<usize>>, always: Seq<bool>, row: int, upto: int)
    ensures
        forall|i: int|
            0 <= i < affected_below(rows, always, row, upto).len() ==> 0 <= (#[trigger] affected_below(
                rows,
                always,
                row,
                upto,
            )[i]) < upto,
    decreases upto,
{
    if upto > 0 {
        the_affected_are_constraints(rows, always, row, upto - 1);
        let before = affected_below(rows, always, row, upto - 1);
        let after = affected_below(rows, always, row, upto);
        assert forall|i: int| 0 <= i < after.len() implies 0 <= (#[trigger] after[i]) < upto by {
            if i < before.len() {
                assert(after[i] == before[i]);
            }
        }
    }
}

/// The clamp's filter, never its judge: mid-clamp the rest of the system may
/// still be broken, and the question is only whether this landing is on the
/// right side of the walls it can see.
pub fn landed<E: Evaluate, M: Machine>(
    system: &ConstraintSystem<E>,
    machine: &M,
    point: &Vec<Real>,
    coordinate: usize,
    clearance: Real,
) -> (yes: bool)
    requires
        system.well_formed(),
        system.fits(point@),
        coordinate < system.variables@.len(),
    ensures
        deterministic(*machine) && system.judged() ==> yes == is_landed(
            *system,
            arithmetic_of(*machine),
            point@,
            coordinate as int,
            clearance,
        ),
{
    let ghost known = deterministic(*machine) && system.judged();
    let ghost arithmetic = arithmetic_of(*machine);
    if !system.within(machine, point, coordinate, clearance) {
        return false;
    }
    let mut neighbour = copied(point);
    let ids = system.incidence.affected(coordinate);
    let ghost all = integers(ids@);
    proof {
        the_affected_are_constraints(
            system.incidence.rows@,
            system.incidence.always@,
            coordinate as int,
            system.incidence.rows@.len() as int,
        );
    }
    for i in 0..ids.len()
        invariant
            system.well_formed(),
            system.fits(point@),
            neighbour@ == point@,
            known == (deterministic(*machine) && system.judged()),
            arithmetic == arithmetic_of(*machine),
            all == integers(ids@),
            all == affected_below(
                system.incidence.rows@,
                system.incidence.always@,
                coordinate as int,
                system.incidence.rows@.len() as int,
            ),
            forall|j: int| 0 <= j < all.len() ==> 0 <= (#[trigger] all[j]) < system.incidence.rows@.len(),
            known ==> forall|j: int| 0 <= j < i ==> system.holds_at(arithmetic, #[trigger] all[j], point@, clearance),
    {
        assert(all[i as int] == ids@[i as int]);
        let c: usize = ids[i];
        let rows = &system.incidence.rows[c];
        proof {
            assert forall|k: int| 0 <= k < rows@.len() implies (#[trigger] rows@[k]) < system.variables@.len() by {
                assert(system.incidence.rows@[c as int]@[k] < system.variables@.len());
            }
            if system.judged() {
                assert(crate::system::consistent(system.constraints@[c as int].compiled));
            }
        }
        let held = system.constraints[c].holds(machine, point, rows, &system.variables, clearance, &mut neighbour);
        if !held {
            assert(known ==> !system.holds_at(arithmetic, all[i as int], point@, clearance));
            return false;
        }
    }
    true
}

/// Where a nudge of so many ulps' doublings puts a coordinate.
pub open spec fn nudged(arithmetic: Arithmetic, target: Real, inward: Real, ulp: Real, rung: int) -> Real {
    arithmetic.plus(target, arithmetic.times(arithmetic.times(inward, ulp), power_of_two(rung)))
}

/// Where the ladder leaves a coordinate: at the first rung from `rung` on that
/// is landed, and at the target where none is.
pub open spec fn laddered<E: Evaluate>(
    system: ConstraintSystem<E>,
    arithmetic: Arithmetic,
    point: Seq<Real>,
    coordinate: int,
    clearance: Real,
    target: Real,
    inward: Real,
    ulp: Real,
    rung: int,
) -> Real
    decreases LANDING_LADDER - rung,
{
    if rung >= LANDING_LADDER {
        target
    } else {
        let here = nudged(arithmetic, target, inward, ulp, rung);
        if is_landed(system, arithmetic, point.update(coordinate, here), coordinate, clearance) {
            here
        } else {
            laddered(system, arithmetic, point, coordinate, clearance, target, inward, ulp, rung + 1)
        }
    }
}

/// An ulp at the scale of a target and a width: a bound at zero has ulps no
/// ladder climbs, and the width is the scale the residual's rounding lives at.
pub open spec fn ulp_at(arithmetic: Arithmetic, target: Real, width: Real) -> Real {
    let magnitude = target.absolute().upper(width).upper(least_normal());
    arithmetic.minus(magnitude.up(), magnitude)
}

/// A point with a clamp applied: at its target where that lands, and nudged
/// inward, the way it came, where it does not.
pub open spec fn applied<E: Evaluate>(
    system: ConstraintSystem<E>,
    arithmetic: Arithmetic,
    point: Seq<Real>,
    one_clamp: Clamp,
    clearance: Real,
) -> Seq<Real> {
    let coordinate = one_clamp.coordinate as int;
    let target = one_clamp.target;
    let placed = point.update(coordinate, target);
    if is_landed(system, arithmetic, placed, coordinate, clearance) {
        placed
    } else {
        let inward = if point[coordinate].below(target) {
            one()
        } else {
            minus_one()
        };
        let ulp = ulp_at(arithmetic, target, system.variables@[coordinate].extent(arithmetic));
        point.update(
            coordinate,
            laddered(system, arithmetic, placed, coordinate, clearance, target, inward, ulp, 0),
        )
    }
}

fn apply<E: Evaluate, M: Machine>(
    system: &ConstraintSystem<E>,
    machine: &M,
    point: &mut Point,
    one_clamp: Clamp,
    clearance: Real,
)
    requires
        system.well_formed(),
        system.fits(old(point)@),
        one_clamp.coordinate < system.variables@.len(),
    ensures
        system.fits(final(point)@),
        deterministic(*machine) && system.judged() ==> final(point)@ == applied(
            *system,
            arithmetic_of(*machine),
            old(point)@,
            one_clamp,
            clearance,
        ),
{
    let ghost known = deterministic(*machine) && system.judged();
    let ghost arithmetic = arithmetic_of(*machine);
    let ghost first = point@;
    let coordinate: usize = one_clamp.coordinate;
    let target = one_clamp.target;
    let value = point[coordinate];
    point.set(coordinate, target);
    if landed(system, machine, point, coordinate, clearance) {
        return;
    }
    let inward = if value.lt(target) {
        one()
    } else {
        minus_one()
    };
    let width = system.variables[coordinate].width(machine);
    let magnitude = target.abs().max(width).max(least_normal());
    let ulp = minus(machine, magnitude.next_up(), magnitude);
    let ghost placed = point@;
    let ghost whole = laddered(*system, arithmetic, placed, coordinate as int, clearance, target, inward, ulp, 0);
    let mut rung: u32 = 0;
    while rung < LANDING_LADDER
        invariant
            system.well_formed(),
            coordinate < system.variables@.len(),
            placed.len() == system.variables@.len(),
            point@ == placed,
            placed[coordinate as int] == target,
            rung <= LANDING_LADDER,
            known == (deterministic(*machine) && system.judged()),
            arithmetic == arithmetic_of(*machine),
            known ==> whole == laddered(
                *system,
                arithmetic,
                placed,
                coordinate as int,
                clearance,
                target,
                inward,
                ulp,
                rung as int,
            ),
            first.len() == placed.len(),
            placed == first.update(coordinate as int, target),
            known ==> applied(*system, arithmetic, first, one_clamp, clearance) == first.update(coordinate as int, whole),
            known == (deterministic(*machine) && system.judged()),
            first == old(point)@,
        decreases LANDING_LADDER - rung,
    {
        let here = plus(machine, target, times(machine, times(machine, inward, ulp), two_to(rung)));
        point.set(coordinate, here);
        if landed(system, machine, point, coordinate, clearance) {
            assert(point@ =~= first.update(coordinate as int, here));
            return;
        }
        point.set(coordinate, target);
        assert(point@ =~= placed);
        rung = rung + 1;
    }
}

// ---- sweeps ----

/// What clamping came to: a point, and whether it has the clearance.
pub ghost struct Swept {
    pub point: Seq<Real>,
    pub clear: bool,
}

/// The clamps of a list from `from` on applied in turn, until the point has the
/// clearance.
pub open spec fn swept_from<E: Evaluate>(
    system: ConstraintSystem<E>,
    arithmetic: Arithmetic,
    point: Seq<Real>,
    list: Seq<Clamp>,
    clearance: Real,
    from: int,
) -> Swept
    decreases list.len() - from,
{
    if from >= list.len() {
        Swept { point, clear: false }
    } else {
        let next = applied(system, arithmetic, point, list[from], clearance);
        if system.feasible(arithmetic, next, clearance) {
            Swept { point: next, clear: true }
        } else {
            swept_from(system, arithmetic, next, list, clearance, from + 1)
        }
    }
}

/// A point swept so many times, until it has the clearance or there is nothing
/// to clamp; and judged at the end rather than presumed.
pub open spec fn swept<E: Evaluate>(
    system: ConstraintSystem<E>,
    enclosures: Enclosures,
    arithmetic: Arithmetic,
    point: Seq<Real>,
    clearance: Real,
    left: nat,
) -> Swept
    decreases left,
{
    let list = turns_of(system, enclosures, arithmetic, point, clearance);
    if left == 0 || list.len() == 0 {
        Swept { point, clear: system.feasible(arithmetic, point, clearance) }
    } else {
        let one_sweep = swept_from(system, arithmetic, point, list, clearance, 0);
        if one_sweep.clear {
            one_sweep
        } else {
            swept(system, enclosures, arithmetic, one_sweep.point, clearance, (left - 1) as nat)
        }
    }
}

/// What clamping came to, as a result.
pub open spec fn swept_as(result: Result<Point, Point>) -> Swept {
    match result {
        Ok(point) => Swept { point: point@, clear: true },
        Err(point) => Swept { point: point@, clear: false },
    }
}

/// `from` clamped into its slices, sweep by sweep, until it has the clearance:
/// `Ok` with that point, `Err` with the point as far as clamping got. From an
/// infeasible point it is the axis projection; from a feasible one the step off
/// the walls, since a coordinate already inside its shrunk slice is not moved.
pub fn clamp_in<E: Evaluate, I: Intervals, M: Machine>(
    system: &ConstraintSystem<E>,
    intervals: &I,
    machine: &M,
    from: Point,
    clearance: Real,
) -> (result: Result<Point, Point>)
    requires
        system.well_formed(),
        system.fits(from@),
    ensures
        system.fits(swept_as(result).point),
        deterministic(*machine) && system.judged() && result is Ok ==> system.feasible(
            arithmetic_of(*machine),
            swept_as(result).point,
            clearance,
        ),
        is_known(*system, *intervals, *machine) ==> swept_as(result) == swept(
            *system,
            enclosures_of(*intervals),
            arithmetic_of(*machine),
            from@,
            clearance,
            CLAMP_SWEEPS as nat,
        ),
{
    let ghost known = is_known(*system, *intervals, *machine);
    let ghost enclosures = enclosures_of(*intervals);
    let ghost arithmetic = arithmetic_of(*machine);
    let ghost whole = swept(*system, enclosures, arithmetic, from@, clearance, CLAMP_SWEEPS as nat);
    let mut current = from;
    let mut sweep: usize = 0;
    let mut open: bool = true;
    while open && sweep < CLAMP_SWEEPS
        invariant
            system.well_formed(),
            system.fits(current@),
            sweep <= CLAMP_SWEEPS,
            known == is_known(*system, *intervals, *machine),
            enclosures == enclosures_of(*intervals),
            arithmetic == arithmetic_of(*machine),
            whole == swept(*system, enclosures, arithmetic, from@, clearance, CLAMP_SWEEPS as nat),
            known ==> whole == swept(
                *system,
                enclosures,
                arithmetic,
                current@,
                clearance,
                (CLAMP_SWEEPS - sweep) as nat,
            ),
            known && !open ==> turns_of(*system, enclosures, arithmetic, current@, clearance).len() == 0,
        decreases CLAMP_SWEEPS - sweep + if open {
            1int
        } else {
            0
        },
    {
        let list = clamps(system, intervals, machine, &current, clearance);
        if list.len() == 0 {
            open = false;
        } else {
            let ghost start = current@;
            let mut i: usize = 0;
            while i < list.len()
                invariant
                    system.well_formed(),
                    system.fits(current@),
                    sweep < CLAMP_SWEEPS,
                    i <= list@.len(),
                    list@.len() > 0,
                    are_of(list@, system.variables@.len() as int),
                    known == is_known(*system, *intervals, *machine),
                    enclosures == enclosures_of(*intervals),
                    arithmetic == arithmetic_of(*machine),
                    whole == swept(*system, enclosures, arithmetic, from@, clearance, CLAMP_SWEEPS as nat),
                    known ==> list@ == turns_of(*system, enclosures, arithmetic, start, clearance),
                    known ==> whole == swept(
                        *system,
                        enclosures,
                        arithmetic,
                        start,
                        clearance,
                        (CLAMP_SWEEPS - sweep) as nat,
                    ),
                    known ==> swept_from(*system, arithmetic, start, list@, clearance, 0) == swept_from(
                        *system,
                        arithmetic,
                        current@,
                        list@,
                        clearance,
                        i as int,
                    ),
                decreases list@.len() - i,
            {
                assert(list@[i as int].coordinate < system.variables@.len());
                apply(system, machine, &mut current, list[i], clearance);
                if system.is_feasible(machine, &current, clearance) {
                    return Ok(current);
                }
                i = i + 1;
            }
            sweep = sweep + 1;
        }
    }
    if system.is_feasible(machine, &current, clearance) {
        Ok(current)
    } else {
        Err(current)
    }
}

/// What clamping answers `Ok` with has the clearance, and what it answers `Err`
/// with does not.
pub proof fn clamping_is_judged<E: Evaluate>(
    system: ConstraintSystem<E>,
    enclosures: Enclosures,
    arithmetic: Arithmetic,
    point: Seq<Real>,
    clearance: Real,
    left: nat,
)
    ensures
        ({
            let found = swept(system, enclosures, arithmetic, point, clearance, left);
            found.clear == system.feasible(arithmetic, found.point, clearance)
        }),
    decreases left,
{
    let list = turns_of(system, enclosures, arithmetic, point, clearance);
    if left > 0 && list.len() > 0 {
        let one_sweep = swept_from(system, arithmetic, point, list, clearance, 0);
        one_sweep_is_judged(system, arithmetic, point, list, clearance, 0);
        if !one_sweep.clear {
            clamping_is_judged(system, enclosures, arithmetic, one_sweep.point, clearance, (left - 1) as nat);
        }
    }
}

proof fn one_sweep_is_judged<E: Evaluate>(
    system: ConstraintSystem<E>,
    arithmetic: Arithmetic,
    point: Seq<Real>,
    list: Seq<Clamp>,
    clearance: Real,
    from: int,
)
    ensures
        ({
            let found = swept_from(system, arithmetic, point, list, clearance, from);
            found.clear ==> system.feasible(arithmetic, found.point, clearance)
        }),
    decreases list.len() - from,
{
    if from < list.len() {
        let next = applied(system, arithmetic, point, list[from], clearance);
        if !system.feasible(arithmetic, next, clearance) {
            one_sweep_is_judged(system, arithmetic, next, list, clearance, from + 1);
        }
    }
}

// ---- release ----

/// A candidate with the coordinates below `upto` put back to their original
/// values, one at a time, wherever that keeps the clearance.
pub open spec fn released<E: Evaluate>(
    system: ConstraintSystem<E>,
    arithmetic: Arithmetic,
    candidate: Seq<Real>,
    original: Seq<Real>,
    clearance: Real,
    upto: int,
) -> Seq<Real>
    decreases upto,
{
    if upto <= 0 {
        candidate
    } else {
        let before = released(system, arithmetic, candidate, original, clearance, upto - 1);
        let back = before.update(upto - 1, original[upto - 1]);
        if !before[upto - 1].same(original[upto - 1]) && system.feasible(arithmetic, back, clearance) {
            back
        } else {
            before
        }
    }
}

/// `candidate` with every coordinate put back to its value in `original`
/// wherever that keeps the clearance, in order. Stages move more than they have
/// to, and hindsight is one check per coordinate.
pub fn release<E: Evaluate, M: Machine>(
    system: &ConstraintSystem<E>,
    machine: &M,
    candidate: Point,
    original: &Vec<Real>,
    clearance: Real,
) -> (back: Point)
    requires
        system.well_formed(),
        system.fits(candidate@),
        system.fits(original@),
    ensures
        system.fits(back@),
        deterministic(*machine) && system.judged() ==> back@ == released(
            *system,
            arithmetic_of(*machine),
            candidate@,
            original@,
            clearance,
            candidate@.len() as int,
        ),
{
    let ghost known = deterministic(*machine) && system.judged();
    let ghost arithmetic = arithmetic_of(*machine);
    let ghost first = candidate@;
    let mut back = candidate;
    let count: usize = back.len();
    for coordinate in 0..count
        invariant
            count == back@.len(),
            system.well_formed(),
            system.fits(back@),
            system.fits(original@),
            first.len() == back@.len(),
            known == (deterministic(*machine) && system.judged()),
            arithmetic == arithmetic_of(*machine),
            known ==> back@ == released(*system, arithmetic, first, original@, clearance, coordinate as int),
    {
        let moved = back[coordinate];
        let ghost before = back@;
        if !moved.equals(original[coordinate]) {
            back.set(coordinate, original[coordinate]);
            if !system.is_feasible(machine, &back, clearance) {
                back.set(coordinate, moved);
                assert(back@ =~= before);
            }
        }
    }
    back
}

/// Clear in, clear out: releasing never breaks an answer, and moves nothing but
/// back.
pub proof fn releasing_keeps_the_clearance<E: Evaluate>(
    system: ConstraintSystem<E>,
    arithmetic: Arithmetic,
    candidate: Seq<Real>,
    original: Seq<Real>,
    clearance: Real,
    upto: int,
)
    requires
        candidate.len() == original.len(),
        0 <= upto <= candidate.len(),
    ensures
        ({
            let back = released(system, arithmetic, candidate, original, clearance, upto);
            &&& system.feasible(arithmetic, candidate, clearance) ==> system.feasible(arithmetic, back, clearance)
            &&& back.len() == candidate.len()
            &&& forall|k: int| 0 <= k < candidate.len() ==> (#[trigger] back[k]) == candidate[k] || back[k] == original[k]
        }),
    decreases upto,
{
    if upto > 0 {
        releasing_keeps_the_clearance(system, arithmetic, candidate, original, clearance, upto - 1);
    }
}

// ---- where a clamp goes ----

/// A coordinate goes no farther than it must: where its slice has room for the
/// clearance at both edges, the target keeps it, and lies between the coordinate
/// and any other number that does. A coordinate that keeps it stays.
pub proof fn the_target_is_the_nearest(
    arithmetic: Arithmetic,
    slice: Interval,
    value: Real,
    clearance: Real,
    width: Real,
    other: Real,
)
    requires
        !value.nan(),
        arithmetic.plus(slice.lo, arithmetic.times(clearance, width)).at_most(other),
        other.at_most(arithmetic.minus(slice.hi, arithmetic.times(clearance, width))),
    ensures
        ({
            let lo = arithmetic.plus(slice.lo, arithmetic.times(clearance, width));
            let hi = arithmetic.minus(slice.hi, arithmetic.times(clearance, width));
            let target = aimed(arithmetic, slice, value, clearance, width);
            &&& lo.at_most(target) && target.at_most(hi)
            &&& is_between(value, target, other)
            &&& lo.at_most(value) && value.at_most(hi) ==> target == value
        }),
{
}

/// Where a slice has no room for the clearance at both edges, a coordinate goes to
/// its middle: where the sum of the edges and half of it are exact, the target is as
/// far from one edge as from the other.
pub proof fn with_no_room_the_target_is_the_middle(
    arithmetic: Arithmetic,
    slice: Interval,
    value: Real,
    clearance: Real,
    width: Real,
)
    requires
        !arithmetic.plus(slice.lo, arithmetic.times(clearance, width)).at_most(
            arithmetic.minus(slice.hi, arithmetic.times(clearance, width)),
        ),
        quantity(arithmetic.plus(slice.lo, slice.hi)) == quantity(slice.lo) + quantity(slice.hi),
        quantity(arithmetic.times(half(), arithmetic.plus(slice.lo, slice.hi))) == quantity(half()) * quantity(
            arithmetic.plus(slice.lo, slice.hi),
        ),
    ensures
        ({
            let target = aimed(arithmetic, slice, value, clearance, width);
            quantity(target) - quantity(slice.lo) == quantity(slice.hi) - quantity(target)
        }),
{
    the_constants_are_what_they_say();
    let sum = quantity(slice.lo) + quantity(slice.hi);
    assert((1real / 2real) * sum + (1real / 2real) * sum == sum);
}

/// Every coordinate that has to move is told to: a coordinate has a clamp in the
/// list exactly where it has one, and the list has nothing else and no coordinate
/// twice.
pub proof fn every_clamp_is_listed<E>(
    system: ConstraintSystem<E>,
    enclosures: Enclosures,
    arithmetic: Arithmetic,
    point: Seq<Real>,
    clearance: Real,
    upto: int,
)
    requires
        0 <= upto <= usize::MAX,
    ensures
        ({
            let list = clamps_below(system, enclosures, arithmetic, point, clearance, upto);
            &&& forall|k: int|
                0 <= k < upto && (#[trigger] clamp_of(system, enclosures, arithmetic, point, clearance, k)) is Some
                    ==> list.contains(clamp_of(system, enclosures, arithmetic, point, clearance, k)->0)
            &&& forall|i: int|
                0 <= i < list.len() ==> {
                    &&& 0 <= (#[trigger] list[i]).coordinate < upto
                    &&& clamp_of(system, enclosures, arithmetic, point, clearance, list[i].coordinate as int) == Some(
                        list[i],
                    )
                }
            &&& forall|i: int, j: int| 0 <= i < j < list.len() ==> list[i].coordinate < list[j].coordinate
        }),
    decreases upto,
{
    if upto > 0 {
        every_clamp_is_listed(system, enclosures, arithmetic, point, clearance, upto - 1);
        let before = clamps_below(system, enclosures, arithmetic, point, clearance, upto - 1);
        let list = clamps_below(system, enclosures, arithmetic, point, clearance, upto);
        assert forall|k: int|
            0 <= k < upto && (#[trigger] clamp_of(system, enclosures, arithmetic, point, clearance, k)) is Some implies list.contains(
            clamp_of(system, enclosures, arithmetic, point, clearance, k)->0,
        ) by {
            let found = clamp_of(system, enclosures, arithmetic, point, clearance, k)->0;
            if k < upto - 1 {
                let i = choose|i: int| 0 <= i < before.len() && before[i] == found;
                assert(list[i] == found);
            } else {
                assert(list[list.len() - 1] == found);
            }
        }
    }
}

/// A coordinate is left alone only where it may stay: one without a clamp has an
/// empty slice, or is already where its slice wants it.
pub proof fn what_is_left_alone_may_stay<E>(
    system: ConstraintSystem<E>,
    enclosures: Enclosures,
    arithmetic: Arithmetic,
    point: Seq<Real>,
    clearance: Real,
    k: int,
    other: Real,
)
    requires
        clamp_of(system, enclosures, arithmetic, point, clearance, k) is None,
        !slice_of(system, enclosures, point, k, None).has_nothing(),
        !point[k].nan(),
        ({
            let slice = slice_of(system, enclosures, point, k, None);
            let step = arithmetic.times(clearance, system.variables@[k].extent(arithmetic));
            arithmetic.plus(slice.lo, step).at_most(other) && other.at_most(arithmetic.minus(slice.hi, step))
        }),
    ensures
        ({
            let slice = slice_of(system, enclosures, point, k, None);
            let step = arithmetic.times(clearance, system.variables@[k].extent(arithmetic));
            arithmetic.plus(slice.lo, step).at_most(point[k]) && point[k].at_most(arithmetic.minus(slice.hi, step))
        }),
{
}

/// The way from one number to another: up or down.
pub open spec fn onward(from: Real, to: Real) -> Real {
    if from.below(to) {
        one()
    } else {
        minus_one()
    }
}

/// Whether a number is where a clamp of a coordinate puts it: the target, or a
/// power of two of ulps beyond it, the way the coordinate came.
pub open spec fn is_landing(arithmetic: Arithmetic, from: Real, target: Real, width: Real, there: Real) -> bool {
    ||| there == target
    ||| exists|rung: int|
        0 <= rung < LANDING_LADDER && there == #[trigger] nudged(
            arithmetic,
            target,
            onward(from, target),
            ulp_at(arithmetic, target, width),
            rung,
        )
}

/// A clamp moves one coordinate, and to its target, or from there on the way it
/// came; where a place it tries keeps the clearance, it leaves the coordinate in one
/// that does.
pub proof fn a_clamp_moves_its_coordinate<E: Evaluate>(
    system: ConstraintSystem<E>,
    arithmetic: Arithmetic,
    point: Seq<Real>,
    one_clamp: Clamp,
    clearance: Real,
)
    requires
        one_clamp.coordinate < point.len(),
    ensures
        ({
            let k = one_clamp.coordinate as int;
            let after = applied(system, arithmetic, point, one_clamp, clearance);
            let width = system.variables@[k].extent(arithmetic);
            &&& after == point.update(k, after[k])
            &&& is_landing(arithmetic, point[k], one_clamp.target, width, after[k])
            &&& is_landed(system, arithmetic, point.update(k, one_clamp.target), k, clearance) ==> after[k]
                == one_clamp.target
            &&& forall|rung: int|
                0 <= rung < LANDING_LADDER && is_landed(
                    system,
                    arithmetic,
                    point.update(
                        k,
                        #[trigger] nudged(
                            arithmetic,
                            one_clamp.target,
                            onward(point[k], one_clamp.target),
                            ulp_at(arithmetic, one_clamp.target, width),
                            rung,
                        ),
                    ),
                    k,
                    clearance,
                ) ==> is_landed(system, arithmetic, after, k, clearance)
        }),
{
    let k = one_clamp.coordinate as int;
    let target = one_clamp.target;
    let placed = point.update(k, target);
    let after = applied(system, arithmetic, point, one_clamp, clearance);
    let width = system.variables@[k].extent(arithmetic);
    let inward = onward(point[k], target);
    let ulp = ulp_at(arithmetic, target, width);
    a_ladder_climbs(system, arithmetic, placed, k, clearance, target, inward, ulp, 0);
    assert forall|there: Real| placed.update(k, there) == #[trigger] point.update(k, there) by {
        assert(placed.update(k, there) =~= point.update(k, there));
    }
    assert(after =~= point.update(k, after[k]));
}

proof fn a_ladder_climbs<E: Evaluate>(
    system: ConstraintSystem<E>,
    arithmetic: Arithmetic,
    point: Seq<Real>,
    k: int,
    clearance: Real,
    target: Real,
    inward: Real,
    ulp: Real,
    rung: int,
)
    requires
        0 <= rung <= LANDING_LADDER,
    ensures
        ({
            let there = laddered(system, arithmetic, point, k, clearance, target, inward, ulp, rung);
            &&& there == target || exists|r: int|
                rung <= r < LANDING_LADDER && there == #[trigger] nudged(arithmetic, target, inward, ulp, r)
            &&& forall|r: int|
                rung <= r < LANDING_LADDER && is_landed(
                    system,
                    arithmetic,
                    point.update(k, #[trigger] nudged(arithmetic, target, inward, ulp, r)),
                    k,
                    clearance,
                ) ==> is_landed(system, arithmetic, point.update(k, there), k, clearance)
        }),
    decreases LANDING_LADDER - rung,
{
    if rung < LANDING_LADDER {
        let here = nudged(arithmetic, target, inward, ulp, rung);
        a_ladder_climbs(system, arithmetic, point, k, clearance, target, inward, ulp, rung + 1);
    }
}

/// Whether no two clamps of a list are of one coordinate.
pub open spec fn are_apart(list: Seq<Clamp>) -> bool {
    forall|i: int, j: int| 0 <= i < j < list.len() ==> (#[trigger] list[i]).coordinate != (#[trigger] list[j]).coordinate
}

/// A sweep leaves a coordinate where it was, or puts it where its clamp wants it.
pub proof fn a_sweep_lands_where_its_clamps_want<E: Evaluate>(
    system: ConstraintSystem<E>,
    arithmetic: Arithmetic,
    start: Seq<Real>,
    point: Seq<Real>,
    list: Seq<Clamp>,
    clearance: Real,
    from: int,
    k: int,
)
    requires
        0 <= from <= list.len(),
        are_of(list, start.len() as int),
        are_apart(list),
        point.len() == start.len(),
        0 <= k < start.len(),
        forall|i: int| from <= i < list.len() && (#[trigger] list[i]).coordinate == k ==> point[k] == start[k],
    ensures
        ({
            let end = swept_from(system, arithmetic, point, list, clearance, from).point;
            &&& end.len() == start.len()
            &&& end[k] == point[k] || exists|i: int|
                from <= i < list.len() && (#[trigger] list[i]).coordinate == k && is_landing(
                    arithmetic,
                    start[k],
                    list[i].target,
                    system.variables@[k].extent(arithmetic),
                    end[k],
                )
        }),
    decreases list.len() - from,
{
    if from < list.len() {
        let next = applied(system, arithmetic, point, list[from], clearance);
        assert(list[from].coordinate < start.len());
        a_clamp_moves_its_coordinate(system, arithmetic, point, list[from], clearance);
        if !system.feasible(arithmetic, next, clearance) {
            assert forall|i: int| from + 1 <= i < list.len() && (#[trigger] list[i]).coordinate == k implies next[k]
                == start[k] by {
                assert(list[from].coordinate != list[i].coordinate);
            }
            a_sweep_lands_where_its_clamps_want(system, arithmetic, start, next, list, clearance, from + 1, k);
        }
    }
}

/// Hindsight is taken: a coordinate that a release leaves moved could not be put
/// back, with those before it as the release left them and those after it as they
/// came.
pub proof fn what_stays_moved_had_to<E: Evaluate>(
    system: ConstraintSystem<E>,
    arithmetic: Arithmetic,
    candidate: Seq<Real>,
    original: Seq<Real>,
    clearance: Real,
    upto: int,
    k: int,
)
    requires
        candidate.len() == original.len(),
        0 <= k < upto <= candidate.len(),
        !released(system, arithmetic, candidate, original, clearance, upto)[k].same(original[k]),
        !original[k].nan(),
    ensures
        ({
            let back = released(system, arithmetic, candidate, original, clearance, upto);
            !system.feasible(arithmetic, back.take(k).push(original[k]) + candidate.skip(k + 1), clearance)
        }),
    decreases upto,
{
    let back = released(system, arithmetic, candidate, original, clearance, upto);
    let before = released(system, arithmetic, candidate, original, clearance, upto - 1);
    releasing_keeps_the_clearance(system, arithmetic, candidate, original, clearance, upto - 1);
    releasing_touches_the_first(system, arithmetic, candidate, original, clearance, upto - 1);
    if k < upto - 1 {
        assert(back[k] == before[k]);
        what_stays_moved_had_to(system, arithmetic, candidate, original, clearance, upto - 1, k);
        assert(back.take(k) =~= before.take(k));
    } else {
        let put = before.update(k, original[k]);
        assert(original[k].same(original[k]));
        assert(back == before);
        assert(put =~= back.take(k).push(original[k]) + candidate.skip(k + 1));
    }
}

proof fn releasing_touches_the_first<E: Evaluate>(
    system: ConstraintSystem<E>,
    arithmetic: Arithmetic,
    candidate: Seq<Real>,
    original: Seq<Real>,
    clearance: Real,
    upto: int,
)
    requires
        candidate.len() == original.len(),
        0 <= upto <= candidate.len(),
    ensures
        ({
            let back = released(system, arithmetic, candidate, original, clearance, upto);
            &&& back.len() == candidate.len()
            &&& forall|j: int| upto <= j < candidate.len() ==> (#[trigger] back[j]) == candidate[j]
        }),
    decreases upto,
{
    if upto > 0 {
        releasing_touches_the_first(system, arithmetic, candidate, original, clearance, upto - 1);
    }
}

} // verus!
