//! A box as the unit cube.
//!
//! A trust region or a Newton step has one size for every coordinate, and a
//! box is `[1, 5]` on one coordinate and `[5, 100]` on the next. In the cube a
//! size means the same on every coordinate of every problem: `x = lo + u * w`.

use vstd::prelude::*;
use crate::calculus::{
    adds_exactly, an_order_of_quantities, divides_exactly, multiplies_exactly, quantity, signs_are_exact,
    subtracts_exactly, the_constants_are_what_they_say,
};
use crate::interval::Interval;
use crate::machine::{arithmetic_of, deterministic, minus, over, plus, times, Arithmetic, Machine};
use crate::number::{one, zero, Real};
use crate::system::InputVariable;

verus! {

/// The unit cube over a box.
#[derive(Debug)]
pub struct Cube {
    pub lower: Vec<Real>,
    pub width: Vec<Real>,
}

/// A box: where each coordinate starts and how wide it is.
pub ghost struct Frame {
    pub lower: Seq<Real>,
    pub width: Seq<Real>,
}

impl View for Cube {
    type V = Frame;

    open spec fn view(&self) -> Frame {
        Frame { lower: self.lower@, width: self.width@ }
    }
}

impl Frame {
    /// The frame of a box of intervals.
    pub open spec fn over(arithmetic: Arithmetic, bounds: Seq<Interval>) -> Frame {
        Frame {
            lower: bounds.map_values(|interval: Interval| interval.lo),
            width: bounds.map_values(|interval: Interval| interval.extent(arithmetic)),
        }
    }

    /// The frame of declared variables.
    pub open spec fn declared(arithmetic: Arithmetic, variables: Seq<InputVariable>) -> Frame {
        Frame {
            lower: variables.map_values(|variable: InputVariable| variable.lower_bound),
            width: variables.map_values(|variable: InputVariable| variable.extent(arithmetic)),
        }
    }

    /// The point in the box that a point of the cube names.
    pub open spec fn outside(self, arithmetic: Arithmetic, unit: Seq<Real>) -> Seq<Real> {
        Seq::new(unit.len(), |k: int| arithmetic.plus(self.lower[k], arithmetic.times(unit[k], self.width[k])))
    }

    /// Where a point sits in the cube; a coordinate without width is at zero.
    pub open spec fn inside(self, arithmetic: Arithmetic, point: Seq<Real>) -> Seq<Real> {
        Seq::new(
            point.len(),
            |k: int|
                if zero().below(self.width[k]) {
                    arithmetic.over(arithmetic.minus(point[k], self.lower[k]), self.width[k])
                } else {
                    zero()
                },
        )
    }
}

/// The sides of the cube as rows that are at most zero inside it, the lower
/// sides first.
pub open spec fn side_rows(arithmetic: Arithmetic, unit: Seq<Real>) -> Seq<Real> {
    Seq::new(unit.len(), |k: int| unit[k].negated()) + Seq::new(unit.len(), |k: int| arithmetic.minus(unit[k], one()))
}

impl Cube {
    pub open spec fn well_formed(&self) -> bool {
        self.lower@.len() == self.width@.len()
    }

    pub fn over<M: Machine>(machine: &M, bounds: &Vec<Interval>) -> (cube: Self)
        ensures
            cube.well_formed(),
            cube.lower@.len() == bounds@.len(),
            deterministic(*machine) ==> cube@ == Frame::over(arithmetic_of(*machine), bounds@),
    {
        let mut lower: Vec<Real> = Vec::new();
        let mut width: Vec<Real> = Vec::new();
        for k in 0..bounds.len()
            invariant
                lower@.len() == k,
                width@.len() == k,
                forall|j: int| 0 <= j < k ==> (#[trigger] lower@[j]) == bounds@[j].lo,
                deterministic(*machine) ==> forall|j: int|
                    0 <= j < k ==> (#[trigger] width@[j]) == bounds@[j].extent(arithmetic_of(*machine)),
        {
            lower.push(bounds[k].lo);
            width.push(bounds[k].width(machine));
        }
        let cube = Self { lower, width };
        proof {
            if deterministic(*machine) {
                let frame = Frame::over(arithmetic_of(*machine), bounds@);
                assert(cube.lower@ =~= frame.lower);
                assert(cube.width@ =~= frame.width);
            }
        }
        cube
    }

    pub fn declared<M: Machine>(machine: &M, variables: &Vec<InputVariable>) -> (cube: Self)
        ensures
            cube.well_formed(),
            cube.lower@.len() == variables@.len(),
            deterministic(*machine) ==> cube@ == Frame::declared(arithmetic_of(*machine), variables@),
    {
        let mut lower: Vec<Real> = Vec::new();
        let mut width: Vec<Real> = Vec::new();
        for k in 0..variables.len()
            invariant
                lower@.len() == k,
                width@.len() == k,
                forall|j: int| 0 <= j < k ==> (#[trigger] lower@[j]) == variables@[j].lower_bound,
                deterministic(*machine) ==> forall|j: int|
                    0 <= j < k ==> (#[trigger] width@[j]) == variables@[j].extent(arithmetic_of(*machine)),
        {
            lower.push(variables[k].lower_bound);
            width.push(variables[k].width(machine));
        }
        let cube = Self { lower, width };
        proof {
            if deterministic(*machine) {
                let frame = Frame::declared(arithmetic_of(*machine), variables@);
                assert(cube.lower@ =~= frame.lower);
                assert(cube.width@ =~= frame.width);
            }
        }
        cube
    }

    /// The point in the box that `unit` names.
    pub fn denormalised<M: Machine>(&self, machine: &M, unit: &Vec<Real>) -> (point: Vec<Real>)
        requires
            self.well_formed(),
            unit@.len() == self.lower@.len(),
        ensures
            point@.len() == unit@.len(),
            deterministic(*machine) ==> point@ == self@.outside(arithmetic_of(*machine), unit@),
    {
        let mut point: Vec<Real> = Vec::new();
        for k in 0..unit.len()
            invariant
                self.well_formed(),
                unit@.len() == self.lower@.len(),
                point@.len() == k,
                deterministic(*machine) ==> forall|j: int|
                    0 <= j < k ==> (#[trigger] point@[j]) == self@.outside(arithmetic_of(*machine), unit@)[j],
        {
            point.push(plus(machine, self.lower[k], times(machine, unit[k], self.width[k])));
        }
        point
    }

    /// Where `point` sits in the cube; a coordinate without width is at zero.
    pub fn normalised<M: Machine>(&self, machine: &M, point: &Vec<Real>) -> (unit: Vec<Real>)
        requires
            self.well_formed(),
            point@.len() == self.lower@.len(),
        ensures
            unit@.len() == point@.len(),
            deterministic(*machine) ==> unit@ == self@.inside(arithmetic_of(*machine), point@),
    {
        let mut unit: Vec<Real> = Vec::new();
        for k in 0..point.len()
            invariant
                self.well_formed(),
                point@.len() == self.lower@.len(),
                unit@.len() == k,
                deterministic(*machine) ==> forall|j: int|
                    0 <= j < k ==> (#[trigger] unit@[j]) == self@.inside(arithmetic_of(*machine), point@)[j],
        {
            let place = if zero().lt(self.width[k]) {
                over(machine, minus(machine, point[k], self.lower[k]), self.width[k])
            } else {
                zero()
            };
            unit.push(place);
        }
        unit
    }

    /// The sides of the cube as rows in its own coordinates: `-u <= 0` and
    /// `u - 1 <= 0`.
    pub fn rows<M: Machine>(machine: &M, unit: &Vec<Real>, rows: &mut Vec<Real>)
        ensures
            final(rows)@.len() == old(rows)@.len() + 2 * unit@.len(),
            deterministic(*machine) ==> final(rows)@ == old(rows)@ + side_rows(arithmetic_of(*machine), unit@),
    {
        let ghost first = rows@;
        let ghost arithmetic = arithmetic_of(*machine);
        let ghost below = Seq::new(unit@.len(), |k: int| unit@[k].negated());
        let ghost above = Seq::new(unit@.len(), |k: int| arithmetic.minus(unit@[k], one()));
        for k in 0..unit.len()
            invariant
                below == Seq::new(unit@.len(), |j: int| unit@[j].negated()),
                rows@ == first + below.take(k as int),
        {
            rows.push(unit[k].negate());
            assert(below.take(k + 1) =~= below.take(k as int).push(below[k as int]));
        }
        assert(below.take(unit@.len() as int) =~= below);
        for k in 0..unit.len()
            invariant
                arithmetic == arithmetic_of(*machine),
                below.len() == unit@.len(),
                above == Seq::new(unit@.len(), |j: int| arithmetic.minus(unit@[j], one())),
                rows@.len() == first.len() + unit@.len() + k,
                deterministic(*machine) ==> rows@ == first + below + above.take(k as int),
        {
            rows.push(minus(machine, unit[k], one()));
            assert(above.take(k + 1) =~= above.take(k as int).push(above[k as int]));
        }
        assert(above.take(unit@.len() as int) =~= above);
        assert(first + below + above =~= first + (below + above));
    }
}

/// The cube and the box name the same points: where the answers are exact, a point
/// of the cube taken out to the box and back is where it was, on every coordinate
/// that has a width; and a number of the unit interval is taken to the same part of
/// the way from the lower end.
pub proof fn there_and_back(frame: Frame, arithmetic: Arithmetic, unit: Seq<Real>, k: int)
    requires
        0 <= k < unit.len(),
        zero().below(frame.width[k]),
        quantity(frame.width[k]) != 0real,
        multiplies_exactly(arithmetic, unit[k], frame.width[k]),
        adds_exactly(arithmetic, frame.lower[k], arithmetic.times(unit[k], frame.width[k])),
        subtracts_exactly(arithmetic, frame.outside(arithmetic, unit)[k], frame.lower[k]),
        divides_exactly(
            arithmetic,
            arithmetic.minus(frame.outside(arithmetic, unit)[k], frame.lower[k]),
            frame.width[k],
        ),
    ensures
        quantity(frame.outside(arithmetic, unit)[k]) == quantity(frame.lower[k]) + quantity(unit[k]) * quantity(
            frame.width[k],
        ),
        quantity(frame.inside(arithmetic, frame.outside(arithmetic, unit))[k]) == quantity(unit[k]),
{
    let u = quantity(unit[k]);
    let w = quantity(frame.width[k]);
    assert((u * w) / w == u) by (nonlinear_arith)
        requires
            w != 0real,
    ;
}

/// A point is inside the cube exactly where every side's row is at most zero: its
/// coordinates are at least zero, and where one can be taken from them exactly at
/// most one.
pub proof fn the_sides_are_walls(arithmetic: Arithmetic, unit: Seq<Real>, k: int)
    requires
        0 <= k < unit.len(),
        !unit[k].nan(),
        unit[k].finite(),
        arithmetic.minus(unit[k], one()).finite(),
        subtracts_exactly(arithmetic, unit[k], one()),
    ensures
        side_rows(arithmetic, unit).len() == 2 * unit.len(),
        side_rows(arithmetic, unit)[k].at_most(zero()) <==> zero().at_most(unit[k]),
        side_rows(arithmetic, unit)[unit.len() + k].at_most(zero()) <==> unit[k].at_most(one()),
{
    let rows = side_rows(arithmetic, unit);
    let down = arithmetic.minus(unit[k], one());
    assert(rows[k] == unit[k].negated());
    assert(rows[unit.len() + k] == down);
    an_order_of_quantities(down, zero());
    an_order_of_quantities(zero(), down);
    an_order_of_quantities(unit[k], one());
    an_order_of_quantities(one(), unit[k]);
    signs_are_exact(zero());
    the_constants_are_what_they_say();
}

} // verus!
