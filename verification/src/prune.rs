//! Interval contraction and bisection: the proof that a region is empty, the
//! constraints to blame for it, and the pieces of a region.
//!
//! [`contract`] narrows every coordinate of a box by every constraint naming
//! it, and repeats while something moves. A coordinate that goes empty is a
//! proof that no point satisfies the constraints together, and the constraints
//! that narrowed it are the ones to blame. A box that survives is split down its
//! widest coordinate and each half is contracted again ([`bisect`]), until the
//! halves are settled, too small to split, or the budget is spent. What is left
//! is a set of leaves: boxes the region may still have a piece in.
//!
//! Interval arithmetic encloses; it does not decide. A contradiction it misses
//! ends live with the budget spent, and nothing is claimed. Everything ends on a
//! count, so nothing can hang.

use vstd::prelude::*;
use std::collections::VecDeque;
use crate::ast::GlobalId;
use crate::hc4::{is_plain, narrowing_keeps_every_solution};
use crate::interval::{common_has_what_both_have, enclosures_of, regular, Enclosures, Interval, Intervals};
use crate::machine::{arithmetic_of, deterministic, minus, over, times, Arithmetic, Machine};
use crate::number::{negative_infinity, zero, Real};
use crate::plans::integers;
use crate::semantics::Semantics;
use crate::slicing::{centre, centred_point, encloses_around, middle, middle_of, row_at, tape_holds};
use crate::system::{naming_lists_who_names, ranges, ConstraintSystem, Evaluate, InputVariable, Point};

verus! {

/// The fraction of a coordinate's declared width it must shrink by for the
/// shrink to count, `0.01`. Anything less is treated as no change, which is
/// what makes a contraction end on a chain that climbs a hair a sweep.
pub const PROGRESS: u64 = 0x3f84_7ae1_47ae_147b;

#[verifier::allow_in_spec]
pub fn progress() -> Real
    returns
        (Real { bits: PROGRESS }),
{
    Real { bits: PROGRESS }
}

/// How many times a contraction may visit each constraint, on average, before
/// it stops where it is.
pub const VISITS_PER_CONSTRAINT: u64 = 32;

/// Below this fraction of its declared width, `1e-6`, a coordinate is not split
/// any further.
pub const RESOLUTION: u64 = 0x3eb0_c6f7_a0b5_ed8d;

#[verifier::allow_in_spec]
pub fn resolution() -> Real
    returns
        (Real { bits: RESOLUTION }),
{
    Real { bits: RESOLUTION }
}

/// A box with its history: which constraints narrowed each of its coordinates,
/// from the declared box down to this one.
#[derive(Debug, Clone)]
pub struct Node {
    pub bounds: Vec<Interval>,
    /// Per coordinate, the constraints that narrowed it, in the order they did.
    pub narrowed_by: Vec<Vec<usize>>,
}

/// A box and its history.
#[verifier::ext_equal]
pub ghost struct Region {
    pub bounds: Seq<Interval>,
    pub history: Seq<Seq<int>>,
}

/// Lists of positions as integers.
pub open spec fn all_integers(lists: Seq<Vec<usize>>) -> Seq<Seq<int>> {
    lists.map_values(|list: Vec<usize>| integers(list@))
}

impl View for Node {
    type V = Region;

    open spec fn view(&self) -> Region {
        Region { bounds: self.bounds@, history: all_integers(self.narrowed_by@) }
    }
}

impl Region {
    /// Whether a region is over so many coordinates and has a history of so
    /// many constraints.
    pub open spec fn is_of(self, coordinates: int, constraints: int) -> bool {
        &&& self.bounds.len() == coordinates
        &&& self.history.len() == coordinates
        &&& forall|r: int, k: int|
            0 <= r < coordinates && 0 <= k < self.history[r].len() ==> 0 <= (#[trigger] self.history[r][k]) < constraints
    }

    /// Whether a point is in the box, closed on every side.
    pub open spec fn has_point(self, point: Seq<Real>) -> bool {
        forall|r: int|
            0 <= r < self.bounds.len() && r < point.len() ==> (#[trigger] self.bounds[r]).has_value(point[r])
    }
}

impl Node {
    /// The declared box, narrowed by nothing yet.
    pub fn declared<E>(system: &ConstraintSystem<E>) -> (node: Self)
        ensures
            node@ == declared_region(*system),
    {
        let bounds = system.declared();
        let mut narrowed_by: Vec<Vec<usize>> = Vec::new();
        for r in 0..system.variables.len()
            invariant
                narrowed_by@.len() == r,
                forall|q: int| 0 <= q < r ==> (#[trigger] narrowed_by@[q])@.len() == 0,
        {
            narrowed_by.push(Vec::new());
        }
        let node = Node { bounds, narrowed_by };
        proof {
            assert forall|r: int| 0 <= r < narrowed_by@.len() implies #[trigger] all_integers(narrowed_by@)[r]
                == Seq::<int>::empty() by {
                assert(integers(narrowed_by@[r]@) =~= Seq::<int>::empty());
            }
            assert(node@.history =~= declared_region(*system).history);
        }
        node
    }

    /// Whether `point` lies in the box, closed on every side.
    pub fn contains(&self, point: &Vec<Real>) -> (contained: bool)
        ensures
            contained == self@.has_point(point@),
    {
        let mut r: usize = 0;
        while r < self.bounds.len() && r < point.len()
            invariant
                r <= self.bounds@.len(),
                r <= point@.len(),
                forall|q: int| 0 <= q < r ==> (#[trigger] self.bounds@[q]).has_value(point@[q]),
            decreases self.bounds@.len() - r,
        {
            if !self.bounds[r].contains(point[r]) {
                assert(!self@.bounds[r as int].has_value(point@[r as int]));
                return false;
            }
            r = r + 1;
        }
        true
    }

    /// The point in the middle of every coordinate.
    pub fn centre<M: Machine>(&self, machine: &M) -> (point: Point)
        ensures
            point@.len() == self.bounds@.len(),
            deterministic(*machine) ==> point@ == middles(arithmetic_of(*machine), self.bounds@),
    {
        let mut point: Point = Vec::with_capacity(self.bounds.len());
        for r in 0..self.bounds.len()
            invariant
                point@.len() == r,
                deterministic(*machine) ==> point@ =~= middles(arithmetic_of(*machine), self.bounds@).take(r as int),
        {
            point.push(middle(machine, self.bounds[r]));
        }
        assert(middles(arithmetic_of(*machine), self.bounds@).take(self.bounds@.len() as int) =~= middles(
            arithmetic_of(*machine),
            self.bounds@,
        ));
        point
    }

    fn duplicate(&self) -> (copy: Node)
        ensures
            copy@ == self@,
    {
        let mut bounds: Vec<Interval> = Vec::with_capacity(self.bounds.len());
        for r in 0..self.bounds.len()
            invariant
                bounds@ =~= self.bounds@.take(r as int),
        {
            bounds.push(self.bounds[r]);
        }
        let mut narrowed_by: Vec<Vec<usize>> = Vec::with_capacity(self.narrowed_by.len());
        for r in 0..self.narrowed_by.len()
            invariant
                all_integers(narrowed_by@) =~= all_integers(self.narrowed_by@).take(r as int),
        {
            let list = &self.narrowed_by[r];
            let mut same: Vec<usize> = Vec::with_capacity(list.len());
            let count: usize = list.len();
            for k in 0..count
                invariant
                    count == list@.len(),
                    same@ =~= list@.take(k as int),
            {
                same.push(list[k]);
            }
            assert(same@ =~= list@);
            let ghost before = narrowed_by@;
            narrowed_by.push(same);
            assert(all_integers(narrowed_by@) =~= all_integers(before).push(integers(list@)));
        }
        assert(bounds@ =~= self.bounds@);
        assert(all_integers(narrowed_by@) =~= all_integers(self.narrowed_by@));
        Node { bounds, narrowed_by }
    }
}

/// The middle of every interval.
pub open spec fn middles(arithmetic: Arithmetic, bounds: Seq<Interval>) -> Seq<Real> {
    bounds.map_values(|interval: Interval| middle_of(arithmetic, interval))
}

/// The declared box, narrowed by nothing.
pub open spec fn declared_region<E>(system: ConstraintSystem<E>) -> Region {
    Region {
        bounds: ranges(system.variables@),
        history: Seq::new(system.variables@.len(), |r: int| Seq::empty()),
    }
}

// ---- blame ----

/// Whether a set of constraints has everything that narrowed what its members
/// read.
pub open spec fn traces_back<E>(system: ConstraintSystem<E>, history: Seq<Seq<int>>, set: Set<int>) -> bool {
    forall|c: int, s: int, k: int|
        #![trigger set.contains(c), history[system.incidence.rows@[c]@[s] as int][k]]
        set.contains(c) && 0 <= c < system.constraints@.len() && 0 <= s < system.incidence.rows@[c]@.len() && 0 <= k
            < history[system.incidence.rows@[c]@[s] as int].len() ==> set.contains(
            history[system.incidence.rows@[c]@[s] as int][k],
        )
}

/// Whether a set of constraints has the culprit and what narrowed the row
/// before it.
pub open spec fn accuses(history: Seq<Seq<int>>, culprit: int, row: int, set: Set<int>) -> bool {
    set.contains(culprit) && forall|k: int| 0 <= k < history[row].len() ==> set.contains(#[trigger] history[row][k])
}

/// Everything to blame for a culprit emptying a row: the least set that has the
/// culprit and what narrowed the row, and traces back.
pub open spec fn blame_of<E>(system: ConstraintSystem<E>, history: Seq<Seq<int>>, culprit: int, row: int) -> Set<int> {
    Set::new(
        |c: int|
            forall|set: Set<int>| #[trigger]
                accuses(history, culprit, row, set) && traces_back(system, history, set) ==> set.contains(c),
    )
}

/// The marked indices below `upto`, ascending.
pub open spec fn marked_below(marks: Seq<bool>, upto: int) -> Seq<int>
    decreases upto,
{
    if upto <= 0 {
        Seq::empty()
    } else if marks[upto - 1] {
        marked_below(marks, upto - 1).push(upto - 1)
    } else {
        marked_below(marks, upto - 1)
    }
}

/// The members of a set below a bound, as marks.
pub open spec fn marks_of(set: Set<int>, count: nat) -> Seq<bool> {
    Seq::new(count, |c: int| set.contains(c))
}

/// The members of a set below a bound, ascending.
pub open spec fn listed(set: Set<int>, count: nat) -> Seq<int> {
    marked_below(marks_of(set, count), count as int)
}

/// Whether a list names some of so many constraints: at least one, in strictly
/// ascending order.
pub open spec fn names_some(list: Seq<usize>, count: int) -> bool {
    &&& 0 < list.len()
    &&& forall|i: int, j: int| 0 <= i < j < list.len() ==> (#[trigger] list[i]) < (#[trigger] list[j])
    &&& forall|k: int| 0 <= k < list.len() ==> (#[trigger] list[k]) < count
}

fn list_marked(marks: &Vec<bool>) -> (list: Vec<usize>)
    ensures
        integers(list@) == marked_below(marks@, marks@.len() as int),
{
    let mut list: Vec<usize> = Vec::new();
    assert(integers(list@) =~= Seq::empty());
    for c in 0..marks.len()
        invariant
            integers(list@) == marked_below(marks@, c as int),
    {
        if marks[c] {
            let ghost before = list@;
            list.push(c);
            assert(integers(list@) =~= integers(before).push(c as int));
        }
    }
    list
}

/// How many are not marked.
spec fn unmarked(marks: Seq<bool>) -> nat
    decreases marks.len(),
{
    if marks.len() == 0 {
        0
    } else {
        unmarked(marks.drop_last()) + if marks.last() {
            0nat
        } else {
            1
        }
    }
}

proof fn marking_one(marks: Seq<bool>, at: int)
    requires
        0 <= at < marks.len(),
        !marks[at],
    ensures
        unmarked(marks.update(at, true)) == unmarked(marks) - 1,
    decreases marks.len(),
{
    if at == marks.len() - 1 {
        assert(marks.update(at, true).drop_last() =~= marks.drop_last());
    } else {
        marking_one(marks.drop_last(), at);
        assert(marks.update(at, true).drop_last() =~= marks.drop_last().update(at, true));
    }
}

/// Every marked constraint is to blame.
spec fn only_the_guilty<E>(
    system: ConstraintSystem<E>,
    history: Seq<Seq<int>>,
    culprit: int,
    row: int,
    marks: Seq<bool>,
) -> bool {
    forall|c: int| 0 <= c < marks.len() && (#[trigger] marks[c]) ==> blame_of(system, history, culprit, row).contains(c)
}

spec fn some_marked(marks: Seq<bool>) -> bool {
    exists|c: int| 0 <= c < marks.len() && #[trigger] marks[c]
}

/// Marks a list of constraints, and notes those not marked before.
fn accuse_all(list: &Vec<usize>, marks: &mut Vec<bool>, pending: &mut Vec<usize>)
    requires
        forall|k: int| 0 <= k < list@.len() ==> (#[trigger] list@[k]) < old(marks)@.len(),
        forall|k: int| 0 <= k < old(pending)@.len() ==> (#[trigger] old(pending)@[k]) < old(marks)@.len(),
    ensures
        final(marks)@.len() == old(marks)@.len(),
        forall|c: int| 0 <= c < old(marks)@.len() && old(marks)@[c] ==> #[trigger] final(marks)@[c],
        forall|k: int| 0 <= k < list@.len() ==> final(marks)@[(#[trigger] list@[k]) as int],
        forall|c: int|
            0 <= c < old(marks)@.len() && (#[trigger] final(marks)@[c]) && !old(marks)@[c] ==> integers(list@).contains(c)
                && final(pending)@.contains(c as usize),
        forall|k: int| 0 <= k < final(pending)@.len() ==> (#[trigger] final(pending)@[k]) < old(marks)@.len(),
        forall|c: usize| #[trigger] old(pending)@.contains(c) ==> final(pending)@.contains(c),
        forall|k: int| 0 <= k < final(pending)@.len() ==> final(marks)@[(#[trigger] final(pending)@[k]) as int]
            || old(pending)@.contains(final(pending)@[k]),
        final(pending)@.len() + unmarked(final(marks)@) == old(pending)@.len() + unmarked(old(marks)@),
        unmarked(final(marks)@) <= unmarked(old(marks)@),
{
    let ghost first = marks@;
    let ghost waiting = pending@;
    let ghost total = marks@.len();
    for k in 0..list.len()
        invariant
            forall|k: int| 0 <= k < list@.len() ==> (#[trigger] list@[k]) < total,
            marks@.len() == total == first.len(),
            forall|c: int| 0 <= c < total && first[c] ==> #[trigger] marks@[c],
            forall|j: int| 0 <= j < k ==> marks@[(#[trigger] list@[j]) as int],
            forall|c: int|
                0 <= c < total && (#[trigger] marks@[c]) && !first[c] ==> integers(list@).contains(c) && pending@.contains(
                    c as usize,
                ),
            forall|j: int| 0 <= j < pending@.len() ==> (#[trigger] pending@[j]) < total,
            forall|c: usize| #[trigger] waiting.contains(c) ==> pending@.contains(c),
            forall|j: int| 0 <= j < pending@.len() ==> marks@[(#[trigger] pending@[j]) as int] || waiting.contains(pending@[j]),
            pending@.len() + unmarked(marks@) == waiting.len() + unmarked(first),
            unmarked(marks@) <= unmarked(first),
    {
        let c: usize = list[k];
        assert(integers(list@)[k as int] == c);
        if !marks[c] {
            let ghost before = marks@;
            let ghost held = pending@;
            proof {
                marking_one(before, c as int);
            }
            marks.set(c, true);
            pending.push(c);
            proof {
                assert forall|x: usize| held.contains(x) implies pending@.contains(x) by {
                    let j = choose|j: int| 0 <= j < held.len() && held[j] == x;
                    assert(pending@[j] == x);
                }
                assert(pending@[held.len() as int] == c);
                assert forall|j: int| 0 <= j < pending@.len() implies marks@[(#[trigger] pending@[j]) as int] || waiting.contains(
                    pending@[j],
                ) by {
                    if j < held.len() {
                        assert(pending@[j] == held[j]);
                    }
                }
            }
        }
    }
}

impl Node {
    /// Everything to blame for `culprit` emptying `row` here: the culprit, what
    /// narrowed the row before it, what narrowed the rows *those* read, and so
    /// on back to the declared box; ascending.
    fn blame<E>(&self, system: &ConstraintSystem<E>, culprit: usize, row: usize) -> (blamed: Vec<usize>)
        requires
            system.well_formed(),
            self@.is_of(system.variables@.len() as int, system.constraints@.len() as int),
            culprit < system.constraints@.len(),
            row < system.variables@.len(),
        ensures
            integers(blamed@) == listed(
                blame_of(*system, self@.history, culprit as int, row as int),
                system.constraints@.len(),
            ),
    {
        let ghost history = self@.history;
        let ghost guilty = blame_of(*system, history, culprit as int, row as int);
        let total: usize = system.constraints.len();
        let mut marks: Vec<bool> = vec![false; total];
        let mut pending: Vec<usize> = Vec::new();
        let mut first: Vec<usize> = Vec::new();
        first.push(culprit);
        accuse_all(&first, &mut marks, &mut pending);
        proof {
            assert forall|c: int| 0 <= c < marks@.len() && (#[trigger] marks@[c]) implies guilty.contains(c) by {
                assert(integers(first@).contains(c));
                let k = choose|k: int| 0 <= k < integers(first@).len() && integers(first@)[k] == c;
                assert(c == culprit);
            }
            assert(marks@[first@[0] as int]);
        }
        let ghost marked = marks@;
        let before_it = &self.narrowed_by[row];
        proof {
            assert(all_integers(self.narrowed_by@)[row as int] == integers(before_it@));
            assert forall|k: int| 0 <= k < before_it@.len() implies (#[trigger] before_it@[k]) < marks@.len() by {
                assert(self@.history[row as int][k] == before_it@[k]);
            }
        }
        accuse_all(before_it, &mut marks, &mut pending);
        proof {
            assert forall|c: int| 0 <= c < marks@.len() && (#[trigger] marks@[c]) implies guilty.contains(c) by {
                if !marked[c] {
                    let k = choose|k: int| 0 <= k < integers(before_it@).len() && integers(before_it@)[k] == c;
                    assert(history[row as int][k] == c);
                }
            }
            assert(marks@[culprit as int]) by {
                assert(marked[culprit as int]);
            }
            assert forall|k: int| 0 <= k < history[row as int].len() implies marks@[#[trigger] history[row as int][k]] by {
                assert(marks@[before_it@[k] as int]);
            }
            assert forall|c: int| 0 <= c < marks@.len() && (#[trigger] marks@[c]) implies pending@.contains(c as usize) by {}
        }
        while pending.len() > 0
            invariant
                system.well_formed(),
                self@.is_of(system.variables@.len() as int, system.constraints@.len() as int),
                history == self@.history,
                guilty == blame_of(*system, history, culprit as int, row as int),
                total == system.constraints@.len(),
                marks@.len() == total,
                culprit < total,
                row < system.variables@.len(),
                only_the_guilty(*system, history, culprit as int, row as int, marks@),
                marks@[culprit as int],
                forall|k: int| 0 <= k < history[row as int].len() ==> marks@[#[trigger] history[row as int][k]],
                forall|k: int| 0 <= k < pending@.len() ==> (#[trigger] pending@[k]) < total && marks@[pending@[k] as int],
                forall|c: int, s: int, k: int|
                    #![trigger marks@[c], history[system.incidence.rows@[c]@[s] as int][k]]
                    0 <= c < total && marks@[c] && !pending@.contains(c as usize) && 0 <= s
                        < system.incidence.rows@[c]@.len() && 0 <= k < history[system.incidence.rows@[c]@[s] as int].len()
                        ==> marks@[history[system.incidence.rows@[c]@[s] as int][k]],
            decreases unmarked(marks@), pending@.len(),
        {
            let ghost held = pending@;
            let ghost outer = marks@;
            let id: usize = pending.pop().unwrap();
            let rows = &system.incidence.rows[id];
            let count: usize = rows.len();
            let ghost rest = pending@;
            proof {
                assert(held[held.len() - 1] == id);
                assert forall|k: int| 0 <= k < rest.len() implies (#[trigger] rest[k]) < total && outer[rest[k] as int] by {
                    assert(rest[k] == held[k]);
                }
            }
            for s in 0..count
                invariant
                    system.well_formed(),
                    self@.is_of(system.variables@.len() as int, system.constraints@.len() as int),
                    history == self@.history,
                    guilty == blame_of(*system, history, culprit as int, row as int),
                    total == system.constraints@.len(),
                    id < total,
                    rows@ == system.incidence.rows@[id as int]@,
                    count == rows@.len(),
                    marks@.len() == total == outer.len(),
                    marks@[id as int],
                    only_the_guilty(*system, history, culprit as int, row as int, marks@),
                    forall|c: int| 0 <= c < total && outer[c] ==> #[trigger] marks@[c],
                    forall|c: int| 0 <= c < total && (#[trigger] marks@[c]) && !outer[c] ==> pending@.contains(c as usize),
                    forall|c: usize| #[trigger] rest.contains(c) ==> pending@.contains(c),
                    forall|k: int| 0 <= k < pending@.len() ==> (#[trigger] pending@[k]) < total && marks@[pending@[k] as int],
                    forall|t: int, k: int|
                        0 <= t < s && 0 <= k < history[rows@[t] as int].len() ==> marks@[#[trigger] history[rows@[t] as int][k]],
                    unmarked(marks@) <= unmarked(outer),
                    pending@.len() + unmarked(marks@) == rest.len() + unmarked(outer),
            {
                let read: usize = rows[s];
                assert(system.incidence.rows@[id as int]@[s as int] < system.variables@.len());
                let narrowers = &self.narrowed_by[read];
                let ghost before = marks@;
                let ghost waiting = pending@;
                proof {
                    assert(all_integers(self.narrowed_by@)[read as int] == integers(narrowers@));
                    assert forall|k: int| 0 <= k < narrowers@.len() implies (#[trigger] narrowers@[k]) < marks@.len() by {
                        assert(self@.history[read as int][k] == narrowers@[k]);
                    }
                }
                accuse_all(narrowers, &mut marks, &mut pending);
                proof {
                    assert forall|c: int| 0 <= c < marks@.len() && (#[trigger] marks@[c]) implies guilty.contains(c) by {
                        if !before[c] {
                            let k = choose|k: int| 0 <= k < integers(narrowers@).len() && integers(narrowers@)[k] == c;
                            assert(history[read as int][k] == c);
                            assert(before[id as int]);
                            assert(guilty.contains(id as int));
                            assert forall|set: Set<int>| #[trigger]
                                accuses(history, culprit as int, row as int, set) && traces_back(
                                    *system,
                                    history,
                                    set,
                                ) implies set.contains(c) by {
                                assert(set.contains(id as int));
                                assert(set.contains(history[system.incidence.rows@[id as int]@[s as int] as int][k]));
                            }
                        }
                    }
                    assert forall|k: int| 0 <= k < history[rows@[s as int] as int].len() implies marks@[#[trigger] history[rows@[s as int] as int][k]] by {
                        assert(marks@[narrowers@[k] as int]);
                    }
                    assert forall|k: int| 0 <= k < pending@.len() implies (#[trigger] pending@[k]) < total
                        && marks@[pending@[k] as int] by {
                        if !marks@[pending@[k] as int] {
                            assert(waiting.contains(pending@[k]));
                            let j = choose|j: int| 0 <= j < waiting.len() && waiting[j] == pending@[k];
                            assert(before[waiting[j] as int]);
                        }
                    }
                }
            }
            proof {
                assert forall|c: int, s: int, k: int|
                    #![trigger marks@[c], history[system.incidence.rows@[c]@[s] as int][k]]
                    0 <= c < total && marks@[c] && !pending@.contains(c as usize) && 0 <= s
                        < system.incidence.rows@[c]@.len() && 0 <= k < history[system.incidence.rows@[c]@[s] as int].len()
                        implies marks@[history[system.incidence.rows@[c]@[s] as int][k]] by {
                    if c != id {
                        assert(outer[c]);
                        if held.contains(c as usize) {
                            let j = choose|j: int| 0 <= j < held.len() && held[j] == c as usize;
                            assert(j < held.len() - 1);
                            assert(rest[j] == c as usize);
                            assert(rest.contains(c as usize));
                        }
                        assert(outer[history[system.incidence.rows@[c]@[s] as int][k]]);
                        assert(self@.history[system.incidence.rows@[c]@[s] as int][k] < total);
                    } else {
                        assert(marks@[history[rows@[s] as int][k]]);
                    }
                }
            }
        }
        proof {
            let set = Set::new(|c: int| 0 <= c < total && marks@[c]);
            assert(accuses(history, culprit as int, row as int, set)) by {
                assert forall|k: int| 0 <= k < history[row as int].len() implies set.contains(#[trigger] history[row as int][k]) by {
                    assert(marks@[history[row as int][k]]);
                    assert(self@.history[row as int][k] < total);
                }
            }
            assert(traces_back(*system, history, set)) by {
                assert forall|c: int, s: int, k: int|
                    #![trigger set.contains(c), history[system.incidence.rows@[c]@[s] as int][k]]
                    set.contains(c) && 0 <= c < system.constraints@.len() && 0 <= s < system.incidence.rows@[c]@.len() && 0
                        <= k < history[system.incidence.rows@[c]@[s] as int].len() implies set.contains(
                    history[system.incidence.rows@[c]@[s] as int][k],
                ) by {
                    assert(system.incidence.rows@[c]@[s] < system.variables@.len());
                    assert(marks@[c]);
                    assert(marks@[history[system.incidence.rows@[c]@[s] as int][k]]);
                    assert(self@.history[system.incidence.rows@[c]@[s] as int][k] < total);
                }
            }
            assert forall|c: int| 0 <= c < total implies marks@[c] == guilty.contains(c) by {
                if guilty.contains(c) {
                    assert(set.contains(c));
                }
            }
            assert(marks@ =~= marks_of(guilty, total as nat));
        }
        list_marked(&marks)
    }
}

// ---- contraction ----

/// A contraction under way.
#[verifier::ext_equal]
pub ghost struct Contraction {
    pub region: Region,
    /// The constraints waiting to be visited, each at most once.
    pub queue: Seq<int>,
    /// The constraints that ever narrowed anything.
    pub contributed: Seq<bool>,
    /// The constraint that emptied a coordinate, and the coordinate.
    pub dead: Option<(int, int)>,
}

/// A visit of one constraint under way.
#[verifier::ext_equal]
pub ghost struct Visit {
    pub state: Contraction,
    /// What the constraint's symbols may be.
    pub globals: Seq<Interval>,
}

/// A queue once the first of some ids are waiting in it.
pub open spec fn queued_up(queue: Seq<int>, ids: Seq<int>, upto: int) -> Seq<int>
    decreases upto,
{
    if upto <= 0 {
        queue
    } else {
        let before = queued_up(queue, ids, upto - 1);
        if before.contains(ids[upto - 1]) {
            before
        } else {
            before.push(ids[upto - 1])
        }
    }
}

/// One symbol of a constraint narrowed. Less than [`PROGRESS`] of the declared
/// width is no change at all: not applied, not recorded, not propagated.
pub open spec fn symbol_narrowed<E>(
    system: ConstraintSystem<E>,
    enclosures: Enclosures,
    arithmetic: Arithmetic,
    c: int,
    visit: Visit,
    k: int,
) -> Visit {
    let row = system.incidence.rows@[c]@[k] as int;
    let before = visit.globals[k];
    let after = before.common(system.constraints@[c].intervals.narrowed(enclosures, visit.globals, k as u32));
    let shrunk = arithmetic.minus(before.extent(arithmetic), after.extent(arithmetic));
    if visit.state.dead is Some {
        visit
    } else if after.has_nothing() {
        Visit {
            state: Contraction {
                contributed: visit.state.contributed.update(c, true),
                dead: Some((c, row)),
                ..visit.state
            },
            ..visit
        }
    } else if shrunk.at_most(arithmetic.times(progress(), system.variables@[row].extent(arithmetic))) {
        visit
    } else {
        let naming = integers(system.incidence.naming@[row]@);
        Visit {
            globals: visit.globals.update(k, after),
            state: Contraction {
                region: Region {
                    bounds: visit.state.region.bounds.update(row, after),
                    history: visit.state.region.history.update(row, visit.state.region.history[row].push(c)),
                },
                contributed: visit.state.contributed.update(c, true),
                queue: queued_up(visit.state.queue, naming, naming.len() as int),
                dead: None,
            },
        }
    }
}

/// The first symbols of a constraint narrowed, in order, each seeing what the
/// ones before concluded.
pub open spec fn symbols_narrowed<E>(
    system: ConstraintSystem<E>,
    enclosures: Enclosures,
    arithmetic: Arithmetic,
    c: int,
    state: Contraction,
    upto: int,
) -> Visit
    decreases upto,
{
    if upto <= 0 {
        Visit { state, globals: bounds_read(system, c, state.region.bounds) }
    } else {
        symbol_narrowed(
            system,
            enclosures,
            arithmetic,
            c,
            symbols_narrowed(system, enclosures, arithmetic, c, state, upto - 1),
            upto - 1,
        )
    }
}

/// What a constraint's symbols may be in a box.
pub open spec fn bounds_read<E>(system: ConstraintSystem<E>, c: int, bounds: Seq<Interval>) -> Seq<Interval> {
    Seq::new(system.incidence.rows@[c]@.len(), |k: int| bounds[system.incidence.rows@[c]@[k] as int])
}

/// A constraint visited.
pub open spec fn visited<E>(
    system: ConstraintSystem<E>,
    enclosures: Enclosures,
    arithmetic: Arithmetic,
    c: int,
    state: Contraction,
) -> Contraction {
    symbols_narrowed(system, enclosures, arithmetic, c, state, system.incidence.rows@[c]@.len() as int).state
}

/// The waiting constraints visited in turn, until none waits, a coordinate is
/// empty, or the visits are used up.
pub open spec fn contracting<E>(
    system: ConstraintSystem<E>,
    enclosures: Enclosures,
    arithmetic: Arithmetic,
    state: Contraction,
    visits: int,
) -> Contraction
    decreases visits,
{
    if visits <= 0 || state.queue.len() == 0 || state.dead is Some {
        state
    } else {
        contracting(
            system,
            enclosures,
            arithmetic,
            visited(
                system,
                enclosures,
                arithmetic,
                state.queue[0],
                Contraction { queue: state.queue.skip(1), ..state },
            ),
            visits - 1,
        )
    }
}

/// Every constraint waiting, in order.
pub open spec fn everyone(constraints: nat) -> Seq<int> {
    Seq::new(constraints, |c: int| c)
}

/// A box contracted under every constraint.
pub open spec fn contracted<E>(
    system: ConstraintSystem<E>,
    enclosures: Enclosures,
    arithmetic: Arithmetic,
    region: Region,
    contributed: Seq<bool>,
) -> Contraction {
    contracting(
        system,
        enclosures,
        arithmetic,
        Contraction { region, queue: everyone(system.constraints@.len()), contributed, dead: None },
        VISITS_PER_CONSTRAINT * system.constraints@.len(),
    )
}

/// What a contraction concluded.
#[derive(Debug)]
pub enum Contracted {
    /// No point of the box satisfies the constraints together; `blamed` are the
    /// constraints that show it.
    Empty { blamed: Vec<usize> },
    /// The box the constraints could not rule out.
    Live(Node),
}

/// Whether a conclusion is the one a contraction came to.
pub open spec fn concludes<E>(system: ConstraintSystem<E>, end: Contraction, conclusion: Contracted) -> bool {
    match end.dead {
        Some((culprit, row)) => {
            &&& conclusion matches Contracted::Empty { blamed }
            &&& integers(blamed@) == listed(
                blame_of(system, end.region.history, culprit, row),
                system.constraints@.len(),
            )
        },
        None => conclusion matches Contracted::Live(node) && node@ == end.region,
    }
}

/// Marks who is in a queue.
spec fn flags(queued: Seq<bool>, queue: Seq<usize>) -> bool {
    &&& queue.no_duplicates()
    &&& forall|k: int| 0 <= k < queue.len() ==> (#[trigger] queue[k]) < queued.len()
    &&& forall|c: int| 0 <= c < queued.len() ==> (#[trigger] queued[c] <==> queue.contains(c as usize))
}

proof fn integers_contain(list: Seq<usize>, x: int)
    requires
        0 <= x <= usize::MAX,
    ensures
        integers(list).contains(x) <==> list.contains(x as usize),
{
    if integers(list).contains(x) {
        let k = choose|k: int| 0 <= k < integers(list).len() && integers(list)[k] == x;
        assert(list[k] == x as usize);
    }
    if list.contains(x as usize) {
        let k = choose|k: int| 0 <= k < list.len() && list[k] == x as usize;
        assert(integers(list)[k] == x);
    }
}

fn queue_up(ids: &Vec<usize>, queue: &mut VecDeque<usize>, queued: &mut Vec<bool>)
    requires
        flags(old(queued)@, old(queue)@),
        forall|k: int| 0 <= k < ids@.len() ==> (#[trigger] ids@[k]) < old(queued)@.len(),
    ensures
        final(queued)@.len() == old(queued)@.len(),
        flags(final(queued)@, final(queue)@),
        integers(final(queue)@) == queued_up(integers(old(queue)@), integers(ids@), ids@.len() as int),
{
    let ghost start = queue@;
    let total: usize = queued.len();
    for k in 0..ids.len()
        invariant
            total == queued@.len(),
            flags(queued@, queue@),
            forall|k: int| 0 <= k < ids@.len() ==> (#[trigger] ids@[k]) < total,
            integers(queue@) == queued_up(integers(start), integers(ids@), k as int),
    {
        let id: usize = ids[k];
        proof {
            assert(integers(ids@)[k as int] == id);
            integers_contain(queue@, id as int);
            assert(queued@[id as int] <==> queue@.contains(id));
        }
        if !queued[id] {
            let ghost before = queue@;
            let ghost marked = queued@;
            queued.set(id, true);
            queue.push_back(id);
            proof {
                assert(integers(queue@) =~= integers(before).push(id as int));
                assert forall|c: int| 0 <= c < total implies (#[trigger] queued@[c] <==> queue@.contains(c as usize)) by {
                    assert(marked[c] <==> before.contains(c as usize));
                    if before.contains(c as usize) {
                        let j = choose|j: int| 0 <= j < before.len() && before[j] == c as usize;
                        assert(queue@[j] == c as usize);
                    }
                    assert(queue@[before.len() as int] == id);
                    if queue@.contains(c as usize) && c != id {
                        let j = choose|j: int| 0 <= j < queue@.len() && queue@[j] == c as usize;
                        assert(before[j] == c as usize);
                    }
                }
                assert forall|i: int, j: int| 0 <= i < queue@.len() && 0 <= j < queue@.len() && i != j implies queue@[i]
                    != queue@[j] by {
                    if i < before.len() && j < before.len() {
                        assert(before[i] != before[j]);
                    } else if i < before.len() {
                        assert(before.contains(before[i]));
                    } else {
                        assert(before.contains(before[j]));
                    }
                }
            }
        }
    }
}

fn read_bounds<E>(system: &ConstraintSystem<E>, c: usize, bounds: &Vec<Interval>) -> (globals: Vec<Interval>)
    requires
        system.well_formed(),
        c < system.constraints@.len(),
        bounds@.len() == system.variables@.len(),
    ensures
        globals@ == bounds_read(*system, c as int, bounds@),
{
    let rows = &system.incidence.rows[c];
    let count: usize = rows.len();
    let mut globals: Vec<Interval> = Vec::with_capacity(count);
    for k in 0..count
        invariant
            system.well_formed(),
            c < system.constraints@.len(),
            bounds@.len() == system.variables@.len(),
            rows@ == system.incidence.rows@[c as int]@,
            count == rows@.len(),
            globals@ =~= bounds_read(*system, c as int, bounds@).take(k as int),
    {
        assert(system.incidence.rows@[c as int]@[k as int] < system.variables@.len());
        globals.push(bounds[rows[k]]);
    }
    assert(globals@ =~= bounds_read(*system, c as int, bounds@));
    globals
}

/// Marks nobody has lost.
pub open spec fn only_grows(before: Seq<bool>, after: Seq<bool>) -> bool {
    before.len() == after.len() && forall|c: int| 0 <= c < before.len() && before[c] ==> #[trigger] after[c]
}

/// Visits a constraint: `Some` coordinate if one went empty.
fn visit<E, I: Intervals, M: Machine>(
    system: &ConstraintSystem<E>,
    intervals: &I,
    machine: &M,
    id: usize,
    node: &mut Node,
    contributed: &mut Vec<bool>,
    queue: &mut VecDeque<usize>,
    queued: &mut Vec<bool>,
) -> (emptied: Option<usize>)
    requires
        system.well_formed(),
        id < system.constraints@.len(),
        old(node)@.is_of(system.variables@.len() as int, system.constraints@.len() as int),
        old(contributed)@.len() == system.constraints@.len(),
        old(queued)@.len() == system.constraints@.len(),
        flags(old(queued)@, old(queue)@),
    ensures
        final(node)@.is_of(system.variables@.len() as int, system.constraints@.len() as int),
        only_grows(old(contributed)@, final(contributed)@),
        final(queued)@.len() == system.constraints@.len(),
        flags(final(queued)@, final(queue)@),
        emptied matches Some(row) ==> row < system.variables@.len(),
        regular(*intervals) && deterministic(*machine) ==> visited(
            *system,
            enclosures_of(*intervals),
            arithmetic_of(*machine),
            id as int,
            Contraction {
                region: old(node)@,
                queue: integers(old(queue)@),
                contributed: old(contributed)@,
                dead: None,
            },
        ) == (Contraction {
            region: final(node)@,
            queue: integers(final(queue)@),
            contributed: final(contributed)@,
            dead: match emptied {
                Some(row) => Some((id as int, row as int)),
                None => None,
            },
        }),
{
    let ghost known = regular(*intervals) && deterministic(*machine);
    let ghost enclosures = enclosures_of(*intervals);
    let ghost arithmetic = arithmetic_of(*machine);
    let ghost start = Contraction {
        region: node@,
        queue: integers(queue@),
        contributed: contributed@,
        dead: None,
    };
    let ghost first = contributed@;
    let rows = &system.incidence.rows[id];
    let count: usize = rows.len();
    let mut globals = read_bounds(system, id, &node.bounds);
    assert(system.constraints@[id as int].intervals.well_formed());
    let mut k: usize = 0;
    while k < count
        invariant
            k <= count,
            system.well_formed(),
            id < system.constraints@.len(),
            rows@ == system.incidence.rows@[id as int]@,
            count == rows@.len(),
            system.constraints@[id as int].intervals.well_formed(),
            globals@.len() == count,
            node@.is_of(system.variables@.len() as int, system.constraints@.len() as int),
            only_grows(first, contributed@),
            first.len() == system.constraints@.len(),
            queued@.len() == system.constraints@.len(),
            flags(queued@, queue@),
            known == (regular(*intervals) && deterministic(*machine)),
            enclosures == enclosures_of(*intervals),
            arithmetic == arithmetic_of(*machine),
            first == old(contributed)@,
            start == (Contraction {
                region: old(node)@,
                queue: integers(old(queue)@),
                contributed: old(contributed)@,
                dead: None,
            }),
            known ==> symbols_narrowed(*system, enclosures, arithmetic, id as int, start, k as int) == (Visit {
                state: Contraction {
                    region: node@,
                    queue: integers(queue@),
                    contributed: contributed@,
                    dead: None,
                },
                globals: globals@,
            }),
        decreases count - k,
    {
        let ghost region = node@;
        let row: usize = rows[k];
        assert(system.incidence.rows@[id as int]@[k as int] < system.variables@.len());
        let before = globals[k];
        let more = system.constraints[id].intervals.narrow(intervals, &globals, GlobalId(k as u32));
        let after = before.intersect(more);
        if after.is_empty() {
            contributed.set(id, true);
            proof {
                if known {
                    dead_stays_dead(*system, enclosures, arithmetic, id as int, start, k + 1, count as int);
                }
            }
            return Some(row);
        }
        let shrunk = minus(machine, before.width(machine), after.width(machine));
        let threshold = times(machine, progress(), system.variables[row].width(machine));
        if !shrunk.le(threshold) {
            globals.set(k, after);
            node.bounds.set(row, after);
            let ghost lists = node.narrowed_by@;
            assert(all_integers(lists)[row as int] == integers(lists[row as int]@));
            let mut list: Vec<usize> = Vec::new();
            std::mem::swap(&mut list, &mut node.narrowed_by[row]);
            let ghost held = list@;
            list.push(id);
            assert(integers(list@) =~= integers(held).push(id as int));
            std::mem::swap(&mut list, &mut node.narrowed_by[row]);
            proof {
                assert(all_integers(node.narrowed_by@) =~= all_integers(lists).update(
                    row as int,
                    integers(held).push(id as int),
                ));
                assert(node@.bounds =~= region.bounds.update(row as int, after));
                assert(node@.history =~= region.history.update(row as int, region.history[row as int].push(id as int)));
                assert forall|r: int, j: int|
                    0 <= r < system.variables@.len() && 0 <= j < node@.history[r].len() implies 0 <= (
                #[trigger] node@.history[r][j]) < system.constraints@.len() by {
                    if r == row {
                        if j < region.history[r].len() {
                            assert(node@.history[r][j] == region.history[r][j]);
                        }
                    } else {
                        assert(node@.history[r] == region.history[r]);
                        assert(0 <= region.history[r][j] < system.constraints@.len());
                    }
                }
            }
            contributed.set(id, true);
            let naming = &system.incidence.naming[row];
            proof {
                assert forall|j: int| 0 <= j < naming@.len() implies (#[trigger] naming@[j]) < queued@.len() by {
                    assert(integers(naming@)[j] == naming@[j]);
                    naming_lists_who_names(
                        system.incidence,
                        system.constraints@.len() as int,
                        system.variables@.len() as int,
                        row as int,
                        naming@[j] as int,
                    );
                    assert(integers(naming@).contains(naming@[j] as int));
                }
            }
            queue_up(naming, queue, queued);
        }
        k = k + 1;
    }
    None
}

proof fn dead_stays_dead<E>(
    system: ConstraintSystem<E>,
    enclosures: Enclosures,
    arithmetic: Arithmetic,
    c: int,
    state: Contraction,
    from: int,
    upto: int,
)
    requires
        from <= upto,
        symbols_narrowed(system, enclosures, arithmetic, c, state, from).state.dead is Some,
    ensures
        symbols_narrowed(system, enclosures, arithmetic, c, state, upto) == symbols_narrowed(
            system,
            enclosures,
            arithmetic,
            c,
            state,
            from,
        ),
    decreases upto - from,
{
    if from < upto {
        dead_stays_dead(system, enclosures, arithmetic, c, state, from, upto - 1);
    }
}

/// Contracts `node` under every constraint of `system`.
///
/// `contributed[c]` is set whenever constraint `c` narrows anything, and never
/// cleared: over a whole run it says which constraints said nothing.
pub fn contract<E, I: Intervals, M: Machine>(
    system: &ConstraintSystem<E>,
    intervals: &I,
    machine: &M,
    node: Node,
    contributed: &mut Vec<bool>,
) -> (conclusion: Contracted)
    requires
        system.well_formed(),
        node@.is_of(system.variables@.len() as int, system.constraints@.len() as int),
        old(contributed)@.len() == system.constraints@.len(),
    ensures
        only_grows(old(contributed)@, final(contributed)@),
        conclusion matches Contracted::Live(left) ==> left@.is_of(
            system.variables@.len() as int,
            system.constraints@.len() as int,
        ),
        conclusion matches Contracted::Empty { blamed } ==> names_some(blamed@, system.constraints@.len() as int),
        regular(*intervals) && deterministic(*machine) ==> {
            let end = contracted(
                *system,
                enclosures_of(*intervals),
                arithmetic_of(*machine),
                node@,
                old(contributed)@,
            );
            concludes(*system, end, conclusion) && final(contributed)@ == end.contributed
        },
{
    let ghost known = regular(*intervals) && deterministic(*machine);
    let ghost enclosures = enclosures_of(*intervals);
    let ghost arithmetic = arithmetic_of(*machine);
    let ghost first = contributed@;
    let ghost end = contracted(*system, enclosures, arithmetic, node@, first);
    let total: usize = system.constraints.len();
    let mut current = node;
    let mut queue: VecDeque<usize> = VecDeque::new();
    for c in 0..total
        invariant
            queue@.len() == c,
            forall|k: int| 0 <= k < c ==> (#[trigger] queue@[k]) == k,
    {
        queue.push_back(c);
    }
    let mut queued: Vec<bool> = vec![true; total];
    proof {
        assert(integers(queue@) =~= everyone(total as nat));
        assert forall|c: int| 0 <= c < queued@.len() implies (#[trigger] queued@[c] <==> queue@.contains(c as usize)) by {
            assert(queue@[c] == c as usize);
        }
    }
    let mut left: u128 = VISITS_PER_CONSTRAINT as u128 * total as u128;
    while left > 0 && queue.len() > 0
        invariant
            system.well_formed(),
            total == system.constraints@.len(),
            current@.is_of(system.variables@.len() as int, system.constraints@.len() as int),
            only_grows(first, contributed@),
            first.len() == total,
            queued@.len() == total,
            flags(queued@, queue@),
            known == (regular(*intervals) && deterministic(*machine)),
            enclosures == enclosures_of(*intervals),
            arithmetic == arithmetic_of(*machine),
            first == old(contributed)@,
            end == contracted(*system, enclosures, arithmetic, node@, first),
            known ==> end == contracting(
                *system,
                enclosures,
                arithmetic,
                Contraction {
                    region: current@,
                    queue: integers(queue@),
                    contributed: contributed@,
                    dead: None,
                },
                left as int,
            ),
        decreases left,
    {
        let ghost before = queue@;
        let ghost marked = queued@;
        let id: usize = queue.pop_front().unwrap();
        assert(id == before[0]);
        queued.set(id, false);
        proof {
            assert(integers(queue@) =~= integers(before).skip(1));
            assert forall|c: int| 0 <= c < total implies (#[trigger] queued@[c] <==> queue@.contains(c as usize)) by {
                assert(marked[c] <==> before.contains(c as usize));
                if queue@.contains(c as usize) {
                    let k = choose|k: int| 0 <= k < queue@.len() && queue@[k] == c as usize;
                    assert(before[k + 1] == c as usize);
                    assert(before[0] != before[k + 1]);
                }
                if before.contains(c as usize) && c != id {
                    let k = choose|k: int| 0 <= k < before.len() && before[k] == c as usize;
                    assert(queue@[k - 1] == c as usize);
                }
            }
            assert forall|i: int, j: int| 0 <= i < queue@.len() && 0 <= j < queue@.len() && i != j implies queue@[i]
                != queue@[j] by {
                assert(before[i + 1] != before[j + 1]);
            }
            assert forall|k: int| 0 <= k < queue@.len() implies (#[trigger] queue@[k]) < queued@.len() by {
                assert(before[k + 1] < marked.len());
            }
        }
        left = left - 1;
        match visit(system, intervals, machine, id, &mut current, contributed, &mut queue, &mut queued) {
            Some(row) => {
                let blamed = current.blame(system, id, row);
                proof {
                    let last = Contraction {
                        region: current@,
                        queue: integers(queue@),
                        contributed: contributed@,
                        dead: Some((id as int, row as int)),
                    };
                    assert(known ==> end == contracting(*system, enclosures, arithmetic, last, left as int));
                    assert(contracting(*system, enclosures, arithmetic, last, left as int) == last);
                    let guilty = blame_of(*system, current@.history, id as int, row as int);
                    assert(guilty.contains(id as int));
                    marks_are_named(marks_of(guilty, total as nat), id as int, blamed@);
                }
                return Contracted::Empty { blamed };
            },
            None => {},
        }
    }
    Contracted::Live(current)
}

/// The marked are listed: each once, in ascending order, and nobody else.
pub proof fn marked_ones(marks: Seq<bool>, upto: int)
    ensures
        forall|i: int|
            0 <= i < marked_below(marks, upto).len() ==> 0 <= (#[trigger] marked_below(marks, upto)[i]) < upto
                && marks[marked_below(marks, upto)[i]],
        forall|i: int, j: int|
            0 <= i < j < marked_below(marks, upto).len() ==> (#[trigger] marked_below(marks, upto)[i]) < (
            #[trigger] marked_below(marks, upto)[j]),
        forall|c: int| 0 <= c < upto && marks[c] ==> #[trigger] marked_below(marks, upto).contains(c),
    decreases upto,
{
    if upto > 0 {
        marked_ones(marks, upto - 1);
        let before = marked_below(marks, upto - 1);
        let after = marked_below(marks, upto);
        assert forall|c: int| 0 <= c < upto && marks[c] implies #[trigger] after.contains(c) by {
            if c == upto - 1 {
                assert(after[before.len() as int] == c);
            } else {
                assert(before.contains(c));
                let i = choose|i: int| 0 <= i < before.len() && before[i] == c;
                assert(after[i] == c);
            }
        }
    }
}

proof fn marks_are_named(marks: Seq<bool>, c: int, list: Seq<usize>)
    requires
        0 <= c < marks.len(),
        marks[c],
        integers(list) == marked_below(marks, marks.len() as int),
    ensures
        names_some(list, marks.len() as int),
{
    marked_ones(marks, marks.len() as int);
    assert(integers(list).contains(c));
    assert forall|i: int, j: int| 0 <= i < j < list.len() implies (#[trigger] list[i]) < (#[trigger] list[j]) by {
        assert(integers(list)[i] < integers(list)[j]);
    }
    assert forall|k: int| 0 <= k < list.len() implies (#[trigger] list[k]) < marks.len() by {
        assert(integers(list)[k] == list[k]);
    }
}

// ---- branch and prune ----

/// A box branch-and-prune could not rule out.
#[derive(Debug)]
pub struct Leaf {
    pub node: Node,
    /// The box's centre, when it was judged feasible: a piece of the region in
    /// hand, and the reason the box was not split further.
    pub settled: Option<Point>,
}

/// A leaf's box and its settled centre.
#[verifier::ext_equal]
pub ghost struct Standing {
    pub region: Region,
    pub settled: Option<Seq<Real>>,
}

impl View for Leaf {
    type V = Standing;

    open spec fn view(&self) -> Standing {
        Standing {
            region: self.node@,
            settled: match self.settled {
                Some(point) => Some(point@),
                None => None,
            },
        }
    }
}

/// Whether every leaf is over a system's coordinates.
pub open spec fn are_leaves_of<E>(leaves: Seq<Leaf>, system: ConstraintSystem<E>) -> bool {
    forall|k: int|
        0 <= k < leaves.len() ==> {
            &&& (#[trigger] leaves[k]).node@.is_of(system.variables@.len() as int, system.constraints@.len() as int)
            &&& leaves[k].settled matches Some(point) ==> system.fits(point@)
        }
}

/// The boxes of a list of nodes.
pub open spec fn regions(nodes: Seq<Node>) -> Seq<Region> {
    nodes.map_values(|node: Node| node@)
}

/// The views of a list of leaves.
pub open spec fn standings(leaves: Seq<Leaf>) -> Seq<Standing> {
    leaves.map_values(|leaf: Leaf| leaf@)
}

/// What a bisection concluded.
#[derive(Debug)]
pub enum Pruned {
    /// Every box died: no point of the root satisfies the constraints together,
    /// and `blamed` is the union of what each death showed.
    Empty { blamed: Vec<usize> },
    /// The boxes still standing when the run ended.
    Live {
        leaves: Vec<Leaf>,
        /// Whether the run ended on its budget or a cancellation rather than by
        /// running out of boxes to split.
        exhausted: bool,
    },
}

/// A bisection under way.
#[verifier::ext_equal]
pub ghost struct Bisection {
    pub queue: Seq<Region>,
    pub leaves: Seq<Standing>,
    pub blamed: Seq<bool>,
    pub contributed: Seq<bool>,
    /// How many contractions are left.
    pub remaining: int,
    pub exhausted: bool,
    /// How many boxes have been looked at.
    pub looked: int,
}

/// A box as a leaf: its centre, with every driven coordinate put at the centre
/// of its band, is settled if it is feasible.
pub open spec fn leaf_of<E: Evaluate>(
    system: ConstraintSystem<E>,
    enclosures: Enclosures,
    arithmetic: Arithmetic,
    region: Region,
) -> Standing {
    let point = centred_point(system, enclosures, arithmetic, middles(arithmetic, region.bounds));
    Standing {
        region,
        settled: if system.feasible(arithmetic, point, zero()) {
            Some(point)
        } else {
            None
        },
    }
}

/// How wide a coordinate is, relative to its declared width.
pub open spec fn relative_width(arithmetic: Arithmetic, variable: InputVariable, interval: Interval) -> Real {
    arithmetic.over(interval.extent(arithmetic), variable.extent(arithmetic))
}

/// Whether a coordinate is wide enough to be worth splitting.
pub open spec fn is_splittable(arithmetic: Arithmetic, variable: InputVariable, interval: Interval) -> bool {
    zero().below(variable.extent(arithmetic)) && resolution().at_most(relative_width(arithmetic, variable, interval))
}

/// The widest of the first coordinates worth splitting, the last of equals.
pub open spec fn widest_below(
    arithmetic: Arithmetic,
    variables: Seq<InputVariable>,
    bounds: Seq<Interval>,
    upto: int,
) -> Option<int>
    decreases upto,
{
    if upto <= 0 {
        None
    } else {
        let before = widest_below(arithmetic, variables, bounds, upto - 1);
        let r = upto - 1;
        if !is_splittable(arithmetic, variables[r], bounds[r]) {
            before
        } else {
            match before {
                None => Some(r),
                Some(best) => if relative_width(arithmetic, variables[best], bounds[best]).at_most(
                    relative_width(arithmetic, variables[r], bounds[r]),
                ) {
                    Some(r)
                } else {
                    Some(best)
                },
            }
        }
    }
}

/// A half of a box contracted: it joins the queue, or what shows it empty is
/// blamed.
pub open spec fn half_tried<E>(
    system: ConstraintSystem<E>,
    enclosures: Enclosures,
    arithmetic: Arithmetic,
    region: Region,
    row: int,
    half: Interval,
    state: Bisection,
) -> Bisection {
    let child = Region { bounds: region.bounds.update(row, half), ..region };
    let end = contracted(system, enclosures, arithmetic, child, state.contributed);
    match end.dead {
        None => Bisection { queue: state.queue.push(end.region), contributed: end.contributed, ..state },
        Some((culprit, emptied)) => Bisection {
            blamed: both_marked(
                state.blamed,
                marks_of(blame_of(system, end.region.history, culprit, emptied), system.constraints@.len()),
            ),
            contributed: end.contributed,
            ..state
        },
    }
}

/// Marks of either.
pub open spec fn both_marked(a: Seq<bool>, b: Seq<bool>) -> Seq<bool> {
    Seq::new(a.len(), |c: int| a[c] || b[c])
}

/// The next box looked at: settled, too small, cut short, or split in two.
pub open spec fn looked_at<E: Evaluate>(
    system: ConstraintSystem<E>,
    enclosures: Enclosures,
    arithmetic: Arithmetic,
    state: Bisection,
    cancelled: bool,
) -> Bisection {
    let region = state.queue[0];
    let next = Bisection { queue: state.queue.skip(1), looked: state.looked + 1, ..state };
    let leaf = leaf_of(system, enclosures, arithmetic, region);
    if cancelled {
        Bisection { leaves: next.leaves.push(leaf), exhausted: true, ..next }
    } else if leaf.settled is Some {
        Bisection { leaves: next.leaves.push(leaf), ..next }
    } else {
        match widest_below(arithmetic, system.variables@, region.bounds, region.bounds.len() as int) {
            None => Bisection { leaves: next.leaves.push(leaf), ..next },
            Some(row) => if next.remaining < 2 {
                Bisection { leaves: next.leaves.push(leaf), exhausted: true, ..next }
            } else {
                let whole = region.bounds[row];
                let middle = middle_of(arithmetic, whole);
                let spent = Bisection { remaining: next.remaining - 2, ..next };
                let lower = half_tried(
                    system,
                    enclosures,
                    arithmetic,
                    region,
                    row,
                    Interval::new(whole.lo, middle),
                    spent,
                );
                half_tried(
                    system,
                    enclosures,
                    arithmetic,
                    region,
                    row,
                    Interval::new(middle, whole.hi),
                    lower,
                )
            },
        }
    }
}

/// Boxes looked at in turn while any waits; `answers` says of each whether a
/// cancellation had been requested.
pub open spec fn bisecting<E: Evaluate>(
    system: ConstraintSystem<E>,
    enclosures: Enclosures,
    arithmetic: Arithmetic,
    state: Bisection,
    answers: Seq<bool>,
    looks: nat,
) -> Bisection
    decreases looks,
{
    if looks == 0 || state.queue.len() == 0 {
        state
    } else {
        bisecting(
            system,
            enclosures,
            arithmetic,
            looked_at(system, enclosures, arithmetic, state, answers[state.looked]),
            answers,
            (looks - 1) as nat,
        )
    }
}

/// A whole bisection from a root: at most one look more than the budget.
pub open spec fn bisected<E: Evaluate>(
    system: ConstraintSystem<E>,
    enclosures: Enclosures,
    arithmetic: Arithmetic,
    root: Region,
    budget: int,
    contributed: Seq<bool>,
    answers: Seq<bool>,
) -> Bisection {
    bisecting(
        system,
        enclosures,
        arithmetic,
        started(root, budget, contributed),
        answers,
        (budget + 1) as nat,
    )
}

/// A bisection before its first look.
pub open spec fn started(root: Region, budget: int, contributed: Seq<bool>) -> Bisection {
    Bisection {
        queue: seq![root],
        leaves: Seq::empty(),
        blamed: Seq::new(contributed.len(), |c: int| false),
        contributed,
        remaining: budget,
        exhausted: false,
        looked: 0,
    }
}

/// Whether a conclusion is the one a bisection came to.
pub open spec fn prunes(end: Bisection, conclusion: Pruned) -> bool {
    if end.leaves.len() == 0 {
        conclusion matches Pruned::Empty { blamed } && integers(blamed@) == marked_below(
            end.blamed,
            end.blamed.len() as int,
        )
    } else {
        conclusion matches Pruned::Live { leaves, exhausted } && standings(leaves@) == end.leaves && exhausted
            == end.exhausted
    }
}

fn settle<E: Evaluate, I: Intervals, M: Machine>(
    system: &ConstraintSystem<E>,
    intervals: &I,
    machine: &M,
    node: Node,
) -> (leaf: Leaf)
    requires
        system.well_formed(),
        node@.is_of(system.variables@.len() as int, system.constraints@.len() as int),
    ensures
        leaf.node@ == node@,
        leaf.settled matches Some(point) ==> system.fits(point@),
        regular(*intervals) && deterministic(*machine) && system.judged() ==> leaf@ == leaf_of(
            *system,
            enclosures_of(*intervals),
            arithmetic_of(*machine),
            node@,
        ),
{
    let mut point = node.centre(machine);
    centre(system, intervals, machine, &mut point);
    let feasible = system.is_feasible(machine, &point, zero());
    let settled = if feasible {
        Some(point)
    } else {
        None
    };
    Leaf { node, settled }
}

/// The widest coordinate worth splitting.
fn widest<E, M: Machine>(system: &ConstraintSystem<E>, machine: &M, node: &Node) -> (row: Option<usize>)
    requires
        node@.is_of(system.variables@.len() as int, system.constraints@.len() as int),
    ensures
        row matches Some(r) ==> r < system.variables@.len(),
        deterministic(*machine) ==> widest_below(
            arithmetic_of(*machine),
            system.variables@,
            node@.bounds,
            node@.bounds.len() as int,
        ) == (match row {
            Some(r) => Some(r as int),
            None => None,
        }),
{
    let ghost arithmetic = arithmetic_of(*machine);
    let mut best: Option<(usize, Real)> = None;
    for r in 0..node.bounds.len()
        invariant
            node@.is_of(system.variables@.len() as int, system.constraints@.len() as int),
            arithmetic == arithmetic_of(*machine),
            best matches Some(pair) ==> pair.0 < system.variables@.len(),
            deterministic(*machine) ==> (best matches Some(pair) ==> pair.1 == relative_width(
                arithmetic,
                system.variables@[pair.0 as int],
                node@.bounds[pair.0 as int],
            )),
            deterministic(*machine) ==> widest_below(arithmetic, system.variables@, node@.bounds, r as int) == (match best {
                Some(pair) => Some(pair.0 as int),
                None => None,
            }),
    {
        let width = system.variables[r].width(machine);
        let relative = over(machine, node.bounds[r].width(machine), width);
        if zero().lt(width) && resolution().le(relative) {
            let replaces = match best {
                None => true,
                Some(pair) => pair.1.le(relative),
            };
            if replaces {
                best = Some((r, relative));
            }
        }
    }
    match best {
        Some(pair) => Some(pair.0),
        None => None,
    }
}

/// Contracts a half of a box.
fn try_half<E, I: Intervals, M: Machine>(
    system: &ConstraintSystem<E>,
    intervals: &I,
    machine: &M,
    node: &Node,
    row: usize,
    half: Interval,
    contributed: &mut Vec<bool>,
    blamed: &mut Vec<bool>,
    queue: &mut VecDeque<Node>,
    state: Ghost<Bisection>,
)
    requires
        system.well_formed(),
        node@.is_of(system.variables@.len() as int, system.constraints@.len() as int),
        row < system.variables@.len(),
        old(contributed)@.len() == system.constraints@.len(),
        old(blamed)@.len() == system.constraints@.len(),
        forall|k: int|
            0 <= k < old(queue)@.len() ==> (#[trigger] old(queue)@[k])@.is_of(
                system.variables@.len() as int,
                system.constraints@.len() as int,
            ),
    ensures
        only_grows(old(contributed)@, final(contributed)@),
        final(blamed)@.len() == system.constraints@.len(),
        old(queue)@.len() <= final(queue)@.len() <= old(queue)@.len() + 1,
        final(queue)@.len() > 0 || some_marked(final(blamed)@),
        forall|k: int|
            0 <= k < final(queue)@.len() ==> (#[trigger] final(queue)@[k])@.is_of(
                system.variables@.len() as int,
                system.constraints@.len() as int,
            ),
        regular(*intervals) && deterministic(*machine) && state@.queue == regions(old(queue)@) && state@.blamed == old(
            blamed,
        )@ && state@.contributed == old(contributed)@ ==> {
            let next = half_tried(
                *system,
                enclosures_of(*intervals),
                arithmetic_of(*machine),
                node@,
                row as int,
                half,
                state@,
            );
            next == (Bisection {
                queue: regions(final(queue)@),
                blamed: final(blamed)@,
                contributed: final(contributed)@,
                ..state@
            })
        },
{
    let ghost waiting = queue@;
    let ghost marked = blamed@;
    let mut child = node.duplicate();
    let ghost whole = child@;
    child.bounds.set(row, half);
    assert(child@ =~= (Region { bounds: node@.bounds.update(row as int, half), ..node@ }));
    match contract(system, intervals, machine, child, contributed) {
        Contracted::Live(left) => {
            queue.push_back(left);
            proof {
                assert(regions(queue@) =~= regions(waiting).push(left@));
                assert forall|k: int| 0 <= k < queue@.len() implies (#[trigger] queue@[k])@.is_of(
                    system.variables@.len() as int,
                    system.constraints@.len() as int,
                ) by {
                    if k < waiting.len() {
                        assert(queue@[k] == waiting[k]);
                    }
                }
            }
        },
        Contracted::Empty { blamed: shown } => {
            let total: usize = blamed.len();
            for k in 0..shown.len()
                invariant
                    total == system.constraints@.len() == blamed@.len() == marked.len(),
                    forall|k: int| 0 <= k < shown@.len() ==> (#[trigger] shown@[k]) < total,
                    forall|c: int|
                        0 <= c < total ==> (#[trigger] blamed@[c] <==> marked[c] || integers(shown@.take(k as int)).contains(c)),
            {
                let c: usize = shown[k];
                let ghost before = blamed@;
                blamed.set(c, true);
                proof {
                    let earlier = integers(shown@.take(k as int));
                    let later = integers(shown@.take(k + 1));
                    assert(later =~= earlier.push(c as int));
                    assert forall|x: int| 0 <= x < total implies (#[trigger] blamed@[x] <==> marked[x] || later.contains(x)) by {
                        assert(before[x] <==> marked[x] || earlier.contains(x));
                        assert(later[k as int] == c);
                        if earlier.contains(x) {
                            let j = choose|j: int| 0 <= j < earlier.len() && earlier[j] == x;
                            assert(later[j] == x);
                        }
                        if later.contains(x) && x != c {
                            let j = choose|j: int| 0 <= j < later.len() && later[j] == x;
                            assert(earlier[j] == x);
                        }
                    }
                }
            }
            proof {
                assert(shown@.take(shown@.len() as int) =~= shown@);
                assert(integers(shown@)[0] == shown@[0]);
                assert(blamed@[shown@[0] as int]);
                if regular(*intervals) && deterministic(*machine) && state@.contributed == old(contributed)@ {
                    let end = contracted(
                        *system,
                        enclosures_of(*intervals),
                        arithmetic_of(*machine),
                        child@,
                        state@.contributed,
                    );
                    let (culprit, emptied) = end.dead->0;
                    let guilty = marks_of(
                        blame_of(*system, end.region.history, culprit, emptied),
                        system.constraints@.len(),
                    );
                    marked_ones(guilty, total as int);
                    assert forall|c: int| 0 <= c < total implies integers(shown@).contains(c) == guilty[c] by {
                        if integers(shown@).contains(c) {
                            let j = choose|j: int| 0 <= j < integers(shown@).len() && integers(shown@)[j] == c;
                            assert(guilty[marked_below(guilty, total as int)[j]]);
                        }
                        if guilty[c] {
                            assert(marked_below(guilty, total as int).contains(c));
                        }
                    }
                    assert(blamed@ =~= both_marked(marked, guilty));
                }
            }
        },
    }
}

/// Branch-and-prune from `root`, which has been contracted already, for at most
/// `budget` further contractions.
///
/// Breadth-first, so the budget is spread across the pieces of the region. A
/// box whose centre, driven coordinates centred in their bands, is judged
/// feasible is settled and not split. A box with no coordinate wider than
/// [`RESOLUTION`] is a leaf as it stands. `cancelled` is asked before each box;
/// once it says yes, what waits is left as it stands.
pub fn bisect<E: Evaluate, I: Intervals, M: Machine, C: Fn() -> bool>(
    system: &ConstraintSystem<E>,
    intervals: &I,
    machine: &M,
    root: Node,
    budget: u32,
    contributed: &mut Vec<bool>,
    cancelled: &C,
) -> (conclusion: Pruned)
    requires
        system.well_formed(),
        root@.is_of(system.variables@.len() as int, system.constraints@.len() as int),
        old(contributed)@.len() == system.constraints@.len(),
        call_requires(cancelled, ()),
    ensures
        only_grows(old(contributed)@, final(contributed)@),
        conclusion matches Pruned::Live { leaves, .. } ==> {
            &&& 0 < leaves@.len()
            &&& 2 * leaves@.len() <= 2 + budget
            &&& are_leaves_of(leaves@, *system)
        },
        conclusion matches Pruned::Empty { blamed } ==> names_some(blamed@, system.constraints@.len() as int),
        regular(*intervals) && deterministic(*machine) && system.judged() ==> exists|answers: Seq<bool>|
            {
                let end = bisected(
                    *system,
                    enclosures_of(*intervals),
                    arithmetic_of(*machine),
                    root@,
                    budget as int,
                    old(contributed)@,
                    answers,
                );
                &&& #[trigger] were_answered(*cancelled, answers)
                &&& end.looked == answers.len()
                &&& end.queue.len() == 0
                &&& prunes(end, conclusion)
                &&& final(contributed)@ == end.contributed
            },
{
    let ghost known = regular(*intervals) && deterministic(*machine) && system.judged();
    let ghost enclosures = enclosures_of(*intervals);
    let ghost arithmetic = arithmetic_of(*machine);
    let ghost first = contributed@;
    let ghost begin = started(root@, budget as int, first);
    let total: usize = system.constraints.len();
    let mut queue: VecDeque<Node> = VecDeque::new();
    let ghost origin = root@;
    queue.push_back(root);
    let mut leaves: Vec<Leaf> = Vec::new();
    let mut blamed: Vec<bool> = vec![false; total];
    let mut remaining: u32 = budget;
    let mut exhausted: bool = false;
    let ghost mut answers: Seq<bool> = Seq::empty();
    let ghost mut looks: nat = (budget + 1) as nat;
    proof {
        assert(regions(queue@) =~= seq![origin]);
        assert(standings(leaves@) =~= Seq::empty());
        assert(blamed@ =~= begin.blamed);
        assert(is_so_far(
            *system,
            enclosures,
            arithmetic,
            begin,
            answers,
            (budget + 1) as nat,
            begin,
            looks,
        ));
    }
    while queue.len() > 0
        invariant
            system.well_formed(),
            total == system.constraints@.len(),
            call_requires(cancelled, ()),
            forall|k: int|
                0 <= k < queue@.len() ==> (#[trigger] queue@[k])@.is_of(
                    system.variables@.len() as int,
                    system.constraints@.len() as int,
                ),
            first == old(contributed)@,
            only_grows(first, contributed@),
            first.len() == total,
            blamed@.len() == total,
            remaining <= budget,
            are_leaves_of(leaves@, *system),
            2 * (queue@.len() + leaves@.len()) <= 2 + budget - remaining,
            queue@.len() + leaves@.len() > 0 || some_marked(blamed@),
            looks >= queue@.len() + remaining,
            known == (regular(*intervals) && deterministic(*machine) && system.judged()),
            enclosures == enclosures_of(*intervals),
            arithmetic == arithmetic_of(*machine),
            begin == started(root@, budget as int, first),
            were_answered(*cancelled, answers),
            known ==> is_so_far(
                *system,
                enclosures,
                arithmetic,
                begin,
                answers,
                (budget + 1) as nat,
                (Bisection {
                    queue: regions(queue@),
                    leaves: standings(leaves@),
                    blamed: blamed@,
                    contributed: contributed@,
                    remaining: remaining as int,
                    exhausted,
                    looked: answers.len() as int,
                }),
                looks,
            ),
        decreases queue@.len() + remaining,
    {
        let ghost waiting = queue@;
        let ghost standing = leaves@;
        let ghost before = Bisection {
            queue: regions(queue@),
            leaves: standings(leaves@),
            blamed: blamed@,
            contributed: contributed@,
            remaining: remaining as int,
            exhausted,
            looked: answers.len() as int,
        };
        let node = queue.pop_front().unwrap();
        let ghost region = node@;
        proof {
            assert(regions(waiting)[0] == region);
            assert(regions(queue@) =~= regions(waiting).skip(1));
            assert forall|k: int| 0 <= k < queue@.len() implies (#[trigger] queue@[k])@.is_of(
                system.variables@.len() as int,
                system.constraints@.len() as int,
            ) by {
                assert(queue@[k] == waiting[k + 1]);
            }
            assert(waiting[0]@.is_of(system.variables@.len() as int, system.constraints@.len() as int));
        }
        let cancel = cancelled();
        let ghost earlier = answers;
        proof {
            answers = answers.push(cancel);
            assert forall|i: int| 0 <= i < answers.len() implies call_ensures(*cancelled, (), #[trigger] answers[i]) by {
                if i < earlier.len() {
                    assert(answers[i] == earlier[i]);
                }
            }
        }
        let leaf = settle(system, intervals, machine, node);
        let row: Option<usize> = if cancel || leaf.settled.is_some() {
            None
        } else {
            widest(system, machine, &leaf.node)
        };
        let split = match row {
            Some(_) => remaining >= 2,
            None => false,
        };
        if !split {
            if cancel || row.is_some() {
                exhausted = true;
            }
            leaves.push(leaf);
            assert(standings(leaves@) =~= standings(standing).push(leaf@));
            assert forall|k: int| 0 <= k < leaves@.len() implies {
                &&& (#[trigger] leaves@[k]).node@.is_of(
                    system.variables@.len() as int,
                    system.constraints@.len() as int,
                )
                &&& leaves@[k].settled matches Some(point) ==> system.fits(point@)
            } by {
                if k < standing.len() {
                    assert(leaves@[k] == standing[k]);
                }
            }
        } else {
            let row: usize = row.unwrap();
            remaining = remaining - 2;
            let whole = leaf.node.bounds[row];
            let half_way = middle(machine, whole);
            let ghost spent = Bisection {
                queue: before.queue.skip(1),
                looked: before.looked + 1,
                remaining: before.remaining - 2,
                ..before
            };
            let lower = Interval::new(whole.lo, half_way);
            try_half(
                system,
                intervals,
                machine,
                &leaf.node,
                row,
                lower,
                contributed,
                &mut blamed,
                &mut queue,
                Ghost(spent),
            );
            let ghost between = Bisection {
                queue: regions(queue@),
                blamed: blamed@,
                contributed: contributed@,
                ..spent
            };
            let upper = Interval::new(half_way, whole.hi);
            try_half(
                system,
                intervals,
                machine,
                &leaf.node,
                row,
                upper,
                contributed,
                &mut blamed,
                &mut queue,
                Ghost(between),
            );
        }
        proof {
            looks = (looks - 1) as nat;
            if known {
                let after = Bisection {
                    queue: regions(queue@),
                    leaves: standings(leaves@),
                    blamed: blamed@,
                    contributed: contributed@,
                    remaining: remaining as int,
                    exhausted,
                    looked: answers.len() as int,
                };
                assert(after == looked_at(*system, enclosures, arithmetic, before, cancel));
                one_look_more(
                    *system,
                    enclosures,
                    arithmetic,
                    begin,
                    earlier,
                    cancel,
                    (budget + 1) as nat,
                    before,
                    (looks + 1) as nat,
                );
            }
        }
    }
    let ghost end = Bisection {
        queue: regions(queue@),
        leaves: standings(leaves@),
        blamed: blamed@,
        contributed: contributed@,
        remaining: remaining as int,
        exhausted,
        looked: answers.len() as int,
    };
    proof {
        if known {
            assert(bisecting(*system, enclosures, arithmetic, begin, answers, (budget + 1) as nat) == bisecting(
                *system,
                enclosures,
                arithmetic,
                end,
                answers,
                looks,
            ));
            assert(bisected(*system, enclosures, arithmetic, root@, budget as int, first, answers) == end);
        }
        assert(standings(leaves@).len() == leaves@.len());
    }
    if leaves.len() == 0 {
        let shown = list_marked(&blamed);
        proof {
            let c = choose|c: int| 0 <= c < blamed@.len() && #[trigger] blamed@[c];
            marks_are_named(blamed@, c, shown@);
        }
        let conclusion = Pruned::Empty { blamed: shown };
        assert(known ==> prunes(end, conclusion));
        conclusion
    } else {
        let conclusion = Pruned::Live { leaves, exhausted };
        assert(known ==> prunes(end, conclusion));
        conclusion
    }
}

/// Whether every answer is one the question can get.
pub open spec fn were_answered<C: Fn() -> bool>(cancelled: C, answers: Seq<bool>) -> bool {
    forall|i: int| 0 <= i < answers.len() ==> call_ensures(cancelled, (), #[trigger] answers[i])
}

/// Whether going on from `state` with any answers that begin with those had is
/// going on from the start.
spec fn is_so_far<E: Evaluate>(
    system: ConstraintSystem<E>,
    enclosures: Enclosures,
    arithmetic: Arithmetic,
    begin: Bisection,
    answers: Seq<bool>,
    all: nat,
    state: Bisection,
    looks: nat,
) -> bool {
    &&& state.looked == answers.len()
    &&& forall|more: Seq<bool>|
        answers.is_prefix_of(more) ==> #[trigger] bisecting(system, enclosures, arithmetic, begin, more, all) == bisecting(
            system,
            enclosures,
            arithmetic,
            state,
            more,
            looks,
        )
}

proof fn one_look_more<E: Evaluate>(
    system: ConstraintSystem<E>,
    enclosures: Enclosures,
    arithmetic: Arithmetic,
    begin: Bisection,
    answers: Seq<bool>,
    answer: bool,
    all: nat,
    state: Bisection,
    looks: nat,
)
    requires
        is_so_far(system, enclosures, arithmetic, begin, answers, all, state, looks),
        looks > 0,
        state.queue.len() > 0,
    ensures
        is_so_far(
            system,
            enclosures,
            arithmetic,
            begin,
            answers.push(answer),
            all,
            looked_at(system, enclosures, arithmetic, state, answer),
            (looks - 1) as nat,
        ),
{
    let longer = answers.push(answer);
    let next = looked_at(system, enclosures, arithmetic, state, answer);
    assert forall|more: Seq<bool>| longer.is_prefix_of(more) implies #[trigger] bisecting(
        system,
        enclosures,
        arithmetic,
        begin,
        more,
        all,
    ) == bisecting(system, enclosures, arithmetic, next, more, (looks - 1) as nat) by {
        assert(answers.is_prefix_of(more)) by {
            assert(answers =~= longer.take(answers.len() as int));
            assert(answers =~= more.subrange(0, answers.len() as int));
        }
        assert(more[answers.len() as int] == longer[answers.len() as int]);
    }
}

proof fn looking_goes_on<E: Evaluate>(
    system: ConstraintSystem<E>,
    enclosures: Enclosures,
    arithmetic: Arithmetic,
    state: Bisection,
    answers: Seq<bool>,
    looks: nat,
)
    ensures
        bisecting(system, enclosures, arithmetic, state, answers, looks).looked >= state.looked,
    decreases looks,
{
    if looks > 0 && state.queue.len() > 0 {
        let next = looked_at(system, enclosures, arithmetic, state, answers[state.looked]);
        assert(next.looked == state.looked + 1);
        looking_goes_on(system, enclosures, arithmetic, next, answers, (looks - 1) as nat);
    }
}

/// A bisection that nobody calls off depends on nothing but what it starts from.
pub proof fn an_undisturbed_bisection_is_one<E: Evaluate>(
    system: ConstraintSystem<E>,
    enclosures: Enclosures,
    arithmetic: Arithmetic,
    state: Bisection,
    first: Seq<bool>,
    second: Seq<bool>,
    looks: nat,
)
    requires
        0 <= state.looked,
        forall|i: int| 0 <= i < first.len() ==> !(#[trigger] first[i]),
        forall|i: int| 0 <= i < second.len() ==> !(#[trigger] second[i]),
        bisecting(system, enclosures, arithmetic, state, first, looks).looked <= first.len(),
        bisecting(system, enclosures, arithmetic, state, second, looks).looked <= second.len(),
    ensures
        bisecting(system, enclosures, arithmetic, state, first, looks) == bisecting(
            system,
            enclosures,
            arithmetic,
            state,
            second,
            looks,
        ),
    decreases looks,
{
    if looks > 0 && state.queue.len() > 0 {
        let left = (looks - 1) as nat;
        let one = looked_at(system, enclosures, arithmetic, state, first[state.looked]);
        let other = looked_at(system, enclosures, arithmetic, state, second[state.looked]);
        looking_goes_on(system, enclosures, arithmetic, one, first, left);
        looking_goes_on(system, enclosures, arithmetic, other, second, left);
        assert(one.looked == state.looked + 1 && other.looked == state.looked + 1);
        assert(!first[state.looked] && !second[state.looked]);
        an_undisturbed_bisection_is_one(system, enclosures, arithmetic, one, first, second, left);
    }
}

// ---- laws ----

/// Whether every constraint's tape comes to a residual at most zero at a point,
/// without meeting a NaN.
pub open spec fn is_solution<E>(system: ConstraintSystem<E>, semantics: Semantics, point: Seq<Real>) -> bool {
    &&& system.fits(point)
    &&& forall|c: int| 0 <= c < system.constraints@.len() ==> #[trigger] tape_holds(system, semantics, c, point)
}

/// Whether a visit has lost nothing of a point.
spec fn keeps<E>(system: ConstraintSystem<E>, c: int, visit: Visit, point: Seq<Real>) -> bool {
    &&& visit.state.dead is None
    &&& visit.state.region.bounds.len() == system.variables@.len()
    &&& visit.state.region.has_point(point)
    &&& visit.globals.len() == system.incidence.rows@[c]@.len()
    &&& forall|k: int|
        0 <= k < visit.globals.len() ==> (#[trigger] visit.globals[k]).has_value(
            point[system.incidence.rows@[c]@[k] as int],
        )
    &&& forall|k: int| 0 <= k < visit.state.queue.len() ==> 0 <= (#[trigger] visit.state.queue[k]) < system.constraints@.len()
}

proof fn queueing_up_stays_in_range(queue: Seq<int>, ids: Seq<int>, upto: int, bound: int)
    requires
        upto <= ids.len(),
        forall|k: int| 0 <= k < queue.len() ==> 0 <= (#[trigger] queue[k]) < bound,
        forall|k: int| 0 <= k < ids.len() ==> 0 <= (#[trigger] ids[k]) < bound,
    ensures
        forall|k: int| 0 <= k < queued_up(queue, ids, upto).len() ==> 0 <= (#[trigger] queued_up(queue, ids, upto)[k]) < bound,
    decreases upto,
{
    if upto > 0 {
        queueing_up_stays_in_range(queue, ids, upto - 1, bound);
        let before = queued_up(queue, ids, upto - 1);
        let after = queued_up(queue, ids, upto);
        assert forall|k: int| 0 <= k < after.len() implies 0 <= (#[trigger] after[k]) < bound by {
            if k < before.len() {
                assert(after[k] == before[k]);
            } else {
                assert(after[k] == ids[upto - 1]);
            }
        }
    }
}

proof fn narrowing_a_symbol_keeps<E>(
    system: ConstraintSystem<E>,
    enclosures: Enclosures,
    arithmetic: Arithmetic,
    semantics: Semantics,
    c: int,
    visit: Visit,
    k: int,
    point: Seq<Real>,
)
    requires
        system.well_formed(),
        encloses_around(system, enclosures, semantics, point),
        is_plain(semantics),
        is_solution(system, semantics, point),
        0 <= c < system.constraints@.len(),
        0 <= k < system.incidence.rows@[c]@.len(),
        keeps(system, c, visit, point),
    ensures
        keeps(system, c, symbol_narrowed(system, enclosures, arithmetic, c, visit, k), point),
{
    let rows = system.incidence.rows@[c]@;
    let row = rows[k] as int;
    let tape = system.constraints@[c].intervals;
    let values = row_at(rows, point);
    assert(rows[k] < system.variables@.len());
    assert(tape.well_formed());
    assert(tape_holds(system, semantics, c, point));
    assert forall|g: int| 0 <= g < visit.globals.len() implies (#[trigger] visit.globals[g]).has_value(values[g]) by {}
    assert(tape.is_solution(semantics, visit.globals, values));
    assert(tape.encloses_at(enclosures, semantics, visit.globals, values, k as u32));
    narrowing_keeps_every_solution(tape, enclosures, semantics, visit.globals, values, k as u32);
    let before = visit.globals[k];
    let more = tape.narrowed(enclosures, visit.globals, k as u32);
    common_has_what_both_have(before, more, values[k]);
    let after = symbol_narrowed(system, enclosures, arithmetic, c, visit, k);
    assert forall|r: int|
        0 <= r < after.state.region.bounds.len() && r < point.len() implies (#[trigger] after.state.region.bounds[r]).has_value(
        point[r],
    ) by {
        assert(visit.state.region.bounds[r].has_value(point[r]));
    }
    let naming = integers(system.incidence.naming@[row]@);
    assert forall|j: int| 0 <= j < naming.len() implies 0 <= (#[trigger] naming[j]) < system.constraints@.len() by {
        assert(naming.contains(naming[j]));
        naming_lists_who_names(
            system.incidence,
            system.constraints@.len() as int,
            system.variables@.len() as int,
            row,
            naming[j],
        );
    }
    queueing_up_stays_in_range(visit.state.queue, naming, naming.len() as int, system.constraints@.len() as int);
}

proof fn a_visit_keeps<E>(
    system: ConstraintSystem<E>,
    enclosures: Enclosures,
    arithmetic: Arithmetic,
    semantics: Semantics,
    c: int,
    state: Contraction,
    upto: int,
    point: Seq<Real>,
)
    requires
        system.well_formed(),
        encloses_around(system, enclosures, semantics, point),
        is_plain(semantics),
        is_solution(system, semantics, point),
        0 <= c < system.constraints@.len(),
        upto <= system.incidence.rows@[c]@.len(),
        state.dead is None,
        state.region.bounds.len() == system.variables@.len(),
        state.region.has_point(point),
        forall|k: int| 0 <= k < state.queue.len() ==> 0 <= (#[trigger] state.queue[k]) < system.constraints@.len(),
    ensures
        keeps(system, c, symbols_narrowed(system, enclosures, arithmetic, c, state, upto), point),
    decreases upto,
{
    if upto <= 0 {
        let visit = symbols_narrowed(system, enclosures, arithmetic, c, state, upto);
        assert forall|k: int| 0 <= k < visit.globals.len() implies (#[trigger] visit.globals[k]).has_value(
            point[system.incidence.rows@[c]@[k] as int],
        ) by {
            assert(system.incidence.rows@[c]@[k] < system.variables@.len());
            assert(state.region.bounds[system.incidence.rows@[c]@[k] as int].has_value(
                point[system.incidence.rows@[c]@[k] as int],
            ));
        }
    } else {
        a_visit_keeps(system, enclosures, arithmetic, semantics, c, state, upto - 1, point);
        narrowing_a_symbol_keeps(
            system,
            enclosures,
            arithmetic,
            semantics,
            c,
            symbols_narrowed(system, enclosures, arithmetic, c, state, upto - 1),
            upto - 1,
            point,
        );
    }
}

proof fn contracting_keeps<E>(
    system: ConstraintSystem<E>,
    enclosures: Enclosures,
    arithmetic: Arithmetic,
    semantics: Semantics,
    state: Contraction,
    visits: int,
    point: Seq<Real>,
)
    requires
        system.well_formed(),
        encloses_around(system, enclosures, semantics, point),
        is_plain(semantics),
        is_solution(system, semantics, point),
        state.dead is None,
        state.region.bounds.len() == system.variables@.len(),
        state.region.has_point(point),
        forall|k: int| 0 <= k < state.queue.len() ==> 0 <= (#[trigger] state.queue[k]) < system.constraints@.len(),
    ensures
        ({
            let end = contracting(system, enclosures, arithmetic, state, visits);
            &&& end.dead is None
            &&& end.region.bounds.len() == system.variables@.len()
            &&& end.region.has_point(point)
        }),
    decreases visits,
{
    if visits > 0 && state.queue.len() > 0 {
        let c = state.queue[0];
        let popped = Contraction { queue: state.queue.skip(1), ..state };
        assert forall|k: int| 0 <= k < popped.queue.len() implies 0 <= (#[trigger] popped.queue[k])
            < system.constraints@.len() by {
            assert(popped.queue[k] == state.queue[k + 1]);
        }
        a_visit_keeps(
            system,
            enclosures,
            arithmetic,
            semantics,
            c,
            popped,
            system.incidence.rows@[c]@.len() as int,
            point,
        );
        contracting_keeps(
            system,
            enclosures,
            arithmetic,
            semantics,
            visited(system, enclosures, arithmetic, c, popped),
            visits - 1,
            point,
        );
    }
}

/// A feasible point survives contraction: a point of the box at which every
/// constraint holds is in the contracted box, and the box is not found empty.
pub proof fn a_solution_survives_contraction<E>(
    system: ConstraintSystem<E>,
    enclosures: Enclosures,
    arithmetic: Arithmetic,
    semantics: Semantics,
    region: Region,
    contributed: Seq<bool>,
    point: Seq<Real>,
)
    requires
        system.well_formed(),
        encloses_around(system, enclosures, semantics, point),
        is_plain(semantics),
        is_solution(system, semantics, point),
        region.bounds.len() == system.variables@.len(),
        region.has_point(point),
    ensures
        contracted(system, enclosures, arithmetic, region, contributed).dead is None,
        contracted(system, enclosures, arithmetic, region, contributed).region.has_point(point),
        contracted(system, enclosures, arithmetic, region, contributed).region.bounds.len() == system.variables@.len(),
{
    contracting_keeps(
        system,
        enclosures,
        arithmetic,
        semantics,
        Contraction { region, queue: everyone(system.constraints@.len()), contributed, dead: None },
        VISITS_PER_CONSTRAINT * system.constraints@.len(),
        point,
    );
}

/// Whether a box is part of another, coordinate by coordinate; each of the ends
/// is a number.
pub open spec fn is_part_of(inner: Seq<Interval>, outer: Seq<Interval>) -> bool {
    &&& inner.len() == outer.len()
    &&& forall|r: int|
        0 <= r < inner.len() ==> outer[r].lo.at_most((#[trigger] inner[r]).lo) && inner[r].hi.at_most(outer[r].hi)
}

/// Whether a visit is still inside a box.
spec fn stays_in<E>(system: ConstraintSystem<E>, c: int, visit: Visit, outer: Seq<Interval>) -> bool {
    &&& is_part_of(visit.state.region.bounds, outer)
    &&& is_part_of(visit.globals, bounds_read(system, c, outer))
}

proof fn a_visit_stays_in<E>(
    system: ConstraintSystem<E>,
    enclosures: Enclosures,
    arithmetic: Arithmetic,
    c: int,
    state: Contraction,
    upto: int,
    outer: Seq<Interval>,
)
    requires
        system.well_formed(),
        0 <= c < system.constraints@.len(),
        upto <= system.incidence.rows@[c]@.len(),
        outer.len() == system.variables@.len(),
        is_part_of(state.region.bounds, outer),
    ensures
        stays_in(system, c, symbols_narrowed(system, enclosures, arithmetic, c, state, upto), outer),
    decreases upto,
{
    let rows = system.incidence.rows@[c]@;
    let visit = symbols_narrowed(system, enclosures, arithmetic, c, state, upto);
    if upto <= 0 {
        assert forall|k: int| 0 <= k < visit.globals.len() implies bounds_read(system, c, outer)[k].lo.at_most(
            (#[trigger] visit.globals[k]).lo,
        ) && visit.globals[k].hi.at_most(bounds_read(system, c, outer)[k].hi) by {
            assert(rows[k] < system.variables@.len());
            assert(visit.globals[k] == state.region.bounds[rows[k] as int]);
        }
    } else {
        a_visit_stays_in(system, enclosures, arithmetic, c, state, upto - 1, outer);
        let before = symbols_narrowed(system, enclosures, arithmetic, c, state, upto - 1);
        let k = upto - 1;
        let row = rows[k] as int;
        assert(rows[k] < system.variables@.len());
        let held = before.globals[k];
        let after = held.common(system.constraints@[c].intervals.narrowed(enclosures, before.globals, k as u32));
        assert(bounds_read(system, c, outer)[k] == outer[row]);
        if !after.has_nothing() {
            assert(outer[row].lo.at_most(held.lo) && held.hi.at_most(outer[row].hi));
            assert(held.lo.at_most(after.lo) && after.hi.at_most(held.hi));
            assert(outer[row].lo.at_most(after.lo) && after.hi.at_most(outer[row].hi));
        }
        assert forall|r: int| 0 <= r < visit.state.region.bounds.len() implies outer[r].lo.at_most(
            (#[trigger] visit.state.region.bounds[r]).lo,
        ) && visit.state.region.bounds[r].hi.at_most(outer[r].hi) by {
            assert(outer[r].lo.at_most(before.state.region.bounds[r].lo));
        }
        assert forall|j: int| 0 <= j < visit.globals.len() implies bounds_read(system, c, outer)[j].lo.at_most(
            (#[trigger] visit.globals[j]).lo,
        ) && visit.globals[j].hi.at_most(bounds_read(system, c, outer)[j].hi) by {
            assert(bounds_read(system, c, outer)[j].lo.at_most(before.globals[j].lo));
        }
    }
}

proof fn contracting_stays_in<E>(
    system: ConstraintSystem<E>,
    enclosures: Enclosures,
    arithmetic: Arithmetic,
    state: Contraction,
    visits: int,
    outer: Seq<Interval>,
)
    requires
        system.well_formed(),
        outer.len() == system.variables@.len(),
        is_part_of(state.region.bounds, outer),
        forall|k: int| 0 <= k < state.queue.len() ==> 0 <= (#[trigger] state.queue[k]) < system.constraints@.len(),
    ensures
        is_part_of(contracting(system, enclosures, arithmetic, state, visits).region.bounds, outer),
    decreases visits,
{
    if visits > 0 && state.queue.len() > 0 && state.dead is None {
        let c = state.queue[0];
        let popped = Contraction { queue: state.queue.skip(1), ..state };
        assert forall|k: int| 0 <= k < popped.queue.len() implies 0 <= (#[trigger] popped.queue[k])
            < system.constraints@.len() by {
            assert(popped.queue[k] == state.queue[k + 1]);
        }
        let count = system.incidence.rows@[c]@.len() as int;
        a_visit_stays_in(system, enclosures, arithmetic, c, popped, count, outer);
        narrowing_keeps_the_size(system, enclosures, arithmetic, c, popped, count);
        contracting_stays_in(
            system,
            enclosures,
            arithmetic,
            visited(system, enclosures, arithmetic, c, popped),
            visits - 1,
            outer,
        );
    }
}

/// A contraction only narrows: the box it comes to is no larger than the one it
/// was given, on any side.
pub proof fn a_contraction_only_narrows<E>(
    system: ConstraintSystem<E>,
    enclosures: Enclosures,
    arithmetic: Arithmetic,
    region: Region,
    contributed: Seq<bool>,
)
    requires
        system.well_formed(),
        region.bounds.len() == system.variables@.len(),
        forall|r: int| 0 <= r < region.bounds.len() ==> !(#[trigger] region.bounds[r]).lo.nan() && !region.bounds[r].hi.nan(),
    ensures
        is_part_of(contracted(system, enclosures, arithmetic, region, contributed).region.bounds, region.bounds),
{
    contracting_stays_in(
        system,
        enclosures,
        arithmetic,
        Contraction { region, queue: everyone(system.constraints@.len()), contributed, dead: None },
        VISITS_PER_CONSTRAINT * system.constraints@.len(),
        region.bounds,
    );
}

/// Whether a variable of finite width has a lower end, only such a variable is
/// worth splitting, and what is split above a lower end has a middle above it: no
/// NaN, and nothing without a lower end in its turn.
pub open spec fn parts_cleanly(arithmetic: Arithmetic) -> bool {
    &&& forall|variable: InputVariable| (#[trigger] variable.extent(arithmetic)).finite() ==> negative_infinity().below(
        variable.lower_bound,
    )
    &&& forall|variable: InputVariable, interval: Interval| #[trigger]
        is_splittable(arithmetic, variable, interval) ==> {
            &&& variable.extent(arithmetic).finite()
            &&& negative_infinity().below(interval.lo) ==> negative_infinity().below(middle_of(arithmetic, interval))
        }
}

/// Whether a box has a lower end on every side whose variable has a finite width.
pub open spec fn is_bounded_below<E>(system: ConstraintSystem<E>, arithmetic: Arithmetic, region: Region) -> bool {
    forall|r: int|
        0 <= r < region.bounds.len() && system.variables@[r].extent(arithmetic).finite() ==> negative_infinity().below(
            (#[trigger] region.bounds[r]).lo,
        )
}

/// The declared box is bounded below.
pub proof fn the_declared_box_is_bounded<E>(system: ConstraintSystem<E>, arithmetic: Arithmetic)
    requires
        parts_cleanly(arithmetic),
    ensures
        is_bounded_below(system, arithmetic, declared_region(system)),
{
}

/// Whether a box that is bounded below has a point.
spec fn holds_point<E>(system: ConstraintSystem<E>, arithmetic: Arithmetic, region: Region, point: Seq<Real>) -> bool {
    region.has_point(point) && is_bounded_below(system, arithmetic, region)
}

/// Whether a point is in one of the boxes that wait or stand.
spec fn is_covered<E>(system: ConstraintSystem<E>, arithmetic: Arithmetic, state: Bisection, point: Seq<Real>) -> bool {
    &&& forall|i: int| 0 <= i < state.queue.len() ==> (#[trigger] state.queue[i]).bounds.len() == system.variables@.len()
    &&& {
        ||| exists|i: int|
            0 <= i < state.queue.len() && holds_point(system, arithmetic, #[trigger] state.queue[i], point)
        ||| exists|i: int| 0 <= i < state.leaves.len() && (#[trigger] state.leaves[i]).region.has_point(point)
    }
}

/// What is left of a box that is bounded below is.
pub proof fn a_contraction_stays_bounded<E>(
    system: ConstraintSystem<E>,
    enclosures: Enclosures,
    arithmetic: Arithmetic,
    region: Region,
    contributed: Seq<bool>,
    point: Seq<Real>,
)
    requires
        system.well_formed(),
        system.fits(point),
        region.bounds.len() == system.variables@.len(),
        region.has_point(point),
        is_bounded_below(system, arithmetic, region),
    ensures
        is_bounded_below(
            system,
            arithmetic,
            contracted(system, enclosures, arithmetic, region, contributed).region,
        ),
{
    let end = contracted(system, enclosures, arithmetic, region, contributed).region;
    assert forall|r: int| 0 <= r < region.bounds.len() implies !(#[trigger] region.bounds[r]).lo.nan()
        && !region.bounds[r].hi.nan() by {
        assert(region.bounds[r].has_value(point[r]));
    }
    a_contraction_only_narrows(system, enclosures, arithmetic, region, contributed);
    assert forall|r: int|
        0 <= r < end.bounds.len() && system.variables@[r].extent(arithmetic).finite() implies negative_infinity().below(
        (#[trigger] end.bounds[r]).lo,
    ) by {
        assert(region.bounds[r].lo.at_most(end.bounds[r].lo));
        assert(negative_infinity().below(region.bounds[r].lo));
    }
}

proof fn trying_a_half_keeps<E>(
    system: ConstraintSystem<E>,
    enclosures: Enclosures,
    arithmetic: Arithmetic,
    semantics: Semantics,
    region: Region,
    row: int,
    half: Interval,
    state: Bisection,
    point: Seq<Real>,
)
    requires
        system.well_formed(),
        encloses_around(system, enclosures, semantics, point),
        is_plain(semantics),
        is_solution(system, semantics, point),
        region.bounds.len() == system.variables@.len(),
        0 <= row < system.variables@.len(),
        forall|i: int| 0 <= i < state.queue.len() ==> (#[trigger] state.queue[i]).bounds.len() == system.variables@.len(),
        is_covered(system, arithmetic, state, point) || (holds_point(system, arithmetic, region, point)
            && half.has_value(point[row]) && negative_infinity().below(half.lo)),
    ensures
        is_covered(system, arithmetic, half_tried(system, enclosures, arithmetic, region, row, half, state), point),
{
    let child = Region { bounds: region.bounds.update(row, half), ..region };
    let end = contracted(system, enclosures, arithmetic, child, state.contributed);
    let next = half_tried(system, enclosures, arithmetic, region, row, half, state);
    contracting_keeps_the_size(
        system,
        enclosures,
        arithmetic,
        Contraction {
            region: child,
            queue: everyone(system.constraints@.len()),
            contributed: state.contributed,
            dead: None,
        },
        VISITS_PER_CONSTRAINT * system.constraints@.len(),
    );
    if holds_point(system, arithmetic, region, point) && half.has_value(point[row]) && negative_infinity().below(
        half.lo,
    ) {
        assert forall|r: int| 0 <= r < child.bounds.len() && r < point.len() implies (#[trigger] child.bounds[r]).has_value(
            point[r],
        ) by {
            assert(region.bounds[r].has_value(point[r]));
        }
        a_solution_survives_contraction(system, enclosures, arithmetic, semantics, child, state.contributed, point);
        a_contraction_stays_bounded(system, enclosures, arithmetic, child, state.contributed, point);
        assert(holds_point(system, arithmetic, next.queue[state.queue.len() as int], point));
    } else {
        assert forall|i: int| 0 <= i < state.queue.len() implies #[trigger] next.queue[i] == state.queue[i] by {}
        if exists|i: int| 0 <= i < state.queue.len() && holds_point(system, arithmetic, #[trigger] state.queue[i], point) {
            let i = choose|i: int|
                0 <= i < state.queue.len() && holds_point(system, arithmetic, #[trigger] state.queue[i], point);
            assert(holds_point(system, arithmetic, next.queue[i], point));
        }
    }
}

proof fn narrowing_keeps_the_size<E>(
    system: ConstraintSystem<E>,
    enclosures: Enclosures,
    arithmetic: Arithmetic,
    c: int,
    state: Contraction,
    upto: int,
)
    requires
        state.region.bounds.len() == system.variables@.len(),
        system.well_formed(),
        0 <= c < system.constraints@.len(),
        upto <= system.incidence.rows@[c]@.len(),
    ensures
        symbols_narrowed(system, enclosures, arithmetic, c, state, upto).state.region.bounds.len()
            == system.variables@.len(),
        (forall|k: int| 0 <= k < state.queue.len() ==> 0 <= (#[trigger] state.queue[k]) < system.constraints@.len())
            ==> forall|k: int|
            0 <= k < symbols_narrowed(system, enclosures, arithmetic, c, state, upto).state.queue.len() ==> 0 <= (
            #[trigger] symbols_narrowed(system, enclosures, arithmetic, c, state, upto).state.queue[k])
                < system.constraints@.len(),
    decreases upto,
{
    if upto > 0 {
        narrowing_keeps_the_size(system, enclosures, arithmetic, c, state, upto - 1);
        let visit = symbols_narrowed(system, enclosures, arithmetic, c, state, upto - 1);
        let row = system.incidence.rows@[c]@[upto - 1] as int;
        assert(system.incidence.rows@[c]@[upto - 1] < system.variables@.len());
        if forall|k: int| 0 <= k < state.queue.len() ==> 0 <= (#[trigger] state.queue[k]) < system.constraints@.len() {
            let naming = integers(system.incidence.naming@[row]@);
            assert forall|j: int| 0 <= j < naming.len() implies 0 <= (#[trigger] naming[j]) < system.constraints@.len() by {
                assert(naming.contains(naming[j]));
                naming_lists_who_names(
                    system.incidence,
                    system.constraints@.len() as int,
                    system.variables@.len() as int,
                    row,
                    naming[j],
                );
            }
            queueing_up_stays_in_range(visit.state.queue, naming, naming.len() as int, system.constraints@.len() as int);
        }
    }
}

proof fn contracting_keeps_the_size<E>(
    system: ConstraintSystem<E>,
    enclosures: Enclosures,
    arithmetic: Arithmetic,
    state: Contraction,
    visits: int,
)
    requires
        system.well_formed(),
        state.region.bounds.len() == system.variables@.len(),
        forall|k: int| 0 <= k < state.queue.len() ==> 0 <= (#[trigger] state.queue[k]) < system.constraints@.len(),
    ensures
        contracting(system, enclosures, arithmetic, state, visits).region.bounds.len() == system.variables@.len(),
    decreases visits,
{
    if visits > 0 && state.queue.len() > 0 && state.dead is None {
        let c = state.queue[0];
        let popped = Contraction { queue: state.queue.skip(1), ..state };
        assert forall|k: int| 0 <= k < popped.queue.len() implies 0 <= (#[trigger] popped.queue[k])
            < system.constraints@.len() by {
            assert(popped.queue[k] == state.queue[k + 1]);
        }
        narrowing_keeps_the_size(
            system,
            enclosures,
            arithmetic,
            c,
            popped,
            system.incidence.rows@[c]@.len() as int,
        );
        contracting_keeps_the_size(
            system,
            enclosures,
            arithmetic,
            visited(system, enclosures, arithmetic, c, popped),
            visits - 1,
        );
    }
}

proof fn the_widest_is_splittable(arithmetic: Arithmetic, variables: Seq<InputVariable>, bounds: Seq<Interval>, upto: int)
    ensures
        widest_below(arithmetic, variables, bounds, upto) matches Some(row) ==> 0 <= row < upto && is_splittable(
            arithmetic,
            variables[row],
            bounds[row],
        ),
    decreases upto,
{
    if upto > 0 {
        the_widest_is_splittable(arithmetic, variables, bounds, upto - 1);
    }
}

proof fn a_look_keeps<E: Evaluate>(
    system: ConstraintSystem<E>,
    enclosures: Enclosures,
    arithmetic: Arithmetic,
    semantics: Semantics,
    state: Bisection,
    cancelled: bool,
    point: Seq<Real>,
)
    requires
        system.well_formed(),
        encloses_around(system, enclosures, semantics, point),
        is_plain(semantics),
        is_solution(system, semantics, point),
        parts_cleanly(arithmetic),
        state.queue.len() > 0,
        is_covered(system, arithmetic, state, point),
    ensures
        is_covered(system, arithmetic, looked_at(system, enclosures, arithmetic, state, cancelled), point),
{
    let region = state.queue[0];
    let next = Bisection { queue: state.queue.skip(1), looked: state.looked + 1, ..state };
    let after = looked_at(system, enclosures, arithmetic, state, cancelled);
    let leaf = leaf_of(system, enclosures, arithmetic, region);
    assert forall|i: int| 0 <= i < next.queue.len() implies (#[trigger] next.queue[i]).bounds.len()
        == system.variables@.len() by {
        assert(next.queue[i] == state.queue[i + 1]);
    }
    let elsewhere = is_covered(system, arithmetic, next, point);
    assert(holds_point(system, arithmetic, region, point) || elsewhere) by {
        if exists|i: int| 0 <= i < state.queue.len() && holds_point(system, arithmetic, #[trigger] state.queue[i], point) {
            let i = choose|i: int|
                0 <= i < state.queue.len() && holds_point(system, arithmetic, #[trigger] state.queue[i], point);
            if i > 0 {
                assert(next.queue[i - 1] == state.queue[i]);
            }
        }
    }
    let widest = widest_below(arithmetic, system.variables@, region.bounds, region.bounds.len() as int);
    if cancelled || leaf.settled is Some || widest is None || next.remaining < 2 {
        assert(after.leaves == next.leaves.push(leaf));
        assert(after.queue == next.queue);
        assert(after.leaves[next.leaves.len() as int] == leaf);
        if !holds_point(system, arithmetic, region, point) {
            if exists|i: int| 0 <= i < next.leaves.len() && (#[trigger] next.leaves[i]).region.has_point(point) {
                let i = choose|i: int| 0 <= i < next.leaves.len() && (#[trigger] next.leaves[i]).region.has_point(point);
                assert(after.leaves[i] == next.leaves[i]);
            }
        }
    } else {
        let row = widest->0;
        the_widest_is_splittable(arithmetic, system.variables@, region.bounds, region.bounds.len() as int);
        let whole = region.bounds[row];
        let middle = middle_of(arithmetic, whole);
        assert(is_splittable(arithmetic, system.variables@[row], whole));
        let spent = Bisection { remaining: next.remaining - 2, ..next };
        assert(elsewhere ==> is_covered(system, arithmetic, spent, point));
        let lower_half = Interval::new(whole.lo, middle);
        let upper_half = Interval::new(middle, whole.hi);
        let lower = half_tried(system, enclosures, arithmetic, region, row, lower_half, spent);
        if holds_point(system, arithmetic, region, point) {
            assert(whole.has_value(point[row]));
            assert(negative_infinity().below(whole.lo));
            assert(negative_infinity().below(middle));
            assert(lower_half.has_value(point[row]) || upper_half.has_value(point[row]));
        }
        if elsewhere || (holds_point(system, arithmetic, region, point) && lower_half.has_value(point[row])) {
            trying_a_half_keeps(
                system,
                enclosures,
                arithmetic,
                semantics,
                region,
                row,
                lower_half,
                spent,
                point,
            );
        } else {
            let child = Region { bounds: region.bounds.update(row, lower_half), ..region };
            contracting_keeps_the_size(
                system,
                enclosures,
                arithmetic,
                Contraction {
                    region: child,
                    queue: everyone(system.constraints@.len()),
                    contributed: spent.contributed,
                    dead: None,
                },
                VISITS_PER_CONSTRAINT * system.constraints@.len(),
            );
        }
        trying_a_half_keeps(
            system,
            enclosures,
            arithmetic,
            semantics,
            region,
            row,
            upper_half,
            lower,
            point,
        );
    }
}

proof fn bisecting_keeps<E: Evaluate>(
    system: ConstraintSystem<E>,
    enclosures: Enclosures,
    arithmetic: Arithmetic,
    semantics: Semantics,
    state: Bisection,
    answers: Seq<bool>,
    looks: nat,
    point: Seq<Real>,
)
    requires
        system.well_formed(),
        encloses_around(system, enclosures, semantics, point),
        is_plain(semantics),
        is_solution(system, semantics, point),
        parts_cleanly(arithmetic),
        is_covered(system, arithmetic, state, point),
    ensures
        is_covered(system, arithmetic, bisecting(system, enclosures, arithmetic, state, answers, looks), point),
    decreases looks,
{
    if looks > 0 && state.queue.len() > 0 {
        a_look_keeps(system, enclosures, arithmetic, semantics, state, answers[state.looked], point);
        bisecting_keeps(
            system,
            enclosures,
            arithmetic,
            semantics,
            looked_at(system, enclosures, arithmetic, state, answers[state.looked]),
            answers,
            (looks - 1) as nat,
            point,
        );
    }
}

/// The leaves cover the region: a point of a root that is bounded below at which
/// every constraint holds is in one of the boxes still standing. So a bisection
/// that leaves none is a proof that there is no such point.
pub proof fn the_leaves_cover_the_region<E: Evaluate>(
    system: ConstraintSystem<E>,
    enclosures: Enclosures,
    arithmetic: Arithmetic,
    semantics: Semantics,
    root: Region,
    budget: int,
    contributed: Seq<bool>,
    answers: Seq<bool>,
    point: Seq<Real>,
)
    requires
        system.well_formed(),
        encloses_around(system, enclosures, semantics, point),
        is_plain(semantics),
        is_solution(system, semantics, point),
        parts_cleanly(arithmetic),
        root.bounds.len() == system.variables@.len(),
        root.has_point(point),
        is_bounded_below(system, arithmetic, root),
        bisected(system, enclosures, arithmetic, root, budget, contributed, answers).queue.len() == 0,
    ensures
        exists|i: int|
            0 <= i < bisected(system, enclosures, arithmetic, root, budget, contributed, answers).leaves.len()
                && (#[trigger] bisected(
                system,
                enclosures,
                arithmetic,
                root,
                budget,
                contributed,
                answers,
            ).leaves[i]).region.has_point(point),
{
    let begin = started(root, budget, contributed);
    assert(holds_point(system, arithmetic, begin.queue[0], point));
    bisecting_keeps(
        system,
        enclosures,
        arithmetic,
        semantics,
        begin,
        answers,
        (budget + 1) as nat,
        point,
    );
}

/// Whether every settled centre is feasible, and every box is a leaf for a
/// reason: settled, too small to split, or the run cut short.
pub open spec fn leaves_have_reasons<E: Evaluate>(
    system: ConstraintSystem<E>,
    arithmetic: Arithmetic,
    state: Bisection,
) -> bool {
    forall|i: int|
        0 <= i < state.leaves.len() ==> {
            &&& ((#[trigger] state.leaves[i]).settled matches Some(point) ==> system.feasible(arithmetic, point, zero()))
            &&& state.leaves[i].settled is None && !state.exhausted ==> widest_below(
                arithmetic,
                system.variables@,
                state.leaves[i].region.bounds,
                state.leaves[i].region.bounds.len() as int,
            ) is None
        }
}

proof fn a_look_has_its_reason<E: Evaluate>(
    system: ConstraintSystem<E>,
    enclosures: Enclosures,
    arithmetic: Arithmetic,
    state: Bisection,
    cancelled: bool,
)
    requires
        leaves_have_reasons(system, arithmetic, state),
    ensures
        leaves_have_reasons(system, arithmetic, looked_at(system, enclosures, arithmetic, state, cancelled)),
{
    let after = looked_at(system, enclosures, arithmetic, state, cancelled);
    assert forall|i: int| 0 <= i < after.leaves.len() implies {
        &&& ((#[trigger] after.leaves[i]).settled matches Some(point) ==> system.feasible(arithmetic, point, zero()))
        &&& after.leaves[i].settled is None && !after.exhausted ==> widest_below(
            arithmetic,
            system.variables@,
            after.leaves[i].region.bounds,
            after.leaves[i].region.bounds.len() as int,
        ) is None
    } by {
        if i < state.leaves.len() {
            assert(after.leaves[i] == state.leaves[i]);
        }
    }
}

proof fn bisecting_has_reasons<E: Evaluate>(
    system: ConstraintSystem<E>,
    enclosures: Enclosures,
    arithmetic: Arithmetic,
    state: Bisection,
    answers: Seq<bool>,
    looks: nat,
)
    requires
        leaves_have_reasons(system, arithmetic, state),
    ensures
        leaves_have_reasons(
            system,
            arithmetic,
            bisecting(system, enclosures, arithmetic, state, answers, looks),
        ),
    decreases looks,
{
    if looks > 0 && state.queue.len() > 0 {
        a_look_has_its_reason(system, enclosures, arithmetic, state, answers[state.looked]);
        bisecting_has_reasons(
            system,
            enclosures,
            arithmetic,
            looked_at(system, enclosures, arithmetic, state, answers[state.looked]),
            answers,
            (looks - 1) as nat,
        );
    }
}

/// A settled leaf has a feasible point in hand; one that is not settled, in a
/// run that was not cut short, has no coordinate worth splitting.
pub proof fn every_leaf_has_its_reason<E: Evaluate>(
    system: ConstraintSystem<E>,
    enclosures: Enclosures,
    arithmetic: Arithmetic,
    root: Region,
    budget: int,
    contributed: Seq<bool>,
    answers: Seq<bool>,
)
    ensures
        leaves_have_reasons(
            system,
            arithmetic,
            bisected(system, enclosures, arithmetic, root, budget, contributed, answers),
        ),
{
    bisecting_has_reasons(
        system,
        enclosures,
        arithmetic,
        started(root, budget, contributed),
        answers,
        (budget + 1) as nat,
    );
}

/// A constraint that narrowed nothing is never to blame: everything blamed is
/// the culprit or is in the history of some coordinate.
pub proof fn only_who_narrowed_is_blamed<E>(
    system: ConstraintSystem<E>,
    history: Seq<Seq<int>>,
    culprit: int,
    row: int,
    c: int,
)
    requires
        system.well_formed(),
        history.len() == system.variables@.len(),
        0 <= row < history.len(),
        blame_of(system, history, culprit, row).contains(c),
    ensures
        c == culprit || exists|r: int| 0 <= r < history.len() && (#[trigger] history[r]).contains(c),
{
    let set = Set::new(
        |x: int| x == culprit || exists|r: int| 0 <= r < history.len() && (#[trigger] history[r]).contains(x),
    );
    assert(accuses(history, culprit, row, set)) by {
        assert forall|k: int| 0 <= k < history[row].len() implies set.contains(#[trigger] history[row][k]) by {
            assert(history[row].contains(history[row][k]));
        }
    }
    assert(traces_back(system, history, set)) by {
        assert forall|x: int, s: int, k: int|
            #![trigger set.contains(x), history[system.incidence.rows@[x]@[s] as int][k]]
            set.contains(x) && 0 <= x < system.constraints@.len() && 0 <= s < system.incidence.rows@[x]@.len() && 0 <= k
                < history[system.incidence.rows@[x]@[s] as int].len() implies set.contains(
            history[system.incidence.rows@[x]@[s] as int][k],
        ) by {
            let r = system.incidence.rows@[x]@[s] as int;
            assert(system.incidence.rows@[x]@[s] < system.variables@.len());
            assert(history[r].contains(history[r][k]));
        }
    }
    assert(set.contains(c));
}


/// Boxes standing and contractions spent, before and after so many looks: two
/// contractions are one box more at most.
proof fn looks_are_paid_for<E: Evaluate>(
    system: ConstraintSystem<E>,
    enclosures: Enclosures,
    arithmetic: Arithmetic,
    state: Bisection,
    answers: Seq<bool>,
    looks: nat,
)
    requires
        state.remaining >= 0,
    ensures
        ({
            let end = bisecting(system, enclosures, arithmetic, state, answers, looks);
            &&& 0 <= end.remaining <= state.remaining
            &&& 2 * (end.leaves.len() + end.queue.len()) + end.remaining <= 2 * (state.leaves.len() + state.queue.len())
                + state.remaining
        }),
    decreases looks,
{
    if looks > 0 && state.queue.len() > 0 {
        let next = looked_at(system, enclosures, arithmetic, state, answers[state.looked]);
        looks_are_paid_for(system, enclosures, arithmetic, next, answers, (looks - 1) as nat);
    }
}

/// The budget bounds the work: no bisection spends more contractions than it has,
/// and one of `budget` leaves no more boxes than the one it began with and one
/// for every two contractions.
pub proof fn the_budget_bounds_the_bisection<E: Evaluate>(
    system: ConstraintSystem<E>,
    enclosures: Enclosures,
    arithmetic: Arithmetic,
    root: Region,
    budget: int,
    contributed: Seq<bool>,
    answers: Seq<bool>,
)
    requires
        budget >= 0,
    ensures
        ({
            let end = bisected(system, enclosures, arithmetic, root, budget, contributed, answers);
            &&& 0 <= end.remaining <= budget
            &&& 2 * end.leaves.len() <= 2 + budget - end.remaining
        }),
{
    let start = started(root, budget, contributed);
    looks_are_paid_for(system, enclosures, arithmetic, start, answers, (budget + 1) as nat);
}

// ---- at rest ----

/// Whether a constraint has nothing more to say of one of its symbols: narrowing it
/// once more would empty nothing, and gain less than counts as progress.
pub open spec fn gains_nothing<E>(
    system: ConstraintSystem<E>,
    enclosures: Enclosures,
    arithmetic: Arithmetic,
    bounds: Seq<Interval>,
    c: int,
    k: int,
) -> bool {
    let globals = bounds_read(system, c, bounds);
    let row = system.incidence.rows@[c]@[k] as int;
    let before = globals[k];
    let after = before.common(system.constraints@[c].intervals.narrowed(enclosures, globals, k as u32));
    let shrunk = arithmetic.minus(before.extent(arithmetic), after.extent(arithmetic));
    &&& !after.has_nothing()
    &&& shrunk.at_most(arithmetic.times(progress(), system.variables@[row].extent(arithmetic)))
}

/// Whether a constraint has nothing more to say of a box.
pub open spec fn is_at_rest<E>(
    system: ConstraintSystem<E>,
    enclosures: Enclosures,
    arithmetic: Arithmetic,
    bounds: Seq<Interval>,
    c: int,
) -> bool {
    forall|k: int|
        0 <= k < system.incidence.rows@[c]@.len() ==> #[trigger] gains_nothing(
            system,
            enclosures,
            arithmetic,
            bounds,
            c,
            k,
        )
}

proof fn queueing_up_has_both(queue: Seq<int>, ids: Seq<int>, upto: int, x: int)
    requires
        0 <= upto <= ids.len(),
    ensures
        queued_up(queue, ids, upto).contains(x) <==> queue.contains(x) || ids.take(upto).contains(x),
    decreases upto,
{
    if upto > 0 {
        queueing_up_has_both(queue, ids, upto - 1, x);
        let before = queued_up(queue, ids, upto - 1);
        let after = queued_up(queue, ids, upto);
        let fewer = ids.take(upto - 1);
        let more = ids.take(upto);
        assert(more =~= fewer.push(ids[upto - 1]));
        if fewer.contains(x) {
            let i = choose|i: int| 0 <= i < fewer.len() && fewer[i] == x;
            assert(more[i] == x);
        }
        if x == ids[upto - 1] {
            assert(more[upto - 1] == x);
            if !before.contains(x) {
                assert(after[before.len() as int] == x);
            }
        }
        if more.contains(x) && x != ids[upto - 1] {
            let i = choose|i: int| 0 <= i < more.len() && more[i] == x;
            assert(fewer[i] == x);
        }
        if before.contains(x) {
            let i = choose|i: int| 0 <= i < before.len() && before[i] == x;
            assert(after[i] == x);
        }
        if after.contains(x) && x != ids[upto - 1] {
            let i = choose|i: int| 0 <= i < after.len() && after[i] == x;
            assert(before[i] == x);
        }
    }
}

/// Whether everyone who does not wait is at rest, but for a constraint being
/// visited, whose first symbols have nothing to gain as long as nothing has changed.
spec fn others_rest<E>(
    system: ConstraintSystem<E>,
    enclosures: Enclosures,
    arithmetic: Arithmetic,
    c: int,
    start: Contraction,
    visit: Visit,
    upto: int,
) -> bool {
    forall|d: int|
        0 <= d < system.constraints@.len() && !(#[trigger] visit.state.queue.contains(d)) ==> {
            ||| d != c && is_at_rest(system, enclosures, arithmetic, visit.state.region.bounds, d)
            ||| d == c && visit.state.region.bounds == start.region.bounds && visit.globals == bounds_read(
                system,
                c,
                start.region.bounds,
            ) && forall|j: int|
                0 <= j < upto ==> #[trigger] gains_nothing(
                    system,
                    enclosures,
                    arithmetic,
                    start.region.bounds,
                    c,
                    j,
                )
        }
}

proof fn visiting_leaves_the_others_at_rest<E>(
    system: ConstraintSystem<E>,
    enclosures: Enclosures,
    arithmetic: Arithmetic,
    c: int,
    start: Contraction,
    upto: int,
)
    requires
        system.well_formed(),
        start.region.bounds.len() == system.variables@.len(),
        0 <= c < system.constraints@.len(),
        0 <= upto <= system.incidence.rows@[c]@.len(),
        start.dead is None,
        forall|d: int|
            0 <= d < system.constraints@.len() && d != c && !(#[trigger] start.queue.contains(d)) ==> is_at_rest(
                system,
                enclosures,
                arithmetic,
                start.region.bounds,
                d,
            ),
    ensures
        ({
            let visit = symbols_narrowed(system, enclosures, arithmetic, c, start, upto);
            visit.state.dead is None ==> others_rest(system, enclosures, arithmetic, c, start, visit, upto)
        }),
    decreases upto,
{
    let visit = symbols_narrowed(system, enclosures, arithmetic, c, start, upto);
    if upto > 0 && visit.state.dead is None {
        visiting_leaves_the_others_at_rest(system, enclosures, arithmetic, c, start, upto - 1);
        narrowing_keeps_the_size(system, enclosures, arithmetic, c, start, upto - 1);
        let k = upto - 1;
        let earlier = symbols_narrowed(system, enclosures, arithmetic, c, start, k);
        let row = system.incidence.rows@[c]@[k] as int;
        assert(system.incidence.rows@[c]@[k] < system.variables@.len());
        assert(earlier.state.dead is None);
        let before = earlier.globals[k];
        let after = before.common(system.constraints@[c].intervals.narrowed(enclosures, earlier.globals, k as u32));
        let shrunk = arithmetic.minus(before.extent(arithmetic), after.extent(arithmetic));
        if shrunk.at_most(arithmetic.times(progress(), system.variables@[row].extent(arithmetic))) {
            assert(visit == earlier);
            assert forall|d: int| 0 <= d < system.constraints@.len() && !(#[trigger] visit.state.queue.contains(d)) implies {
                ||| d != c && is_at_rest(system, enclosures, arithmetic, visit.state.region.bounds, d)
                ||| d == c && visit.state.region.bounds == start.region.bounds && visit.globals == bounds_read(
                    system,
                    c,
                    start.region.bounds,
                ) && forall|j: int|
                    0 <= j < upto ==> #[trigger] gains_nothing(
                        system,
                        enclosures,
                        arithmetic,
                        start.region.bounds,
                        c,
                        j,
                    )
            } by {
                assert(!earlier.state.queue.contains(d));
            }
        } else {
            let naming = integers(system.incidence.naming@[row]@);
            assert(visit.state.queue == queued_up(earlier.state.queue, naming, naming.len() as int));
            assert(naming.take(naming.len() as int) =~= naming);
            assert forall|d: int| 0 <= d < system.constraints@.len() && !(#[trigger] visit.state.queue.contains(d)) implies d
                != c && is_at_rest(system, enclosures, arithmetic, visit.state.region.bounds, d) by {
                queueing_up_has_both(earlier.state.queue, naming, naming.len() as int, d);
                naming_lists_who_names(
                    system.incidence,
                    system.constraints@.len() as int,
                    system.variables@.len() as int,
                    row,
                    d,
                );
                assert(!earlier.state.queue.contains(d));
                assert(integers(system.incidence.rows@[c]@)[k] == row);
                assert(d != c);
                let rows = system.incidence.rows@[d]@;
                assert forall|j: int| 0 <= j < rows.len() implies (#[trigger] rows[j]) != row by {
                    assert(integers(rows)[j] == rows[j]);
                }
                assert(bounds_read(system, d, visit.state.region.bounds) =~= bounds_read(
                    system,
                    d,
                    earlier.state.region.bounds,
                ));
                assert forall|j: int| 0 <= j < rows.len() implies #[trigger] gains_nothing(
                    system,
                    enclosures,
                    arithmetic,
                    visit.state.region.bounds,
                    d,
                    j,
                ) by {
                    assert(gains_nothing(system, enclosures, arithmetic, earlier.state.region.bounds, d, j));
                }
            }
        }
    }
}

proof fn contracting_comes_to_rest<E>(
    system: ConstraintSystem<E>,
    enclosures: Enclosures,
    arithmetic: Arithmetic,
    state: Contraction,
    visits: int,
)
    requires
        system.well_formed(),
        state.region.bounds.len() == system.variables@.len(),
        forall|k: int| 0 <= k < state.queue.len() ==> 0 <= (#[trigger] state.queue[k]) < system.constraints@.len(),
        forall|d: int|
            0 <= d < system.constraints@.len() && !(#[trigger] state.queue.contains(d)) ==> is_at_rest(
                system,
                enclosures,
                arithmetic,
                state.region.bounds,
                d,
            ),
    ensures
        ({
            let end = contracting(system, enclosures, arithmetic, state, visits);
            end.dead is None ==> forall|d: int|
                0 <= d < system.constraints@.len() && !(#[trigger] end.queue.contains(d)) ==> is_at_rest(
                    system,
                    enclosures,
                    arithmetic,
                    end.region.bounds,
                    d,
                )
        }),
    decreases visits,
{
    if visits > 0 && state.queue.len() > 0 && state.dead is None {
        let c = state.queue[0];
        let popped = Contraction { queue: state.queue.skip(1), ..state };
        let count = system.incidence.rows@[c]@.len() as int;
        let next = visited(system, enclosures, arithmetic, c, popped);
        assert forall|k: int| 0 <= k < popped.queue.len() implies 0 <= (#[trigger] popped.queue[k])
            < system.constraints@.len() by {
            assert(popped.queue[k] == state.queue[k + 1]);
        }
        assert forall|d: int| 0 <= d < system.constraints@.len() && d != c && !(#[trigger] popped.queue.contains(d)) implies is_at_rest(
            system,
            enclosures,
            arithmetic,
            popped.region.bounds,
            d,
        ) by {
            if state.queue.contains(d) {
                let i = choose|i: int| 0 <= i < state.queue.len() && state.queue[i] == d;
                assert(popped.queue[i - 1] == d);
            }
        }
        narrowing_keeps_the_size(system, enclosures, arithmetic, c, popped, count);
        visiting_leaves_the_others_at_rest(system, enclosures, arithmetic, c, popped, count);
        if next.dead is None {
            let visit = symbols_narrowed(system, enclosures, arithmetic, c, popped, count);
            assert forall|d: int| 0 <= d < system.constraints@.len() && !(#[trigger] next.queue.contains(d)) implies is_at_rest(
                system,
                enclosures,
                arithmetic,
                next.region.bounds,
                d,
            ) by {
                assert(!visit.state.queue.contains(d));
            }
            contracting_comes_to_rest(system, enclosures, arithmetic, next, visits - 1);
        } else {
            assert(contracting(system, enclosures, arithmetic, next, visits - 1) == next);
        }
    }
}

/// A contraction comes to rest: where no constraint waits and none emptied the box,
/// no constraint could narrow any coordinate of it by more than counts as progress.
pub proof fn nothing_is_left_to_gain<E>(
    system: ConstraintSystem<E>,
    enclosures: Enclosures,
    arithmetic: Arithmetic,
    region: Region,
    contributed: Seq<bool>,
    c: int,
)
    requires
        system.well_formed(),
        region.bounds.len() == system.variables@.len(),
        contracted(system, enclosures, arithmetic, region, contributed).queue.len() == 0,
        contracted(system, enclosures, arithmetic, region, contributed).dead is None,
        0 <= c < system.constraints@.len(),
    ensures
        is_at_rest(
            system,
            enclosures,
            arithmetic,
            contracted(system, enclosures, arithmetic, region, contributed).region.bounds,
            c,
        ),
{
    let all = everyone(system.constraints@.len());
    let begin = Contraction { region, queue: all, contributed, dead: None };
    assert forall|d: int| 0 <= d < system.constraints@.len() implies #[trigger] begin.queue.contains(d) by {
        assert(all[d] == d);
    }
    let visits = VISITS_PER_CONSTRAINT * system.constraints@.len();
    contracting_comes_to_rest(system, enclosures, arithmetic, begin, visits);
    let end = contracted(system, enclosures, arithmetic, region, contributed);
    assert(!end.queue.contains(c));
}

/// What is split is the widest: a coordinate worth splitting is chosen where there
/// is one, and none worth splitting is wider, relative to its declared width.
pub proof fn the_widest_is_split(
    arithmetic: Arithmetic,
    variables: Seq<InputVariable>,
    bounds: Seq<Interval>,
    upto: int,
    r: int,
)
    requires
        0 <= r < upto,
        is_splittable(arithmetic, variables[r], bounds[r]),
    ensures
        widest_below(arithmetic, variables, bounds, upto) matches Some(best) && 0 <= best < upto && is_splittable(
            arithmetic,
            variables[best],
            bounds[best],
        ) && relative_width(arithmetic, variables[r], bounds[r]).at_most(
            relative_width(arithmetic, variables[best], bounds[best]),
        ),
    decreases upto,
{
    the_widest_is_splittable(arithmetic, variables, bounds, upto - 1);
    if r < upto - 1 {
        the_widest_is_split(arithmetic, variables, bounds, upto - 1, r);
    } else if let Some(best) = widest_below(arithmetic, variables, bounds, upto - 1) {
        the_widest_is_split(arithmetic, variables, bounds, upto - 1, best);
    }
}

// ---- what blame shows ----

/// Whether histories go on from others: nothing that was recorded is forgotten.
pub open spec fn goes_on(before: Seq<Seq<int>>, after: Seq<Seq<int>>) -> bool {
    &&& before.len() == after.len()
    &&& forall|r: int| 0 <= r < before.len() ==> (#[trigger] before[r]).is_prefix_of(after[r])
}

proof fn going_on_goes_on(first: Seq<Seq<int>>, second: Seq<Seq<int>>, third: Seq<Seq<int>>)
    requires
        goes_on(first, second),
        goes_on(second, third),
    ensures
        goes_on(first, third),
{
    assert forall|r: int| 0 <= r < first.len() implies (#[trigger] first[r]).is_prefix_of(third[r]) by {
        assert(second[r].is_prefix_of(third[r]));
        assert forall|k: int| 0 <= k < first[r].len() implies #[trigger] first[r][k] == third[r][k] by {
            assert(first[r][k] == second[r][k]);
            assert(second[r][k] == third[r][k]);
        }
        assert(first[r] =~= third[r].subrange(0, first[r].len() as int));
    }
}

proof fn a_visit_goes_on<E>(
    system: ConstraintSystem<E>,
    enclosures: Enclosures,
    arithmetic: Arithmetic,
    c: int,
    state: Contraction,
    upto: int,
)
    requires
        system.well_formed(),
        0 <= c < system.constraints@.len(),
        upto <= system.incidence.rows@[c]@.len(),
        state.dead is None,
        state.region.history.len() == system.variables@.len(),
    ensures
        goes_on(
            state.region.history,
            symbols_narrowed(system, enclosures, arithmetic, c, state, upto).state.region.history,
        ),
        symbols_narrowed(system, enclosures, arithmetic, c, state, upto).state.dead matches Some(pair) ==> pair.0 == c,
    decreases upto,
{
    if upto > 0 {
        a_visit_goes_on(system, enclosures, arithmetic, c, state, upto - 1);
        let before = symbols_narrowed(system, enclosures, arithmetic, c, state, upto - 1).state.region.history;
        let after = symbols_narrowed(system, enclosures, arithmetic, c, state, upto).state.region.history;
        assert(system.incidence.rows@[c]@[upto - 1] < system.variables@.len());
        assert forall|r: int| 0 <= r < before.len() implies (#[trigger] before[r]).is_prefix_of(after[r]) by {
            assert(before[r] =~= after[r].subrange(0, before[r].len() as int));
        }
        going_on_goes_on(state.region.history, before, after);
    }
}

proof fn contracting_goes_on<E>(
    system: ConstraintSystem<E>,
    enclosures: Enclosures,
    arithmetic: Arithmetic,
    state: Contraction,
    visits: int,
)
    requires
        system.well_formed(),
        state.region.bounds.len() == system.variables@.len(),
        state.region.history.len() == system.variables@.len(),
        forall|k: int| 0 <= k < state.queue.len() ==> 0 <= (#[trigger] state.queue[k]) < system.constraints@.len(),
    ensures
        goes_on(
            state.region.history,
            contracting(system, enclosures, arithmetic, state, visits).region.history,
        ),
    decreases visits,
{
    if visits > 0 && state.queue.len() > 0 && state.dead is None {
        let c = state.queue[0];
        let popped = Contraction { queue: state.queue.skip(1), ..state };
        let count = system.incidence.rows@[c]@.len() as int;
        let next = visited(system, enclosures, arithmetic, c, popped);
        assert forall|k: int| 0 <= k < popped.queue.len() implies 0 <= (#[trigger] popped.queue[k])
            < system.constraints@.len() by {
            assert(popped.queue[k] == state.queue[k + 1]);
        }
        a_visit_goes_on(system, enclosures, arithmetic, c, popped, count);
        narrowing_keeps_the_size(system, enclosures, arithmetic, c, popped, count);
        contracting_goes_on(system, enclosures, arithmetic, next, visits - 1);
        let end = contracting(system, enclosures, arithmetic, state, visits);
        going_on_goes_on(state.region.history, next.region.history, end.region.history);
    }
}

/// Whether everything that narrowed a row is in a set.
pub open spec fn is_narrowed_within(history: Seq<Seq<int>>, row: int, set: Set<int>) -> bool {
    forall|k: int| 0 <= k < history[row].len() ==> set.contains(#[trigger] history[row][k])
}

/// Whether a box has a point on every row that only a set of constraints narrowed.
pub open spec fn has_where_within(region: Region, set: Set<int>, point: Seq<Real>) -> bool {
    forall|r: int|
        0 <= r < region.bounds.len() && #[trigger] is_narrowed_within(region.history, r, set)
            ==> region.bounds[r].has_value(point[r])
}

/// Whether the tapes of a set of constraints come to a residual at most zero at a
/// point, without meeting a NaN.
pub open spec fn all_hold<E>(
    system: ConstraintSystem<E>,
    semantics: Semantics,
    set: Set<int>,
    point: Seq<Real>,
) -> bool {
    &&& system.fits(point)
    &&& forall|c: int|
        0 <= c < system.constraints@.len() && set.contains(c) ==> #[trigger] tape_holds(system, semantics, c, point)
}

/// Whether a visit of a constraint has lost nothing of a point that a set of
/// constraints does not account for.
spec fn keeps_within<E>(system: ConstraintSystem<E>, c: int, visit: Visit, set: Set<int>, point: Seq<Real>) -> bool {
    &&& visit.state.region.bounds.len() == system.variables@.len()
    &&& visit.state.region.history.len() == system.variables@.len()
    &&& has_where_within(visit.state.region, set, point)
    &&& visit.globals.len() == system.incidence.rows@[c]@.len()
    &&& set.contains(c) ==> visit.state.dead is None && forall|k: int|
        0 <= k < visit.globals.len() ==> (#[trigger] visit.globals[k]).has_value(
            point[system.incidence.rows@[c]@[k] as int],
        )
}

proof fn narrowing_a_symbol_keeps_within<E>(
    system: ConstraintSystem<E>,
    enclosures: Enclosures,
    arithmetic: Arithmetic,
    semantics: Semantics,
    c: int,
    visit: Visit,
    k: int,
    set: Set<int>,
    point: Seq<Real>,
)
    requires
        system.well_formed(),
        encloses_around(system, enclosures, semantics, point),
        is_plain(semantics),
        all_hold(system, semantics, set, point),
        0 <= c < system.constraints@.len(),
        0 <= k < system.incidence.rows@[c]@.len(),
        keeps_within(system, c, visit, set, point),
    ensures
        keeps_within(system, c, symbol_narrowed(system, enclosures, arithmetic, c, visit, k), set, point),
{
    let rows = system.incidence.rows@[c]@;
    let row = rows[k] as int;
    let tape = system.constraints@[c].intervals;
    let values = row_at(rows, point);
    let before = visit.globals[k];
    let more = tape.narrowed(enclosures, visit.globals, k as u32);
    assert(rows[k] < system.variables@.len());
    if set.contains(c) {
        assert(tape.well_formed());
        assert(tape_holds(system, semantics, c, point));
        assert forall|g: int| 0 <= g < visit.globals.len() implies (#[trigger] visit.globals[g]).has_value(values[g]) by {}
        assert(tape.is_solution(semantics, visit.globals, values));
        assert(tape.encloses_at(enclosures, semantics, visit.globals, values, k as u32));
        narrowing_keeps_every_solution(tape, enclosures, semantics, visit.globals, values, k as u32);
        common_has_what_both_have(before, more, values[k]);
    }
    let after = symbol_narrowed(system, enclosures, arithmetic, c, visit, k);
    assert forall|r: int|
        0 <= r < after.state.region.bounds.len() && #[trigger] is_narrowed_within(
            after.state.region.history,
            r,
            set,
        ) implies after.state.region.bounds[r].has_value(point[r]) by {
        let was = visit.state.region.history;
        let is = after.state.region.history;
        assert(is_narrowed_within(was, r, set)) by {
            assert forall|j: int| 0 <= j < was[r].len() implies set.contains(#[trigger] was[r][j]) by {
                assert(is[r][j] == was[r][j]);
            }
        }
        if r == row && is != was {
            assert(is[r][was[r].len() as int] == c);
            assert(set.contains(c));
        }
    }
}

proof fn a_visit_keeps_within<E>(
    system: ConstraintSystem<E>,
    enclosures: Enclosures,
    arithmetic: Arithmetic,
    semantics: Semantics,
    c: int,
    state: Contraction,
    upto: int,
    set: Set<int>,
    point: Seq<Real>,
)
    requires
        system.well_formed(),
        encloses_around(system, enclosures, semantics, point),
        is_plain(semantics),
        all_hold(system, semantics, set, point),
        0 <= c < system.constraints@.len(),
        upto <= system.incidence.rows@[c]@.len(),
        state.dead is None,
        state.region.bounds.len() == system.variables@.len(),
        state.region.history.len() == system.variables@.len(),
        has_where_within(state.region, set, point),
        set.contains(c) ==> forall|k: int|
            0 <= k < system.incidence.rows@[c]@.len() ==> is_narrowed_within(
                state.region.history,
                #[trigger] system.incidence.rows@[c]@[k] as int,
                set,
            ),
    ensures
        keeps_within(system, c, symbols_narrowed(system, enclosures, arithmetic, c, state, upto), set, point),
    decreases upto,
{
    if upto <= 0 {
        let visit = symbols_narrowed(system, enclosures, arithmetic, c, state, upto);
        if set.contains(c) {
            assert forall|k: int| 0 <= k < visit.globals.len() implies (#[trigger] visit.globals[k]).has_value(
                point[system.incidence.rows@[c]@[k] as int],
            ) by {
                assert(system.incidence.rows@[c]@[k] < system.variables@.len());
                assert(is_narrowed_within(state.region.history, system.incidence.rows@[c]@[k] as int, set));
            }
        }
    } else {
        a_visit_keeps_within(system, enclosures, arithmetic, semantics, c, state, upto - 1, set, point);
        narrowing_a_symbol_keeps_within(
            system,
            enclosures,
            arithmetic,
            semantics,
            c,
            symbols_narrowed(system, enclosures, arithmetic, c, state, upto - 1),
            upto - 1,
            set,
            point,
        );
    }
}

proof fn contracting_keeps_within<E>(
    system: ConstraintSystem<E>,
    enclosures: Enclosures,
    arithmetic: Arithmetic,
    semantics: Semantics,
    state: Contraction,
    visits: int,
    set: Set<int>,
    point: Seq<Real>,
)
    requires
        system.well_formed(),
        encloses_around(system, enclosures, semantics, point),
        is_plain(semantics),
        all_hold(system, semantics, set, point),
        state.dead is None,
        state.region.bounds.len() == system.variables@.len(),
        state.region.history.len() == system.variables@.len(),
        has_where_within(state.region, set, point),
        forall|k: int| 0 <= k < state.queue.len() ==> 0 <= (#[trigger] state.queue[k]) < system.constraints@.len(),
        traces_back(system, contracting(system, enclosures, arithmetic, state, visits).region.history, set),
        contracting(system, enclosures, arithmetic, state, visits).dead matches Some(pair) ==> set.contains(pair.0),
    ensures
        ({
            let end = contracting(system, enclosures, arithmetic, state, visits);
            &&& end.dead is None
            &&& has_where_within(end.region, set, point)
            &&& end.region.bounds.len() == system.variables@.len()
            &&& end.region.history.len() == system.variables@.len()
        }),
    decreases visits,
{
    if visits > 0 && state.queue.len() > 0 {
        let c = state.queue[0];
        let rows = system.incidence.rows@[c]@;
        let popped = Contraction { queue: state.queue.skip(1), ..state };
        let count = rows.len() as int;
        let next = visited(system, enclosures, arithmetic, c, popped);
        let end = contracting(system, enclosures, arithmetic, state, visits);
        assert forall|k: int| 0 <= k < popped.queue.len() implies 0 <= (#[trigger] popped.queue[k])
            < system.constraints@.len() by {
            assert(popped.queue[k] == state.queue[k + 1]);
        }
        contracting_goes_on(system, enclosures, arithmetic, state, visits);
        a_visit_goes_on(system, enclosures, arithmetic, c, popped, count);
        narrowing_keeps_the_size(system, enclosures, arithmetic, c, popped, count);
        if set.contains(c) {
            assert forall|k: int| 0 <= k < rows.len() implies is_narrowed_within(
                popped.region.history,
                #[trigger] rows[k] as int,
                set,
            ) by {
                let r = rows[k] as int;
                assert(rows[k] < system.variables@.len());
                assert forall|j: int| 0 <= j < popped.region.history[r].len() implies set.contains(
                    #[trigger] popped.region.history[r][j],
                ) by {
                    assert(state.region.history[r].is_prefix_of(end.region.history[r]));
                    assert(state.region.history[r][j] == end.region.history[r][j]);
                    assert(set.contains(end.region.history[system.incidence.rows@[c]@[k] as int][j]));
                }
            }
        }
        a_visit_keeps_within(system, enclosures, arithmetic, semantics, c, popped, count, set, point);
        if next.dead is Some {
            assert(end == next);
        }
        contracting_keeps_within(system, enclosures, arithmetic, semantics, next, visits - 1, set, point);
    }
}

/// What is blamed shows it: where contracting a box found it empty, no point of the
/// box satisfies even the constraints that are blamed for it.
pub proof fn what_is_blamed_shows_it_empty<E>(
    system: ConstraintSystem<E>,
    enclosures: Enclosures,
    arithmetic: Arithmetic,
    semantics: Semantics,
    region: Region,
    contributed: Seq<bool>,
    culprit: int,
    row: int,
    point: Seq<Real>,
)
    requires
        system.well_formed(),
        encloses_around(system, enclosures, semantics, point),
        is_plain(semantics),
        region.bounds.len() == system.variables@.len(),
        region.history.len() == system.variables@.len(),
        contracted(system, enclosures, arithmetic, region, contributed).dead == Some((culprit, row)),
        all_hold(
            system,
            semantics,
            blame_of(
                system,
                contracted(system, enclosures, arithmetic, region, contributed).region.history,
                culprit,
                row,
            ),
            point,
        ),
    ensures
        !region.has_point(point),
{
    let end = contracted(system, enclosures, arithmetic, region, contributed);
    let set = blame_of(system, end.region.history, culprit, row);
    blame_traces_back(system, end.region.history, culprit, row);
    if region.has_point(point) {
        contracting_keeps_within(
            system,
            enclosures,
            arithmetic,
            semantics,
            Contraction { region, queue: everyone(system.constraints@.len()), contributed, dead: None },
            VISITS_PER_CONSTRAINT * system.constraints@.len(),
            set,
            point,
        );
    }
}

proof fn blame_traces_back<E>(system: ConstraintSystem<E>, history: Seq<Seq<int>>, culprit: int, row: int)
    ensures
        accuses(history, culprit, row, blame_of(system, history, culprit, row)),
        traces_back(system, history, blame_of(system, history, culprit, row)),
{
    let blame = blame_of(system, history, culprit, row);
    assert forall|c: int, s: int, k: int|
        #![trigger blame.contains(c), history[system.incidence.rows@[c]@[s] as int][k]]
        blame.contains(c) && 0 <= c < system.constraints@.len() && 0 <= s < system.incidence.rows@[c]@.len() && 0 <= k
            < history[system.incidence.rows@[c]@[s] as int].len() implies blame.contains(
        history[system.incidence.rows@[c]@[s] as int][k],
    ) by {
        let from = history[system.incidence.rows@[c]@[s] as int][k];
        assert forall|set: Set<int>| #[trigger]
            accuses(history, culprit, row, set) && traces_back(system, history, set) implies set.contains(from) by {
            assert(set.contains(c));
        }
    }
}

/// The constraints that are marked.
pub open spec fn named(marks: Seq<bool>) -> Set<int> {
    Set::new(|c: int| 0 <= c < marks.len() && marks[c])
}

/// Whether what a box lacks of a point is accounted for: bounded below, it has the
/// point on every row that only a set of constraints narrowed, whatever set it is
/// that holds at the point and has everything that narrowed what its members read.
pub open spec fn accounts_for<E>(
    system: ConstraintSystem<E>,
    arithmetic: Arithmetic,
    semantics: Semantics,
    region: Region,
    point: Seq<Real>,
) -> bool {
    &&& region.bounds.len() == system.variables@.len()
    &&& region.history.len() == system.variables@.len()
    &&& forall|r: int|
        0 <= r < region.bounds.len() ==> !(#[trigger] region.bounds[r]).lo.nan() && !region.bounds[r].hi.nan()
    &&& is_bounded_below(system, arithmetic, region)
    &&& forall|set: Set<int>| #[trigger]
        all_hold(system, semantics, set, point) && traces_back(system, region.history, set) ==> has_where_within(
            region,
            set,
            point,
        )
}

proof fn contracting_accounts<E>(
    system: ConstraintSystem<E>,
    enclosures: Enclosures,
    arithmetic: Arithmetic,
    semantics: Semantics,
    region: Region,
    contributed: Seq<bool>,
    point: Seq<Real>,
)
    requires
        system.well_formed(),
        encloses_around(system, enclosures, semantics, point),
        is_plain(semantics),
        accounts_for(system, arithmetic, semantics, region, point),
    ensures
        ({
            let end = contracted(system, enclosures, arithmetic, region, contributed);
            match end.dead {
                None => accounts_for(system, arithmetic, semantics, end.region, point),
                Some(pair) => !all_hold(
                    system,
                    semantics,
                    blame_of(system, end.region.history, pair.0, pair.1),
                    point,
                ),
            }
        }),
{
    let end = contracted(system, enclosures, arithmetic, region, contributed);
    let begin = Contraction { region, queue: everyone(system.constraints@.len()), contributed, dead: None };
    let visits = VISITS_PER_CONSTRAINT * system.constraints@.len();
    contracting_goes_on(system, enclosures, arithmetic, begin, visits);
    contracting_keeps_the_size(system, enclosures, arithmetic, begin, visits);
    a_contraction_only_narrows(system, enclosures, arithmetic, region, contributed);
    assert forall|set: Set<int>| #[trigger]
        all_hold(system, semantics, set, point) && traces_back(system, end.region.history, set) && (
        end.dead matches Some(pair) ==> set.contains(pair.0)) implies end.dead is None && has_where_within(
        end.region,
        set,
        point,
    ) by {
        tracing_back_goes_back(system, region.history, end.region.history, set);
        contracting_keeps_within(system, enclosures, arithmetic, semantics, begin, visits, set, point);
    }
    match end.dead {
        Some(pair) => {
            blame_traces_back(system, end.region.history, pair.0, pair.1);
        },
        None => {
            assert forall|r: int|
                0 <= r < end.region.bounds.len() implies !(#[trigger] end.region.bounds[r]).lo.nan()
                && !end.region.bounds[r].hi.nan() && (system.variables@[r].extent(arithmetic).finite()
                ==> negative_infinity().below(end.region.bounds[r].lo)) by {
                assert(region.bounds[r].lo.at_most(end.region.bounds[r].lo));
                assert(system.variables@[r].extent(arithmetic).finite() ==> negative_infinity().below(
                    region.bounds[r].lo,
                ));
            }
        },
    }
}

proof fn tracing_back_goes_back<E>(
    system: ConstraintSystem<E>,
    before: Seq<Seq<int>>,
    after: Seq<Seq<int>>,
    set: Set<int>,
)
    requires
        system.well_formed(),
        before.len() == system.variables@.len(),
        goes_on(before, after),
        traces_back(system, after, set),
    ensures
        traces_back(system, before, set),
{
    assert forall|c: int, s: int, k: int|
        #![trigger set.contains(c), before[system.incidence.rows@[c]@[s] as int][k]]
        set.contains(c) && 0 <= c < system.constraints@.len() && 0 <= s < system.incidence.rows@[c]@.len() && 0 <= k
            < before[system.incidence.rows@[c]@[s] as int].len() implies set.contains(
        before[system.incidence.rows@[c]@[s] as int][k],
    ) by {
        assert(system.incidence.rows@[c]@[s] < system.variables@.len());
        let r = system.incidence.rows@[c]@[s] as int;
        assert(before[r].is_prefix_of(after[r]));
        assert(before[r][k] == after[r][k]);
        assert(set.contains(after[system.incidence.rows@[c]@[s] as int][k]));
    }
}

/// Whether a box waits or stands that accounts for what it lacks of a point.
spec fn is_accounted_for<E>(
    system: ConstraintSystem<E>,
    arithmetic: Arithmetic,
    semantics: Semantics,
    state: Bisection,
    point: Seq<Real>,
) -> bool {
    ||| exists|i: int|
        0 <= i < state.queue.len() && accounts_for(system, arithmetic, semantics, #[trigger] state.queue[i], point)
    ||| state.leaves.len() > 0
}

/// Whether the marks of one are among the marks of another.
spec fn are_among(few: Seq<bool>, many: Seq<bool>) -> bool {
    few.len() == many.len() && forall|c: int| 0 <= c < few.len() && #[trigger] few[c] ==> many[c]
}

proof fn fewer_hold<E>(
    system: ConstraintSystem<E>,
    semantics: Semantics,
    few: Seq<bool>,
    many: Seq<bool>,
    point: Seq<Real>,
)
    requires
        are_among(few, many),
        all_hold(system, semantics, named(many), point),
    ensures
        all_hold(system, semantics, named(few), point),
{
    assert forall|c: int| 0 <= c < system.constraints@.len() && named(few).contains(c) implies #[trigger] tape_holds(
        system,
        semantics,
        c,
        point,
    ) by {
        assert(few[c]);
        assert(named(many).contains(c));
    }
}

proof fn trying_a_half_accounts<E>(
    system: ConstraintSystem<E>,
    enclosures: Enclosures,
    arithmetic: Arithmetic,
    semantics: Semantics,
    region: Region,
    row: int,
    half: Interval,
    state: Bisection,
    point: Seq<Real>,
)
    requires
        system.well_formed(),
        encloses_around(system, enclosures, semantics, point),
        is_plain(semantics),
        state.blamed.len() == system.constraints@.len(),
        all_hold(
            system,
            semantics,
            named(half_tried(system, enclosures, arithmetic, region, row, half, state).blamed),
            point,
        ),
        is_accounted_for(system, arithmetic, semantics, state, point) || accounts_for(
            system,
            arithmetic,
            semantics,
            Region { bounds: region.bounds.update(row, half), ..region },
            point,
        ),
    ensures
        is_accounted_for(
            system,
            arithmetic,
            semantics,
            half_tried(system, enclosures, arithmetic, region, row, half, state),
            point,
        ),
{
    let child = Region { bounds: region.bounds.update(row, half), ..region };
    let end = contracted(system, enclosures, arithmetic, child, state.contributed);
    let next = half_tried(system, enclosures, arithmetic, region, row, half, state);
    if is_accounted_for(system, arithmetic, semantics, state, point) {
        if state.leaves.len() == 0 {
            let i = choose|i: int|
                0 <= i < state.queue.len() && accounts_for(
                    system,
                    arithmetic,
                    semantics,
                    #[trigger] state.queue[i],
                    point,
                );
            assert(next.queue[i] == state.queue[i]);
        }
    } else {
        contracting_accounts(system, enclosures, arithmetic, semantics, child, state.contributed, point);
        match end.dead {
            None => {
                assert(next.queue[state.queue.len() as int] == end.region);
            },
            Some(pair) => {
                let blame = blame_of(system, end.region.history, pair.0, pair.1);
                assert forall|c: int| 0 <= c < system.constraints@.len() && blame.contains(c) implies #[trigger] tape_holds(
                    system,
                    semantics,
                    c,
                    point,
                ) by {
                    assert(next.blamed[c]);
                    assert(named(next.blamed).contains(c));
                }
                assert(all_hold(system, semantics, blame, point));
            },
        }
    }
}

proof fn a_look_blames_more<E: Evaluate>(
    system: ConstraintSystem<E>,
    enclosures: Enclosures,
    arithmetic: Arithmetic,
    state: Bisection,
    cancelled: bool,
)
    ensures
        are_among(state.blamed, looked_at(system, enclosures, arithmetic, state, cancelled).blamed),
{
}

proof fn bisecting_blames_more<E: Evaluate>(
    system: ConstraintSystem<E>,
    enclosures: Enclosures,
    arithmetic: Arithmetic,
    state: Bisection,
    answers: Seq<bool>,
    looks: nat,
)
    ensures
        are_among(state.blamed, bisecting(system, enclosures, arithmetic, state, answers, looks).blamed),
    decreases looks,
{
    if looks > 0 && state.queue.len() > 0 {
        let next = looked_at(system, enclosures, arithmetic, state, answers[state.looked]);
        let end = bisecting(system, enclosures, arithmetic, state, answers, looks);
        a_look_blames_more(system, enclosures, arithmetic, state, answers[state.looked]);
        bisecting_blames_more(system, enclosures, arithmetic, next, answers, (looks - 1) as nat);
        assert forall|c: int| 0 <= c < state.blamed.len() && #[trigger] state.blamed[c] implies end.blamed[c] by {
            assert(next.blamed[c]);
        }
    }
}

proof fn a_half_accounts<E>(
    system: ConstraintSystem<E>,
    arithmetic: Arithmetic,
    semantics: Semantics,
    region: Region,
    row: int,
    half: Interval,
    point: Seq<Real>,
)
    requires
        accounts_for(system, arithmetic, semantics, region, point),
        0 <= row < system.variables@.len(),
        negative_infinity().below(half.lo),
        !half.hi.nan(),
        region.bounds[row].has_value(point[row]) ==> half.has_value(point[row]),
    ensures
        accounts_for(
            system,
            arithmetic,
            semantics,
            Region { bounds: region.bounds.update(row, half), ..region },
            point,
        ),
{
    let child = Region { bounds: region.bounds.update(row, half), ..region };
    assert forall|set: Set<int>| #[trigger]
        all_hold(system, semantics, set, point) && traces_back(system, child.history, set) implies has_where_within(
        child,
        set,
        point,
    ) by {
        assert(has_where_within(region, set, point));
    }
    assert forall|r: int|
        0 <= r < child.bounds.len() implies !(#[trigger] child.bounds[r]).lo.nan() && !child.bounds[r].hi.nan() && (
    system.variables@[r].extent(arithmetic).finite() ==> negative_infinity().below(child.bounds[r].lo)) by {
        if r != row {
            assert(child.bounds[r] == region.bounds[r]);
        }
    }
}

proof fn a_look_accounts<E: Evaluate>(
    system: ConstraintSystem<E>,
    enclosures: Enclosures,
    arithmetic: Arithmetic,
    semantics: Semantics,
    state: Bisection,
    cancelled: bool,
    point: Seq<Real>,
)
    requires
        system.well_formed(),
        encloses_around(system, enclosures, semantics, point),
        is_plain(semantics),
        parts_cleanly(arithmetic),
        state.queue.len() > 0,
        state.blamed.len() == system.constraints@.len(),
        all_hold(
            system,
            semantics,
            named(looked_at(system, enclosures, arithmetic, state, cancelled).blamed),
            point,
        ),
        is_accounted_for(system, arithmetic, semantics, state, point),
    ensures
        is_accounted_for(
            system,
            arithmetic,
            semantics,
            looked_at(system, enclosures, arithmetic, state, cancelled),
            point,
        ),
{
    let region = state.queue[0];
    let next = Bisection { queue: state.queue.skip(1), looked: state.looked + 1, ..state };
    let after = looked_at(system, enclosures, arithmetic, state, cancelled);
    let leaf = leaf_of(system, enclosures, arithmetic, region);
    let elsewhere = is_accounted_for(system, arithmetic, semantics, next, point);
    let here = accounts_for(system, arithmetic, semantics, region, point);
    assert(here || elsewhere) by {
        if state.leaves.len() == 0 {
            let i = choose|i: int|
                0 <= i < state.queue.len() && accounts_for(
                    system,
                    arithmetic,
                    semantics,
                    #[trigger] state.queue[i],
                    point,
                );
            if i > 0 {
                assert(next.queue[i - 1] == state.queue[i]);
            }
        }
    }
    let widest = widest_below(arithmetic, system.variables@, region.bounds, region.bounds.len() as int);
    if cancelled || leaf.settled is Some || widest is None || next.remaining < 2 {
        assert(after.leaves == next.leaves.push(leaf));
    } else {
        let row = widest->0;
        the_widest_is_splittable(arithmetic, system.variables@, region.bounds, region.bounds.len() as int);
        let whole = region.bounds[row];
        let middle = middle_of(arithmetic, whole);
        assert(is_splittable(arithmetic, system.variables@[row], whole));
        let spent = Bisection { remaining: next.remaining - 2, ..next };
        let lower_half = Interval::new(whole.lo, middle);
        let upper_half = Interval::new(middle, whole.hi);
        let lower = half_tried(system, enclosures, arithmetic, region, row, lower_half, spent);
        assert(are_among(lower.blamed, after.blamed));
        fewer_hold(system, semantics, lower.blamed, after.blamed, point);
        assert(elsewhere ==> is_accounted_for(system, arithmetic, semantics, spent, point)) by {
            if elsewhere && next.leaves.len() == 0 {
                let i = choose|i: int|
                    0 <= i < next.queue.len() && accounts_for(
                        system,
                        arithmetic,
                        semantics,
                        #[trigger] next.queue[i],
                        point,
                    );
                assert(spent.queue[i] == next.queue[i]);
            }
        }
        let first = whole.has_value(point[row]) ==> lower_half.has_value(point[row]);
        if here {
            assert(negative_infinity().below(whole.lo));
            assert(negative_infinity().below(middle));
            if first {
                a_half_accounts(system, arithmetic, semantics, region, row, lower_half, point);
            } else {
                a_half_accounts(system, arithmetic, semantics, region, row, upper_half, point);
            }
        }
        if elsewhere || first {
            trying_a_half_accounts(
                system,
                enclosures,
                arithmetic,
                semantics,
                region,
                row,
                lower_half,
                spent,
                point,
            );
        }
        trying_a_half_accounts(
            system,
            enclosures,
            arithmetic,
            semantics,
            region,
            row,
            upper_half,
            lower,
            point,
        );
    }
}

proof fn bisecting_accounts<E: Evaluate>(
    system: ConstraintSystem<E>,
    enclosures: Enclosures,
    arithmetic: Arithmetic,
    semantics: Semantics,
    state: Bisection,
    answers: Seq<bool>,
    looks: nat,
    point: Seq<Real>,
)
    requires
        system.well_formed(),
        encloses_around(system, enclosures, semantics, point),
        is_plain(semantics),
        parts_cleanly(arithmetic),
        state.blamed.len() == system.constraints@.len(),
        all_hold(
            system,
            semantics,
            named(bisecting(system, enclosures, arithmetic, state, answers, looks).blamed),
            point,
        ),
        is_accounted_for(system, arithmetic, semantics, state, point),
    ensures
        is_accounted_for(
            system,
            arithmetic,
            semantics,
            bisecting(system, enclosures, arithmetic, state, answers, looks),
            point,
        ),
    decreases looks,
{
    if looks > 0 && state.queue.len() > 0 {
        let cancelled = answers[state.looked];
        let next = looked_at(system, enclosures, arithmetic, state, cancelled);
        let end = bisecting(system, enclosures, arithmetic, state, answers, looks);
        a_look_blames_more(system, enclosures, arithmetic, state, cancelled);
        bisecting_blames_more(system, enclosures, arithmetic, next, answers, (looks - 1) as nat);
        fewer_hold(system, semantics, next.blamed, end.blamed, point);
        a_look_accounts(system, enclosures, arithmetic, semantics, state, cancelled, point);
        bisecting_accounts(
            system,
            enclosures,
            arithmetic,
            semantics,
            next,
            answers,
            (looks - 1) as nat,
            point,
        );
    }
}

/// A contradiction is of those blamed for it: where the declared box is contracted,
/// what is left of it bisected, and no box is left standing, no point of the declared
/// box satisfies even the constraints that are blamed.
pub proof fn a_contradiction_is_of_those_blamed<E: Evaluate>(
    system: ConstraintSystem<E>,
    enclosures: Enclosures,
    arithmetic: Arithmetic,
    semantics: Semantics,
    contributed: Seq<bool>,
    budget: int,
    answers: Seq<bool>,
    point: Seq<Real>,
)
    requires
        system.well_formed(),
        encloses_around(system, enclosures, semantics, point),
        is_plain(semantics),
        parts_cleanly(arithmetic),
        contributed.len() == system.constraints@.len(),
        declared_region(system).has_point(point),
        is_bounded_below(system, arithmetic, declared_region(system)),
        contracted(system, enclosures, arithmetic, declared_region(system), contributed).dead is None,
        ({
            let root = contracted(system, enclosures, arithmetic, declared_region(system), contributed);
            let end = bisected(system, enclosures, arithmetic, root.region, budget, root.contributed, answers);
            &&& end.queue.len() == 0
            &&& end.leaves.len() == 0
        }),
        system.fits(point),
    ensures
        ({
            let root = contracted(system, enclosures, arithmetic, declared_region(system), contributed);
            let end = bisected(system, enclosures, arithmetic, root.region, budget, root.contributed, answers);
            exists|c: int|
                0 <= c < system.constraints@.len() && c < end.blamed.len() && end.blamed[c] && !#[trigger] tape_holds(
                    system,
                    semantics,
                    c,
                    point,
                )
        }),
{
    let region = declared_region(system);
    let root = contracted(system, enclosures, arithmetic, region, contributed);
    let end = bisected(system, enclosures, arithmetic, root.region, budget, root.contributed, answers);
    let begin = started(root.region, budget, root.contributed);
    assert forall|r: int|
        0 <= r < region.bounds.len() implies !(#[trigger] region.bounds[r]).lo.nan() && !region.bounds[r].hi.nan() by {
        assert(region.bounds[r].has_value(point[r]));
    }
    contracting_accounts(system, enclosures, arithmetic, semantics, region, contributed, point);
    who_narrowed_is_who_contributed(system, enclosures, arithmetic, contributed);
    assert(begin.queue[0] == root.region);
    bisecting_blames_more(system, enclosures, arithmetic, begin, answers, (budget + 1) as nat);
    if all_hold(system, semantics, named(end.blamed), point) {
        bisecting_accounts(
            system,
            enclosures,
            arithmetic,
            semantics,
            begin,
            answers,
            (budget + 1) as nat,
            point,
        );
    }
}

/// Whether marks are of those who narrowed: everyone recorded, and whoever emptied
/// the box, is marked; and whoever else is marked was so at the start.
pub open spec fn marks_who_narrowed(start: Seq<bool>, state: Contraction) -> bool {
    &&& state.contributed.len() == start.len()
    &&& forall|r: int, k: int|
        0 <= r < state.region.history.len() && 0 <= k < state.region.history[r].len() ==> 0
            <= #[trigger] state.region.history[r][k] < start.len() && state.contributed[state.region.history[r][k]]
    &&& state.dead matches Some(pair) ==> 0 <= pair.0 < start.len() && state.contributed[pair.0]
    &&& forall|c: int|
        0 <= c < start.len() && #[trigger] state.contributed[c] ==> start[c] || (state.dead matches Some(pair) && pair.0
            == c) || exists|r: int, k: int|
            0 <= r < state.region.history.len() && 0 <= k < state.region.history[r].len()
                && #[trigger] state.region.history[r][k] == c
}

proof fn a_visit_marks_who_narrowed<E>(
    system: ConstraintSystem<E>,
    enclosures: Enclosures,
    arithmetic: Arithmetic,
    c: int,
    start: Seq<bool>,
    state: Contraction,
    upto: int,
)
    requires
        system.well_formed(),
        0 <= c < system.constraints@.len(),
        upto <= system.incidence.rows@[c]@.len(),
        start.len() == system.constraints@.len(),
        state.region.history.len() == system.variables@.len(),
        marks_who_narrowed(start, state),
        state.dead is None,
    ensures
        marks_who_narrowed(start, symbols_narrowed(system, enclosures, arithmetic, c, state, upto).state),
        symbols_narrowed(system, enclosures, arithmetic, c, state, upto).state.region.history.len()
            == system.variables@.len(),
    decreases upto,
{
    if upto > 0 {
        a_visit_marks_who_narrowed(system, enclosures, arithmetic, c, start, state, upto - 1);
        let before = symbols_narrowed(system, enclosures, arithmetic, c, state, upto - 1).state;
        let after = symbols_narrowed(system, enclosures, arithmetic, c, state, upto).state;
        let row = system.incidence.rows@[c]@[upto - 1] as int;
        assert(system.incidence.rows@[c]@[upto - 1] < system.variables@.len());
        let was = before.region.history;
        let is = after.region.history;
        if after != before {
            assert forall|r: int, k: int| 0 <= r < is.len() && 0 <= k < is[r].len() implies 0 <= #[trigger] is[r][k]
                < start.len() && after.contributed[is[r][k]] by {
                if k < was[r].len() {
                    assert(is[r][k] == was[r][k]);
                } else {
                    assert(is[r][k] == c);
                }
            }
            assert forall|d: int| 0 <= d < start.len() && #[trigger] after.contributed[d] implies start[d] || (
            after.dead matches Some(pair) && pair.0 == d) || exists|r: int, k: int|
                0 <= r < is.len() && 0 <= k < is[r].len() && #[trigger] is[r][k] == d by {
                if d == c {
                    if after.dead is None {
                        assert(is[row][was[row].len() as int] == c);
                    }
                } else {
                    assert(before.contributed[d]);
                    if !start[d] {
                        let (r, k) = choose|r: int, k: int|
                            0 <= r < was.len() && 0 <= k < was[r].len() && #[trigger] was[r][k] == d;
                        assert(is[r][k] == d);
                    }
                }
            }
        }
    }
}

proof fn contracting_marks_who_narrowed<E>(
    system: ConstraintSystem<E>,
    enclosures: Enclosures,
    arithmetic: Arithmetic,
    start: Seq<bool>,
    state: Contraction,
    visits: int,
)
    requires
        system.well_formed(),
        start.len() == system.constraints@.len(),
        state.region.bounds.len() == system.variables@.len(),
        state.region.history.len() == system.variables@.len(),
        forall|k: int| 0 <= k < state.queue.len() ==> 0 <= (#[trigger] state.queue[k]) < system.constraints@.len(),
        marks_who_narrowed(start, state),
    ensures
        marks_who_narrowed(start, contracting(system, enclosures, arithmetic, state, visits)),
    decreases visits,
{
    if visits > 0 && state.queue.len() > 0 && state.dead is None {
        let c = state.queue[0];
        let popped = Contraction { queue: state.queue.skip(1), ..state };
        let count = system.incidence.rows@[c]@.len() as int;
        let next = visited(system, enclosures, arithmetic, c, popped);
        assert forall|k: int| 0 <= k < popped.queue.len() implies 0 <= (#[trigger] popped.queue[k])
            < system.constraints@.len() by {
            assert(popped.queue[k] == state.queue[k + 1]);
        }
        assert(marks_who_narrowed(start, popped));
        a_visit_marks_who_narrowed(system, enclosures, arithmetic, c, start, popped, count);
        narrowing_keeps_the_size(system, enclosures, arithmetic, c, popped, count);
        contracting_marks_who_narrowed(system, enclosures, arithmetic, start, next, visits - 1);
    }
}

/// Who narrowed is who contributed: contracting the declared box marks everyone whose
/// narrowing is recorded and whoever emptied it, and nobody else that was not marked
/// before.
pub proof fn who_narrowed_is_who_contributed<E>(
    system: ConstraintSystem<E>,
    enclosures: Enclosures,
    arithmetic: Arithmetic,
    contributed: Seq<bool>,
)
    requires
        system.well_formed(),
        contributed.len() == system.constraints@.len(),
    ensures
        marks_who_narrowed(
            contributed,
            contracted(system, enclosures, arithmetic, declared_region(system), contributed),
        ),
{
    let region = declared_region(system);
    let begin = Contraction { region, queue: everyone(system.constraints@.len()), contributed, dead: None };
    assert(marks_who_narrowed(contributed, begin));
    contracting_marks_who_narrowed(
        system,
        enclosures,
        arithmetic,
        contributed,
        begin,
        VISITS_PER_CONSTRAINT * system.constraints@.len(),
    );
}

} // verus!
