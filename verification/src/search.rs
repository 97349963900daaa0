//! The engine of a search: which strategies run, in which order, and what the
//! first point they look for is concluded to be.
//!
//! Finding the first feasible point is the hard part. The opening contracts the
//! declared box, probes it with one batch of uniform proposals, runs a local
//! solve, bisects, and proposes by brute force, in that order; each runs only
//! if the ones before it left nothing in hand, except the bisection, which also
//! runs for coverage where a walk will carry the search: a chain cannot cross
//! between the pieces of a region, so each piece is seeded from its own leaf.
//!
//! The sampler, the walker and the solver are the caller's; what they are
//! asked, and what is made of their answers, is here.

use vstd::prelude::*;
use rand::rngs::Xoshiro256PlusPlus;
use crate::clamping::is_known;
use crate::interval::{enclosures_of, Enclosures, Interval, Intervals};
use crate::hc4::is_plain;
use crate::local::{
    a_seed_is_the_same_every_time, find_initial, is_found, outcome_of, seeds_steadily, units_are_steady,
    Landing as Seeding, STARTS,
};
use crate::machine::{arithmetic_of, deterministic, Arithmetic, Machine};
use crate::number::{infinity, zero, Real};
use crate::plans::integers;
use crate::prune::{
    a_contraction_stays_bounded,
    a_contradiction_is_of_those_blamed,
    a_solution_survives_contraction,
    all_hold,
    an_undisturbed_bisection_is_one,
    are_leaves_of,
    bisect,
    bisected,
    contract,
    contracted,
    blame_of,
    declared_region,
    is_solution,
    listed,
    marked_below,
    marked_ones,
    marks_of,
    middles,
    names_some,
    parts_cleanly,
    regions,
    standings,
    started,
    the_declared_box_is_bounded,
    the_leaves_cover_the_region,
    were_answered,
    what_is_blamed_shows_it_empty,
    Bisection,
    Contracted,
    Contraction,
    Leaf,
    Node,
    Pruned,
    Region,
    Standing,
};
use crate::random::{after_forks, fork_at, forked, words};
use crate::repair::{gaps, widths_of};
use crate::semantics::Semantics;
use crate::slicing::{encloses_around, tape_holds, tapes_agree};
use crate::solve::{Budgets, Strategy};
use crate::system::{
    a_batch_agrees_with_one_at_a_time, clearance_asks_for_more, copied, passes, points, ranges, ConstraintSystem, Evaluate,
    Point,
};

verus! {

/// The hit rate below which a walk is expected to do the delivering: one in so
/// many proposals.
pub const EASY_PATH: u64 = 1000;

/// How many points are produced per round trip.
pub const BATCH_SIZE: usize = 32;

/// How many batches may sit unread before the producer waits.
pub const CHANNEL_CAPACITY: usize = 2;

/// Consecutive empty batches before there is concluded to be nothing left: an
/// empty batch by itself is not proof.
pub const BARREN_BATCHES: usize = 3;

/// How many leaves of a bisection a local solve is spent on, when nothing is in
/// hand.
pub const GAP_SEEDS: usize = 16;

// ---- the ladder ----

/// Uniform rejection sampling over the declared box: its stream, and what it may
/// spend.
#[derive(Debug)]
pub struct Sampler {
    pub stream: Xoshiro256PlusPlus,
    pub proposals: u64,
    /// How many threads brute force fans out over; as many as the machine has
    /// where there is none.
    pub threads: Option<usize>,
    /// What may be spent on a device, if one may be used.
    pub gpu: Option<u64>,
}

/// The strategies: their streams and their budgets, each there if it is
/// configured.
#[derive(Debug)]
pub struct Ladder {
    pub sampler: Option<Sampler>,
    pub walker: Option<Xoshiro256PlusPlus>,
    pub local: Option<Xoshiro256PlusPlus>,
    pub prune: Option<u32>,
}

/// Where a strategy is listed last below `upto`, if it is.
pub open spec fn last_place(strategies: Seq<Strategy>, strategy: Strategy, upto: int) -> Option<int>
    decreases upto,
{
    if upto <= 0 {
        None
    } else if strategies[upto - 1] == strategy {
        Some(upto - 1)
    } else {
        last_place(strategies, strategy, upto - 1)
    }
}

/// The words of a strategy's stream: the fork at the place it is listed last.
pub open spec fn stream_of(
    state: Seq<u64>,
    strategies: Seq<Strategy>,
    strategy: Strategy,
    upto: int,
) -> Option<Seq<u64>> {
    match last_place(strategies, strategy, upto) {
        Some(place) => Some(fork_at(state, place as nat)),
        None => None,
    }
}

pub open spec fn words_of(stream: Option<Xoshiro256PlusPlus>) -> Option<Seq<u64>> {
    match stream {
        Some(generator) => Some(words(generator)),
        None => None,
    }
}

impl Ladder {
    /// Whether the ladder is the one of the first of a list of strategies.
    pub open spec fn is_of(&self, state: Seq<u64>, strategies: Seq<Strategy>, budgets: Budgets, upto: int) -> bool {
        &&& match self.sampler {
            Some(sampler) => {
                &&& stream_of(state, strategies, Strategy::BruteSquad, upto) == Some(words(sampler.stream))
                &&& sampler.proposals == budgets.proposals
                &&& sampler.threads == budgets.threads
                &&& sampler.gpu == if budgets.gpu {
                    Some(budgets.gpu_proposals)
                } else {
                    None
                }
            },
            None => last_place(strategies, Strategy::BruteSquad, upto) is None,
        }
        &&& words_of(self.walker) == stream_of(state, strategies, Strategy::HitAndRun, upto)
        &&& words_of(self.local) == stream_of(state, strategies, Strategy::LocalSolve, upto)
        &&& self.prune == match last_place(strategies, Strategy::Prune, upto) {
            Some(place) => Some(budgets.prune),
            None => None,
        }
    }

    /// Each strategy gets its own stream, forked from `rng` in list order, so
    /// that what one draws is nothing to the others.
    pub fn new(rng: Xoshiro256PlusPlus, strategies: &Vec<Strategy>, budgets: Budgets) -> (ladder: Self)
        ensures
            ladder.is_of(words(rng), strategies@, budgets, strategies@.len() as int),
    {
        let ghost state = words(rng);
        let mut rng = rng;
        let mut ladder = Self { sampler: None, walker: None, local: None, prune: None };
        for i in 0..strategies.len()
            invariant
                words(rng) == after_forks(state, i as nat),
                ladder.is_of(state, strategies@, budgets, i as int),
        {
            let stream = forked(&mut rng);
            assert(words(stream) == fork_at(state, i as nat));
            match strategies[i] {
                Strategy::Prune => {
                    ladder.prune = Some(budgets.prune);
                },
                Strategy::BruteSquad => {
                    let gpu = if budgets.gpu {
                        Some(budgets.gpu_proposals)
                    } else {
                        None
                    };
                    ladder.sampler = Some(
                        Sampler { stream, proposals: budgets.proposals, threads: budgets.threads, gpu },
                    );
                },
                Strategy::HitAndRun => {
                    ladder.walker = Some(stream);
                },
                Strategy::LocalSolve => {
                    ladder.local = Some(stream);
                },
            }
        }
        ladder
    }

    /// Whether a walk will do most of the delivering, judged on the probe's hit
    /// rate. Without a walker there are no chains to place, and so nothing to
    /// cover for.
    pub fn walker_will_carry(&self, probe: &Trial) -> (yes: bool)
        ensures
            yes == will_carry(self.walker is Some, probe.points@.len() as int, probe.proposed as int),
    {
        match self.walker {
            Some(_) => (probe.points.len() as u128) * (EASY_PATH as u128) < probe.proposed as u128,
            None => false,
        }
    }
}

/// Whether the hits are fewer than one in [`EASY_PATH`] of the proposals, and
/// there is a walker.
pub open spec fn will_carry(walker: bool, landed: int, proposed: int) -> bool {
    walker && landed * EASY_PATH < proposed
}

/// A strategy's stream is a function of the generator and of where the strategy
/// is listed: lists that have it last at the same place give it the same one,
/// whatever else they list.
pub proof fn a_stream_is_of_its_place(
    state: Seq<u64>,
    strategies: Seq<Strategy>,
    others: Seq<Strategy>,
    strategy: Strategy,
)
    requires
        last_place(strategies, strategy, strategies.len() as int) == last_place(others, strategy, others.len() as int),
    ensures
        stream_of(state, strategies, strategy, strategies.len() as int) == stream_of(
            state,
            others,
            strategy,
            others.len() as int,
        ),
{
}

/// A round of proposals: how many, and those that were feasible.
#[derive(Debug)]
pub struct Trial {
    pub proposed: u64,
    pub points: Vec<Point>,
}

// ---- coverage ----

/// Whether one of the points is in a box.
pub open spec fn is_held(region: Region, held: Seq<Seq<Real>>) -> bool {
    exists|i: int| 0 <= i < held.len() && region.has_point(#[trigger] held[i])
}

/// The settled centres of the first leaves that hold no point in hand.
pub open spec fn settled_below(leaves: Seq<Standing>, held: Seq<Seq<Real>>, upto: int) -> Seq<Seq<Real>>
    decreases upto,
{
    if upto <= 0 {
        Seq::empty()
    } else {
        let before = settled_below(leaves, held, upto - 1);
        let leaf = leaves[upto - 1];
        if is_held(leaf.region, held) {
            before
        } else {
            match leaf.settled {
                Some(centre) => before.push(centre),
                None => before,
            }
        }
    }
}

/// The boxes of the first leaves that hold no point in hand and did not settle.
pub open spec fn unsettled_below(leaves: Seq<Standing>, held: Seq<Seq<Real>>, upto: int) -> Seq<Region>
    decreases upto,
{
    if upto <= 0 {
        Seq::empty()
    } else {
        let before = unsettled_below(leaves, held, upto - 1);
        let leaf = leaves[upto - 1];
        if is_held(leaf.region, held) || leaf.settled is Some {
            before
        } else {
            before.push(leaf.region)
        }
    }
}

/// How far a box's centre is from the nearest of the first points.
pub open spec fn remoteness(
    arithmetic: Arithmetic,
    widths: Seq<Real>,
    region: Region,
    known: Seq<Seq<Real>>,
    upto: int,
) -> Real
    decreases upto,
{
    if upto <= 0 {
        infinity()
    } else {
        let at = middles(arithmetic, region.bounds);
        remoteness(arithmetic, widths, region, known, upto - 1).lower(
            gaps(arithmetic, widths, at, known[upto - 1], at.len() as int),
        )
    }
}

/// The last of the first boxes that no other is more remote than.
pub open spec fn most_remote(
    arithmetic: Arithmetic,
    widths: Seq<Real>,
    boxes: Seq<Region>,
    known: Seq<Seq<Real>>,
    upto: int,
) -> int
    decreases upto,
{
    if upto <= 1 {
        0
    } else {
        let best = most_remote(arithmetic, widths, boxes, known, upto - 1);
        let here = remoteness(arithmetic, widths, boxes[upto - 1], known, known.len() as int);
        if here.rank() >= remoteness(arithmetic, widths, boxes[best], known, known.len() as int).rank() {
            upto - 1
        } else {
            best
        }
    }
}

/// Coverage under way: the boxes still to be solved in, and the seeds.
#[verifier::ext_equal]
pub ghost struct Covering {
    pub boxes: Seq<Region>,
    pub seeds: Seq<Seq<Real>>,
}

/// The next box to be solved in.
pub open spec fn next_box(arithmetic: Arithmetic, widths: Seq<Real>, state: Covering) -> int {
    most_remote(arithmetic, widths, state.boxes, state.seeds, state.boxes.len() as int)
}

/// Coverage after the first solves: each takes the most remote box, whose place
/// the last one takes, and adds its seed if it found one.
pub open spec fn covering(
    arithmetic: Arithmetic,
    widths: Seq<Real>,
    start: Covering,
    outcomes: Seq<Option<Seq<Real>>>,
    upto: int,
) -> Covering
    decreases upto,
{
    if upto <= 0 {
        start
    } else {
        let before = covering(arithmetic, widths, start, outcomes, upto - 1);
        let place = next_box(arithmetic, widths, before);
        Covering {
            boxes: before.boxes.update(place, before.boxes.last()).drop_last(),
            seeds: match outcomes[upto - 1] {
                Some(seed) => before.seeds.push(seed),
                None => before.seeds,
            },
        }
    }
}

/// How many boxes may be solved in.
pub open spec fn solves_allowed(boxes: nat) -> nat {
    if boxes < GAP_SEEDS {
        boxes
    } else {
        GAP_SEEDS as nat
    }
}

/// What coverage starts from.
pub open spec fn uncovered(leaves: Seq<Standing>, held: Seq<Seq<Real>>) -> Covering {
    Covering {
        boxes: unsettled_below(leaves, held, leaves.len() as int),
        seeds: settled_below(leaves, held, leaves.len() as int),
    }
}

/// Whether seeds are what coverage comes to: the settled centres of the leaves
/// that hold nothing in hand; and where nothing is in hand and there is a local
/// solve, what it finds in the others, the most remote first.
pub open spec fn is_covered<
    E: Evaluate,
    M: Machine,
    B: Fn(&Xoshiro256PlusPlus) -> (Real, Xoshiro256PlusPlus),
    F: Fn(&Seeding, &Vec<Real>, u64) -> Option<Point>,
    C: Fn() -> bool,
>(
    system: ConstraintSystem<E>,
    machine: M,
    unit: B,
    seed: F,
    cancelled: C,
    local: Option<Xoshiro256PlusPlus>,
    leaves: Seq<Standing>,
    held: Seq<Seq<Real>>,
    seeds: Seq<Seq<Real>>,
) -> bool {
    let arithmetic = arithmetic_of(machine);
    let widths = widths_of(system, arithmetic);
    let begin = uncovered(leaves, held);
    if held.len() == 0 && local is Some {
        exists|outcomes: Seq<Option<Seq<Real>>>|
            {
                &&& #[trigger] are_solves(system, machine, unit, seed, local->0, begin, outcomes)
                &&& outcomes.len() <= solves_allowed(begin.boxes.len())
                &&& outcomes.len() < solves_allowed(begin.boxes.len()) ==> call_ensures(cancelled, (), true)
                &&& seeds == covering(arithmetic, widths, begin, outcomes, outcomes.len() as int).seeds
            }
    } else {
        seeds == begin.seeds
    }
}

/// Whether outcomes are what local solves in the boxes, taken in turn, found, each
/// from the middle of its box: nothing is drawn from the generator.
pub open spec fn are_solves<
    E: Evaluate,
    M: Machine,
    B: Fn(&Xoshiro256PlusPlus) -> (Real, Xoshiro256PlusPlus),
    F: Fn(&Seeding, &Vec<Real>, u64) -> Option<Point>,
>(
    system: ConstraintSystem<E>,
    machine: M,
    unit: B,
    seed: F,
    rng: Xoshiro256PlusPlus,
    begin: Covering,
    outcomes: Seq<Option<Seq<Real>>>,
) -> bool {
    let arithmetic = arithmetic_of(machine);
    let widths = widths_of(system, arithmetic);
    forall|k: int|
        0 <= k < outcomes.len() ==> {
            let state = covering(arithmetic, widths, begin, outcomes, k);
            solves_to(
                system,
                machine,
                state.boxes[next_box(arithmetic, widths, state)].bounds,
                1,
                unit,
                seed,
                rng,
                #[trigger] outcomes[k],
                rng,
            )
        }
}

/// Whether a seed is what a local solve in a box comes to from a generator, and
/// leaves it.
pub open spec fn solves_to<
    E: Evaluate,
    M: Machine,
    B: Fn(&Xoshiro256PlusPlus) -> (Real, Xoshiro256PlusPlus),
    F: Fn(&Seeding, &Vec<Real>, u64) -> Option<Point>,
>(
    system: ConstraintSystem<E>,
    machine: M,
    bounds: Seq<Interval>,
    starts: int,
    unit: B,
    seed: F,
    before: Xoshiro256PlusPlus,
    found: Option<Seq<Real>>,
    after: Xoshiro256PlusPlus,
) -> bool {
    if system.variables@.len() == 0 {
        found is None && after == before
    } else {
        is_found(system, machine, bounds, starts, unit, seed, before, found, after)
    }
}

fn holds(node: &Node, held: &Vec<Point>) -> (yes: bool)
    ensures
        yes == is_held(node@, points(held@)),
{
    for i in 0..held.len()
        invariant
            forall|j: int| 0 <= j < i ==> !node@.has_point(#[trigger] points(held@)[j]),
    {
        if node.contains(&held[i]) {
            assert(node@.has_point(points(held@)[i as int]));
            return true;
        }
        assert(!node@.has_point(points(held@)[i as int]));
    }
    false
}

/// Whether every point is over so many coordinates.
pub open spec fn all_fit(list: Seq<Point>, coordinates: nat) -> bool {
    forall|i: int| 0 <= i < list.len() ==> (#[trigger] list[i])@.len() == coordinates
}

fn spread<M: Machine>(machine: &M, widths: &Vec<Real>, a: &Vec<Real>, b: &Vec<Real>) -> (sum: Real)
    requires
        a@.len() == b@.len() == widths@.len(),
    ensures
        deterministic(*machine) ==> sum == gaps(arithmetic_of(*machine), widths@, a@, b@, a@.len() as int),
{
    let mut sum = zero();
    for k in 0..a.len()
        invariant
            a@.len() == b@.len() == widths@.len(),
            deterministic(*machine) ==> sum == gaps(arithmetic_of(*machine), widths@, a@, b@, k as int),
    {
        let term = if zero().lt(widths[k]) {
            let fraction = crate::machine::over(machine, crate::machine::minus(machine, a[k], b[k]), widths[k]);
            crate::machine::times(machine, fraction, fraction)
        } else {
            zero()
        };
        sum = crate::machine::plus(machine, sum, term);
    }
    sum
}

fn remote<E, M: Machine>(
    system: &ConstraintSystem<E>,
    machine: &M,
    widths: &Vec<Real>,
    node: &Node,
    known: &Vec<Point>,
) -> (far: Real)
    requires
        node@.is_of(system.variables@.len() as int, system.constraints@.len() as int),
        widths@.len() == system.variables@.len(),
        all_fit(known@, system.variables@.len()),
    ensures
        deterministic(*machine) ==> far == remoteness(
            arithmetic_of(*machine),
            widths@,
            node@,
            points(known@),
            known@.len() as int,
        ),
{
    let at = node.centre(machine);
    let mut far = infinity();
    for i in 0..known.len()
        invariant
            at@.len() == system.variables@.len(),
            deterministic(*machine) ==> at@ == middles(arithmetic_of(*machine), node@.bounds),
            widths@.len() == system.variables@.len(),
            all_fit(known@, system.variables@.len()),
            deterministic(*machine) ==> far == remoteness(
                arithmetic_of(*machine),
                widths@,
                node@,
                points(known@),
                i as int,
            ),
    {
        assert(points(known@)[i as int] == known@[i as int]@);
        far = far.min(spread(machine, widths, &at, &known[i]));
    }
    far
}

/// Whether every box is over a system's coordinates.
pub open spec fn are_boxes_of<E>(list: Seq<Node>, system: ConstraintSystem<E>) -> bool {
    forall|k: int|
        0 <= k < list.len() ==> (#[trigger] list[k])@.is_of(
            system.variables@.len() as int,
            system.constraints@.len() as int,
        )
}

fn farthest<E, M: Machine>(
    system: &ConstraintSystem<E>,
    machine: &M,
    widths: &Vec<Real>,
    boxes: &Vec<Node>,
    known: &Vec<Point>,
) -> (place: usize)
    requires
        are_boxes_of(boxes@, *system),
        boxes@.len() > 0,
        widths@.len() == system.variables@.len(),
        all_fit(known@, system.variables@.len()),
    ensures
        place < boxes@.len(),
        deterministic(*machine) ==> place == most_remote(
            arithmetic_of(*machine),
            widths@,
            regions(boxes@),
            points(known@),
            boxes@.len() as int,
        ),
{
    let ghost arithmetic = arithmetic_of(*machine);
    assert(boxes@[0]@ == regions(boxes@)[0]);
    let mut place: usize = 0;
    let mut best = remote(system, machine, widths, &boxes[0], known);
    assert(points(known@).len() == known@.len());
    for i in 1..boxes.len()
        invariant
            are_boxes_of(boxes@, *system),
            widths@.len() == system.variables@.len(),
            all_fit(known@, system.variables@.len()),
            points(known@).len() == known@.len(),
            arithmetic == arithmetic_of(*machine),
            place < i,
            place < boxes@.len(),
            deterministic(*machine) ==> place == most_remote(
                arithmetic,
                widths@,
                regions(boxes@),
                points(known@),
                i as int,
            ),
            deterministic(*machine) ==> best == remoteness(
                arithmetic,
                widths@,
                regions(boxes@)[place as int],
                points(known@),
                known@.len() as int,
            ),
    {
        assert(boxes@[i as int]@ == regions(boxes@)[i as int]);
        let here = remote(system, machine, widths, &boxes[i], known);
        if !here.ranks_before(best) {
            place = i;
            best = here;
        }
    }
    place
}

/// Seeds from the leaves of a bisection: the pieces of the region the search
/// has not reached. A leaf holding a point in hand is a piece already known; a
/// settled leaf's centre is a seed as it stands; and the others are solved in
/// only where nothing at all is in hand.
#[verifier::rlimit(60)]
pub fn cover<
    E: Evaluate,
    M: Machine,
    B: Fn(&Xoshiro256PlusPlus) -> (Real, Xoshiro256PlusPlus),
    F: Fn(&Seeding, &Vec<Real>, u64) -> Option<Point>,
    C: Fn() -> bool,
>(
    problem: &ConstraintSystem<E>,
    machine: &M,
    unit: &B,
    seed: &F,
    cancelled: &C,
    local: &mut Option<Xoshiro256PlusPlus>,
    leaves: Vec<Leaf>,
    held: &Vec<Point>,
) -> (seeds: Vec<Point>)
    requires
        problem.well_formed(),
        are_leaves_of(leaves@, *problem),
        forall|generator: &Xoshiro256PlusPlus| #[trigger] call_requires(*unit, (generator,)),
        forall|landing: &Seeding, from: &Vec<Real>, budget: u64| #[trigger] call_requires(*seed, (landing, from, budget)),
        call_requires(*cancelled, ()),
    ensures
        all_fit(seeds@, problem.variables@.len()),
        *final(local) == *old(local),
        deterministic(*machine) && problem.judged() ==> is_covered(
            *problem,
            *machine,
            *unit,
            *seed,
            *cancelled,
            *old(local),
            standings(leaves@),
            points(held@),
            points(seeds@),
        ),
{
    let ghost known = deterministic(*machine) && problem.judged();
    let ghost arithmetic = arithmetic_of(*machine);
    let ghost all = standings(leaves@);
    let ghost near = points(held@);
    let count: usize = leaves.len();
    let mut leaves = leaves;
    let mut seeds: Vec<Point> = Vec::new();
    let mut boxes: Vec<Node> = Vec::new();
    assert(points(seeds@) =~= Seq::<Seq<Real>>::empty());
    assert(regions(boxes@) =~= Seq::<Region>::empty());
    for i in 0..count
        invariant
            problem.well_formed(),
            are_leaves_of(leaves@, *problem),
            near == points(held@),
            count == all.len(),
            leaves@.len() == count - i,
            standings(leaves@) == all.skip(i as int),
            all_fit(seeds@, problem.variables@.len()),
            are_boxes_of(boxes@, *problem),
            points(seeds@) == settled_below(all, near, i as int),
            regions(boxes@) == unsettled_below(all, near, i as int),
    {
        let ghost before = leaves@;
        let ghost had = seeds@;
        let ghost kept = boxes@;
        assert(before[0]@ == standings(before)[0]);
        assert(all.skip(i as int)[0] == all[i as int]);
        let leaf = leaves.remove(0);
        proof {
            assert(standings(leaves@) =~= standings(before).skip(1));
            assert(all.skip(i as int).skip(1) =~= all.skip(i + 1));
            assert forall|k: int| 0 <= k < leaves@.len() implies {
                &&& (#[trigger] leaves@[k]).node@.is_of(
                    problem.variables@.len() as int,
                    problem.constraints@.len() as int,
                )
                &&& leaves@[k].settled matches Some(point) ==> problem.fits(point@)
            } by {
                assert(leaves@[k] == before[k + 1]);
            }
        }
        if !holds(&leaf.node, held) {
            let Leaf { node, settled } = leaf;
            match settled {
                Some(centre) => {
                    seeds.push(centre);
                    assert(points(seeds@) =~= points(had).push(centre@));
                    assert forall|k: int| 0 <= k < seeds@.len() implies (#[trigger] seeds@[k])@.len()
                        == problem.variables@.len() by {
                        if k < had.len() {
                            assert(seeds@[k] == had[k]);
                        }
                    }
                },
                None => {
                    boxes.push(node);
                    assert(regions(boxes@) =~= regions(kept).push(node@));
                    assert forall|k: int| 0 <= k < boxes@.len() implies (#[trigger] boxes@[k])@.is_of(
                        problem.variables@.len() as int,
                        problem.constraints@.len() as int,
                    ) by {
                        if k < kept.len() {
                            assert(boxes@[k] == kept[k]);
                        }
                    }
                },
            }
        }
    }
    let ghost begin = uncovered(all, near);
    assert(begin.boxes.len() == boxes@.len());
    if held.len() > 0 || local.is_none() {
        return seeds;
    }
    let mut rng = local.take().unwrap();
    let ghost stream = rng;
    let widths = crate::repair::widths(problem, machine);
    let ghost mut outcomes: Seq<Option<Seq<Real>>> = Seq::empty();
    let mut remaining: usize = GAP_SEEDS;
    let mut open: bool = true;
    assert(covering(arithmetic, widths@, begin, outcomes, 0) == begin);
    while open && remaining > 0 && boxes.len() > 0
        invariant
            problem.well_formed(),
            forall|generator: &Xoshiro256PlusPlus| #[trigger] call_requires(*unit, (generator,)),
            forall|landing: &Seeding, from: &Vec<Real>, budget: u64| #[trigger]
                call_requires(*seed, (landing, from, budget)),
            call_requires(*cancelled, ()),
            known == (deterministic(*machine) && problem.judged()),
            arithmetic == arithmetic_of(*machine),
            widths@.len() == problem.variables@.len(),
            deterministic(*machine) ==> widths@ == widths_of(*problem, arithmetic),
            all_fit(seeds@, problem.variables@.len()),
            are_boxes_of(boxes@, *problem),
            remaining <= GAP_SEEDS,
            outcomes.len() == GAP_SEEDS - remaining,
            begin.boxes.len() == boxes@.len() + outcomes.len(),
            rng == stream,
            known ==> are_solves(*problem, *machine, *unit, *seed, stream, begin, outcomes),
            known ==> covering(arithmetic, widths@, begin, outcomes, outcomes.len() as int) == (Covering {
                boxes: regions(boxes@),
                seeds: points(seeds@),
            }),
            !open ==> call_ensures(*cancelled, (), true),
        decreases remaining + if open {
            1int
        } else {
            0
        },
    {
        if cancelled() {
            open = false;
        } else {
            let place = farthest(problem, machine, &widths, &boxes, &seeds);
            let ghost before = boxes@;
            let ghost had = seeds@;
            let ghost past = outcomes;
            assert(regions(before)[place as int] == before[place as int]@);
            let node = boxes.swap_remove(place);
            remaining = remaining - 1;
            let found = find_initial(problem, machine, &node.bounds, 1, &mut rng, unit, seed);
            proof {
                assert(boxes@ =~= before.update(place as int, before.last()).drop_last());
                assert(regions(boxes@) =~= regions(before).update(place as int, regions(before).last()).drop_last());
                assert forall|k: int| 0 <= k < boxes@.len() implies (#[trigger] boxes@[k])@.is_of(
                    problem.variables@.len() as int,
                    problem.constraints@.len() as int,
                ) by {
                    assert(boxes@[k] == before[k] || boxes@[k] == before[before.len() - 1]);
                }
                outcomes = outcomes.push(outcome_of(found));
                if known {
                    assert forall|k: int| 0 <= k <= past.len() implies #[trigger] covering(
                        arithmetic,
                        widths@,
                        begin,
                        outcomes,
                        k,
                    ) == covering(arithmetic, widths@, begin, past, k) by {
                        earlier_covering_stays(arithmetic, widths@, begin, past, outcomes, k);
                    }
                    assert forall|k: int| 0 <= k < outcomes.len() implies {
                        let state = covering(arithmetic, widths@, begin, outcomes, k);
                        solves_to(
                            *problem,
                            *machine,
                            state.boxes[next_box(arithmetic, widths@, state)].bounds,
                            1,
                            *unit,
                            *seed,
                            stream,
                            #[trigger] outcomes[k],
                            stream,
                        )
                    } by {
                        let state = covering(arithmetic, widths@, begin, outcomes, k);
                        if k < past.len() {
                            assert(outcomes[k] == past[k]);
                        } else {
                            assert(state == (Covering { boxes: regions(before), seeds: points(had) }));
                        }
                    }
                }
            }
            if let Some(point) = found {
                seeds.push(point);
                assert(points(seeds@) =~= points(had).push(point@));
                assert forall|k: int| 0 <= k < seeds@.len() implies (#[trigger] seeds@[k])@.len()
                    == problem.variables@.len() by {
                    if k < had.len() {
                        assert(seeds@[k] == had[k]);
                    }
                }
            }
        }
    }
    *local = Some(rng);
    seeds
}

proof fn earlier_covering_stays(
    arithmetic: Arithmetic,
    widths: Seq<Real>,
    begin: Covering,
    outcomes: Seq<Option<Seq<Real>>>,
    longer: Seq<Option<Seq<Real>>>,
    upto: int,
)
    requires
        upto <= outcomes.len() <= longer.len(),
        forall|i: int| 0 <= i < outcomes.len() ==> (#[trigger] longer[i]) == outcomes[i],
    ensures
        covering(arithmetic, widths, begin, longer, upto) == covering(arithmetic, widths, begin, outcomes, upto),
    decreases upto,
{
    if upto > 0 {
        earlier_covering_stays(arithmetic, widths, begin, outcomes, longer, upto - 1);
        assert(longer[upto - 1] == outcomes[upto - 1]);
    }
}

// ---- the opening ----

/// What a search concluded while looking for its first point.
#[derive(Debug)]
pub enum Opening {
    /// At least one point is in hand.
    Satisfied,
    /// Interval reasoning proved the region empty, and these constraints show
    /// it.
    Impossible { blamed: Vec<usize> },
    /// Nothing found and nothing proved; nothing could be concluded from these
    /// constraints.
    Unproven { unexpressed: Vec<usize> },
    /// Interval reasoning claims the region is empty with a point of it in
    /// hand, which only an enclosure that does not enclose can do.
    Contradicted { blamed: Vec<usize> },
}

/// A conclusion, as integers.
pub ghost enum Verdict {
    Satisfied,
    Impossible(Seq<int>),
    Unproven(Seq<int>),
    Contradicted(Seq<int>),
}

impl View for Opening {
    type V = Verdict;

    open spec fn view(&self) -> Verdict {
        match self {
            Opening::Satisfied => Verdict::Satisfied,
            Opening::Impossible { blamed } => Verdict::Impossible(integers(blamed@)),
            Opening::Unproven { unexpressed } => Verdict::Unproven(integers(unexpressed@)),
            Opening::Contradicted { blamed } => Verdict::Contradicted(integers(blamed@)),
        }
    }
}

/// Whether every constraint a conclusion names is one of so many.
pub open spec fn names_constraints(opening: Opening, constraints: int) -> bool {
    match opening {
        Opening::Satisfied => true,
        Opening::Impossible { blamed } => forall|k: int| 0 <= k < blamed@.len() ==> (#[trigger] blamed@[k]) < constraints,
        Opening::Unproven { unexpressed } => forall|k: int|
            0 <= k < unexpressed@.len() ==> (#[trigger] unexpressed@[k]) < constraints,
        Opening::Contradicted { blamed } => forall|k: int|
            0 <= k < blamed@.len() ==> (#[trigger] blamed@[k]) < constraints,
    }
}

/// Whether a conclusion that the region is empty blames some of so many
/// constraints: at least one, in ascending order.
pub open spec fn blames_some(opening: Opening, constraints: int) -> bool {
    match opening {
        Opening::Impossible { blamed } => names_some(blamed@, constraints),
        Opening::Contradicted { blamed } => names_some(blamed@, constraints),
        _ => true,
    }
}

/// Which strategies there are.
pub ghost struct Rungs {
    pub sampler: bool,
    pub walker: bool,
    pub local: bool,
    pub prune: Option<u32>,
}

impl Ladder {
    /// Whether another ladder is this one, but for what its streams have had drawn
    /// from them.
    pub open spec fn is_but_for_draws(&self, other: Ladder) -> bool {
        &&& match (self.sampler, other.sampler) {
            (Some(sampler), Some(left)) => left == (Sampler { stream: left.stream, ..sampler }),
            (None, None) => true,
            _ => false,
        }
        &&& other.walker is Some <==> self.walker is Some
        &&& other.local is Some <==> self.local is Some
        &&& other.prune == self.prune
    }

    pub open spec fn rungs(&self) -> Rungs {
        Rungs {
            sampler: self.sampler is Some,
            walker: self.walker is Some,
            local: self.local is Some,
            prune: self.prune,
        }
    }
}

/// What those who are asked answered: the probe, the local solve over the
/// declared box, the cancellation between boxes, the coverage of the leaves and
/// the brute squad; with the sampler as the probe and the brute squad left it,
/// and the stream as the local solve did.
pub ghost struct Findings {
    pub probed: Seq<Seq<Real>>,
    pub proposed: int,
    pub sampler: Option<Sampler>,
    pub seeded: Option<Seq<Real>>,
    pub local: Option<Xoshiro256PlusPlus>,
    pub answers: Seq<bool>,
    pub pieces: Seq<Seq<Real>>,
    pub brute: Seq<Seq<Real>>,
    pub sampled: Option<Sampler>,
}

/// No marks.
pub open spec fn unmarked(count: nat) -> Seq<bool> {
    Seq::new(count, |c: int| false)
}

/// The unmarked indices below `upto`, ascending.
pub open spec fn unmarked_below(marks: Seq<bool>, upto: int) -> Seq<int>
    decreases upto,
{
    if upto <= 0 {
        Seq::empty()
    } else if marks[upto - 1] {
        unmarked_below(marks, upto - 1)
    } else {
        unmarked_below(marks, upto - 1).push(upto - 1)
    }
}

/// What a proof that the region is empty concludes with points in hand.
pub open spec fn refuted(blamed: Seq<int>, held: Seq<Seq<Real>>) -> Verdict {
    if held.len() == 0 {
        Verdict::Impossible(blamed)
    } else {
        Verdict::Contradicted(blamed)
    }
}

/// How an opening ended: its conclusion and the points in hand.
pub ghost struct Opened {
    pub verdict: Verdict,
    pub points: Seq<Seq<Real>>,
}

/// The points in hand after the probe.
pub open spec fn after_probe(rungs: Rungs, held: Seq<Seq<Real>>, findings: Findings) -> Seq<Seq<Real>> {
    if rungs.sampler {
        held + findings.probed
    } else {
        held
    }
}

/// Whether a walk will carry the search.
pub open spec fn carries(rungs: Rungs, findings: Findings) -> bool {
    if rungs.sampler {
        will_carry(rungs.walker, findings.probed.len() as int, findings.proposed)
    } else {
        rungs.walker
    }
}

/// Whether a first point is looked for by a local solve.
pub open spec fn is_seed_due(rungs: Rungs, held: Seq<Seq<Real>>, findings: Findings) -> bool {
    after_probe(rungs, held, findings).len() == 0 && rungs.local
}

/// The points in hand after the local solve.
pub open spec fn after_seed(rungs: Rungs, held: Seq<Seq<Real>>, findings: Findings) -> Seq<Seq<Real>> {
    let before = after_probe(rungs, held, findings);
    match findings.seeded {
        Some(point) => if is_seed_due(rungs, held, findings) {
            before.push(point)
        } else {
            before
        },
        None => before,
    }
}

/// The contraction of the declared box.
pub open spec fn rooted<E>(system: ConstraintSystem<E>, enclosures: Enclosures, arithmetic: Arithmetic) -> Contraction {
    contracted(
        system,
        enclosures,
        arithmetic,
        declared_region(system),
        unmarked(system.constraints@.len()),
    )
}

/// Whether the box is bisected: nothing is in hand, or a walk will carry the
/// search and needs a seed in every piece.
pub open spec fn is_split_due(rungs: Rungs, held: Seq<Seq<Real>>, findings: Findings) -> bool {
    rungs.prune is Some && (after_seed(rungs, held, findings).len() == 0 || carries(rungs, findings))
}

/// The bisection of the contracted box.
pub open spec fn split<E: Evaluate>(
    system: ConstraintSystem<E>,
    enclosures: Enclosures,
    arithmetic: Arithmetic,
    rungs: Rungs,
    findings: Findings,
) -> Bisection {
    let root = rooted(system, enclosures, arithmetic);
    bisected(
        system,
        enclosures,
        arithmetic,
        root.region,
        rungs.prune->0 as int,
        root.contributed,
        findings.answers,
    )
}

/// How the opening ends once nothing is proved: with the brute squad, if there
/// is nothing in hand still.
pub open spec fn closed(rungs: Rungs, points: Seq<Seq<Real>>, contributed: Seq<bool>, findings: Findings) -> Opened {
    let all = if points.len() == 0 && rungs.sampler {
        findings.brute
    } else {
        points
    };
    if all.len() > 0 {
        Opened { verdict: Verdict::Satisfied, points: all }
    } else {
        Opened { verdict: Verdict::Unproven(unmarked_below(contributed, contributed.len() as int)), points: all }
    }
}

/// The opening, given what those who are asked answered: contract, probe, local
/// solve, bisect, brute force.
pub open spec fn opened<E: Evaluate>(
    system: ConstraintSystem<E>,
    enclosures: Enclosures,
    arithmetic: Arithmetic,
    rungs: Rungs,
    held: Seq<Seq<Real>>,
    findings: Findings,
) -> Opened {
    let root = rooted(system, enclosures, arithmetic);
    let constraints = system.constraints@.len();
    let seeded = after_seed(rungs, held, findings);
    let end = split(system, enclosures, arithmetic, rungs, findings);
    let said = if rungs.prune is Some {
        root.contributed
    } else {
        unmarked(constraints)
    };
    if rungs.prune is Some && root.dead is Some {
        let (culprit, row) = root.dead->0;
        Opened {
            verdict: refuted(listed(blame_of(system, root.region.history, culprit, row), constraints), held),
            points: held,
        }
    } else if !is_split_due(rungs, held, findings) {
        closed(rungs, seeded, said, findings)
    } else if end.leaves.len() == 0 {
        Opened { verdict: refuted(marked_below(end.blamed, end.blamed.len() as int), seeded), points: seeded }
    } else {
        closed(rungs, seeded + findings.pieces, end.contributed, findings)
    }
}

/// Who an opening asks: the probe, the brute squad, a draw from the unit interval
/// and the local solve of a seed, and whether the caller is still there. Whoever
/// draws hands back the generator as it stands after.
#[derive(Debug)]
pub struct Squad<P, Q, B, F, C> {
    pub probe: P,
    pub brute: Q,
    pub unit: B,
    pub seed: F,
    pub cancelled: C,
}

/// Whether everyone can be asked.
pub open spec fn can_search<
    P: Fn(&Sampler) -> (Trial, Xoshiro256PlusPlus),
    Q: Fn(&Sampler) -> (Trial, Xoshiro256PlusPlus),
    B: Fn(&Xoshiro256PlusPlus) -> (Real, Xoshiro256PlusPlus),
    F: Fn(&Seeding, &Vec<Real>, u64) -> Option<Point>,
    C: Fn() -> bool,
>(squad: Squad<P, Q, B, F, C>) -> bool {
    &&& forall|sampler: &Sampler| #[trigger] call_requires(squad.probe, (sampler,))
    &&& forall|sampler: &Sampler| #[trigger] call_requires(squad.brute, (sampler,))
    &&& forall|generator: &Xoshiro256PlusPlus| #[trigger] call_requires(squad.unit, (generator,))
    &&& forall|landing: &Seeding, from: &Vec<Real>, budget: u64| #[trigger]
        call_requires(squad.seed, (landing, from, budget))
    &&& call_requires(squad.cancelled, ())
}

/// Whether points are those of an answer that satisfy the system, so many were
/// proposed, and the sampler is left so.
pub open spec fn is_trial<E: Evaluate, P: Fn(&Sampler) -> (Trial, Xoshiro256PlusPlus)>(
    system: ConstraintSystem<E>,
    ask: P,
    before: Sampler,
    proposed: int,
    found: Seq<Seq<Real>>,
    after: Sampler,
) -> bool {
    &&& after == (Sampler { stream: after.stream, ..before })
    &&& exists|trial: Trial|
        {
            &&& #[trigger] call_ensures(ask, (&before,), (trial, after.stream))
            &&& proposed == trial.proposed
            &&& found == system.survivors(points(trial.points@))
        }
}

/// Whether findings are what those who are asked answered, each where it is
/// asked, from this ladder.
pub open spec fn are_findings<
    E: Evaluate,
    I: Intervals,
    M: Machine,
    P: Fn(&Sampler) -> (Trial, Xoshiro256PlusPlus),
    Q: Fn(&Sampler) -> (Trial, Xoshiro256PlusPlus),
    B: Fn(&Xoshiro256PlusPlus) -> (Real, Xoshiro256PlusPlus),
    F: Fn(&Seeding, &Vec<Real>, u64) -> Option<Point>,
    C: Fn() -> bool,
>(
    system: ConstraintSystem<E>,
    intervals: I,
    machine: M,
    squad: Squad<P, Q, B, F, C>,
    ladder: Ladder,
    held: Seq<Seq<Real>>,
    findings: Findings,
) -> bool {
    let rungs = ladder.rungs();
    let enclosures = enclosures_of(intervals);
    let arithmetic = arithmetic_of(machine);
    let root = rooted(system, enclosures, arithmetic);
    let seeded = after_seed(rungs, held, findings);
    let end = split(system, enclosures, arithmetic, rungs, findings);
    let covered = if is_split_due(rungs, held, findings) {
        seeded + findings.pieces
    } else {
        seeded
    };
    let brute = (is_split_due(rungs, held, findings) ==> end.leaves.len() > 0) && covered.len() == 0 && rungs.sampler;
    if rungs.prune is Some && root.dead is Some {
        findings.local == ladder.local && findings.sampled == ladder.sampler
    } else {
        &&& rungs.sampler ==> findings.sampler is Some && is_trial(
            system,
            squad.probe,
            ladder.sampler->0,
            findings.proposed,
            findings.probed,
            findings.sampler->0,
        )
        &&& !rungs.sampler ==> findings.sampler is None
        &&& is_seed_due(rungs, held, findings) ==> findings.local is Some && solves_to(
            system,
            machine,
            ranges(system.variables@),
            STARTS as int,
            squad.unit,
            squad.seed,
            ladder.local->0,
            findings.seeded,
            findings.local->0,
        )
        &&& !is_seed_due(rungs, held, findings) ==> findings.local == ladder.local
        &&& is_split_due(rungs, held, findings) ==> {
            &&& were_answered(squad.cancelled, findings.answers)
            &&& end.looked == findings.answers.len()
            &&& end.queue.len() == 0
        }
        &&& is_split_due(rungs, held, findings) && end.leaves.len() > 0 ==> is_covered(
            system,
            machine,
            squad.unit,
            squad.seed,
            squad.cancelled,
            findings.local,
            end.leaves,
            seeded,
            findings.pieces,
        )
        &&& brute ==> findings.sampled is Some && exists|proposed: int| #[trigger]
            is_trial(
                system,
                squad.brute,
                findings.sampler->0,
                proposed,
                findings.brute,
                findings.sampled->0,
            )
        &&& !brute ==> findings.sampled == findings.sampler
    }
}

/// The ladder an opening leaves, given what those who were asked answered.
pub open spec fn left_by(ladder: Ladder, findings: Findings) -> Ladder {
    Ladder { sampler: findings.sampled, local: findings.local, ..ladder }
}

fn judged<E: Evaluate, P: Fn(&Sampler) -> (Trial, Xoshiro256PlusPlus)>(
    problem: &ConstraintSystem<E>,
    ask: &P,
    sampler: &mut Sampler,
) -> (trial: Trial)
    requires
        forall|asked: &Sampler| #[trigger] call_requires(*ask, (asked,)),
    ensures
        all_fit(trial.points@, problem.variables@.len()),
        *final(sampler) == (Sampler { stream: final(sampler).stream, ..*old(sampler) }),
        problem.judged() ==> is_trial(
            *problem,
            *ask,
            *old(sampler),
            trial.proposed as int,
            points(trial.points@),
            *final(sampler),
        ),
{
    let ghost before = *sampler;
    let (answer, after) = ask(&*sampler);
    sampler.stream = after;
    let found = problem.feasible_columns(&answer.points);
    assert(call_ensures(*ask, (&before,), (answer, sampler.stream)));
    Trial { proposed: answer.proposed, points: found }
}

fn hold_all(held: &mut Vec<Point>, more: Vec<Point>, coordinates: usize)
    requires
        all_fit(old(held)@, coordinates as nat),
        all_fit(more@, coordinates as nat),
    ensures
        all_fit(final(held)@, coordinates as nat),
        points(final(held)@) == points(old(held)@) + points(more@),
{
    let ghost first = held@;
    let ghost second = more@;
    let mut more = more;
    held.append(&mut more);
    proof {
        assert(held@ =~= first + second);
        assert(points(held@) =~= points(first) + points(second));
        assert forall|i: int| 0 <= i < held@.len() implies (#[trigger] held@[i])@.len() == coordinates by {
            if i < first.len() {
                assert(held@[i] == first[i]);
            } else {
                assert(held@[i] == second[i - first.len()]);
            }
        }
    }
}

fn list_unmarked(marks: &Vec<bool>) -> (list: Vec<usize>)
    ensures
        integers(list@) == unmarked_below(marks@, marks@.len() as int),
        forall|k: int| 0 <= k < list@.len() ==> (#[trigger] list@[k]) < marks@.len(),
{
    let mut list: Vec<usize> = Vec::new();
    assert(integers(list@) =~= Seq::<int>::empty());
    for c in 0..marks.len()
        invariant
            integers(list@) == unmarked_below(marks@, c as int),
            forall|k: int| 0 <= k < list@.len() ==> (#[trigger] list@[k]) < c,
    {
        if !marks[c] {
            let ghost before = list@;
            list.push(c);
            assert(integers(list@) =~= integers(before).push(c as int));
        }
    }
    list
}

fn refute(blamed: Vec<usize>, held: &Vec<Point>) -> (opening: Opening)
    ensures
        opening@ == refuted(integers(blamed@), points(held@)),
        forall|constraints: int|
            #[trigger] names_some(blamed@, constraints) ==> names_constraints(opening, constraints) && blames_some(
                opening,
                constraints,
            ),
{
    if held.len() == 0 {
        Opening::Impossible { blamed }
    } else {
        Opening::Contradicted { blamed }
    }
}

/// The opening: contract, probe, local solve, bisect, brute force, in that
/// order. Each runs only if the ones before it left nothing in hand, except the
/// bisection, which also runs for coverage where a walk will carry the search.
/// `Satisfied` means that at least one feasible point is in hand.
#[verifier::rlimit(60)]
pub fn open<
    E: Evaluate,
    I: Intervals,
    M: Machine,
    P: Fn(&Sampler) -> (Trial, Xoshiro256PlusPlus),
    Q: Fn(&Sampler) -> (Trial, Xoshiro256PlusPlus),
    B: Fn(&Xoshiro256PlusPlus) -> (Real, Xoshiro256PlusPlus),
    F: Fn(&Seeding, &Vec<Real>, u64) -> Option<Point>,
    C: Fn() -> bool,
>(
    problem: &ConstraintSystem<E>,
    intervals: &I,
    machine: &M,
    squad: &Squad<P, Q, B, F, C>,
    ladder: &mut Ladder,
    held: Vec<Point>,
) -> (end: (Opening, Vec<Point>))
    requires
        problem.well_formed(),
        can_search(*squad),
        all_fit(held@, problem.variables@.len()),
    ensures
        old(ladder).is_but_for_draws(*final(ladder)),
        all_fit(end.1@, problem.variables@.len()),
        names_constraints(end.0, problem.constraints@.len() as int),
        blames_some(end.0, problem.constraints@.len() as int),
        end.0 is Satisfied || end.0 is Contradicted <==> end.1@.len() > 0,
        points(held@).is_prefix_of(points(end.1@)),
        is_known(*problem, *intervals, *machine) ==> exists|findings: Findings|
            {
                &&& #[trigger] are_findings(
                    *problem,
                    *intervals,
                    *machine,
                    *squad,
                    *old(ladder),
                    points(held@),
                    findings,
                )
                &&& *final(ladder) == left_by(*old(ladder), findings)
                &&& (Opened { verdict: end.0@, points: points(end.1@) }) == opened(
                    *problem,
                    enclosures_of(*intervals),
                    arithmetic_of(*machine),
                    old(ladder).rungs(),
                    points(held@),
                    findings,
                )
            },
{
    let ghost known = is_known(*problem, *intervals, *machine);
    let ghost enclosures = enclosures_of(*intervals);
    let ghost arithmetic = arithmetic_of(*machine);
    let ghost rungs = ladder.rungs();
    let ghost before = *ladder;
    let ghost first = points(held@);
    let ghost rooted_at = rooted(*problem, enclosures, arithmetic);
    let ghost mut findings = Findings {
        probed: Seq::empty(),
        proposed: 0,
        sampler: ladder.sampler,
        seeded: None,
        local: ladder.local,
        answers: Seq::empty(),
        pieces: Seq::empty(),
        brute: Seq::empty(),
        sampled: ladder.sampler,
    };
    let dimensions: usize = problem.variables.len();
    let mut contributed: Vec<bool> = vec![false; problem.constraints.len()];
    assert(contributed@ =~= unmarked(problem.constraints@.len()));
    let mut held = held;
    let mut root: Option<Node> = None;
    if ladder.prune.is_some() {
        match contract(problem, intervals, machine, Node::declared(problem), &mut contributed) {
            Contracted::Empty { blamed } => {
                assert(known ==> are_findings(*problem, *intervals, *machine, *squad, before, first, findings));
                return (refute(blamed, &held), held);
            },
            Contracted::Live(node) => {
                root = Some(node);
            },
        }
    }
    let mut carry = ladder.walker.is_some();
    if ladder.sampler.is_some() {
        let mut sampler = ladder.sampler.take().unwrap();
        let probe = judged(problem, &squad.probe, &mut sampler);
        ladder.sampler = Some(sampler);
        carry = ladder.walker_will_carry(&probe);
        proof {
            findings = Findings {
                probed: points(probe.points@),
                proposed: probe.proposed as int,
                sampler: ladder.sampler,
                sampled: ladder.sampler,
                ..findings
            };
        }
        hold_all(&mut held, probe.points, dimensions);
    }
    assert(first.is_prefix_of(points(held@)));
    assert(points(held@) == after_probe(rungs, first, findings));
    assert(carry == carries(rungs, findings));
    if held.len() == 0 && ladder.local.is_some() {
        let bounds = problem.declared();
        let mut rng = ladder.local.take().unwrap();
        let found = find_initial(problem, machine, &bounds, STARTS, &mut rng, &squad.unit, &squad.seed);
        ladder.local = Some(rng);
        proof {
            findings = Findings { seeded: outcome_of(found), local: ladder.local, ..findings };
        }
        if let Some(point) = found {
            let ghost had = held@;
            held.push(point);
            assert(points(held@) =~= points(had).push(point@));
        }
    }
    assert(first.is_prefix_of(points(held@)));
    assert(points(held@) == after_seed(rungs, first, findings));
    assert(known && is_seed_due(rungs, first, findings) ==> solves_to(
        *problem,
        *machine,
        ranges(problem.variables@),
        STARTS as int,
        squad.unit,
        squad.seed,
        before.local->0,
        findings.seeded,
        findings.local->0,
    ));
    let ghost seeded = points(held@);
    let ghost due = is_split_due(rungs, first, findings);
    if let Some(node) = root {
        if held.len() == 0 || carry {
            let budget: u32 = ladder.prune.unwrap();
            let ghost said = contributed@;
            let conclusion = bisect(
                problem,
                intervals,
                machine,
                node,
                budget,
                &mut contributed,
                &squad.cancelled,
            );
            proof {
                if known {
                    let answers = choose|answers: Seq<bool>|
                        {
                            let end = bisected(
                                *problem,
                                enclosures,
                                arithmetic,
                                node@,
                                budget as int,
                                said,
                                answers,
                            );
                            &&& #[trigger] were_answered(squad.cancelled, answers)
                            &&& end.looked == answers.len()
                            &&& end.queue.len() == 0
                            &&& crate::prune::prunes(end, conclusion)
                            &&& contributed@ == end.contributed
                        };
                    findings = Findings { answers, ..findings };
                }
            }
            match conclusion {
                Pruned::Empty { blamed } => {
                    proof {
                        if known {
                            assert(split(*problem, enclosures, arithmetic, rungs, findings).leaves.len() == 0);
                            assert(are_findings(*problem, *intervals, *machine, *squad, before, first, findings));
                        }
                    }
                    return (refute(blamed, &held), held);
                },
                Pruned::Live { leaves, exhausted } => {
                    let ghost all = standings(leaves@);
                    let seeds = cover(
                        problem,
                        machine,
                        &squad.unit,
                        &squad.seed,
                        &squad.cancelled,
                        &mut ladder.local,
                        leaves,
                        &held,
                    );
                    proof {
                        findings = Findings { pieces: points(seeds@), ..findings };
                        if known {
                            assert(split(*problem, enclosures, arithmetic, rungs, findings).leaves == all);
                        }
                    }
                    hold_all(&mut held, seeds, dimensions);
                    assert(first.is_prefix_of(points(held@)));
                },
            }
        }
    }
    let ghost covered = points(held@);
    assert(is_split_due(rungs, first, findings) == due);
    if held.len() == 0 && ladder.sampler.is_some() {
        let mut sampler = ladder.sampler.take().unwrap();
        let trial = judged(problem, &squad.brute, &mut sampler);
        ladder.sampler = Some(sampler);
        proof {
            findings = Findings { brute: points(trial.points@), sampled: ladder.sampler, ..findings };
            if known {
                assert(is_trial(
                    *problem,
                    squad.brute,
                    findings.sampler->0,
                    trial.proposed as int,
                    findings.brute,
                    findings.sampled->0,
                ));
            }
            assert(points(held@) + points(trial.points@) =~= points(trial.points@));
        }
        hold_all(&mut held, trial.points, dimensions);
        assert(first.is_prefix_of(points(held@)));
    }
    proof {
        if known {
            assert(are_findings(*problem, *intervals, *machine, *squad, before, first, findings));
            assert(points(held@) == if covered.len() == 0 && rungs.sampler {
                findings.brute
            } else {
                covered
            });
        }
    }
    if held.len() > 0 {
        return (Opening::Satisfied, held);
    }
    assert(contributed@.len() == problem.constraints@.len());
    (Opening::Unproven { unexpressed: list_unmarked(&contributed) }, held)
}

// ---- what an opening guarantees ----

/// Whether a point passes the oracle.
pub open spec fn is_judged_feasible<E: Evaluate>(
    system: ConstraintSystem<E>,
    arithmetic: Arithmetic,
    point: Seq<Real>,
) -> bool {
    system.feasible(arithmetic, point, zero())
}

pub open spec fn are_judged_feasible<E: Evaluate>(
    system: ConstraintSystem<E>,
    arithmetic: Arithmetic,
    list: Seq<Seq<Real>>,
) -> bool {
    forall|i: int| 0 <= i < list.len() ==> is_judged_feasible(system, arithmetic, #[trigger] list[i])
}

proof fn survivors_are_feasible<E: Evaluate>(
    system: ConstraintSystem<E>,
    arithmetic: Arithmetic,
    candidates: Seq<Seq<Real>>,
)
    ensures
        are_judged_feasible(system, arithmetic, system.survivors(candidates)),
    decreases candidates.len(),
{
    if candidates.len() > 0 {
        survivors_are_feasible(system, arithmetic, candidates.drop_last());
        a_batch_agrees_with_one_at_a_time(system, arithmetic, candidates.last());
        let before = system.survivors(candidates.drop_last());
        let after = system.survivors(candidates);
        assert forall|i: int| 0 <= i < after.len() implies is_judged_feasible(system, arithmetic, #[trigger] after[i]) by {
            if i < before.len() {
                assert(after[i] == before[i]);
            }
        }
    }
}

proof fn trials_are_judged<E: Evaluate, P: Fn(&Sampler) -> (Trial, Xoshiro256PlusPlus)>(
    system: ConstraintSystem<E>,
    arithmetic: Arithmetic,
    ask: P,
    before: Sampler,
    proposed: int,
    found: Seq<Seq<Real>>,
    after: Sampler,
)
    requires
        is_trial(system, ask, before, proposed, found, after),
    ensures
        are_judged_feasible(system, arithmetic, found),
{
    let trial = choose|trial: Trial|
        {
            &&& #[trigger] call_ensures(ask, (&before,), (trial, after.stream))
            &&& proposed == trial.proposed
            &&& found == system.survivors(points(trial.points@))
        };
    survivors_are_feasible(system, arithmetic, points(trial.points@));
}

proof fn solves_are_judged<
    E: Evaluate,
    M: Machine,
    B: Fn(&Xoshiro256PlusPlus) -> (Real, Xoshiro256PlusPlus),
    F: Fn(&Seeding, &Vec<Real>, u64) -> Option<Point>,
>(
    system: ConstraintSystem<E>,
    machine: M,
    bounds: Seq<Interval>,
    starts: int,
    unit: B,
    seed: F,
    before: Xoshiro256PlusPlus,
    found: Option<Seq<Real>>,
    after: Xoshiro256PlusPlus,
)
    requires
        solves_to(system, machine, bounds, starts, unit, seed, before, found, after),
    ensures
        found matches Some(point) ==> system.feasible(arithmetic_of(machine), point, zero()),
{
    if system.variables@.len() > 0 {
        let trials = choose|trials: Seq<crate::local::Trial>| #[trigger]
            crate::local::is_decided(system, arithmetic_of(machine), bounds, starts, trials, found);
    }
}

proof fn settled_centres_are_judged<E: Evaluate>(
    system: ConstraintSystem<E>,
    arithmetic: Arithmetic,
    leaves: Seq<Standing>,
    held: Seq<Seq<Real>>,
    upto: int,
)
    requires
        0 <= upto <= leaves.len(),
        forall|i: int|
            0 <= i < leaves.len() ==> ((#[trigger] leaves[i]).settled matches Some(point) ==> system.feasible(
                arithmetic,
                point,
                zero(),
            )),
    ensures
        are_judged_feasible(system, arithmetic, settled_below(leaves, held, upto)),
    decreases upto,
{
    if upto > 0 {
        settled_centres_are_judged(system, arithmetic, leaves, held, upto - 1);
        let before = settled_below(leaves, held, upto - 1);
        let after = settled_below(leaves, held, upto);
        assert forall|i: int| 0 <= i < after.len() implies is_judged_feasible(system, arithmetic, #[trigger] after[i]) by {
            if i < before.len() {
                assert(after[i] == before[i]);
            } else {
                assert(leaves[upto - 1].settled is Some);
            }
        }
    }
}

proof fn covering_is_judged<
    E: Evaluate,
    M: Machine,
    B: Fn(&Xoshiro256PlusPlus) -> (Real, Xoshiro256PlusPlus),
    F: Fn(&Seeding, &Vec<Real>, u64) -> Option<Point>,
>(
    system: ConstraintSystem<E>,
    machine: M,
    unit: B,
    seed: F,
    rng: Xoshiro256PlusPlus,
    begin: Covering,
    outcomes: Seq<Option<Seq<Real>>>,
    upto: int,
)
    requires
        0 <= upto <= outcomes.len(),
        are_solves(system, machine, unit, seed, rng, begin, outcomes),
        are_judged_feasible(system, arithmetic_of(machine), begin.seeds),
    ensures
        are_judged_feasible(
            system,
            arithmetic_of(machine),
            covering(
                arithmetic_of(machine),
                widths_of(system, arithmetic_of(machine)),
                begin,
                outcomes,
                upto,
            ).seeds,
        ),
    decreases upto,
{
    if upto > 0 {
        let arithmetic = arithmetic_of(machine);
        let widths = widths_of(system, arithmetic);
        covering_is_judged(system, machine, unit, seed, rng, begin, outcomes, upto - 1);
        let state = covering(arithmetic, widths, begin, outcomes, upto - 1);
        let after = covering(arithmetic, widths, begin, outcomes, upto);
        solves_are_judged(
            system,
            machine,
            state.boxes[next_box(arithmetic, widths, state)].bounds,
            1,
            unit,
            seed,
            rng,
            outcomes[upto - 1],
            rng,
        );
        assert forall|i: int| 0 <= i < after.seeds.len() implies is_judged_feasible(
            system,
            arithmetic,
            #[trigger] after.seeds[i],
        ) by {
            if i < state.seeds.len() {
                assert(after.seeds[i] == state.seeds[i]);
            }
        }
    }
}

/// Every point in hand after an opening passes the oracle, if those in hand
/// before it did.
pub proof fn every_point_in_hand_is_feasible<
    E: Evaluate,
    I: Intervals,
    M: Machine,
    P: Fn(&Sampler) -> (Trial, Xoshiro256PlusPlus),
    Q: Fn(&Sampler) -> (Trial, Xoshiro256PlusPlus),
    B: Fn(&Xoshiro256PlusPlus) -> (Real, Xoshiro256PlusPlus),
    F: Fn(&Seeding, &Vec<Real>, u64) -> Option<Point>,
    C: Fn() -> bool,
>(
    system: ConstraintSystem<E>,
    intervals: I,
    machine: M,
    squad: Squad<P, Q, B, F, C>,
    ladder: Ladder,
    held: Seq<Seq<Real>>,
    findings: Findings,
)
    requires
        are_findings(system, intervals, machine, squad, ladder, held, findings),
        are_judged_feasible(system, arithmetic_of(machine), held),
    ensures
        are_judged_feasible(
            system,
            arithmetic_of(machine),
            opened(system, enclosures_of(intervals), arithmetic_of(machine), ladder.rungs(), held, findings).points,
        ),
{
    let rungs = ladder.rungs();
    let enclosures = enclosures_of(intervals);
    let arithmetic = arithmetic_of(machine);
    let root = rooted(system, enclosures, arithmetic);
    if !(rungs.prune is Some && root.dead is Some) {
        if rungs.sampler {
            trials_are_judged(
                system,
                arithmetic,
                squad.probe,
                ladder.sampler->0,
                findings.proposed,
                findings.probed,
                findings.sampler->0,
            );
        }
        let probed = after_probe(rungs, held, findings);
        assert(are_judged_feasible(system, arithmetic, probed));
        if is_seed_due(rungs, held, findings) {
            solves_are_judged(
                system,
                machine,
                ranges(system.variables@),
                STARTS as int,
                squad.unit,
                squad.seed,
                ladder.local->0,
                findings.seeded,
                findings.local->0,
            );
        }
        let seeded = after_seed(rungs, held, findings);
        assert(are_judged_feasible(system, arithmetic, seeded));
        let end = split(system, enclosures, arithmetic, rungs, findings);
        let due = is_split_due(rungs, held, findings);
        if due && end.leaves.len() > 0 {
            crate::prune::every_leaf_has_its_reason(
                system,
                enclosures,
                arithmetic,
                root.region,
                rungs.prune->0 as int,
                root.contributed,
                findings.answers,
            );
            settled_centres_are_judged(system, arithmetic, end.leaves, seeded, end.leaves.len() as int);
            let begin = uncovered(end.leaves, seeded);
            if seeded.len() == 0 && findings.local is Some {
                let widths = widths_of(system, arithmetic);
                let outcomes = choose|outcomes: Seq<Option<Seq<Real>>>|
                    {
                        &&& #[trigger] are_solves(
                            system,
                            machine,
                            squad.unit,
                            squad.seed,
                            findings.local->0,
                            begin,
                            outcomes,
                        )
                        &&& outcomes.len() <= solves_allowed(begin.boxes.len())
                        &&& outcomes.len() < solves_allowed(begin.boxes.len()) ==> call_ensures(
                            squad.cancelled,
                            (),
                            true,
                        )
                        &&& findings.pieces == covering(
                            arithmetic,
                            widths,
                            begin,
                            outcomes,
                            outcomes.len() as int,
                        ).seeds
                    };
                covering_is_judged(
                    system,
                    machine,
                    squad.unit,
                    squad.seed,
                    findings.local->0,
                    begin,
                    outcomes,
                    outcomes.len() as int,
                );
            }
            assert(are_judged_feasible(system, arithmetic, findings.pieces));
            assert(are_judged_feasible(system, arithmetic, seeded + findings.pieces));
        }
        let covered = if due {
            seeded + findings.pieces
        } else {
            seeded
        };
        if (due ==> end.leaves.len() > 0) && covered.len() == 0 && rungs.sampler {
            let (before, after) = (findings.sampler->0, findings.sampled->0);
            let proposed = choose|proposed: int| #[trigger]
                is_trial(system, squad.brute, before, proposed, findings.brute, after);
            trials_are_judged(system, arithmetic, squad.brute, before, proposed, findings.brute, after);
        }
    }
}

/// A refutation is a proof: where an opening concludes that the region is empty,
/// no point of the declared box has every constraint hold, as the tapes compute
/// them, where the intervals enclose what is asked of them there.
pub proof fn a_refutation_is_a_proof<
    E: Evaluate,
    I: Intervals,
    M: Machine,
    P: Fn(&Sampler) -> (Trial, Xoshiro256PlusPlus),
    Q: Fn(&Sampler) -> (Trial, Xoshiro256PlusPlus),
    B: Fn(&Xoshiro256PlusPlus) -> (Real, Xoshiro256PlusPlus),
    F: Fn(&Seeding, &Vec<Real>, u64) -> Option<Point>,
    C: Fn() -> bool,
>(
    system: ConstraintSystem<E>,
    intervals: I,
    machine: M,
    squad: Squad<P, Q, B, F, C>,
    ladder: Ladder,
    held: Seq<Seq<Real>>,
    findings: Findings,
    semantics: Semantics,
    point: Seq<Real>,
)
    requires
        system.well_formed(),
        are_findings(system, intervals, machine, squad, ladder, held, findings),
        encloses_around(system, enclosures_of(intervals), semantics, point),
        is_plain(semantics),
        parts_cleanly(arithmetic_of(machine)),
        system.in_box(point),
        opened(system, enclosures_of(intervals), arithmetic_of(machine), ladder.rungs(), held, findings).verdict is Impossible,
    ensures
        !is_solution(system, semantics, point),
{
    let rungs = ladder.rungs();
    let enclosures = enclosures_of(intervals);
    let arithmetic = arithmetic_of(machine);
    let declared = declared_region(system);
    let begin = unmarked(system.constraints@.len());
    if is_solution(system, semantics, point) {
        assert forall|r: int| 0 <= r < declared.bounds.len() && r < point.len() implies (
        #[trigger] declared.bounds[r]).has_value(point[r]) by {
            assert(system.variables@[r].range().has_value(point[r]));
        }
        a_solution_survives_contraction(system, enclosures, arithmetic, semantics, declared, begin, point);
        the_declared_box_is_bounded(system, arithmetic);
        a_contraction_stays_bounded(system, enclosures, arithmetic, declared, begin, point);
        let root = rooted(system, enclosures, arithmetic);
        if is_split_due(rungs, held, findings) {
            the_leaves_cover_the_region(
                system,
                enclosures,
                arithmetic,
                semantics,
                root.region,
                rungs.prune->0 as int,
                root.contributed,
                findings.answers,
                point,
            );
        }
    }
}

/// What is proved empty has nothing feasible in it: where an opening concludes
/// that the region is empty, no point passes the oracle, with any clearance, at
/// which the tapes agree with the constraints and the intervals enclose what is
/// asked of them.
pub proof fn what_is_refuted_has_no_feasible_point<
    E: Evaluate,
    I: Intervals,
    M: Machine,
    P: Fn(&Sampler) -> (Trial, Xoshiro256PlusPlus),
    Q: Fn(&Sampler) -> (Trial, Xoshiro256PlusPlus),
    B: Fn(&Xoshiro256PlusPlus) -> (Real, Xoshiro256PlusPlus),
    F: Fn(&Seeding, &Vec<Real>, u64) -> Option<Point>,
    C: Fn() -> bool,
>(
    system: ConstraintSystem<E>,
    intervals: I,
    machine: M,
    squad: Squad<P, Q, B, F, C>,
    ladder: Ladder,
    held: Seq<Seq<Real>>,
    findings: Findings,
    semantics: Semantics,
    point: Seq<Real>,
    clearance: Real,
)
    requires
        system.well_formed(),
        are_findings(system, intervals, machine, squad, ladder, held, findings),
        tapes_agree(system, semantics, point),
        encloses_around(system, enclosures_of(intervals), semantics, point),
        is_plain(semantics),
        parts_cleanly(arithmetic_of(machine)),
        opened(system, enclosures_of(intervals), arithmetic_of(machine), ladder.rungs(), held, findings).verdict is Impossible,
    ensures
        !system.feasible(arithmetic_of(machine), point, clearance),
{
    let arithmetic = arithmetic_of(machine);
    if system.feasible(arithmetic, point, clearance) {
        clearance_asks_for_more(system, arithmetic, point, clearance);
        a_refutation_is_a_proof(system, intervals, machine, squad, ladder, held, findings, semantics, point);
        assert forall|c: int| 0 <= c < system.constraints@.len() implies #[trigger] tape_holds(
            system,
            semantics,
            c,
            point,
        ) by {
            assert(passes(system.judge(c), point));
        }
        assert(is_solution(system, semantics, point));
    }
}

/// Those blamed contradict each other: where an opening concludes that the region is
/// empty, or contradicts the points in hand, every point of the declared box fails one
/// of the constraints that it blames, as the tapes compute them, where the intervals
/// enclose what is asked of them there.
pub proof fn those_blamed_contradict<
    E: Evaluate,
    I: Intervals,
    M: Machine,
    P: Fn(&Sampler) -> (Trial, Xoshiro256PlusPlus),
    Q: Fn(&Sampler) -> (Trial, Xoshiro256PlusPlus),
    B: Fn(&Xoshiro256PlusPlus) -> (Real, Xoshiro256PlusPlus),
    F: Fn(&Seeding, &Vec<Real>, u64) -> Option<Point>,
    C: Fn() -> bool,
>(
    system: ConstraintSystem<E>,
    intervals: I,
    machine: M,
    squad: Squad<P, Q, B, F, C>,
    ladder: Ladder,
    held: Seq<Seq<Real>>,
    findings: Findings,
    semantics: Semantics,
    blamed: Seq<int>,
    point: Seq<Real>,
)
    requires
        system.well_formed(),
        are_findings(system, intervals, machine, squad, ladder, held, findings),
        encloses_around(system, enclosures_of(intervals), semantics, point),
        is_plain(semantics),
        parts_cleanly(arithmetic_of(machine)),
        system.fits(point),
        system.in_box(point),
        ({
            let verdict = opened(
                system,
                enclosures_of(intervals),
                arithmetic_of(machine),
                ladder.rungs(),
                held,
                findings,
            ).verdict;
            verdict == Verdict::Impossible(blamed) || verdict == Verdict::Contradicted(blamed)
        }),
    ensures
        exists|k: int|
            0 <= k < blamed.len() && 0 <= blamed[k] < system.constraints@.len() && !tape_holds(
                system,
                semantics,
                #[trigger] blamed[k],
                point,
            ),
{
    let rungs = ladder.rungs();
    let enclosures = enclosures_of(intervals);
    let arithmetic = arithmetic_of(machine);
    let declared = declared_region(system);
    let count = system.constraints@.len();
    let root = rooted(system, enclosures, arithmetic);
    assert forall|r: int| 0 <= r < declared.bounds.len() && r < point.len() implies (
    #[trigger] declared.bounds[r]).has_value(point[r]) by {
        assert(system.variables@[r].range().has_value(point[r]));
    }
    the_declared_box_is_bounded(system, arithmetic);
    if rungs.prune is Some && root.dead is Some {
        let (culprit, row) = root.dead->0;
        let set = blame_of(system, root.region.history, culprit, row);
        marked_ones(marks_of(set, count), count as int);
        if all_hold(system, semantics, set, point) {
            what_is_blamed_shows_it_empty(
                system,
                enclosures,
                arithmetic,
                semantics,
                declared,
                unmarked(count),
                culprit,
                row,
                point,
            );
        }
        let c = choose|c: int|
            0 <= c < count && set.contains(c) && !#[trigger] tape_holds(system, semantics, c, point);
        assert(marks_of(set, count)[c]);
        assert(blamed.contains(c));
    } else {
        let end = split(system, enclosures, arithmetic, rungs, findings);
        a_contradiction_is_of_those_blamed(
            system,
            enclosures,
            arithmetic,
            semantics,
            unmarked(count),
            rungs.prune->0 as int,
            findings.answers,
            point,
        );
        marked_ones(end.blamed, end.blamed.len() as int);
        let c = choose|c: int|
            0 <= c < count && c < end.blamed.len() && end.blamed[c] && !#[trigger] tape_holds(
                system,
                semantics,
                c,
                point,
            );
        assert(blamed.contains(c));
    }
}

// ---- what is in hand ----

/// Nothing in hand is lost: the points in hand before an opening come first, in
/// their order, among those in hand after it, and what the probe, the local solve
/// and the pieces of the region gave comes behind them, in that order. Only where
/// nothing else is in hand is it what brute force found.
pub proof fn nothing_in_hand_is_lost<E: Evaluate>(
    system: ConstraintSystem<E>,
    enclosures: Enclosures,
    arithmetic: Arithmetic,
    rungs: Rungs,
    held: Seq<Seq<Real>>,
    findings: Findings,
)
    ensures
        ({
            let end = opened(system, enclosures, arithmetic, rungs, held, findings);
            let root = rooted(system, enclosures, arithmetic);
            let refuted_outright = rungs.prune is Some && root.dead is Some;
            let pieces = split(system, enclosures, arithmetic, rungs, findings);
            &&& held.is_prefix_of(end.points)
            &&& rungs.sampler && !refuted_outright ==> (held + findings.probed).is_prefix_of(end.points)
            &&& rungs.local && !refuted_outright && held.len() == 0 && (rungs.sampler ==> findings.probed.len() == 0)
                ==> (findings.seeded matches Some(point) ==> end.points.len() > 0 && end.points[0] == point)
            &&& rungs.prune is Some && !refuted_outright && pieces.leaves.len() > 0 && (held.len() == 0 && (
            rungs.sampler ==> findings.probed.len() == 0) && (rungs.local ==> findings.seeded is None) || carries(
                rungs,
                findings,
            )) && findings.pieces.len() > 0 ==> {
                &&& findings.pieces.len() <= end.points.len()
                &&& end.points.skip(end.points.len() - findings.pieces.len()) == findings.pieces
            }
            &&& rungs.sampler && rungs.prune is None && held.len() == 0 && findings.probed.len() == 0 && (rungs.local
                ==> findings.seeded is None) ==> end.points == findings.brute
        }),
{
    let end = opened(system, enclosures, arithmetic, rungs, held, findings);
    let probed = after_probe(rungs, held, findings);
    let seeded = after_seed(rungs, held, findings);
    assert(held.is_prefix_of(probed));
    assert(probed.is_prefix_of(seeded));
    assert(held.is_prefix_of(seeded));
    let all = seeded + findings.pieces;
    assert(seeded.is_prefix_of(all));
    assert(held.is_prefix_of(all));
    assert(probed.is_prefix_of(all));
    assert(all.skip(seeded.len() as int) =~= findings.pieces);
    if rungs.sampler {
        assert(probed == held + findings.probed);
    }
}

/// A conclusion says what is in hand: a point in hand is `Satisfied`, or where the
/// region was proved empty a contradiction; with none in hand it is never either.
/// So with one feasible hint nothing is ever left unproven.
pub proof fn a_conclusion_says_what_is_in_hand<E: Evaluate>(
    system: ConstraintSystem<E>,
    enclosures: Enclosures,
    arithmetic: Arithmetic,
    rungs: Rungs,
    held: Seq<Seq<Real>>,
    findings: Findings,
)
    ensures
        ({
            let end = opened(system, enclosures, arithmetic, rungs, held, findings);
            &&& end.verdict is Satisfied || end.verdict is Contradicted <==> end.points.len() > 0
            &&& held.len() > 0 ==> !(end.verdict is Unproven) && !(end.verdict is Impossible)
            &&& rungs.prune is None ==> !(end.verdict is Impossible) && !(end.verdict is Contradicted)
        }),
{
    nothing_in_hand_is_lost(system, enclosures, arithmetic, rungs, held, findings);
}

/// A hint is kept exactly where it passes the oracle: what is kept of a list is the
/// points of it that are feasible, in their order.
pub proof fn what_passes_is_what_is_feasible<E: Evaluate>(
    system: ConstraintSystem<E>,
    arithmetic: Arithmetic,
    list: Seq<Seq<Real>>,
)
    ensures
        passing(system, arithmetic, list) == list.filter(|point: Seq<Real>| system.feasible(arithmetic, point, zero())),
    decreases list.len(),
{
    reveal(Seq::filter);
    let wanted = |point: Seq<Real>| system.feasible(arithmetic, point, zero());
    if list.len() > 0 {
        what_passes_is_what_is_feasible(system, arithmetic, list.drop_last());
    } else {
        assert(passing(system, arithmetic, list) =~= list.filter(wanted));
    }
}

/// A search from feasible hints has them all in hand: the feasible ones, in order,
/// are the first points after an opening, and it ends with something in hand.
pub proof fn feasible_hints_are_in_hand<E: Evaluate>(
    system: ConstraintSystem<E>,
    enclosures: Enclosures,
    arithmetic: Arithmetic,
    rungs: Rungs,
    hints: Seq<Seq<Real>>,
    findings: Findings,
    hint: int,
)
    requires
        0 <= hint < hints.len(),
        system.feasible(arithmetic, hints[hint], zero()),
    ensures
        ({
            let kept = hints.filter(|point: Seq<Real>| system.feasible(arithmetic, point, zero()));
            let end = opened(system, enclosures, arithmetic, rungs, passing(system, arithmetic, hints), findings);
            &&& kept.contains(hints[hint])
            &&& kept.is_prefix_of(end.points)
            &&& end.points.contains(hints[hint])
            &&& end.verdict is Satisfied || end.verdict is Contradicted
        }),
{
    let wanted = |point: Seq<Real>| system.feasible(arithmetic, point, zero());
    let kept = hints.filter(wanted);
    let end = opened(system, enclosures, arithmetic, rungs, passing(system, arithmetic, hints), findings);
    what_passes_is_what_is_feasible(system, arithmetic, hints);
    hints.filter_lemma(wanted);
    nothing_in_hand_is_lost(system, enclosures, arithmetic, rungs, kept, findings);
    a_conclusion_says_what_is_in_hand(system, enclosures, arithmetic, rungs, kept, findings);
    assert(kept.contains(hints[hint]));
    let i = choose|i: int| 0 <= i < kept.len() && kept[i] == hints[hint];
    assert(end.points.subrange(0, kept.len() as int)[i] == end.points[i]);
}

/// What is listed as unexpressed is every constraint that said nothing, in
/// ascending order, and nothing else.
pub proof fn the_unmarked_are_listed(marks: Seq<bool>, upto: int)
    requires
        0 <= upto <= marks.len(),
    ensures
        forall|c: int| #[trigger] unmarked_below(marks, upto).contains(c) <==> 0 <= c < upto && !marks[c],
        forall|i: int, j: int|
            0 <= i < j < unmarked_below(marks, upto).len() ==> unmarked_below(marks, upto)[i] < unmarked_below(
                marks,
                upto,
            )[j],
    decreases upto,
{
    let list = unmarked_below(marks, upto);
    if upto > 0 {
        the_unmarked_are_listed(marks, upto - 1);
        let before = unmarked_below(marks, upto - 1);
        assert forall|c: int| #[trigger] list.contains(c) <==> 0 <= c < upto && !marks[c] by {
            if before.contains(c) {
                let i = choose|i: int| 0 <= i < before.len() && before[i] == c;
                assert(list[i] == c);
            }
            if c == upto - 1 && !marks[c] {
                assert(list[list.len() - 1] == c);
            }
            if list.contains(c) {
                let i = choose|i: int| 0 <= i < list.len() && list[i] == c;
                if i < before.len() {
                    assert(before[i] == c);
                    assert(before.contains(c));
                }
            }
        }
        assert forall|i: int, j: int| 0 <= i < j < list.len() implies list[i] < list[j] by {
            if j == before.len() {
                assert(before.contains(before[i]));
            }
        }
    }
}

/// Every piece of the region is seen to: a leaf that has no point in hand has its
/// centre among the seeds if it settled, and is one of the boxes to be solved in if
/// it did not.
pub proof fn every_piece_is_seen_to(leaves: Seq<Standing>, held: Seq<Seq<Real>>, upto: int, i: int)
    requires
        0 <= i < upto <= leaves.len(),
        forall|j: int| 0 <= j < held.len() ==> !leaves[i].region.has_point(#[trigger] held[j]),
    ensures
        match leaves[i].settled {
            Some(centre) => settled_below(leaves, held, upto).contains(centre),
            None => unsettled_below(leaves, held, upto).contains(leaves[i].region),
        },
    decreases upto,
{
    let seeds = settled_below(leaves, held, upto);
    let boxes = unsettled_below(leaves, held, upto);
    if i == upto - 1 {
        assert(!is_held(leaves[i].region, held));
        match leaves[i].settled {
            Some(centre) => assert(seeds[seeds.len() - 1] == centre),
            None => assert(boxes[boxes.len() - 1] == leaves[i].region),
        }
    } else {
        every_piece_is_seen_to(leaves, held, upto - 1, i);
        let fewer = settled_below(leaves, held, upto - 1);
        let less = unsettled_below(leaves, held, upto - 1);
        match leaves[i].settled {
            Some(centre) => {
                let k = choose|k: int| 0 <= k < fewer.len() && fewer[k] == centre;
                assert(seeds[k] == centre);
            },
            None => {
                let k = choose|k: int| 0 <= k < less.len() && less[k] == leaves[i].region;
                assert(boxes[k] == leaves[i].region);
            },
        }
    }
}

/// A box is no more remote than its nearest point: no point is nearer to its centre
/// than its remoteness.
pub proof fn remoteness_is_the_nearest(
    arithmetic: Arithmetic,
    widths: Seq<Real>,
    region: Region,
    known: Seq<Seq<Real>>,
    upto: int,
    i: int,
)
    requires
        0 <= i < upto <= known.len(),
    ensures
        ({
            let at = middles(arithmetic, region.bounds);
            !gaps(arithmetic, widths, at, known[i], at.len() as int).below(
                remoteness(arithmetic, widths, region, known, upto),
            )
        }),
    decreases upto,
{
    remoteness_is_a_number(arithmetic, widths, region, known, upto - 1);
    if i < upto - 1 {
        remoteness_is_the_nearest(arithmetic, widths, region, known, upto - 1, i);
    }
}

proof fn remoteness_is_a_number(
    arithmetic: Arithmetic,
    widths: Seq<Real>,
    region: Region,
    known: Seq<Seq<Real>>,
    upto: int,
)
    ensures
        !remoteness(arithmetic, widths, region, known, upto).nan(),
    decreases upto,
{
    if upto > 0 {
        remoteness_is_a_number(arithmetic, widths, region, known, upto - 1);
    }
}

/// The box solved in next is the most remote: no other is farther from everything
/// in hand.
pub proof fn no_box_is_more_remote(
    arithmetic: Arithmetic,
    widths: Seq<Real>,
    boxes: Seq<Region>,
    known: Seq<Seq<Real>>,
    upto: int,
    i: int,
)
    requires
        0 <= i < upto <= boxes.len(),
    ensures
        0 <= most_remote(arithmetic, widths, boxes, known, upto) < upto,
        remoteness(arithmetic, widths, boxes[i], known, known.len() as int).rank() <= remoteness(
            arithmetic,
            widths,
            boxes[most_remote(arithmetic, widths, boxes, known, upto)],
            known,
            known.len() as int,
        ).rank(),
    decreases upto,
{
    if upto > 1 {
        no_box_is_more_remote(arithmetic, widths, boxes, known, upto - 1, if i < upto - 1 {
            i
        } else {
            0
        });
    }
}

/// A strategy has its rung exactly where it is listed.
pub proof fn a_listed_strategy_has_its_rung(strategies: Seq<Strategy>, strategy: Strategy, upto: int)
    requires
        0 <= upto <= strategies.len(),
    ensures
        last_place(strategies, strategy, upto) is Some <==> strategies.take(upto).contains(strategy),
        last_place(strategies, strategy, upto) matches Some(place) ==> 0 <= place < upto && strategies[place]
            == strategy,
    decreases upto,
{
    if upto > 0 {
        a_listed_strategy_has_its_rung(strategies, strategy, upto - 1);
        let all = strategies.take(upto);
        let fewer = strategies.take(upto - 1);
        if strategies[upto - 1] == strategy {
            assert(all[upto - 1] == strategy);
        } else {
            if fewer.contains(strategy) {
                let i = choose|i: int| 0 <= i < fewer.len() && fewer[i] == strategy;
                assert(all[i] == strategy);
            }
            if all.contains(strategy) {
                let i = choose|i: int| 0 <= i < all.len() && all[i] == strategy;
                assert(fewer[i] == strategy);
            }
        }
    }
}

/// A batch has what sampling gave first, and as much of it as was asked for where
/// there was as much; only what that left short is walked.
pub proof fn sampling_goes_first<
    E: Evaluate,
    D: Fn(&Sampler, usize) -> (Trial, Xoshiro256PlusPlus),
    W: Fn(&Xoshiro256PlusPlus, &Vec<Point>, usize) -> (Vec<Point>, Xoshiro256PlusPlus),
>(
    system: ConstraintSystem<E>,
    arithmetic: Arithmetic,
    before: Ladder,
    deliver: D,
    walk: W,
    count: usize,
    held: Seq<Seq<Real>>,
    batch: Seq<Seq<Real>>,
    after: Ladder,
)
    requires
        is_batch(system, arithmetic, before, deliver, walk, count, held, batch, after),
        before.sampler is Some,
    ensures
        after.sampler is Some,
        exists|trial: Trial|
            {
                let given = system.survivors(points(trial.points@));
                &&& #[trigger] call_ensures(
                    deliver,
                    (&before.sampler->0, count),
                    (trial, (after.sampler->0).stream),
                )
                &&& given.len() >= count ==> batch == given.take(count as int)
                &&& given.len() < count ==> given.is_prefix_of(batch)
            },
{
    let (drawn, walked) = choose|drawn: Seq<Seq<Real>>, walked: Seq<Seq<Real>>| #[trigger]
        are_parts(system, arithmetic, before, deliver, walk, count, held, drawn, walked, after) && batch == drawn
            + walked;
    let trial = choose|trial: Trial| #[trigger]
        call_ensures(deliver, (&before.sampler->0, count), (trial, (after.sampler->0).stream)) && drawn == at_most_of(
            system.survivors(points(trial.points@)),
            count as int,
        );
    let given = system.survivors(points(trial.points@));
    if given.len() >= count {
        assert(given.take(count as int).len() == count);
        if given.len() == count {
            assert(given.take(count as int) =~= given);
        }
        assert(walked.len() == 0);
        assert(batch =~= given.take(count as int));
    } else {
        assert(given.is_prefix_of(batch));
    }
}

// ---- the same every time ----

/// Whether two samplers are in one state, with the same to spend.
pub open spec fn samplers_agree(a: Sampler, b: Sampler) -> bool {
    &&& words(a.stream) == words(b.stream)
    &&& a.proposals == b.proposals
    &&& a.threads == b.threads
    &&& a.gpu == b.gpu
}

/// Whether two ladders have the same strategies, their streams in one state and
/// the same to spend.
pub open spec fn ladders_agree(a: Ladder, b: Ladder) -> bool {
    &&& match (a.sampler, b.sampler) {
        (Some(x), Some(y)) => samplers_agree(x, y),
        (None, None) => true,
        _ => false,
    }
    &&& words_of(a.walker) == words_of(b.walker)
    &&& words_of(a.local) == words_of(b.local)
    &&& a.prune == b.prune
}

/// Whether proposals are a function of the sampler: the points, and how its
/// stream is left.
pub open spec fn proposes_steadily<P: Fn(&Sampler) -> (Trial, Xoshiro256PlusPlus)>(ask: P) -> bool {
    forall|s: &Sampler, t: &Sampler, a: (Trial, Xoshiro256PlusPlus), b: (Trial, Xoshiro256PlusPlus)|
        #![trigger call_ensures(ask, (s,), a), call_ensures(ask, (t,), b)]
        call_ensures(ask, (s,), a) && call_ensures(ask, (t,), b) && samplers_agree(*s, *t) ==> are_answers_alike(a, b)
}

pub open spec fn are_answers_alike(a: (Trial, Xoshiro256PlusPlus), b: (Trial, Xoshiro256PlusPlus)) -> bool {
    &&& a.0.proposed == b.0.proposed
    &&& points(a.0.points@) == points(b.0.points@)
    &&& words(a.1) == words(b.1)
}

/// Whether nobody ever calls a search off.
pub open spec fn is_never<C: Fn() -> bool>(cancelled: C) -> bool {
    forall|said: bool| #[trigger] call_ensures(cancelled, (), said) ==> !said
}

/// Whether everyone an opening asks is a function of what they are asked with,
/// and the caller stays.
pub open spec fn answers_steadily<
    P: Fn(&Sampler) -> (Trial, Xoshiro256PlusPlus),
    Q: Fn(&Sampler) -> (Trial, Xoshiro256PlusPlus),
    B: Fn(&Xoshiro256PlusPlus) -> (Real, Xoshiro256PlusPlus),
    F: Fn(&Seeding, &Vec<Real>, u64) -> Option<Point>,
    C: Fn() -> bool,
>(squad: Squad<P, Q, B, F, C>) -> bool {
    &&& proposes_steadily(squad.probe)
    &&& proposes_steadily(squad.brute)
    &&& units_are_steady(squad.unit)
    &&& seeds_steadily(squad.seed)
    &&& is_never(squad.cancelled)
}

proof fn trials_are_the_same<E: Evaluate, P: Fn(&Sampler) -> (Trial, Xoshiro256PlusPlus)>(
    system: ConstraintSystem<E>,
    ask: P,
    s: Sampler,
    proposed: int,
    found: Seq<Seq<Real>>,
    after_s: Sampler,
    t: Sampler,
    again: int,
    others: Seq<Seq<Real>>,
    after_t: Sampler,
)
    requires
        proposes_steadily(ask),
        samplers_agree(s, t),
        is_trial(system, ask, s, proposed, found, after_s),
        is_trial(system, ask, t, again, others, after_t),
    ensures
        proposed == again,
        found == others,
        samplers_agree(after_s, after_t),
{
    let a = choose|trial: Trial|
        {
            &&& #[trigger] call_ensures(ask, (&s,), (trial, after_s.stream))
            &&& proposed == trial.proposed
            &&& found == system.survivors(points(trial.points@))
        };
    let b = choose|trial: Trial|
        {
            &&& #[trigger] call_ensures(ask, (&t,), (trial, after_t.stream))
            &&& again == trial.proposed
            &&& others == system.survivors(points(trial.points@))
        };
    assert(call_ensures(ask, (&s,), (a, after_s.stream)) && call_ensures(ask, (&t,), (b, after_t.stream)));
    assert(are_answers_alike((a, after_s.stream), (b, after_t.stream)));
}

proof fn solves_are_the_same<
    E: Evaluate,
    M: Machine,
    B: Fn(&Xoshiro256PlusPlus) -> (Real, Xoshiro256PlusPlus),
    F: Fn(&Seeding, &Vec<Real>, u64) -> Option<Point>,
>(
    system: ConstraintSystem<E>,
    machine: M,
    bounds: Seq<Interval>,
    starts: int,
    unit: B,
    seed: F,
    g: Xoshiro256PlusPlus,
    first: Option<Seq<Real>>,
    after_g: Xoshiro256PlusPlus,
    h: Xoshiro256PlusPlus,
    second: Option<Seq<Real>>,
    after_h: Xoshiro256PlusPlus,
)
    requires
        deterministic(machine),
        units_are_steady(unit),
        seeds_steadily(seed),
        words(g) == words(h),
        solves_to(system, machine, bounds, starts, unit, seed, g, first, after_g),
        solves_to(system, machine, bounds, starts, unit, seed, h, second, after_h),
    ensures
        first == second,
        words(after_g) == words(after_h),
{
    if system.variables@.len() > 0 {
        a_seed_is_the_same_every_time(
            system,
            machine,
            bounds,
            starts,
            unit,
            seed,
            g,
            first,
            after_g,
            h,
            second,
            after_h,
        );
    }
}

proof fn coverings_are_the_same<
    E: Evaluate,
    M: Machine,
    B: Fn(&Xoshiro256PlusPlus) -> (Real, Xoshiro256PlusPlus),
    F: Fn(&Seeding, &Vec<Real>, u64) -> Option<Point>,
>(
    system: ConstraintSystem<E>,
    machine: M,
    unit: B,
    seed: F,
    g: Xoshiro256PlusPlus,
    h: Xoshiro256PlusPlus,
    begin: Covering,
    first: Seq<Option<Seq<Real>>>,
    second: Seq<Option<Seq<Real>>>,
    upto: int,
)
    requires
        deterministic(machine),
        units_are_steady(unit),
        seeds_steadily(seed),
        words(g) == words(h),
        are_solves(system, machine, unit, seed, g, begin, first),
        are_solves(system, machine, unit, seed, h, begin, second),
        0 <= upto <= first.len() == second.len(),
    ensures
        ({
            let arithmetic = arithmetic_of(machine);
            let widths = widths_of(system, arithmetic);
            covering(arithmetic, widths, begin, first, upto) == covering(arithmetic, widths, begin, second, upto)
        }),
    decreases upto,
{
    if upto > 0 {
        let k = upto - 1;
        coverings_are_the_same(system, machine, unit, seed, g, h, begin, first, second, k);
        let arithmetic = arithmetic_of(machine);
        let widths = widths_of(system, arithmetic);
        let state = covering(arithmetic, widths, begin, first, k);
        let bounds = state.boxes[next_box(arithmetic, widths, state)].bounds;
        assert(solves_to(system, machine, bounds, 1, unit, seed, g, first[k], g));
        assert(solves_to(system, machine, bounds, 1, unit, seed, h, second[k], h));
        solves_are_the_same(system, machine, bounds, 1, unit, seed, g, first[k], g, h, second[k], h);
    }
}

proof fn coverage_is_the_same<
    E: Evaluate,
    M: Machine,
    B: Fn(&Xoshiro256PlusPlus) -> (Real, Xoshiro256PlusPlus),
    F: Fn(&Seeding, &Vec<Real>, u64) -> Option<Point>,
    C: Fn() -> bool,
>(
    system: ConstraintSystem<E>,
    machine: M,
    unit: B,
    seed: F,
    cancelled: C,
    local: Option<Xoshiro256PlusPlus>,
    again: Option<Xoshiro256PlusPlus>,
    leaves: Seq<Standing>,
    held: Seq<Seq<Real>>,
    first: Seq<Seq<Real>>,
    second: Seq<Seq<Real>>,
)
    requires
        deterministic(machine),
        units_are_steady(unit),
        seeds_steadily(seed),
        is_never(cancelled),
        words_of(local) == words_of(again),
        is_covered(system, machine, unit, seed, cancelled, local, leaves, held, first),
        is_covered(system, machine, unit, seed, cancelled, again, leaves, held, second),
    ensures
        first == second,
{
    let arithmetic = arithmetic_of(machine);
    let widths = widths_of(system, arithmetic);
    let begin = uncovered(leaves, held);
    if held.len() == 0 && local is Some {
        let a = choose|outcomes: Seq<Option<Seq<Real>>>|
            {
                &&& #[trigger] are_solves(system, machine, unit, seed, local->0, begin, outcomes)
                &&& outcomes.len() <= solves_allowed(begin.boxes.len())
                &&& outcomes.len() < solves_allowed(begin.boxes.len()) ==> call_ensures(cancelled, (), true)
                &&& first == covering(arithmetic, widths, begin, outcomes, outcomes.len() as int).seeds
            };
        let b = choose|outcomes: Seq<Option<Seq<Real>>>|
            {
                &&& #[trigger] are_solves(system, machine, unit, seed, again->0, begin, outcomes)
                &&& outcomes.len() <= solves_allowed(begin.boxes.len())
                &&& outcomes.len() < solves_allowed(begin.boxes.len()) ==> call_ensures(cancelled, (), true)
                &&& second == covering(arithmetic, widths, begin, outcomes, outcomes.len() as int).seeds
            };
        coverings_are_the_same(system, machine, unit, seed, local->0, again->0, begin, a, b, a.len() as int);
    }
}

/// An opening is the same every time: where everyone who is asked is a function
/// of what they are asked with and the caller stays, two openings of one system
/// with the same points in hand, from ladders that agree, conclude the same, leave
/// the same points, and leave ladders that agree.
pub proof fn an_opening_is_the_same_every_time<
    E: Evaluate,
    I: Intervals,
    M: Machine,
    P: Fn(&Sampler) -> (Trial, Xoshiro256PlusPlus),
    Q: Fn(&Sampler) -> (Trial, Xoshiro256PlusPlus),
    B: Fn(&Xoshiro256PlusPlus) -> (Real, Xoshiro256PlusPlus),
    F: Fn(&Seeding, &Vec<Real>, u64) -> Option<Point>,
    C: Fn() -> bool,
>(
    system: ConstraintSystem<E>,
    intervals: I,
    machine: M,
    squad: Squad<P, Q, B, F, C>,
    ladder: Ladder,
    other: Ladder,
    held: Seq<Seq<Real>>,
    first: Findings,
    second: Findings,
)
    requires
        deterministic(machine),
        answers_steadily(squad),
        ladders_agree(ladder, other),
        are_findings(system, intervals, machine, squad, ladder, held, first),
        are_findings(system, intervals, machine, squad, other, held, second),
    ensures
        ladders_agree(left_by(ladder, first), left_by(other, second)),
        opened(system, enclosures_of(intervals), arithmetic_of(machine), ladder.rungs(), held, first) == opened(
            system,
            enclosures_of(intervals),
            arithmetic_of(machine),
            other.rungs(),
            held,
            second,
        ),
{
    let rungs = ladder.rungs();
    assert(other.rungs() == rungs);
    let enclosures = enclosures_of(intervals);
    let arithmetic = arithmetic_of(machine);
    let root = rooted(system, enclosures, arithmetic);
    if !(rungs.prune is Some && root.dead is Some) {
        if rungs.sampler {
            trials_are_the_same(
                system,
                squad.probe,
                ladder.sampler->0,
                first.proposed,
                first.probed,
                first.sampler->0,
                other.sampler->0,
                second.proposed,
                second.probed,
                second.sampler->0,
            );
        }
        if is_seed_due(rungs, held, first) {
            solves_are_the_same(
                system,
                machine,
                ranges(system.variables@),
                STARTS as int,
                squad.unit,
                squad.seed,
                ladder.local->0,
                first.seeded,
                first.local->0,
                other.local->0,
                second.seeded,
                second.local->0,
            );
        }
        let seeded = after_seed(rungs, held, first);
        assert(seeded == after_seed(rungs, held, second));
        let due = is_split_due(rungs, held, first);
        assert(due == is_split_due(rungs, held, second));
        let end = split(system, enclosures, arithmetic, rungs, first);
        if due {
            assert forall|i: int| 0 <= i < first.answers.len() implies !(#[trigger] first.answers[i]) by {
                assert(call_ensures(squad.cancelled, (), first.answers[i]));
            }
            assert forall|i: int| 0 <= i < second.answers.len() implies !(#[trigger] second.answers[i]) by {
                assert(call_ensures(squad.cancelled, (), second.answers[i]));
            }
            an_undisturbed_bisection_is_one(
                system,
                enclosures,
                arithmetic,
                started(root.region, rungs.prune->0 as int, root.contributed),
                first.answers,
                second.answers,
                (rungs.prune->0 + 1) as nat,
            );
            assert(end == split(system, enclosures, arithmetic, rungs, second));
            if end.leaves.len() > 0 {
                coverage_is_the_same(
                    system,
                    machine,
                    squad.unit,
                    squad.seed,
                    squad.cancelled,
                    first.local,
                    second.local,
                    end.leaves,
                    seeded,
                    first.pieces,
                    second.pieces,
                );
            }
        }
        let covered = if due {
            seeded + first.pieces
        } else {
            seeded
        };
        if (due ==> end.leaves.len() > 0) && covered.len() == 0 && rungs.sampler {
            let (x, y) = (first.sampler->0, first.sampled->0);
            let (v, w) = (second.sampler->0, second.sampled->0);
            let a = choose|proposed: int| #[trigger] is_trial(system, squad.brute, x, proposed, first.brute, y);
            let b = choose|proposed: int| #[trigger] is_trial(system, squad.brute, v, proposed, second.brute, w);
            trials_are_the_same(system, squad.brute, x, a, first.brute, y, v, b, second.brute, w);
        }
    }
}

// ---- the steady state ----

/// The points of a list that pass the oracle, in order.
pub open spec fn passing<E: Evaluate>(
    system: ConstraintSystem<E>,
    arithmetic: Arithmetic,
    list: Seq<Seq<Real>>,
) -> Seq<Seq<Real>>
    decreases list.len(),
{
    if list.len() == 0 {
        Seq::empty()
    } else {
        let before = passing(system, arithmetic, list.drop_last());
        if system.feasible(arithmetic, list.last(), zero()) {
            before.push(list.last())
        } else {
            before
        }
    }
}

/// The points that pass the oracle, in order: a hint is judged, not trusted, and
/// so is a walk.
pub fn feasible_ones<E: Evaluate, M: Machine>(
    problem: &ConstraintSystem<E>,
    machine: &M,
    list: Vec<Point>,
) -> (kept: Vec<Point>)
    requires
        problem.well_formed(),
    ensures
        all_fit(kept@, problem.variables@.len()),
        kept@.len() <= list@.len(),
        deterministic(*machine) && problem.judged() ==> points(kept@) == passing(
            *problem,
            arithmetic_of(*machine),
            points(list@),
        ),
{
    let ghost known = deterministic(*machine) && problem.judged();
    let ghost arithmetic = arithmetic_of(*machine);
    let ghost all = points(list@);
    let count: usize = list.len();
    let mut list = list;
    let mut kept: Vec<Point> = Vec::new();
    assert(points(kept@) =~= passing(*problem, arithmetic, all.take(0)));
    for i in 0..count
        invariant
            problem.well_formed(),
            known == (deterministic(*machine) && problem.judged()),
            arithmetic == arithmetic_of(*machine),
            count == all.len(),
            list@.len() == count - i,
            points(list@) == all.skip(i as int),
            kept@.len() <= i,
            all_fit(kept@, problem.variables@.len()),
            known ==> points(kept@) == passing(*problem, arithmetic, all.take(i as int)),
    {
        let ghost before = list@;
        let ghost had = kept@;
        assert(before[0]@ == points(before)[0]);
        assert(all.skip(i as int)[0] == all[i as int]);
        let point = list.remove(0);
        proof {
            assert(points(list@) =~= points(before).skip(1));
            assert(all.skip(i as int).skip(1) =~= all.skip(i + 1));
            assert(all.take(i + 1).drop_last() =~= all.take(i as int));
            assert(all.take(i + 1).last() == point@);
        }
        if problem.is_feasible(machine, &point, zero()) {
            kept.push(point);
            assert(points(kept@) =~= points(had).push(point@));
            assert forall|k: int| 0 <= k < kept@.len() implies (#[trigger] kept@[k])@.len()
                == problem.variables@.len() by {
                if k < had.len() {
                    assert(kept@[k] == had[k]);
                }
            }
        }
    }
    assert(all.take(count as int) =~= all);
    kept
}

fn copies(list: &Vec<Point>, upto: usize) -> (copy: Vec<Point>)
    requires
        upto <= list@.len(),
    ensures
        points(copy@) == points(list@).take(upto as int),
        copy@.len() == upto,
        forall|coordinates: nat| all_fit(list@, coordinates) ==> #[trigger] all_fit(copy@, coordinates),
{
    let mut copy: Vec<Point> = Vec::new();
    assert(points(copy@) =~= points(list@).take(0));
    for i in 0..upto
        invariant
            upto <= list@.len(),
            copy@.len() == i,
            points(copy@) == points(list@).take(i as int),
    {
        let ghost before = copy@;
        copy.push(copied(&list[i]));
        assert(points(copy@) =~= points(before).push(list@[i as int]@));
        assert(points(list@)[i as int] == list@[i as int]@);
        assert(points(list@).take(i + 1) =~= points(list@).take(i as int).push(points(list@)[i as int]));
    }
    proof {
        assert forall|coordinates: nat| all_fit(list@, coordinates) implies #[trigger] all_fit(copy@, coordinates) by {
            assert forall|k: int| 0 <= k < copy@.len() implies (#[trigger] copy@[k])@.len() == coordinates by {
                assert(points(copy@)[k] == copy@[k]@);
                assert(points(list@)[k] == list@[k]@);
            }
        }
    }
    copy
}

/// The first batch: the points in hand, as many as a batch takes. Every one is
/// feasible, and they are as good as any that would follow.
pub fn first_batch(held: &Vec<Point>) -> (batch: Vec<Point>)
    ensures
        points(batch@) == points(held@).take(
            if held@.len() < BATCH_SIZE {
                held@.len() as int
            } else {
                BATCH_SIZE as int
            },
        ),
        forall|coordinates: nat| all_fit(held@, coordinates) ==> #[trigger] all_fit(batch@, coordinates),
{
    let taken: usize = if held.len() < BATCH_SIZE {
        held.len()
    } else {
        BATCH_SIZE
    };
    copies(held, taken)
}

/// The first of a list, so many at most.
pub open spec fn at_most_of(list: Seq<Seq<Real>>, count: int) -> Seq<Seq<Real>> {
    if list.len() <= count {
        list
    } else {
        list.take(count)
    }
}

/// Whether points are the first of what a sampler delivered that satisfy the
/// system, and it is left so.
pub open spec fn is_delivered<E: Evaluate, D: Fn(&Sampler, usize) -> (Trial, Xoshiro256PlusPlus)>(
    system: ConstraintSystem<E>,
    deliver: D,
    before: Sampler,
    count: usize,
    drawn: Seq<Seq<Real>>,
    after: Sampler,
) -> bool {
    &&& after == (Sampler { stream: after.stream, ..before })
    &&& exists|trial: Trial| #[trigger]
        call_ensures(deliver, (&before, count), (trial, after.stream)) && drawn == at_most_of(
            system.survivors(points(trial.points@)),
            count as int,
        )
}

/// Whether points are the first of what a walk from points in hand found that
/// pass the oracle, and its stream is left so.
pub open spec fn is_walked<
    E: Evaluate,
    W: Fn(&Xoshiro256PlusPlus, &Vec<Point>, usize) -> (Vec<Point>, Xoshiro256PlusPlus),
>(
    system: ConstraintSystem<E>,
    arithmetic: Arithmetic,
    walk: W,
    before: Xoshiro256PlusPlus,
    held: Seq<Seq<Real>>,
    short: int,
    walked: Seq<Seq<Real>>,
    after: Xoshiro256PlusPlus,
) -> bool {
    exists|from: Vec<Point>, found: Vec<Point>|
        {
            &&& #[trigger] call_ensures(walk, (&before, &from, short as usize), (found, after))
            &&& points(from@) == held
            &&& walked == at_most_of(passing(system, arithmetic, points(found@)), short)
        }
}

/// Whether a batch is what sampling and then walking comes to, and the ladder is
/// left so: sampling goes first, and a walk from everything in hand is asked for
/// what it left short.
pub open spec fn is_batch<
    E: Evaluate,
    D: Fn(&Sampler, usize) -> (Trial, Xoshiro256PlusPlus),
    W: Fn(&Xoshiro256PlusPlus, &Vec<Point>, usize) -> (Vec<Point>, Xoshiro256PlusPlus),
>(
    system: ConstraintSystem<E>,
    arithmetic: Arithmetic,
    before: Ladder,
    deliver: D,
    walk: W,
    count: usize,
    held: Seq<Seq<Real>>,
    batch: Seq<Seq<Real>>,
    after: Ladder,
) -> bool {
    &&& after.local == before.local
    &&& after.prune == before.prune
    &&& exists|drawn: Seq<Seq<Real>>, walked: Seq<Seq<Real>>| #[trigger]
        are_parts(system, arithmetic, before, deliver, walk, count, held, drawn, walked, after) && batch == drawn
            + walked
}

/// Whether so much was drawn and so much walked, where each was asked.
pub open spec fn are_parts<
    E: Evaluate,
    D: Fn(&Sampler, usize) -> (Trial, Xoshiro256PlusPlus),
    W: Fn(&Xoshiro256PlusPlus, &Vec<Point>, usize) -> (Vec<Point>, Xoshiro256PlusPlus),
>(
    system: ConstraintSystem<E>,
    arithmetic: Arithmetic,
    before: Ladder,
    deliver: D,
    walk: W,
    count: usize,
    held: Seq<Seq<Real>>,
    drawn: Seq<Seq<Real>>,
    walked: Seq<Seq<Real>>,
    after: Ladder,
) -> bool {
    let walks = before.walker is Some && drawn.len() < count;
    &&& before.sampler is Some ==> after.sampler is Some && is_delivered(
        system,
        deliver,
        before.sampler->0,
        count,
        drawn,
        after.sampler->0,
    )
    &&& before.sampler is None ==> drawn.len() == 0 && after.sampler is None
    &&& walks ==> after.walker is Some && is_walked(
        system,
        arithmetic,
        walk,
        before.walker->0,
        held + drawn,
        count - drawn.len(),
        walked,
        after.walker->0,
    )
    &&& !walks ==> walked.len() == 0 && after.walker == before.walker
}

/// At most `count` feasible points, and everything in hand with them. Sampling
/// goes first, because it is unbiased and needs no burn-in, and the walk fills
/// what it left short. Fewer than asked for is normal. Never more, and never an
/// infeasible one.
pub fn next_batch<
    E: Evaluate,
    M: Machine,
    D: Fn(&Sampler, usize) -> (Trial, Xoshiro256PlusPlus),
    W: Fn(&Xoshiro256PlusPlus, &Vec<Point>, usize) -> (Vec<Point>, Xoshiro256PlusPlus),
>(
    problem: &ConstraintSystem<E>,
    machine: &M,
    ladder: &mut Ladder,
    deliver: &D,
    walk: &W,
    held: Vec<Point>,
    count: usize,
) -> (next: (Vec<Point>, Vec<Point>))
    requires
        problem.well_formed(),
        all_fit(held@, problem.variables@.len()),
        forall|sampler: &Sampler| #[trigger] call_requires(*deliver, (sampler, count)),
        forall|stream: &Xoshiro256PlusPlus, from: &Vec<Point>, short: usize| #[trigger]
            call_requires(*walk, (stream, from, short)),
    ensures
        old(ladder).is_but_for_draws(*final(ladder)),
        all_fit(next.0@, problem.variables@.len()),
        all_fit(next.1@, problem.variables@.len()),
        points(next.1@) == points(held@) + points(next.0@),
        next.0@.len() <= count,
        deterministic(*machine) && problem.judged() ==> are_judged_feasible(
            *problem,
            arithmetic_of(*machine),
            points(next.0@),
        ),
        deterministic(*machine) && problem.judged() ==> is_batch(
            *problem,
            arithmetic_of(*machine),
            *old(ladder),
            *deliver,
            *walk,
            count,
            points(held@),
            points(next.0@),
            *final(ladder),
        ),
{
    let ghost known = deterministic(*machine) && problem.judged();
    let ghost arithmetic = arithmetic_of(*machine);
    let ghost first = points(held@);
    let ghost before = *ladder;
    let dimensions: usize = problem.variables.len();
    let mut held = held;
    let mut batch: Vec<Point> = Vec::new();
    assert(points(batch@) =~= Seq::<Seq<Real>>::empty());
    if ladder.sampler.is_some() {
        let mut sampler = ladder.sampler.take().unwrap();
        let (trial, after) = deliver(&sampler, count);
        let ghost asked = sampler;
        sampler.stream = after;
        ladder.sampler = Some(sampler);
        batch = problem.feasible_columns(&trial.points);
        let ghost whole = batch@;
        batch.truncate(count);
        proof {
            assert(call_ensures(*deliver, (&asked, count), (trial, sampler.stream)));
            assert(points(batch@) =~= at_most_of(points(whole), count as int));
            assert forall|i: int| 0 <= i < batch@.len() implies (#[trigger] batch@[i])@.len() == dimensions by {
                assert(batch@[i] == whole[i]);
            }
        }
    }
    let ghost drawn = points(batch@);
    let mut all = copies(&batch, batch.len());
    assert(points(batch@).take(batch@.len() as int) =~= points(batch@));
    hold_all(&mut held, all, dimensions);
    assert(drawn.len() == batch@.len());
    let ghost mut walked: Seq<Seq<Real>> = Seq::empty();
    if batch.len() < count && ladder.walker.is_some() {
        let short: usize = count - batch.len();
        let stream = ladder.walker.take().unwrap();
        let (found, after) = walk(&stream, &held, short);
        ladder.walker = Some(after);
        let ghost answer = found;
        let mut kept = feasible_ones(problem, machine, found);
        let ghost whole = kept@;
        kept.truncate(short);
        proof {
            assert(points(kept@) =~= at_most_of(points(whole), short as int));
            assert forall|i: int| 0 <= i < kept@.len() implies (#[trigger] kept@[i])@.len() == dimensions by {
                assert(kept@[i] == whole[i]);
            }
            walked = points(kept@);
            assert(call_ensures(*walk, (&stream, &held, (count - drawn.len()) as usize), (answer, after)));
        }
        let more = copies(&kept, kept.len());
        assert(points(kept@).take(kept@.len() as int) =~= points(kept@));
        hold_all(&mut held, more, dimensions);
        hold_all(&mut batch, kept, dimensions);
        assert(points(held@) =~= first + (drawn + walked));
    }
    proof {
        assert(points(batch@) =~= drawn + walked);
        assert(points(held@) =~= first + (drawn + walked));
        if known {
            assert(are_parts(
                *problem,
                arithmetic,
                before,
                *deliver,
                *walk,
                count,
                first,
                drawn,
                walked,
                *ladder,
            ));
            every_batch_is_feasible(
                *problem,
                arithmetic,
                before,
                *deliver,
                *walk,
                count,
                first,
                points(batch@),
                *ladder,
            );
        }
    }
    (batch, held)
}

/// What becomes of a batch.
#[derive(Debug, Clone, Copy, PartialEq, Eq, Structural)]
pub enum Next {
    /// It is handed over.
    Send,
    /// It is empty, which by itself is not proof: another is produced.
    Again,
    /// It is the last of so many empty ones that there is nothing left.
    Stop,
}

/// How many empty batches there have been in a row after one more, and what
/// becomes of it.
pub fn after_batch(barren: usize, empty: bool) -> (next: (usize, Next))
    requires
        barren < BARREN_BATCHES,
    ensures
        !empty ==> next == (0usize, Next::Send),
        empty ==> next.0 == barren + 1,
        empty && barren + 1 < BARREN_BATCHES ==> next.1 == Next::Again,
        empty && barren + 1 >= BARREN_BATCHES ==> next.1 == Next::Stop,
{
    if !empty {
        (0, Next::Send)
    } else if barren + 1 >= BARREN_BATCHES {
        (barren + 1, Next::Stop)
    } else {
        (barren + 1, Next::Again)
    }
}

/// The opening of a search from hints: judged, not trusted.
pub fn serve<
    E: Evaluate,
    I: Intervals,
    M: Machine,
    P: Fn(&Sampler) -> (Trial, Xoshiro256PlusPlus),
    Q: Fn(&Sampler) -> (Trial, Xoshiro256PlusPlus),
    B: Fn(&Xoshiro256PlusPlus) -> (Real, Xoshiro256PlusPlus),
    F: Fn(&Seeding, &Vec<Real>, u64) -> Option<Point>,
    C: Fn() -> bool,
>(
    problem: &ConstraintSystem<E>,
    intervals: &I,
    machine: &M,
    squad: &Squad<P, Q, B, F, C>,
    ladder: &mut Ladder,
    hints: Vec<Point>,
) -> (end: (Opening, Vec<Point>))
    requires
        problem.well_formed(),
        can_search(*squad),
    ensures
        old(ladder).is_but_for_draws(*final(ladder)),
        all_fit(end.1@, problem.variables@.len()),
        names_constraints(end.0, problem.constraints@.len() as int),
        blames_some(end.0, problem.constraints@.len() as int),
        end.0 is Satisfied || end.0 is Contradicted <==> end.1@.len() > 0,
        deterministic(*machine) && problem.judged() ==> passing(
            *problem,
            arithmetic_of(*machine),
            points(hints@),
        ).is_prefix_of(points(end.1@)),
        is_known(*problem, *intervals, *machine) ==> {
            let held = passing(*problem, arithmetic_of(*machine), points(hints@));
            &&& are_judged_feasible(*problem, arithmetic_of(*machine), points(end.1@))
            &&& exists|findings: Findings|
                {
                    &&& #[trigger] are_findings(
                        *problem,
                        *intervals,
                        *machine,
                        *squad,
                        *old(ladder),
                        held,
                        findings,
                    )
                    &&& *final(ladder) == left_by(*old(ladder), findings)
                    &&& (Opened { verdict: end.0@, points: points(end.1@) }) == opened(
                        *problem,
                        enclosures_of(*intervals),
                        arithmetic_of(*machine),
                        old(ladder).rungs(),
                        held,
                        findings,
                    )
                }
        },
{
    let ghost arithmetic = arithmetic_of(*machine);
    let ghost hinted = points(hints@);
    let held = feasible_ones(problem, machine, hints);
    let ghost first = points(held@);
    let ghost before = *ladder;
    let end = open(problem, intervals, machine, squad, ladder, held);
    proof {
        if is_known(*problem, *intervals, *machine) {
            let findings = choose|findings: Findings|
                {
                    &&& #[trigger] are_findings(
                        *problem,
                        *intervals,
                        *machine,
                        *squad,
                        before,
                        first,
                        findings,
                    )
                    &&& *ladder == left_by(before, findings)
                    &&& (Opened { verdict: end.0@, points: points(end.1@) }) == opened(
                        *problem,
                        enclosures_of(*intervals),
                        arithmetic,
                        before.rungs(),
                        first,
                        findings,
                    )
                };
            what_passes_is_feasible(*problem, arithmetic, hinted);
            every_point_in_hand_is_feasible(
                *problem,
                *intervals,
                *machine,
                *squad,
                before,
                first,
                findings,
            );
        }
    }
    end
}

proof fn what_passes_is_feasible<E: Evaluate>(system: ConstraintSystem<E>, arithmetic: Arithmetic, list: Seq<Seq<Real>>)
    ensures
        are_judged_feasible(system, arithmetic, passing(system, arithmetic, list)),
    decreases list.len(),
{
    if list.len() > 0 {
        what_passes_is_feasible(system, arithmetic, list.drop_last());
        let before = passing(system, arithmetic, list.drop_last());
        let after = passing(system, arithmetic, list);
        assert forall|i: int| 0 <= i < after.len() implies is_judged_feasible(system, arithmetic, #[trigger] after[i]) by {
            if i < before.len() {
                assert(after[i] == before[i]);
            }
        }
    }
}

/// Whatever a batch holds passes the oracle, and it holds no more than was asked
/// for.
pub proof fn every_batch_is_feasible<
    E: Evaluate,
    D: Fn(&Sampler, usize) -> (Trial, Xoshiro256PlusPlus),
    W: Fn(&Xoshiro256PlusPlus, &Vec<Point>, usize) -> (Vec<Point>, Xoshiro256PlusPlus),
>(
    system: ConstraintSystem<E>,
    arithmetic: Arithmetic,
    before: Ladder,
    deliver: D,
    walk: W,
    count: usize,
    held: Seq<Seq<Real>>,
    batch: Seq<Seq<Real>>,
    after: Ladder,
)
    requires
        is_batch(system, arithmetic, before, deliver, walk, count, held, batch, after),
    ensures
        are_judged_feasible(system, arithmetic, batch),
        batch.len() <= count,
{
    let (drawn, walked) = choose|drawn: Seq<Seq<Real>>, walked: Seq<Seq<Real>>| #[trigger]
        are_parts(system, arithmetic, before, deliver, walk, count, held, drawn, walked, after) && batch == drawn
            + walked;
    if let Some(sampler) = before.sampler {
        let left = after.sampler->0;
        let trial = choose|trial: Trial| #[trigger]
            call_ensures(deliver, (&sampler, count), (trial, left.stream)) && drawn == at_most_of(
                system.survivors(points(trial.points@)),
                count as int,
            );
        survivors_are_feasible(system, arithmetic, points(trial.points@));
    }
    if before.walker is Some && drawn.len() < count {
        let short = count - drawn.len();
        let (from, found) = choose|from: Vec<Point>, found: Vec<Point>|
            {
                &&& #[trigger] call_ensures(
                    walk,
                    (&before.walker->0, &from, short as usize),
                    (found, after.walker->0),
                )
                &&& points(from@) == held + drawn
                &&& walked == at_most_of(passing(system, arithmetic, points(found@)), short)
            };
        what_passes_is_feasible(system, arithmetic, points(found@));
    }
    assert forall|i: int| 0 <= i < batch.len() implies is_judged_feasible(system, arithmetic, #[trigger] batch[i]) by {
        if i < drawn.len() {
            assert(batch[i] == drawn[i]);
        } else {
            assert(batch[i] == walked[i - drawn.len()]);
        }
    }
}

// ---- batches, the same every time ----

/// Whether what a sampler delivers is a function of it and of how much is asked.
pub open spec fn delivers_steadily<D: Fn(&Sampler, usize) -> (Trial, Xoshiro256PlusPlus)>(deliver: D) -> bool {
    forall|s: &Sampler, t: &Sampler, count: usize, a: (Trial, Xoshiro256PlusPlus), b: (Trial, Xoshiro256PlusPlus)|
        #![trigger call_ensures(deliver, (s, count), a), call_ensures(deliver, (t, count), b)]
        call_ensures(deliver, (s, count), a) && call_ensures(deliver, (t, count), b) && samplers_agree(*s, *t)
            ==> are_answers_alike(a, b)
}

/// Whether a walk is a function of its stream, the points in hand and how much is
/// asked.
pub open spec fn walks_steadily<
    W: Fn(&Xoshiro256PlusPlus, &Vec<Point>, usize) -> (Vec<Point>, Xoshiro256PlusPlus),
>(walk: W) -> bool {
    forall|
        g: &Xoshiro256PlusPlus,
        h: &Xoshiro256PlusPlus,
        from: &Vec<Point>,
        others: &Vec<Point>,
        short: usize,
        a: (Vec<Point>, Xoshiro256PlusPlus),
        b: (Vec<Point>, Xoshiro256PlusPlus),
    |
        #![trigger call_ensures(walk, (g, from, short), a), call_ensures(walk, (h, others, short), b)]
        call_ensures(walk, (g, from, short), a) && call_ensures(walk, (h, others, short), b) && words(*g) == words(*h)
            && points(from@) == points(others@) ==> points(a.0@) == points(b.0@) && words(a.1) == words(b.1)
}

/// A batch is the same every time: where what delivers and what walks are
/// functions of what they are asked with, two batches with the same points in
/// hand, from ladders that agree, have the same points in the same order, and
/// leave ladders that agree.
pub proof fn a_batch_is_the_same_every_time<
    E: Evaluate,
    D: Fn(&Sampler, usize) -> (Trial, Xoshiro256PlusPlus),
    W: Fn(&Xoshiro256PlusPlus, &Vec<Point>, usize) -> (Vec<Point>, Xoshiro256PlusPlus),
>(
    system: ConstraintSystem<E>,
    arithmetic: Arithmetic,
    deliver: D,
    walk: W,
    count: usize,
    held: Seq<Seq<Real>>,
    ladder: Ladder,
    first: Seq<Seq<Real>>,
    after: Ladder,
    other: Ladder,
    second: Seq<Seq<Real>>,
    left: Ladder,
)
    requires
        delivers_steadily(deliver),
        walks_steadily(walk),
        ladders_agree(ladder, other),
        is_batch(system, arithmetic, ladder, deliver, walk, count, held, first, after),
        is_batch(system, arithmetic, other, deliver, walk, count, held, second, left),
    ensures
        first == second,
        ladders_agree(after, left),
{
    let (a, x) = choose|drawn: Seq<Seq<Real>>, walked: Seq<Seq<Real>>| #[trigger]
        are_parts(system, arithmetic, ladder, deliver, walk, count, held, drawn, walked, after) && first == drawn
            + walked;
    let (b, y) = choose|drawn: Seq<Seq<Real>>, walked: Seq<Seq<Real>>| #[trigger]
        are_parts(system, arithmetic, other, deliver, walk, count, held, drawn, walked, left) && second == drawn
            + walked;
    if ladder.sampler is Some {
        let (s, after_s) = (ladder.sampler->0, after.sampler->0);
        let (t, after_t) = (other.sampler->0, left.sampler->0);
        let p = choose|trial: Trial| #[trigger]
            call_ensures(deliver, (&s, count), (trial, after_s.stream)) && a == at_most_of(
                system.survivors(points(trial.points@)),
                count as int,
            );
        let q = choose|trial: Trial| #[trigger]
            call_ensures(deliver, (&t, count), (trial, after_t.stream)) && b == at_most_of(
                system.survivors(points(trial.points@)),
                count as int,
            );
        assert(call_ensures(deliver, (&s, count), (p, after_s.stream)));
        assert(call_ensures(deliver, (&t, count), (q, after_t.stream)));
        assert(are_answers_alike((p, after_s.stream), (q, after_t.stream)));
    } else {
        assert(a =~= b);
    }
    if ladder.walker is Some && a.len() < count {
        let short = count - a.len();
        let (g, after_g) = (ladder.walker->0, after.walker->0);
        let (h, after_h) = (other.walker->0, left.walker->0);
        let (from, p) = choose|from: Vec<Point>, found: Vec<Point>|
            {
                &&& #[trigger] call_ensures(walk, (&g, &from, short as usize), (found, after_g))
                &&& points(from@) == held + a
                &&& x == at_most_of(passing(system, arithmetic, points(found@)), short)
            };
        let (others, q) = choose|from: Vec<Point>, found: Vec<Point>|
            {
                &&& #[trigger] call_ensures(walk, (&h, &from, short as usize), (found, after_h))
                &&& points(from@) == held + b
                &&& y == at_most_of(passing(system, arithmetic, points(found@)), short)
            };
        assert(call_ensures(walk, (&g, &from, short as usize), (p, after_g)));
        assert(call_ensures(walk, (&h, &others, short as usize), (q, after_h)));
        assert(points(p@) == points(q@));
    } else {
        assert(x =~= y);
    }
}

/// The points of batches, in the order they are handed out.
pub open spec fn handed_out(batches: Seq<Seq<Seq<Real>>>) -> Seq<Seq<Real>>
    decreases batches.len(),
{
    if batches.len() == 0 {
        Seq::empty()
    } else {
        handed_out(batches.drop_last()) + batches.last()
    }
}

/// Whether batches follow one another: each with everything in hand that was
/// there or was handed out before it, from the ladder as the one before left it.
pub open spec fn are_batches<
    E: Evaluate,
    D: Fn(&Sampler, usize) -> (Trial, Xoshiro256PlusPlus),
    W: Fn(&Xoshiro256PlusPlus, &Vec<Point>, usize) -> (Vec<Point>, Xoshiro256PlusPlus),
>(
    system: ConstraintSystem<E>,
    arithmetic: Arithmetic,
    deliver: D,
    walk: W,
    count: usize,
    held: Seq<Seq<Real>>,
    before: Ladder,
    batches: Seq<Seq<Seq<Real>>>,
    after: Ladder,
) -> bool
    decreases batches.len(),
{
    if batches.len() == 0 {
        after == before
    } else {
        exists|between: Ladder|
            are_batches(system, arithmetic, deliver, walk, count, held, before, batches.drop_last(), between)
                && #[trigger] is_batch(
                system,
                arithmetic,
                between,
                deliver,
                walk,
                count,
                held + handed_out(batches.drop_last()),
                batches.last(),
                after,
            )
    }
}

proof fn batches_are_the_same<
    E: Evaluate,
    D: Fn(&Sampler, usize) -> (Trial, Xoshiro256PlusPlus),
    W: Fn(&Xoshiro256PlusPlus, &Vec<Point>, usize) -> (Vec<Point>, Xoshiro256PlusPlus),
>(
    system: ConstraintSystem<E>,
    arithmetic: Arithmetic,
    deliver: D,
    walk: W,
    count: usize,
    held: Seq<Seq<Real>>,
    ladder: Ladder,
    a: Seq<Seq<Seq<Real>>>,
    after: Ladder,
    other: Ladder,
    b: Seq<Seq<Seq<Real>>>,
    left: Ladder,
)
    requires
        delivers_steadily(deliver),
        walks_steadily(walk),
        ladders_agree(ladder, other),
        a.len() == b.len(),
        are_batches(system, arithmetic, deliver, walk, count, held, ladder, a, after),
        are_batches(system, arithmetic, deliver, walk, count, held, other, b, left),
    ensures
        a == b,
        ladders_agree(after, left),
    decreases a.len(),
{
    if a.len() > 0 {
        let first = a.drop_last();
        let second = b.drop_last();
        let x = choose|between: Ladder|
            are_batches(system, arithmetic, deliver, walk, count, held, ladder, first, between) && #[trigger] is_batch(
                system,
                arithmetic,
                between,
                deliver,
                walk,
                count,
                held + handed_out(first),
                a.last(),
                after,
            );
        let y = choose|between: Ladder|
            are_batches(system, arithmetic, deliver, walk, count, held, other, second, between) && #[trigger] is_batch(
                system,
                arithmetic,
                between,
                deliver,
                walk,
                count,
                held + handed_out(second),
                b.last(),
                left,
            );
        batches_are_the_same(system, arithmetic, deliver, walk, count, held, ladder, first, x, other, second, y);
        a_batch_is_the_same_every_time(
            system,
            arithmetic,
            deliver,
            walk,
            count,
            held + handed_out(first),
            x,
            a.last(),
            after,
            y,
            b.last(),
            left,
        );
        assert(a =~= first.push(a.last()));
        assert(b =~= second.push(b.last()));
    } else {
        assert(a =~= b);
    }
}

/// Ladders of one list of strategies over one generator's state agree.
pub proof fn one_state_makes_one_ladder(
    state: Seq<u64>,
    strategies: Seq<Strategy>,
    budgets: Budgets,
    ladder: Ladder,
    other: Ladder,
)
    requires
        ladder.is_of(state, strategies, budgets, strategies.len() as int),
        other.is_of(state, strategies, budgets, strategies.len() as int),
    ensures
        ladders_agree(ladder, other),
{
}

/// A search is a function of its seed and its budgets: two searches of one system
/// whose ladders are of one list of strategies over one generator's state, with
/// the same points in hand, conclude the same and hand out the same points in the
/// same order, where everyone who is asked is a function of what they are asked
/// with and the caller stays.
pub proof fn a_search_is_a_function_of_its_seed<
    E: Evaluate,
    I: Intervals,
    M: Machine,
    P: Fn(&Sampler) -> (Trial, Xoshiro256PlusPlus),
    Q: Fn(&Sampler) -> (Trial, Xoshiro256PlusPlus),
    B: Fn(&Xoshiro256PlusPlus) -> (Real, Xoshiro256PlusPlus),
    F: Fn(&Seeding, &Vec<Real>, u64) -> Option<Point>,
    C: Fn() -> bool,
    D: Fn(&Sampler, usize) -> (Trial, Xoshiro256PlusPlus),
    W: Fn(&Xoshiro256PlusPlus, &Vec<Point>, usize) -> (Vec<Point>, Xoshiro256PlusPlus),
>(
    system: ConstraintSystem<E>,
    intervals: I,
    machine: M,
    squad: Squad<P, Q, B, F, C>,
    deliver: D,
    walk: W,
    state: Seq<u64>,
    strategies: Seq<Strategy>,
    budgets: Budgets,
    held: Seq<Seq<Real>>,
    count: usize,
    ladder: Ladder,
    first: Findings,
    a: Seq<Seq<Seq<Real>>>,
    after: Ladder,
    other: Ladder,
    second: Findings,
    b: Seq<Seq<Seq<Real>>>,
    left: Ladder,
)
    requires
        deterministic(machine),
        answers_steadily(squad),
        delivers_steadily(deliver),
        walks_steadily(walk),
        ladder.is_of(state, strategies, budgets, strategies.len() as int),
        other.is_of(state, strategies, budgets, strategies.len() as int),
        are_findings(system, intervals, machine, squad, ladder, held, first),
        are_findings(system, intervals, machine, squad, other, held, second),
        a.len() == b.len(),
        ({
            let end = opened(system, enclosures_of(intervals), arithmetic_of(machine), ladder.rungs(), held, first);
            let start = left_by(ladder, first);
            are_batches(system, arithmetic_of(machine), deliver, walk, count, end.points, start, a, after)
        }),
        ({
            let end = opened(system, enclosures_of(intervals), arithmetic_of(machine), other.rungs(), held, second);
            let start = left_by(other, second);
            are_batches(system, arithmetic_of(machine), deliver, walk, count, end.points, start, b, left)
        }),
    ensures
        opened(system, enclosures_of(intervals), arithmetic_of(machine), ladder.rungs(), held, first) == opened(
            system,
            enclosures_of(intervals),
            arithmetic_of(machine),
            other.rungs(),
            held,
            second,
        ),
        a == b,
        handed_out(a) == handed_out(b),
{
    one_state_makes_one_ladder(state, strategies, budgets, ladder, other);
    an_opening_is_the_same_every_time(system, intervals, machine, squad, ladder, other, held, first, second);
    let end = opened(system, enclosures_of(intervals), arithmetic_of(machine), ladder.rungs(), held, first);
    batches_are_the_same(
        system,
        arithmetic_of(machine),
        deliver,
        walk,
        count,
        end.points,
        left_by(ladder, first),
        a,
        after,
        left_by(other, second),
        b,
        left,
    );
}

} // verus!
