//! The solve: how hard to search, and what a search hands back.
//!
//! [`ConstraintSolver`] is every knob (the seed, the budgets, the strategies)
//! with a default for each. [`FeasibleRegion`] is what a satisfied search
//! returns: the solved region, from which feasible points are taken in the
//! order they arrive. The verdicts say what a search concluded, and whether
//! that was a proof or a shrug.

use vstd::prelude::*;
use rand::rngs::Xoshiro256PlusPlus;
use crate::interval::Intervals;
use crate::local::{Landing, Projected, Projection};
use crate::machine::{arithmetic_of, deterministic, Arithmetic, Machine};
use crate::newton::{row_count, ROUNDS_TO_SPARE};
use crate::number::{zero, Real};
use crate::random::{expanded, seeded, unpredictable, words};
use crate::repair::{
    are_judged, are_outcomes, are_same, can_help, helps_steadily, is_answer,
    is_deterministic, keeps_its_word, repair, repaired_by, the_repair, Helpers, Outcomes, RepairError, Repaired,
};
use crate::search::{all_fit, are_judged_feasible, names_constraints, Ladder, Opening};
use crate::system::{points, ConstraintRef, ConstraintSystem, Evaluate, Point};
use crate::text::{contents, join, joined};

verus! {

/// Which strategies a search may use.
#[derive(Debug, Clone, Copy, PartialEq, Eq, Structural)]
pub enum Strategy {
    /// Rejection sampling over the declared box, never narrowed: the probe, what
    /// delivers where the probe succeeds, and the brute squad where nothing else
    /// found a point.
    BruteSquad,
    /// Walks the chord of the region through the current point.
    HitAndRun,
    /// A local solve for a first point where the probe found none. It cannot
    /// prove a region empty.
    LocalSolve,
    /// Interval contraction and bisection: what can prove a region empty, and
    /// what finds its pieces.
    Prune,
}

/// What is used unless a caller says otherwise. The order is cosmetic but for
/// the streams: the order of escalation is fixed by the opening.
#[verifier::allow_in_spec]
pub fn default_strategies() -> [Strategy; 4]
    returns
        [Strategy::BruteSquad, Strategy::LocalSolve, Strategy::HitAndRun, Strategy::Prune],
{
    [Strategy::BruteSquad, Strategy::LocalSolve, Strategy::HitAndRun, Strategy::Prune]
}

/// Candidates brute force proposes before giving up.
pub const DEFAULT_PROPOSAL_BUDGET: u64 = 1_000_000_000;

/// How many contractions a bisection may spend.
pub const DEFAULT_PRUNE_BUDGET: u32 = 256;

/// Candidates brute force proposes on a device before giving up.
pub const DEFAULT_GPU_PROPOSAL_BUDGET: u64 = 30_000_000_000;

/// The environment variable that picks the device brute force runs on.
pub const GPU_VARIABLE: &'static str = "SOJOURN_GPU";

/// How much each strategy may spend before handing over. Every one a count
/// rather than a clock, so that the same seed reaches the same verdict on every
/// machine; the thread count changes only how soon.
#[derive(Debug, Clone, Copy)]
pub struct Budgets {
    pub proposals: u64,
    /// As many as the machine has, where there is none.
    pub threads: Option<usize>,
    pub prune: u32,
    pub gpu: bool,
    pub gpu_proposals: u64,
}

/// The budgets unless a caller says otherwise.
#[verifier::allow_in_spec]
pub fn default_budgets() -> Budgets
    returns
        (Budgets {
            proposals: DEFAULT_PROPOSAL_BUDGET,
            threads: None,
            prune: DEFAULT_PRUNE_BUDGET,
            gpu: true,
            gpu_proposals: DEFAULT_GPU_PROPOSAL_BUDGET,
        }),
{
    Budgets {
        proposals: DEFAULT_PROPOSAL_BUDGET,
        threads: None,
        prune: DEFAULT_PRUNE_BUDGET,
        gpu: true,
        gpu_proposals: DEFAULT_GPU_PROPOSAL_BUDGET,
    }
}

/// Everything a solve needs beyond the problem: the randomness, any points the
/// caller already believes in, the strategies and the budgets. Not `Clone`: two
/// solvers sharing a stream would produce the same points.
#[derive(Debug)]
pub struct ConstraintSolver {
    pub rng: Xoshiro256PlusPlus,
    pub known_feasible: Vec<Point>,
    pub strategies: Vec<Strategy>,
    pub budgets: Budgets,
}

impl Default for ConstraintSolver {
    fn default() -> (solver: Self)
        ensures
            solver.known_feasible@.len() == 0,
            solver.strategies@ == default_strategies()@,
            solver.budgets == default_budgets(),
    {
        let mut strategies: Vec<Strategy> = Vec::new();
        strategies.push(Strategy::BruteSquad);
        strategies.push(Strategy::LocalSolve);
        strategies.push(Strategy::HitAndRun);
        strategies.push(Strategy::Prune);
        assert(strategies@ =~= default_strategies()@);
        Self { rng: unpredictable(), known_feasible: Vec::new(), strategies, budgets: default_budgets() }
    }
}

impl ConstraintSolver {
    pub fn new() -> (solver: Self)
        ensures
            solver.known_feasible@.len() == 0,
            solver.strategies@ == default_strategies()@,
            solver.budgets == default_budgets(),
    {
        Self::default()
    }

    /// Points the caller already believes are feasible: a hint, not an
    /// assertion.
    pub fn with_known_feasible(self, points: Vec<Point>) -> (solver: Self)
        ensures
            solver == (ConstraintSolver { known_feasible: points, ..self }),
    {
        Self { known_feasible: points, ..self }
    }

    /// Pins the randomness, so that a run is reproducible.
    pub fn with_seed(self, seed: u64) -> (solver: Self)
        ensures
            words(solver.rng) == expanded(seed),
            solver == (ConstraintSolver { rng: solver.rng, ..self }),
    {
        self.with_rng(seeded(seed))
    }

    /// Pins the generator itself.
    pub fn with_rng(self, rng: Xoshiro256PlusPlus) -> (solver: Self)
        ensures
            solver == (ConstraintSolver { rng, ..self }),
    {
        Self { rng, ..self }
    }

    /// Pins the strategies.
    pub fn with_strategies(self, strategies: Vec<Strategy>) -> (solver: Self)
        ensures
            solver == (ConstraintSolver { strategies, ..self }),
    {
        Self { strategies, ..self }
    }

    /// How many candidates brute force may propose before giving up.
    pub fn with_proposal_budget(self, proposals: u64) -> (solver: Self)
        ensures
            solver == (ConstraintSolver { budgets: Budgets { proposals, ..self.budgets }, ..self }),
    {
        Self { budgets: Budgets { proposals, ..self.budgets }, ..self }
    }

    /// How many contractions a bisection may spend. At zero the declared box is
    /// contracted once and never split.
    pub fn with_prune_budget(self, contractions: u32) -> (solver: Self)
        ensures
            solver == (ConstraintSolver { budgets: Budgets { prune: contractions, ..self.budgets }, ..self }),
    {
        Self { budgets: Budgets { prune: contractions, ..self.budgets }, ..self }
    }

    /// Whether brute force may run on a device.
    pub fn with_gpu(self, enabled: bool) -> (solver: Self)
        ensures
            solver == (ConstraintSolver { budgets: Budgets { gpu: enabled, ..self.budgets }, ..self }),
    {
        Self { budgets: Budgets { gpu: enabled, ..self.budgets }, ..self }
    }

    /// How many candidates brute force may propose on a device before giving
    /// up.
    pub fn with_gpu_proposal_budget(self, proposals: u64) -> (solver: Self)
        ensures
            solver == (ConstraintSolver { budgets: Budgets { gpu_proposals: proposals, ..self.budgets }, ..self }),
    {
        Self { budgets: Budgets { gpu_proposals: proposals, ..self.budgets }, ..self }
    }

    /// Pins how many threads brute force fans out over, which never changes what
    /// is found.
    pub fn with_threads(self, threads: usize) -> (solver: Self)
        ensures
            solver == (ConstraintSolver { budgets: Budgets { threads: Some(threads), ..self.budgets }, ..self }),
    {
        Self { budgets: Budgets { threads: Some(threads), ..self.budgets }, ..self }
    }
}

impl ConstraintSolver {
    /// What a search starts from: its ladder, and the hints.
    pub fn start(self) -> (begin: (Ladder, Vec<Point>))
        ensures
            begin.0.is_of(words(self.rng), self.strategies@, self.budgets, self.strategies@.len() as int),
            begin.1 == self.known_feasible,
    {
        let ConstraintSolver { rng, known_feasible, strategies, budgets } = self;
        (Ladder::new(rng, &strategies, budgets), known_feasible)
    }
}

/// Why no sample was produced, and whether that is a proof or a shrug. Two
/// variants rather than a flag, because they are different sentences to whoever
/// reads the result.
#[derive(Debug)]
#[non_exhaustive]
pub enum Infeasibility {
    /// Interval reasoning proved that no point exists, and these are the
    /// constraints its proof used.
    Proved { blamed: Vec<ConstraintRef> },
    /// Nothing was found and nothing could be proved, which is not a claim that
    /// the region is empty. Nothing could be concluded from these constraints.
    NotFound { unexpressed: Vec<ConstraintRef> },
}

/// Constraints as written, each in quotes.
pub open spec fn quotes(constraints: Seq<ConstraintRef>) -> Seq<Seq<char>> {
    constraints.map_values(|constraint: ConstraintRef| "`"@ + constraint.source@ + "`"@)
}

fn list_quotes(constraints: &Vec<ConstraintRef>) -> (text: String)
    ensures
        text@ == joined(quotes(constraints@), ", "@),
{
    let mut parts: Vec<String> = Vec::new();
    for i in 0..constraints.len()
        invariant
            contents(parts@) =~= quotes(constraints@).take(i as int),
    {
        let mut part = "`".to_owned();
        part.append(constraints[i].source.as_str());
        part.append("`");
        let ghost before = parts@;
        parts.push(part);
        proof {
            assert(contents(parts@) =~= contents(before).push(part@));
            assert(part@ =~= quotes(constraints@)[i as int]);
        }
    }
    assert(quotes(constraints@).take(constraints@.len() as int) =~= quotes(constraints@));
    join(&parts, ", ")
}

impl Infeasibility {
    /// The sentence this is.
    pub open spec fn sentence(self) -> Seq<char> {
        match self {
            Infeasibility::Proved { blamed } => "no point satisfies these constraints together: "@ + joined(
                quotes(blamed@),
                ", "@,
            ),
            Infeasibility::NotFound { unexpressed } => {
                let first =
                    "no feasible point was found: nothing proved the region empty and sampling found nothing"@;
                if unexpressed@.len() == 0 {
                    first
                } else {
                    first + "; nothing could be concluded from "@ + joined(quotes(unexpressed@), ", "@)
                }
            },
        }
    }

    /// A conflict names the constraints in it, and a shrug says what was tried
    /// and, where some constraint was beyond interval reasoning, which.
    pub fn text(&self) -> (text: String)
        ensures
            text@ == self.sentence(),
    {
        match self {
            Infeasibility::Proved { blamed } => {
                let mut text = "no point satisfies these constraints together: ".to_owned();
                text.append(list_quotes(blamed).as_str());
                text
            },
            Infeasibility::NotFound { unexpressed } => {
                let mut text =
                    "no feasible point was found: nothing proved the region empty and sampling found nothing".to_owned();
                if unexpressed.len() > 0 {
                    text.append("; nothing could be concluded from ");
                    text.append(list_quotes(unexpressed).as_str());
                }
                text
            },
        }
    }
}

/// What a region is doing, when it is not simply handing over points.
#[derive(Debug, Clone, Copy, PartialEq, Eq, Structural)]
pub enum Status {
    /// Still producing, or at least still trying.
    Filling,
    /// There will be no more points, ever.
    Exhausted,
}

/// A solved region: the system a search found feasible points in, and the
/// points that have arrived and not been taken. Batches are handed to it as
/// they come.
#[derive(Debug)]
pub struct FeasibleRegion<E> {
    pub system: ConstraintSystem<E>,
    pub buffer: Vec<Point>,
    /// Whether the producer is gone.
    pub exhausted: bool,
    /// Whether the producer is asked to stop.
    pub closed: bool,
}

/// The smaller of how many are asked for and how many there are.
pub open spec fn taken_of(count: int, there: int) -> int {
    if count < there {
        count
    } else {
        there
    }
}

impl<E> FeasibleRegion<E> {
    pub open spec fn well_formed(&self) -> bool {
        self.system.well_formed() && all_fit(self.buffer@, self.system.variables@.len())
    }

    /// The system this region was solved over.
    pub fn system(&self) -> (system: &ConstraintSystem<E>)
        ensures
            *system == self.system,
    {
        &self.system
    }

    /// A batch arrived.
    pub fn receive(&mut self, batch: Vec<Point>)
        requires
            old(self).well_formed(),
            all_fit(batch@, old(self).system.variables@.len()),
        ensures
            final(self).well_formed(),
            final(self).buffer@ == old(self).buffer@ + batch@,
            final(self).system == old(self).system,
            final(self).exhausted == old(self).exhausted,
            final(self).closed == old(self).closed,
    {
        let ghost first = self.buffer@;
        let ghost second = batch@;
        let mut batch = batch;
        self.buffer.append(&mut batch);
        proof {
            assert(self.buffer@ =~= first + second);
            assert forall|i: int| 0 <= i < self.buffer@.len() implies (#[trigger] self.buffer@[i])@.len()
                == self.system.variables@.len() by {
                if i < first.len() {
                    assert(self.buffer@[i] == first[i]);
                } else {
                    assert(self.buffer@[i] == second[i - first.len()]);
                }
            }
        }
    }

    /// The producer is gone: no further batch will ever arrive.
    pub fn finish(&mut self)
        ensures
            *final(self) == (FeasibleRegion { exhausted: true, ..*old(self) }),
    {
        self.exhausted = true;
    }

    /// Up to `count` points, in the order they arrived, once there are so many
    /// or no more will come; `None` while there is something to wait for.
    pub fn take(&mut self, count: usize) -> (taken: Option<Vec<Point>>)
        requires
            old(self).well_formed(),
        ensures
            final(self).well_formed(),
            taken is None <==> old(self).buffer@.len() < count && !old(self).exhausted,
            taken is None ==> *final(self) == *old(self),
            taken matches Some(list) ==> {
                let many = taken_of(count as int, old(self).buffer@.len() as int);
                &&& list@ == old(self).buffer@.take(many)
                &&& final(self).buffer@ == old(self).buffer@.skip(many)
                &&& final(self).system == old(self).system
                &&& final(self).exhausted == old(self).exhausted
                &&& final(self).closed == old(self).closed
            },
    {
        if self.buffer.len() < count && !self.exhausted {
            None
        } else {
            Some(self.try_take(count))
        }
    }

    /// Up to `count` points from what is already there, in the order they
    /// arrived. Never waits.
    pub fn try_take(&mut self, count: usize) -> (taken: Vec<Point>)
        requires
            old(self).well_formed(),
        ensures
            final(self).well_formed(),
            ({
                let many = taken_of(count as int, old(self).buffer@.len() as int);
                &&& taken@ == old(self).buffer@.take(many)
                &&& final(self).buffer@ == old(self).buffer@.skip(many)
                &&& final(self).system == old(self).system
                &&& final(self).exhausted == old(self).exhausted
                &&& final(self).closed == old(self).closed
            }),
    {
        let ghost first = self.buffer@;
        let many: usize = if count < self.buffer.len() {
            count
        } else {
            self.buffer.len()
        };
        let rest = self.buffer.split_off(many);
        let mut taken = rest;
        std::mem::swap(&mut taken, &mut self.buffer);
        proof {
            assert(taken@ =~= first.take(many as int));
            assert(self.buffer@ =~= first.skip(many as int));
            assert forall|i: int| 0 <= i < self.buffer@.len() implies (#[trigger] self.buffer@[i])@.len()
                == self.system.variables@.len() by {
                assert(self.buffer@[i] == first[many + i]);
            }
        }
        taken
    }

    /// How many points can be had right now without waiting.
    pub fn available(&self) -> (there: usize)
        ensures
            there == self.buffer@.len(),
    {
        self.buffer.len()
    }

    /// Whether the search has finished.
    pub fn is_exhausted(&self) -> (over: bool)
        ensures
            over == self.exhausted,
    {
        self.exhausted
    }

    /// Asks the producer to stop.
    pub fn close(&mut self)
        ensures
            *final(self) == (FeasibleRegion { closed: true, ..*old(self) }),
    {
        self.closed = true;
    }

    pub fn status(&self) -> (status: Status)
        ensures
            status == if self.exhausted {
                Status::Exhausted
            } else {
                Status::Filling
            },
    {
        if self.exhausted {
            Status::Exhausted
        } else {
            Status::Filling
        }
    }
}

/// Points leave in the order they arrived, each once: what two takes give and
/// leave is what there was.
pub proof fn points_leave_as_they_arrive(buffer: Seq<Point>, first: int, second: int)
    requires
        0 <= first,
        0 <= second,
    ensures
        ({
            let once = taken_of(first, buffer.len() as int);
            let rest = buffer.skip(once);
            let twice = taken_of(second, rest.len() as int);
            buffer.take(once) + rest.take(twice) + rest.skip(twice) == buffer
        }),
{
    let once = taken_of(first, buffer.len() as int);
    let rest = buffer.skip(once);
    let twice = taken_of(second, rest.len() as int);
    assert(buffer.take(once) + rest.take(twice) + rest.skip(twice) =~= buffer);
}

/// Every point a region hands out is feasible: where what is there and what
/// arrives were judged to be, so is what a take gives, and so is what it leaves.
pub proof fn every_point_taken_is_feasible<E: Evaluate>(
    system: ConstraintSystem<E>,
    arithmetic: Arithmetic,
    buffer: Seq<Point>,
    batch: Seq<Point>,
    count: int,
)
    requires
        are_judged_feasible(system, arithmetic, points(buffer)),
        are_judged_feasible(system, arithmetic, points(batch)),
        0 <= count,
    ensures
        ({
            let there = buffer + batch;
            let many = taken_of(count, there.len() as int);
            &&& are_judged_feasible(system, arithmetic, points(there.take(many)))
            &&& are_judged_feasible(system, arithmetic, points(there.skip(many)))
        }),
{
    let there = buffer + batch;
    let many = taken_of(count, there.len() as int);
    assert(points(there) =~= points(buffer) + points(batch));
    assert(points(there.take(many)) =~= points(there).take(many));
    assert(points(there.skip(many)) =~= points(there).skip(many));
    assert(are_judged_feasible(system, arithmetic, points(there)));
}

/// Constraints named by their indices.
pub open spec fn are_named<E>(system: ConstraintSystem<E>, indices: Seq<usize>, list: Seq<ConstraintRef>) -> bool {
    &&& list.len() == indices.len()
    &&& forall|i: int|
        0 <= i < list.len() ==> {
            &&& (#[trigger] list[i]).index == indices[i]
            &&& list[i].source@ == system.constraints@[indices[i] as int].written.source@
        }
}

fn name_all<E>(system: &ConstraintSystem<E>, indices: &Vec<usize>) -> (list: Vec<ConstraintRef>)
    requires
        forall|k: int| 0 <= k < indices@.len() ==> (#[trigger] indices@[k]) < system.constraints@.len(),
    ensures
        are_named(*system, indices@, list@),
{
    let mut list: Vec<ConstraintRef> = Vec::new();
    for i in 0..indices.len()
        invariant
            forall|k: int| 0 <= k < indices@.len() ==> (#[trigger] indices@[k]) < system.constraints@.len(),
            list@.len() == i,
            forall|k: int|
                0 <= k < i ==> {
                    &&& (#[trigger] list@[k]).index == indices@[k]
                    &&& list@[k].source@ == system.constraints@[indices@[k] as int].written.source@
                },
    {
        assert(indices@[i as int] < system.constraints@.len());
        let named = system.named(indices[i]);
        let ghost before = list@;
        list.push(named);
        assert forall|k: int| 0 <= k < i + 1 implies {
            &&& (#[trigger] list@[k]).index == indices@[k]
            &&& list@[k].source@ == system.constraints@[indices@[k] as int].written.source@
        } by {
            if k < i {
                assert(list@[k] == before[k]);
            }
        }
    }
    list
}

/// What an opening means to whoever asked: a region for batches to arrive in, or
/// why there is none; and `None` where a proof that the region is empty was
/// contradicted by a point in hand, which is a fault of the enclosures and not
/// a verdict on the constraints.
pub fn conclude<E>(system: ConstraintSystem<E>, opening: &Opening) -> (verdict: Option<
    Result<FeasibleRegion<E>, Infeasibility>,
>)
    requires
        system.well_formed(),
        names_constraints(*opening, system.constraints@.len() as int),
    ensures
        match opening {
            Opening::Satisfied => {
                &&& verdict matches Some(Ok(region))
                &&& region.well_formed()
                &&& region.system == system
                &&& region.buffer@ == Seq::<Point>::empty()
                &&& !region.exhausted
                &&& !region.closed
            },
            Opening::Impossible { blamed } => {
                &&& verdict matches Some(Err(Infeasibility::Proved { blamed: list }))
                &&& are_named(system, blamed@, list@)
            },
            Opening::Unproven { unexpressed } => {
                &&& verdict matches Some(Err(Infeasibility::NotFound { unexpressed: list }))
                &&& are_named(system, unexpressed@, list@)
            },
            Opening::Contradicted { .. } => verdict is None,
        },
{
    match opening {
        Opening::Satisfied => Some(Ok(FeasibleRegion { system, buffer: Vec::new(), exhausted: false, closed: false })),
        Opening::Impossible { blamed } => Some(Err(Infeasibility::Proved { blamed: name_all(&system, blamed) })),
        Opening::Unproven { unexpressed } => Some(
            Err(Infeasibility::NotFound { unexpressed: name_all(&system, unexpressed) }),
        ),
        Opening::Contradicted { .. } => None,
    }
}

impl<E: Evaluate> FeasibleRegion<E> {
    /// A point that satisfies the system with room to spare, near `point`. A
    /// function of the system, the point and the clearance, and of nothing the
    /// region has handed out.
    pub fn repair<
        I: Intervals,
        M: Machine,
        S: Fn(&Vec<Vec<Real>>, &Vec<Real>) -> (Vec<Real>, Vec<Real>),
        D: Fn(&Xoshiro256PlusPlus, Real, Real) -> (Real, Xoshiro256PlusPlus),
        R: Fn(&Projection, &Vec<Real>, u64) -> Projected,
        B: Fn(&Xoshiro256PlusPlus) -> (Real, Xoshiro256PlusPlus),
        F: Fn(&Landing, &Vec<Real>, u64) -> Option<Point>,
    >(
        &self,
        intervals: &I,
        machine: &M,
        helpers: &Helpers<S, D, R, B, F>,
        point: &Vec<Real>,
        clearance: Real,
    ) -> (result: Result<Point, RepairError>)
        requires
            self.well_formed(),
            self.system.fits(point@),
            clearance.finite(),
            zero().at_most(clearance),
            can_help(*helpers),
            row_count(self.system) + ROUNDS_TO_SPARE <= usize::MAX,
        ensures
            deterministic(*machine) && self.system.judged() && self.system.feasible(
                arithmetic_of(*machine),
                point@,
                clearance,
            ) ==> (result matches Ok(found) && found@ == point@),
            is_deterministic(self.system, *intervals, *machine, helpers.solve) ==> exists|outcomes: Outcomes|
                {
                    &&& #[trigger] are_outcomes(
                        self.system,
                        *intervals,
                        *machine,
                        *helpers,
                        point@,
                        clearance,
                        outcomes,
                    )
                    &&& are_judged(self.system, arithmetic_of(*machine), clearance, outcomes)
                    &&& is_answer(
                        result,
                        clearance,
                        repaired_by(self.system, *intervals, *machine, *helpers, point@, clearance, outcomes),
                    )
                },
            is_deterministic(self.system, *intervals, *machine, helpers.solve) && helps_steadily(*helpers) ==> is_answer(
                result,
                clearance,
                the_repair(self.system, *intervals, *machine, *helpers, point@, clearance),
            ),
            deterministic(*machine) && self.system.judged() ==> keeps_its_word(
                self.system,
                arithmetic_of(*machine),
                clearance,
                result,
            ),
    {
        repair(&self.system, intervals, machine, helpers, point, clearance)
    }
}

/// A region repairs a point the same every time, whatever was taken from it in
/// between: taking changes no system, and the system, the point and the clearance
/// decide the answer. What it answers is its own repair.
pub proof fn what_was_taken_changes_no_repair<
    E: Evaluate,
    I: Intervals,
    M: Machine,
    S: Fn(&Vec<Vec<Real>>, &Vec<Real>) -> (Vec<Real>, Vec<Real>),
    D: Fn(&Xoshiro256PlusPlus, Real, Real) -> (Real, Xoshiro256PlusPlus),
    R: Fn(&Projection, &Vec<Real>, u64) -> Projected,
    B: Fn(&Xoshiro256PlusPlus) -> (Real, Xoshiro256PlusPlus),
    F: Fn(&Landing, &Vec<Real>, u64) -> Option<Point>,
>(
    before: FeasibleRegion<E>,
    after: FeasibleRegion<E>,
    intervals: I,
    machine: M,
    helpers: Helpers<S, D, R, B, F>,
    point: Seq<Real>,
    clearance: Real,
    a: Result<Point, RepairError>,
    b: Result<Point, RepairError>,
)
    requires
        before.system == after.system,
        is_answer(a, clearance, the_repair(before.system, intervals, machine, helpers, point, clearance)),
        is_answer(b, clearance, the_repair(after.system, intervals, machine, helpers, point, clearance)),
        keeps_its_word(before.system, arithmetic_of(machine), clearance, a),
    ensures
        are_same(a, b),
        a matches Ok(found) ==> the_repair(after.system, intervals, machine, helpers, found@, clearance)
            == Repaired::Clear(found@),
{
}

} // verus!
