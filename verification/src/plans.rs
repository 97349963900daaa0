//! Which coordinates are moved, and which are computed from them.
//!
//! Each equality drives at most one variable and each variable is driven by at
//! most one equality: a matching of equations to the variables each can be
//! solved for, and a largest one. [`plans`] keeps a [`Plan`] per largest
//! matching with a different set of driven coordinates. A definition must not
//! depend on itself however indirectly; a drive refused for that leaves its
//! constraint as it was, because every constraint is still checked.

use vstd::prelude::*;
use vstd::set_lib::{lemma_int_range, lemma_len_subset, lemma_subset_equality, set_int_range};
use crate::ast::GlobalId;
use crate::classify::{are_globals, drivable, globals, reads, solvable_for};
use crate::frontend::{refers_to, Ast};
use crate::matching::{
    all_listed, choices, every_listed_is_a_matching, held_count, in_range, is_matching, is_maximum,
    list_matchings, matched, matchings, maximum_matching, PLANS,
};
use crate::nodes::{first_in, first_in_has, position};
use crate::text::contents;

verus! {

/// Which coordinates are moved, and which are computed from them.
#[derive(Debug, Clone)]
pub struct Plan {
    /// Driven coordinates, in evaluation order: a driven variable may be
    /// defined in terms of another.
    pub driven: Vec<usize>,
    /// Everything not driven, ascending.
    pub free: Vec<usize>,
}

/// A plan's two lists.
#[verifier::ext_equal]
pub ghost struct Split {
    pub driven: Seq<int>,
    pub free: Seq<int>,
}

/// Positions as integers.
pub open spec fn integers(list: Seq<usize>) -> Seq<int> {
    list.map_values(|p: usize| p as int)
}

impl View for Plan {
    type V = Split;

    open spec fn view(&self) -> Split {
        Split { driven: integers(self.driven@), free: integers(self.free@) }
    }
}

/// The views of a list of plans.
pub open spec fn splits(list: Seq<Plan>) -> Seq<Split> {
    list.map_values(|plan: Plan| plan@)
}

impl Plan {
    /// Driven coordinates, in evaluation order.
    pub fn driven(&self) -> (driven: &Vec<usize>)
        ensures
            *driven == self.driven,
    {
        &self.driven
    }

    /// Everything not driven, ascending.
    pub fn free(&self) -> (free: &Vec<usize>)
        ensures
            *free == self.free,
    {
        &self.free
    }

    /// Whether this plan computes `coordinate` rather than moving it.
    pub fn drives(&self, coordinate: usize) -> (driven: bool)
        ensures
            driven == !self@.free.contains(coordinate as int),
    {
        for i in 0..self.free.len()
            invariant
                forall|k: int| 0 <= k < i ==> self.free@[k] != coordinate,
        {
            if self.free[i] == coordinate {
                assert(self@.free[i as int] == coordinate);
                return false;
            }
        }
        proof {
            if self@.free.contains(coordinate as int) {
                let k = choose|k: int| 0 <= k < self@.free.len() && self@.free[k] == coordinate;
                assert(self.free@[k] == coordinate);
            }
        }
        true
    }
}

// ---- where a constraint's variables are ----

/// Where a constraint's global is among the names, if it is there.
pub open spec fn place(symbols: Seq<Seq<char>>, names: Seq<Seq<char>>, g: int) -> Option<int> {
    if 0 <= g < symbols.len() && first_in(names, symbols[g]) < names.len() {
        Some(first_in(names, symbols[g]))
    } else {
        None
    }
}

/// Where `variable` is among the names, given the constraint that named it:
/// a hop through the name, since a global indexes the constraint's own symbols.
pub fn position_in(names: &Vec<String>, constraint: &Ast, variable: GlobalId) -> (at: Option<usize>)
    ensures
        match at {
            Some(p) => p < names@.len() && place(contents(constraint.symbols@), contents(names@), variable.0 as int)
                == Some(p as int),
            None => place(contents(constraint.symbols@), contents(names@), variable.0 as int) is None,
        },
{
    if variable.index() >= constraint.symbols.len() {
        return None;
    }
    assert(contents(constraint.symbols@)[variable.0 as int] == constraint.symbols@[variable.0 as int]@);
    position(names, constraint.symbols[variable.index()].as_str())
}

/// The places of a list of globals, leaving out those without one.
pub open spec fn places(ids: Seq<GlobalId>, symbols: Seq<Seq<char>>, names: Seq<Seq<char>>) -> Seq<usize>
    decreases ids.len(),
{
    if ids.len() == 0 {
        Seq::empty()
    } else {
        let before = places(ids.drop_last(), symbols, names);
        match place(symbols, names, ids.last().0 as int) {
            Some(p) => before.push(p as usize),
            None => before,
        }
    }
}

/// The positions an equation could drive, best first.
pub open spec fn drives_some_of(constraint: Ast, names: Seq<Seq<char>>) -> Seq<usize> {
    places(solvable_for(constraint), contents(constraint.symbols@), names)
}

/// Those of every equation.
pub open spec fn driving(constraints: Seq<Ast>, names: Seq<Seq<char>>) -> Seq<Seq<usize>> {
    constraints.map_values(|constraint: Ast| drives_some_of(constraint, names))
}

proof fn places_are_positions(ids: Seq<GlobalId>, symbols: Seq<Seq<char>>, names: Seq<Seq<char>>, k: int)
    requires
        0 <= k < places(ids, symbols, names).len(),
        names.len() <= usize::MAX,
    ensures
        places(ids, symbols, names)[k] < names.len(),
    decreases ids.len(),
{
    if ids.len() > 0 {
        let before = places(ids.drop_last(), symbols, names);
        if k < before.len() {
            places_are_positions(ids.drop_last(), symbols, names, k);
        } else {
            first_in_has(names, symbols[ids.last().0 as int]);
        }
    }
}

/// What every equation could drive is a position.
pub proof fn driving_is_in_range(constraints: Seq<Ast>, names: Seq<Seq<char>>)
    requires
        names.len() <= usize::MAX,
    ensures
        in_range(driving(constraints, names), names.len() as int),
{
    let list = driving(constraints, names);
    assert forall|e: int, k: int| 0 <= e < list.len() && 0 <= k < list[e].len() implies (#[trigger] list[e][k])
        < names.len() by {
        places_are_positions(solvable_for(constraints[e]), contents(constraints[e].symbols@), names, k);
    }
}

fn candidates_of(constraint: &Ast, names: &Vec<String>) -> (list: Vec<usize>)
    ensures
        list@ == drives_some_of(*constraint, contents(names@)),
{
    let ids = drivable(constraint);
    let mut list: Vec<usize> = Vec::new();
    for i in 0..ids.len()
        invariant
            list@ == places(ids@.take(i as int), contents(constraint.symbols@), contents(names@)),
    {
        proof {
            assert(ids@.take(i + 1).drop_last() =~= ids@.take(i as int));
            assert(ids@.take(i + 1).last() == ids@[i as int]);
        }
        match position_in(names, constraint, ids[i]) {
            Some(p) => list.push(p),
            None => {},
        }
    }
    assert(ids@.take(ids@.len() as int) =~= ids@);
    list
}

// ---- what a driven variable is computed from ----

/// The positions a constraint reads.
pub open spec fn positions_read(constraint: Ast, names: Seq<Seq<char>>) -> Set<int> {
    Set::new(
        |d: int|
            exists|g: int| #[trigger]
                reads(constraint.program.body.result.walk(), g) && place(contents(constraint.symbols@), names, g) == Some(d),
    )
}

/// Per position, the positions its value is computed from, where it is given to
/// an equation: everything the equation reads but the position itself.
pub open spec fn definitions(constraints: Seq<Ast>, names: Seq<Seq<char>>, matching: Seq<Option<usize>>) -> Seq<
    Option<Set<int>>,
> {
    Seq::new(
        matching.len(),
        |p: int|
            match matching[p] {
                Some(e) => Some(positions_read(constraints[e as int], names).remove(p)),
                None => None,
            },
    )
}

/// Whether a position that is not settled reads only what is free or settled.
pub open spec fn is_ready(definitions: Seq<Option<Set<int>>>, settled: Seq<int>, p: int) -> bool {
    &&& definitions[p] is Some
    &&& !settled.contains(p)
    &&& forall|d: int| #[trigger] definitions[p]->0.contains(d) && 0 <= d < definitions.len() && definitions[d] is Some
        ==> settled.contains(d)
}

/// The ready positions below `upto`, ascending.
pub open spec fn ready_below(definitions: Seq<Option<Set<int>>>, settled: Seq<int>, upto: int) -> Seq<int>
    decreases upto,
{
    if upto <= 0 {
        Seq::empty()
    } else {
        let before = ready_below(definitions, settled, upto - 1);
        if is_ready(definitions, settled, upto - 1) {
            before.push(upto - 1)
        } else {
            before
        }
    }
}

/// What is settled after some rounds, in each of which every ready position is
/// settled.
pub open spec fn rounds(definitions: Seq<Option<Set<int>>>, count: int) -> Seq<int>
    decreases count,
{
    if count <= 0 {
        Seq::empty()
    } else {
        let settled = rounds(definitions, count - 1);
        settled + ready_below(definitions, settled, definitions.len() as int)
    }
}

/// The driven positions in evaluation order: rounds until none is ready. What
/// is left is a cycle, or reads one, and stays undriven.
pub open spec fn in_order(definitions: Seq<Option<Set<int>>>) -> Seq<int> {
    rounds(definitions, definitions.len() as int)
}

/// The positions below `upto` that are not settled, ascending.
pub open spec fn unsettled_below(settled: Seq<int>, upto: int) -> Seq<int>
    decreases upto,
{
    if upto <= 0 {
        Seq::empty()
    } else if settled.contains(upto - 1) {
        unsettled_below(settled, upto - 1)
    } else {
        unsettled_below(settled, upto - 1).push(upto - 1)
    }
}

/// The plan of a matching.
pub open spec fn split_of(definitions: Seq<Option<Set<int>>>) -> Split {
    let driven = in_order(definitions);
    Split { driven, free: unsettled_below(driven, definitions.len() as int) }
}

/// Whether a plan moves the same coordinates as one of a list.
pub open spec fn is_repeated(list: Seq<Split>, split: Split) -> bool {
    exists|i: int| 0 <= i < list.len() && (#[trigger] list[i]).free == split.free
}

/// The plans of the first `upto` matchings, leaving out those that drive
/// nothing and those that move the same coordinates as an earlier one.
pub open spec fn plans_of(
    constraints: Seq<Ast>,
    names: Seq<Seq<char>>,
    found: Seq<Seq<Option<usize>>>,
    upto: int,
) -> Seq<Split>
    decreases upto,
{
    if upto <= 0 {
        Seq::empty()
    } else {
        let before = plans_of(constraints, names, found, upto - 1);
        let split = split_of(definitions(constraints, names, found[upto - 1]));
        if split.driven.len() == 0 || is_repeated(before, split) {
            before
        } else {
            before.push(split)
        }
    }
}

/// Whether `found` are the matchings a system's plans are taken from: those of
/// the largest size, or the one augmenting paths come to where listing them was
/// cut short before the first.
pub open spec fn are_the_matchings(constraints: Seq<Ast>, names: Seq<Seq<char>>, found: Seq<Seq<Option<usize>>>) -> bool {
    let list = driving(constraints, names);
    let holder = matched(list, names.len());
    &&& holder.len() == names.len()
    &&& is_maximum(list, holder)
    &&& found == {
        let listed = all_listed(list, names.len(), held_count(holder)).found;
        if held_count(holder) == 0 {
            Seq::empty()
        } else if listed.len() == 0 {
            seq![holder]
        } else {
            listed
        }
    }
}

// ---- how the rounds go ----

proof fn ready_ones(definitions: Seq<Option<Set<int>>>, settled: Seq<int>, upto: int)
    requires
        upto <= definitions.len(),
    ensures
        forall|i: int|
            0 <= i < ready_below(definitions, settled, upto).len() ==> {
                let p = #[trigger] ready_below(definitions, settled, upto)[i];
                0 <= p < upto && is_ready(definitions, settled, p)
            },
        forall|i: int, j: int|
            0 <= i < j < ready_below(definitions, settled, upto).len() ==> (#[trigger] ready_below(
                definitions,
                settled,
                upto,
            )[i]) < #[trigger] ready_below(definitions, settled, upto)[j],
        forall|p: int|
            0 <= p < upto && #[trigger] is_ready(definitions, settled, p) ==> ready_below(
                definitions,
                settled,
                upto,
            ).contains(p),
    decreases upto,
{
    if upto > 0 {
        ready_ones(definitions, settled, upto - 1);
        let before = ready_below(definitions, settled, upto - 1);
        let after = ready_below(definitions, settled, upto);
        assert forall|p: int| 0 <= p < upto && #[trigger] is_ready(definitions, settled, p) implies after.contains(p) by {
            if p < upto - 1 {
                let i = choose|i: int| 0 <= i < before.len() && before[i] == p;
                assert(after[i] == p);
            } else {
                assert(after[before.len() as int] == p);
            }
        }
    }
}

/// Whether a list is a start of the evaluation: positions with a definition,
/// each once, and each after everything driven that it reads.
pub open spec fn is_ordered(definitions: Seq<Option<Set<int>>>, settled: Seq<int>) -> bool {
    &&& settled.no_duplicates()
    &&& forall|i: int| 0 <= i < settled.len() ==> 0 <= (#[trigger] settled[i]) < definitions.len() && definitions[settled[i]] is Some
    &&& forall|i: int, d: int|
        0 <= i < settled.len() && 0 <= d < definitions.len() && definitions[d] is Some
            && #[trigger] definitions[settled[i]]->0.contains(d) ==> settled.take(i).contains(d)
}

proof fn rounds_are_ordered(definitions: Seq<Option<Set<int>>>, count: int)
    ensures
        is_ordered(definitions, rounds(definitions, count)),
    decreases count,
{
    if count > 0 {
        rounds_are_ordered(definitions, count - 1);
        let settled = rounds(definitions, count - 1);
        let more = ready_below(definitions, settled, definitions.len() as int);
        let after = settled + more;
        ready_ones(definitions, settled, definitions.len() as int);
        assert forall|i: int, j: int| 0 <= i < after.len() && 0 <= j < after.len() && i != j implies after[i] != after[j] by {
            if i >= settled.len() && j >= settled.len() {
                assert(after[i] == more[i - settled.len()]);
                assert(after[j] == more[j - settled.len()]);
            } else if i >= settled.len() {
                assert(is_ready(definitions, settled, more[i - settled.len()]));
                assert(settled.contains(settled[j]));
            } else if j >= settled.len() {
                assert(is_ready(definitions, settled, more[j - settled.len()]));
                assert(settled.contains(settled[i]));
            }
        }
        assert forall|i: int| 0 <= i < after.len() implies 0 <= (#[trigger] after[i]) < definitions.len()
            && definitions[after[i]] is Some by {
            if i >= settled.len() {
                assert(is_ready(definitions, settled, more[i - settled.len()]));
            }
        }
        assert forall|i: int, d: int|
            0 <= i < after.len() && 0 <= d < definitions.len() && definitions[d] is Some
                && #[trigger] definitions[after[i]]->0.contains(d) implies after.take(i).contains(d) by {
            if i < settled.len() {
                assert(after[i] == settled[i]);
                assert(after.take(i) =~= settled.take(i));
            } else {
                assert(is_ready(definitions, settled, more[i - settled.len()]));
                let k = choose|k: int| 0 <= k < settled.len() && settled[k] == d;
                assert(after.take(i)[k] == d);
            }
        }
    }
}

proof fn rounds_stop(definitions: Seq<Option<Set<int>>>, from: int, count: int)
    requires
        0 <= from <= count,
        ready_below(definitions, rounds(definitions, from), definitions.len() as int).len() == 0,
    ensures
        rounds(definitions, count) == rounds(definitions, from),
    decreases count - from,
{
    if from < count {
        rounds_stop(definitions, from, count - 1);
        assert(rounds(definitions, count) =~= rounds(definitions, from));
    }
}

proof fn rounds_go_on(definitions: Seq<Option<Set<int>>>, count: int)
    requires
        0 <= count,
        ready_below(definitions, rounds(definitions, count), definitions.len() as int).len() > 0,
    ensures
        rounds(definitions, count).len() >= count,
    decreases count,
{
    if count > 0 {
        if ready_below(definitions, rounds(definitions, count - 1), definitions.len() as int).len() == 0 {
            rounds_stop(definitions, count - 1, count);
        }
        rounds_go_on(definitions, count - 1);
    }
}

/// After as many rounds as there are positions, none is ready.
proof fn rounds_end(definitions: Seq<Option<Set<int>>>)
    ensures
        ready_below(definitions, in_order(definitions), definitions.len() as int).len() == 0,
{
    let n = definitions.len() as int;
    let settled = in_order(definitions);
    let more = ready_below(definitions, settled, n);
    if more.len() > 0 {
        rounds_go_on(definitions, n);
        rounds_are_ordered(definitions, n);
        ready_ones(definitions, settled, n);
        let p = more[0];
        let held = settled.to_set();
        settled.unique_seq_to_set();
        lemma_int_range(0, n);
        assert(held.subset_of(set_int_range(0, n))) by {
            assert forall|x: int| held.contains(x) implies set_int_range(0, n).contains(x) by {
                let i = choose|i: int| 0 <= i < settled.len() && settled[i] == x;
                assert(0 <= settled[i] < n);
            }
        }
        lemma_len_subset(held, set_int_range(0, n));
        lemma_subset_equality(held, set_int_range(0, n));
        assert(held.contains(p));
        assert(is_ready(definitions, settled, p));
    }
}

// ---- plans ----

/// Whether the lists are the definitions.
spec fn lists_definitions(lists: Seq<Option<Vec<usize>>>, definitions: Seq<Option<Set<int>>>) -> bool {
    &&& lists.len() == definitions.len()
    &&& forall|p: int|
        0 <= p < lists.len() ==> match #[trigger] lists[p] {
            Some(list) => {
                &&& definitions[p] is Some
                &&& forall|d: int| #[trigger] definitions[p]->0.contains(d) <==> integers(list@).contains(d)
            },
            None => definitions[p] is None,
        }
}

/// The positions a constraint reads, but one.
fn read_but(constraint: &Ast, names: &Vec<String>, own: usize) -> (list: Vec<usize>)
    ensures
        forall|d: int| #[trigger]
            positions_read(*constraint, contents(names@)).remove(own as int).contains(d) <==> integers(list@).contains(d),
{
    let ghost walk = constraint.program.body.result.walk();
    let ghost symbols = contents(constraint.symbols@);
    let ghost texts = contents(names@);
    let ids = globals(&constraint.program.body.result);
    let mut list: Vec<usize> = Vec::new();
    for i in 0..ids.len()
        invariant
            walk == constraint.program.body.result.walk(),
            symbols == contents(constraint.symbols@),
            texts == contents(names@),
            are_globals(walk, ids@),
            forall|k: int|
                0 <= k < list@.len() ==> (#[trigger] list@[k]) != own && positions_read(*constraint, texts).contains(
                    list@[k] as int,
                ),
            forall|k: int|
                0 <= k < i ==> match place(symbols, texts, (#[trigger] ids@[k]).0 as int) {
                    Some(d) => d == own || integers(list@).contains(d),
                    None => true,
                },
    {
        let ghost before = list@;
        match position_in(names, constraint, ids[i]) {
            Some(p) => {
                if p != own {
                    list.push(p);
                    proof {
                        assert(reads(walk, ids@[i as int].0 as int));
                        assert(positions_read(*constraint, texts).contains(p as int));
                        assert forall|d: int| integers(before).contains(d) implies integers(list@).contains(d) by {
                            let k = choose|k: int| 0 <= k < integers(before).len() && integers(before)[k] == d;
                            assert(integers(list@)[k] == d);
                        }
                        assert(integers(list@)[before.len() as int] == p);
                    }
                }
            },
            None => {},
        }
    }
    proof {
        let all = positions_read(*constraint, texts);
        assert forall|d: int| #[trigger] all.remove(own as int).contains(d) <==> integers(list@).contains(d) by {
            if integers(list@).contains(d) {
                let k = choose|k: int| 0 <= k < integers(list@).len() && integers(list@)[k] == d;
                assert(list@[k] != own && all.contains(list@[k] as int));
            }
            if all.remove(own as int).contains(d) {
                let g = choose|g: int| #[trigger] reads(walk, g) && place(symbols, texts, g) == Some(d);
                let i = choose|i: int| 0 <= i < walk.len() && refers_to(#[trigger] walk[i], g);
                let id = walk[i].kind->Global_0;
                assert(ids@.contains(id));
                let k = choose|k: int| 0 <= k < ids@.len() && ids@[k] == id;
                assert(place(symbols, texts, ids@[k].0 as int) == Some(d));
            }
        }
    }
    list
}

fn define(constraints: &Vec<Ast>, names: &Vec<String>, matching: &Vec<Option<usize>>) -> (lists: Vec<Option<Vec<usize>>>)
    requires
        forall|p: int|
            0 <= p < matching@.len() ==> ((#[trigger] matching@[p]) matches Some(e) ==> e < constraints@.len()),
    ensures
        lists_definitions(lists@, definitions(constraints@, contents(names@), matching@)),
{
    let ghost model = definitions(constraints@, contents(names@), matching@);
    let mut lists: Vec<Option<Vec<usize>>> = Vec::new();
    for p in 0..matching.len()
        invariant
            forall|p: int|
                0 <= p < matching@.len() ==> ((#[trigger] matching@[p]) matches Some(e) ==> e < constraints@.len()),
            model == definitions(constraints@, contents(names@), matching@),
            lists@.len() == p,
            lists_definitions(lists@, model.take(p as int)),
    {
        let ghost before = lists@;
        match matching[p] {
            Some(e) => {
                let list = read_but(&constraints[e], names, p);
                lists.push(Some(list));
            },
            None => lists.push(None),
        }
        proof {
            assert forall|q: int| 0 <= q < lists@.len() implies match #[trigger] lists@[q] {
                Some(list) => {
                    &&& model.take(p + 1)[q] is Some
                    &&& forall|d: int| #[trigger] model.take(p + 1)[q]->0.contains(d) <==> integers(list@).contains(d)
                },
                None => model.take(p + 1)[q] is None,
            } by {
                if q < p {
                    assert(lists@[q] == before[q]);
                    assert(model.take(p as int)[q] == model.take(p + 1)[q]);
                }
            }
        }
    }
    assert(model.take(matching@.len() as int) =~= model);
    lists
}

/// Whether the position reads only what is free or settled.
fn all_settled(lists: &Vec<Option<Vec<usize>>>, settled: &Vec<bool>, list: &Vec<usize>) -> (all: bool)
    requires
        settled@.len() == lists@.len(),
    ensures
        all == (forall|d: int|
            #[trigger] integers(list@).contains(d) && 0 <= d < lists@.len() && lists@[d] is Some ==> settled@[d]),
{
    for k in 0..list.len()
        invariant
            settled@.len() == lists@.len(),
            forall|j: int|
                0 <= j < k && (#[trigger] list@[j]) < lists@.len() && lists@[list@[j] as int] is Some
                    ==> settled@[list@[j] as int],
    {
        let d: usize = list[k];
        if d < lists.len() && lists[d].is_some() && !settled[d] {
            assert(integers(list@)[k as int] == d);
            assert(integers(list@).contains(d as int));
            return false;
        }
    }
    proof {
        assert forall|d: int| #[trigger] integers(list@).contains(d) && 0 <= d < lists@.len() && lists@[d] is Some implies settled@[d] by {
            let j = choose|j: int| 0 <= j < integers(list@).len() && integers(list@)[j] == d;
            assert(list@[j] == d);
        }
    }
    true
}

/// Marks what is settled and nothing else.
spec fn marks(settled: Seq<bool>, list: Seq<int>) -> bool {
    forall|p: int| 0 <= p < settled.len() ==> (#[trigger] settled[p] <==> list.contains(p))
}

/// The ready positions.
fn ready_now(
    lists: &Vec<Option<Vec<usize>>>,
    settled: &Vec<bool>,
    model: Ghost<Seq<Option<Set<int>>>>,
    done: Ghost<Seq<int>>,
) -> (ready: Vec<usize>)
    requires
        lists_definitions(lists@, model@),
        settled@.len() == lists@.len(),
        marks(settled@, done@),
    ensures
        integers(ready@) == ready_below(model@, done@, model@.len() as int),
{
    let mut ready: Vec<usize> = Vec::new();
    assert(integers(ready@) =~= ready_below(model@, done@, 0));
    for p in 0..lists.len()
        invariant
            lists_definitions(lists@, model@),
            settled@.len() == lists@.len(),
            marks(settled@, done@),
            integers(ready@) == ready_below(model@, done@, p as int),
    {
        let ghost before = ready@;
        let is = match &lists[p] {
            Some(list) => !settled[p] && all_settled(lists, settled, list),
            None => false,
        };
        proof {
            assert(settled@[p as int] <==> done@.contains(p as int));
            assert(match lists@[p as int] {
                Some(list) => {
                    &&& model@[p as int] is Some
                    &&& forall|d: int| #[trigger] model@[p as int]->0.contains(d) <==> integers(list@).contains(d)
                },
                None => model@[p as int] is None,
            });
            if lists@[p as int] is Some {
                let list = lists@[p as int]->0;
                if is {
                    assert forall|d: int| #[trigger] model@[p as int]->0.contains(d) && 0 <= d < model@.len() && model@[d] is Some
                        implies done@.contains(d) by {
                        assert(integers(list@).contains(d));
                        assert(lists@[d] is Some);
                        assert(settled@[d]);
                    }
                } else if !settled@[p as int] {
                    let d = choose|d: int|
                        #[trigger] integers(list@).contains(d) && 0 <= d < lists@.len() && lists@[d] is Some && !settled@[d];
                    assert(model@[p as int]->0.contains(d));
                    assert(lists@[d] is Some && model@[d] is Some);
                    assert(!done@.contains(d));
                }
            }
            assert(is == is_ready(model@, done@, p as int));
        }
        if is {
            ready.push(p);
            assert(integers(ready@) =~= integers(before).push(p as int));
        }
    }
    ready
}

/// The driven positions of a matching, in evaluation order.
fn order(lists: &Vec<Option<Vec<usize>>>, model: Ghost<Seq<Option<Set<int>>>>) -> (result: (Vec<usize>, Vec<bool>))
    requires
        lists_definitions(lists@, model@),
    ensures
        integers(result.0@) == in_order(model@),
        result.1@.len() == lists@.len(),
        marks(result.1@, in_order(model@)),
{
    let mut driven: Vec<usize> = Vec::new();
    let mut settled: Vec<bool> = vec![false; lists.len()];
    let mut round: usize = 0;
    assert(integers(driven@) =~= rounds(model@, 0));
    while round < lists.len()
        invariant_except_break
            round <= lists@.len(),
            lists_definitions(lists@, model@),
            settled@.len() == lists@.len(),
            integers(driven@) == rounds(model@, round as int),
            marks(settled@, rounds(model@, round as int)),
        ensures
            integers(driven@) == in_order(model@),
            settled@.len() == lists@.len(),
            marks(settled@, in_order(model@)),
        decreases lists@.len() - round,
    {
        let ghost done = rounds(model@, round as int);
        let ready = ready_now(lists, &settled, model, Ghost(done));
        let ghost more = ready_below(model@, done, model@.len() as int);
        if ready.len() == 0 {
            proof {
                assert(integers(ready@).len() == 0);
                rounds_stop(model@, round as int, model@.len() as int);
            }
            break;
        }
        proof {
            ready_ones(model@, done, model@.len() as int);
            assert(integers(driven@) =~= done + more.take(0));
            assert(done + more.take(0) =~= done);
        }
        for i in 0..ready.len()
            invariant
                integers(ready@) == more,
                settled@.len() == lists@.len() == model@.len(),
                forall|k: int| 0 <= k < more.len() ==> 0 <= (#[trigger] more[k]) < model@.len(),
                integers(driven@) == done + more.take(i as int),
                marks(settled@, done + more.take(i as int)),
        {
            let ghost before = driven@;
            let ghost marked = settled@;
            let p: usize = ready[i];
            assert(integers(ready@)[i as int] == p);
            settled.set(p, true);
            driven.push(p);
            proof {
                let earlier = done + more.take(i as int);
                let later = done + more.take(i + 1);
                assert(more.take(i + 1) =~= more.take(i as int).push(p as int));
                assert(later =~= earlier.push(p as int));
                assert(integers(driven@) =~= later);
                assert forall|q: int| 0 <= q < settled@.len() implies (#[trigger] settled@[q] <==> later.contains(q)) by {
                    assert(later[earlier.len() as int] == p);
                    if q != p {
                        assert(marked[q] <==> earlier.contains(q));
                        if earlier.contains(q) {
                            let k = choose|k: int| 0 <= k < earlier.len() && earlier[k] == q;
                            assert(later[k] == q);
                        }
                        if later.contains(q) {
                            let k = choose|k: int| 0 <= k < later.len() && later[k] == q;
                            assert(earlier[k] == q);
                        }
                    }
                }
            }
        }
        assert(more.take(ready@.len() as int) =~= more);
        round = round + 1;
    }
    (driven, settled)
}

fn unsettled(settled: &Vec<bool>, done: Ghost<Seq<int>>) -> (free: Vec<usize>)
    requires
        marks(settled@, done@),
    ensures
        integers(free@) == unsettled_below(done@, settled@.len() as int),
{
    let mut free: Vec<usize> = Vec::new();
    assert(integers(free@) =~= unsettled_below(done@, 0));
    for p in 0..settled.len()
        invariant
            marks(settled@, done@),
            integers(free@) == unsettled_below(done@, p as int),
    {
        let ghost before = free@;
        assert(settled@[p as int] <==> done@.contains(p as int));
        if !settled[p] {
            free.push(p);
            assert(integers(free@) =~= integers(before).push(p as int));
        }
    }
    free
}

fn same_list(a: &Vec<usize>, b: &Vec<usize>) -> (same: bool)
    ensures
        same == (integers(a@) == integers(b@)),
{
    if a.len() != b.len() {
        assert(integers(a@).len() != integers(b@).len());
        return false;
    }
    for i in 0..a.len()
        invariant
            a@.len() == b@.len(),
            forall|k: int| 0 <= k < i ==> a@[k] == b@[k],
    {
        if a[i] != b[i] {
            assert(integers(a@)[i as int] != integers(b@)[i as int]);
            return false;
        }
    }
    assert(integers(a@) =~= integers(b@));
    true
}

fn repeats(list: &Vec<Plan>, free: &Vec<usize>) -> (repeated: bool)
    ensures
        repeated == exists|i: int| 0 <= i < list@.len() && (#[trigger] splits(list@)[i]).free == integers(free@),
{
    for i in 0..list.len()
        invariant
            forall|k: int| 0 <= k < i ==> (#[trigger] splits(list@)[k]).free != integers(free@),
    {
        if same_list(&list[i].free, free) {
            assert(splits(list@)[i as int].free == integers(free@));
            return true;
        }
    }
    false
}

/// The splits of a whole system, best first: one per largest matching that
/// drives something, each moving different coordinates. Empty when nothing is
/// driven.
pub fn plans(constraints: &Vec<Ast>, names: &Vec<String>) -> (list: Vec<Plan>)
    ensures
        exists|found: Seq<Seq<Option<usize>>>| #[trigger]
            are_the_matchings(constraints@, contents(names@), found) && splits(list@) == plans_of(
                constraints@,
                contents(names@),
                found,
                found.len() as int,
            ),
{
    let ghost texts = contents(names@);
    let ghost driving_list = driving(constraints@, texts);
    let mut candidates: Vec<Vec<usize>> = Vec::new();
    for e in 0..constraints.len()
        invariant
            texts == contents(names@),
            driving_list == driving(constraints@, texts),
            choices(candidates@) =~= driving_list.take(e as int),
    {
        let ghost before = candidates@;
        let list = candidates_of(&constraints[e], names);
        candidates.push(list);
        assert(choices(candidates@) =~= choices(before).push(list@));
        assert(driving_list.take(e + 1) =~= driving_list.take(e as int).push(list@));
    }
    proof {
        assert(driving_list.take(constraints@.len() as int) =~= driving_list);
    }
    let total: usize = names.len();
    proof {
        driving_is_in_range(constraints@, texts);
    }
    let holder = maximum_matching(&candidates, total);
    let mut size: usize = 0;
    for p in 0..holder.len()
        invariant
            size == held_count(holder@.take(p as int)),
            size <= p,
    {
        assert(holder@.take(p + 1).drop_last() =~= holder@.take(p as int));
        if holder[p].is_some() {
            size = size + 1;
        }
    }
    assert(holder@.take(holder@.len() as int) =~= holder@);
    let ghost held = holder@;
    let mut list: Vec<Plan> = Vec::new();
    if size == 0 {
        proof {
            let none: Seq<Seq<Option<usize>>> = Seq::empty();
            assert(is_maximum(driving_list, held));
            assert(are_the_matchings(constraints@, texts, none));
            assert(splits(list@) =~= plans_of(constraints@, texts, none, 0));
        }
        return list;
    }
    let mut found = list_matchings(&candidates, total, size);
    proof {
        every_listed_is_a_matching(driving_list, total as nat, size as int);
    }
    if found.len() == 0 {
        found.push(holder);
        assert(matchings(found@) =~= seq![held]);
    }
    let ghost all = matchings(found@);
    proof {
        assert(is_maximum(driving_list, held));
        assert(are_the_matchings(constraints@, texts, all));
        assert forall|i: int| 0 <= i < all.len() implies (#[trigger] all[i]).len() == total && is_matching(driving_list, all[i]) by {
            if all_listed(driving_list, texts.len(), size as int).found.len() > 0 {
                let matching = all_listed(driving_list, texts.len(), size as int).found[i];
                assert(all[i] == matching);
            }
        }
        assert(splits(list@) =~= plans_of(constraints@, texts, all, 0));
    }
    for i in 0..found.len()
        invariant
            texts == contents(names@),
            total == texts.len(),
            driving_list == driving(constraints@, texts),
            all == matchings(found@),
            forall|i: int| 0 <= i < all.len() ==> (#[trigger] all[i]).len() == total && is_matching(driving_list, all[i]),
            splits(list@) == plans_of(constraints@, texts, all, i as int),
    {
        let matching = &found[i];
        let ghost model = definitions(constraints@, texts, matching@);
        proof {
            assert(all[i as int] == matching@);
            assert forall|p: int|
                0 <= p < matching@.len() implies ((#[trigger] matching@[p]) matches Some(e) ==> e < constraints@.len()) by {
                assert(all[i as int][p] == matching@[p]);
            }
        }
        let lists = define(constraints, names, matching);
        let (driven, settled) = order(&lists, Ghost(model));
        assert(integers(driven@).len() == driven@.len());
        if driven.len() > 0 {
            let free = unsettled(&settled, Ghost(in_order(model)));
            if !repeats(&list, &free) {
                let ghost before = list@;
                let plan = Plan { driven, free };
                list.push(plan);
                assert(splits(list@) =~= splits(before).push(split_of(model)));
            }
        }
    }
    list
}

// ---- laws ----

/// Everything a driven coordinate is computed from is free, or is driven and
/// comes before it; and no coordinate is driven twice.
pub proof fn driven_in_evaluation_order(definitions: Seq<Option<Set<int>>>)
    ensures
        is_ordered(definitions, split_of(definitions).driven),
{
    rounds_are_ordered(definitions, definitions.len() as int);
}

/// No more could be driven: what is given to an equation and still free reads
/// another such, and so a cycle.
pub proof fn only_cycles_are_left(definitions: Seq<Option<Set<int>>>, p: int)
    requires
        0 <= p < definitions.len(),
        definitions[p] is Some,
        !split_of(definitions).driven.contains(p),
    ensures
        exists|d: int| #[trigger]
            definitions[p]->0.contains(d) && 0 <= d < definitions.len() && definitions[d] is Some && !split_of(
                definitions,
            ).driven.contains(d),
{
    rounds_end(definitions);
    let settled = in_order(definitions);
    ready_ones(definitions, settled, definitions.len() as int);
    assert(!is_ready(definitions, settled, p));
}

proof fn unsettled_ones(settled: Seq<int>, upto: int)
    ensures
        forall|p: int| #[trigger]
            unsettled_below(settled, upto).contains(p) <==> (0 <= p < upto && !settled.contains(p)),
        forall|i: int, j: int|
            0 <= i < j < unsettled_below(settled, upto).len() ==> (#[trigger] unsettled_below(settled, upto)[i])
                < #[trigger] unsettled_below(settled, upto)[j],
        forall|i: int|
            0 <= i < unsettled_below(settled, upto).len() ==> (#[trigger] unsettled_below(settled, upto)[i]) < upto,
    decreases upto,
{
    if upto > 0 {
        unsettled_ones(settled, upto - 1);
        let before = unsettled_below(settled, upto - 1);
        let after = unsettled_below(settled, upto);
        assert forall|p: int| #[trigger] after.contains(p) <==> (0 <= p < upto && !settled.contains(p)) by {
            assert(before.contains(p) <==> (0 <= p < upto - 1 && !settled.contains(p)));
            if before.contains(p) {
                let i = choose|i: int| 0 <= i < before.len() && before[i] == p;
                assert(after[i] == p);
            }
            if p == upto - 1 && !settled.contains(p) {
                assert(after[before.len() as int] == p);
            }
            if after.contains(p) {
                let i = choose|i: int| 0 <= i < after.len() && after[i] == p;
                if i < before.len() {
                    assert(before[i] == p);
                    assert(before.contains(p));
                }
            }
        }
    }
}

/// Every coordinate is either driven or free, and the free ones are ascending.
pub proof fn driven_or_free(definitions: Seq<Option<Set<int>>>)
    ensures
        forall|p: int|
            0 <= p < definitions.len() ==> (#[trigger] split_of(definitions).free.contains(p) <==> !split_of(
                definitions,
            ).driven.contains(p)),
        forall|i: int, j: int|
            0 <= i < j < split_of(definitions).free.len() ==> (#[trigger] split_of(definitions).free[i])
                < #[trigger] split_of(definitions).free[j],
{
    unsettled_ones(in_order(definitions), definitions.len() as int);
}

/// No two plans move the same coordinates, every plan drives something, and
/// there are at most as many as matchings.
pub proof fn plans_differ(constraints: Seq<Ast>, names: Seq<Seq<char>>, found: Seq<Seq<Option<usize>>>, upto: int)
    requires
        0 <= upto,
    ensures
        plans_of(constraints, names, found, upto).len() <= upto,
        forall|i: int|
            0 <= i < plans_of(constraints, names, found, upto).len() ==> (#[trigger] plans_of(
                constraints,
                names,
                found,
                upto,
            )[i]).driven.len() > 0,
        forall|i: int, j: int|
            0 <= i < j < plans_of(constraints, names, found, upto).len() ==> (#[trigger] plans_of(
                constraints,
                names,
                found,
                upto,
            )[i]).free != (#[trigger] plans_of(constraints, names, found, upto)[j]).free,
    decreases upto,
{
    if upto > 0 {
        plans_differ(constraints, names, found, upto - 1);
    }
}

/// A system keeps at most [`PLANS`] plans, and each comes from a largest
/// matching of its equations to the coordinates they can be solved for.
pub proof fn plans_are_of_largest_matchings(constraints: Seq<Ast>, names: Seq<Seq<char>>, found: Seq<Seq<Option<usize>>>)
    requires
        are_the_matchings(constraints, names, found),
        names.len() <= usize::MAX,
        constraints.len() <= usize::MAX,
    ensures
        found.len() <= PLANS,
        forall|i: int|
            0 <= i < found.len() ==> (#[trigger] found[i]).len() == names.len() && is_maximum(
                driving(constraints, names),
                found[i],
            ),
{
    let list = driving(constraints, names);
    let holder = matched(list, names.len());
    driving_is_in_range(constraints, names);
    every_listed_is_a_matching(list, names.len(), held_count(holder));
    assert forall|i: int| 0 <= i < found.len() implies (#[trigger] found[i]).len() == names.len() && is_maximum(list, found[i]) by {
        let listed = all_listed(list, names.len(), held_count(holder)).found;
        if listed.len() > 0 {
            let matching = listed[i];
            assert forall|other: Seq<Option<usize>>|
                other.len() == matching.len() && #[trigger] is_matching(list, other) implies held_count(other) <= held_count(
                matching,
            ) by {}
        }
    }
}

/// Every coordinate of a system's plans is one of the names', and none is
/// driven twice by one plan.
pub proof fn plans_are_over_the_names(constraints: Seq<Ast>, names: Seq<Seq<char>>, found: Seq<Seq<Option<usize>>>)
    requires
        are_the_matchings(constraints, names, found),
        names.len() <= usize::MAX,
        constraints.len() <= usize::MAX,
    ensures
        forall|i: int, k: int|
            0 <= i < plans_of(constraints, names, found, found.len() as int).len() && 0 <= k < plans_of(
                constraints,
                names,
                found,
                found.len() as int,
            )[i].driven.len() ==> 0 <= (#[trigger] plans_of(constraints, names, found, found.len() as int)[i].driven[k])
                < names.len(),
        forall|i: int, k: int|
            0 <= i < plans_of(constraints, names, found, found.len() as int).len() && 0 <= k < plans_of(
                constraints,
                names,
                found,
                found.len() as int,
            )[i].free.len() ==> 0 <= (#[trigger] plans_of(constraints, names, found, found.len() as int)[i].free[k])
                < names.len(),
        forall|i: int|
            0 <= i < plans_of(constraints, names, found, found.len() as int).len() ==> (#[trigger] plans_of(
                constraints,
                names,
                found,
                found.len() as int,
            )[i]).driven.no_duplicates(),
{
    plans_are_of_largest_matchings(constraints, names, found);
    splits_are_over(constraints, names, found, found.len() as int);
}

proof fn splits_are_over(constraints: Seq<Ast>, names: Seq<Seq<char>>, found: Seq<Seq<Option<usize>>>, upto: int)
    requires
        upto <= found.len(),
        forall|i: int| 0 <= i < found.len() ==> (#[trigger] found[i]).len() == names.len(),
    ensures
        forall|i: int, k: int|
            0 <= i < plans_of(constraints, names, found, upto).len() && 0 <= k < plans_of(
                constraints,
                names,
                found,
                upto,
            )[i].driven.len() ==> 0 <= (#[trigger] plans_of(constraints, names, found, upto)[i].driven[k]) < names.len(),
        forall|i: int, k: int|
            0 <= i < plans_of(constraints, names, found, upto).len() && 0 <= k < plans_of(
                constraints,
                names,
                found,
                upto,
            )[i].free.len() ==> 0 <= (#[trigger] plans_of(constraints, names, found, upto)[i].free[k]) < names.len(),
        forall|i: int|
            0 <= i < plans_of(constraints, names, found, upto).len() ==> (#[trigger] plans_of(
                constraints,
                names,
                found,
                upto,
            )[i]).driven.no_duplicates(),
    decreases upto,
{
    if upto > 0 {
        splits_are_over(constraints, names, found, upto - 1);
        let model = definitions(constraints, names, found[upto - 1]);
        let split = split_of(model);
        rounds_are_ordered(model, model.len() as int);
        unsettled_ones(in_order(model), model.len() as int);
        assert forall|k: int| 0 <= k < split.free.len() implies 0 <= (#[trigger] split.free[k]) < names.len() by {
            assert(unsettled_below(in_order(model), model.len() as int).contains(split.free[k]));
        }
        let before = plans_of(constraints, names, found, upto - 1);
        let after = plans_of(constraints, names, found, upto);
        assert forall|i: int, k: int| 0 <= i < after.len() && 0 <= k < after[i].driven.len() implies 0 <= (
        #[trigger] after[i].driven[k]) < names.len() by {
            if i < before.len() {
                assert(after[i] == before[i]);
                assert(0 <= before[i].driven[k] < names.len());
            } else {
                assert(after[i] == split);
                assert(0 <= split.driven[k] < model.len());
            }
        }
        assert forall|i: int, k: int| 0 <= i < after.len() && 0 <= k < after[i].free.len() implies 0 <= (
        #[trigger] after[i].free[k]) < names.len() by {
            if i < before.len() {
                assert(after[i] == before[i]);
                assert(0 <= before[i].free[k] < names.len());
            } else {
                assert(after[i] == split);
                assert(0 <= split.free[k] < names.len());
            }
        }
    }
}

} // verus!
