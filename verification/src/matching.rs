//! Matchings of equations to the positions each can drive.
//!
//! `candidates[e]` lists the positions equation `e` could drive, best first. A
//! matching gives each position to at most one equation that could drive it,
//! and no equation two positions.

use vstd::prelude::*;
use vstd::set_lib::{lemma_int_range, lemma_len_subset, set_int_range};

verus! {

/// The candidates, as mathematical sequences.
pub open spec fn choices(candidates: Seq<Vec<usize>>) -> Seq<Seq<usize>> {
    candidates.map_values(|list: Vec<usize>| list@)
}

/// Whether every candidate is a position below `positions`.
pub open spec fn in_range(choices: Seq<Seq<usize>>, positions: int) -> bool {
    forall|e: int, k: int|
        0 <= e < choices.len() && 0 <= k < choices[e].len() ==> (#[trigger] choices[e][k]) < positions
}

/// Whether an equation could drive a position.
pub open spec fn could_drive(choices: Seq<Seq<usize>>, equation: int, position: int) -> bool {
    0 <= equation < choices.len() && exists|k: int|
        0 <= k < choices[equation].len() && (#[trigger] choices[equation][k]) == position
}

/// Whether `holder`, the equation each position is given to, is a matching.
pub open spec fn is_matching(choices: Seq<Seq<usize>>, holder: Seq<Option<usize>>) -> bool {
    &&& forall|p: int|
        0 <= p < holder.len() ==> ((#[trigger] holder[p]) matches Some(e) ==> could_drive(choices, e as int, p))
    &&& forall|p: int, q: int|
        0 <= p < holder.len() && 0 <= q < holder.len() && p != q && (#[trigger] holder[p]) is Some ==> holder[p]
            != #[trigger] holder[q]
}

/// How many positions are given to someone.
pub open spec fn held_count(holder: Seq<Option<usize>>) -> int
    decreases holder.len(),
{
    if holder.len() == 0 {
        0
    } else {
        held_count(holder.drop_last()) + if holder.last() is Some {
            1int
        } else {
            0
        }
    }
}

/// Whether a matching is a largest one.
pub open spec fn is_maximum(choices: Seq<Seq<usize>>, holder: Seq<Option<usize>>) -> bool {
    &&& is_matching(choices, holder)
    &&& forall|other: Seq<Option<usize>>|
        other.len() == holder.len() && #[trigger] is_matching(choices, other) ==> held_count(other) <= held_count(holder)
}

/// Whether a place is an equation's.
pub open spec fn holds(place: Option<usize>, equation: int) -> bool {
    place matches Some(e) && e == equation
}

/// Whether an equation has a position.
pub open spec fn placed(holder: Seq<Option<usize>>, equation: int) -> bool {
    exists|p: int| 0 <= p < holder.len() && holds(#[trigger] holder[p], equation)
}

/// A set of positions that is all taken, by equations that could drive nothing
/// outside it.
pub open spec fn is_full(choices: Seq<Seq<usize>>, holder: Seq<Option<usize>>, full: Set<int>) -> bool {
    forall|p: int| #[trigger]
        full.contains(p) ==> 0 <= p < holder.len() && holder[p] is Some && confined(choices, holder[p]->0 as int, full)
}

/// Whether an equation could drive nothing outside a set.
pub open spec fn confined(choices: Seq<Seq<usize>>, equation: int, set: Set<int>) -> bool {
    forall|p: int| #[trigger] could_drive(choices, equation, p) ==> set.contains(p)
}

spec fn positions_held(holder: Seq<Option<usize>>) -> Set<int> {
    set_int_range(0, holder.len() as int).filter(|p: int| holder[p] is Some)
}

proof fn counting_holders(holder: Seq<Option<usize>>)
    ensures
        positions_held(holder).finite(),
        positions_held(holder).len() == held_count(holder),
    decreases holder.len(),
{
    lemma_int_range(0, holder.len() as int);
    if holder.len() == 0 {
        assert(positions_held(holder) =~= Set::empty());
    } else {
        let rest = holder.drop_last();
        let last = holder.len() - 1;
        counting_holders(rest);
        if holder.last() is Some {
            assert(positions_held(holder) =~= positions_held(rest).insert(last));
        } else {
            assert(positions_held(holder) =~= positions_held(rest));
        }
    }
}

/// Equations without a position confined to a full set show a matching to be a
/// largest one: those confined to the set can have no more positions than it
/// has, and every other equation already has one.
pub proof fn a_full_set_shows_the_maximum(choices: Seq<Seq<usize>>, holder: Seq<Option<usize>>, full: Set<int>)
    requires
        is_matching(choices, holder),
        is_full(choices, holder, full),
        forall|e: int| 0 <= e < choices.len() && !placed(holder, e) ==> #[trigger] confined(choices, e, full),
    ensures
        is_maximum(choices, holder),
{
    assert forall|other: Seq<Option<usize>>| other.len() == holder.len() && #[trigger] is_matching(choices, other) implies held_count(
        other,
    ) <= held_count(holder) by {
        counting_holders(holder);
        counting_holders(other);
        let held = positions_held(holder);
        let theirs = positions_held(other);
        assert(full.subset_of(held)) by {
            assert forall|p: int| full.contains(p) implies held.contains(p) by {}
        }
        lemma_len_subset(full, held);
        let outside = held.difference(full);
        let inside = theirs.filter(|p: int| full.contains(p));
        let beyond = theirs.filter(|p: int| !full.contains(p));
        let rank = |p: int| other[p]->0 as int;
        let ours = |p: int| holder[p]->0 as int;
        let busy = beyond.map(rank);
        let free = outside.map(ours);
        assert(busy.subset_of(free)) by {
            assert forall|e: int| busy.contains(e) implies free.contains(e) by {
                let p = choose|p: int| beyond.contains(p) && rank(p) == e;
                assert(could_drive(choices, e, p));
                assert(!confined(choices, e, full));
                assert(placed(holder, e));
                let q = choose|q: int| 0 <= q < holder.len() && holds(#[trigger] holder[q], e);
                assert(!full.contains(q));
                assert(outside.contains(q) && ours(q) == e);
            }
        }
        assert(vstd::relations::injective_on(rank, beyond)) by {
            assert forall|p: int, q: int| beyond.contains(p) && beyond.contains(q) && #[trigger] rank(p) == #[trigger] rank(
                q,
            ) implies p == q by {
                if p != q {
                    assert(other[p] is Some);
                    assert(other[p] != other[q]);
                }
            }
        }
        assert(vstd::relations::injective_on(ours, outside)) by {
            assert forall|p: int, q: int| outside.contains(p) && outside.contains(q) && #[trigger] ours(p) == #[trigger] ours(
                q,
            ) implies p == q by {
                if p != q {
                    assert(holder[p] is Some);
                    assert(holder[p] != holder[q]);
                }
            }
        }
        vstd::set_lib::lemma_map_size(beyond, busy, rank);
        vstd::set_lib::lemma_map_size(outside, free, ours);
        lemma_len_subset(busy, free);
        assert(inside.subset_of(full));
        lemma_len_subset(inside, full);
        assert(inside.union(beyond) =~= theirs);
        vstd::set_lib::lemma_set_disjoint_lens(inside, beyond);
        assert(outside.union(full) =~= held);
        vstd::set_lib::lemma_set_disjoint_lens(outside, full);
    }
}

spec fn untried(visited: Seq<bool>) -> int
    decreases visited.len(),
{
    if visited.len() == 0 {
        0
    } else {
        untried(visited.drop_last()) + if visited.last() {
            0int
        } else {
            1
        }
    }
}

proof fn trying_counts_down(visited: Seq<bool>, at: int)
    requires
        0 <= at < visited.len(),
        !visited[at],
    ensures
        untried(visited.update(at, true)) == untried(visited) - 1,
        untried(visited.update(at, true)) >= 0,
    decreases visited.len(),
{
    let last = visited.len() - 1;
    untried_is_not_negative(visited.drop_last());
    if at == last {
        assert(visited.update(at, true).drop_last() =~= visited.drop_last());
    } else {
        trying_counts_down(visited.drop_last(), at);
        assert(visited.update(at, true).drop_last() =~= visited.drop_last().update(at, true));
    }
}

proof fn untried_is_not_negative(visited: Seq<bool>)
    ensures
        untried(visited) >= 0,
    decreases visited.len(),
{
    if visited.len() > 0 {
        untried_is_not_negative(visited.drop_last());
    }
}

/// Whether everything an equation could drive has been tried.
spec fn exhausted(choices: Seq<Seq<usize>>, equation: int, visited: Seq<bool>) -> bool {
    forall|k: int| 0 <= k < choices[equation].len() ==> visited[(#[trigger] choices[equation][k]) as int]
}

/// What trying in vain leaves behind: every position tried since is taken, by an
/// equation that has tried everything.
spec fn in_vain(
    choices: Seq<Seq<usize>>,
    holder: Seq<Option<usize>>,
    before: Seq<bool>,
    after: Seq<bool>,
) -> bool {
    &&& after.len() == before.len()
    &&& forall|p: int| 0 <= p < before.len() && (#[trigger] before[p]) ==> after[p]
    &&& forall|p: int|
        0 <= p < after.len() && (#[trigger] after[p]) && !before[p] ==> holder[p] is Some && exhausted(
            choices,
            holder[p]->0 as int,
            after,
        )
}

/// What a successful search does: the equation gets a position it had not tried
/// before, everyone else keeps one, and no place tried before is touched.
spec fn one_more(
    choices: Seq<Seq<usize>>,
    before: Seq<Option<usize>>,
    after: Seq<Option<usize>>,
    visited: Seq<bool>,
    equation: int,
) -> bool {
    &&& after.len() == before.len()
    &&& forall|p: int| 0 <= p < visited.len() && (#[trigger] visited[p]) ==> after[p] == before[p]
    &&& forall|p: int|
        0 <= p < after.len() ==> ((#[trigger] after[p]) matches Some(e) ==> could_drive(choices, e as int, p))
    &&& exists|p: int|
        0 <= p < after.len() && !visited[p] && holds(#[trigger] after[p], equation) && only_at(after, visited, p, equation)
    &&& forall|p: int, q: int|
        0 <= p < after.len() && 0 <= q < after.len() && p != q && (#[trigger] after[p]) is Some && !holds(
            after[p],
            equation,
        ) ==> after[p] != #[trigger] after[q]
    &&& forall|e: int| e != equation ==> (#[trigger] placed(before, e) <==> placed(after, e))
}

/// Whether the equation has `p`, and otherwise only what was tried before.
spec fn only_at(holder: Seq<Option<usize>>, visited: Seq<bool>, p: int, equation: int) -> bool {
    forall|q: int| 0 <= q < holder.len() && q != p && holds(#[trigger] holder[q], equation) ==> visited[q]
}

/// Where a search for a position has come to: whether there is one, who holds
/// what, and which positions have been tried.
#[verifier::ext_equal]
pub ghost struct Attempt {
    pub found: bool,
    pub holder: Seq<Option<usize>>,
    pub visited: Seq<bool>,
}

/// An equation's search over its first candidates: each position is tried once,
/// and one that is held is had if its holder can move to another of its own.
/// Holders are moved `depth` deep at most.
pub open spec fn searched(
    choices: Seq<Seq<usize>>,
    equation: int,
    holder: Seq<Option<usize>>,
    visited: Seq<bool>,
    upto: nat,
    depth: nat,
) -> Attempt
    decreases depth, upto,
{
    if upto == 0 {
        Attempt { found: false, holder, visited }
    } else {
        let before = searched(choices, equation, holder, visited, (upto - 1) as nat, depth);
        let position = choices[equation][upto - 1] as int;
        if before.found || before.visited[position] || depth == 0 {
            before
        } else {
            let marked = before.visited.update(position, true);
            match before.holder[position] {
                None => Attempt {
                    found: true,
                    holder: before.holder.update(position, Some(equation as usize)),
                    visited: marked,
                },
                Some(other) => {
                    let moved = searched(
                        choices,
                        other as int,
                        before.holder,
                        marked,
                        choices[other as int].len(),
                        (depth - 1) as nat,
                    );
                    if moved.found {
                        Attempt { holder: moved.holder.update(position, Some(equation as usize)), ..moved }
                    } else {
                        moved
                    }
                },
            }
        }
    }
}

/// Who holds what once each of the first equations has had its search, with no
/// position tried before it.
pub open spec fn matched_below(choices: Seq<Seq<usize>>, positions: nat, upto: nat) -> Seq<Option<usize>>
    decreases upto,
{
    if upto == 0 {
        Seq::new(positions, |p: int| None)
    } else {
        searched(
            choices,
            upto - 1,
            matched_below(choices, positions, (upto - 1) as nat),
            Seq::new(positions, |p: int| false),
            choices[upto - 1].len(),
            positions,
        ).holder
    }
}

/// The matching augmenting paths come to.
pub open spec fn matched(choices: Seq<Seq<usize>>, positions: nat) -> Seq<Option<usize>> {
    matched_below(choices, positions, choices.len())
}

/// A search that has found a position goes on no further.
proof fn found_is_found(
    choices: Seq<Seq<usize>>,
    equation: int,
    holder: Seq<Option<usize>>,
    visited: Seq<bool>,
    from: nat,
    upto: nat,
    depth: nat,
)
    requires
        from <= upto,
        searched(choices, equation, holder, visited, from, depth).found,
    ensures
        searched(choices, equation, holder, visited, upto, depth) == searched(
            choices,
            equation,
            holder,
            visited,
            from,
            depth,
        ),
    decreases upto - from,
{
    if from < upto {
        found_is_found(choices, equation, holder, visited, from, (upto - 1) as nat, depth);
    }
}

proof fn no_more_than_all(visited: Seq<bool>)
    ensures
        0 <= untried(visited) <= visited.len(),
    decreases visited.len(),
{
    if visited.len() > 0 {
        no_more_than_all(visited.drop_last());
    }
}

/// Gives `equation` a position, evicting a holder that can move to another of
/// its own candidates. Each position is tried once.
fn assign(
    equation: usize,
    candidates: &Vec<Vec<usize>>,
    holder: &mut Vec<Option<usize>>,
    visited: &mut Vec<bool>,
    full: Ghost<Set<int>>,
    Ghost(depth): Ghost<nat>,
) -> (found: bool)
    requires
        untried(old(visited)@) <= depth,
        equation < candidates@.len(),
        in_range(choices(candidates@), old(holder)@.len() as int),
        is_matching(choices(candidates@), old(holder)@),
        old(visited)@.len() == old(holder)@.len(),
        forall|p: int|
            0 <= p < old(holder)@.len() && holds(#[trigger] old(holder)@[p], equation as int) ==> old(visited)@[p],
        is_full(choices(candidates@), old(holder)@, full@),
    ensures
        found ==> one_more(
            choices(candidates@),
            old(holder)@,
            final(holder)@,
            old(visited)@,
            equation as int,
        ),
        found ==> forall|p: int| full@.contains(p) ==> final(holder)@[p] == old(holder)@[p],
        confined(choices(candidates@), equation as int, full@) ==> !found,
        !found ==> final(holder)@ == old(holder)@,
        !found ==> in_vain(choices(candidates@), old(holder)@, old(visited)@, final(visited)@),
        !found ==> exhausted(choices(candidates@), equation as int, final(visited)@),
        final(holder)@.len() == old(holder)@.len(),
        final(visited)@.len() == old(visited)@.len(),
        untried(final(visited)@) <= untried(old(visited)@),
        (Attempt { found, holder: final(holder)@, visited: final(visited)@ }) == searched(
            choices(candidates@),
            equation as int,
            old(holder)@,
            old(visited)@,
            candidates@[equation as int]@.len(),
            depth,
        ),
    decreases untried(old(visited)@),
{
    let ghost list = choices(candidates@);
    let ghost start = visited@;
    let ghost held = holder@;
    let count: usize = candidates[equation].len();
    for k in 0..count
        invariant
            equation < candidates@.len(),
            list == choices(candidates@),
            count == list[equation as int].len() == candidates@[equation as int]@.len(),
            in_range(list, holder@.len() as int),
            is_matching(list, holder@),
            is_full(list, holder@, full@),
            held == holder@,
            held == old(holder)@,
            start == old(visited)@,
            start.len() == held.len() == visited@.len(),
            forall|p: int| 0 <= p < held.len() && holds(#[trigger] held[p], equation as int) ==> start[p],
            in_vain(list, held, start, visited@),
            forall|j: int| 0 <= j < k ==> visited@[(#[trigger] list[equation as int][j]) as int],
            untried(visited@) <= untried(start) <= depth,
            (Attempt { found: false, holder: held, visited: visited@ }) == searched(
                list,
                equation as int,
                held,
                start,
                k as nat,
                depth,
            ),
    {
        let position: usize = candidates[equation][k];
        assert(list[equation as int][k as int] == position);
        assert(could_drive(list, equation as int, position as int));
        if !visited[position] {
            let ghost before = visited@;
            proof {
                trying_counts_down(visited@, position as int);
            }
            visited.set(position, true);
            match holder[position] {
                None => {
                    holder.set(position, Some(equation));
                    proof {
                        found_is_found(list, equation as int, held, start, (k + 1) as nat, count as nat, depth);
                        assert(!full@.contains(position as int));
                        takes_a_free_one(list, held, holder@, start, equation as int, position as int);
                    }
                    return true;
                },
                Some(other) => {
                    let ghost marked = visited@;
                    proof {
                        assert(could_drive(list, other as int, position as int));
                        assert forall|p: int| 0 <= p < held.len() && holds(#[trigger] held[p], other as int) implies marked[p] by {
                            if p != position {
                                assert(held[p] != held[position as int]);
                            }
                        }
                    }
                    if assign(other, candidates, holder, visited, full, Ghost((depth - 1) as nat)) {
                        let ghost moved = holder@;
                        proof {
                            if full@.contains(position as int) {
                                assert(confined(list, other as int, full@));
                            }
                        }
                        holder.set(position, Some(equation));
                        proof {
                            found_is_found(list, equation as int, held, start, (k + 1) as nat, count as nat, depth);
                            takes_over(
                                list,
                                held,
                                moved,
                                holder@,
                                start,
                                marked,
                                equation as int,
                                position as int,
                                other as int,
                            );
                        }
                        return true;
                    }
                    proof {
                        assert forall|p: int| 0 <= p < before.len() && (#[trigger] before[p]) implies visited@[p] by {
                            assert(marked[p]);
                        }
                        assert forall|p: int|
                            0 <= p < visited@.len() && (#[trigger] visited@[p]) && !start[p] implies held[p] is Some && exhausted(
                            list,
                            held[p]->0 as int,
                            visited@,
                        ) by {
                            if p == position {
                            } else if before[p] {
                                assert(exhausted(list, held[p]->0 as int, before));
                                still_exhausted(list, held[p]->0 as int, before, visited@);
                            } else {
                                assert(!marked[p]);
                            }
                        }
                        assert forall|p: int| 0 <= p < start.len() && (#[trigger] start[p]) implies visited@[p] by {
                            assert(before[p]);
                            assert(marked[p]);
                        }
                        assert forall|j: int| 0 <= j < k + 1 implies visited@[(#[trigger] list[equation as int][j]) as int] by {
                            if j < k {
                                assert(before[list[equation as int][j] as int]);
                                assert(marked[list[equation as int][j] as int]);
                            } else {
                                assert(marked[position as int]);
                            }
                        }
                    }
                },
            }
        }
    }
    false
}

proof fn still_exhausted(choices: Seq<Seq<usize>>, equation: int, before: Seq<bool>, after: Seq<bool>)
    requires
        exhausted(choices, equation, before),
        0 <= equation < choices.len(),
        in_range(choices, before.len() as int),
        after.len() == before.len(),
        forall|p: int| 0 <= p < before.len() && (#[trigger] before[p]) ==> after[p],
    ensures
        exhausted(choices, equation, after),
{
    assert forall|k: int| 0 <= k < choices[equation].len() implies after[(#[trigger] choices[equation][k]) as int] by {
        assert(before[choices[equation][k] as int]);
    }
}

/// An equation takes a position nobody has.
proof fn takes_a_free_one(
    choices: Seq<Seq<usize>>,
    before: Seq<Option<usize>>,
    after: Seq<Option<usize>>,
    visited: Seq<bool>,
    equation: int,
    position: int,
)
    requires
        is_matching(choices, before),
        visited.len() == before.len(),
        0 <= position < before.len(),
        !visited[position],
        before[position] is None,
        could_drive(choices, equation, position),
        0 <= equation <= usize::MAX,
        after == before.update(position, Some(equation as usize)),
        forall|p: int| 0 <= p < before.len() && holds(#[trigger] before[p], equation) ==> visited[p],
    ensures
        one_more(choices, before, after, visited, equation),
{
    assert(holds(after[position], equation));
    assert(only_at(after, visited, position, equation)) by {
        assert forall|q: int| 0 <= q < after.len() && q != position && holds(#[trigger] after[q], equation) implies visited[q] by {
            assert(holds(before[q], equation));
        }
    }
    assert forall|e: int| e != equation implies (#[trigger] placed(before, e) <==> placed(after, e)) by {
        if placed(before, e) {
            let p = choose|p: int| 0 <= p < before.len() && holds(#[trigger] before[p], e);
            assert(holds(after[p], e));
        }
        if placed(after, e) {
            let p = choose|p: int| 0 <= p < after.len() && holds(#[trigger] after[p], e);
            assert(holds(before[p], e));
        }
    }
    assert forall|p: int, q: int|
        0 <= p < after.len() && 0 <= q < after.len() && p != q && (#[trigger] after[p]) is Some && !holds(
            after[p],
            equation,
        ) implies after[p] != #[trigger] after[q] by {
        assert(before[p] == after[p]);
        if q != position {
            assert(before[q] == after[q]);
        }
    }
}

/// An equation takes over a position whose holder has moved.
proof fn takes_over(
    choices: Seq<Seq<usize>>,
    before: Seq<Option<usize>>,
    moved: Seq<Option<usize>>,
    after: Seq<Option<usize>>,
    visited: Seq<bool>,
    marked: Seq<bool>,
    equation: int,
    position: int,
    other: int,
)
    requires
        is_matching(choices, before),
        visited.len() == before.len() == marked.len(),
        0 <= position < before.len(),
        !visited[position],
        marked[position],
        forall|p: int| 0 <= p < visited.len() && (#[trigger] visited[p]) ==> marked[p],
        holds(before[position], other),
        could_drive(choices, equation, position),
        0 <= equation <= usize::MAX,
        one_more(choices, before, moved, marked, other),
        after == moved.update(position, Some(equation as usize)),
        forall|p: int| 0 <= p < before.len() && holds(#[trigger] before[p], equation) ==> visited[p],
    ensures
        one_more(choices, before, after, visited, equation),
{
    let p0 = choose|p: int|
        0 <= p < moved.len() && !marked[p] && holds(#[trigger] moved[p], other) && only_at(moved, marked, p, other);
    assert(moved[position] == before[position]);
    assert(other != equation) by {
        if other == equation {
            assert(holds(before[position], equation));
        }
    }
    assert forall|p: int| 0 <= p < visited.len() && (#[trigger] visited[p]) implies after[p] == before[p] by {
        assert(marked[p]);
    }
    assert(holds(after[position], equation));
    assert(only_at(after, visited, position, equation)) by {
        assert forall|q: int| 0 <= q < after.len() && q != position && holds(#[trigger] after[q], equation) implies visited[q] by {
            assert(holds(moved[q], equation));
            if !visited[q] {
                assert(!holds(before[q], equation));
                if placed(before, equation) {
                    let r = choose|r: int| 0 <= r < before.len() && holds(#[trigger] before[r], equation);
                    assert(visited[r]);
                    assert(marked[r]);
                    assert(moved[r] == before[r]);
                    assert(q != r);
                    assert(moved[r] is Some);
                    assert(moved[r] != moved[q]);
                } else {
                    assert(placed(moved, equation));
                }
            }
        }
    }
    assert forall|p: int, q: int|
        0 <= p < after.len() && 0 <= q < after.len() && p != q && (#[trigger] after[p]) is Some && !holds(
            after[p],
            equation,
        ) implies after[p] != #[trigger] after[q] by {
        if p != position && q != position {
            if holds(moved[p], other) {
                if holds(moved[q], other) {
                    if p != p0 {
                        assert(marked[p]);
                        assert(moved[p] == before[p]);
                        assert(before[p] != before[position]);
                    } else {
                        assert(q != p0);
                        assert(marked[q]);
                        assert(moved[q] == before[q]);
                        assert(before[q] != before[position]);
                    }
                }
            } else {
                assert(moved[p] != moved[q]);
            }
        }
    }
    assert forall|e: int| e != equation implies (#[trigger] placed(before, e) <==> placed(after, e)) by {
        if e == other {
            assert(p0 != position);
            assert(holds(after[p0], e));
            assert(holds(before[position], e));
        } else {
            assert(placed(before, e) <==> placed(moved, e));
            if placed(moved, e) {
                let p = choose|p: int| 0 <= p < moved.len() && holds(#[trigger] moved[p], e);
                assert(p != position);
                assert(holds(after[p], e));
            }
            if placed(after, e) {
                let p = choose|p: int| 0 <= p < after.len() && holds(#[trigger] after[p], e);
                assert(p != position);
                assert(holds(moved[p], e));
            }
        }
    }
}

/// A largest matching, by augmenting paths: an equation takes the first
/// candidate it can, evicting a holder that can move to another of its own.
pub fn maximum_matching(candidates: &Vec<Vec<usize>>, positions: usize) -> (holder: Vec<Option<usize>>)
    requires
        in_range(choices(candidates@), positions as int),
    ensures
        holder@ == matched(choices(candidates@), positions as nat),
        holder@.len() == positions,
        is_maximum(choices(candidates@), holder@),
{
    let ghost list = choices(candidates@);
    let mut holder: Vec<Option<usize>> = vec![None; positions];
    assert(holder@ =~= matched_below(list, positions as nat, 0));
    let ghost mut full: Set<int> = Set::empty();
    for equation in 0..candidates.len()
        invariant
            list == choices(candidates@),
            in_range(list, positions as int),
            holder@ == matched_below(list, positions as nat, equation as nat),
            holder@.len() == positions,
            is_matching(list, holder@),
            is_full(list, holder@, full),
            forall|e: int| 0 <= e < equation && !placed(holder@, e) ==> #[trigger] confined(list, e, full),
            forall|e: int| equation <= e < list.len() ==> !#[trigger] placed(holder@, e),
    {
        let mut visited: Vec<bool> = vec![false; positions];
        let ghost before = holder@;
        let ghost clean = visited@;
        proof {
            assert forall|p: int| 0 <= p < before.len() && holds(#[trigger] before[p], equation as int) implies clean[p] by {
                assert(placed(before, equation as int));
            }
        }
        proof {
            no_more_than_all(clean);
            assert(clean =~= Seq::new(positions as nat, |p: int| false));
        }
        let found = assign(equation, candidates, &mut holder, &mut visited, Ghost(full), Ghost(positions as nat));
        proof {
            if found {
                after_a_success(list, before, holder@, clean, equation as int, full);
                assert forall|e: int| equation + 1 <= e < list.len() implies !#[trigger] placed(holder@, e) by {
                    assert(placed(before, e) <==> placed(holder@, e));
                }
                assert forall|e: int| 0 <= e < equation + 1 && !placed(holder@, e) implies #[trigger] confined(
                    list,
                    e,
                    full,
                ) by {
                    assert(placed(before, e) <==> placed(holder@, e));
                }
            } else {
                let tried = Set::new(|p: int| 0 <= p < positions && visited@[p]);
                let more = full.union(tried);
                assert forall|p: int| #[trigger] more.contains(p) implies 0 <= p < holder@.len() && holder@[p] is Some
                    && confined(list, holder@[p]->0 as int, more) by {
                    if tried.contains(p) {
                        let e = holder@[p]->0 as int;
                        assert(visited@[p] && !clean[p]);
                        assert forall|q: int| #[trigger] could_drive(list, e, q) implies more.contains(q) by {
                            let k = choose|k: int| 0 <= k < list[e].len() && (#[trigger] list[e][k]) == q;
                            assert(visited@[list[e][k] as int]);
                            assert(tried.contains(q));
                        }
                    } else {
                        assert(confined(list, holder@[p]->0 as int, full));
                        assert forall|q: int| #[trigger] could_drive(list, holder@[p]->0 as int, q) implies more.contains(q) by {}
                    }
                }
                assert forall|e: int| 0 <= e < equation + 1 && !placed(holder@, e) implies #[trigger] confined(list, e, more) by {
                    if e < equation {
                        assert(confined(list, e, full));
                        assert forall|q: int| #[trigger] could_drive(list, e, q) implies more.contains(q) by {}
                    } else {
                        assert forall|q: int| #[trigger] could_drive(list, e, q) implies more.contains(q) by {
                            let k = choose|k: int| 0 <= k < list[e].len() && (#[trigger] list[e][k]) == q;
                            assert(visited@[list[e][k] as int]);
                            assert(tried.contains(q));
                        }
                    }
                }
                full = more;
            }
        }
    }
    proof {
        a_full_set_shows_the_maximum(list, holder@, full);
    }
    holder
}

proof fn after_a_success(
    choices: Seq<Seq<usize>>,
    before: Seq<Option<usize>>,
    after: Seq<Option<usize>>,
    clean: Seq<bool>,
    equation: int,
    full: Set<int>,
)
    requires
        is_matching(choices, before),
        is_full(choices, before, full),
        !placed(before, equation),
        clean.len() == before.len(),
        forall|p: int| 0 <= p < clean.len() ==> !#[trigger] clean[p],
        one_more(choices, before, after, clean, equation),
        forall|p: int| full.contains(p) ==> after[p] == before[p],
    ensures
        is_matching(choices, after),
        is_full(choices, after, full),
        placed(after, equation),
        forall|e: int| e != equation ==> (#[trigger] placed(before, e) <==> placed(after, e)),
{
    let p0 = choose|p: int|
        0 <= p < after.len() && !clean[p] && holds(#[trigger] after[p], equation) && only_at(after, clean, p, equation);
    assert(holds(after[p0], equation));
    assert forall|p: int, q: int|
        0 <= p < after.len() && 0 <= q < after.len() && p != q && (#[trigger] after[p]) is Some implies after[p]
        != #[trigger] after[q] by {
        if holds(after[p], equation) && holds(after[q], equation) {
            if p != p0 {
                assert(clean[p]);
            } else {
                assert(clean[q]);
            }
        }
    }
    assert forall|p: int| #[trigger] full.contains(p) implies 0 <= p < after.len() && after[p] is Some && confined(
        choices,
        after[p]->0 as int,
        full,
    ) by {
        assert(after[p] == before[p]);
    }
}

// ---- every largest matching ----

/// How many matchings a search keeps.
pub const PLANS: usize = 8;

/// How many partial matchings a search may visit before it keeps what it has.
pub const PLAN_SEARCH: usize = 4096;

/// A search so far: the matchings found and how many partial ones were visited.
pub ghost struct Listing {
    pub found: Seq<Seq<Option<usize>>>,
    pub visited: int,
}

impl Listing {
    pub open spec fn is_spent(self) -> bool {
        self.found.len() >= PLANS || self.visited >= PLAN_SEARCH
    }
}

/// The matchings of `size` positions that extend `taken`, in order: each
/// equation from `equation` on tries its candidates first and then takes
/// nothing.
pub open spec fn listed(
    choices: Seq<Seq<usize>>,
    size: int,
    equation: int,
    matched: int,
    taken: Seq<Option<usize>>,
    listing: Listing,
) -> Listing
    decreases choices.len() - equation, 1int, 0int,
{
    if listing.is_spent() || equation < 0 || equation > choices.len() {
        listing
    } else {
        let listing = Listing { visited: listing.visited + 1, ..listing };
        if matched + (choices.len() - equation) < size {
            listing
        } else if equation == choices.len() {
            if matched == size {
                Listing { found: listing.found.push(taken), ..listing }
            } else {
                listing
            }
        } else {
            let tried = listed_choices(
                choices,
                size,
                equation,
                matched,
                taken,
                listing,
                choices[equation].len() as int,
            );
            listed(choices, size, equation + 1, matched, taken, tried)
        }
    }
}

/// Those in which the equation takes one of its first `upto` candidates.
pub open spec fn listed_choices(
    choices: Seq<Seq<usize>>,
    size: int,
    equation: int,
    matched: int,
    taken: Seq<Option<usize>>,
    listing: Listing,
    upto: int,
) -> Listing
    decreases choices.len() - equation, 0int, upto,
{
    if upto <= 0 || equation < 0 || equation >= choices.len() {
        listing
    } else {
        let before = listed_choices(choices, size, equation, matched, taken, listing, upto - 1);
        let position = choices[equation][upto - 1] as int;
        if taken[position] is Some {
            before
        } else {
            listed(
                choices,
                size,
                equation + 1,
                matched + 1,
                taken.update(position, Some(equation as usize)),
                before,
            )
        }
    }
}

/// The matchings of a list.
pub open spec fn matchings(found: Seq<Vec<Option<usize>>>) -> Seq<Seq<Option<usize>>> {
    found.map_values(|matching: Vec<Option<usize>>| matching@)
}

fn copied(list: &Vec<Option<usize>>) -> (copy: Vec<Option<usize>>)
    ensures
        copy@ == list@,
{
    let mut copy: Vec<Option<usize>> = Vec::with_capacity(list.len());
    for i in 0..list.len()
        invariant
            copy@ =~= list@.take(i as int),
    {
        copy.push(list[i]);
    }
    assert(copy@ =~= list@);
    copy
}

/// Lists the matchings of `size` positions that extend `taken`.
fn enumerate(
    equation: usize,
    matched: usize,
    size: usize,
    candidates: &Vec<Vec<usize>>,
    taken: &mut Vec<Option<usize>>,
    found: &mut Vec<Vec<Option<usize>>>,
    visited: &mut usize,
)
    requires
        equation <= candidates@.len(),
        matched <= equation,
        in_range(choices(candidates@), old(taken)@.len() as int),
        *old(visited) <= PLAN_SEARCH,
    ensures
        final(taken)@ == old(taken)@,
        *final(visited) <= PLAN_SEARCH,
        (Listing { found: matchings(final(found)@), visited: *final(visited) as int }) == listed(
            choices(candidates@),
            size as int,
            equation as int,
            matched as int,
            old(taken)@,
            (Listing { found: matchings(old(found)@), visited: *old(visited) as int }),
        ),
    decreases candidates@.len() - equation,
{
    let ghost list = choices(candidates@);
    let ghost start = taken@;
    let ghost first = Listing { found: matchings(found@), visited: *visited as int };
    if found.len() >= PLANS || *visited >= PLAN_SEARCH {
        return;
    }
    *visited = *visited + 1;
    let rest: usize = candidates.len() - equation;
    if rest < size && matched < size - rest {
        return;
    }
    if equation == candidates.len() {
        if matched == size {
            let ghost before = found@;
            let copy = copied(taken);
            found.push(copy);
            assert(matchings(found@) =~= matchings(before).push(start));
        }
        return;
    }
    let ghost entered = Listing { found: matchings(found@), visited: *visited as int };
    let total: usize = candidates.len();
    let count: usize = candidates[equation].len();
    for k in 0..count
        invariant
            total == candidates@.len(),
            equation < total,
            matched <= equation,
            list == choices(candidates@),
            in_range(list, start.len() as int),
            count == list[equation as int].len() == candidates@[equation as int]@.len(),
            taken@ == start,
            *visited <= PLAN_SEARCH,
            (Listing { found: matchings(found@), visited: *visited as int }) == listed_choices(
                list,
                size as int,
                equation as int,
                matched as int,
                start,
                entered,
                k as int,
            ),
    {
        let position: usize = candidates[equation][k];
        assert(list[equation as int][k as int] == position);
        if taken[position].is_none() {
            taken.set(position, Some(equation));
            enumerate(equation + 1, matched + 1, size, candidates, taken, found, visited);
            taken.set(position, None);
            assert(taken@ =~= start);
        }
    }
    enumerate(equation + 1, matched, size, candidates, taken, found, visited);
}

/// The matchings of `size` positions, at most [`PLANS`] of them, from at most
/// [`PLAN_SEARCH`] partial ones.
pub fn list_matchings(candidates: &Vec<Vec<usize>>, positions: usize, size: usize) -> (found: Vec<Vec<Option<usize>>>)
    requires
        in_range(choices(candidates@), positions as int),
    ensures
        matchings(found@) == all_listed(choices(candidates@), positions as nat, size as int).found,
{
    let mut taken: Vec<Option<usize>> = vec![None; positions];
    let mut found: Vec<Vec<Option<usize>>> = Vec::new();
    let mut visited: usize = 0;
    proof {
        assert(taken@ =~= nobody(positions as nat));
        assert(matchings(found@) =~= Seq::empty());
    }
    enumerate(0, 0, size, candidates, &mut taken, &mut found, &mut visited);
    found
}

/// No position given to anyone.
pub open spec fn nobody(positions: nat) -> Seq<Option<usize>> {
    Seq::new(positions, |p: int| None)
}

/// The whole search.
pub open spec fn all_listed(choices: Seq<Seq<usize>>, positions: nat, size: int) -> Listing {
    listed(choices, size, 0, 0, nobody(positions), Listing { found: Seq::empty(), visited: 0 })
}

/// Whether `taken` gives positions to the first `equation` equations only.
spec fn is_partial(choices: Seq<Seq<usize>>, taken: Seq<Option<usize>>, equation: int) -> bool {
    &&& is_matching(choices, taken)
    &&& forall|p: int| 0 <= p < taken.len() ==> ((#[trigger] taken[p]) matches Some(e) ==> e < equation)
}

proof fn giving_one_more(taken: Seq<Option<usize>>, position: int, equation: usize)
    requires
        0 <= position < taken.len(),
        taken[position] is None,
    ensures
        held_count(taken.update(position, Some(equation))) == held_count(taken) + 1,
    decreases taken.len(),
{
    if position == taken.len() - 1 {
        assert(taken.update(position, Some(equation)).drop_last() =~= taken.drop_last());
    } else {
        giving_one_more(taken.drop_last(), position, equation);
        assert(taken.update(position, Some(equation)).drop_last() =~= taken.drop_last().update(
            position,
            Some(equation),
        ));
    }
}

proof fn extending_a_partial(choices: Seq<Seq<usize>>, taken: Seq<Option<usize>>, equation: int, k: int)
    requires
        is_partial(choices, taken, equation),
        0 <= equation < choices.len(),
        equation <= usize::MAX,
        0 <= k < choices[equation].len(),
        in_range(choices, taken.len() as int),
        taken[choices[equation][k] as int] is None,
    ensures
        is_partial(
            choices,
            taken.update(choices[equation][k] as int, Some(equation as usize)),
            equation + 1,
        ),
{
    let position = choices[equation][k] as int;
    let next = taken.update(position, Some(equation as usize));
    assert(could_drive(choices, equation, position));
    assert forall|p: int, q: int|
        0 <= p < next.len() && 0 <= q < next.len() && p != q && (#[trigger] next[p]) is Some implies next[p]
        != #[trigger] next[q] by {
        if p != position && q != position {
            assert(taken[p] == next[p] && taken[q] == next[q]);
        } else if p != position {
            assert(taken[p] == next[p]);
        } else {
            assert(taken[q] == next[q]);
        }
    }
}

/// Whether a listing has only matchings of the size, and no more than it may.
spec fn is_fair(choices: Seq<Seq<usize>>, positions: int, size: int, listing: Listing) -> bool {
    &&& listing.found.len() <= PLANS
    &&& forall|i: int|
        0 <= i < listing.found.len() ==> (#[trigger] listing.found[i]).len() == positions && is_matching(
            choices,
            listing.found[i],
        ) && held_count(listing.found[i]) == size
}

proof fn listing_is_fair(
    choices: Seq<Seq<usize>>,
    size: int,
    equation: int,
    matched: int,
    taken: Seq<Option<usize>>,
    listing: Listing,
)
    requires
        in_range(choices, taken.len() as int),
        choices.len() <= usize::MAX,
        0 <= equation <= choices.len(),
        is_partial(choices, taken, equation),
        held_count(taken) == matched,
        is_fair(choices, taken.len() as int, size, listing),
    ensures
        is_fair(choices, taken.len() as int, size, listed(choices, size, equation, matched, taken, listing)),
    decreases choices.len() - equation, 1int, 0int,
{
    if !listing.is_spent() {
        let entered = Listing { visited: listing.visited + 1, ..listing };
        assert(is_fair(choices, taken.len() as int, size, entered));
        if matched + (choices.len() - equation) < size {
        } else if equation == choices.len() {
            if matched == size {
                let done = Listing { found: entered.found.push(taken), ..entered };
                assert forall|i: int| 0 <= i < done.found.len() implies (#[trigger] done.found[i]).len() == taken.len()
                    && is_matching(choices, done.found[i]) && held_count(done.found[i]) == size by {
                    if i < entered.found.len() {
                        assert(done.found[i] == entered.found[i]);
                    }
                }
            }
        } else {
            let count = choices[equation].len() as int;
            choices_are_fair(choices, size, equation, matched, taken, entered, count);
            let tried = listed_choices(choices, size, equation, matched, taken, entered, count);
            listing_is_fair(choices, size, equation + 1, matched, taken, tried);
        }
    }
}

proof fn choices_are_fair(
    choices: Seq<Seq<usize>>,
    size: int,
    equation: int,
    matched: int,
    taken: Seq<Option<usize>>,
    listing: Listing,
    upto: int,
)
    requires
        in_range(choices, taken.len() as int),
        choices.len() <= usize::MAX,
        0 <= equation < choices.len(),
        0 <= upto <= choices[equation].len(),
        is_partial(choices, taken, equation),
        held_count(taken) == matched,
        is_fair(choices, taken.len() as int, size, listing),
    ensures
        is_fair(
            choices,
            taken.len() as int,
            size,
            listed_choices(choices, size, equation, matched, taken, listing, upto),
        ),
    decreases choices.len() - equation, 0int, upto,
{
    if upto > 0 {
        choices_are_fair(choices, size, equation, matched, taken, listing, upto - 1);
        let before = listed_choices(choices, size, equation, matched, taken, listing, upto - 1);
        let position = choices[equation][upto - 1] as int;
        if taken[position] is None {
            extending_a_partial(choices, taken, equation, upto - 1);
            giving_one_more(taken, position, equation as usize);
            listing_is_fair(
                choices,
                size,
                equation + 1,
                matched + 1,
                taken.update(position, Some(equation as usize)),
                before,
            );
        }
    }
}

/// What a listing has it keeps, and what it visited it has visited.
spec fn grows(before: Listing, after: Listing) -> bool {
    &&& before.visited <= after.visited
    &&& before.found.is_prefix_of(after.found)
}

proof fn listing_grows(
    choices: Seq<Seq<usize>>,
    size: int,
    equation: int,
    matched: int,
    taken: Seq<Option<usize>>,
    listing: Listing,
)
    requires
        0 <= equation <= choices.len(),
    ensures
        grows(listing, listed(choices, size, equation, matched, taken, listing)),
    decreases choices.len() - equation, 1int, 0int,
{
    if !listing.is_spent() {
        let entered = Listing { visited: listing.visited + 1, ..listing };
        if matched + (choices.len() - equation) < size || equation == choices.len() {
        } else {
            let count = choices[equation].len() as int;
            choices_grow(choices, size, equation, matched, taken, entered, count);
            let tried = listed_choices(choices, size, equation, matched, taken, entered, count);
            listing_grows(choices, size, equation + 1, matched, taken, tried);
        }
    }
}

proof fn choices_grow(
    choices: Seq<Seq<usize>>,
    size: int,
    equation: int,
    matched: int,
    taken: Seq<Option<usize>>,
    listing: Listing,
    upto: int,
)
    requires
        0 <= equation < choices.len(),
    ensures
        grows(listing, listed_choices(choices, size, equation, matched, taken, listing, upto)),
    decreases choices.len() - equation, 0int, upto,
{
    if upto > 0 {
        choices_grow(choices, size, equation, matched, taken, listing, upto - 1);
        let before = listed_choices(choices, size, equation, matched, taken, listing, upto - 1);
        let position = choices[equation][upto - 1] as int;
        if !(taken[position] is Some) {
            listing_grows(
                choices,
                size,
                equation + 1,
                matched + 1,
                taken.update(position, Some(equation as usize)),
                before,
            );
        }
    }
}

/// Whether a matching gives the first `equation` equations what `taken` does.
spec fn agrees(matching: Seq<Option<usize>>, taken: Seq<Option<usize>>, equation: int) -> bool {
    &&& matching.len() == taken.len()
    &&& forall|p: int|
        0 <= p < matching.len() ==> (if (#[trigger] matching[p]) is Some && matching[p]->0 < equation {
            taken[p] == matching[p]
        } else {
            taken[p] is None
        })
}

/// A matching has at most one position more for each equation more.
proof fn one_each(choices: Seq<Seq<usize>>, matching: Seq<Option<usize>>, taken: Seq<Option<usize>>, equation: int)
    requires
        is_matching(choices, matching),
        agrees(matching, taken, equation),
        0 <= equation <= choices.len(),
    ensures
        held_count(matching) <= held_count(taken) + (choices.len() - equation),
    decreases choices.len() - equation,
{
    if equation == choices.len() {
        assert(matching =~= taken) by {
            assert forall|p: int| 0 <= p < matching.len() implies matching[p] == taken[p] by {
                if matching[p] is Some {
                    assert(could_drive(choices, matching[p]->0 as int, p));
                }
            }
        }
    } else if placed(matching, equation) {
        let p = choose|p: int| 0 <= p < matching.len() && holds(#[trigger] matching[p], equation);
        let next = taken.update(p, matching[p]);
        assert(taken[p] is None);
        giving_one_more(taken, p, matching[p]->0);
        assert(agrees(matching, next, equation + 1)) by {
            assert forall|q: int| 0 <= q < matching.len() implies (if (#[trigger] matching[q]) is Some && matching[q]->0
                < equation + 1 {
                next[q] == matching[q]
            } else {
                next[q] is None
            }) by {
                if q != p {
                    assert(matching[p] != matching[q]);
                }
            }
        }
        one_each(choices, matching, next, equation + 1);
    } else {
        assert(agrees(matching, taken, equation + 1)) by {
            assert forall|q: int| 0 <= q < matching.len() implies (if (#[trigger] matching[q]) is Some && matching[q]->0
                < equation + 1 {
                taken[q] == matching[q]
            } else {
                taken[q] is None
            }) by {
                assert(!holds(matching[q], equation));
            }
        }
        one_each(choices, matching, taken, equation + 1);
    }
}

/// A search that is not cut short lists every matching of the size that extends
/// what was taken.
proof fn listing_is_complete(
    choices: Seq<Seq<usize>>,
    size: int,
    equation: int,
    matched: int,
    taken: Seq<Option<usize>>,
    listing: Listing,
    matching: Seq<Option<usize>>,
)
    requires
        in_range(choices, taken.len() as int),
        choices.len() <= usize::MAX,
        0 <= equation <= choices.len(),
        held_count(taken) == matched,
        is_matching(choices, matching),
        held_count(matching) == size,
        agrees(matching, taken, equation),
        !listed(choices, size, equation, matched, taken, listing).is_spent(),
    ensures
        listed(choices, size, equation, matched, taken, listing).found.contains(matching),
    decreases choices.len() - equation, 1int, 0int,
{
    listing_grows(choices, size, equation, matched, taken, listing);
    let entered = Listing { visited: listing.visited + 1, ..listing };
    one_each(choices, matching, taken, equation);
    if equation == choices.len() {
        assert(matching =~= taken) by {
            assert forall|p: int| 0 <= p < matching.len() implies matching[p] == taken[p] by {
                if matching[p] is Some {
                    assert(could_drive(choices, matching[p]->0 as int, p));
                }
            }
        }
        let done = entered.found.push(taken);
        assert(done[entered.found.len() as int] == matching);
    } else {
        let count = choices[equation].len() as int;
        let tried = listed_choices(choices, size, equation, matched, taken, entered, count);
        listing_grows(choices, size, equation + 1, matched, taken, tried);
        if placed(matching, equation) {
            choices_are_complete(choices, size, equation, matched, taken, entered, count, matching);
            let after = listed(choices, size, equation + 1, matched, taken, tried);
            let i = choose|i: int| 0 <= i < tried.found.len() && tried.found[i] == matching;
            assert(after.found[i] == matching);
        } else {
            assert(agrees(matching, taken, equation + 1)) by {
                assert forall|q: int| 0 <= q < matching.len() implies (if (#[trigger] matching[q]) is Some && matching[q]->0
                    < equation + 1 {
                    taken[q] == matching[q]
                } else {
                    taken[q] is None
                }) by {
                    assert(!holds(matching[q], equation));
                }
            }
            listing_is_complete(choices, size, equation + 1, matched, taken, tried, matching);
        }
    }
}

proof fn choices_are_complete(
    choices: Seq<Seq<usize>>,
    size: int,
    equation: int,
    matched: int,
    taken: Seq<Option<usize>>,
    listing: Listing,
    upto: int,
    matching: Seq<Option<usize>>,
)
    requires
        in_range(choices, taken.len() as int),
        choices.len() <= usize::MAX,
        0 <= equation < choices.len(),
        0 <= upto <= choices[equation].len(),
        held_count(taken) == matched,
        is_matching(choices, matching),
        held_count(matching) == size,
        agrees(matching, taken, equation),
        exists|k: int|
            0 <= k < upto && holds(matching[(#[trigger] choices[equation][k]) as int], equation),
        !listed_choices(choices, size, equation, matched, taken, listing, upto).is_spent(),
    ensures
        listed_choices(choices, size, equation, matched, taken, listing, upto).found.contains(matching),
    decreases choices.len() - equation, 0int, upto,
{
    let before = listed_choices(choices, size, equation, matched, taken, listing, upto - 1);
    let position = choices[equation][upto - 1] as int;
    let next = taken.update(position, Some(equation as usize));
    let after = listed_choices(choices, size, equation, matched, taken, listing, upto);
    if taken[position] is None {
        listing_grows(choices, size, equation + 1, matched + 1, next, before);
    }
    if exists|k: int| 0 <= k < upto - 1 && holds(matching[(#[trigger] choices[equation][k]) as int], equation) {
        choices_are_complete(choices, size, equation, matched, taken, listing, upto - 1, matching);
        let i = choose|i: int| 0 <= i < before.found.len() && before.found[i] == matching;
        assert(after.found[i] == matching);
    } else {
        let k = choose|k: int| 0 <= k < upto && holds(matching[(#[trigger] choices[equation][k]) as int], equation);
        assert(k == upto - 1);
        assert(matching[position] is Some);
        assert(taken[position] is None);
        giving_one_more(taken, position, equation as usize);
        assert(agrees(matching, next, equation + 1)) by {
            assert forall|q: int| 0 <= q < matching.len() implies (if (#[trigger] matching[q]) is Some && matching[q]->0
                < equation + 1 {
                next[q] == matching[q]
            } else {
                next[q] is None
            }) by {
                if q != position {
                    assert(matching[position] != matching[q]);
                }
            }
        }
        listing_is_complete(choices, size, equation + 1, matched + 1, next, before, matching);
    }
}

/// The list is of matchings of the size, and has at most [`PLANS`].
pub proof fn every_listed_is_a_matching(choices: Seq<Seq<usize>>, positions: nat, size: int)
    requires
        in_range(choices, positions as int),
        choices.len() <= usize::MAX,
    ensures
        all_listed(choices, positions, size).found.len() <= PLANS,
        forall|i: int|
            0 <= i < all_listed(choices, positions, size).found.len() ==> ({
                let matching = #[trigger] all_listed(choices, positions, size).found[i];
                matching.len() == positions && is_matching(choices, matching) && held_count(matching) == size
            }),
{
    nobody_is_none(positions);
    let start = Listing { found: Seq::empty(), visited: 0 };
    listing_is_fair(choices, size, 0, 0, nobody(positions), start);
}

/// A search not cut short by either bound lists every matching of the size.
pub proof fn every_matching_is_listed(choices: Seq<Seq<usize>>, positions: nat, size: int, matching: Seq<Option<usize>>)
    requires
        in_range(choices, positions as int),
        choices.len() <= usize::MAX,
        !all_listed(choices, positions, size).is_spent(),
        matching.len() == positions,
        is_matching(choices, matching),
        held_count(matching) == size,
    ensures
        all_listed(choices, positions, size).found.contains(matching),
{
    nobody_is_none(positions);
    let start = Listing { found: Seq::empty(), visited: 0 };
    listing_is_complete(choices, size, 0, 0, nobody(positions), start, matching);
}

proof fn nobody_is_none(positions: nat)
    ensures
        held_count(nobody(positions)) == 0,
    decreases positions,
{
    if positions > 0 {
        nobody_is_none((positions - 1) as nat);
        assert(nobody(positions).drop_last() =~= nobody((positions - 1) as nat));
    }
}

} // verus!
