//! What a set of dependencies says: where it goes round in a circle, and in
//! what order it can be worked through.
//!
//! `edges[n]` lists each node that `n` reads, with the span of the reference.

use vstd::prelude::*;
use vstd::set_lib::{lemma_int_range, lemma_len_subset, set_int_range};
use crate::diagnostics::Span;

verus! {

/// The dependencies of a set of nodes.
pub open spec fn targets(edges: Seq<Vec<(usize, Span)>>) -> Seq<Seq<int>> {
    edges.map_values(|list: Vec<(usize, Span)>| list@.map_values(|edge: (usize, Span)| edge.0 as int))
}

/// Whether every dependency is on one of the nodes.
pub open spec fn closed(reads: Seq<Seq<int>>) -> bool {
    forall|n: int, k: int|
        0 <= n < reads.len() && 0 <= k < reads[n].len() ==> 0 <= #[trigger] reads[n][k] < reads.len()
}

/// Whether `a` reads `b`.
pub open spec fn depends(reads: Seq<Seq<int>>, a: int, b: int) -> bool {
    0 <= a < reads.len() && exists|k: int| 0 <= k < reads[a].len() && #[trigger] reads[a][k] == b
}

/// The place after `i` round a circle of `length`.
pub open spec fn following(i: int, length: int) -> int {
    if i + 1 < length {
        i + 1
    } else {
        0
    }
}

/// Whether each node of `chain` reads the next, and the last the first.
pub open spec fn is_cycle(reads: Seq<Seq<int>>, chain: Seq<usize>) -> bool {
    &&& chain.len() > 0
    &&& forall|i: int|
        0 <= i < chain.len() ==> #[trigger] depends(
            reads,
            chain[i] as int,
            chain[following(i, chain.len() as int)] as int,
        )
}

/// A reference that closes a cycle: the `reference`th of `node`, and the nodes
/// round the cycle from there.
#[derive(Debug)]
pub struct Closing {
    pub node: usize,
    pub reference: usize,
    pub chain: Vec<usize>,
}

impl Closing {
    /// The chain is a cycle that starts with this node and this reference, and
    /// comes by no node twice.
    pub open spec fn sound(&self, reads: Seq<Seq<int>>) -> bool {
        &&& self.node < reads.len()
        &&& self.reference < reads[self.node as int].len()
        &&& is_cycle(reads, self.chain@)
        &&& self.chain@.no_duplicates()
        &&& self.chain@[0] == self.node
        &&& self.chain@[following(0, self.chain@.len() as int)] == reads[self.node as int][self.reference as int]
    }
}

/// Whether a reference is among those found.
pub open spec fn reported(found: Seq<Closing>, node: int, reference: int) -> bool {
    exists|i: int| 0 <= i < found.len() && (#[trigger] found[i]).node == node && found[i].reference == reference
}

/// Whether every dependency but those found is on a node with a smaller rank:
/// without them nothing goes round.
pub open spec fn ranked(reads: Seq<Seq<int>>, found: Seq<Closing>, rank: spec_fn(int) -> nat) -> bool {
    forall|n: int, k: int|
        0 <= n < reads.len() && 0 <= k < reads[n].len() && !reported(found, n, k) ==> rank(#[trigger] reads[n][k])
            < rank(n)
}

/// How far a depth-first search has come with a node.
#[derive(Debug, Clone, Copy, PartialEq, Eq, Structural)]
pub enum Colour {
    Unvisited,
    OnStack,
    Done,
}

/// A closing reference, as a sequence.
#[verifier::ext_equal]
pub ghost struct Report {
    pub node: int,
    pub reference: int,
    pub chain: Seq<usize>,
}

/// A list of closing references, as sequences.
pub open spec fn reports(found: Seq<Closing>) -> Seq<Report> {
    found.map_values(
        |closing: Closing|
            Report { node: closing.node as int, reference: closing.reference as int, chain: closing.chain@ },
    )
}

/// A depth-first search under way.
#[verifier::ext_equal]
pub ghost struct Trail {
    pub colour: Seq<Colour>,
    pub stack: Seq<usize>,
    pub found: Seq<Report>,
}

/// The nodes round the cycle a reference from `node`, on top of the stack, to
/// `read`, on the stack, closes: `node`, then the stack from `read` up to it.
pub open spec fn circle_of(stack: Seq<usize>, node: int, read: int) -> Seq<usize> {
    seq![node as usize] + stack.subrange(stack.index_of(read as usize), stack.len() - 1)
}

/// A search once it has been to `node` and everything it leads to; `depth` nodes
/// deep at most.
pub open spec fn visited(reads: Seq<Seq<int>>, trail: Trail, node: int, depth: nat) -> Trail
    decreases depth, 0nat,
{
    if depth == 0 {
        trail
    } else {
        let entered = Trail {
            colour: trail.colour.update(node, Colour::OnStack),
            stack: trail.stack.push(node as usize),
            ..trail
        };
        let done = followed(reads, entered, node, reads[node].len(), (depth - 1) as nat);
        Trail { colour: done.colour.update(node, Colour::Done), stack: done.stack.drop_last(), ..done }
    }
}

/// A search once it has followed the first references of `node`: one to a node
/// on the stack closes a cycle, and one to a node not yet visited is gone into.
pub open spec fn followed(reads: Seq<Seq<int>>, trail: Trail, node: int, upto: nat, depth: nat) -> Trail
    decreases depth, upto,
{
    if upto == 0 {
        trail
    } else {
        let before = followed(reads, trail, node, (upto - 1) as nat, depth);
        let read = reads[node][upto - 1];
        match before.colour[read] {
            Colour::Unvisited => visited(reads, before, read, depth),
            Colour::OnStack => Trail {
                found: before.found.push(
                    Report { node, reference: upto - 1, chain: circle_of(before.stack, node, read) },
                ),
                ..before
            },
            Colour::Done => before,
        }
    }
}

/// A search once it has begun at each of the first nodes not yet visited.
pub open spec fn begun_below(reads: Seq<Seq<int>>, upto: nat) -> Trail
    decreases upto,
{
    if upto == 0 {
        Trail { colour: reads.map_values(|list: Seq<int>| Colour::Unvisited), stack: Seq::empty(), found: Seq::empty() }
    } else {
        let before = begun_below(reads, (upto - 1) as nat);
        if before.colour[upto - 1] == Colour::Unvisited {
            visited(reads, before, upto - 1, reads.len())
        } else {
            before
        }
    }
}

/// The references that close a cycle, depth first in declaration order.
pub open spec fn closings_of(reads: Seq<Seq<int>>) -> Seq<Report> {
    begun_below(reads, reads.len()).found
}

/// The search so far.
struct Search {
    colour: Vec<Colour>,
    stack: Vec<usize>,
    /// The nodes done, in the order they were.
    finished: Vec<usize>,
    found: Vec<Closing>,
}

spec fn is_path(reads: Seq<Seq<int>>, path: Seq<usize>) -> bool {
    forall|i: int| 0 <= i < path.len() - 1 ==> depends(reads, (#[trigger] path[i]) as int, path[i + 1] as int)
}

spec fn unvisited(colour: Seq<Colour>) -> int
    decreases colour.len(),
{
    if colour.len() == 0 {
        0
    } else {
        unvisited(colour.drop_last()) + if colour.last() == Colour::Unvisited {
            1int
        } else {
            0
        }
    }
}

proof fn visiting_counts_down(colour: Seq<Colour>, at: int, to: Colour)
    requires
        0 <= at < colour.len(),
    ensures
        unvisited(colour.update(at, to)) == unvisited(colour) - (if colour[at] == Colour::Unvisited {
            1int
        } else {
            0
        }) + (if to == Colour::Unvisited {
            1int
        } else {
            0
        }),
        unvisited(colour) >= 0,
        colour[at] == Colour::Unvisited ==> unvisited(colour) > 0,
    decreases colour.len(),
{
    let last = colour.len() - 1;
    if at == last {
        assert(colour.update(at, to).drop_last() =~= colour.drop_last());
        none_is_none(colour.drop_last());
    } else {
        visiting_counts_down(colour.drop_last(), at, to);
        assert(colour.update(at, to).drop_last() =~= colour.drop_last().update(at, to));
    }
}

proof fn no_more_than_all(colour: Seq<Colour>)
    ensures
        unvisited(colour) <= colour.len(),
    decreases colour.len(),
{
    if colour.len() > 0 {
        no_more_than_all(colour.drop_last());
    }
}

proof fn none_is_none(colour: Seq<Colour>)
    ensures
        unvisited(colour) >= 0,
    decreases colour.len(),
{
    if colour.len() > 0 {
        none_is_none(colour.drop_last());
    }
}

/// Whether a reference of `n` is accounted for: found, or to a node done among
/// the first `upto`.
spec fn settled(reads: Seq<Seq<int>>, found: Seq<Closing>, finished: Seq<usize>, upto: int, n: int, k: int) -> bool {
    reported(found, n, k) || exists|q: int| 0 <= q < upto && (#[trigger] finished[q]) == reads[n][k]
}

impl Search {
    spec fn trail(&self) -> Trail {
        Trail { colour: self.colour@, stack: self.stack@, found: reports(self.found@) }
    }

    spec fn well_formed(&self, reads: Seq<Seq<int>>) -> bool {
        &&& self.colour@.len() == reads.len()
        &&& self.stack@.no_duplicates()
        &&& forall|i: int|
            0 <= i < self.stack@.len() ==> (#[trigger] self.stack@[i]) < reads.len()
                && self.colour@[self.stack@[i] as int] == Colour::OnStack
        &&& forall|v: int|
            0 <= v < reads.len() && (#[trigger] self.colour@[v]) == Colour::OnStack ==> exists|i: int|
                0 <= i < self.stack@.len() && (#[trigger] self.stack@[i]) == v
        &&& is_path(reads, self.stack@)
        &&& self.finished@.no_duplicates()
        &&& forall|p: int|
            0 <= p < self.finished@.len() ==> (#[trigger] self.finished@[p]) < reads.len()
                && self.colour@[self.finished@[p] as int] == Colour::Done
        &&& forall|v: int|
            0 <= v < reads.len() && (#[trigger] self.colour@[v]) == Colour::Done ==> exists|p: int|
                0 <= p < self.finished@.len() && (#[trigger] self.finished@[p]) == v
        &&& forall|p: int, k: int|
            0 <= p < self.finished@.len() && 0 <= k < reads[self.finished@[p] as int].len() ==> #[trigger] settled(
                reads,
                self.found@,
                self.finished@,
                p,
                self.finished@[p] as int,
                k,
            )
        &&& forall|i: int| 0 <= i < self.found@.len() ==> (#[trigger] self.found@[i]).sound(reads)
    }

    /// What a visit leaves as it was.
    spec fn follows(&self, before: Search) -> bool {
        &&& self.stack@ == before.stack@
        &&& before.found@.is_prefix_of(self.found@)
        &&& before.finished@.is_prefix_of(self.finished@)
        &&& self.colour@.len() == before.colour@.len()
        &&& forall|v: int|
            0 <= v < before.colour@.len() ==> ((#[trigger] before.colour@[v]) != Colour::Unvisited ==> self.colour@[v]
                == before.colour@[v])
        &&& unvisited(self.colour@) <= unvisited(before.colour@)
    }

    fn visit(&mut self, node: usize, edges: &Vec<Vec<(usize, Span)>>, Ghost(depth): Ghost<nat>)
        requires
            unvisited(old(self).colour@) <= depth,
            closed(targets(edges@)),
            old(self).well_formed(targets(edges@)),
            node < edges@.len(),
            old(self).colour@[node as int] == Colour::Unvisited,
            old(self).stack@.len() > 0 ==> depends(targets(edges@), old(self).stack@.last() as int, node as int),
        ensures
            final(self).well_formed(targets(edges@)),
            final(self).follows(*old(self)),
            final(self).colour@[node as int] == Colour::Done,
            final(self).trail() == visited(targets(edges@), old(self).trail(), node as int, depth),
        decreases unvisited(old(self).colour@),
    {
        let ghost reads = targets(edges@);
        let ghost before = *self;
        proof {
            visiting_counts_down(self.colour@, node as int, Colour::OnStack);
        }
        self.colour.set(node, Colour::OnStack);
        self.stack.push(node);
        let ghost entered = *self;
        proof {
            entering(before, entered, node, reads);
        }
        let ghost inside = (depth - 1) as nat;
        assert(entered.trail() =~= Trail {
            colour: before.trail().colour.update(node as int, Colour::OnStack),
            stack: before.trail().stack.push(node),
            ..before.trail()
        });
        let list = &edges[node];
        let count: usize = list.len();
        for k in 0..count
            invariant
                count == list@.len(),
                *list == edges@[node as int],
                node < edges@.len(),
                reads == targets(edges@),
                closed(reads),
                self.well_formed(reads),
                self.follows(entered),
                entered.stack@ == before.stack@.push(node),
                unvisited(entered.colour@) < unvisited(before.colour@),
                entered.colour@[node as int] == Colour::OnStack,
                before == *old(self),
                depth > 0,
                inside == depth - 1,
                unvisited(before.colour@) <= depth,
                self.trail() == followed(reads, entered.trail(), node as int, k as nat, inside),
                forall|j: int|
                    0 <= j < k ==> #[trigger] settled(
                        reads,
                        self.found@,
                        self.finished@,
                        self.finished@.len() as int,
                        node as int,
                        j,
                    ),
        {
            let read: usize = list[k].0;
            let ghost now = *self;
            assert(reads[node as int][k as int] == read);
            assert(self.stack@.last() == node);
            assert(depends(reads, node as int, read as int));
            match self.colour[read] {
                Colour::Unvisited => {
                    proof {
                        none_is_none(self.colour@);
                    }
                    self.visit(read, edges, Ghost(inside));
                    proof {
                        let p = choose|p: int| 0 <= p < self.finished@.len() && (#[trigger] self.finished@[p]) == read;
                        assert(self.colour@[read as int] == Colour::Done);
                        assert(0 <= p < self.finished@.len() && self.finished@[p] == read);
                        assert(settled(
                            reads,
                            self.found@,
                            self.finished@,
                            self.finished@.len() as int,
                            node as int,
                            k as int,
                        ));
                    }
                },
                Colour::OnStack => {
                    let chain = self.circle(node, read, Ghost(reads));
                    let closing = Closing { node, reference: k, chain };
                    self.found.push(closing);
                    proof {
                        finding(now, *self, closing, reads);
                        assert(reports(self.found@) =~= reports(now.found@).push(
                            Report { node: node as int, reference: k as int, chain: circle_of(now.stack@, node as int, read as int) },
                        ));
                        assert(settled(
                            reads,
                            self.found@,
                            self.finished@,
                            self.finished@.len() as int,
                            node as int,
                            k as int,
                        ));
                    }
                },
                Colour::Done => {
                    assert(exists|p: int| 0 <= p < self.finished@.len() && (#[trigger] self.finished@[p]) == read);
                    assert(settled(
                        reads,
                        self.found@,
                        self.finished@,
                        self.finished@.len() as int,
                        node as int,
                        k as int,
                    ));
                },
            }
            proof {
                reports_last(now.found@, self.found@);
                assert forall|j: int| 0 <= j < k + 1 implies #[trigger] settled(
                    reads,
                    self.found@,
                    self.finished@,
                    self.finished@.len() as int,
                    node as int,
                    j,
                ) by {
                    if j < k {
                        assert(settled(
                            reads,
                            now.found@,
                            now.finished@,
                            now.finished@.len() as int,
                            node as int,
                            j,
                        ));
                        if !reported(now.found@, node as int, j) {
                            let q = choose|q: int|
                                0 <= q < now.finished@.len() && (#[trigger] now.finished@[q]) == reads[node as int][j];
                            assert(self.finished@[q] == reads[node as int][j]);
                        }
                    }
                }
            }
        }
        let ghost done = *self;
        let top = self.stack.pop();
        proof {
            visiting_counts_down(self.colour@, node as int, Colour::Done);
        }
        self.colour.set(node, Colour::Done);
        self.finished.push(node);
        proof {
            assert(self.stack@ =~= before.stack@);
            assert(edges@[node as int]@.len() == reads[node as int].len());
            assert(self.trail() =~= visited(reads, before.trail(), node as int, depth));
            leaving(before, done, *self, node, reads);
        }
    }

    /// The nodes round the cycle that a reference from `node`, on top of the
    /// stack, to `read`, on the stack, closes: `node`, then the stack from
    /// `read` up to it.
    fn circle(&self, node: usize, read: usize, reads: Ghost<Seq<Seq<int>>>) -> (chain: Vec<usize>)
        requires
            self.well_formed(reads@),
            self.stack@.len() > 0,
            self.stack@.last() == node,
            read < reads@.len(),
            self.colour@[read as int] == Colour::OnStack,
            depends(reads@, node as int, read as int),
        ensures
            chain@ == circle_of(self.stack@, node as int, read as int),
            is_cycle(reads@, chain@),
            chain@.no_duplicates(),
            chain@[0] == node,
            chain@[following(0, chain@.len() as int)] == read,
    {
        let mut start: usize = 0;
        let ghost at = choose|i: int| 0 <= i < self.stack@.len() && (#[trigger] self.stack@[i]) == read;
        assert(exists|i: int| 0 <= i < self.stack@.len() && (#[trigger] self.stack@[i]) == read);
        let count: usize = self.stack.len();
        while self.stack[start] != read
            invariant
                count == self.stack@.len(),
                start <= at < count,
                self.stack@[at] == read,
            decreases at - start,
        {
            start = start + 1;
        }
        let top: usize = self.stack.len() - 1;
        let mut chain: Vec<usize> = Vec::new();
        chain.push(node);
        for i in start..top
            invariant
                start <= top,
                top == self.stack@.len() - 1,
                chain@.len() == 1 + i - start,
                chain@[0] == node,
                forall|j: int| 1 <= j < chain@.len() ==> #[trigger] chain@[j] == self.stack@[start + j - 1],
        {
            chain.push(self.stack[i]);
        }
        proof {
            let from = self.stack@.index_of(read);
            assert(self.stack@[start as int] == read);
            assert(self.stack@.contains(read));
            assert(from == start);
            assert(chain@ =~= circle_of(self.stack@, node as int, read as int));
            let length = chain@.len() as int;
            assert forall|j: int| 0 <= j < length implies #[trigger] depends(
                reads@,
                chain@[j] as int,
                chain@[following(j, length)] as int,
            ) by {
                if j == 0 {
                    if length == 1 {
                        assert(self.stack@[start as int] == node);
                    } else {
                        assert(chain@[1] == self.stack@[start as int]);
                    }
                } else {
                    let i = start + j - 1;
                    assert(depends(reads@, self.stack@[i] as int, self.stack@[i + 1] as int));
                    if j + 1 < length {
                        assert(chain@[j + 1] == self.stack@[i + 1]);
                    }
                }
            }
            if length > 1 {
                assert(chain@[1] == self.stack@[start as int]);
            }
            assert forall|i: int, j: int| 0 <= i < length && 0 <= j < length && i != j implies chain@[i] != chain@[j] by {
                let a = if i == 0 { top as int } else { start + i - 1 };
                let b = if j == 0 { top as int } else { start + j - 1 };
                assert(chain@[i] == self.stack@[a] && chain@[j] == self.stack@[b]);
                assert(a != b);
            }
        }
        chain
    }
}

/// Going into a node keeps the search as it should be.
proof fn entering(before: Search, entered: Search, node: usize, reads: Seq<Seq<int>>)
    requires
        before.well_formed(reads),
        node < reads.len(),
        before.colour@[node as int] == Colour::Unvisited,
        before.stack@.len() > 0 ==> depends(reads, before.stack@.last() as int, node as int),
        entered.colour@ == before.colour@.update(node as int, Colour::OnStack),
        entered.stack@ == before.stack@.push(node),
        entered.finished@ == before.finished@,
        entered.found@ == before.found@,
    ensures
        entered.well_formed(reads),
{
    assert forall|i: int| 0 <= i < before.stack@.len() implies before.stack@[i] != node by {
        assert(before.colour@[before.stack@[i] as int] == Colour::OnStack);
    }
    assert(entered.stack@.no_duplicates());
    assert forall|i: int| 0 <= i < entered.stack@.len() implies (#[trigger] entered.stack@[i]) < reads.len()
        && entered.colour@[entered.stack@[i] as int] == Colour::OnStack by {
        if i < before.stack@.len() {
            assert(before.stack@[i] == entered.stack@[i]);
        }
    }
    assert forall|p: int| 0 <= p < entered.finished@.len() implies (#[trigger] entered.finished@[p]) < reads.len()
        && entered.colour@[entered.finished@[p] as int] == Colour::Done by {
        assert(before.colour@[before.finished@[p] as int] == Colour::Done);
    }
    assert forall|i: int| 0 <= i < entered.stack@.len() - 1 implies depends(
        reads,
        (#[trigger] entered.stack@[i]) as int,
        entered.stack@[i + 1] as int,
    ) by {
        if i + 1 < before.stack@.len() {
            assert(depends(reads, before.stack@[i] as int, before.stack@[i + 1] as int));
        }
    }
    assert forall|v: int| 0 <= v < reads.len() && (#[trigger] entered.colour@[v]) == Colour::OnStack implies exists|i: int|
        0 <= i < entered.stack@.len() && (#[trigger] entered.stack@[i]) == v by {
        if v == node {
            assert(entered.stack@[before.stack@.len() as int] == v);
        } else {
            assert(before.colour@[v] == Colour::OnStack);
            let i = choose|i: int| 0 <= i < before.stack@.len() && (#[trigger] before.stack@[i]) == v;
            assert(entered.stack@[i] == v);
        }
    }
    assert forall|v: int| 0 <= v < reads.len() && (#[trigger] entered.colour@[v]) == Colour::Done implies exists|p: int|
        0 <= p < entered.finished@.len() && (#[trigger] entered.finished@[p]) == v by {
        assert(before.colour@[v] == Colour::Done);
    }
    assert forall|p: int, k: int|
        0 <= p < entered.finished@.len() && 0 <= k < reads[entered.finished@[p] as int].len() implies #[trigger] settled(
        reads,
        entered.found@,
        entered.finished@,
        p,
        entered.finished@[p] as int,
        k,
    ) by {
        assert(settled(reads, before.found@, before.finished@, p, before.finished@[p] as int, k));
    }
}

/// Coming out of a node keeps the search as it should be.
proof fn leaving(before: Search, done: Search, after: Search, node: usize, reads: Seq<Seq<int>>)
    requires
        done.well_formed(reads),
        node < reads.len(),
        done.stack@ == before.stack@.push(node),
        done.colour@[node as int] == Colour::OnStack,
        after.stack@ == before.stack@,
        after.colour@ == done.colour@.update(node as int, Colour::Done),
        after.finished@ == done.finished@.push(node),
        after.found@ == done.found@,
        forall|j: int|
            0 <= j < reads[node as int].len() ==> #[trigger] settled(
                reads,
                done.found@,
                done.finished@,
                done.finished@.len() as int,
                node as int,
                j,
            ),
    ensures
        after.well_formed(reads),
{
    let last = done.finished@.len() as int;
    assert(after.finished@[last] == node);
    assert(done.stack@[before.stack@.len() as int] == node);
    assert forall|i: int| 0 <= i < after.stack@.len() implies (#[trigger] after.stack@[i]) < reads.len()
        && after.colour@[after.stack@[i] as int] == Colour::OnStack && after.stack@[i] == done.stack@[i] by {
        assert(done.stack@[i] == after.stack@[i]);
    }
    assert forall|i: int, j: int| 0 <= i < after.stack@.len() && 0 <= j < after.stack@.len() && i != j implies after.stack@[i]
        != after.stack@[j] by {
        assert(done.stack@[i] != done.stack@[j]);
    }
    assert forall|v: int| 0 <= v < reads.len() && (#[trigger] after.colour@[v]) == Colour::OnStack implies exists|i: int|
        0 <= i < after.stack@.len() && (#[trigger] after.stack@[i]) == v by {
        assert(done.colour@[v] == Colour::OnStack);
        let i = choose|i: int| 0 <= i < done.stack@.len() && (#[trigger] done.stack@[i]) == v;
        assert(after.stack@[i] == v);
    }
    assert forall|v: int| 0 <= v < reads.len() && (#[trigger] after.colour@[v]) == Colour::Done implies exists|p: int|
        0 <= p < after.finished@.len() && (#[trigger] after.finished@[p]) == v by {
        if v == node {
            assert(after.finished@[last] == v);
        } else {
            assert(done.colour@[v] == Colour::Done);
            let p = choose|p: int| 0 <= p < done.finished@.len() && (#[trigger] done.finished@[p]) == v;
            assert(after.finished@[p] == v);
        }
    }
    assert forall|p: int| 0 <= p < after.finished@.len() implies (#[trigger] after.finished@[p]) < reads.len()
        && after.colour@[after.finished@[p] as int] == Colour::Done by {
        if p < last {
            assert(done.finished@[p] == after.finished@[p]);
        }
    }
    assert forall|p: int, k: int|
        0 <= p < after.finished@.len() && 0 <= k < reads[after.finished@[p] as int].len() implies #[trigger] settled(
        reads,
        after.found@,
        after.finished@,
        p,
        after.finished@[p] as int,
        k,
    ) by {
        let v = after.finished@[p] as int;
        if p < last {
            assert(done.finished@[p] == after.finished@[p]);
            assert(settled(reads, done.found@, done.finished@, p, done.finished@[p] as int, k));
        } else {
            assert(settled(reads, done.found@, done.finished@, last, node as int, k));
        }
        if !reported(done.found@, v, k) {
            let q = choose|q: int| 0 <= q < p && (#[trigger] done.finished@[q]) == reads[v][k];
            assert(after.finished@[q] == reads[v][k]);
        }
    }
    assert forall|i: int| 0 <= i < after.stack@.len() - 1 implies depends(
        reads,
        (#[trigger] after.stack@[i]) as int,
        after.stack@[i + 1] as int,
    ) by {
        assert(depends(reads, done.stack@[i] as int, done.stack@[i + 1] as int));
    }
    assert forall|p: int, q: int|
        0 <= p < after.finished@.len() && 0 <= q < after.finished@.len() && p != q implies after.finished@[p]
        != after.finished@[q] by {
        if p < last {
            assert(done.colour@[done.finished@[p] as int] == Colour::Done);
        }
        if q < last {
            assert(done.colour@[done.finished@[q] as int] == Colour::Done);
        }
        if p < last && q < last {
            assert(done.finished@[p] != done.finished@[q]);
        }
    }
}

/// A cycle found keeps the search as it should be.
proof fn finding(now: Search, after: Search, closing: Closing, reads: Seq<Seq<int>>)
    requires
        now.well_formed(reads),
        closing.sound(reads),
        after.colour@ == now.colour@,
        after.stack@ == now.stack@,
        after.finished@ == now.finished@,
        after.found@ == now.found@.push(closing),
    ensures
        after.well_formed(reads),
        reported(after.found@, closing.node as int, closing.reference as int),
{
    reports_last(now.found@, after.found@);
    assert(after.found@[now.found@.len() as int] == closing);
    assert forall|p: int, k: int|
        0 <= p < after.finished@.len() && 0 <= k < reads[after.finished@[p] as int].len() implies #[trigger] settled(
        reads,
        after.found@,
        after.finished@,
        p,
        after.finished@[p] as int,
        k,
    ) by {
        assert(settled(reads, now.found@, now.finished@, p, now.finished@[p] as int, k));
    }
    assert forall|v: int| 0 <= v < reads.len() && (#[trigger] after.colour@[v]) == Colour::OnStack implies exists|i: int|
        0 <= i < after.stack@.len() && (#[trigger] after.stack@[i]) == v by {
        assert(now.colour@[v] == Colour::OnStack);
    }
    assert forall|v: int| 0 <= v < reads.len() && (#[trigger] after.colour@[v]) == Colour::Done implies exists|p: int|
        0 <= p < after.finished@.len() && (#[trigger] after.finished@[p]) == v by {
        assert(now.colour@[v] == Colour::Done);
    }
}

proof fn reports_last(earlier: Seq<Closing>, later: Seq<Closing>)
    requires
        earlier.is_prefix_of(later),
    ensures
        forall|n: int, k: int| #[trigger] reported(earlier, n, k) ==> reported(later, n, k),
{
    assert forall|n: int, k: int| #[trigger] reported(earlier, n, k) implies reported(later, n, k) by {
        let i = choose|i: int| 0 <= i < earlier.len() && (#[trigger] earlier[i]).node == n && earlier[i].reference == k;
        assert(later[i] == earlier[i]);
    }
}

/// The references that close a cycle, depth first in declaration order: a
/// reference to a node still being visited closes the cycle from there.
///
/// Each is part of a cycle, and every cycle has one: leave them out, and every
/// dependency is on a node of a smaller rank.
pub fn closings(edges: &Vec<Vec<(usize, Span)>>) -> (found: Vec<Closing>)
    requires
        closed(targets(edges@)),
    ensures
        reports(found@) == closings_of(targets(edges@)),
        forall|i: int| 0 <= i < found@.len() ==> (#[trigger] found@[i]).sound(targets(edges@)),
        exists|rank: spec_fn(int) -> nat| ranked(targets(edges@), found@, rank),
{
    let ghost reads = targets(edges@);
    let count: usize = edges.len();
    let mut search = Search {
        colour: vec![Colour::Unvisited; count],
        stack: Vec::new(),
        finished: Vec::new(),
        found: Vec::new(),
    };
    assert(search.trail() =~= begun_below(reads, 0));
    for node in 0..count
        invariant
            count == edges@.len() == reads.len(),
            reads == targets(edges@),
            closed(reads),
            search.trail() == begun_below(reads, node as nat),
            search.well_formed(reads),
            search.stack@.len() == 0,
            forall|v: int| 0 <= v < node ==> #[trigger] search.colour@[v] == Colour::Done,
    {
        if search.colour[node] == Colour::Unvisited {
            let ghost before = search.colour@;
            proof {
                no_more_than_all(search.colour@);
            }
            search.visit(node, edges, Ghost(reads.len()));
            assert forall|v: int| 0 <= v < node implies #[trigger] search.colour@[v] == Colour::Done by {
                assert(before[v] == Colour::Done);
            }
        } else {
            proof {
                if search.colour@[node as int] == Colour::OnStack {
                    assert(exists|i: int| 0 <= i < search.stack@.len() && (#[trigger] search.stack@[i]) == node);
                }
            }
        }
    }
    proof {
        let finished = search.finished@;
        let rank = |n: int| position(finished, n);
        assert forall|n: int, k: int|
            0 <= n < reads.len() && 0 <= k < reads[n].len() && !reported(search.found@, n, k) implies rank(
            #[trigger] reads[n][k],
        ) < rank(n) by {
            assert(search.colour@[n] == Colour::Done);
            let p = choose|p: int| 0 <= p < finished.len() && (#[trigger] finished[p]) == n;
            assert(0 <= p < finished.len() && finished[p] == n);
            assert(settled(reads, search.found@, finished, p, finished[p] as int, k));
            let q = choose|q: int| 0 <= q < p && (#[trigger] finished[q]) == reads[n][k];
            position_is(finished, n, p);
            position_is(finished, reads[n][k], q);
        }
        assert(ranked(reads, search.found@, rank));
    }
    search.found
}

/// Where a node is in a list.
spec fn position(list: Seq<usize>, node: int) -> nat {
    choose|p: nat| p < list.len() && #[trigger] list[p as int] == node
}

proof fn position_is(list: Seq<usize>, node: int, at: int)
    requires
        list.no_duplicates(),
        0 <= at < list.len(),
        list[at] == node,
    ensures
        position(list, node) == at,
{
    assert(list[(at as nat) as int] == node);
    let p = position(list, node);
    assert(p < list.len() && list[p as int] == node);
}

/// Whether nothing goes round.
pub open spec fn acyclic(reads: Seq<Seq<int>>) -> bool {
    exists|rank: spec_fn(int) -> nat| descends(reads, rank)
}

/// Whether every dependency is on a node of a smaller rank.
pub open spec fn descends(reads: Seq<Seq<int>>, rank: spec_fn(int) -> nat) -> bool {
    forall|n: int, k: int| 0 <= n < reads.len() && 0 <= k < reads[n].len() ==> rank(#[trigger] reads[n][k]) < rank(n)
}

/// A set of dependencies in which no reference closes a cycle has none.
pub proof fn no_closing_no_cycle(reads: Seq<Seq<int>>, found: Seq<Closing>)
    requires
        found.len() == 0,
        exists|rank: spec_fn(int) -> nat| ranked(reads, found, rank),
    ensures
        acyclic(reads),
{
    let rank = choose|rank: spec_fn(int) -> nat| ranked(reads, found, rank);
    assert(descends(reads, rank)) by {
        assert forall|n: int, k: int| 0 <= n < reads.len() && 0 <= k < reads[n].len() implies rank(#[trigger] reads[n][k])
            < rank(n) by {
            assert(!reported(found, n, k));
        }
    }
}

/// What has no cycle has no chain of nodes round one.
pub proof fn acyclic_has_no_cycle(reads: Seq<Seq<int>>, chain: Seq<usize>)
    requires
        acyclic(reads),
    ensures
        !is_cycle(reads, chain),
{
    if is_cycle(reads, chain) {
        let rank = choose|rank: spec_fn(int) -> nat| descends(reads, rank);
        let least = lowest(chain, rank);
        lowest_is(chain, rank);
        let next = chain[following(least, chain.len() as int)] as int;
        assert(depends(reads, chain[least] as int, next));
        let k = choose|k: int| 0 <= k < reads[chain[least] as int].len() && #[trigger] reads[chain[least] as int][k] == next;
        assert(rank(reads[chain[least] as int][k]) < rank(chain[least] as int));
    }
}

/// Where the node of the lowest rank is.
spec fn lowest(chain: Seq<usize>, rank: spec_fn(int) -> nat) -> int
    decreases chain.len(),
{
    if chain.len() <= 1 {
        0
    } else {
        let before = lowest(chain.drop_last(), rank);
        if rank(chain.last() as int) < rank(chain[before] as int) {
            chain.len() - 1
        } else {
            before
        }
    }
}

proof fn lowest_is(chain: Seq<usize>, rank: spec_fn(int) -> nat)
    requires
        chain.len() > 0,
    ensures
        0 <= lowest(chain, rank) < chain.len(),
        forall|i: int| 0 <= i < chain.len() ==> rank(chain[lowest(chain, rank)] as int) <= rank(#[trigger] chain[i] as int),
    decreases chain.len(),
{
    if chain.len() > 1 {
        lowest_is(chain.drop_last(), rank);
        assert forall|i: int| 0 <= i < chain.len() implies rank(chain[lowest(chain, rank)] as int) <= rank(
            #[trigger] chain[i] as int,
        ) by {
            if i < chain.len() - 1 {
                assert(chain.drop_last()[i] == chain[i]);
            }
        }
    }
}

/// Whether `v` can come next once `done` have: not one of them, and everything
/// it reads is.
pub open spec fn ready(reads: Seq<Seq<int>>, done: Seq<usize>, v: int) -> bool {
    &&& 0 <= v < reads.len()
    &&& !lists(done, v)
    &&& forall|k: int| 0 <= k < reads[v].len() ==> lists(done, #[trigger] reads[v][k])
}

pub open spec fn lists(list: Seq<usize>, v: int) -> bool {
    exists|i: int| 0 <= i < list.len() && (#[trigger] list[i]) == v
}

/// Whether `order` takes, at every step, the first node that can come next,
/// until none is left.
pub open spec fn is_evaluation_order(reads: Seq<Seq<int>>, order: Seq<usize>) -> bool {
    &&& order.len() == reads.len()
    &&& order.no_duplicates()
    &&& forall|p: int|
        0 <= p < order.len() ==> ready(reads, order.take(p), (#[trigger] order[p]) as int) && forall|u: int|
            0 <= u < order[p] ==> !ready(reads, order.take(p), u)
}

/// In an evaluation order everything a node reads comes before it.
pub proof fn everything_read_comes_before(reads: Seq<Seq<int>>, order: Seq<usize>, p: int, k: int)
    requires
        is_evaluation_order(reads, order),
        0 <= p < order.len(),
        0 <= k < reads[order[p] as int].len(),
    ensures
        exists|q: int| 0 <= q < p && (#[trigger] order[q]) == reads[order[p] as int][k],
{
    assert(ready(reads, order.take(p), order[p] as int));
    let target = reads[order[p] as int][k];
    assert(lists(order.take(p), target));
    let q = choose|q: int| 0 <= q < order.take(p).len() && (#[trigger] order.take(p)[q]) == target;
    assert(order[q] == target);
}

/// An evaluation order has every node in it.
pub proof fn an_order_has_everyone(reads: Seq<Seq<int>>, order: Seq<usize>, v: int)
    requires
        is_evaluation_order(reads, order),
        0 <= v < reads.len(),
    ensures
        exists|q: int| 0 <= q < order.len() && (#[trigger] order[q]) == v,
{
    if !lists(order, v) {
        assert forall|i: int| 0 <= i < order.len() implies (#[trigger] order[i]) < reads.len() by {
            assert(ready(reads, order.take(i), order[i] as int));
        }
        let numbers = order.map_values(|x: usize| x as int).push(v);
        assert forall|i: int, j: int| 0 <= i < numbers.len() && 0 <= j < numbers.len() && i != j implies numbers[i]
            != numbers[j] by {
            if i < order.len() && j < order.len() {
                assert(order[i] != order[j]);
            } else if i < order.len() {
                assert(order[i] != v);
            } else {
                assert(order[j] != v);
            }
        }
        numbers.unique_seq_to_set();
        lemma_int_range(0, reads.len() as int);
        assert forall|x: int| numbers.to_set().contains(x) implies set_int_range(0, reads.len() as int).contains(x) by {
            let i = choose|i: int| 0 <= i < numbers.len() && numbers[i] == x;
            if i < order.len() {
                assert(order[i] < reads.len());
            }
        }
        lemma_len_subset(numbers.to_set(), set_int_range(0, reads.len() as int));
    }
}

/// There is one evaluation order.
pub proof fn evaluation_order_is_unique(reads: Seq<Seq<int>>, a: Seq<usize>, b: Seq<usize>)
    requires
        is_evaluation_order(reads, a),
        is_evaluation_order(reads, b),
    ensures
        a == b,
{
    agree_upto(reads, a, b, a.len() as int);
    assert(a.take(a.len() as int) =~= a);
    assert(b.take(a.len() as int) =~= b);
}

proof fn agree_upto(reads: Seq<Seq<int>>, a: Seq<usize>, b: Seq<usize>, n: int)
    requires
        is_evaluation_order(reads, a),
        is_evaluation_order(reads, b),
        0 <= n <= a.len(),
    ensures
        a.take(n) == b.take(n),
    decreases n,
{
    if n > 0 {
        agree_upto(reads, a, b, n - 1);
        let x = a[n - 1];
        let y = b[n - 1];
        assert(ready(reads, a.take(n - 1), x as int));
        assert(ready(reads, b.take(n - 1), y as int));
        assert(x == y);
        assert(a.take(n) =~= a.take(n - 1).push(x));
        assert(b.take(n) =~= b.take(n - 1).push(y));
    }
}

/// With nothing going round, something can always come next.
proof fn something_is_ready(reads: Seq<Seq<int>>, done: Seq<usize>, rank: spec_fn(int) -> nat, v: int) -> (w: int)
    requires
        closed(reads),
        descends(reads, rank),
        0 <= v < reads.len(),
        !lists(done, v),
    ensures
        ready(reads, done, w),
    decreases rank(v),
{
    if ready(reads, done, v) {
        v
    } else {
        let k = choose|k: int| 0 <= k < reads[v].len() && !lists(done, #[trigger] reads[v][k]);
        something_is_ready(reads, done, rank, reads[v][k])
    }
}

/// A node every number below which is taken, and one more.
proof fn someone_is_left(done: Seq<usize>, count: int) -> (v: int)
    requires
        done.no_duplicates(),
        done.len() < count,
        forall|i: int| 0 <= i < done.len() ==> (#[trigger] done[i]) < count,
    ensures
        0 <= v < count,
        !lists(done, v),
{
    if forall|v: int| 0 <= v < count ==> lists(done, v) {
        let numbers = done.map_values(|x: usize| x as int);
        let all = set_int_range(0, count);
        lemma_int_range(0, count);
        assert forall|i: int, j: int| 0 <= i < numbers.len() && 0 <= j < numbers.len() && i != j implies numbers[i]
            != numbers[j] by {
            assert(done[i] != done[j]);
        }
        numbers.unique_seq_to_set();
        assert forall|v: int| all.contains(v) implies numbers.to_set().contains(v) by {
            assert(lists(done, v));
            let i = choose|i: int| 0 <= i < done.len() && (#[trigger] done[i]) == v;
            assert(numbers[i] == v);
        }
        vstd::seq_lib::seq_to_set_is_finite(numbers);
        lemma_len_subset(all, numbers.to_set());
        0
    } else {
        choose|v: int| 0 <= v < count && !lists(done, v)
    }
}

/// The nodes in an order that evaluates: everything a node reads before it, and
/// of what can come next always the first declared.
pub fn evaluation_order(edges: &Vec<Vec<(usize, Span)>>) -> (order: Vec<usize>)
    requires
        closed(targets(edges@)),
        acyclic(targets(edges@)),
    ensures
        is_evaluation_order(targets(edges@), order@),
{
    let ghost reads = targets(edges@);
    let count: usize = edges.len();
    let mut placed: Vec<bool> = vec![false; count];
    let mut order: Vec<usize> = Vec::with_capacity(count);
    let ghost rank = choose|rank: spec_fn(int) -> nat| descends(reads, rank);
    while order.len() < count
        invariant
            count == edges@.len() == reads.len() == placed@.len(),
            reads == targets(edges@),
            closed(reads),
            descends(reads, rank),
            order@.len() <= count,
            order@.no_duplicates(),
            forall|i: int| 0 <= i < order@.len() ==> (#[trigger] order@[i]) < count,
            forall|v: int| 0 <= v < count ==> (#[trigger] placed@[v] <==> lists(order@, v)),
            forall|p: int|
                0 <= p < order@.len() ==> ready(reads, order@.take(p), (#[trigger] order@[p]) as int) && forall|u: int|
                    0 <= u < order@[p] ==> !ready(reads, order@.take(p), u),
        decreases count - order@.len(),
    {
        let ghost left = someone_is_left(order@, count as int);
        let ghost next = something_is_ready(reads, order@, rank, left);
        let mut v: usize = 0;
        while !can_come_next(edges, &placed, v, Ghost(order@))
            invariant
                count == edges@.len() == reads.len() == placed@.len(),
                reads == targets(edges@),
                closed(reads),
                forall|v: int| 0 <= v < count ==> (#[trigger] placed@[v] <==> lists(order@, v)),
                ready(reads, order@, next),
                v <= next < count,
                forall|u: int| 0 <= u < v ==> !ready(reads, order@, u),
            decreases next - v,
        {
            v = v + 1;
        }
        let ghost before = order@;
        order.push(v);
        placed.set(v, true);
        proof {
            assert forall|p: int|
                0 <= p < order@.len() implies ready(reads, order@.take(p), (#[trigger] order@[p]) as int) && forall|u: int|
                0 <= u < order@[p] ==> !ready(reads, order@.take(p), u) by {
                if p < before.len() {
                    assert(order@.take(p) =~= before.take(p));
                    assert(order@[p] == before[p]);
                } else {
                    assert(order@.take(p) =~= before);
                }
            }
            assert forall|w: int| 0 <= w < count implies (#[trigger] placed@[w] <==> lists(order@, w)) by {
                if lists(before, w) {
                    let i = choose|i: int| 0 <= i < before.len() && (#[trigger] before[i]) == w;
                    assert(order@[i] == w);
                }
                if w == v {
                    assert(order@[before.len() as int] == w);
                }
                if lists(order@, w) && w != v {
                    let i = choose|i: int| 0 <= i < order@.len() && (#[trigger] order@[i]) == w;
                    assert(before[i] == w);
                }
            }
            assert forall|i: int, j: int| 0 <= i < order@.len() && 0 <= j < order@.len() && i != j implies order@[i]
                != order@[j] by {
                if i < before.len() && j < before.len() {
                    assert(before[i] != before[j]);
                } else if i < before.len() {
                    assert(before[i] == order@[i]);
                } else if j < before.len() {
                    assert(before[j] == order@[j]);
                }
            }
        }
    }
    order
}

fn can_come_next(edges: &Vec<Vec<(usize, Span)>>, placed: &Vec<bool>, v: usize, order: Ghost<Seq<usize>>) -> (can: bool)
    requires
        closed(targets(edges@)),
        placed@.len() == edges@.len(),
        v < edges@.len(),
        forall|w: int| 0 <= w < placed@.len() ==> (#[trigger] placed@[w] <==> lists(order@, w)),
    ensures
        can == ready(targets(edges@), order@, v as int),
{
    let ghost reads = targets(edges@);
    if placed[v] {
        return false;
    }
    let list = &edges[v];
    let count: usize = list.len();
    for k in 0..count
        invariant
            closed(reads),
            reads == targets(edges@),
            v < edges@.len() == placed@.len(),
            *list == edges@[v as int],
            count == list@.len() == reads[v as int].len(),
            forall|w: int| 0 <= w < placed@.len() ==> (#[trigger] placed@[w] <==> lists(order@, w)),
            forall|j: int| 0 <= j < k ==> lists(order@, #[trigger] reads[v as int][j]),
    {
        assert(reads[v as int][k as int] == list@[k as int].0);
        if !placed[list[k].0] {
            return false;
        }
    }
    true
}

} // verus!
