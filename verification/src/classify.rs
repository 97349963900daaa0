//! What an equality lets us conclude about the variables it mentions.
//!
//! An equality `a == b +/- t` covers structurally different problems that look
//! identical as residuals. [`shape`] tells them apart, and [`drivable`] says
//! which variables the equality can be solved for, so that they are computed
//! from the others rather than searched. This is a reading of the tree, and it
//! changes nothing.

use vstd::prelude::*;
use crate::ast::{dereferenced, BinaryOp, Expr, GlobalId, Kind, UnaryOp};
use crate::frontend::{refers_to, Ast};

verus! {

/// What one equality lets us conclude.
#[derive(Debug, Clone, Copy, PartialEq, Eq, Structural)]
pub enum Shape {
    /// `x1 == pi +/- t`: one variable equals an expression naming no variable
    /// at all, so there is nothing to search.
    Pinned { variable: GlobalId },
    /// `y == sin(x) +/- t`: the variable is computed rather than searched.
    Driven { variable: GlobalId },
    /// `x == sin(x)`: a variable on both sides, so that the equality is
    /// implicit in it. What is refused is the phrasing, not the problem: every
    /// such equality can be written with the variable on one side.
    Implicit { variable: GlobalId },
    /// Nothing structural to say, or not an equality at all.
    Opaque,
}

// ---- which variables a tree reads ----

/// Whether global `g` is read among `nodes`.
pub open spec fn reads(nodes: Seq<Expr>, g: int) -> bool {
    exists|i: int| 0 <= i < nodes.len() && refers_to(#[trigger] nodes[i], g)
}

/// How many times global `g` is read among `nodes`.
pub open spec fn times_read(nodes: Seq<Expr>, g: int) -> nat
    decreases nodes.len(),
{
    if nodes.len() == 0 {
        0
    } else {
        times_read(nodes.drop_last(), g) + if refers_to(nodes.last(), g) {
            1nat
        } else {
            0
        }
    }
}

/// What is not read is read no times, and the other way round.
pub proof fn read_no_times(nodes: Seq<Expr>, g: int)
    ensures
        times_read(nodes, g) == 0 <==> !reads(nodes, g),
        times_read(nodes, g) <= nodes.len(),
    decreases nodes.len(),
{
    if nodes.len() > 0 {
        let rest = nodes.drop_last();
        read_no_times(rest, g);
        assert forall|i: int| 0 <= i < rest.len() implies #[trigger] nodes[i] == rest[i] by {}
        if reads(rest, g) {
            let i = choose|i: int| 0 <= i < rest.len() && refers_to(#[trigger] rest[i], g);
            assert(refers_to(nodes[i], g));
        }
        if refers_to(nodes.last(), g) {
            assert(refers_to(nodes[nodes.len() - 1], g));
        }
        if reads(nodes, g) && !refers_to(nodes.last(), g) {
            let i = choose|i: int| 0 <= i < nodes.len() && refers_to(#[trigger] nodes[i], g);
            assert(refers_to(rest[i], g));
        }
    }
}

/// Whether ids are in strictly ascending order.
pub open spec fn ascending(ids: Seq<GlobalId>) -> bool {
    forall|i: int, j: int| 0 <= i < j < ids.len() ==> (#[trigger] ids[i]).0 < (#[trigger] ids[j]).0
}

/// Whether `ids` are the globals read among `nodes`, each once and ascending.
pub open spec fn are_globals(nodes: Seq<Expr>, ids: Seq<GlobalId>) -> bool {
    &&& ascending(ids)
    &&& forall|i: int| 0 <= i < ids.len() ==> reads(nodes, (#[trigger] ids[i]).0 as int)
    &&& forall|i: int| 0 <= i < nodes.len() ==> ((#[trigger] nodes[i]).kind matches Kind::Global(id) ==> ids.contains(id))
}

/// Adds an id to an ascending list, unless it is there.
fn insert_ascending(ids: &mut Vec<GlobalId>, id: GlobalId)
    requires
        ascending(old(ids)@),
    ensures
        ascending(final(ids)@),
        final(ids)@.contains(id),
        forall|x: GlobalId| #[trigger] old(ids)@.contains(x) ==> final(ids)@.contains(x),
        forall|x: GlobalId| #[trigger] final(ids)@.contains(x) ==> x == id || old(ids)@.contains(x),
{
    let ghost before = ids@;
    let mut at: usize = 0;
    while at < ids.len() && ids[at].0 < id.0
        invariant
            at <= ids@.len(),
            ids@ == before,
            forall|i: int| 0 <= i < at ==> (#[trigger] before[i]).0 < id.0,
        decreases before.len() - at,
    {
        at = at + 1;
    }
    if at < ids.len() && ids[at].0 == id.0 {
        assert(before[at as int] == id);
        return;
    }
    ids.insert(at, id);
    proof {
        let after = ids@;
        assert(after == before.insert(at as int, id));
        assert(after[at as int] == id);
        assert forall|x: GlobalId| #[trigger] before.contains(x) implies after.contains(x) by {
            let i = choose|i: int| 0 <= i < before.len() && before[i] == x;
            if i < at {
                assert(after[i] == x);
            } else {
                assert(after[i + 1] == x);
            }
        }
        assert forall|x: GlobalId| #[trigger] after.contains(x) implies x == id || before.contains(x) by {
            let i = choose|i: int| 0 <= i < after.len() && after[i] == x;
            if i < at {
                assert(before[i] == x);
            } else if i > at {
                assert(before[i - 1] == x);
            }
        }
        assert forall|i: int, j: int| 0 <= i < j < after.len() implies (#[trigger] after[i]).0 < (#[trigger] after[j]).0 by {
            let p = if i < at { i } else { i - 1 };
            let q = if j < at { j } else { j - 1 };
            if i != at {
                assert(after[i] == before[p]);
            }
            if j != at {
                assert(after[j] == before[q]);
            }
            if i == at {
                assert(before[at as int].0 <= before[q].0);
            }
        }
    }
}

/// Every global read anywhere in `expr`, ascending.
pub fn globals(expr: &Expr) -> (ids: Vec<GlobalId>)
    ensures
        are_globals(expr.walk(), ids@),
{
    let nodes = expr.preorder();
    let ghost all = expr.walk();
    let mut ids: Vec<GlobalId> = Vec::new();
    for i in 0..nodes.len()
        invariant
            dereferenced(nodes@) == all,
            ascending(ids@),
            forall|k: int| 0 <= k < ids@.len() ==> reads(all, (#[trigger] ids@[k]).0 as int),
            forall|k: int| 0 <= k < i ==> ((#[trigger] all[k]).kind matches Kind::Global(id) ==> ids@.contains(id)),
    {
        let ghost before = ids@;
        let node: &Expr = nodes[i];
        assert(dereferenced(nodes@)[i as int] == *node);
        match &node.kind {
            Kind::Global(id) => {
                insert_ascending(&mut ids, *id);
                proof {
                    assert(refers_to(all[i as int], id.0 as int));
                    assert forall|k: int| 0 <= k < ids@.len() implies reads(all, (#[trigger] ids@[k]).0 as int) by {
                        assert(ids@.contains(ids@[k]));
                        if ids@[k] != *id {
                            let j = choose|j: int| 0 <= j < before.len() && before[j] == ids@[k];
                            assert(reads(all, before[j].0 as int));
                        }
                    }
                }
            },
            _ => {},
        }
    }
    ids
}

/// Whether `variable` is read anywhere in `expr`.
pub fn mentions(expr: &Expr, variable: GlobalId) -> (mentioned: bool)
    ensures
        mentioned == reads(expr.walk(), variable.0 as int),
{
    let count: usize = occurrences(expr, variable);
    proof {
        read_no_times(expr.walk(), variable.0 as int);
    }
    count > 0
}

/// How many times `variable` is read in `expr`.
pub fn occurrences(expr: &Expr, variable: GlobalId) -> (count: usize)
    ensures
        count == times_read(expr.walk(), variable.0 as int),
{
    let nodes = expr.preorder();
    let ghost all = expr.walk();
    let ghost g = variable.0 as int;
    let mut count: usize = 0;
    for i in 0..nodes.len()
        invariant
            dereferenced(nodes@) == all,
            g == variable.0,
            count <= i,
            count == times_read(all.take(i as int), g),
    {
        let node: &Expr = nodes[i];
        proof {
            assert(dereferenced(nodes@)[i as int] == *node);
            assert(all.take(i + 1).drop_last() =~= all.take(i as int));
            assert(all.take(i + 1).last() == *node);
        }
        match &node.kind {
            Kind::Global(id) => {
                if id.0 == variable.0 {
                    count = count + 1;
                }
            },
            _ => {},
        }
    }
    assert(all.take(nodes@.len() as int) =~= all);
    count
}

// ---- which variables an equality can be solved for ----

/// Whether knowing what a function gives, to a band, confines what it was given.
#[verifier::allow_in_spec]
pub fn invertible_unary(op: UnaryOp) -> bool
    returns
        (match op {
            UnaryOp::Negate | UnaryOp::Acos | UnaryOp::Asin | UnaryOp::Atan | UnaryOp::Cosh | UnaryOp::Sinh
            | UnaryOp::Tanh | UnaryOp::Ln | UnaryOp::Log10 | UnaryOp::Abs | UnaryOp::Sqrt | UnaryOp::Cbrt
            | UnaryOp::Sqr | UnaryOp::Cube => true,
            _ => false,
        }),
{
    match op {
        UnaryOp::Negate | UnaryOp::Acos | UnaryOp::Asin | UnaryOp::Atan | UnaryOp::Cosh | UnaryOp::Sinh
        | UnaryOp::Tanh | UnaryOp::Ln | UnaryOp::Log10 | UnaryOp::Abs | UnaryOp::Sqrt | UnaryOp::Cbrt
        | UnaryOp::Sqr | UnaryOp::Cube => true,
        _ => false,
    }
}

/// Whether knowing what an operator gives and one operand confines the other.
#[verifier::allow_in_spec]
pub fn invertible_binary(op: BinaryOp) -> bool
    returns
        (match op {
            BinaryOp::Add | BinaryOp::Sub | BinaryOp::Mul | BinaryOp::Div => true,
            _ => false,
        }),
{
    match op {
        BinaryOp::Add | BinaryOp::Sub | BinaryOp::Mul | BinaryOp::Div => true,
        _ => false,
    }
}

/// Whether every operator between the root of `side` and the global can be
/// undone, going down the left operand where it reads the global.
pub open spec fn reached(side: Expr, g: int) -> bool
    decreases side,
{
    match side.kind {
        Kind::Global(found) => found.0 == g,
        Kind::Unary { op, arg } => invertible_unary(op) && reached(*arg, g),
        Kind::Binary { op, lhs, rhs } => invertible_binary(op) && if reads(lhs.walk(), g) {
            reached(*lhs, g)
        } else {
            reached(*rhs, g)
        },
        _ => false,
    }
}

/// Whether the operators between the root of `side` and `variable` can all be
/// undone, so that an equality determines a variable that occurs once.
pub fn reaches(side: &Expr, variable: GlobalId) -> (reachable: bool)
    ensures
        reachable == reached(*side, variable.0 as int),
    decreases side,
{
    match &side.kind {
        Kind::Global(found) => found.0 == variable.0,
        Kind::Unary { op, arg } => invertible_unary(*op) && reaches(arg, variable),
        Kind::Binary { op, lhs, rhs } => {
            if !invertible_binary(*op) {
                false
            } else if mentions(lhs, variable) {
                reaches(lhs, variable)
            } else {
                reaches(rhs, variable)
            }
        },
        _ => false,
    }
}

/// The two sides, where the constraint is an equality that can be read: one
/// without local bindings, and without a computed subscript, which reads a
/// variable the text never names.
pub open spec fn sides(constraint: Ast) -> Option<(Expr, Expr)> {
    if constraint.contains_dynamic_lookup || !constraint.is_constraint
        || constraint.program.body.assignments@.len() > 0 {
        None
    } else {
        match constraint.program.body.result.kind {
            Kind::NearEq { lhs, rhs, .. } => Some((*lhs, *rhs)),
            _ => None,
        }
    }
}

fn sides_of(constraint: &Ast) -> (result: Option<(&Expr, &Expr)>)
    ensures
        match result {
            Some(pair) => sides(*constraint) == Some((*pair.0, *pair.1)),
            None => sides(*constraint) is None,
        },
{
    if constraint.contains_dynamic_lookup || !constraint.is_constraint {
        return None;
    }
    if constraint.program.body.assignments.len() > 0 {
        return None;
    }
    match &constraint.program.body.result.kind {
        Kind::NearEq { lhs, rhs, .. } => Some((&**lhs, &**rhs)),
        _ => None,
    }
}

/// Whether a global is read on both sides.
pub open spec fn is_shared(lhs: Expr, rhs: Expr, g: int) -> bool {
    reads(lhs.walk(), g) && reads(rhs.walk(), g)
}

/// Whether some global is.
pub open spec fn some_shared(lhs: Expr, rhs: Expr) -> bool {
    exists|g: int| #[trigger] is_shared(lhs, rhs, g)
}

/// Whether `id` is the least global read on both sides.
pub open spec fn least_shared(lhs: Expr, rhs: Expr, id: GlobalId) -> bool {
    &&& is_shared(lhs, rhs, id.0 as int)
    &&& forall|g: int| #[trigger] is_shared(lhs, rhs, g) ==> id.0 <= g
}

/// The least global on both sides.
fn shared(lhs: &Expr, rhs: &Expr) -> (found: Option<GlobalId>)
    ensures
        match found {
            Some(id) => least_shared(*lhs, *rhs, id),
            None => !some_shared(*lhs, *rhs),
        },
{
    let left = globals(lhs);
    for i in 0..left.len()
        invariant
            are_globals(lhs.walk(), left@),
            forall|k: int| 0 <= k < i ==> !reads(rhs.walk(), (#[trigger] left@[k]).0 as int),
    {
        if mentions(rhs, left[i]) {
            let id = left[i];
            proof {
                assert forall|g: int| #[trigger] is_shared(*lhs, *rhs, g) implies id.0 <= g by {
                    let k = choose|k: int| 0 <= k < lhs.walk().len() && refers_to(#[trigger] lhs.walk()[k], g);
                    let other = lhs.walk()[k].kind->Global_0;
                    assert(left@.contains(other));
                }
            }
            return Some(id);
        }
    }
    proof {
        assert forall|g: int| !#[trigger] is_shared(*lhs, *rhs, g) by {
            if is_shared(*lhs, *rhs, g) {
                let k = choose|k: int| 0 <= k < lhs.walk().len() && refers_to(#[trigger] lhs.walk()[k], g);
                let other = lhs.walk()[k].kind->Global_0;
                assert(left@.contains(other));
            }
        }
    }
    None
}

/// The sides that are a variable and nothing else, left first.
pub open spec fn bare(lhs: Expr, rhs: Expr) -> Seq<GlobalId> {
    let first = if lhs.kind is Global {
        seq![lhs.kind->Global_0]
    } else {
        Seq::empty()
    };
    if rhs.kind is Global {
        first.push(rhs.kind->Global_0)
    } else {
        first
    }
}

/// Whether a global is read once in the whole, under operators that can all be
/// undone.
pub open spec fn is_isolable(whole: Expr, lhs: Expr, rhs: Expr, g: int) -> bool {
    &&& times_read(whole.walk(), g) == 1
    &&& reached(
        if reads(lhs.walk(), g) {
            lhs
        } else {
            rhs
        },
        g,
    )
}

/// The globals below `upto`, ascending, that are isolable and not bare.
pub open spec fn isolable_below(whole: Expr, lhs: Expr, rhs: Expr, upto: int) -> Seq<GlobalId>
    decreases upto,
{
    if upto <= 0 {
        Seq::empty()
    } else {
        let g = upto - 1;
        let before = isolable_below(whole, lhs, rhs, g);
        if is_isolable(whole, lhs, rhs, g) && !bare(lhs, rhs).contains(GlobalId(g as u32)) {
            before.push(GlobalId(g as u32))
        } else {
            before
        }
    }
}

/// One past the last global there can be.
pub open spec fn every_global() -> int {
    u32::MAX + 1
}

/// The variables an equality can be solved for, best first: a bare side, and
/// then each variable that can be isolated, ascending. None where a variable
/// is on both sides.
pub open spec fn solvable_for(constraint: Ast) -> Seq<GlobalId> {
    match sides(constraint) {
        None => Seq::empty(),
        Some(pair) => if some_shared(pair.0, pair.1) {
            Seq::empty()
        } else {
            bare(pair.0, pair.1) + isolable_below(constraint.program.body.result, pair.0, pair.1, every_global())
        },
    }
}

proof fn nothing_between(whole: Expr, lhs: Expr, rhs: Expr, from: int, upto: int)
    requires
        0 <= from <= upto,
        forall|g: int| from <= g < upto ==> !reads(whole.walk(), g),
    ensures
        isolable_below(whole, lhs, rhs, upto) == isolable_below(whole, lhs, rhs, from),
    decreases upto - from,
{
    if from < upto {
        nothing_between(whole, lhs, rhs, from, upto - 1);
        read_no_times(whole.walk(), upto - 1);
    }
}

fn lists(ids: &Vec<GlobalId>, id: GlobalId) -> (listed: bool)
    ensures
        listed == ids@.contains(id),
{
    for i in 0..ids.len()
        invariant
            forall|k: int| 0 <= k < i ==> ids@[k] != id,
    {
        if ids[i].0 == id.0 {
            assert(ids@[i as int] == id);
            return true;
        }
    }
    false
}

fn bare_sides(lhs: &Expr, rhs: &Expr) -> (found: Vec<GlobalId>)
    ensures
        found@ == bare(*lhs, *rhs),
{
    let mut found: Vec<GlobalId> = Vec::new();
    match &lhs.kind {
        Kind::Global(variable) => found.push(*variable),
        _ => {},
    }
    match &rhs.kind {
        Kind::Global(variable) => found.push(*variable),
        _ => {},
    }
    assert(found@ =~= bare(*lhs, *rhs));
    found
}

/// Every variable the equality can be solved for, best first. Empty for
/// anything that is not an equality, or is implicit in a variable, or has a
/// computed subscript.
pub fn drivable(constraint: &Ast) -> (found: Vec<GlobalId>)
    ensures
        found@ == solvable_for(*constraint),
{
    let (lhs, rhs) = match sides_of(constraint) {
        Some(pair) => pair,
        None => {
            return Vec::new();
        },
    };
    if shared(lhs, rhs).is_some() {
        let none: Vec<GlobalId> = Vec::new();
        assert(none@ =~= solvable_for(*constraint));
        return none;
    }
    let whole = &constraint.program.body.result;
    let bare_ones = bare_sides(lhs, rhs);
    let mut found = bare_sides(lhs, rhs);
    let candidates = globals(whole);
    let ghost mut upto: int = 0;
    assert(found@ =~= bare(*lhs, *rhs) + isolable_below(*whole, *lhs, *rhs, 0));
    for i in 0..candidates.len()
        invariant
            bare_ones@ == bare(*lhs, *rhs),
            are_globals(whole.walk(), candidates@),
            0 <= upto <= every_global(),
            i > 0 ==> upto == candidates@[i - 1].0 + 1,
            i == 0 ==> upto == 0,
            found@ == bare(*lhs, *rhs) + isolable_below(*whole, *lhs, *rhs, upto),
    {
        let variable = candidates[i];
        let ghost g = variable.0 as int;
        proof {
            assert forall|x: int| upto <= x < g implies !reads(whole.walk(), x) by {
                if reads(whole.walk(), x) {
                    let k = choose|k: int| 0 <= k < whole.walk().len() && refers_to(#[trigger] whole.walk()[k], x);
                    let other = whole.walk()[k].kind->Global_0;
                    assert(candidates@.contains(other));
                    let j = choose|j: int| 0 <= j < candidates@.len() && candidates@[j] == other;
                    if j < i - 1 {
                        assert(candidates@[j].0 < candidates@[i - 1].0);
                    } else if j > i {
                        assert(candidates@[i as int].0 < candidates@[j].0);
                    }
                }
            }
            nothing_between(*whole, *lhs, *rhs, upto, g);
            assert(GlobalId(g as u32) == variable);
        }
        let ghost before = found@;
        if !lists(&bare_ones, variable) && occurrences(whole, variable) == 1 {
            let reachable = if mentions(lhs, variable) {
                reaches(lhs, variable)
            } else {
                reaches(rhs, variable)
            };
            if reachable {
                found.push(variable);
            }
        }
        proof {
            upto = g + 1;
            assert(found@ =~= bare(*lhs, *rhs) + isolable_below(*whole, *lhs, *rhs, upto));
        }
    }
    proof {
        assert forall|x: int| upto <= x < every_global() implies !reads(whole.walk(), x) by {
            if reads(whole.walk(), x) {
                let k = choose|k: int| 0 <= k < whole.walk().len() && refers_to(#[trigger] whole.walk()[k], x);
                let other = whole.walk()[k].kind->Global_0;
                assert(candidates@.contains(other));
                let j = choose|j: int| 0 <= j < candidates@.len() && candidates@[j] == other;
                if j < candidates@.len() - 1 {
                    assert(candidates@[j].0 < candidates@[candidates@.len() - 1].0);
                }
            }
        }
        nothing_between(*whole, *lhs, *rhs, upto, every_global());
    }
    found
}

/// Whether one side is the variable alone and the other names nothing.
pub open spec fn is_pinned(lhs: Expr, rhs: Expr, variable: GlobalId) -> bool {
    ||| lhs.kind == Kind::Global(variable) && names_nothing(rhs)
    ||| rhs.kind == Kind::Global(variable) && names_nothing(lhs)
}

pub open spec fn names_nothing(e: Expr) -> bool {
    forall|g: int| !#[trigger] reads(e.walk(), g)
}

/// Whether a constraint has a shape.
pub open spec fn is_shape(constraint: Ast, found: Shape) -> bool {
    match sides(constraint) {
        None => found is Opaque,
        Some(pair) => if some_shared(pair.0, pair.1) {
            found matches Shape::Implicit { variable } && least_shared(pair.0, pair.1, variable)
        } else {
            let list = solvable_for(constraint);
            if list.len() == 0 {
                found is Opaque
            } else if is_pinned(pair.0, pair.1, list[0]) {
                found == (Shape::Pinned { variable: list[0] })
            } else {
                found == (Shape::Driven { variable: list[0] })
            }
        },
    }
}

fn pins(candidate: &Expr, other: &Expr, variable: GlobalId) -> (pinned: bool)
    ensures
        pinned == (candidate.kind == Kind::Global(variable) && names_nothing(*other)),
{
    match &candidate.kind {
        Kind::Global(id) => {
            let named = globals(other);
            proof {
                if named@.len() > 0 {
                    assert(reads(other.walk(), named@[0].0 as int));
                } else {
                    assert forall|g: int| !#[trigger] reads(other.walk(), g) by {
                        if reads(other.walk(), g) {
                            let k = choose|k: int| 0 <= k < other.walk().len() && refers_to(#[trigger] other.walk()[k], g);
                            assert(named@.contains(other.walk()[k].kind->Global_0));
                        }
                    }
                }
            }
            id.0 == variable.0 && named.len() == 0
        },
        _ => false,
    }
}

/// The shape of one constraint. Anything that cannot be read is
/// [`Shape::Opaque`], which is always safe: a caller that learns nothing does
/// what it did before.
pub fn shape(constraint: &Ast) -> (found: Shape)
    ensures
        is_shape(*constraint, found),
{
    let (lhs, rhs) = match sides_of(constraint) {
        Some(pair) => pair,
        None => {
            return Shape::Opaque;
        },
    };
    match shared(lhs, rhs) {
        Some(variable) => {
            return Shape::Implicit { variable };
        },
        None => {},
    }
    let list = drivable(constraint);
    if list.len() == 0 {
        return Shape::Opaque;
    }
    let variable = list[0];
    if pins(lhs, rhs, variable) || pins(rhs, lhs, variable) {
        Shape::Pinned { variable }
    } else {
        Shape::Driven { variable }
    }
}

// ---- laws ----

/// Which side stands left does not change what an equality is solved for, only
/// which of two bare sides comes first.
pub proof fn sides_may_swap(whole: Expr, lhs: Expr, rhs: Expr, g: int)
    requires
        !some_shared(lhs, rhs),
        reads(lhs.walk(), g) || reads(rhs.walk(), g),
    ensures
        is_isolable(whole, lhs, rhs, g) == is_isolable(whole, rhs, lhs, g),
        bare(lhs, rhs).contains(GlobalId(g as u32)) == bare(rhs, lhs).contains(GlobalId(g as u32)),
{
    assert(!is_shared(lhs, rhs, g));
    let id = GlobalId(g as u32);
    if bare(lhs, rhs).contains(id) {
        let i = choose|i: int| 0 <= i < bare(lhs, rhs).len() && bare(lhs, rhs)[i] == id;
        if lhs.kind is Global && lhs.kind->Global_0 == id {
            assert(bare(rhs, lhs)[bare(rhs, lhs).len() - 1] == id);
        } else {
            assert(bare(rhs, lhs)[0] == id);
        }
    }
    if bare(rhs, lhs).contains(id) {
        let i = choose|i: int| 0 <= i < bare(rhs, lhs).len() && bare(rhs, lhs)[i] == id;
        if rhs.kind is Global && rhs.kind->Global_0 == id {
            assert(bare(lhs, rhs)[bare(lhs, rhs).len() - 1] == id);
        } else {
            assert(bare(lhs, rhs)[0] == id);
        }
    }
}

/// Whether two lists of nodes read the same globals in the same places, numbered
/// anew.
pub open spec fn renumbered(a: Seq<Expr>, b: Seq<Expr>, name: spec_fn(int) -> int) -> bool {
    &&& a.len() == b.len()
    &&& forall|i: int|
        0 <= i < a.len() ==> match ((#[trigger] a[i]).kind, b[i].kind) {
            (Kind::Global(x), Kind::Global(y)) => y.0 == name(x.0 as int),
            (Kind::Global(_), _) => false,
            (_, Kind::Global(_)) => false,
            _ => true,
        }
}

/// Whether two trees are one tree with its globals numbered anew: the same
/// operators over the same operands, and the same globals read in the same
/// places.
pub open spec fn is_renumbering(a: Expr, b: Expr, name: spec_fn(int) -> int) -> bool
    decreases a,
{
    &&& renumbered(a.walk(), b.walk(), name)
    &&& match a.kind {
        Kind::Unary { op, arg } => match b.kind {
            Kind::Unary { op: other, arg: under } => op == other && is_renumbering(*arg, *under, name),
            _ => false,
        },
        Kind::Binary { op, lhs, rhs } => match b.kind {
            Kind::Binary { op: other, lhs: left, rhs: right } => op == other && is_renumbering(*lhs, *left, name)
                && is_renumbering(*rhs, *right, name),
            _ => false,
        },
        _ => !(b.kind is Unary) && !(b.kind is Binary),
    }
}

/// Whether `q` is `p` with the sides of its equality the other way round. The
/// globals are numbered by first reference, so they are numbered anew.
pub open spec fn is_turned(p: Ast, q: Ast, name: spec_fn(int) -> int) -> bool {
    &&& p.contains_dynamic_lookup == q.contains_dynamic_lookup
    &&& p.is_constraint == q.is_constraint
    &&& p.program.body.assignments@.len() == q.program.body.assignments@.len()
    &&& match (p.program.body.result.kind, q.program.body.result.kind) {
        (Kind::NearEq { lhs, rhs, .. }, Kind::NearEq { lhs: first, rhs: second, .. }) => {
            is_renumbering(*lhs, *second, name) && is_renumbering(*rhs, *first, name)
        },
        _ => false,
    }
}

/// Whether no two globals get one number.
pub open spec fn is_injective(name: spec_fn(int) -> int) -> bool {
    forall|x: int, y: int| #[trigger] name(x) == #[trigger] name(y) ==> x == y
}

proof fn renumbering_reads_alike(a: Seq<Expr>, b: Seq<Expr>, name: spec_fn(int) -> int, g: int)
    requires
        renumbered(a, b, name),
        is_injective(name),
    ensures
        times_read(b, name(g)) == times_read(a, g),
        reads(b, name(g)) == reads(a, g),
    decreases a.len(),
{
    if a.len() > 0 {
        let rest = a.drop_last();
        let left = b.drop_last();
        assert forall|i: int| 0 <= i < rest.len() implies match ((#[trigger] rest[i]).kind, left[i].kind) {
            (Kind::Global(x), Kind::Global(y)) => y.0 == name(x.0 as int),
            (Kind::Global(_), _) => false,
            (_, Kind::Global(_)) => false,
            _ => true,
        } by {
            assert(rest[i] == a[i]);
            assert(left[i] == b[i]);
        }
        renumbering_reads_alike(rest, left, name, g);
        assert(a[a.len() - 1] == a.last());
        assert(b[b.len() - 1] == b.last());
        assert(refers_to(b.last(), name(g)) == refers_to(a.last(), g));
    }
    read_no_times(a, g);
    read_no_times(b, name(g));
}

/// Whatever the renumbered list reads is the number of something.
proof fn only_numbers_are_read(a: Seq<Expr>, b: Seq<Expr>, name: spec_fn(int) -> int, h: int) -> (g: int)
    requires
        renumbered(a, b, name),
        reads(b, h),
    ensures
        h == name(g),
        0 <= g <= u32::MAX,
        reads(a, g),
{
    let i = choose|i: int| 0 <= i < b.len() && refers_to(#[trigger] b[i], h);
    let e = a[i];
    let g = e.kind->Global_0.0 as int;
    assert(refers_to(a[i], g));
    g
}

proof fn renumbering_is_reached_alike(a: Expr, b: Expr, name: spec_fn(int) -> int, g: int)
    requires
        is_renumbering(a, b, name),
        is_injective(name),
    ensures
        reached(b, name(g)) == reached(a, g),
    decreases a,
{
    reveal_with_fuel(is_renumbering, 2);
    assert(a.walk()[0] == a);
    assert(b.walk()[0] == b);
    match a.kind {
        Kind::Unary { op, arg } => {
            match b.kind {
                Kind::Unary { op: other, arg: under } => renumbering_is_reached_alike(*arg, *under, name, g),
                _ => {},
            }
        },
        Kind::Binary { op, lhs, rhs } => {
            match b.kind {
                Kind::Binary { op: other, lhs: left, rhs: right } => {
                    renumbering_reads_alike(lhs.walk(), left.walk(), name, g);
                    renumbering_is_reached_alike(*lhs, *left, name, g);
                    renumbering_is_reached_alike(*rhs, *right, name, g);
                },
                _ => {},
            }
        },
        Kind::Global(found) => {},
        _ => {},
    }
}

proof fn times_read_in_both(a: Seq<Expr>, b: Seq<Expr>, g: int)
    ensures
        times_read(a + b, g) == times_read(a, g) + times_read(b, g),
    decreases b.len(),
{
    if b.len() == 0 {
        assert(a + b =~= a);
    } else {
        assert((a + b).drop_last() =~= a + b.drop_last());
        times_read_in_both(a, b.drop_last(), g);
    }
}

proof fn times_read_in_an_equality(whole: Expr, lhs: Expr, rhs: Expr, g: int)
    requires
        whole.kind matches Kind::NearEq { lhs: left, rhs: right, .. } && *left == lhs && *right == rhs,
    ensures
        times_read(whole.walk(), g) == times_read(lhs.walk(), g) + times_read(rhs.walk(), g),
{
    let sides = lhs.walk() + rhs.walk();
    assert(whole.walk() == seq![whole] + sides);
    times_read_in_both(seq![whole], sides, g);
    times_read_in_both(lhs.walk(), rhs.walk(), g);
    assert(seq![whole].drop_last() =~= Seq::empty());
    reveal_with_fuel(times_read, 2);
    assert(times_read(seq![whole], g) == 0);
}

/// Whether some global can be isolated that no side is bare in.
pub open spec fn some_isolable(whole: Expr, lhs: Expr, rhs: Expr) -> bool {
    exists|g: int|
        0 <= g < every_global() && #[trigger] is_isolable(whole, lhs, rhs, g) && !bare(lhs, rhs).contains(
            GlobalId(g as u32),
        )
}

proof fn isolable_somewhere(whole: Expr, lhs: Expr, rhs: Expr, upto: int)
    requires
        0 <= upto <= every_global(),
    ensures
        isolable_below(whole, lhs, rhs, upto).len() > 0 <==> exists|g: int|
            0 <= g < upto && #[trigger] is_isolable(whole, lhs, rhs, g) && !bare(lhs, rhs).contains(GlobalId(g as u32)),
    decreases upto,
{
    if upto > 0 {
        isolable_somewhere(whole, lhs, rhs, upto - 1);
    }
}

proof fn turned_reads_alike(
    lhs: Expr,
    rhs: Expr,
    first: Expr,
    second: Expr,
    name: spec_fn(int) -> int,
    whole: Expr,
    turned: Expr,
)
    requires
        is_injective(name),
        is_renumbering(lhs, second, name),
        is_renumbering(rhs, first, name),
        whole.kind matches Kind::NearEq { lhs: l, rhs: r, .. } && *l == lhs && *r == rhs,
        turned.kind matches Kind::NearEq { lhs: l, rhs: r, .. } && *l == first && *r == second,
    ensures
        some_shared(lhs, rhs) == some_shared(first, second),
        lhs.kind is Global == second.kind is Global,
        rhs.kind is Global == first.kind is Global,
        names_nothing(lhs) == names_nothing(second),
        names_nothing(rhs) == names_nothing(first),
        !some_shared(lhs, rhs) && bare(lhs, rhs).len() == 0 ==> some_isolable(whole, lhs, rhs) == some_isolable(
            turned,
            first,
            second,
        ),
{
    assert(lhs.walk()[0] == lhs && second.walk()[0] == second);
    assert(rhs.walk()[0] == rhs && first.walk()[0] == first);
    if some_shared(lhs, rhs) {
        let g = choose|g: int| #[trigger] is_shared(lhs, rhs, g);
        renumbering_reads_alike(lhs.walk(), second.walk(), name, g);
        renumbering_reads_alike(rhs.walk(), first.walk(), name, g);
        assert(is_shared(first, second, name(g)));
    }
    if some_shared(first, second) {
        let h = choose|h: int| #[trigger] is_shared(first, second, h);
        let g = only_numbers_are_read(lhs.walk(), second.walk(), name, h);
        renumbering_reads_alike(rhs.walk(), first.walk(), name, g);
        assert(is_shared(lhs, rhs, g));
    }
    names_nothing_alike(lhs, second, name);
    names_nothing_alike(rhs, first, name);
    if !some_shared(lhs, rhs) && bare(lhs, rhs).len() == 0 {
        assert(bare(first, second).len() == 0);
        if some_isolable(whole, lhs, rhs) {
            let g = choose|g: int|
                0 <= g < every_global() && #[trigger] is_isolable(whole, lhs, rhs, g) && !bare(lhs, rhs).contains(
                    GlobalId(g as u32),
                );
            isolable_alike(lhs, rhs, first, second, name, whole, turned, g);
            times_read_in_an_equality(turned, first, second, name(g));
            read_no_times(first.walk(), name(g));
            read_no_times(second.walk(), name(g));
            if reads(first.walk(), name(g)) {
                number_in_range(first.walk(), name(g));
            } else {
                number_in_range(second.walk(), name(g));
            }
            assert(is_isolable(turned, first, second, name(g)));
        }
        if some_isolable(turned, first, second) {
            let h = choose|h: int|
                0 <= h < every_global() && #[trigger] is_isolable(turned, first, second, h) && !bare(
                    first,
                    second,
                ).contains(GlobalId(h as u32));
            times_read_in_an_equality(turned, first, second, h);
            read_no_times(first.walk(), h);
            read_no_times(second.walk(), h);
            let g = if reads(first.walk(), h) {
                only_numbers_are_read(rhs.walk(), first.walk(), name, h)
            } else {
                only_numbers_are_read(lhs.walk(), second.walk(), name, h)
            };
            isolable_alike(lhs, rhs, first, second, name, whole, turned, g);
            assert(is_isolable(whole, lhs, rhs, g));
        }
    }
}

proof fn number_in_range(nodes: Seq<Expr>, g: int)
    requires
        reads(nodes, g),
    ensures
        0 <= g < every_global(),
{
    let i = choose|i: int| 0 <= i < nodes.len() && refers_to(#[trigger] nodes[i], g);
}

proof fn names_nothing_alike(a: Expr, b: Expr, name: spec_fn(int) -> int)
    requires
        is_injective(name),
        is_renumbering(a, b, name),
    ensures
        names_nothing(a) == names_nothing(b),
{
    if !names_nothing(a) {
        let g = choose|g: int| #[trigger] reads(a.walk(), g);
        renumbering_reads_alike(a.walk(), b.walk(), name, g);
        assert(reads(b.walk(), name(g)));
    }
    if !names_nothing(b) {
        let h = choose|h: int| #[trigger] reads(b.walk(), h);
        let g = only_numbers_are_read(a.walk(), b.walk(), name, h);
        assert(reads(a.walk(), g));
    }
}

proof fn isolable_alike(
    lhs: Expr,
    rhs: Expr,
    first: Expr,
    second: Expr,
    name: spec_fn(int) -> int,
    whole: Expr,
    turned: Expr,
    g: int,
)
    requires
        is_injective(name),
        is_renumbering(lhs, second, name),
        is_renumbering(rhs, first, name),
        whole.kind matches Kind::NearEq { lhs: l, rhs: r, .. } && *l == lhs && *r == rhs,
        turned.kind matches Kind::NearEq { lhs: l, rhs: r, .. } && *l == first && *r == second,
        !some_shared(lhs, rhs),
    ensures
        is_isolable(whole, lhs, rhs, g) == is_isolable(turned, first, second, name(g)),
{
    renumbering_reads_alike(lhs.walk(), second.walk(), name, g);
    renumbering_reads_alike(rhs.walk(), first.walk(), name, g);
    renumbering_is_reached_alike(lhs, second, name, g);
    renumbering_is_reached_alike(rhs, first, name, g);
    times_read_in_an_equality(whole, lhs, rhs, g);
    times_read_in_an_equality(turned, first, second, name(g));
    read_no_times(lhs.walk(), g);
    read_no_times(rhs.walk(), g);
    assert(!is_shared(lhs, rhs, g));
}

/// Which side of an equality comes first makes no difference to what kind of
/// shape it has: `a == b +/- t` and `b == a +/- t` are both pinned, both driven,
/// both implicit or both opaque.
pub proof fn either_side_may_come_first(p: Ast, q: Ast, name: spec_fn(int) -> int, a: Shape, b: Shape)
    requires
        is_turned(p, q, name),
        is_injective(name),
        is_shape(p, a),
        is_shape(q, b),
    ensures
        a is Pinned == b is Pinned,
        a is Driven == b is Driven,
        a is Implicit == b is Implicit,
        a is Opaque == b is Opaque,
{
    if sides(p) is Some {
        let whole = p.program.body.result;
        let turned = q.program.body.result;
        let (lhs, rhs) = sides(p)->0;
        let (first, second) = sides(q)->0;
        turned_reads_alike(lhs, rhs, first, second, name, whole, turned);
        isolable_somewhere(whole, lhs, rhs, every_global());
        isolable_somewhere(turned, first, second, every_global());
        if !some_shared(lhs, rhs) {
            pinned_by_a_bare_side(p, lhs, rhs);
            pinned_by_a_bare_side(q, first, second);
        }
    }
}

proof fn pinned_by_a_bare_side(constraint: Ast, lhs: Expr, rhs: Expr)
    requires
        sides(constraint) == Some((lhs, rhs)),
        !some_shared(lhs, rhs),
    ensures
        ({
            let list = solvable_for(constraint);
            let bare_and_alone = (lhs.kind is Global && names_nothing(rhs)) || (rhs.kind is Global && names_nothing(lhs));
            list.len() > 0 ==> is_pinned(lhs, rhs, list[0]) == bare_and_alone
        }),
        bare(lhs, rhs).len() > 0 ==> solvable_for(constraint).len() > 0,
        bare(lhs, rhs).len() == 0 ==> (solvable_for(constraint).len() > 0 <==> isolable_below(
            constraint.program.body.result,
            lhs,
            rhs,
            every_global(),
        ).len() > 0),
{
    let list = solvable_for(constraint);
    if lhs.kind is Global && rhs.kind is Global {
        assert(lhs.walk()[0] == lhs && rhs.walk()[0] == rhs);
        assert(reads(lhs.walk(), lhs.kind->Global_0.0 as int)) by {
            assert(refers_to(lhs.walk()[0], lhs.kind->Global_0.0 as int));
        }
        assert(reads(rhs.walk(), rhs.kind->Global_0.0 as int)) by {
            assert(refers_to(rhs.walk()[0], rhs.kind->Global_0.0 as int));
        }
    }
    if bare(lhs, rhs).len() > 0 {
        assert(list[0] == bare(lhs, rhs)[0]);
    }
}

/// A constraint has one shape.
pub proof fn a_constraint_has_one_shape(constraint: Ast, a: Shape, b: Shape)
    requires
        is_shape(constraint, a),
        is_shape(constraint, b),
    ensures
        a == b,
{
    if sides(constraint) is Some {
        let pair = sides(constraint)->0;
        if some_shared(pair.0, pair.1) {
            let x = a->Implicit_variable;
            let y = b->Implicit_variable;
            assert(is_shared(pair.0, pair.1, x.0 as int));
            assert(is_shared(pair.0, pair.1, y.0 as int));
        }
    }
}

// ---- what an equality determines ----

/// What a tree comes to, operator by operator: `value` gives its globals, and
/// `leaf` what anything else comes to.
pub open spec fn figured<T>(
    e: Expr,
    unary: spec_fn(UnaryOp, T) -> T,
    binary: spec_fn(BinaryOp, T, T) -> T,
    leaf: spec_fn(Expr) -> T,
    value: spec_fn(int) -> T,
) -> T
    decreases e,
{
    match e.kind {
        Kind::Global(id) => value(id.0 as int),
        Kind::Unary { op, arg } => unary(op, figured(*arg, unary, binary, leaf, value)),
        Kind::Binary { op, lhs, rhs } => binary(
            op,
            figured(*lhs, unary, binary, leaf, value),
            figured(*rhs, unary, binary, leaf, value),
        ),
        _ => leaf(e),
    }
}

/// Whether what can be undone is undone in a tree, between two ways to value its
/// globals: what a function gives settles what it was given, and what an operator
/// gives and one operand settle the other.
pub open spec fn is_undone<T>(
    e: Expr,
    unary: spec_fn(UnaryOp, T) -> T,
    binary: spec_fn(BinaryOp, T, T) -> T,
    leaf: spec_fn(Expr) -> T,
    one: spec_fn(int) -> T,
    two: spec_fn(int) -> T,
) -> bool
    decreases e,
{
    match e.kind {
        Kind::Unary { op, arg } => {
            let a = figured(*arg, unary, binary, leaf, one);
            let b = figured(*arg, unary, binary, leaf, two);
            &&& invertible_unary(op) && unary(op, a) == unary(op, b) ==> a == b
            &&& is_undone(*arg, unary, binary, leaf, one, two)
        },
        Kind::Binary { op, lhs, rhs } => {
            let a = figured(*lhs, unary, binary, leaf, one);
            let b = figured(*lhs, unary, binary, leaf, two);
            let c = figured(*rhs, unary, binary, leaf, one);
            let d = figured(*rhs, unary, binary, leaf, two);
            &&& invertible_binary(op) && binary(op, a, c) == binary(op, b, d) ==> (a == b <==> c == d)
            &&& is_undone(*lhs, unary, binary, leaf, one, two)
            &&& is_undone(*rhs, unary, binary, leaf, one, two)
        },
        _ => true,
    }
}

/// Whether two ways to value globals differ at most on one.
pub open spec fn differ_only_on<T>(g: int, one: spec_fn(int) -> T, two: spec_fn(int) -> T) -> bool {
    forall|h: int| h != g ==> #[trigger] one(h) == two(h)
}

proof fn times_read_below(e: Expr, g: int)
    ensures
        e.kind is Global ==> times_read(e.walk(), g) == if refers_to(e, g) {
            1nat
        } else {
            0
        },
        e.kind matches Kind::Unary { op, arg } ==> times_read(e.walk(), g) == times_read(arg.walk(), g),
        e.kind matches Kind::Binary { op, lhs, rhs } ==> times_read(e.walk(), g) == times_read(lhs.walk(), g)
            + times_read(rhs.walk(), g),
{
    reveal_with_fuel(times_read, 2);
    assert(seq![e].drop_last() =~= Seq::empty());
    match e.kind {
        Kind::Global(_) => {
            assert(e.walk() =~= seq![e]);
        },
        Kind::Unary { op, arg } => {
            times_read_in_both(seq![e], arg.walk(), g);
        },
        Kind::Binary { op, lhs, rhs } => {
            times_read_in_both(seq![e], lhs.walk() + rhs.walk(), g);
            times_read_in_both(lhs.walk(), rhs.walk(), g);
        },
        _ => {},
    }
}

proof fn what_is_not_read_changes_nothing<T>(
    e: Expr,
    unary: spec_fn(UnaryOp, T) -> T,
    binary: spec_fn(BinaryOp, T, T) -> T,
    leaf: spec_fn(Expr) -> T,
    g: int,
    one: spec_fn(int) -> T,
    two: spec_fn(int) -> T,
)
    requires
        differ_only_on(g, one, two),
        times_read(e.walk(), g) == 0,
    ensures
        figured(e, unary, binary, leaf, one) == figured(e, unary, binary, leaf, two),
    decreases e,
{
    times_read_below(e, g);
    match e.kind {
        Kind::Unary { op, arg } => what_is_not_read_changes_nothing(*arg, unary, binary, leaf, g, one, two),
        Kind::Binary { op, lhs, rhs } => {
            what_is_not_read_changes_nothing(*lhs, unary, binary, leaf, g, one, two);
            what_is_not_read_changes_nothing(*rhs, unary, binary, leaf, g, one, two);
        },
        Kind::Global(id) => {
            assert(one(id.0 as int) == two(id.0 as int));
        },
        _ => {},
    }
}

/// What is reached is determined: where a variable is read once under operators that
/// can all be undone, and are, what the tree comes to settles the variable, all
/// others being the same.
pub proof fn what_is_reached_is_determined<T>(
    side: Expr,
    unary: spec_fn(UnaryOp, T) -> T,
    binary: spec_fn(BinaryOp, T, T) -> T,
    leaf: spec_fn(Expr) -> T,
    g: int,
    one: spec_fn(int) -> T,
    two: spec_fn(int) -> T,
)
    requires
        reached(side, g),
        times_read(side.walk(), g) == 1,
        differ_only_on(g, one, two),
        is_undone(side, unary, binary, leaf, one, two),
        figured(side, unary, binary, leaf, one) == figured(side, unary, binary, leaf, two),
    ensures
        one(g) == two(g),
    decreases side,
{
    times_read_below(side, g);
    match side.kind {
        Kind::Unary { op, arg } => what_is_reached_is_determined(*arg, unary, binary, leaf, g, one, two),
        Kind::Binary { op, lhs, rhs } => {
            read_no_times(lhs.walk(), g);
            if reads(lhs.walk(), g) {
                what_is_not_read_changes_nothing(*rhs, unary, binary, leaf, g, one, two);
                what_is_reached_is_determined(*lhs, unary, binary, leaf, g, one, two);
            } else {
                what_is_not_read_changes_nothing(*lhs, unary, binary, leaf, g, one, two);
                what_is_reached_is_determined(*rhs, unary, binary, leaf, g, one, two);
            }
        },
        _ => {},
    }
}

proof fn isolable_is_listed(whole: Expr, lhs: Expr, rhs: Expr, upto: int)
    requires
        0 <= upto <= every_global(),
    ensures
        forall|i: int|
            0 <= i < isolable_below(whole, lhs, rhs, upto).len() ==> {
                let id = #[trigger] isolable_below(whole, lhs, rhs, upto)[i];
                &&& id.0 < upto
                &&& is_isolable(whole, lhs, rhs, id.0 as int)
                &&& !bare(lhs, rhs).contains(id)
            },
        forall|i: int, j: int|
            0 <= i < j < isolable_below(whole, lhs, rhs, upto).len() ==> (#[trigger] isolable_below(
                whole,
                lhs,
                rhs,
                upto,
            )[i]).0 < (#[trigger] isolable_below(whole, lhs, rhs, upto)[j]).0,
        forall|id: GlobalId|
            id.0 < upto && is_isolable(whole, lhs, rhs, id.0 as int) && !bare(lhs, rhs).contains(id)
                ==> #[trigger] isolable_below(whole, lhs, rhs, upto).contains(id),
    decreases upto,
{
    if upto > 0 {
        isolable_is_listed(whole, lhs, rhs, upto - 1);
        let before = isolable_below(whole, lhs, rhs, upto - 1);
        let after = isolable_below(whole, lhs, rhs, upto);
        let last = GlobalId((upto - 1) as u32);
        assert forall|id: GlobalId|
            id.0 < upto && is_isolable(whole, lhs, rhs, id.0 as int) && !bare(lhs, rhs).contains(
                id,
            ) implies #[trigger] after.contains(id) by {
            if id.0 < upto - 1 {
                assert(before.contains(id));
                let i = choose|i: int| 0 <= i < before.len() && before[i] == id;
                assert(after[i] == id);
            } else {
                assert(id == last);
                assert(after[before.len() as int] == id);
            }
        }
    }
}

/// What an equality can be solved for it determines: a variable that is listed is on
/// one side alone, and where what can be undone is undone, no two values of it, all
/// else the same, both make the sides equal.
pub proof fn an_equality_determines_what_it_is_solved_for<T>(
    constraint: Ast,
    lhs: Expr,
    rhs: Expr,
    unary: spec_fn(UnaryOp, T) -> T,
    binary: spec_fn(BinaryOp, T, T) -> T,
    leaf: spec_fn(Expr) -> T,
    i: int,
    one: spec_fn(int) -> T,
    two: spec_fn(int) -> T,
)
    requires
        sides(constraint) == Some((lhs, rhs)),
        0 <= i < solvable_for(constraint).len(),
        differ_only_on(solvable_for(constraint)[i].0 as int, one, two),
        is_undone(lhs, unary, binary, leaf, one, two),
        is_undone(rhs, unary, binary, leaf, one, two),
        figured(lhs, unary, binary, leaf, one) == figured(rhs, unary, binary, leaf, one),
        figured(lhs, unary, binary, leaf, two) == figured(rhs, unary, binary, leaf, two),
    ensures
        one(solvable_for(constraint)[i].0 as int) == two(solvable_for(constraint)[i].0 as int),
        reads(lhs.walk(), solvable_for(constraint)[i].0 as int) != reads(
            rhs.walk(),
            solvable_for(constraint)[i].0 as int,
        ),
{
    let list = solvable_for(constraint);
    let whole = constraint.program.body.result;
    let g = list[i].0 as int;
    let first = bare(lhs, rhs);
    assert(!is_shared(lhs, rhs, g));
    isolable_is_listed(whole, lhs, rhs, every_global());
    read_no_times(lhs.walk(), g);
    read_no_times(rhs.walk(), g);
    times_read_below(lhs, g);
    times_read_below(rhs, g);
    if i >= first.len() {
        assert(list[i] == isolable_below(whole, lhs, rhs, every_global())[i - first.len()]);
        times_read_in_an_equality(whole, lhs, rhs, g);
    }
    if reads(lhs.walk(), g) {
        what_is_not_read_changes_nothing(rhs, unary, binary, leaf, g, one, two);
        what_is_reached_is_determined(lhs, unary, binary, leaf, g, one, two);
    } else {
        what_is_not_read_changes_nothing(lhs, unary, binary, leaf, g, one, two);
        what_is_reached_is_determined(rhs, unary, binary, leaf, g, one, two);
    }
}

/// What can be isolated is listed, once: where no variable is on both sides, a side
/// that is a variable alone is listed, before all that are not, and so is whatever is
/// read once under operators that can all be undone; and no variable is listed twice.
pub proof fn what_can_be_isolated_is_listed(constraint: Ast, lhs: Expr, rhs: Expr, id: GlobalId)
    requires
        sides(constraint) == Some((lhs, rhs)),
        !some_shared(lhs, rhs),
    ensures
        solvable_for(constraint).no_duplicates(),
        lhs.kind == Kind::Global(id) ==> solvable_for(constraint).len() > 0 && solvable_for(constraint)[0] == id,
        rhs.kind == Kind::Global(id) && !(lhs.kind is Global) ==> solvable_for(constraint).len() > 0 && solvable_for(
            constraint,
        )[0] == id,
        rhs.kind == Kind::Global(id) ==> solvable_for(constraint).contains(id),
        times_read(lhs.walk(), id.0 as int) + times_read(rhs.walk(), id.0 as int) == 1 && (reached(lhs, id.0 as int)
            || reached(rhs, id.0 as int)) ==> solvable_for(constraint).contains(id),
{
    let list = solvable_for(constraint);
    let whole = constraint.program.body.result;
    let g = id.0 as int;
    let first = bare(lhs, rhs);
    let rest = isolable_below(whole, lhs, rhs, every_global());
    isolable_is_listed(whole, lhs, rhs, every_global());
    times_read_in_an_equality(whole, lhs, rhs, g);
    read_no_times(lhs.walk(), g);
    read_no_times(rhs.walk(), g);
    what_is_reached_is_read(lhs, g);
    what_is_reached_is_read(rhs, g);
    assert(list == first + rest);
    if lhs.kind is Global && rhs.kind is Global {
        let h = lhs.kind->Global_0.0 as int;
        assert(lhs.walk()[0] == lhs && rhs.walk()[0] == rhs);
        assert(!is_shared(lhs, rhs, h));
        assert(refers_to(lhs.walk()[0], h));
        assert(rhs.kind->Global_0 != lhs.kind->Global_0) by {
            if rhs.kind->Global_0 == lhs.kind->Global_0 {
                assert(refers_to(rhs.walk()[0], h));
            }
        }
    }
    assert(first.no_duplicates());
    assert forall|i: int, j: int| 0 <= i < list.len() && 0 <= j < list.len() && i != j implies list[i] != list[j] by {
        if i < first.len() && j >= first.len() {
            assert(list[j] == rest[j - first.len()]);
            assert(first.contains(list[i]));
        } else if j < first.len() && i >= first.len() {
            assert(list[i] == rest[i - first.len()]);
            assert(first.contains(list[j]));
        } else if i >= first.len() {
            assert(list[i] == rest[i - first.len()]);
            assert(list[j] == rest[j - first.len()]);
        }
    }
    if rhs.kind == Kind::Global(id) {
        assert(list[first.len() - 1] == id);
    }
    if first.contains(id) {
        let k = choose|k: int| 0 <= k < first.len() && first[k] == id;
        assert(list[k] == id);
    }
    if rest.contains(id) {
        let k = choose|k: int| 0 <= k < rest.len() && rest[k] == id;
        assert(list[first.len() + k] == id);
    }
}

proof fn what_is_reached_is_read(side: Expr, g: int)
    ensures
        reached(side, g) ==> times_read(side.walk(), g) > 0,
    decreases side,
{
    times_read_below(side, g);
    match side.kind {
        Kind::Unary { op, arg } => what_is_reached_is_read(*arg, g),
        Kind::Binary { op, lhs, rhs } => {
            what_is_reached_is_read(*lhs, g);
            what_is_reached_is_read(*rhs, g);
        },
        _ => {},
    }
}

} // verus!
