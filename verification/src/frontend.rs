//! Source text to [`Ast`].
//!
//! [`parse`] has the text lexed, parsed and lowered to [`crate::ast`], and then
//! normalised without changing what it computes. What lexes and what normalises
//! are handed in.

use vstd::prelude::*;
use crate::ast::{dereferenced, walk_assignments, Assignment, Expr, Kind, Program};
use crate::diagnostics::{at_most, line_and_column, CompilationFailure, Fault, Problem, ProblemKind, Span};

verus! {

/// What translation of a source text produces.
#[derive(Debug)]
pub struct Lowered {
    pub program: Program,
    pub symbols: Vec<String>,
    pub contains_dynamic_lookup: bool,
    pub is_constraint: bool,
}

/// A parsed expression, ready to be bound to a schema.
#[derive(Debug)]
pub struct Ast {
    pub source: String,
    pub program: Program,
    /// Distinct statically-referenced names in first-reference order; a
    /// [`GlobalId`](crate::ast::GlobalId) indexes into this.
    pub symbols: Vec<String>,
    pub contains_dynamic_lookup: bool,
    pub is_constraint: bool,
}

/// Whether a problem is `kind` at `span` of `source`, with its line and column.
pub open spec fn located(problem: Problem, kind: ProblemKind, source: Seq<char>, span: Span) -> bool {
    &&& problem.kind == kind
    &&& problem.source@ == source
    &&& problem.span == span
    &&& (problem.line_idx as int, problem.column_idx as int) == line_and_column(at_most(source, span.start as int))
}

/// Whether the problems are the faults, each located in `source`.
pub open spec fn all_located(problems: Seq<Problem>, faults: Seq<Fault>, source: Seq<char>) -> bool {
    &&& problems.len() == faults.len()
    &&& forall|i: int|
        0 <= i < faults.len() ==> located(#[trigger] problems[i], faults[i].kind, source, faults[i].span)
}

/// What a parse of `source` gives, for what translating and normalising gave.
pub open spec fn parsed_as(
    source: Seq<char>,
    lowered: Result<Lowered, Vec<Problem>>,
    normal: Result<Program, Vec<Fault>>,
    result: Result<Ast, CompilationFailure>,
) -> bool {
    match lowered {
        Err(problems) => {
            &&& result matches Err(failure)
            &&& failure.source@ == source
            &&& failure.problems == problems
        },
        Ok(lowered) => match normal {
            Err(faults) => {
                &&& result matches Err(failure)
                &&& failure.source@ == source
                &&& all_located(failure.problems@, faults@, source)
            },
            Ok(program) => {
                &&& result matches Ok(ast)
                &&& ast.source@ == source
                &&& ast.program == program
                &&& ast.symbols == lowered.symbols
                &&& ast.contains_dynamic_lookup == lowered.contains_dynamic_lookup
                &&& ast.is_constraint == lowered.is_constraint
            },
        },
    }
}

/// Compiles source text into an evaluable expression.
///
/// An empty text is its own problem and is handed to nothing. Otherwise
/// `translate` gets the text and, if it succeeds, `canonicalize` gets the
/// program; the faults of the second are located in the text here.
pub fn parse<F, G>(source: &str, translate: F, canonicalize: G) -> (result: Result<Ast, CompilationFailure>) where
    F: Fn(&str) -> Result<Lowered, Vec<Problem>>,
    G: Fn(Program) -> Result<Program, Vec<Fault>>,

    requires
        source@.len() > 0 ==> call_requires(translate, (source,)),
        forall|program: Program| #[trigger] call_requires(canonicalize, (program,)),
    ensures
        source@.len() == 0 ==> {
            &&& result matches Err(failure)
            &&& failure.source@ == source@
            &&& failure.problems@.len() == 1
            &&& located(failure.problems@[0], ProblemKind::EmptyExpression, source@, Span { start: 0, end: 0 })
        },
        source@.len() > 0 ==> exists|lowered: Result<Lowered, Vec<Problem>>, normal: Result<Program, Vec<Fault>>|
            {
                &&& call_ensures(translate, (source,), lowered)
                &&& (lowered matches Ok(program) ==> call_ensures(canonicalize, (program.program,), normal))
                &&& #[trigger] parsed_as(source@, lowered, normal, result)
            },
{
    if source.is_empty() {
        let mut problems: Vec<Problem> = Vec::new();
        problems.push(Problem::new(ProblemKind::EmptyExpression, source, Span::new(0, 0)));
        return Err(CompilationFailure { source: source.to_owned(), problems });
    }
    let lowered = translate(source);
    let ghost outcome = lowered;
    match lowered {
        Err(problems) => {
            let result = Err(CompilationFailure { source: source.to_owned(), problems });
            proof {
                let normal: Result<Program, Vec<Fault>> = arbitrary();
                assert(parsed_as(source@, outcome, normal, result));
            }
            result
        },
        Ok(lowered) => {
            let normal = canonicalize(lowered.program);
            let ghost canonical = normal;
            match normal {
                Err(faults) => {
                    let problems = locate(source, faults);
                    let result = Err(CompilationFailure { source: source.to_owned(), problems });
                    assert(parsed_as(source@, outcome, canonical, result));
                    result
                },
                Ok(program) => {
                    let result = Ok(
                        Ast {
                            source: source.to_owned(),
                            program,
                            symbols: lowered.symbols,
                            contains_dynamic_lookup: lowered.contains_dynamic_lookup,
                            is_constraint: lowered.is_constraint,
                        },
                    );
                    assert(parsed_as(source@, outcome, canonical, result));
                    result
                },
            }
        },
    }
}

/// Locates faults in the text they are faults of.
pub fn locate(source: &str, faults: Vec<Fault>) -> (problems: Vec<Problem>)
    ensures
        all_located(problems@, faults@, source@),
{
    let ghost all = faults@;
    let mut rest = faults;
    let mut reversed: Vec<Problem> = Vec::new();
    while rest.len() > 0
        invariant
            rest@.len() + reversed@.len() == all.len(),
            rest@ == all.take(rest@.len() as int),
            forall|i: int|
                0 <= i < reversed@.len() ==> located(
                    #[trigger] reversed@[i],
                    all[all.len() - 1 - i].kind,
                    source@,
                    all[all.len() - 1 - i].span,
                ),
        decreases rest@.len(),
    {
        let ghost before = rest@;
        let fault = rest.pop().unwrap();
        assert(fault == all[before.len() - 1]);
        assert(rest@ =~= all.take(rest@.len() as int));
        reversed.push(Problem::new(fault.kind, source, fault.span));
    }
    let mut problems: Vec<Problem> = Vec::new();
    let ghost backwards = reversed@;
    while reversed.len() > 0
        invariant
            backwards.len() == all.len(),
            reversed@.len() + problems@.len() == all.len(),
            reversed@ == backwards.take(reversed@.len() as int),
            forall|i: int|
                0 <= i < backwards.len() ==> located(
                    #[trigger] backwards[i],
                    all[all.len() - 1 - i].kind,
                    source@,
                    all[all.len() - 1 - i].span,
                ),
            forall|i: int|
                0 <= i < problems@.len() ==> located(#[trigger] problems@[i], all[i].kind, source@, all[i].span),
        decreases reversed@.len(),
    {
        let ghost before = reversed@;
        let problem = reversed.pop().unwrap();
        assert(problem == backwards[before.len() - 1]);
        assert(reversed@ =~= backwards.take(reversed@.len() as int));
        problems.push(problem);
    }
    problems
}

/// Whether `a` begins before `b`, or with it and ends before it.
pub open spec fn precedes(a: Span, b: Span) -> bool {
    a.start < b.start || (a.start == b.start && a.end < b.end)
}

/// Whether a node is a reference to global `g`.
pub open spec fn refers_to(e: Expr, g: int) -> bool {
    e.kind matches Kind::Global(id) && id.0 == g
}

/// Whether `found` is the earliest, by position in the text, of `held` and the
/// references to `g` among `nodes`.
pub open spec fn earliest(nodes: Seq<Expr>, g: int, held: Option<Span>, found: Option<Span>) -> bool {
    match found {
        None => held is None && forall|i: int| 0 <= i < nodes.len() ==> !refers_to(#[trigger] nodes[i], g),
        Some(span) => {
            &&& held == found || exists|i: int|
                0 <= i < nodes.len() && refers_to(#[trigger] nodes[i], g) && nodes[i].span == span
            &&& held matches Some(before) ==> !precedes(before, span)
            &&& forall|i: int|
                0 <= i < nodes.len() && refers_to(#[trigger] nodes[i], g) ==> !precedes(nodes[i].span, span)
        },
    }
}

/// Whether `found` is where `g` is first referenced among `nodes`, first by
/// position in the text.
pub open spec fn first_reference(nodes: Seq<Expr>, g: int, found: Option<Span>) -> bool {
    earliest(nodes, g, None, found)
}

proof fn earliest_of_both(
    a: Seq<Expr>,
    b: Seq<Expr>,
    g: int,
    held: Option<Span>,
    between: Option<Span>,
    found: Option<Span>,
)
    requires
        earliest(a, g, held, between),
        earliest(b, g, between, found),
    ensures
        earliest(a + b, g, held, found),
{
    let both = a + b;
    assert forall|i: int| 0 <= i < a.len() implies both[i] == a[i] by {}
    assert forall|i: int| 0 <= i < b.len() implies both[a.len() + i] == b[i] by {}
    assert forall|i: int| a.len() <= i < both.len() implies both[i] == b[i - a.len()] by {}
    if found is Some && held != found {
        if between == found {
            let i = choose|i: int| 0 <= i < a.len() && refers_to(#[trigger] a[i], g) && a[i].span == found->0;
            assert(refers_to(both[i], g));
        } else {
            let i = choose|i: int| 0 <= i < b.len() && refers_to(#[trigger] b[i], g) && b[i].span == found->0;
            assert(refers_to(both[a.len() + i], g));
        }
    }
}

/// Whether every global among `nodes` is below `symbols`.
pub open spec fn names_below(nodes: Seq<Expr>, symbols: int) -> bool {
    forall|i: int|
        0 <= i < nodes.len() ==> ((#[trigger] nodes[i]).kind matches Kind::Global(id) ==> id.0 < symbols)
}

/// Records the earliest-spanned reference of each global under `expr`, keeping
/// what is recorded already where that is as early.
fn first_references(expr: &Expr, spans: &mut Vec<Option<Span>>)
    requires
        names_below(expr.walk(), old(spans)@.len() as int),
    ensures
        final(spans)@.len() == old(spans)@.len(),
        forall|g: int|
            0 <= g < final(spans)@.len() ==> earliest(expr.walk(), g, old(spans)@[g], #[trigger] final(spans)@[g]),
{
    let nodes = expr.preorder();
    let ghost all = expr.walk();
    let ghost begin = spans@;
    for i in 0..nodes.len()
        invariant
            all == dereferenced(nodes@),
            spans@.len() == begin.len(),
            names_below(all, begin.len() as int),
            forall|g: int| 0 <= g < begin.len() ==> earliest(all.take(i as int), g, begin[g], #[trigger] spans@[g]),
    {
        let ghost before = spans@;
        let node: &Expr = nodes[i];
        assert(all[i as int] == *node);
        match &node.kind {
            Kind::Global(id) => {
                let better = match spans[id.index()] {
                    None => true,
                    Some(held) => node.span.start < held.start || (node.span.start == held.start && node.span.end
                        < held.end),
                };
                if better {
                    spans.set(id.index(), Some(node.span));
                }
            },
            _ => {},
        }
        proof {
            let earlier = all.take(i as int);
            assert(all.take(i + 1) =~= earlier + seq![*node]);
            assert forall|g: int| 0 <= g < begin.len() implies earliest(
                all.take(i + 1),
                g,
                begin[g],
                #[trigger] spans@[g],
            ) by {
                assert(earliest(earlier, g, begin[g], before[g]));
                assert(seq![*node][0] == *node);
                assert(earliest(seq![*node], g, before[g], spans@[g]));
                earliest_of_both(earlier, seq![*node], g, begin[g], before[g], spans@[g]);
            }
        }
    }
    assert(all.take(nodes@.len() as int) =~= all);
}

proof fn names_of_the_part(assignments: Seq<Assignment>, upto: int, rest: Seq<Expr>, symbols: int)
    requires
        0 <= upto <= assignments.len(),
        names_below(walk_assignments(assignments) + rest, symbols),
    ensures
        names_below(walk_assignments(assignments.take(upto)), symbols),
    decreases assignments.len() - upto,
{
    if upto == assignments.len() {
        assert(assignments.take(upto) =~= assignments);
        let all = walk_assignments(assignments);
        assert forall|i: int| 0 <= i < all.len() implies ((#[trigger] all[i]).kind matches Kind::Global(id) ==> id.0
            < symbols) by {
            assert((all + rest)[i] == all[i]);
        }
    } else {
        names_of_the_part(assignments, upto + 1, rest, symbols);
        assert(assignments.take(upto + 1).drop_last() =~= assignments.take(upto));
        let part = walk_assignments(assignments.take(upto));
        let longer = walk_assignments(assignments.take(upto + 1));
        assert forall|i: int| 0 <= i < part.len() implies ((#[trigger] part[i]).kind matches Kind::Global(id) ==> id.0
            < symbols) by {
            assert(longer[i] == part[i]);
        }
    }
}

impl Ast {
    /// Every global is one of the names.
    pub open spec fn well_formed(&self) -> bool {
        &&& names_below(self.program.body.walk(), self.symbols@.len() as int)
        &&& self.symbols@.len() <= u32::MAX
    }

    /// The text this was parsed from.
    pub fn source(&self) -> (source: &str)
        ensures
            source@ == self.source@,
    {
        self.source.as_str()
    }

    /// The names referenced, in first-reference order.
    pub fn symbols(&self) -> (symbols: &Vec<String>)
        ensures
            *symbols == self.symbols,
    {
        &self.symbols
    }

    /// Whether a subscript is left for the row to decide.
    pub fn contains_dynamic_lookup(&self) -> (dynamic: bool)
        ensures
            dynamic == self.contains_dynamic_lookup,
    {
        self.contains_dynamic_lookup
    }

    /// Whether the expression is a constraint rather than a scalar.
    pub fn is_constraint(&self) -> (constraint: bool)
        ensures
            constraint == self.is_constraint,
    {
        self.is_constraint
    }

    /// Where each symbol is first referenced, indexed like the symbols: the
    /// span to put a caret under when a symbol turns out to be unbound. `None`
    /// for a symbol nothing references.
    pub fn reference_spans(&self) -> (spans: Vec<Option<Span>>)
        requires
            self.well_formed(),
        ensures
            spans@.len() == self.symbols@.len(),
            forall|g: int|
                0 <= g < spans@.len() ==> first_reference(self.program.body.walk(), g, #[trigger] spans@[g]),
    {
        let mut spans: Vec<Option<Span>> = Vec::new();
        for i in 0..self.symbols.len()
            invariant
                spans@.len() == i,
                forall|g: int| 0 <= g < i ==> (#[trigger] spans@[g]) is None,
        {
            spans.push(None);
        }
        let body = &self.program.body;
        let ghost listed = body.assignments@;
        let ghost count = self.symbols@.len();
        assert(walk_assignments(listed.take(0)) =~= Seq::empty());
        for i in 0..body.assignments.len()
            invariant
                listed == body.assignments@,
                spans@.len() == count,
                names_below(body.walk(), count as int),
                forall|g: int|
                    0 <= g < count ==> first_reference(
                        walk_assignments(listed.take(i as int)),
                        g,
                        #[trigger] spans@[g],
                    ),
        {
            let ghost before = spans@;
            let ghost earlier = walk_assignments(listed.take(i as int));
            let ghost later = walk_assignments(listed.take(i + 1));
            let value = &body.assignments[i].value;
            proof {
                assert(listed.take(i + 1).drop_last() =~= listed.take(i as int));
                assert(later == earlier + value.walk());
                names_of_the_part(listed, i + 1, body.result.walk(), count as int);
                assert forall|k: int| 0 <= k < value.walk().len() implies ((#[trigger] value.walk()[k]).kind matches
                    Kind::Global(id) ==> id.0 < count) by {
                    assert(later[earlier.len() + k] == value.walk()[k]);
                }
            }
            first_references(value, &mut spans);
            assert forall|g: int| 0 <= g < count implies first_reference(later, g, #[trigger] spans@[g]) by {
                assert(first_reference(earlier, g, before[g]));
                assert(earliest(value.walk(), g, before[g], spans@[g]));
                earliest_of_both(earlier, value.walk(), g, None, before[g], spans@[g]);
            }
        }
        let ghost before = spans@;
        let ghost earlier = walk_assignments(listed);
        proof {
            assert(listed.take(listed.len() as int) =~= listed);
            assert forall|k: int| 0 <= k < body.result.walk().len() implies ((#[trigger] body.result.walk()[k]).kind matches
                Kind::Global(id) ==> id.0 < count) by {
                assert(body.walk()[earlier.len() + k] == body.result.walk()[k]);
            }
        }
        first_references(&body.result, &mut spans);
        assert forall|g: int| 0 <= g < count implies first_reference(body.walk(), g, #[trigger] spans@[g]) by {
            assert(first_reference(earlier, g, before[g]));
            assert(earliest(body.result.walk(), g, before[g], spans@[g]));
            earliest_of_both(earlier, body.result.walk(), g, None, before[g], spans@[g]);
        }
        spans
    }
}

/// Whether `name` is a legal variable name: one that `parses` as a variable.
/// The empty name is not, whatever it parses as.
pub fn is_legal_variable_name<F: Fn(&str) -> bool>(name: &str, parses: F) -> (legal: bool)
    requires
        name@.len() > 0 ==> call_requires(parses, (name,)),
    ensures
        name@.len() == 0 ==> !legal,
        name@.len() > 0 ==> call_ensures(parses, (name,), legal),
{
    !name.is_empty() && parses(name)
}

} // verus!
