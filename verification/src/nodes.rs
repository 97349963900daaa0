//! Named expressions compiled together: one node per expression, each carrying
//! its edges, in an order that evaluates.
//!
//! A document declares inputs, outputs produced elsewhere, and expressions over
//! both, including over each other. [`compile_system`] sees what the set says
//! that one expression cannot: that an output depends on itself, that a
//! constraint has been read as a number, or that an output which names only
//! other outputs is nonetheless decidable from the inputs alone. It reports
//! every problem it can find in one pass under the name it belongs to, and
//! hands back a [`CompiledNode`] per expression.

use vstd::prelude::*;
use crate::diagnostics::{CompilationFailure, Fault, NamedProblem, Problem, ProblemKind, Span, SystemCompilationFailure};
use crate::frontend::{first_reference, located, precedes, refers_to, Ast};
use crate::graph::{
    acyclic, closed, closings, closings_of, evaluation_order, everything_read_comes_before, is_evaluation_order,
    no_closing_no_cycle, ranked, targets, Closing,
};
use crate::text::{contents, copies, same_text};

verus! {

/// A name a node reads, tagged by which of the three lists declared it.
#[derive(Debug, Clone, PartialEq, Eq)]
pub enum Symbol {
    /// A coordinate of the design vector.
    Input(String),
    /// Produced elsewhere; declared so that expressions may name it.
    External(String),
    /// Another expression's result.
    Output(String),
}

/// A symbol's list and name.
pub ghost enum Name {
    Input(Seq<char>),
    External(Seq<char>),
    Output(Seq<char>),
}

impl View for Symbol {
    type V = Name;

    open spec fn view(&self) -> Name {
        match self {
            Symbol::Input(name) => Name::Input(name@),
            Symbol::External(name) => Name::External(name@),
            Symbol::Output(name) => Name::Output(name@),
        }
    }
}

impl Name {
    pub open spec fn text(self) -> Seq<char> {
        match self {
            Name::Input(name) => name,
            Name::External(name) => name,
            Name::Output(name) => name,
        }
    }
}

impl Symbol {
    pub fn name(&self) -> (name: &str)
        ensures
            name@ == self@.text(),
    {
        match self {
            Symbol::Input(name) => name.as_str(),
            Symbol::External(name) => name.as_str(),
            Symbol::Output(name) => name.as_str(),
        }
    }
}

/// The names of a list of symbols.
pub open spec fn named(symbols: Seq<Symbol>) -> Seq<Name> {
    symbols.map_values(|symbol: Symbol| symbol@)
}

/// One expression, compiled against the system it was declared in. `E` is what
/// a bound expression compiles to.
#[derive(Debug, Clone)]
pub struct CompiledNode<E> {
    pub name: String,
    pub reads: Vec<Symbol>,
    pub expression: E,
    pub cheap: bool,
}

impl<E> CompiledNode<E> {
    /// The output name this expression defines.
    pub fn name(&self) -> (name: &str)
        ensures
            name@ == self.name@,
    {
        self.name.as_str()
    }

    /// What this node reads: the edges into it, and the rows its expression
    /// takes, in this order. The inputs it reads (every input, if it has a
    /// computed subscript) in declaration order; then the externals it names;
    /// then the outputs it names; each in declaration order.
    pub fn reads(&self) -> (reads: &Vec<Symbol>)
        ensures
            *reads == self.reads,
    {
        &self.reads
    }

    /// What the expression compiled to, over rows laid out as the reads.
    pub fn expression(&self) -> (expression: &E)
        ensures
            *expression == self.expression,
    {
        &self.expression
    }

    /// Whether everything this node depends on, transitively, is an input, so
    /// that it can be evaluated before anything external is asked for.
    pub fn is_cheap(&self) -> (cheap: bool)
        ensures
            cheap == self.cheap,
    {
        self.cheap
    }
}

/// The variables an expression is bound against, in order.
#[derive(Debug)]
pub struct Schema {
    pub inputs: Vec<String>,
    /// Named, but out of reach of a subscript.
    pub intermediates: Vec<String>,
}

/// What became of one expression's source.
pub ghost enum Outcome {
    /// Its name was declared before; it is reported and not compiled.
    Repeated,
    /// It did not parse.
    Refused(Seq<Problem>),
    /// It parsed to this, and a literal subscript is past the inputs.
    Faulty(Fault, Ast),
    Parsed(Ast),
}

/// A document: three lists, one namespace.
pub ghost struct Document {
    pub inputs: Seq<Seq<char>>,
    pub externals: Seq<Seq<char>>,
    pub names: Seq<Seq<char>>,
    pub sources: Seq<Seq<char>>,
}

/// A document as it was declared.
pub open spec fn document(inputs: Seq<String>, externals: Seq<String>, expressions: Seq<(String, String)>) -> Document {
    Document {
        inputs: contents(inputs),
        externals: contents(externals),
        names: expressions.map_values(|expression: (String, String)| expression.0@),
        sources: expressions.map_values(|expression: (String, String)| expression.1@),
    }
}

/// Where a text first is in a list, or the list's length.
pub open spec fn first_in(list: Seq<Seq<char>>, text: Seq<char>) -> int
    decreases list.len(),
{
    if list.len() == 0 || list[0] == text {
        0
    } else {
        1 + first_in(list.skip(1), text)
    }
}

proof fn first_in_is(list: Seq<Seq<char>>, text: Seq<char>, at: int)
    requires
        0 <= at <= list.len(),
        forall|i: int| 0 <= i < at ==> list[i] != text,
        at < list.len() ==> list[at] == text,
    ensures
        first_in(list, text) == at,
    decreases list.len(),
{
    if at > 0 {
        assert forall|i: int| 0 <= i < at - 1 implies list.skip(1)[i] != text by {
            assert(list.skip(1)[i] == list[i + 1]);
        }
        first_in_is(list.skip(1), text, at - 1);
    }
}

pub proof fn first_in_has(list: Seq<Seq<char>>, text: Seq<char>)
    ensures
        0 <= first_in(list, text) <= list.len(),
        forall|i: int| 0 <= i < first_in(list, text) ==> list[i] != text,
        first_in(list, text) < list.len() ==> list[first_in(list, text)] == text,
    decreases list.len(),
{
    if list.len() > 0 && list[0] != text {
        let rest = list.skip(1);
        first_in_has(rest, text);
        assert forall|i: int| 0 <= i < first_in(list, text) implies list[i] != text by {
            if i > 0 {
                assert(rest[i - 1] == list[i]);
            }
        }
        if first_in(rest, text) < rest.len() {
            assert(rest[first_in(rest, text)] == list[first_in(rest, text) + 1]);
        }
    }
}

/// The span of all of a text: where a problem with no narrower place goes.
pub open spec fn whole_of(source: Seq<char>) -> Span {
    Span {
        start: 0,
        end: if source.len() <= u32::MAX {
            source.len() as u32
        } else {
            u32::MAX
        },
    }
}

fn whole(source: &str) -> (span: Span)
    ensures
        span == whole_of(source@),
{
    let count: usize = source.unicode_len();
    if count as u64 <= 0xffff_ffff {
        Span::new(0, count as u32)
    } else {
        Span::new(0, 0xffff_ffff)
    }
}

/// What a problem of the document says.
pub ghost enum Complaint {
    Duplicate(Seq<char>),
    ConstraintAsValue(Seq<char>),
    Unbound(Seq<char>),
    Cycle(Seq<Seq<char>>),
    Other(ProblemKind),
}

pub open spec fn complains(kind: ProblemKind, complaint: Complaint) -> bool {
    match complaint {
        Complaint::Duplicate(text) => kind matches ProblemKind::Duplicate { name } && name@ == text,
        Complaint::ConstraintAsValue(text) => kind matches ProblemKind::ConstraintAsValue { name } && name@ == text,
        Complaint::Unbound(text) => kind matches ProblemKind::Unbound { name } && name@ == text,
        Complaint::Cycle(names) => kind matches ProblemKind::Cycle { chain } && contents(chain@) == names,
        Complaint::Other(other) => kind == other,
    }
}

/// One problem to be reported.
pub ghost enum Report {
    /// A problem found here: under a name, at a span of a source.
    Found { name: Seq<char>, complaint: Complaint, source: Seq<char>, span: Span },
    /// A problem of a parse, handed on.
    Passed { name: Seq<char>, problem: Problem },
}

pub open spec fn says(problem: NamedProblem, report: Report) -> bool {
    match report {
        Report::Found { name, complaint, source, span } => {
            &&& problem.name@ == name
            &&& complains(problem.problem.kind, complaint)
            &&& located(problem.problem, problem.problem.kind, source, span)
        },
        Report::Passed { name, problem: given } => problem.name@ == name && problem.problem == given,
    }
}

/// Whether the problems are the reports, one for one.
pub open spec fn says_all(problems: Seq<NamedProblem>, reports: Seq<Report>) -> bool {
    &&& problems.len() == reports.len()
    &&& forall|i: int| 0 <= i < reports.len() ==> says(#[trigger] problems[i], reports[i])
}

impl Document {
    /// Every declared name: inputs, then externals, then outputs.
    pub open spec fn declared(self) -> Seq<Seq<char>> {
        self.inputs + self.externals + self.names
    }

    /// Whether the `k`th declared name was declared before.
    pub open spec fn repeats(self, k: int) -> bool {
        first_in(self.declared(), self.declared()[k]) < k
    }

    /// Whether an expression's name was declared before.
    pub open spec fn output_repeats(self, index: int) -> bool {
        self.repeats(self.inputs.len() + self.externals.len() + index)
    }

    /// A name declared twice: at its second definition where that is an
    /// expression, and nowhere otherwise.
    pub open spec fn duplicate_reports(self, upto: int) -> Seq<Report>
        decreases upto,
    {
        if upto <= 0 {
            Seq::empty()
        } else {
            let k = upto - 1;
            let before = self.duplicate_reports(k);
            if self.repeats(k) {
                let name = self.declared()[k];
                let index = k - self.inputs.len() - self.externals.len();
                let (source, span) = if index < 0 {
                    (Seq::empty(), Span { start: 0, end: 0 })
                } else {
                    (self.sources[index], whole_of(self.sources[index]))
                };
                before.push(Report::Found { name, complaint: Complaint::Duplicate(name), source, span })
            } else {
                before
            }
        }
    }

    /// What the parses reported.
    pub open spec fn parse_reports(self, outcomes: Seq<Outcome>, upto: int) -> Seq<Report>
        decreases upto,
    {
        if upto <= 0 {
            Seq::empty()
        } else {
            let index = upto - 1;
            let before = self.parse_reports(outcomes, index);
            match outcomes[index] {
                Outcome::Repeated => before,
                Outcome::Parsed(_) => before,
                Outcome::Refused(problems) => before + problems.map_values(
                    |problem: Problem| Report::Passed { name: self.names[index], problem },
                ),
                Outcome::Faulty(fault, _) => before.push(
                    Report::Found {
                        name: self.names[index],
                        complaint: Complaint::Other(fault.kind),
                        source: self.sources[index],
                        span: fault.span,
                    },
                ),
            }
        }
    }

    /// Which output a text names, if no input and no external has the name.
    pub open spec fn output_named(self, text: Seq<char>) -> Option<int> {
        if self.inputs.contains(text) || self.externals.contains(text) || !self.names.contains(text) {
            None
        } else {
            Some(first_in(self.names, text))
        }
    }
}

/// Whether an expression came out as a constraint.
pub open spec fn is_constraint(outcome: Option<Ast>) -> bool {
    outcome matches Some(ast) && ast.is_constraint
}

/// Where the `g`th symbol of an expression is first referenced, or the whole
/// source.
pub open spec fn reference_span(ast: Ast, g: int, source: Seq<char>) -> Span {
    match choose|found: Option<Span>| first_reference(ast.program.body.walk(), g, found) {
        Some(span) => span,
        None => whole_of(source),
    }
}

impl Document {
    /// What one symbol of one expression is reported as: a constraint read as a
    /// value, or a name nothing declares.
    pub open spec fn symbol_reports(self, parsed: Seq<Option<Ast>>, index: int, ast: Ast, upto: int) -> Seq<Report>
        decreases upto,
    {
        if upto <= 0 {
            Seq::empty()
        } else {
            let g = upto - 1;
            let before = self.symbol_reports(parsed, index, ast, g);
            let text = ast.symbols@[g]@;
            let span = reference_span(ast, g, self.sources[index]);
            let name = self.names[index];
            let source = self.sources[index];
            if self.inputs.contains(text) || self.externals.contains(text) {
                before
            } else {
                match self.output_named(text) {
                    Some(at) => if is_constraint(parsed[at]) {
                        before.push(
                            Report::Found { name, complaint: Complaint::ConstraintAsValue(text), source, span },
                        )
                    } else {
                        before
                    },
                    None => before.push(Report::Found { name, complaint: Complaint::Unbound(text), source, span }),
                }
            }
        }
    }

    /// What the symbols of all expressions are reported as.
    pub open spec fn binding_reports(self, parsed: Seq<Option<Ast>>, upto: int) -> Seq<Report>
        decreases upto,
    {
        if upto <= 0 {
            Seq::empty()
        } else {
            let index = upto - 1;
            let before = self.binding_reports(parsed, index);
            match parsed[index] {
                Some(ast) => before + self.symbol_reports(
                    parsed,
                    index,
                    ast,
                    ast.symbols@.len() as int,
                ),
                _ => before,
            }
        }
    }

    /// The outputs one expression reads, with the spans of the references, in
    /// symbol order. A constraint read as a value is an edge too: the reader
    /// depends on it all the same.
    pub open spec fn symbol_edges(self, parsed: Seq<Option<Ast>>, index: int, ast: Ast, upto: int) -> Seq<(int, Span)>
        decreases upto,
    {
        if upto <= 0 {
            Seq::empty()
        } else {
            let g = upto - 1;
            let before = self.symbol_edges(parsed, index, ast, g);
            match self.output_named(ast.symbols@[g]@) {
                Some(at) => before.push((at, reference_span(ast, g, self.sources[index]))),
                None => before,
            }
        }
    }

    /// The edges into one expression; none for one that did not parse.
    pub open spec fn edges(self, parsed: Seq<Option<Ast>>, index: int) -> Seq<(int, Span)> {
        match parsed[index] {
            Some(ast) => self.symbol_edges(parsed, index, ast, ast.symbols@.len() as int),
            _ => Seq::empty(),
        }
    }

    /// The graph of outputs.
    pub open spec fn graph(self, parsed: Seq<Option<Ast>>) -> Seq<Seq<int>> {
        Seq::new(
            parsed.len(),
            |index: int| self.edges(parsed, index).map_values(|edge: (int, Span)| edge.0),
        )
    }

    /// Whether an expression names a text.
    pub open spec fn mentions(ast: Ast, text: Seq<char>) -> bool {
        contents(ast.symbols@).contains(text)
    }

    /// The first inputs one expression reads: those it names, or all where the
    /// row decides a subscript.
    pub open spec fn input_reads(self, ast: Ast, upto: int) -> Seq<Name>
        decreases upto,
    {
        if upto <= 0 {
            Seq::empty()
        } else {
            let k = upto - 1;
            let before = self.input_reads(ast, k);
            let text = self.inputs[k];
            if ast.contains_dynamic_lookup || (first_in(self.inputs, text) == k && Document::mentions(ast, text)) {
                before.push(Name::Input(text))
            } else {
                before
            }
        }
    }

    /// The first externals one expression names.
    pub open spec fn external_reads(self, ast: Ast, upto: int) -> Seq<Name>
        decreases upto,
    {
        if upto <= 0 {
            Seq::empty()
        } else {
            let k = upto - 1;
            let before = self.external_reads(ast, k);
            let text = self.externals[k];
            if first_in(self.externals, text) == k && !self.inputs.contains(text) && Document::mentions(ast, text) {
                before.push(Name::External(text))
            } else {
                before
            }
        }
    }

    /// The first outputs one expression reads.
    pub open spec fn output_reads(self, parsed: Seq<Option<Ast>>, ast: Ast, upto: int) -> Seq<Name>
        decreases upto,
    {
        if upto <= 0 {
            Seq::empty()
        } else {
            let k = upto - 1;
            let before = self.output_reads(parsed, ast, k);
            let text = self.names[k];
            if self.output_named(text) == Some(k) && !is_constraint(parsed[k]) && Document::mentions(ast, text) {
                before.push(Name::Output(text))
            } else {
                before
            }
        }
    }

    /// Everything one expression reads, in canonical order.
    pub open spec fn reads(self, parsed: Seq<Option<Ast>>, index: int) -> Seq<Name> {
        match parsed[index] {
            Some(ast) => self.input_reads(ast, self.inputs.len() as int) + self.external_reads(
                ast,
                self.externals.len() as int,
            ) + self.output_reads(parsed, ast, self.names.len() as int),
            _ => Seq::empty(),
        }
    }

    /// Whether one expression names an external.
    pub open spec fn reads_an_external(self, parsed: Seq<Option<Ast>>, index: int) -> bool {
        parsed[index] matches Some(ast) && self.external_reads(ast, self.externals.len() as int).len() > 0
    }

    /// The cycle a closing reference is reported as: under the expression whose
    /// reference it is, at that reference.
    pub open spec fn cycle_report(self, parsed: Seq<Option<Ast>>, closing: Closing) -> Report {
        Report::Found {
            name: self.names[closing.node as int],
            complaint: Complaint::Cycle(closing.chain@.map_values(|n: usize| self.names[n as int])),
            source: self.sources[closing.node as int],
            span: self.edges(parsed, closing.node as int)[closing.reference as int].1,
        }
    }

    /// What a set of parses has to be: one place per expression, and what
    /// parsed well formed.
    pub open spec fn accepts(self, parsed: Seq<Option<Ast>>) -> bool {
        &&& parsed.len() == self.names.len() == self.sources.len()
        &&& forall|i: int|
            0 <= i < parsed.len() ==> ((#[trigger] parsed[i]) matches Some(ast) ==> ast.well_formed())
    }
}

// ---- analysis ----

/// Where a text first is in a list.
pub fn position(list: &Vec<String>, text: &str) -> (at: Option<usize>)
    ensures
        match at {
            Some(i) => i == first_in(contents(list@), text@) && i < list@.len() && contents(list@).contains(text@),
            None => first_in(contents(list@), text@) == list@.len() && !contents(list@).contains(text@),
        },
{
    let ghost all = contents(list@);
    for i in 0..list.len()
        invariant
            all == contents(list@),
            forall|j: int| 0 <= j < i ==> all[j] != text@,
    {
        if same_text(list[i].as_str(), text) {
            proof {
                assert(all[i as int] == text@);
                first_in_is(all, text@, i as int);
            }
            return Some(i);
        }
        assert(all[i as int] != text@);
    }
    proof {
        first_in_is(all, text@, list@.len() as int);
    }
    None
}

fn found(name: &str, kind: ProblemKind, source: &str, span: Span) -> (problem: NamedProblem)
    ensures
        problem.name@ == name@,
        located(problem.problem, kind, source@, span),
{
    NamedProblem { name: name.to_owned(), problem: Problem::new(kind, source, span) }
}

proof fn saying_more(problems: Seq<NamedProblem>, reports: Seq<Report>, problem: NamedProblem, report: Report)
    requires
        says_all(problems, reports),
        says(problem, report),
    ensures
        says_all(problems.push(problem), reports.push(report)),
{
}

proof fn saying_both(a: Seq<NamedProblem>, x: Seq<Report>, b: Seq<NamedProblem>, y: Seq<Report>)
    requires
        says_all(a, x),
        says_all(b, y),
    ensures
        says_all(a + b, x + y),
{
    assert forall|i: int| 0 <= i < (x + y).len() implies says(#[trigger] (a + b)[i], (x + y)[i]) by {
        if i < x.len() {
            assert(says(a[i], x[i]));
        } else {
            assert(says(b[i - x.len()], y[i - x.len()]));
        }
    }
}

/// Every declared name, in order.
fn all_declared(inputs: &Vec<String>, externals: &Vec<String>, expressions: &Vec<(String, String)>) -> (all: Vec<String>)
    ensures
        contents(all@) == document(inputs@, externals@, expressions@).declared(),
{
    let ghost doc = document(inputs@, externals@, expressions@);
    let mut all: Vec<String> = Vec::new();
    for i in 0..inputs.len()
        invariant
            contents(all@) =~= contents(inputs@).take(i as int),
    {
        let ghost before = all@;
        let name = inputs[i].as_str().to_owned();
        all.push(name);
        assert(contents(all@) =~= contents(before).push(contents(inputs@)[i as int]));
    }
    let ghost first = contents(all@);
    assert(first =~= doc.inputs);
    for i in 0..externals.len()
        invariant
            contents(all@) =~= first + contents(externals@).take(i as int),
    {
        let ghost before = all@;
        let name = externals[i].as_str().to_owned();
        all.push(name);
        assert(contents(all@) =~= contents(before).push(contents(externals@)[i as int]));
    }
    let ghost second = contents(all@);
    assert(second =~= doc.inputs + doc.externals);
    for i in 0..expressions.len()
        invariant
            doc == document(inputs@, externals@, expressions@),
            contents(all@) =~= second + doc.names.take(i as int),
    {
        let ghost before = all@;
        let name = expressions[i].0.as_str().to_owned();
        all.push(name);
        assert(contents(all@) =~= contents(before).push(doc.names[i as int]));
    }
    assert(contents(all@) =~= doc.declared());
    all
}

/// The names declared twice, and which of the expressions have one.
pub fn duplicates(inputs: &Vec<String>, externals: &Vec<String>, expressions: &Vec<(String, String)>) -> (result: (
    Vec<NamedProblem>,
    Vec<bool>,
))
    ensures
        ({
            let doc = document(inputs@, externals@, expressions@);
            &&& says_all(result.0@, doc.duplicate_reports(doc.declared().len() as int))
            &&& result.1@.len() == expressions@.len()
            &&& forall|i: int| 0 <= i < expressions@.len() ==> #[trigger] result.1@[i] == doc.output_repeats(i)
        }),
{
    let ghost doc = document(inputs@, externals@, expressions@);
    let all = all_declared(inputs, externals, expressions);
    let ghost declared = doc.declared();
    let mut problems: Vec<NamedProblem> = Vec::new();
    let mut repeated: Vec<bool> = Vec::new();
    let count: usize = all.len();
    let rest: usize = expressions.len();
    assert(contents(all@).len() == inputs@.len() + externals@.len() + expressions@.len());
    let offset: usize = count - rest;
    for k in 0..count
        invariant
            doc == document(inputs@, externals@, expressions@),
            declared == doc.declared(),
            declared == contents(all@),
            count == all@.len() == declared.len(),
            rest == expressions@.len(),
            offset == inputs@.len() + externals@.len(),
            count == offset + rest,
            says_all(problems@, doc.duplicate_reports(k as int)),
            repeated@.len() == (if k < offset {
                0
            } else {
                k - offset
            }),
            forall|i: int| 0 <= i < repeated@.len() ==> #[trigger] repeated@[i] == doc.output_repeats(i),
    {
        let name = all[k].as_str();
        assert(declared[k as int] == name@);
        let again = match position(&all, name) {
            Some(at) => at < k,
            None => false,
        };
        proof {
            first_in_has(declared, name@);
            assert(declared.contains(name@));
        }
        assert(again == doc.repeats(k as int));
        let ghost before = problems@;
        if again {
            let kind = ProblemKind::Duplicate { name: name.to_owned() };
            let problem = if k < offset {
                found(name, kind, "", Span::new(0, 0))
            } else {
                let source = expressions[k - offset].1.as_str();
                found(name, kind, source, whole(source))
            };
            problems.push(problem);
            proof {
                reveal_strlit("");
                assert(""@ =~= Seq::<char>::empty());
                let reports = doc.duplicate_reports(k + 1);
                assert(reports == doc.duplicate_reports(k as int).push(reports.last()));
                saying_more(before, doc.duplicate_reports(k as int), problem, reports.last());
            }
        }
        if k >= offset {
            repeated.push(again);
        }
    }
    (problems, repeated)
}

/// A span is where one global is first referenced in one way only.
proof fn one_first_reference(nodes: Seq<crate::ast::Expr>, g: int, a: Option<Span>, b: Option<Span>)
    requires
        first_reference(nodes, g, a),
        first_reference(nodes, g, b),
    ensures
        a == b,
{
    if a is Some {
        let i = choose|i: int| 0 <= i < nodes.len() && refers_to(#[trigger] nodes[i], g) && nodes[i].span == a->0;
        assert(refers_to(nodes[i], g));
        if b is Some {
            let j = choose|j: int| 0 <= j < nodes.len() && refers_to(#[trigger] nodes[j], g) && nodes[j].span == b->0;
            assert(refers_to(nodes[j], g));
            assert(!precedes(a->0, b->0));
            assert(!precedes(b->0, a->0));
        }
    } else if b is Some {
        let j = choose|j: int| 0 <= j < nodes.len() && refers_to(#[trigger] nodes[j], g) && nodes[j].span == b->0;
        assert(refers_to(nodes[j], g));
    }
}

/// The names of the expressions.
fn output_names(expressions: &Vec<(String, String)>) -> (names: Vec<String>)
    ensures
        contents(names@) == expressions@.map_values(|expression: (String, String)| expression.0@),
{
    let ghost all = expressions@.map_values(|expression: (String, String)| expression.0@);
    let mut names: Vec<String> = Vec::new();
    for i in 0..expressions.len()
        invariant
            all == expressions@.map_values(|expression: (String, String)| expression.0@),
            contents(names@) =~= all.take(i as int),
    {
        let ghost before = names@;
        let name = expressions[i].0.as_str().to_owned();
        names.push(name);
        assert(contents(names@) =~= contents(before).push(all[i as int]));
    }
    assert(contents(names@) =~= all);
    names
}

/// The edges of a list, as the graph has them.
pub open spec fn edge_list(list: Seq<(usize, Span)>) -> Seq<(int, Span)> {
    list.map_values(|edge: (usize, Span)| (edge.0 as int, edge.1))
}

/// Binds the symbols of one expression: its edges to other outputs, and what is
/// wrong with its names.
fn bind_symbols(
    inputs: &Vec<String>,
    externals: &Vec<String>,
    expressions: &Vec<(String, String)>,
    names: &Vec<String>,
    parsed: &Vec<Option<Ast>>,
    index: usize,
    ast: &Ast,
    problems: &mut Vec<NamedProblem>,
    reports: Ghost<Seq<Report>>,
) -> (edges: Vec<(usize, Span)>)
    requires
        document(inputs@, externals@, expressions@).accepts(parsed@),
        contents(names@) == document(inputs@, externals@, expressions@).names,
        index < parsed@.len(),
        parsed@[index as int] == Some(*ast),
        says_all(old(problems)@, reports@),
    ensures
        ({
            let doc = document(inputs@, externals@, expressions@);
            let count = ast.symbols@.len() as int;
            &&& says_all(final(problems)@, reports@ + doc.symbol_reports(parsed@, index as int, *ast, count))
            &&& edge_list(edges@) == doc.edges(parsed@, index as int)
            &&& forall|k: int| 0 <= k < edges@.len() ==> (#[trigger] edges@[k]).0 < parsed@.len()
        }),
{
    let ghost doc = document(inputs@, externals@, expressions@);
    let name = expressions[index].0.as_str();
    let source = expressions[index].1.as_str();
    assert(name@ == doc.names[index as int]);
    assert(source@ == doc.sources[index as int]);
    let spans = ast.reference_spans();
    let mut edges: Vec<(usize, Span)> = Vec::new();
    assert(reports@ + doc.symbol_reports(parsed@, index as int, *ast, 0) =~= reports@);
    assert(edge_list(edges@) =~= Seq::empty());
    for g in 0..ast.symbols.len()
        invariant
            doc == document(inputs@, externals@, expressions@),
            doc.accepts(parsed@),
            contents(names@) == doc.names,
            index < parsed@.len(),
            parsed@[index as int] == Some(*ast),
            name@ == doc.names[index as int],
            source@ == doc.sources[index as int],
            spans@.len() == ast.symbols@.len(),
            forall|h: int|
                0 <= h < spans@.len() ==> first_reference(ast.program.body.walk(), h, #[trigger] spans@[h]),
            says_all(problems@, reports@ + doc.symbol_reports(parsed@, index as int, *ast, g as int)),
            edge_list(edges@) == doc.symbol_edges(parsed@, index as int, *ast, g as int),
            forall|k: int| 0 <= k < edges@.len() ==> (#[trigger] edges@[k]).0 < parsed@.len(),
    {
        let symbol = ast.symbols[g].as_str();
        let span = match spans[g] {
            Some(span) => span,
            None => whole(source),
        };
        proof {
            let walk = ast.program.body.walk();
            let chosen = choose|found: Option<Span>| first_reference(walk, g as int, found);
            assert(first_reference(walk, g as int, spans@[g as int]));
            one_first_reference(walk, g as int, spans@[g as int], chosen);
            assert(span == reference_span(*ast, g as int, source@));
        }
        let ghost before = problems@;
        let ghost earlier = reports@ + doc.symbol_reports(parsed@, index as int, *ast, g as int);
        let ghost listed = edges@;
        let ghost later = doc.symbol_reports(parsed@, index as int, *ast, g + 1);
        let in_inputs = position(inputs, symbol).is_some();
        let in_externals = position(externals, symbol).is_some();
        if !in_inputs && !in_externals {
            match position(names, symbol) {
                Some(at) => {
                    assert(doc.output_named(symbol@) == Some(at as int));
                    let constraint = match &parsed[at] {
                        Some(other) => other.is_constraint,
                        None => false,
                    };
                    if constraint {
                        let kind = ProblemKind::ConstraintAsValue { name: symbol.to_owned() };
                        let problem = found(name, kind, source, span);
                        problems.push(problem);
                        proof {
                            saying_more(before, earlier, problem, later.last());
                            assert(earlier.push(later.last()) =~= reports@ + later);
                        }
                    }
                    edges.push((at, span));
                    assert(edge_list(edges@) =~= edge_list(listed).push((at as int, span)));
                },
                None => {
                    assert(doc.output_named(symbol@) is None);
                    let kind = ProblemKind::Unbound { name: symbol.to_owned() };
                    let problem = found(name, kind, source, span);
                    problems.push(problem);
                    proof {
                        saying_more(before, earlier, problem, later.last());
                        assert(earlier.push(later.last()) =~= reports@ + later);
                    }
                },
            }
        } else {
            assert(doc.output_named(symbol@) is None);
        }
    }
    edges
}

/// What one expression reads, in canonical order, and whether that is an
/// external anywhere.
fn list_reads(
    inputs: &Vec<String>,
    externals: &Vec<String>,
    names: &Vec<String>,
    parsed: &Vec<Option<Ast>>,
    ast: &Ast,
    doc: Ghost<Document>,
) -> (result: (Vec<Symbol>, bool))
    requires
        doc@.inputs == contents(inputs@),
        doc@.externals == contents(externals@),
        doc@.names == contents(names@),
        doc@.accepts(parsed@),
    ensures
        named(result.0@) == doc@.input_reads(*ast, doc@.inputs.len() as int) + doc@.external_reads(
            *ast,
            doc@.externals.len() as int,
        ) + doc@.output_reads(parsed@, *ast, doc@.names.len() as int),
        result.1 == (doc@.external_reads(*ast, doc@.externals.len() as int).len() > 0),
{
    let mut reads: Vec<Symbol> = Vec::new();
    let mut external = false;
    assert(named(reads@) =~= Seq::empty());
    for k in 0..inputs.len()
        invariant
            doc@.inputs == contents(inputs@),
            named(reads@) == doc@.input_reads(*ast, k as int),
    {
        let ghost before = reads@;
        let text = inputs[k].as_str();
        assert(doc@.inputs[k as int] == text@);
        let first = match position(inputs, text) {
            Some(at) => at == k,
            None => false,
        };
        proof {
            first_in_has(doc@.inputs, text@);
            assert(doc@.inputs.contains(text@));
        }
        if ast.contains_dynamic_lookup || (first && position(&ast.symbols, text).is_some()) {
            let symbol = Symbol::Input(text.to_owned());
            reads.push(symbol);
            assert(named(reads@) =~= named(before).push(symbol@));
        }
    }
    let ghost first = named(reads@);
    assert(first + doc@.external_reads(*ast, 0) =~= first);
    for k in 0..externals.len()
        invariant
            doc@.inputs == contents(inputs@),
            doc@.externals == contents(externals@),
            named(reads@) == first + doc@.external_reads(*ast, k as int),
            external == (doc@.external_reads(*ast, k as int).len() > 0),
    {
        let ghost before = reads@;
        let text = externals[k].as_str();
        assert(doc@.externals[k as int] == text@);
        let early = match position(externals, text) {
            Some(at) => at == k,
            None => false,
        };
        proof {
            first_in_has(doc@.externals, text@);
            assert(doc@.externals.contains(text@));
        }
        if early && position(inputs, text).is_none() && position(&ast.symbols, text).is_some() {
            let symbol = Symbol::External(text.to_owned());
            reads.push(symbol);
            external = true;
            assert(named(reads@) =~= named(before).push(symbol@));
            assert(named(reads@) =~= first + doc@.external_reads(*ast, k + 1));
        }
    }
    let ghost second = named(reads@);
    assert(second + doc@.output_reads(parsed@, *ast, 0) =~= second);
    for k in 0..names.len()
        invariant
            doc@.inputs == contents(inputs@),
            doc@.externals == contents(externals@),
            doc@.names == contents(names@),
            doc@.accepts(parsed@),
            names@.len() == parsed@.len(),
            named(reads@) == second + doc@.output_reads(parsed@, *ast, k as int),
    {
        let ghost before = reads@;
        let text = names[k].as_str();
        assert(doc@.names[k as int] == text@);
        let early = match position(names, text) {
            Some(at) => at == k,
            None => false,
        };
        proof {
            first_in_has(doc@.names, text@);
            assert(doc@.names.contains(text@));
        }
        let constraint = match &parsed[k] {
            Some(other) => other.is_constraint,
            None => false,
        };
        if early && position(inputs, text).is_none() && position(externals, text).is_none() && !constraint && position(
            &ast.symbols,
            text,
        ).is_some() {
            let symbol = Symbol::Output(text.to_owned());
            reads.push(symbol);
            assert(named(reads@) =~= named(before).push(symbol@));
            assert(named(reads@) =~= second + doc@.output_reads(parsed@, *ast, k + 1));
        }
    }
    (reads, external)
}

/// A document that holds together.
#[derive(Debug)]
pub struct Analysis {
    /// The expressions in an order that evaluates.
    pub order: Vec<usize>,
    /// What each expression reads.
    pub reads: Vec<Vec<Symbol>>,
    /// Which expressions depend on nothing but inputs.
    pub cheap: Vec<bool>,
}

/// Whether `cheap` says of each expression that it reads no external, and no
/// output that is not cheap.
pub open spec fn marks_the_cheap(doc: Document, parsed: Seq<Option<Ast>>, cheap: Seq<bool>) -> bool {
    &&& cheap.len() == parsed.len()
    &&& forall|i: int|
        0 <= i < cheap.len() ==> (#[trigger] cheap[i] <==> !doc.reads_an_external(parsed, i) && forall|k: int|
            0 <= k < doc.graph(parsed)[i].len() ==> cheap[#[trigger] doc.graph(parsed)[i][k]])
}

/// Whether the problems past `given` are those of the names and then one for
/// each closing reference.
pub open spec fn reports_the_rest(
    doc: Document,
    parsed: Seq<Option<Ast>>,
    given: Seq<NamedProblem>,
    problems: Seq<NamedProblem>,
    found: Seq<Closing>,
) -> bool {
    &&& crate::graph::reports(found) == closings_of(doc.graph(parsed))
    &&& forall|i: int| 0 <= i < found.len() ==> (#[trigger] found[i]).sound(doc.graph(parsed))
    &&& exists|rank: spec_fn(int) -> nat| ranked(doc.graph(parsed), found, rank)
    &&& given.is_prefix_of(problems)
    &&& says_all(
        problems.skip(given.len() as int),
        doc.binding_reports(parsed, parsed.len() as int) + found.map_values(
            |closing: Closing| doc.cycle_report(parsed, closing),
        ),
    )
}

/// The problem one closing reference is.
fn cycle_problem(
    expressions: &Vec<(String, String)>,
    edges: &Vec<Vec<(usize, Span)>>,
    closing: &Closing,
    doc: Ghost<Document>,
    parsed: Ghost<Seq<Option<Ast>>>,
) -> (problem: NamedProblem)
    requires
        doc@.names == expressions@.map_values(|expression: (String, String)| expression.0@),
        doc@.sources == expressions@.map_values(|expression: (String, String)| expression.1@),
        edges@.len() == expressions@.len(),
        forall|i: int| 0 <= i < edges@.len() ==> edge_list((#[trigger] edges@[i])@) == doc@.edges(parsed@, i),
        closing.sound(targets(edges@)),
    ensures
        says(problem, doc@.cycle_report(parsed@, *closing)),
{
    let ghost reads = targets(edges@);
    let ghost names = closing.chain@.map_values(|n: usize| doc@.names[n as int]);
    let mut chain: Vec<String> = Vec::new();
    for k in 0..closing.chain.len()
        invariant
            doc@.names == expressions@.map_values(|expression: (String, String)| expression.0@),
            names == closing.chain@.map_values(|n: usize| doc@.names[n as int]),
            expressions@.len() == reads.len(),
            closing.sound(reads),
            contents(chain@) =~= names.take(k as int),
    {
        let ghost before = chain@;
        assert(crate::graph::depends(
            reads,
            closing.chain@[k as int] as int,
            closing.chain@[crate::graph::following(k as int, closing.chain@.len() as int)] as int,
        ));
        let name = expressions[closing.chain[k]].0.as_str().to_owned();
        chain.push(name);
        assert(contents(chain@) =~= contents(before).push(names[k as int]));
    }
    assert(contents(chain@) =~= names);
    let node: usize = closing.node;
    let reference: usize = closing.reference;
    assert(edge_list(edges@[node as int]@) == doc@.edges(parsed@, node as int));
    assert(reads[node as int].len() == edges@[node as int]@.len());
    let span = edges[node][reference].1;
    assert(edge_list(edges@[node as int]@)[reference as int].1 == span);
    found(expressions[node].0.as_str(), ProblemKind::Cycle { chain }, expressions[node].1.as_str(), span)
}

/// One problem per closing reference.
fn cycles(
    expressions: &Vec<(String, String)>,
    edges: &Vec<Vec<(usize, Span)>>,
    doc: Ghost<Document>,
    parsed: Ghost<Seq<Option<Ast>>>,
) -> (result: (Vec<NamedProblem>, Ghost<Seq<Closing>>))
    requires
        doc@.names == expressions@.map_values(|expression: (String, String)| expression.0@),
        doc@.sources == expressions@.map_values(|expression: (String, String)| expression.1@),
        edges@.len() == expressions@.len(),
        targets(edges@) == doc@.graph(parsed@),
        closed(targets(edges@)),
        forall|i: int| 0 <= i < edges@.len() ==> edge_list((#[trigger] edges@[i])@) == doc@.edges(parsed@, i),
    ensures
        crate::graph::reports(result.1@) == closings_of(doc@.graph(parsed@)),
        forall|i: int| 0 <= i < result.1@.len() ==> (#[trigger] result.1@[i]).sound(doc@.graph(parsed@)),
        exists|rank: spec_fn(int) -> nat| ranked(doc@.graph(parsed@), result.1@, rank),
        says_all(result.0@, result.1@.map_values(|closing: Closing| doc@.cycle_report(parsed@, closing))),
{
    let list = closings(edges);
    let ghost reads = targets(edges@);
    let ghost rank = choose|rank: spec_fn(int) -> nat| ranked(reads, list@, rank);
    let ghost reports = list@.map_values(|closing: Closing| doc@.cycle_report(parsed@, closing));
    let mut problems: Vec<NamedProblem> = Vec::new();
    for i in 0..list.len()
        invariant
            doc@.names == expressions@.map_values(|expression: (String, String)| expression.0@),
            doc@.sources == expressions@.map_values(|expression: (String, String)| expression.1@),
            edges@.len() == expressions@.len() == reads.len(),
            reads == targets(edges@),
            forall|j: int| 0 <= j < edges@.len() ==> edge_list((#[trigger] edges@[j])@) == doc@.edges(parsed@, j),
            forall|j: int| 0 <= j < list@.len() ==> (#[trigger] list@[j]).sound(reads),
            reports == list@.map_values(|closing: Closing| doc@.cycle_report(parsed@, closing)),
            says_all(problems@, reports.take(i as int)),
    {
        assert(list@[i as int].sound(reads));
        let problem = cycle_problem(expressions, edges, &list[i], doc, parsed);
        let ghost before = problems@;
        problems.push(problem);
        proof {
            assert(reports[i as int] == doc@.cycle_report(parsed@, list@[i as int]));
            saying_more(before, reports.take(i as int), problem, reports[i as int]);
            assert(reports.take(i as int).push(reports[i as int]) =~= reports.take(i + 1));
        }
    }
    assert(reports.take(list@.len() as int) =~= reports);
    let ghost kept = list@;
    let result = (problems, Ghost(kept));
    assert(ranked(doc@.graph(parsed@), result.1@, rank));
    result
}

/// Which expressions depend on nothing but inputs, worked out in an evaluation
/// order.
fn mark_the_cheap(
    order: &Vec<usize>,
    edges: &Vec<Vec<(usize, Span)>>,
    external: &Vec<bool>,
) -> (cheap: Vec<bool>)
    requires
        closed(targets(edges@)),
        is_evaluation_order(targets(edges@), order@),
        external@.len() == edges@.len(),
    ensures
        cheap@.len() == edges@.len(),
        forall|i: int|
            0 <= i < cheap@.len() ==> (#[trigger] cheap@[i] <==> !external@[i] && forall|k: int|
                0 <= k < targets(edges@)[i].len() ==> cheap@[#[trigger] targets(edges@)[i][k]]),
{
    let ghost reads = targets(edges@);
    let count: usize = edges.len();
    let mut cheap: Vec<bool> = vec![false; count];
    for p in 0..order.len()
        invariant
            reads == targets(edges@),
            closed(reads),
            is_evaluation_order(reads, order@),
            count == edges@.len() == external@.len() == cheap@.len() == reads.len(),
            forall|q: int|
                0 <= q < p ==> (cheap@[#[trigger] order@[q] as int] <==> !external@[order@[q] as int] && forall|k: int|
                    0 <= k < reads[order@[q] as int].len() ==> cheap@[#[trigger] reads[order@[q] as int][k]]),
    {
        let index: usize = order[p];
        assert(crate::graph::ready(reads, order@.take(p as int), order@[p as int] as int));
        let list = &edges[index];
        let length: usize = list.len();
        let mut all = !external[index];
        for k in 0..length
            invariant
                reads == targets(edges@),
                closed(reads),
                count == edges@.len() == cheap@.len() == reads.len(),
                index < count,
                *list == edges@[index as int],
                length == list@.len() == reads[index as int].len(),
                external@.len() == count,
                all <==> !external@[index as int] && forall|j: int|
                    0 <= j < k ==> cheap@[#[trigger] reads[index as int][j]],
        {
            assert(reads[index as int][k as int] == list@[k as int].0);
            all = all && cheap[list[k].0];
        }
        let ghost before = cheap@;
        cheap.set(index, all);
        proof {
            assert forall|q: int| 0 <= q < p + 1 implies (cheap@[#[trigger] order@[q] as int] <==> !external@[order@[q] as int]
                && forall|k: int|
                0 <= k < reads[order@[q] as int].len() ==> cheap@[#[trigger] reads[order@[q] as int][k]]) by {
                let v = order@[q] as int;
                assert(crate::graph::ready(reads, order@.take(q), order@[q] as int));
                assert forall|k: int| 0 <= k < reads[v].len() implies cheap@[#[trigger] reads[v][k]] == before[reads[v][k]] by {
                    everything_read_comes_before(reads, order@, q, k);
                    let r = choose|r: int| 0 <= r < q && (#[trigger] order@[r]) == reads[v][k];
                    assert(order@[r] != order@[p as int]);
                }
                if q < p {
                    assert(order@[q] != order@[p as int]);
                    assert(before[order@[q] as int] <==> !external@[order@[q] as int] && forall|k: int|
                        0 <= k < reads[order@[q] as int].len() ==> before[#[trigger] reads[order@[q] as int][k]]);
                }
            }
        }
    }
    proof {
        assert forall|i: int| 0 <= i < cheap@.len() implies (#[trigger] cheap@[i] <==> !external@[i] && forall|k: int|
            0 <= k < reads[i].len() ==> cheap@[#[trigger] reads[i][k]]) by {
            crate::graph::an_order_has_everyone(reads, order@, i);
            let q = choose|q: int| 0 <= q < order@.len() && (#[trigger] order@[q]) == i;
            assert(order@[q] == i);
        }
    }
    cheap
}

/// Whether nothing is wrong with a document past the problems given: no name is
/// misread or unbound, and nothing depends on itself.
pub open spec fn holds_together(doc: Document, parsed: Seq<Option<Ast>>) -> bool {
    doc.binding_reports(parsed, parsed.len() as int).len() == 0 && acyclic(doc.graph(parsed))
}

/// Binds the names of every expression that parsed, and orders them.
///
/// `problems` are those found before; what is found here comes after them: for
/// each expression in turn its misread and unbound names, and then the cycles.
/// With none at all, the expressions come back ordered, each with what it reads
/// and whether it is cheap.
#[verifier::spinoff_prover]
pub fn analyse(
    inputs: &Vec<String>,
    externals: &Vec<String>,
    expressions: &Vec<(String, String)>,
    parsed: &Vec<Option<Ast>>,
    problems: Vec<NamedProblem>,
) -> (result: Result<Analysis, SystemCompilationFailure>)
    requires
        document(inputs@, externals@, expressions@).accepts(parsed@),
    ensures
        ({
            let doc = document(inputs@, externals@, expressions@);
            &&& result is Ok <==> problems@.len() == 0 && holds_together(doc, parsed@)
            &&& match result {
                Ok(analysis) => {
                    &&& is_evaluation_order(doc.graph(parsed@), analysis.order@)
                    &&& analysis.reads@.len() == parsed@.len()
                    &&& forall|i: int|
                        0 <= i < parsed@.len() ==> named((#[trigger] analysis.reads@[i])@) == doc.reads(parsed@, i)
                    &&& marks_the_cheap(doc, parsed@, analysis.cheap@)
                },
                Err(failure) => {
                    &&& failure.problems@.len() > 0
                    &&& exists|found: Seq<Closing>| #[trigger]
                        reports_the_rest(doc, parsed@, problems@, failure.problems@, found)
                },
            }
        }),
{
    let ghost doc = document(inputs@, externals@, expressions@);
    let ghost given = problems@;
    let names = output_names(expressions);
    let count: usize = expressions.len();
    let mut more: Vec<NamedProblem> = Vec::new();
    let mut edges: Vec<Vec<(usize, Span)>> = Vec::new();
    let mut reads: Vec<Vec<Symbol>> = Vec::new();
    let mut external: Vec<bool> = Vec::new();
    assert(contents(names@) == doc.names);
    for index in 0..count
        invariant
            doc == document(inputs@, externals@, expressions@),
            doc.accepts(parsed@),
            contents(names@) == doc.names,
            count == expressions@.len() == parsed@.len(),
            says_all(more@, doc.binding_reports(parsed@, index as int)),
            edges@.len() == index,
            reads@.len() == index,
            external@.len() == index,
            forall|i: int| 0 <= i < index ==> edge_list((#[trigger] edges@[i])@) == doc.edges(parsed@, i),
            forall|i: int, k: int|
                0 <= i < index && 0 <= k < edges@[i]@.len() ==> (#[trigger] edges@[i]@[k]).0 < count,
            forall|i: int| 0 <= i < index ==> named((#[trigger] reads@[i])@) == doc.reads(parsed@, i),
            forall|i: int| 0 <= i < index ==> #[trigger] external@[i] == doc.reads_an_external(parsed@, i),
    {
        let ghost before = more@;
        match &parsed[index] {
            Some(ast) => {
                let ghost reports = doc.binding_reports(parsed@, index as int);
                let list = bind_symbols(
                    inputs,
                    externals,
                    expressions,
                    &names,
                    parsed,
                    index,
                    ast,
                    &mut more,
                    Ghost(reports),
                );
                let (listed, outside) = list_reads(inputs, externals, &names, parsed, ast, Ghost(doc));
                edges.push(list);
                reads.push(listed);
                external.push(outside);
            },
            None => {
                let none: Vec<(usize, Span)> = Vec::new();
                let nothing: Vec<Symbol> = Vec::new();
                assert(edge_list(none@) =~= Seq::empty());
                assert(named(nothing@) =~= Seq::empty());
                edges.push(none);
                reads.push(nothing);
                external.push(false);
            },
        }
    }
    let ghost graph = doc.graph(parsed@);
    proof {
        assert(targets(edges@).len() == graph.len());
        assert forall|i: int| 0 <= i < graph.len() implies targets(edges@)[i] == #[trigger] graph[i] by {
            assert(edge_list(edges@[i]@) == doc.edges(parsed@, i));
            assert(targets(edges@)[i] =~= edge_list(edges@[i]@).map_values(|edge: (int, Span)| edge.0));
        }
        assert(targets(edges@) =~= graph);
        assert forall|n: int, k: int| 0 <= n < graph.len() && 0 <= k < graph[n].len() implies 0 <= #[trigger] graph[n][k]
            < graph.len() by {
            assert(graph[n][k] == edges@[n]@[k].0);
        }
    }
    let ghost bound = more@;
    let (mut circles, found) = cycles(expressions, &edges, Ghost(doc), Ghost(parsed@));
    let ghost round = circles@;
    let ghost closing_reports = found@.map_values(|closing: Closing| doc.cycle_report(parsed@, closing));
    let mut all = problems;
    all.append(&mut more);
    all.append(&mut circles);
    proof {
        saying_both(bound, doc.binding_reports(parsed@, count as int), round, closing_reports);
        assert(all@ =~= given + (bound + round));
        assert(all@.skip(given.len() as int) =~= bound + round);
        assert(reports_the_rest(doc, parsed@, given, all@, found@));
    }
    if all.len() > 0 {
        proof {
            if given.len() == 0 && bound.len() == 0 {
                assert(found@[0].sound(graph));
                if acyclic(graph) {
                    crate::graph::acyclic_has_no_cycle(graph, found@[0].chain@);
                }
            }
        }
        let ghost listed = all@;
        let result: Result<Analysis, SystemCompilationFailure> = Err(SystemCompilationFailure { problems: all });
        proof {
            assert(!(given.len() == 0 && holds_together(doc, parsed@)));
            assert(result->Err_0.problems@ == listed);
            assert(reports_the_rest(doc, parsed@, given, listed, found@));
            assert(exists|closing: Seq<Closing>| #[trigger]
                reports_the_rest(doc, parsed@, given, result->Err_0.problems@, closing));
        }
        return result;
    }
    proof {
        no_closing_no_cycle(graph, found@);
    }
    let order = evaluation_order(&edges);
    let cheap = mark_the_cheap(&order, &edges, &external);
    Ok(Analysis { order, reads, cheap })
}

/// Whether a schema has these names.
pub open spec fn has_names(schema: Schema, inputs: Seq<Seq<char>>, intermediates: Seq<Seq<char>>) -> bool {
    contents(schema.inputs@) == inputs && contents(schema.intermediates@) == intermediates
}

/// The texts of the names that are inputs, or of those that are not.
pub open spec fn texts(names: Seq<Name>, inputs: bool) -> Seq<Seq<char>>
    decreases names.len(),
{
    if names.len() == 0 {
        Seq::empty()
    } else {
        let before = texts(names.drop_last(), inputs);
        if (names.last() is Input) == inputs {
            before.push(names.last().text())
        } else {
            before
        }
    }
}

/// Whether a schema has every name an expression mentions.
pub open spec fn names_everything(schema: Schema, ast: Ast) -> bool {
    forall|g: int|
        0 <= g < ast.symbols@.len() ==> contents(schema.inputs@).contains(#[trigger] ast.symbols@[g]@) || contents(
            schema.intermediates@,
        ).contains(ast.symbols@[g]@)
}

/// Whether reading and resolving one expression gave an outcome.
pub open spec fn comes_to<P, Q>(
    parse: P,
    resolve: Q,
    inputs: Seq<Seq<char>>,
    source: String,
    repeats: bool,
    outcome: Outcome,
) -> bool where P: Fn(&String) -> Result<Ast, CompilationFailure>, Q: Fn(&Ast, &Schema) -> Result<Ast, Fault> {
    match outcome {
        Outcome::Repeated => repeats,
        Outcome::Refused(problems) => !repeats && exists|failure: CompilationFailure|
            #[trigger] call_ensures(parse, (&source,), Err::<Ast, CompilationFailure>(failure)) && failure.problems@
                == problems,
        Outcome::Faulty(fault, ast) => !repeats && call_ensures(
            parse,
            (&source,),
            Ok::<Ast, CompilationFailure>(ast),
        ) && exists|schema: Schema|
            {
                &&& has_names(schema, inputs, Seq::empty())
                &&& #[trigger] call_ensures(resolve, (&ast, &schema), Err::<Ast, Fault>(fault))
            },
        Outcome::Parsed(resolved) => !repeats && exists|ast: Ast, schema: Schema|
            {
                &&& call_ensures(parse, (&source,), Ok::<Ast, CompilationFailure>(ast))
                &&& has_names(schema, inputs, Seq::empty())
                &&& #[trigger] call_ensures(resolve, (&ast, &schema), Ok::<Ast, Fault>(resolved))
            },
    }
}

/// Whether each expression came to its outcome.
pub open spec fn all_come_to<P, Q>(
    parse: P,
    resolve: Q,
    doc: Document,
    expressions: Seq<(String, String)>,
    outcomes: Seq<Outcome>,
) -> bool where P: Fn(&String) -> Result<Ast, CompilationFailure>, Q: Fn(&Ast, &Schema) -> Result<Ast, Fault> {
    &&& outcomes.len() == expressions.len()
    &&& forall|i: int|
        0 <= i < outcomes.len() ==> comes_to(
            parse,
            resolve,
            doc.inputs,
            expressions[i].1,
            doc.output_repeats(i),
            #[trigger] outcomes[i],
        )
}

/// What parsed. An expression with a subscript out of range did: what it reads
/// is known all the same.
pub open spec fn parsed_in(outcomes: Seq<Outcome>) -> Seq<Option<Ast>> {
    outcomes.map_values(
        |outcome: Outcome| match outcome {
            Outcome::Parsed(ast) => Some(ast),
            Outcome::Faulty(_, ast) => Some(ast),
            _ => None,
        },
    )
}

/// Whether a parser and a resolver can be asked anything, refuse with a reason,
/// and give what is well formed.
pub open spec fn dependable<P, Q>(parse: P, resolve: Q) -> bool where
    P: Fn(&String) -> Result<Ast, CompilationFailure>,
    Q: Fn(&Ast, &Schema) -> Result<Ast, Fault>,
 {
    &&& forall|source: &String| #[trigger] call_requires(parse, (source,))
    &&& forall|ast: &Ast, schema: &Schema| #[trigger] call_requires(resolve, (ast, schema))
    &&& forall|source: &String, failure: CompilationFailure| #[trigger]
        call_ensures(parse, (source,), Err::<Ast, CompilationFailure>(failure)) ==> failure.problems@.len() > 0
    &&& forall|source: &String, ast: Ast| #[trigger]
        call_ensures(parse, (source,), Ok::<Ast, CompilationFailure>(ast)) ==> ast.well_formed()
    &&& forall|ast: &Ast, schema: &Schema, resolved: Ast| #[trigger]
        call_ensures(resolve, (ast, schema), Ok::<Ast, Fault>(resolved)) ==> resolved.well_formed()
}

/// Everything a document is reported to have wrong, in order: names declared
/// twice, what did not parse, names misread or unbound, cycles.
pub open spec fn all_reports(doc: Document, outcomes: Seq<Outcome>, found: Seq<Closing>) -> Seq<Report> {
    doc.duplicate_reports(doc.declared().len() as int) + doc.parse_reports(outcomes, outcomes.len() as int)
        + doc.binding_reports(parsed_in(outcomes), outcomes.len() as int) + found.map_values(
        |closing: Closing| doc.cycle_report(parsed_in(outcomes), closing),
    )
}

/// Whether a failure reports what is wrong with a document, and no more.
pub open spec fn reports_everything(
    doc: Document,
    outcomes: Seq<Outcome>,
    problems: Seq<NamedProblem>,
    found: Seq<Closing>,
) -> bool {
    &&& crate::graph::reports(found) == closings_of(doc.graph(parsed_in(outcomes)))
    &&& forall|i: int| 0 <= i < found.len() ==> (#[trigger] found[i]).sound(doc.graph(parsed_in(outcomes)))
    &&& exists|rank: spec_fn(int) -> nat| ranked(doc.graph(parsed_in(outcomes)), found, rank)
    &&& says_all(problems, all_reports(doc, outcomes, found))
}

/// Whether nothing is wrong with a document.
pub open spec fn sound(doc: Document, outcomes: Seq<Outcome>) -> bool {
    &&& doc.duplicate_reports(doc.declared().len() as int).len() == 0
    &&& doc.parse_reports(outcomes, outcomes.len() as int).len() == 0
    &&& holds_together(doc, parsed_in(outcomes))
}

/// Whether a node is expression `index`, bound over what it reads.
pub open spec fn is_node<E, B>(
    doc: Document,
    parsed: Seq<Option<Ast>>,
    bind: B,
    cheap: bool,
    index: int,
    node: CompiledNode<E>,
) -> bool where B: Fn(&Ast, &Schema) -> E {
    &&& node.name@ == doc.names[index]
    &&& named(node.reads@) == doc.reads(parsed, index)
    &&& node.cheap == cheap
    &&& parsed[index] is Some
    &&& exists|schema: Schema|
        {
            &&& has_names(schema, texts(doc.reads(parsed, index), true), texts(doc.reads(parsed, index), false))
            &&& #[trigger] call_ensures(bind, (&parsed[index]->0, &schema), node.expression)
        }
}

/// Whether the nodes are the expressions of a sound document, in evaluation
/// order.
pub open spec fn are_nodes<E, B>(
    doc: Document,
    parsed: Seq<Option<Ast>>,
    bind: B,
    order: Seq<usize>,
    cheap: Seq<bool>,
    nodes: Seq<CompiledNode<E>>,
) -> bool where B: Fn(&Ast, &Schema) -> E {
    &&& is_evaluation_order(doc.graph(parsed), order)
    &&& marks_the_cheap(doc, parsed, cheap)
    &&& nodes.len() == order.len()
    &&& forall|p: int|
        0 <= p < nodes.len() ==> is_node(
            doc,
            parsed,
            bind,
            cheap[order[p] as int],
            order[p] as int,
            #[trigger] nodes[p],
        )
}

/// Whether compiling a document whose expressions came to these outcomes gives
/// `result`: the nodes of a sound one, everything wrong with any other.
pub open spec fn compiles_to<E, B>(
    doc: Document,
    outcomes: Seq<Outcome>,
    bind: B,
    result: Result<Vec<CompiledNode<E>>, SystemCompilationFailure>,
) -> bool where B: Fn(&Ast, &Schema) -> E {
    &&& result is Ok <==> sound(doc, outcomes)
    &&& result is Ok ==> exists|order: Seq<usize>, cheap: Seq<bool>| #[trigger]
        are_nodes(doc, parsed_in(outcomes), bind, order, cheap, result->Ok_0@)
    &&& result is Err ==> exists|found: Seq<Closing>| #[trigger]
        reports_everything(doc, outcomes, result->Err_0.problems@, found)
}

/// Moves the problems of one expression behind those found so far.
fn hand_on(name: &str, from: Vec<Problem>, problems: &mut Vec<NamedProblem>, reports: Ghost<Seq<Report>>)
    requires
        says_all(old(problems)@, reports@),
    ensures
        says_all(
            final(problems)@,
            reports@ + from@.map_values(|problem: Problem| Report::Passed { name: name@, problem }),
        ),
{
    let ghost all = from@;
    let ghost passed = all.map_values(|problem: Problem| Report::Passed { name: name@, problem });
    let mut rest = from;
    let mut backwards: Vec<Problem> = Vec::new();
    while rest.len() > 0
        invariant
            rest@.len() + backwards@.len() == all.len(),
            rest@ == all.take(rest@.len() as int),
            forall|i: int| 0 <= i < backwards@.len() ==> #[trigger] backwards@[i] == all[all.len() - 1 - i],
        decreases rest@.len(),
    {
        let ghost before = rest@;
        let problem = rest.pop().unwrap();
        assert(problem == all[before.len() - 1]);
        assert(rest@ =~= all.take(rest@.len() as int));
        backwards.push(problem);
    }
    let ghost mut done: int = 0;
    assert(reports@ + passed.take(0) =~= reports@);
    while backwards.len() > 0
        invariant
            0 <= done <= all.len(),
            backwards@.len() == all.len() - done,
            forall|i: int| 0 <= i < backwards@.len() ==> #[trigger] backwards@[i] == all[all.len() - 1 - i],
            passed == all.map_values(|problem: Problem| Report::Passed { name: name@, problem }),
            says_all(problems@, reports@ + passed.take(done)),
        decreases backwards@.len(),
    {
        let ghost earlier = problems@;
        let problem = backwards.pop().unwrap();
        assert(problem == all[done]);
        let next = NamedProblem { name: name.to_owned(), problem };
        problems.push(next);
        proof {
            saying_more(earlier, reports@ + passed.take(done), next, passed[done]);
            assert((reports@ + passed.take(done)).push(passed[done]) =~= reports@ + passed.take(done + 1));
            done = done + 1;
        }
    }
    assert(passed.take(all.len() as int) =~= passed);
}

/// The variables a node's reads bind it against: inputs, and the rest out of
/// reach of a subscript.
fn schema_of(reads: &Vec<Symbol>) -> (schema: Schema)
    ensures
        has_names(schema, texts(named(reads@), true), texts(named(reads@), false)),
{
    let mut inputs: Vec<String> = Vec::new();
    let mut intermediates: Vec<String> = Vec::new();
    let ghost names = named(reads@);
    assert(contents(inputs@) =~= Seq::empty());
    assert(contents(intermediates@) =~= Seq::empty());
    for i in 0..reads.len()
        invariant
            names == named(reads@),
            contents(inputs@) == texts(names.take(i as int), true),
            contents(intermediates@) == texts(names.take(i as int), false),
    {
        let name = reads[i].name().to_owned();
        let ghost first = inputs@;
        let ghost second = intermediates@;
        proof {
            assert(names.take(i + 1).drop_last() =~= names.take(i as int));
            assert(names.take(i + 1).last() == names[i as int]);
        }
        match &reads[i] {
            Symbol::Input(_) => {
                inputs.push(name);
                assert(contents(inputs@) =~= contents(first).push(name@));
            },
            _ => {
                intermediates.push(name);
                assert(contents(intermediates@) =~= contents(second).push(name@));
            },
        }
    }
    assert(names.take(reads@.len() as int) =~= names);
    Schema { inputs, intermediates }
}

/// Reads every expression that is not a repetition: parses it, and resolves its
/// literal subscripts against the inputs alone.
fn read_all<P, Q>(
    inputs: &Vec<String>,
    externals: &Vec<String>,
    expressions: &Vec<(String, String)>,
    repeated: &Vec<bool>,
    parse: &P,
    resolve: &Q,
    problems: &mut Vec<NamedProblem>,
    reports: Ghost<Seq<Report>>,
) -> (result: (Vec<Option<Ast>>, Ghost<Seq<Outcome>>)) where
    P: Fn(&String) -> Result<Ast, CompilationFailure>,
    Q: Fn(&Ast, &Schema) -> Result<Ast, Fault>,

    requires
        dependable(*parse, *resolve),
        repeated@.len() == expressions@.len(),
        forall|i: int|
            0 <= i < expressions@.len() ==> #[trigger] repeated@[i] == document(
                inputs@,
                externals@,
                expressions@,
            ).output_repeats(i),
        says_all(old(problems)@, reports@),
    ensures
        ({
            let doc = document(inputs@, externals@, expressions@);
            let outcomes = result.1@;
            &&& all_come_to(*parse, *resolve, doc, expressions@, outcomes)
            &&& result.0@ == parsed_in(outcomes)
            &&& doc.accepts(result.0@)
            &&& says_all(final(problems)@, reports@ + doc.parse_reports(outcomes, outcomes.len() as int))
            &&& forall|i: int|
                0 <= i < outcomes.len() && ((#[trigger] outcomes[i]) is Refused || outcomes[i] is Faulty)
                    ==> doc.parse_reports(outcomes, outcomes.len() as int).len() > 0
        }),
{
    let ghost doc = document(inputs@, externals@, expressions@);
    let schema = Schema { inputs: copies(inputs), intermediates: Vec::new() };
    let mut parsed: Vec<Option<Ast>> = Vec::new();
    let ghost mut outcomes: Seq<Outcome> = Seq::empty();
    proof {
        assert(contents(schema.intermediates@) =~= Seq::empty());
        assert(reports@ + doc.parse_reports(outcomes, 0) =~= reports@);
        assert(parsed@ =~= parsed_in(outcomes));
    }
    for index in 0..expressions.len()
        invariant
            doc == document(inputs@, externals@, expressions@),
            dependable(*parse, *resolve),
            has_names(schema, doc.inputs, Seq::empty()),
            repeated@.len() == expressions@.len(),
            forall|i: int| 0 <= i < expressions@.len() ==> #[trigger] repeated@[i] == doc.output_repeats(i),
            outcomes.len() == index,
            forall|i: int|
                0 <= i < index ==> comes_to(
                    *parse,
                    *resolve,
                    doc.inputs,
                    expressions@[i].1,
                    doc.output_repeats(i),
                    #[trigger] outcomes[i],
                ),
            parsed@ == parsed_in(outcomes),
            forall|i: int| 0 <= i < index ==> ((#[trigger] parsed@[i]) matches Some(ast) ==> ast.well_formed()),
            says_all(problems@, reports@ + doc.parse_reports(outcomes, index as int)),
            forall|i: int|
                0 <= i < index && ((#[trigger] outcomes[i]) is Refused || outcomes[i] is Faulty) ==> doc.parse_reports(
                    outcomes,
                    index as int,
                ).len() > 0,
    {
        let name = expressions[index].0.as_str();
        let source = expressions[index].1.as_str();
        let ghost before = problems@;
        let ghost earlier = outcomes;
        let ghost sofar = reports@ + doc.parse_reports(earlier, index as int);
        let ghost outcome: Outcome;
        let ast: Option<Ast>;
        assert(doc.names[index as int] == name@);
        assert(doc.sources[index as int] == source@);
        if repeated[index] {
            ast = None;
            proof {
                outcome = Outcome::Repeated;
            }
        } else {
            match parse(&expressions[index].1) {
                Err(failure) => {
                    proof {
                        outcome = Outcome::Refused(failure.problems@);
                    }
                    hand_on(name, failure.problems, problems, Ghost(sofar));
                    ast = None;
                },
                Ok(read) => {
                    match resolve(&read, &schema) {
                        Ok(resolved) => {
                            proof {
                                outcome = Outcome::Parsed(resolved);
                                assert(call_ensures(*resolve, (&read, &schema), Ok::<Ast, Fault>(resolved)));
                            }
                            ast = Some(resolved);
                        },
                        Err(fault) => {
                            proof {
                                outcome = Outcome::Faulty(fault, read);
                                assert(call_ensures(*resolve, (&read, &schema), Err::<Ast, Fault>(fault)));
                            }
                            let problem = found(name, fault.kind, source, fault.span);
                            problems.push(problem);
                            proof {
                                saying_more(
                                    before,
                                    sofar,
                                    problem,
                                    Report::Found {
                                        name: name@,
                                        complaint: Complaint::Other(fault.kind),
                                        source: source@,
                                        span: fault.span,
                                    },
                                );
                            }
                            ast = Some(read);
                        },
                    }
                },
            }
        }
        let ghost listed = parsed@;
        parsed.push(ast);
        proof {
            outcomes = earlier.push(outcome);
            parse_reports_look_back(doc, earlier, outcome, index as int);
            assert(parsed@ =~= parsed_in(outcomes)) by {
                assert(listed =~= parsed_in(earlier));
            }
            assert(reports@ + doc.parse_reports(outcomes, index + 1) =~= match outcome {
                Outcome::Repeated => sofar,
                Outcome::Parsed(_) => sofar,
                Outcome::Refused(list) => sofar + list.map_values(
                    |problem: Problem| Report::Passed { name: doc.names[index as int], problem },
                ),
                Outcome::Faulty(fault, _) => sofar.push(
                    Report::Found {
                        name: doc.names[index as int],
                        complaint: Complaint::Other(fault.kind),
                        source: doc.sources[index as int],
                        span: fault.span,
                    },
                ),
            });
            assert forall|i: int| 0 <= i < index + 1 implies comes_to(
                *parse,
                *resolve,
                doc.inputs,
                expressions@[i].1,
                doc.output_repeats(i),
                #[trigger] outcomes[i],
            ) by {
                if i < index {
                    assert(outcomes[i] == earlier[i]);
                }
            }
            assert forall|i: int|
                0 <= i < index + 1 && ((#[trigger] outcomes[i]) is Refused || outcomes[i] is Faulty) implies doc.parse_reports(
                outcomes,
                index + 1,
            ).len() > 0 by {
                if i < index {
                    assert(outcomes[i] == earlier[i]);
                }
            }
            assert forall|i: int| 0 <= i < index + 1 implies ((#[trigger] parsed@[i]) matches Some(ast) ==> ast.well_formed()) by {
                if i < index {
                    assert(parsed@[i] == listed[i]);
                }
            }
        }
    }
    (parsed, Ghost(outcomes))
}

proof fn parse_reports_look_back(doc: Document, outcomes: Seq<Outcome>, next: Outcome, upto: int)
    requires
        0 <= upto <= outcomes.len(),
    ensures
        doc.parse_reports(outcomes.push(next), upto) == doc.parse_reports(outcomes, upto),
    decreases upto,
{
    if upto > 0 {
        parse_reports_look_back(doc, outcomes, next, upto - 1);
        assert(outcomes.push(next)[upto - 1] == outcomes[upto - 1]);
    }
}

proof fn repeats_are_reported(doc: Document, k: int, upto: int)
    requires
        0 <= k < upto,
        doc.repeats(k),
    ensures
        doc.duplicate_reports(upto).len() > 0,
    decreases upto,
{
    if k < upto - 1 {
        repeats_are_reported(doc, k, upto - 1);
    }
}

/// Compiles `expressions`, each an output's name and source in declaration
/// order, against `inputs`, the design vector in order and the only thing
/// `var[i]` indexes, and `externals`, names produced elsewhere that an
/// expression may read.
///
/// `parse` reads a source, `resolve` resolves its literal subscripts against
/// the inputs, and `bind` compiles it over a schema. The nodes come back in an
/// evaluation order: every node after everything it reads, ties broken by
/// declaration order.
///
/// The failure has every problem found in one pass, each under the name it
/// belongs to. A cycle through an expression that did not parse is the one
/// thing out of reach until it does.
pub fn compile_system<E, P, Q, B>(
    inputs: &Vec<String>,
    externals: &Vec<String>,
    expressions: &Vec<(String, String)>,
    parse: P,
    resolve: Q,
    bind: B,
) -> (result: Result<Vec<CompiledNode<E>>, SystemCompilationFailure>) where
    P: Fn(&String) -> Result<Ast, CompilationFailure>,
    Q: Fn(&Ast, &Schema) -> Result<Ast, Fault>,
    B: Fn(&Ast, &Schema) -> E,

    requires
        dependable(parse, resolve),
        forall|ast: &Ast, schema: &Schema|
            names_everything(*schema, *ast) ==> #[trigger] call_requires(bind, (ast, schema)),
    ensures
        exists|outcomes: Seq<Outcome>|
            #[trigger] all_come_to(
                parse,
                resolve,
                document(inputs@, externals@, expressions@),
                expressions@,
                outcomes,
            ) && compiles_to(document(inputs@, externals@, expressions@), outcomes, bind, result),
{
    let ghost doc = document(inputs@, externals@, expressions@);
    let (mut problems, repeated) = duplicates(inputs, externals, expressions);
    let ghost first = doc.duplicate_reports(doc.declared().len() as int);
    let (parsed, outcomes) = read_all(
        inputs,
        externals,
        expressions,
        &repeated,
        &parse,
        &resolve,
        &mut problems,
        Ghost(first),
    );
    let ghost second = doc.parse_reports(outcomes@, outcomes@.len() as int);
    let ghost given = problems@;
    match analyse(inputs, externals, expressions, &parsed, problems) {
        Err(failure) => {
            let ghost found = choose|found: Seq<Closing>| #[trigger]
                reports_the_rest(doc, parsed@, given, failure.problems@, found);
            proof {
                let rest = failure.problems@.skip(given.len() as int);
                let closing_reports = found.map_values(|closing: Closing| doc.cycle_report(parsed@, closing));
                let third = doc.binding_reports(parsed@, parsed@.len() as int);
                saying_both(given, first + second, rest, third + closing_reports);
                assert(given + rest =~= failure.problems@);
                assert(all_reports(doc, outcomes@, found) =~= (first + second) + (third + closing_reports));
                assert(given.len() == first.len() + second.len());
            }
            let result: Result<Vec<CompiledNode<E>>, SystemCompilationFailure> = Err(failure);
            assert(reports_everything(doc, outcomes@, result->Err_0.problems@, found));
            assert(compiles_to::<E, B>(doc, outcomes@, bind, result));
            result
        },
        Ok(analysis) => {
            let order = analysis.order;
            let cheap = analysis.cheap;
            let mut reads = analysis.reads;
            let ghost all = reads@;
            let mut nodes: Vec<CompiledNode<E>> = Vec::with_capacity(order.len());
            proof {
                assert forall|i: int| 0 <= i < parsed@.len() implies (#[trigger] parsed@[i]) is Some by {
                    assert(comes_to(
                        parse,
                        resolve,
                        doc.inputs,
                        expressions@[i].1,
                        doc.output_repeats(i),
                        outcomes@[i],
                    ));
                    if outcomes@[i] is Repeated {
                        repeats_are_reported(
                            doc,
                            doc.inputs.len() + doc.externals.len() + i,
                            doc.declared().len() as int,
                        );
                    }
                }
            }
            for p in 0..order.len()
                invariant
                    doc == document(inputs@, externals@, expressions@),
                    forall|ast: &Ast, schema: &Schema|
                        names_everything(*schema, *ast) ==> #[trigger] call_requires(bind, (ast, schema)),
                    holds_together(doc, parsed@),
                    is_evaluation_order(doc.graph(parsed@), order@),
                    doc.graph(parsed@).len() == parsed@.len() == expressions@.len() == all.len() == cheap@.len(),
                    reads@.len() == all.len(),
                    forall|i: int| 0 <= i < all.len() ==> named((#[trigger] all[i])@) == doc.reads(parsed@, i),
                    forall|i: int| 0 <= i < parsed@.len() ==> (#[trigger] parsed@[i]) is Some,
                    forall|q: int|
                        p <= q < order@.len() ==> reads@[#[trigger] order@[q] as int] == all[order@[q] as int],
                    nodes@.len() == p,
                    forall|q: int|
                        0 <= q < p ==> is_node(
                            doc,
                            parsed@,
                            bind,
                            cheap@[order@[q] as int],
                            order@[q] as int,
                            #[trigger] nodes@[q],
                        ),
            {
                let index: usize = order[p];
                proof {
                    assert(crate::graph::ready(doc.graph(parsed@), order@.take(p as int), order@[p as int] as int));
                    assert(reads@[order@[p as int] as int] == all[order@[p as int] as int]);
                }
                let ghost before = reads@;
                reads.push(Vec::new());
                let ghost longer = reads@;
                let list = reads.swap_remove(index);
                proof {
                    assert forall|i: int| 0 <= i < before.len() && i != index implies reads@[i] == before[i] by {
                        assert(longer[i] == before[i]);
                    }
                }
                let schema = schema_of(&list);
                let name = expressions[index].0.as_str().to_owned();
                match &parsed[index] {
                    Some(ast) => {
                        proof {
                            reading_names_everything(doc, parsed@, index as int, *ast, schema);
                        }
                        let expression = bind(ast, &schema);
                        let node = CompiledNode { name, reads: list, expression, cheap: cheap[index] };
                        proof {
                            assert(named(list@) == doc.reads(parsed@, index as int));
                            assert(call_ensures(bind, (&parsed@[index as int]->0, &schema), node.expression));
                            assert(is_node(doc, parsed@, bind, cheap@[index as int], index as int, node));
                        }
                        nodes.push(node);
                    },
                    None => {
                        assert(parsed@[index as int] is Some);
                    },
                }
                proof {
                    assert forall|q: int| p + 1 <= q < order@.len() implies reads@[#[trigger] order@[q] as int]
                        == all[order@[q] as int] by {
                        assert(order@[q] != order@[p as int]);
                        assert(crate::graph::ready(doc.graph(parsed@), order@.take(q), order@[q] as int));
                        assert(before[order@[q] as int] == all[order@[q] as int]);
                    }
                }
            }
            assert(given.len() == first.len() + second.len());
            let result: Result<Vec<CompiledNode<E>>, SystemCompilationFailure> = Ok(nodes);
            assert(are_nodes(doc, parsed_in(outcomes@), bind, order@, cheap@, result->Ok_0@));
            assert(compiles_to::<E, B>(doc, outcomes@, bind, result));
            result
        },
    }
}

/// Whether `b` is `a`, or something it reads is, or something that reads, and so
/// on, in at most `steps` steps.
pub open spec fn reaches(graph: Seq<Seq<int>>, a: int, b: int, steps: nat) -> bool
    decreases steps,
{
    a == b || (steps > 0 && exists|k: int|
        0 <= k < graph[a].len() && reaches(graph, #[trigger] graph[a][k], b, (steps - 1) as nat))
}

/// A node is cheap exactly when nothing it depends on, transitively, reads an
/// external.
pub proof fn cheap_is_transitive(doc: Document, parsed: Seq<Option<Ast>>, cheap: Seq<bool>, a: int)
    requires
        marks_the_cheap(doc, parsed, cheap),
        acyclic(doc.graph(parsed)),
        closed(doc.graph(parsed)),
        0 <= a < cheap.len(),
    ensures
        cheap[a] <==> forall|b: int, steps: nat| #[trigger]
            reaches(doc.graph(parsed), a, b, steps) ==> !doc.reads_an_external(parsed, b),
{
    let graph = doc.graph(parsed);
    if cheap[a] {
        assert forall|b: int, steps: nat| #[trigger] reaches(graph, a, b, steps) implies !doc.reads_an_external(parsed, b) by {
            cheap_reaches_cheap(doc, parsed, cheap, a, b, steps);
        }
    } else {
        let rank = choose|rank: spec_fn(int) -> nat| crate::graph::descends(graph, rank);
        let (b, steps) = dear_reaches_external(doc, parsed, cheap, rank, a);
        assert(reaches(graph, a, b, steps));
    }
}

proof fn cheap_reaches_cheap(doc: Document, parsed: Seq<Option<Ast>>, cheap: Seq<bool>, a: int, b: int, steps: nat)
    requires
        marks_the_cheap(doc, parsed, cheap),
        closed(doc.graph(parsed)),
        0 <= a < cheap.len(),
        cheap[a],
        reaches(doc.graph(parsed), a, b, steps),
    ensures
        !doc.reads_an_external(parsed, b),
    decreases steps,
{
    let graph = doc.graph(parsed);
    if a != b {
        let k = choose|k: int|
            0 <= k < graph[a].len() && reaches(graph, #[trigger] graph[a][k], b, (steps - 1) as nat);
        assert(cheap[graph[a][k]]);
        cheap_reaches_cheap(doc, parsed, cheap, graph[a][k], b, (steps - 1) as nat);
    }
}

proof fn dear_reaches_external(
    doc: Document,
    parsed: Seq<Option<Ast>>,
    cheap: Seq<bool>,
    rank: spec_fn(int) -> nat,
    a: int,
) -> (found: (int, nat))
    requires
        marks_the_cheap(doc, parsed, cheap),
        closed(doc.graph(parsed)),
        crate::graph::descends(doc.graph(parsed), rank),
        0 <= a < cheap.len(),
        !cheap[a],
    ensures
        reaches(doc.graph(parsed), a, found.0, found.1),
        doc.reads_an_external(parsed, found.0),
    decreases rank(a),
{
    let graph = doc.graph(parsed);
    if doc.reads_an_external(parsed, a) {
        (a, 0)
    } else {
        let k = choose|k: int| 0 <= k < graph[a].len() && !cheap[#[trigger] graph[a][k]];
        let (b, steps) = dear_reaches_external(doc, parsed, cheap, rank, graph[a][k]);
        let more = steps + 1;
        assert((more - 1) as nat == steps);
        assert(reaches(graph, graph[a][k], b, (more - 1) as nat));
        (b, more)
    }
}

proof fn no_report_no_fault(doc: Document, parsed: Seq<Option<Ast>>, index: int, ast: Ast, g: int, upto: int)
    requires
        0 <= g < upto,
        doc.symbol_reports(parsed, index, ast, upto).len() == 0,
    ensures
        ({
            let text = ast.symbols@[g]@;
            ||| doc.inputs.contains(text)
            ||| doc.externals.contains(text)
            ||| doc.output_named(text) matches Some(at) && !is_constraint(parsed[at])
        }),
    decreases upto,
{
    if g < upto - 1 {
        no_report_no_fault(doc, parsed, index, ast, g, upto - 1);
    }
}

proof fn nothing_reported_of_any(doc: Document, parsed: Seq<Option<Ast>>, index: int, ast: Ast, upto: int)
    requires
        0 <= index < upto,
        parsed[index] == Some(ast),
        doc.binding_reports(parsed, upto).len() == 0,
    ensures
        doc.symbol_reports(parsed, index, ast, ast.symbols@.len() as int).len() == 0,
    decreases upto,
{
    if index < upto - 1 {
        nothing_reported_of_any(doc, parsed, index, ast, upto - 1);
    }
}

proof fn an_input_is_read(doc: Document, ast: Ast, k: int, upto: int)
    requires
        0 <= k < upto,
        first_in(doc.inputs, doc.inputs[k]) == k,
        Document::mentions(ast, doc.inputs[k]),
    ensures
        doc.input_reads(ast, upto).contains(Name::Input(doc.inputs[k])),
    decreases upto,
{
    let after = doc.input_reads(ast, upto);
    let name = Name::Input(doc.inputs[k]);
    if k == upto - 1 {
        assert(after[after.len() - 1] == name);
    } else {
        an_input_is_read(doc, ast, k, upto - 1);
        let before = doc.input_reads(ast, upto - 1);
        let i = choose|i: int| 0 <= i < before.len() && before[i] == name;
        assert(after[i] == name);
    }
}

proof fn an_external_is_read(doc: Document, ast: Ast, k: int, upto: int)
    requires
        0 <= k < upto,
        first_in(doc.externals, doc.externals[k]) == k,
        !doc.inputs.contains(doc.externals[k]),
        Document::mentions(ast, doc.externals[k]),
    ensures
        doc.external_reads(ast, upto).contains(Name::External(doc.externals[k])),
    decreases upto,
{
    let after = doc.external_reads(ast, upto);
    let name = Name::External(doc.externals[k]);
    if k == upto - 1 {
        assert(after[after.len() - 1] == name);
    } else {
        an_external_is_read(doc, ast, k, upto - 1);
        let before = doc.external_reads(ast, upto - 1);
        let i = choose|i: int| 0 <= i < before.len() && before[i] == name;
        assert(after[i] == name);
    }
}

proof fn an_output_is_read(doc: Document, parsed: Seq<Option<Ast>>, ast: Ast, k: int, upto: int)
    requires
        0 <= k < upto,
        doc.output_named(doc.names[k]) == Some(k),
        !is_constraint(parsed[k]),
        Document::mentions(ast, doc.names[k]),
    ensures
        doc.output_reads(parsed, ast, upto).contains(Name::Output(doc.names[k])),
    decreases upto,
{
    let after = doc.output_reads(parsed, ast, upto);
    let name = Name::Output(doc.names[k]);
    if k == upto - 1 {
        assert(after[after.len() - 1] == name);
    } else {
        an_output_is_read(doc, parsed, ast, k, upto - 1);
        let before = doc.output_reads(parsed, ast, upto - 1);
        let i = choose|i: int| 0 <= i < before.len() && before[i] == name;
        assert(after[i] == name);
    }
}

/// Where nothing is misread or unbound, every name an expression mentions is
/// among those it reads.
pub proof fn every_mention_is_a_read(doc: Document, parsed: Seq<Option<Ast>>, index: int, ast: Ast, g: int)
    requires
        holds_together(doc, parsed),
        0 <= index < parsed.len(),
        parsed[index] == Some(ast),
        0 <= g < ast.symbols@.len(),
    ensures
        exists|k: int|
            0 <= k < doc.reads(parsed, index).len() && (#[trigger] doc.reads(parsed, index)[k]).text()
                == ast.symbols@[g]@,
{
    let text = ast.symbols@[g]@;
    let count = ast.symbols@.len() as int;
    nothing_reported_of_any(doc, parsed, index, ast, parsed.len() as int);
    no_report_no_fault(doc, parsed, index, ast, g, count);
    assert(contents(ast.symbols@)[g] == text);
    let first = doc.input_reads(ast, doc.inputs.len() as int);
    let second = doc.external_reads(ast, doc.externals.len() as int);
    let third = doc.output_reads(parsed, ast, doc.names.len() as int);
    let all = doc.reads(parsed, index);
    if doc.inputs.contains(text) {
        let k = first_in(doc.inputs, text);
        first_in_has(doc.inputs, text);
        an_input_is_read(doc, ast, k, doc.inputs.len() as int);
        let i = choose|i: int| 0 <= i < first.len() && first[i] == Name::Input(text);
        assert(all[i].text() == text);
    } else if doc.externals.contains(text) {
        let k = first_in(doc.externals, text);
        first_in_has(doc.externals, text);
        an_external_is_read(doc, ast, k, doc.externals.len() as int);
        let i = choose|i: int| 0 <= i < second.len() && second[i] == Name::External(text);
        assert(all[first.len() + i].text() == text);
    } else {
        let k = first_in(doc.names, text);
        first_in_has(doc.names, text);
        an_output_is_read(doc, parsed, ast, k, doc.names.len() as int);
        let i = choose|i: int| 0 <= i < third.len() && third[i] == Name::Output(text);
        assert(all[first.len() + second.len() + i].text() == text);
    }
}

proof fn a_text_is_of_one_kind(names: Seq<Name>, k: int)
    requires
        0 <= k < names.len(),
    ensures
        texts(names, names[k] is Input).contains(names[k].text()),
    decreases names.len(),
{
    let inputs = names[k] is Input;
    let after = texts(names, inputs);
    if k == names.len() - 1 {
        assert(after[after.len() - 1] == names[k].text());
    } else {
        a_text_is_of_one_kind(names.drop_last(), k);
        let before = texts(names.drop_last(), inputs);
        let i = choose|i: int| 0 <= i < before.len() && before[i] == names[k].text();
        assert(after[i] == names[k].text());
    }
}

proof fn reading_names_everything(
    doc: Document,
    parsed: Seq<Option<Ast>>,
    index: int,
    ast: Ast,
    schema: Schema,
)
    requires
        holds_together(doc, parsed),
        0 <= index < parsed.len(),
        parsed[index] == Some(ast),
        has_names(schema, texts(doc.reads(parsed, index), true), texts(doc.reads(parsed, index), false)),
    ensures
        names_everything(schema, ast),
{
    let names = doc.reads(parsed, index);
    assert forall|g: int| 0 <= g < ast.symbols@.len() implies contents(schema.inputs@).contains(
        #[trigger] ast.symbols@[g]@,
    ) || contents(schema.intermediates@).contains(ast.symbols@[g]@) by {
        every_mention_is_a_read(doc, parsed, index, ast, g);
        let k = choose|k: int| 0 <= k < names.len() && (#[trigger] names[k]).text() == ast.symbols@[g]@;
        a_text_is_of_one_kind(names, k);
    }
}

/// Whatever an expression that parsed reads of the outputs, it depends on,
/// constraints not excepted.
pub proof fn every_read_is_a_dependency(doc: Document, parsed: Seq<Option<Ast>>, index: int, ast: Ast, g: int, at: int)
    requires
        0 <= index < parsed.len(),
        parsed[index] == Some(ast),
        0 <= g < ast.symbols@.len(),
        doc.output_named(ast.symbols@[g]@) == Some(at),
    ensures
        crate::graph::depends(doc.graph(parsed), index, at),
{
    let count = ast.symbols@.len() as int;
    an_edge_for_every_read(doc, parsed, index, ast, g, at, count);
    let edges = doc.symbol_edges(parsed, index, ast, count);
    let k = choose|k: int| 0 <= k < edges.len() && (#[trigger] edges[k]).0 == at;
    assert(doc.graph(parsed)[index][k] == edges[k].0);
}

proof fn an_edge_for_every_read(
    doc: Document,
    parsed: Seq<Option<Ast>>,
    index: int,
    ast: Ast,
    g: int,
    at: int,
    upto: int,
)
    requires
        0 <= g < upto <= ast.symbols@.len(),
        doc.output_named(ast.symbols@[g]@) == Some(at),
    ensures
        exists|k: int|
            0 <= k < doc.symbol_edges(parsed, index, ast, upto).len() && (#[trigger] doc.symbol_edges(
                parsed,
                index,
                ast,
                upto,
            )[k]).0 == at,
    decreases upto,
{
    let after = doc.symbol_edges(parsed, index, ast, upto);
    if g == upto - 1 {
        assert(after[after.len() - 1].0 == at);
    } else {
        an_edge_for_every_read(doc, parsed, index, ast, g, at, upto - 1);
        let before = doc.symbol_edges(parsed, index, ast, upto - 1);
        let k = choose|k: int| 0 <= k < before.len() && (#[trigger] before[k]).0 == at;
        assert(after[k] == before[k]);
    }
}

/// An output that depends on itself, directly or round a chain, does not
/// compile, and a cycle is among what is reported.
pub proof fn what_depends_on_itself_is_reported<E, B>(
    doc: Document,
    outcomes: Seq<Outcome>,
    bind: B,
    result: Result<Vec<CompiledNode<E>>, SystemCompilationFailure>,
    chain: Seq<usize>,
) where B: Fn(&Ast, &Schema) -> E
    requires
        compiles_to(doc, outcomes, bind, result),
        crate::graph::is_cycle(doc.graph(parsed_in(outcomes)), chain),
    ensures
        result matches Err(failure) && exists|i: int|
            0 <= i < failure.problems@.len() && (#[trigger] failure.problems@[i]).problem.kind is Cycle,
{
    let reads = doc.graph(parsed_in(outcomes));
    if acyclic(reads) {
        crate::graph::acyclic_has_no_cycle(reads, chain);
    }
    let problems = result->Err_0.problems@;
    let found = choose|found: Seq<Closing>| #[trigger] reports_everything(doc, outcomes, problems, found);
    if found.len() == 0 {
        crate::graph::no_closing_no_cycle(reads, found);
    }
    let all = all_reports(doc, outcomes, found);
    let last = all.len() - 1;
    assert(all[last] == doc.cycle_report(parsed_in(outcomes), found[found.len() - 1]));
    assert(says(problems[last], all[last]));
}

// ---- what is read ----

proof fn every_input_is_listed(doc: Document, ast: Ast, upto: int)
    requires
        ast.contains_dynamic_lookup,
        0 <= upto <= doc.inputs.len(),
    ensures
        doc.input_reads(ast, upto) == Seq::new(upto as nat, |k: int| Name::Input(doc.inputs[k])),
    decreases upto,
{
    if upto > 0 {
        every_input_is_listed(doc, ast, upto - 1);
    }
    assert(doc.input_reads(ast, upto) =~= Seq::new(upto as nat, |k: int| Name::Input(doc.inputs[k])));
}

proof fn externals_are_no_inputs(doc: Document, ast: Ast, upto: int)
    ensures
        forall|i: int| 0 <= i < doc.external_reads(ast, upto).len() ==> (#[trigger] doc.external_reads(ast, upto)[i]) is External,
    decreases upto,
{
    if upto > 0 {
        externals_are_no_inputs(doc, ast, upto - 1);
    }
}

proof fn outputs_are_no_inputs(doc: Document, parsed: Seq<Option<Ast>>, ast: Ast, upto: int)
    ensures
        forall|i: int|
            0 <= i < doc.output_reads(parsed, ast, upto).len() ==> (#[trigger] doc.output_reads(parsed, ast, upto)[i]) is Output,
    decreases upto,
{
    if upto > 0 {
        outputs_are_no_inputs(doc, parsed, ast, upto - 1);
    }
}

proof fn texts_of_inputs(inputs: Seq<Name>, others: Seq<Name>)
    requires
        forall|i: int| 0 <= i < inputs.len() ==> (#[trigger] inputs[i]) is Input,
        forall|i: int| 0 <= i < others.len() ==> !((#[trigger] others[i]) is Input),
    ensures
        texts(inputs + others, true) == inputs.map_values(|name: Name| name.text()),
    decreases inputs.len() + others.len(),
{
    let all = inputs + others;
    let wanted = inputs.map_values(|name: Name| name.text());
    if others.len() > 0 {
        assert(all.drop_last() =~= inputs + others.drop_last());
        assert(all.last() == others[others.len() - 1]);
        texts_of_inputs(inputs, others.drop_last());
    } else if inputs.len() > 0 {
        assert(all =~= inputs);
        assert(all.drop_last() =~= inputs.drop_last() + others);
        assert(all.last() == inputs[inputs.len() - 1]);
        texts_of_inputs(inputs.drop_last(), others);
        assert(wanted =~= inputs.drop_last().map_values(|name: Name| name.text()).push(inputs.last().text()));
    } else {
        assert(all =~= Seq::<Name>::empty());
        assert(wanted =~= Seq::<Seq<char>>::empty());
    }
}

/// Where the row decides a subscript the whole row is read: the inputs among what
/// an expression with a computed subscript reads are all the declared inputs, in
/// declaration order, so that every input is at the place the subscript counts to.
pub proof fn a_computed_subscript_reads_every_input(doc: Document, parsed: Seq<Option<Ast>>, index: int)
    requires
        0 <= index < parsed.len(),
        parsed[index] matches Some(ast) && ast.contains_dynamic_lookup,
    ensures
        texts(doc.reads(parsed, index), true) == doc.inputs,
        forall|k: int|
            0 <= k < doc.inputs.len() ==> #[trigger] doc.reads(parsed, index)[k] == Name::Input(doc.inputs[k]),
{
    let ast = parsed[index]->0;
    let first = doc.input_reads(ast, doc.inputs.len() as int);
    let second = doc.external_reads(ast, doc.externals.len() as int);
    let third = doc.output_reads(parsed, ast, doc.names.len() as int);
    every_input_is_listed(doc, ast, doc.inputs.len() as int);
    externals_are_no_inputs(doc, ast, doc.externals.len() as int);
    outputs_are_no_inputs(doc, parsed, ast, doc.names.len() as int);
    let rest = second + third;
    assert(doc.reads(parsed, index) =~= first + rest);
    assert forall|i: int| 0 <= i < rest.len() implies !((#[trigger] rest[i]) is Input) by {
        if i >= second.len() {
            assert(rest[i] == third[i - second.len()]);
        } else {
            assert(rest[i] == second[i]);
        }
    }
    texts_of_inputs(first, rest);
    assert(first.map_values(|name: Name| name.text()) =~= doc.inputs);
}

/// A compiled node with a computed subscript reads every input, and is bound over
/// them all in their order.
pub proof fn a_node_with_a_computed_subscript_has_the_whole_row<E, B>(
    doc: Document,
    parsed: Seq<Option<Ast>>,
    bind: B,
    cheap: bool,
    index: int,
    node: CompiledNode<E>,
) where B: Fn(&Ast, &Schema) -> E
    requires
        0 <= index < parsed.len(),
        is_node(doc, parsed, bind, cheap, index, node),
        parsed[index] matches Some(ast) && ast.contains_dynamic_lookup,
    ensures
        texts(named(node.reads@), true) == doc.inputs,
        exists|schema: Schema|
            contents(schema.inputs@) == doc.inputs && #[trigger] call_ensures(
                bind,
                (&parsed[index]->0, &schema),
                node.expression,
            ),
{
    a_computed_subscript_reads_every_input(doc, parsed, index);
}

/// Whether a name may be among what an expression reads: declared as what it is
/// said to be, and mentioned, or an input where the row decides a subscript.
pub open spec fn may_be_read(doc: Document, parsed: Seq<Option<Ast>>, ast: Ast, name: Name) -> bool {
    match name {
        Name::Input(text) => doc.inputs.contains(text) && (ast.contains_dynamic_lookup || Document::mentions(ast, text)),
        Name::External(text) => doc.externals.contains(text) && !doc.inputs.contains(text) && Document::mentions(ast, text),
        Name::Output(text) => {
            &&& doc.output_named(text) matches Some(at)
            &&& doc.names[at] == text
            &&& !is_constraint(parsed[at])
            &&& Document::mentions(ast, text)
        },
    }
}

proof fn inputs_may_be_read(doc: Document, parsed: Seq<Option<Ast>>, ast: Ast, upto: int)
    requires
        upto <= doc.inputs.len(),
    ensures
        forall|i: int|
            0 <= i < doc.input_reads(ast, upto).len() ==> may_be_read(
                doc,
                parsed,
                ast,
                #[trigger] doc.input_reads(ast, upto)[i],
            ),
    decreases upto,
{
    if upto > 0 {
        inputs_may_be_read(doc, parsed, ast, upto - 1);
        let before = doc.input_reads(ast, upto - 1);
        let after = doc.input_reads(ast, upto);
        let text = doc.inputs[upto - 1];
        assert(doc.inputs.contains(text));
        assert forall|i: int| 0 <= i < after.len() implies may_be_read(doc, parsed, ast, #[trigger] after[i]) by {
            if i < before.len() {
                assert(after[i] == before[i]);
                assert(may_be_read(doc, parsed, ast, before[i]));
            }
        }
    }
}

proof fn externals_may_be_read(doc: Document, parsed: Seq<Option<Ast>>, ast: Ast, upto: int)
    requires
        upto <= doc.externals.len(),
    ensures
        forall|i: int|
            0 <= i < doc.external_reads(ast, upto).len() ==> may_be_read(
                doc,
                parsed,
                ast,
                #[trigger] doc.external_reads(ast, upto)[i],
            ),
    decreases upto,
{
    if upto > 0 {
        externals_may_be_read(doc, parsed, ast, upto - 1);
        let before = doc.external_reads(ast, upto - 1);
        let after = doc.external_reads(ast, upto);
        let text = doc.externals[upto - 1];
        assert(doc.externals.contains(text));
        assert forall|i: int| 0 <= i < after.len() implies may_be_read(doc, parsed, ast, #[trigger] after[i]) by {
            if i < before.len() {
                assert(after[i] == before[i]);
                assert(may_be_read(doc, parsed, ast, before[i]));
            }
        }
    }
}

proof fn outputs_may_be_read(doc: Document, parsed: Seq<Option<Ast>>, ast: Ast, upto: int)
    requires
        upto <= doc.names.len(),
    ensures
        forall|i: int|
            0 <= i < doc.output_reads(parsed, ast, upto).len() ==> may_be_read(
                doc,
                parsed,
                ast,
                #[trigger] doc.output_reads(parsed, ast, upto)[i],
            ),
    decreases upto,
{
    if upto > 0 {
        outputs_may_be_read(doc, parsed, ast, upto - 1);
        let before = doc.output_reads(parsed, ast, upto - 1);
        let after = doc.output_reads(parsed, ast, upto);
        let text = doc.names[upto - 1];
        assert(doc.names.contains(text));
        assert forall|i: int| 0 <= i < after.len() implies may_be_read(doc, parsed, ast, #[trigger] after[i]) by {
            if i < before.len() {
                assert(after[i] == before[i]);
                assert(may_be_read(doc, parsed, ast, before[i]));
            }
        }
    }
}

/// Nothing is read that is not mentioned: whatever an expression reads is declared
/// as what it is read as, and mentioned, or an input of a row that decides a
/// subscript; and no constraint is read.
pub proof fn only_what_is_mentioned_is_read(doc: Document, parsed: Seq<Option<Ast>>, index: int, k: int)
    requires
        0 <= index < parsed.len(),
        parsed[index] is Some,
        0 <= k < doc.reads(parsed, index).len(),
    ensures
        may_be_read(doc, parsed, parsed[index]->0, doc.reads(parsed, index)[k]),
{
    let ast = parsed[index]->0;
    let first = doc.input_reads(ast, doc.inputs.len() as int);
    let second = doc.external_reads(ast, doc.externals.len() as int);
    let third = doc.output_reads(parsed, ast, doc.names.len() as int);
    inputs_may_be_read(doc, parsed, ast, doc.inputs.len() as int);
    externals_may_be_read(doc, parsed, ast, doc.externals.len() as int);
    outputs_may_be_read(doc, parsed, ast, doc.names.len() as int);
    let all = doc.reads(parsed, index);
    if k < first.len() {
        assert(all[k] == first[k]);
    } else if k < first.len() + second.len() {
        assert(all[k] == second[k - first.len()]);
    } else {
        assert(all[k] == third[k - first.len() - second.len()]);
    }
}

// ---- what is refused ----

proof fn a_repeat_is_reported(doc: Document, k: int, upto: int)
    requires
        0 <= k < upto,
        doc.repeats(k),
    ensures
        doc.duplicate_reports(upto).len() > 0,
    decreases upto,
{
    if k < upto - 1 {
        a_repeat_is_reported(doc, k, upto - 1);
    }
}

/// No name is declared twice in what compiles, whatever it is declared as.
pub proof fn what_compiles_declares_each_name_once(doc: Document, outcomes: Seq<Outcome>, j: int, k: int)
    requires
        sound(doc, outcomes),
        0 <= j < k < doc.declared().len(),
    ensures
        doc.declared()[j] != doc.declared()[k],
{
    let all = doc.declared();
    if all[j] == all[k] {
        first_in_has(all, all[k]);
        a_repeat_is_reported(doc, k, all.len() as int);
    }
}

proof fn a_misread_symbol_is_reported(doc: Document, parsed: Seq<Option<Ast>>, index: int, ast: Ast, g: int, upto: int)
    requires
        0 <= g < upto,
        !doc.inputs.contains(ast.symbols@[g]@),
        !doc.externals.contains(ast.symbols@[g]@),
        doc.output_named(ast.symbols@[g]@) matches Some(at) ==> is_constraint(parsed[at]),
    ensures
        doc.symbol_reports(parsed, index, ast, upto).len() > 0,
    decreases upto,
{
    if g < upto - 1 {
        a_misread_symbol_is_reported(doc, parsed, index, ast, g, upto - 1);
    }
}

/// Whatever an expression of a document that compiles mentions is something: an
/// input, an external, or an output that is no constraint.
pub proof fn every_mention_is_of_something(doc: Document, outcomes: Seq<Outcome>, index: int, g: int)
    requires
        sound(doc, outcomes),
        0 <= index < outcomes.len(),
        parsed_in(outcomes)[index] matches Some(ast) && 0 <= g < ast.symbols@.len(),
    ensures
        ({
            let text = (parsed_in(outcomes)[index]->0).symbols@[g]@;
            ||| doc.inputs.contains(text)
            ||| doc.externals.contains(text)
            ||| exists|at: int|
                0 <= at < doc.names.len() && #[trigger] doc.names[at] == text && !is_constraint(parsed_in(outcomes)[at])
        }),
{
    let parsed = parsed_in(outcomes);
    let ast = parsed[index]->0;
    let text = ast.symbols@[g]@;
    nothing_reported_of_any(doc, parsed, index, ast, parsed.len() as int);
    if !doc.inputs.contains(text) && !doc.externals.contains(text) {
        if doc.output_named(text) is None || is_constraint(parsed[doc.output_named(text)->0]) {
            a_misread_symbol_is_reported(doc, parsed, index, ast, g, ast.symbols@.len() as int);
        } else {
            first_in_has(doc.names, text);
            assert(doc.names[doc.output_named(text)->0] == text);
        }
    }
}

/// Whether a report is of a name being declared a second time, at the `k`th place.
pub open spec fn is_of_a_repeat(doc: Document, report: Report, j: int, k: int) -> bool {
    let all = doc.declared();
    let index = k - doc.inputs.len() - doc.externals.len();
    &&& 0 <= j < k < all.len()
    &&& all[j] == all[k]
    &&& report matches Report::Found { name, complaint, source, span }
    &&& name == all[k]
    &&& complaint == Complaint::Duplicate(all[k])
    &&& span == whole_of(source)
    &&& source == if index < 0 {
        Seq::empty()
    } else {
        doc.sources[index]
    }
}

/// What is reported as declared twice is: at some place its name stands again that
/// stood before, and the text of the second is given where that is an expression.
pub proof fn what_is_called_a_duplicate_is_one(doc: Document, upto: int, i: int)
    requires
        0 <= upto <= doc.declared().len(),
        0 <= i < doc.duplicate_reports(upto).len(),
    ensures
        exists|j: int, k: int| #[trigger] is_of_a_repeat(doc, doc.duplicate_reports(upto)[i], j, k) && k < upto,
    decreases upto,
{
    let k = upto - 1;
    if upto > 0 {
        let before = doc.duplicate_reports(k);
        if i < before.len() {
            what_is_called_a_duplicate_is_one(doc, k, i);
            assert(doc.duplicate_reports(upto)[i] == before[i]);
        } else {
            let all = doc.declared();
            first_in_has(all, all[k]);
            assert(is_of_a_repeat(doc, doc.duplicate_reports(upto)[i], first_in(all, all[k]), k));
        }
    }
}

/// Whether a report is of a symbol that is nothing to read: no input, no external, and
/// either a name that nothing has or that of a constraint.
pub open spec fn is_of_a_misreading(
    doc: Document,
    parsed: Seq<Option<Ast>>,
    index: int,
    ast: Ast,
    report: Report,
    g: int,
) -> bool {
    let text = ast.symbols@[g]@;
    &&& 0 <= g < ast.symbols@.len()
    &&& !doc.inputs.contains(text)
    &&& !doc.externals.contains(text)
    &&& report matches Report::Found { name, complaint, source, span }
    &&& name == doc.names[index]
    &&& source == doc.sources[index]
    &&& match complaint {
        Complaint::Unbound(told) => told == text && !doc.names.contains(text),
        Complaint::ConstraintAsValue(told) => told == text && exists|at: int|
            0 <= at < doc.names.len() && #[trigger] doc.names[at] == text && is_constraint(parsed[at]),
        _ => false,
    }
}

/// What is reported of a symbol is so: nothing declares it, or it is a constraint that
/// is read as a value.
pub proof fn what_is_called_a_misreading_is_one(
    doc: Document,
    parsed: Seq<Option<Ast>>,
    index: int,
    ast: Ast,
    upto: int,
    i: int,
)
    requires
        0 <= upto <= ast.symbols@.len(),
        0 <= i < doc.symbol_reports(parsed, index, ast, upto).len(),
    ensures
        exists|g: int| #[trigger]
            is_of_a_misreading(doc, parsed, index, ast, doc.symbol_reports(parsed, index, ast, upto)[i], g) && g < upto,
    decreases upto,
{
    if upto > 0 {
        let before = doc.symbol_reports(parsed, index, ast, upto - 1);
        let after = doc.symbol_reports(parsed, index, ast, upto);
        if i < before.len() {
            what_is_called_a_misreading_is_one(doc, parsed, index, ast, upto - 1, i);
            assert(after[i] == before[i]);
        } else {
            let text = ast.symbols@[upto - 1]@;
            if doc.names.contains(text) {
                first_in_has(doc.names, text);
                assert(doc.names[first_in(doc.names, text)] == text);
            }
            assert(is_of_a_misreading(doc, parsed, index, ast, after[i], upto - 1));
        }
    }
}

} // verus!
