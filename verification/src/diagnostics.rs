//! Structured compile-time and run-time diagnostics.
//!
//! # Index naming convention
//!
//! A name ending in **`idx` is zero-based**; a name ending in **`1index` is
//! one-based**. Everything reported is zero-based except the `var[i]`
//! subscript, which is one-based in the surface syntax and stays that way.
//!
//! # Rendering
//!
//! Nothing here stores pre-rendered text. A one-line form and an expanded form,
//! with the source and a caret under the offending text, are built from the
//! structured data when asked for. How a number is spelled is the caller's: each
//! form takes a function from a number to its text.

use vstd::prelude::*;
use std::ops::Range;
use crate::number::{zero, Real};
use crate::text::{characters, contents, decimal, integer, join, joined, lines, lines_of, natural, repeat, repeated};

verus! {

/// Half-open range over the source text, measured in Unicode scalar values.
///
/// Character offsets rather than UTF-8 byte offsets: identifiers may be
/// Unicode, and consumers place carets by character, not by byte.
#[derive(Debug, Clone, Copy, PartialEq, Eq, Structural)]
pub struct Span {
    pub start: u32,
    pub end: u32,
}

/// The first character that takes two bytes in UTF-8.
const TWO_BYTES: char = '\u{80}';

/// The first character that takes three bytes in UTF-8.
const THREE_BYTES: char = '\u{800}';

/// The first character that takes four bytes in UTF-8.
const FOUR_BYTES: char = '\u{10000}';

/// How many bytes a character takes in UTF-8.
pub open spec fn utf8_width(c: char) -> int {
    let code = c as int;
    if code < 0x80 {
        1
    } else if code < 0x800 {
        2
    } else if code < 0x10000 {
        3
    } else {
        4
    }
}

/// How many bytes a text takes in UTF-8.
pub open spec fn utf8_size(text: Seq<char>) -> int
    decreases text.len(),
{
    if text.len() == 0 {
        0
    } else {
        utf8_size(text.drop_last()) + utf8_width(text.last())
    }
}

/// Whether `count` is how many whole characters the first `byte` bytes hold.
pub open spec fn whole_characters(text: Seq<char>, byte: int, count: int) -> bool {
    &&& 0 <= count <= text.len()
    &&& utf8_size(text.take(count)) <= byte
    &&& count < text.len() ==> utf8_size(text.take(count + 1)) > byte
}

proof fn size_grows(text: Seq<char>, a: int, b: int)
    requires
        0 <= a <= b <= text.len(),
    ensures
        0 <= utf8_size(text.take(a)) <= utf8_size(text.take(b)),
    decreases b,
{
    if a < b {
        size_grows(text, a, b - 1);
        assert(text.take(b).drop_last() =~= text.take(b - 1));
    } else if a > 0 {
        size_grows(text, a - 1, a - 1);
        assert(text.take(a).drop_last() =~= text.take(a - 1));
    }
}

/// The first bytes of a text hold one number of whole characters.
pub proof fn whole_characters_are_unique(text: Seq<char>, byte: int, m: int, n: int)
    requires
        whole_characters(text, byte, m),
        whole_characters(text, byte, n),
    ensures
        m == n,
{
    if m < n {
        size_grows(text, m + 1, n);
    } else if n < m {
        size_grows(text, n + 1, m);
    }
}

impl Span {
    pub fn new(start: u32, end: u32) -> (span: Self)
        ensures
            span == (Span { start, end }),
    {
        Self { start, end }
    }

    pub fn is_empty(self) -> (empty: bool)
        ensures
            empty == (self.end <= self.start),
    {
        self.end <= self.start
    }

    /// Converts a UTF-8 byte range into character offsets.
    ///
    /// A byte past the end of the source clamps to the end, and one inside a
    /// character rounds down to its start. An offset past the largest
    /// representable one is that one.
    pub fn from_utf8_range(source: &str, bytes: Range<usize>) -> (span: Self)
        ensures
            exists|start: int, end: int|
                {
                    &&& #[trigger] whole_characters(source@, bytes.start as int, start)
                    &&& #[trigger] whole_characters(source@, bytes.end as int, end)
                    &&& span.start == (if start <= u32::MAX { start } else { u32::MAX as int })
                    &&& span.end == (if end <= u32::MAX { end } else { u32::MAX as int })
                },
    {
        let list = characters(source);
        let start: usize = characters_before(&list, bytes.start);
        let end: usize = characters_before(&list, bytes.end);
        assert(whole_characters(source@, bytes.start as int, start as int));
        assert(whole_characters(source@, bytes.end as int, end as int));
        Self::new(clamped(start), clamped(end))
    }
}

fn clamped(n: usize) -> (least: u32)
    ensures
        least == (if n <= u32::MAX { n as int } else { u32::MAX as int }),
{
    if n as u64 <= 0xffff_ffff {
        n as u32
    } else {
        0xffff_ffff
    }
}

fn characters_before(list: &Vec<char>, byte: usize) -> (count: usize)
    ensures
        whole_characters(list@, byte as int, count as int),
{
    let mut left: usize = byte;
    for count in 0..list.len()
        invariant
            left + utf8_size(list@.take(count as int)) == byte,
            utf8_size(list@.take(count as int)) >= 0,
    {
        let c: char = list[count];
        let width: usize = if c < TWO_BYTES {
            1
        } else if c < THREE_BYTES {
            2
        } else if c < FOUR_BYTES {
            3
        } else {
            4
        };
        assert(list@.take(count + 1).drop_last() =~= list@.take(count as int));
        if width > left {
            return count;
        }
        left = left - width;
    }
    list.len()
}

/// Zero-based line and column at the end of a text.
pub open spec fn line_and_column(text: Seq<char>) -> (int, int)
    decreases text.len(),
{
    if text.len() == 0 {
        (0, 0)
    } else {
        let (line, column) = line_and_column(text.drop_last());
        if text.last() == '\n' {
            (line + 1, 0)
        } else {
            (line, column + 1)
        }
    }
}

/// The first `count` characters of a text, or all of it.
pub open spec fn at_most(text: Seq<char>, count: int) -> Seq<char> {
    if count <= text.len() {
        text.take(count)
    } else {
        text
    }
}

/// Zero-based line and column of a character offset.
///
/// The single place either is computed, so the two can never disagree.
pub fn line_col_idx(source: &str, char_idx: u32) -> (at: (u32, u32))
    ensures
        (at.0 as int, at.1 as int) == line_and_column(at_most(source@, char_idx as int)),
{
    let list = characters(source);
    let mut line_idx: u32 = 0;
    let mut column_idx: u32 = 0;
    let mut i: usize = 0;
    while i < list.len() && i < char_idx as usize
        invariant
            i <= list@.len(),
            i <= char_idx,
            line_idx <= i,
            column_idx <= i,
            (line_idx as int, column_idx as int) == line_and_column(list@.take(i as int)),
        decreases list@.len() - i,
    {
        assert(list@.take(i + 1).drop_last() =~= list@.take(i as int));
        if list[i] == '\n' {
            line_idx = line_idx + 1;
            column_idx = 0;
        } else {
            column_idx = column_idx + 1;
        }
        i = i + 1;
    }
    assert(list@.take(i as int) =~= at_most(list@, char_idx as int));
    (line_idx, column_idx)
}

/// Which aggregate bound was rejected.
#[derive(Debug, Clone, Copy, PartialEq, Eq, Structural)]
pub enum BoundKind {
    Lower,
    Upper,
}

impl BoundKind {
    pub open spec fn words(self) -> Seq<char> {
        match self {
            BoundKind::Lower => "lower"@,
            BoundKind::Upper => "upper"@,
        }
    }

    pub fn text(self) -> (text: &'static str)
        ensures
            text@ == self.words(),
    {
        match self {
            BoundKind::Lower => "lower",
            BoundKind::Upper => "upper",
        }
    }
}

/// What went wrong.
#[derive(Debug, Clone, PartialEq)]
pub enum ProblemKind {
    /// The supplied source text was empty.
    EmptyExpression,
    /// A diagnostic from the parser, forwarded as reported. `from_lexer`
    /// separates "that character cannot start a token" from "that construct is
    /// wrong".
    Syntax { message: String, from_lexer: bool },
    /// A construct that parses but cannot be lowered yet.
    Unsupported { feature: String },
    /// The expression names a variable nothing supplies. Located at the name's
    /// first reference; a name used twice is one problem.
    Unbound { name: String },
    /// A `sum`/`prod` bound is a constant that is not a usable index: NaN,
    /// infinite, or fractional.
    IllegalAggregateBound { bound: BoundKind, value: Real },
    /// A `sum`/`prod` bound that is not a constant expression.
    AggregateBoundNotConstant { bound: BoundKind },
    /// A `sum`/`prod` spanning more terms than will be unrolled.
    AggregateTooWide { terms: i64, limit: i64 },
    /// `var[i]` addressed a parameter that does not exist.
    DynamicIndexOutOfBounds { requested_1index: i64, available: usize },
    /// `var[i]` was given a literal that is not a whole number.
    DynamicIndexNotAnInteger { value: Real },
    /// A subscript the row decides that is not a whole number by construction.
    SubscriptNotIntegral,
    /// `var[0]`, written as such.
    ZeroIndex,
    /// `var[i]` was given a negative literal, which no schema can satisfy.
    NegativeDynamicIndex { requested_1index: i64 },
    /// A subexpression made only of constants works out to NaN or an infinity.
    NonFiniteConstant { value: Real },
    /// An equality's `+/-` tolerance is zero or negative.
    DegenerateTolerance { tolerance: Real },
    /// A subexpression evaluated to NaN or an infinity for this row. Reported
    /// at the *innermost* subexpression that produced it.
    NonFiniteValue { value: Real },
    /// A name declared twice.
    Duplicate { name: String },
    /// An expression reads an output whose expression is a constraint.
    ConstraintAsValue { name: String },
    /// An output depends on itself, directly or round a chain. `chain` is the
    /// outputs round the cycle, starting from the expression whose reference
    /// closed it.
    Cycle { chain: Vec<String> },
}

/// The ending of an ordinal: `1st`, `2nd`, `3rd`, `4th`, and `11th` to `13th`.
pub open spec fn ordinal_ending(n: int) -> Seq<char> {
    let magnitude = if n < 0 {
        -n
    } else {
        n
    };
    if 11 <= magnitude % 100 <= 13 {
        "th"@
    } else if magnitude % 10 == 1 {
        "st"@
    } else if magnitude % 10 == 2 {
        "nd"@
    } else if magnitude % 10 == 3 {
        "rd"@
    } else {
        "th"@
    }
}

fn ordinal_suffix(n: i64) -> (text: &'static str)
    requires
        n > i64::MIN,
    ensures
        text@ == ordinal_ending(n as int),
{
    let magnitude: i64 = if n < 0 {
        -n
    } else {
        n
    };
    if 11 <= magnitude % 100 && magnitude % 100 <= 13 {
        "th"
    } else if magnitude % 10 == 1 {
        "st"
    } else if magnitude % 10 == 2 {
        "nd"
    } else if magnitude % 10 == 3 {
        "rd"
    } else {
        "th"
    }
}

/// The names round a cycle, back to the first.
pub open spec fn round(chain: Seq<Seq<char>>) -> Seq<Seq<char>> {
    if chain.len() == 0 {
        chain
    } else {
        chain.push(chain[0])
    }
}

/// Concatenates three texts.
fn sandwich(a: &str, b: &str, c: &str) -> (text: String)
    ensures
        text@ == a@ + b@ + c@,
{
    let mut text = a.to_owned();
    text.append(b);
    text.append(c);
    text
}

impl ProblemKind {
    /// The clause after `Error in '…': `.
    pub open spec fn clause(self) -> Seq<char> {
        match self {
            ProblemKind::EmptyExpression => "expression is empty"@,
            ProblemKind::Syntax { .. } => "syntax error"@,
            ProblemKind::Unsupported { feature } => feature@ + " is not supported yet"@,
            ProblemKind::Unbound { .. } => "unknown variable"@,
            ProblemKind::IllegalAggregateBound { bound, .. } => "illegal "@ + bound.words() + " bound value"@,
            ProblemKind::AggregateBoundNotConstant { bound } => "the "@ + bound.words()
                + " bound of a sum or prod must be a constant"@,
            ProblemKind::AggregateTooWide { terms, limit } => "a sum or prod over "@ + decimal(terms as int)
                + " terms is wider than the "@ + decimal(limit as int) + " supported"@,
            ProblemKind::DynamicIndexOutOfBounds { requested_1index, available } => "attempted to access 'var["@
                + decimal(requested_1index as int) + "]' (the "@ + decimal(requested_1index as int) + ordinal_ending(
                requested_1index as int,
            ) + " parameter) when only "@ + decimal(available as int) + " exist"@,
            ProblemKind::DynamicIndexNotAnInteger { .. } => "attempted to use a non-integer as an index"@,
            ProblemKind::SubscriptNotIntegral => "this subscript is not a whole number by construction"@,
            ProblemKind::ZeroIndex => "var[0] is not the first parameter (did you mean var[1]?)"@,
            ProblemKind::NegativeDynamicIndex { requested_1index } => "attempted to access 'var["@ + decimal(
                requested_1index as int,
            ) + "]', but subscripts start at 1"@,
            ProblemKind::NonFiniteConstant { value } => "this is constantly "@ + if value.nan() {
                "NaN"@
            } else {
                "infinite"@
            },
            ProblemKind::DegenerateTolerance { tolerance } => if tolerance.below(zero()) {
                "a negative tolerance is satisfied by nothing"@
            } else {
                "a tolerance of zero is exact floating-point equality, which has no volume to sample; give the band a width"@
            },
            ProblemKind::NonFiniteValue { value } => "this evaluated to something "@ + if value.nan() {
                "not a number"@
            } else {
                "infinite"@
            },
            ProblemKind::Duplicate { name } => "'"@ + name@ + "' is declared more than once"@,
            ProblemKind::ConstraintAsValue { name } => "'"@ + name@ + "' is a constraint and has no value to read"@,
            ProblemKind::Cycle { chain } => "'"@ + (if chain@.len() == 0 {
                ""@
            } else {
                chain@[0]@
            }) + "' depends on itself: "@ + joined(round(contents(chain@)), " -> "@),
        }
    }

    /// Whether a subscript it names has a magnitude.
    pub open spec fn nameable(self) -> bool {
        self matches ProblemKind::DynamicIndexOutOfBounds { requested_1index, .. } ==> requested_1index > i64::MIN
    }

    /// The clause after `Error in '…': `.
    pub fn summary(&self) -> (text: String)
        requires
            self.nameable(),
        ensures
            text@ == self.clause(),
    {
        match self {
            ProblemKind::EmptyExpression => "expression is empty".to_owned(),
            ProblemKind::Syntax { .. } => "syntax error".to_owned(),
            ProblemKind::Unsupported { feature } => {
                let mut text = feature.as_str().to_owned();
                text.append(" is not supported yet");
                text
            },
            ProblemKind::Unbound { .. } => "unknown variable".to_owned(),
            ProblemKind::IllegalAggregateBound { bound, .. } => sandwich("illegal ", bound.text(), " bound value"),
            ProblemKind::AggregateBoundNotConstant { bound } => sandwich(
                "the ",
                bound.text(),
                " bound of a sum or prod must be a constant",
            ),
            ProblemKind::AggregateTooWide { terms, limit } => {
                let count = integer(*terms);
                let most = integer(*limit);
                let mut text = sandwich("a sum or prod over ", count.as_str(), " terms is wider than the ");
                text.append(most.as_str());
                text.append(" supported");
                text
            },
            ProblemKind::DynamicIndexOutOfBounds { requested_1index, available } => {
                let requested = integer(*requested_1index);
                let count = natural(*available as u64);
                let mut text = sandwich("attempted to access 'var[", requested.as_str(), "]' (the ");
                text.append(requested.as_str());
                text.append(ordinal_suffix(*requested_1index));
                text.append(" parameter) when only ");
                text.append(count.as_str());
                text.append(" exist");
                text
            },
            ProblemKind::DynamicIndexNotAnInteger { .. } => "attempted to use a non-integer as an index".to_owned(),
            ProblemKind::SubscriptNotIntegral => "this subscript is not a whole number by construction".to_owned(),
            ProblemKind::ZeroIndex => "var[0] is not the first parameter (did you mean var[1]?)".to_owned(),
            ProblemKind::NegativeDynamicIndex { requested_1index } => {
                let requested = integer(*requested_1index);
                sandwich("attempted to access 'var[", requested.as_str(), "]', but subscripts start at 1")
            },
            ProblemKind::NonFiniteConstant { value } => {
                let what = if value.is_nan() {
                    "NaN"
                } else {
                    "infinite"
                };
                let mut text = "this is constantly ".to_owned();
                text.append(what);
                text
            },
            ProblemKind::DegenerateTolerance { tolerance } => {
                if tolerance.lt(zero()) {
                    "a negative tolerance is satisfied by nothing".to_owned()
                } else {
                    "a tolerance of zero is exact floating-point equality, which has no volume to sample; give the band a width".to_owned()
                }
            },
            ProblemKind::NonFiniteValue { value } => {
                let what = if value.is_nan() {
                    "not a number"
                } else {
                    "infinite"
                };
                let mut text = "this evaluated to something ".to_owned();
                text.append(what);
                text
            },
            ProblemKind::Duplicate { name } => sandwich("'", name.as_str(), "' is declared more than once"),
            ProblemKind::ConstraintAsValue { name } => sandwich(
                "'",
                name.as_str(),
                "' is a constraint and has no value to read",
            ),
            ProblemKind::Cycle { chain } => {
                let mut names: Vec<String> = Vec::new();
                for i in 0..chain.len()
                    invariant
                        contents(names@) =~= contents(chain@).take(i as int),
                {
                    let ghost earlier = names@;
                    let name = chain[i].as_str().to_owned();
                    names.push(name);
                    assert(contents(names@) =~= contents(earlier).push(chain@[i as int]@));
                }
                let ghost listed = names@;
                assert(contents(listed) =~= contents(chain@));
                let first = if chain.len() == 0 {
                    ""
                } else {
                    let again = chain[0].as_str().to_owned();
                    names.push(again);
                    assert(contents(names@) =~= contents(listed).push(chain@[0]@));
                    chain[0].as_str()
                };
                assert(contents(names@) =~= round(contents(chain@)));
                let circle = join(&names, " -> ");
                let mut text = sandwich("'", first, "' depends on itself: ");
                text.append(circle.as_str());
                text
            },
        }
    }

    /// The note printed after the underline, for a spelling of numbers. Empty
    /// when there is nothing to add.
    pub open spec fn note(self, spelled: spec_fn(Real) -> Seq<char>) -> Seq<char> {
        match self {
            ProblemKind::EmptyExpression => ""@,
            ProblemKind::Unsupported { .. } => ""@,
            ProblemKind::ZeroIndex => ""@,
            ProblemKind::AggregateBoundNotConstant { .. } => ""@,
            ProblemKind::AggregateTooWide { .. } => ""@,
            ProblemKind::Duplicate { .. } => ""@,
            ProblemKind::Cycle { .. } => ""@,
            ProblemKind::ConstraintAsValue { .. } =>
            "a boolean is not a number; compare against the expression instead"@,
            ProblemKind::Syntax { message, .. } => message@,
            ProblemKind::Unbound { .. } => "no input variable by that name"@,
            ProblemKind::SubscriptNotIntegral => "wrap it in floor() or ceil() to say which"@,
            ProblemKind::IllegalAggregateBound { value, .. } => "evaluates to "@ + spelled(value),
            ProblemKind::DynamicIndexNotAnInteger { value } => "evaluates to "@ + spelled(value),
            ProblemKind::NonFiniteConstant { value } => "evaluates to "@ + spelled(value),
            ProblemKind::NonFiniteValue { value } => "evaluates to "@ + spelled(value),
            ProblemKind::DegenerateTolerance { tolerance } => "evaluates to "@ + spelled(tolerance),
            ProblemKind::DynamicIndexOutOfBounds { requested_1index, .. } => "evaluates to "@ + decimal(
                requested_1index as int,
            ),
            ProblemKind::NegativeDynamicIndex { requested_1index } => "evaluates to "@ + decimal(
                requested_1index as int,
            ),
        }
    }

    /// The note printed after the underline. Empty when there is nothing to
    /// add.
    pub fn annotation<F: Fn(Real) -> String>(&self, spell: &F) -> (text: String)
        requires
            spells(*spell),
        ensures
            forall|spelled: spec_fn(Real) -> Seq<char>| #[trigger]
                spells_as(*spell, spelled) ==> text@ == self.note(spelled),
    {
        match self {
            ProblemKind::EmptyExpression => "".to_owned(),
            ProblemKind::Unsupported { .. } => "".to_owned(),
            ProblemKind::ZeroIndex => "".to_owned(),
            ProblemKind::AggregateBoundNotConstant { .. } => "".to_owned(),
            ProblemKind::AggregateTooWide { .. } => "".to_owned(),
            ProblemKind::Duplicate { .. } => "".to_owned(),
            ProblemKind::Cycle { .. } => "".to_owned(),
            ProblemKind::ConstraintAsValue { .. } =>
            "a boolean is not a number; compare against the expression instead".to_owned(),
            ProblemKind::Syntax { message, .. } => message.as_str().to_owned(),
            ProblemKind::Unbound { .. } => "no input variable by that name".to_owned(),
            ProblemKind::SubscriptNotIntegral => "wrap it in floor() or ceil() to say which".to_owned(),
            ProblemKind::IllegalAggregateBound { value, .. } => evaluates_to(spell, *value),
            ProblemKind::DynamicIndexNotAnInteger { value } => evaluates_to(spell, *value),
            ProblemKind::NonFiniteConstant { value } => evaluates_to(spell, *value),
            ProblemKind::NonFiniteValue { value } => evaluates_to(spell, *value),
            ProblemKind::DegenerateTolerance { tolerance } => evaluates_to(spell, *tolerance),
            ProblemKind::DynamicIndexOutOfBounds { requested_1index, .. } => {
                let mut text = "evaluates to ".to_owned();
                text.append(integer(*requested_1index).as_str());
                text
            },
            ProblemKind::NegativeDynamicIndex { requested_1index } => {
                let mut text = "evaluates to ".to_owned();
                text.append(integer(*requested_1index).as_str());
                text
            },
        }
    }
}

/// Whether `spell` can spell every number.
pub open spec fn spells<F: Fn(Real) -> String>(spell: F) -> bool {
    forall|value: Real| #[trigger] call_requires(spell, (value,))
}

/// Whether `spell` spells every number as `spelled` has it.
pub open spec fn spells_as<F: Fn(Real) -> String>(spell: F, spelled: spec_fn(Real) -> Seq<char>) -> bool {
    forall|value: Real, text: String| #[trigger] call_ensures(spell, (value,), text) ==> text@ == spelled(value)
}

fn evaluates_to<F: Fn(Real) -> String>(spell: &F, value: Real) -> (text: String)
    requires
        spells(*spell),
    ensures
        forall|spelled: spec_fn(Real) -> Seq<char>| #[trigger]
            spells_as(*spell, spelled) ==> text@ == "evaluates to "@ + spelled(value),
{
    let mut text = "evaluates to ".to_owned();
    let number = spell(value);
    text.append(number.as_str());
    text
}

/// A failure that knows *what* and *where*, but not the text it is in.
#[derive(Debug, Clone, PartialEq)]
pub struct Fault {
    pub kind: ProblemKind,
    pub span: Span,
}

/// One problem, located in the source text it was found in.
#[derive(Debug, Clone, PartialEq)]
pub struct Problem {
    pub kind: ProblemKind,
    /// The full source, so a rendering needs no other context.
    pub source: String,
    /// The offending text, exactly as located.
    pub span: Span,
    /// Zero-based line index of `span.start`.
    pub line_idx: u32,
    /// Zero-based character index within that line.
    pub column_idx: u32,
}

/// The part of a text a span covers.
pub open spec fn covered(source: Seq<char>, span: Span) -> Seq<char> {
    let rest = if span.start <= source.len() {
        source.skip(span.start as int)
    } else {
        Seq::empty()
    };
    at_most(rest, if span.end >= span.start { span.end - span.start } else { 0 })
}

impl Problem {
    /// Builds a problem, deriving line and column from `span.start`.
    pub fn new(kind: ProblemKind, source: &str, span: Span) -> (problem: Self)
        ensures
            problem.kind == kind,
            problem.source@ == source@,
            problem.span == span,
            (problem.line_idx as int, problem.column_idx as int) == line_and_column(
                at_most(source@, span.start as int),
            ),
    {
        let (line_idx, column_idx) = line_col_idx(source, span.start);
        Self { kind, source: source.to_owned(), span, line_idx, column_idx }
    }

    /// The offending source text. Empty for a zero-width span, which is how
    /// end-of-input is reported.
    pub fn text(&self) -> (text: String)
        ensures
            text@ == covered(self.source@, self.span),
    {
        let source = self.source.as_str();
        let length: usize = source.unicode_len();
        let from: usize = if self.span.start as usize <= length {
            self.span.start as usize
        } else {
            length
        };
        let width: usize = if self.span.end >= self.span.start {
            (self.span.end - self.span.start) as usize
        } else {
            0
        };
        let to: usize = if width <= length - from {
            from + width
        } else {
            length
        };
        let part = source.substring_char(from, to);
        assert(part@ =~= covered(self.source@, self.span));
        part.to_owned()
    }
}

// ---- rendering ----

/// What an underline of `width` at `column` of a line looks like. A column past
/// the end of the line is its last character: a zero-width span means the end
/// of the input, and is underlined rather than left out.
pub open spec fn underlined(line: Seq<char>, column: int, width: int, note: Seq<char>) -> Seq<char> {
    let at = if column >= line.len() && line.len() > 0 {
        line.len() - 1
    } else {
        column
    };
    let mark = repeated(" "@, at) + repeated("~"@, width);
    if note.len() == 0 {
        mark
    } else {
        mark + " "@ + note
    }
}

impl Problem {
    /// The text a rendering names: the offending text, or the end.
    pub open spec fn subject(self) -> Seq<char> {
        if covered(self.source@, self.span).len() == 0 {
            "end of expression"@
        } else {
            covered(self.source@, self.span)
        }
    }

    /// The one-line form. An empty source has nowhere to point.
    pub open spec fn line(self, spelled: spec_fn(Real) -> Seq<char>) -> Seq<char> {
        if self.source@.len() == 0 {
            self.kind.clause()
        } else {
            let head = self.kind.clause() + " at '"@ + self.subject() + "'"@;
            if self.kind.note(spelled).len() == 0 {
                head
            } else {
                head + ": "@ + self.kind.note(spelled)
            }
        }
    }

    /// How many characters are underlined.
    pub open spec fn width(self) -> int {
        if self.span.end > self.span.start {
            self.span.end - self.span.start
        } else {
            1
        }
    }

    /// The expanded form: a heading, and the source with the offending text
    /// underlined.
    pub open spec fn block(self, spelled: spec_fn(Real) -> Seq<char>) -> Seq<char> {
        let head = "Error in '"@ + self.subject() + "': "@ + self.kind.clause() + "."@;
        let source = lines_of(self.source@);
        let at = self.line_idx as int;
        let rows = if at < source.len() {
            source.take(at + 1) + seq![
                underlined(source[at], self.column_idx as int, self.width(), self.kind.note(spelled)),
            ] + source.skip(at + 1)
        } else {
            source
        };
        joined(seq![head] + rows, "\n"@)
    }

    fn named_subject(&self) -> (text: String)
        ensures
            text@ == self.subject(),
    {
        let text = self.text();
        if text.as_str().is_empty() {
            "end of expression".to_owned()
        } else {
            text
        }
    }

    /// The one-line form.
    pub fn to_line<F: Fn(Real) -> String>(&self, spell: &F) -> (text: String)
        requires
            self.kind.nameable(),
            spells(*spell),
        ensures
            forall|spelled: spec_fn(Real) -> Seq<char>| #[trigger]
                spells_as(*spell, spelled) ==> text@ == self.line(spelled),
    {
        let summary = self.kind.summary();
        if self.source.as_str().is_empty() {
            return summary;
        }
        let subject = self.named_subject();
        let annotation = self.kind.annotation(spell);
        let mut text = summary;
        text.append(" at '");
        text.append(subject.as_str());
        text.append("'");
        if !annotation.as_str().is_empty() {
            text.append(": ");
            text.append(annotation.as_str());
        }
        text
    }

    /// The expanded form.
    pub fn to_block<F: Fn(Real) -> String>(&self, spell: &F) -> (text: String)
        requires
            self.kind.nameable(),
            spells(*spell),
        ensures
            forall|spelled: spec_fn(Real) -> Seq<char>| #[trigger]
                spells_as(*spell, spelled) ==> text@ == self.block(spelled),
    {
        let subject = self.named_subject();
        let summary = self.kind.summary();
        let annotation = self.kind.annotation(spell);
        let mut head = sandwich("Error in '", subject.as_str(), "': ");
        head.append(summary.as_str());
        head.append(".");
        let source = lines(self.source.as_str());
        let ghost all = contents(source@);
        let ghost at = self.line_idx as int;
        let mut out: Vec<String> = Vec::new();
        out.push(head);
        let ghost heading = seq![head@];
        assert(contents(out@) =~= heading);
        let width: usize = if self.span.end > self.span.start {
            (self.span.end - self.span.start) as usize
        } else {
            1
        };
        let ghost mark = if at < all.len() {
            underlined(all[at], self.column_idx as int, width as int, annotation@)
        } else {
            Seq::empty()
        };
        for idx in 0..source.len()
            invariant
                all == contents(source@),
                at == self.line_idx,
                width == self.width(),
                at < all.len() ==> mark == underlined(all[at], self.column_idx as int, width as int, annotation@),
                contents(out@) == heading + (if idx <= at {
                    all.take(idx as int)
                } else {
                    all.take(at + 1) + seq![mark] + all.subrange(at + 1, idx as int)
                }),
        {
            let line = source[idx].as_str();
            let ghost before = out@;
            out.push(line.to_owned());
            proof {
                assert(contents(out@) =~= contents(before).push(all[idx as int]));
                assert(all.take(idx + 1) =~= all.take(idx as int).push(all[idx as int]));
                if idx > at {
                    assert(all.subrange(at + 1, idx + 1) =~= all.subrange(at + 1, idx as int).push(all[idx as int]));
                    assert(contents(out@) =~= heading + (all.take(at + 1) + seq![mark] + all.subrange(at + 1, idx + 1)));
                } else {
                    assert(contents(out@) =~= heading + all.take(idx + 1));
                }
            }
            if idx as u64 == self.line_idx as u64 {
                let line_len: usize = line.unicode_len();
                let mut column: usize = self.column_idx as usize;
                if column >= line_len && line_len > 0 {
                    column = line_len - 1;
                }
                let mut underline = repeat(" ", column);
                underline.append(repeat("~", width).as_str());
                if !annotation.as_str().is_empty() {
                    underline.append(" ");
                    underline.append(annotation.as_str());
                }
                let ghost during = out@;
                out.push(underline);
                proof {
                    assert(underline@ =~= mark);
                    assert(contents(out@) =~= contents(during).push(mark));
                    assert(all.subrange(at + 1, idx + 1) =~= Seq::empty());
                    assert(contents(out@) =~= heading + (all.take(at + 1) + seq![mark] + all.subrange(at + 1, idx + 1)));
                }
            }
        }
        proof {
            let count = all.len() as int;
            assert(all.take(count) =~= all);
            if at < count {
                assert(all.subrange(at + 1, count) =~= all.skip(at + 1));
            }
        }
        join(&out, "\n")
    }
}

/// A problem raised during evaluation, with the state that produced it.
#[derive(Debug, Clone, PartialEq)]
pub struct RuntimeProblem {
    pub problem: Problem,
    /// Which column of the batch failed.
    pub sample: Option<usize>,
    /// Lambda parameters and `var x = …` bindings in scope at the failure.
    pub locals: Vec<(String, Real)>,
    /// The bound schema's values.
    pub parameters: Vec<(String, Real)>,
}

/// `name=value`, for each binding.
pub open spec fn spelled_bindings(bindings: Seq<(String, Real)>, spelled: spec_fn(Real) -> Seq<char>) -> Seq<Seq<char>> {
    bindings.map_values(|binding: (String, Real)| binding.0@ + "="@ + spelled(binding.1))
}

fn join_bindings<F: Fn(Real) -> String>(bindings: &Vec<(String, Real)>, spell: &F) -> (text: String)
    requires
        spells(*spell),
    ensures
        forall|spelled: spec_fn(Real) -> Seq<char>| #[trigger]
            spells_as(*spell, spelled) ==> text@ == joined(spelled_bindings(bindings@, spelled), ", "@),
{
    let mut parts: Vec<String> = Vec::new();
    for i in 0..bindings.len()
        invariant
            spells(*spell),
            forall|spelled: spec_fn(Real) -> Seq<char>| #[trigger]
                spells_as(*spell, spelled) ==> contents(parts@) == spelled_bindings(bindings@, spelled).take(i as int),
    {
        let value = spell(bindings[i].1);
        let part = sandwich(bindings[i].0.as_str(), "=", value.as_str());
        let ghost before = parts@;
        parts.push(part);
        proof {
            assert(contents(parts@) =~= contents(before).push(part@));
            assert forall|spelled: spec_fn(Real) -> Seq<char>| #[trigger]
                spells_as(*spell, spelled) implies contents(parts@) == spelled_bindings(bindings@, spelled).take(i + 1) by {
                let all = spelled_bindings(bindings@, spelled);
                assert(all.take(i + 1) =~= all.take(i as int).push(all[i as int]));
            }
        }
    }
    proof {
        assert forall|spelled: spec_fn(Real) -> Seq<char>| #[trigger]
            spells_as(*spell, spelled) implies contents(parts@) == spelled_bindings(bindings@, spelled) by {
            let all = spelled_bindings(bindings@, spelled);
            assert(all.take(bindings@.len() as int) =~= all);
        }
    }
    join(&parts, ", ")
}

impl RuntimeProblem {
    /// The expanded form: the problem, then the state.
    pub open spec fn block(self, spelled: spec_fn(Real) -> Seq<char>) -> Seq<char> {
        self.problem.block(spelled) + "\nlocal-variables{"@ + joined(
            spelled_bindings(self.locals@, spelled),
            ", "@,
        ) + "}\nparameters{"@ + joined(spelled_bindings(self.parameters@, spelled), ", "@) + "}"@
    }

    /// The one-line form is the problem's: a log line does not want a hundred
    /// parameters in it.
    pub fn to_line<F: Fn(Real) -> String>(&self, spell: &F) -> (text: String)
        requires
            self.problem.kind.nameable(),
            spells(*spell),
        ensures
            forall|spelled: spec_fn(Real) -> Seq<char>| #[trigger]
                spells_as(*spell, spelled) ==> text@ == self.problem.line(spelled),
    {
        self.problem.to_line(spell)
    }

    /// The expanded form.
    pub fn to_block<F: Fn(Real) -> String>(&self, spell: &F) -> (text: String)
        requires
            self.problem.kind.nameable(),
            spells(*spell),
        ensures
            forall|spelled: spec_fn(Real) -> Seq<char>| #[trigger]
                spells_as(*spell, spelled) ==> text@ == self.block(spelled),
    {
        let locals = join_bindings(&self.locals, spell);
        let parameters = join_bindings(&self.parameters, spell);
        let mut text = self.problem.to_block(spell);
        text.append("\nlocal-variables{");
        text.append(locals.as_str());
        text.append("}\nparameters{");
        text.append(parameters.as_str());
        text.append("}");
        text
    }
}

/// Compilation produced no evaluable expression: every problem found, each with
/// its span.
#[derive(Debug, Clone, PartialEq)]
pub struct CompilationFailure {
    pub source: String,
    pub problems: Vec<Problem>,
}

/// Whether every problem can be named.
pub open spec fn all_nameable(problems: Seq<Problem>) -> bool {
    forall|i: int| 0 <= i < problems.len() ==> (#[trigger] problems[i]).kind.nameable()
}

impl CompilationFailure {
    /// One line per problem, or a block per problem with a blank line between.
    pub open spec fn rendering(self, expanded: bool, spelled: spec_fn(Real) -> Seq<char>) -> Seq<char> {
        joined(
            self.problems@.map_values(
                |problem: Problem| if expanded {
                    problem.block(spelled)
                } else {
                    problem.line(spelled)
                },
            ),
            if expanded {
                "\n\n"@
            } else {
                "\n"@
            },
        )
    }

    pub fn render<F: Fn(Real) -> String>(&self, expanded: bool, spell: &F) -> (text: String)
        requires
            all_nameable(self.problems@),
            spells(*spell),
        ensures
            forall|spelled: spec_fn(Real) -> Seq<char>| #[trigger]
                spells_as(*spell, spelled) ==> text@ == self.rendering(expanded, spelled),
    {
        let mut parts: Vec<String> = Vec::new();
        for i in 0..self.problems.len()
            invariant
                all_nameable(self.problems@),
                spells(*spell),
                parts@.len() == i,
                forall|spelled: spec_fn(Real) -> Seq<char>, j: int|
                    #![trigger spells_as(*spell, spelled), parts@[j]]
                    spells_as(*spell, spelled) && 0 <= j < i ==> parts@[j]@ == (if expanded {
                        self.problems@[j].block(spelled)
                    } else {
                        self.problems@[j].line(spelled)
                    }),
        {
            let part = if expanded {
                self.problems[i].to_block(spell)
            } else {
                self.problems[i].to_line(spell)
            };
            parts.push(part);
        }
        proof {
            assert forall|spelled: spec_fn(Real) -> Seq<char>| #[trigger]
                spells_as(*spell, spelled) implies contents(parts@) == self.problems@.map_values(
                |problem: Problem| if expanded {
                    problem.block(spelled)
                } else {
                    problem.line(spelled)
                },
            ) by {
                assert(contents(parts@) =~= self.problems@.map_values(
                    |problem: Problem| if expanded {
                        problem.block(spelled)
                    } else {
                        problem.line(spelled)
                    },
                ));
            }
        }
        join(
            &parts,
            if expanded {
                "\n\n"
            } else {
                "\n"
            },
        )
    }
}

/// One problem and the declared name it belongs to.
#[derive(Debug, Clone, PartialEq)]
pub struct NamedProblem {
    pub name: String,
    pub problem: Problem,
}

impl NamedProblem {
    /// `name: ` and the line, or the name over the block.
    pub open spec fn rendering(self, expanded: bool, spelled: spec_fn(Real) -> Seq<char>) -> Seq<char> {
        if expanded {
            self.name@ + ":\n"@ + self.problem.block(spelled)
        } else {
            self.name@ + ": "@ + self.problem.line(spelled)
        }
    }
}

/// A document that compiled to no nodes: every problem found across every
/// expression, each under the name it belongs to.
#[derive(Debug, Clone, PartialEq)]
pub struct SystemCompilationFailure {
    pub problems: Vec<NamedProblem>,
}

impl SystemCompilationFailure {
    /// One line per problem, or a block per problem with a blank line between.
    pub open spec fn rendering(self, expanded: bool, spelled: spec_fn(Real) -> Seq<char>) -> Seq<char> {
        joined(
            self.problems@.map_values(|named: NamedProblem| named.rendering(expanded, spelled)),
            if expanded {
                "\n\n"@
            } else {
                "\n"@
            },
        )
    }

    pub fn render<F: Fn(Real) -> String>(&self, expanded: bool, spell: &F) -> (text: String)
        requires
            forall|i: int| 0 <= i < self.problems@.len() ==> (#[trigger] self.problems@[i]).problem.kind.nameable(),
            spells(*spell),
        ensures
            forall|spelled: spec_fn(Real) -> Seq<char>| #[trigger]
                spells_as(*spell, spelled) ==> text@ == self.rendering(expanded, spelled),
    {
        let mut parts: Vec<String> = Vec::new();
        for i in 0..self.problems.len()
            invariant
                forall|i: int|
                    0 <= i < self.problems@.len() ==> (#[trigger] self.problems@[i]).problem.kind.nameable(),
                spells(*spell),
                parts@.len() == i,
                forall|spelled: spec_fn(Real) -> Seq<char>, j: int|
                    #![trigger spells_as(*spell, spelled), parts@[j]]
                    spells_as(*spell, spelled) && 0 <= j < i ==> parts@[j]@ == self.problems@[j].rendering(
                        expanded,
                        spelled,
                    ),
        {
            let named = &self.problems[i];
            let part = if expanded {
                let block = named.problem.to_block(spell);
                sandwich(named.name.as_str(), ":\n", block.as_str())
            } else {
                let line = named.problem.to_line(spell);
                sandwich(named.name.as_str(), ": ", line.as_str())
            };
            parts.push(part);
        }
        proof {
            assert forall|spelled: spec_fn(Real) -> Seq<char>| #[trigger]
                spells_as(*spell, spelled) implies contents(parts@) == self.problems@.map_values(
                |named: NamedProblem| named.rendering(expanded, spelled),
            ) by {
                assert(contents(parts@) =~= self.problems@.map_values(
                    |named: NamedProblem| named.rendering(expanded, spelled),
                ));
            }
        }
        join(
            &parts,
            if expanded {
                "\n\n"
            } else {
                "\n"
            },
        )
    }
}

/// Evaluation failed.
#[derive(Debug, Clone, PartialEq)]
pub enum EvaluationFailure {
    /// The source never became an expression bound to the inputs given.
    Compile(CompilationFailure),
    /// A problem arose while evaluating.
    Runtime(Box<RuntimeProblem>),
    /// The row handed to `evaluate` did not match the bound schema's width.
    RowWidthMismatch { expected: usize, actual: usize },
}

impl EvaluationFailure {
    pub open spec fn nameable(self) -> bool {
        match self {
            EvaluationFailure::Compile(failure) => all_nameable(failure.problems@),
            EvaluationFailure::Runtime(problem) => problem.problem.kind.nameable(),
            EvaluationFailure::RowWidthMismatch { .. } => true,
        }
    }

    pub open spec fn rendering(self, expanded: bool, spelled: spec_fn(Real) -> Seq<char>) -> Seq<char> {
        match self {
            EvaluationFailure::Compile(failure) => failure.rendering(expanded, spelled),
            EvaluationFailure::Runtime(problem) => if expanded {
                problem.block(spelled)
            } else {
                problem.problem.line(spelled)
            },
            EvaluationFailure::RowWidthMismatch { expected, actual } => "expected a row of "@ + decimal(expected as int)
                + " value(s), got "@ + decimal(actual as int),
        }
    }

    pub fn render<F: Fn(Real) -> String>(&self, expanded: bool, spell: &F) -> (text: String)
        requires
            self.nameable(),
            spells(*spell),
        ensures
            forall|spelled: spec_fn(Real) -> Seq<char>| #[trigger]
                spells_as(*spell, spelled) ==> text@ == self.rendering(expanded, spelled),
    {
        match self {
            EvaluationFailure::Compile(failure) => failure.render(expanded, spell),
            EvaluationFailure::Runtime(problem) => if expanded {
                problem.to_block(spell)
            } else {
                problem.to_line(spell)
            },
            EvaluationFailure::RowWidthMismatch { expected, actual } => {
                let mut text = "expected a row of ".to_owned();
                text.append(natural(*expected as u64).as_str());
                text.append(" value(s), got ");
                text.append(natural(*actual as u64).as_str());
                text
            },
        }
    }
}

impl From<CompilationFailure> for EvaluationFailure {
    fn from(failure: CompilationFailure) -> (wrapped: Self) {
        EvaluationFailure::Compile(failure)
    }
}

impl vstd::std_specs::convert::FromSpecImpl<CompilationFailure> for EvaluationFailure {
    open spec fn obeys_from_spec() -> bool {
        true
    }

    open spec fn from_spec(failure: CompilationFailure) -> EvaluationFailure {
        EvaluationFailure::Compile(failure)
    }
}

// ---- what a place in a text is ----

/// How many newlines a text has.
pub open spec fn newlines(text: Seq<char>) -> nat {
    text.filter(|c: char| c == '\n').len()
}

/// A line is how many newlines come before, and a column how many characters since
/// the last of them: as many as there are before the place where there is none.
pub proof fn a_place_is_counted_from_its_line(text: Seq<char>)
    ensures
        ({
            let (line, column) = line_and_column(text);
            &&& line == newlines(text)
            &&& 0 <= column <= text.len()
            &&& forall|i: int| text.len() - column <= i < text.len() ==> #[trigger] text[i] != '\n'
            &&& column < text.len() ==> text[text.len() - column - 1] == '\n'
        }),
    decreases text.len(),
{
    let is_newline = |c: char| c == '\n';
    if text.len() == 0 {
        reveal(Seq::filter);
        assert(text.filter(is_newline) =~= Seq::empty());
    } else {
        let rest = text.drop_last();
        a_place_is_counted_from_its_line(rest);
        reveal(Seq::filter);
        let (line, column) = line_and_column(text);
        if text.last() != '\n' {
            assert forall|i: int| text.len() - column <= i < text.len() implies #[trigger] text[i] != '\n' by {
                if i < text.len() - 1 {
                    assert(rest[i] == text[i]);
                }
            }
            if column < text.len() {
                assert(rest[rest.len() - (column - 1) - 1] == '\n');
            }
        }
    }
}

/// What a span covers is where it says: character by character, from its start, as
/// many as it is long or as there are.
pub proof fn a_span_covers_what_it_points_at(source: Seq<char>, span: Span)
    ensures
        span.start <= span.end <= source.len() ==> covered(source, span).len() == span.end - span.start,
        span.end <= span.start || source.len() <= span.start ==> covered(source, span).len() == 0,
        span.start <= source.len() < span.end ==> covered(source, span).len() == source.len() - span.start,
        forall|i: int| 0 <= i < covered(source, span).len() ==> #[trigger] covered(source, span)[i] == source[span.start + i],
{
}

proof fn a_mark_repeated(part: Seq<char>, count: int)
    requires
        part.len() == 1,
        0 <= count,
    ensures
        repeated(part, count).len() == count,
        forall|i: int| 0 <= i < count ==> #[trigger] repeated(part, count)[i] == part[0],
    decreases count,
{
    if count > 0 {
        a_mark_repeated(part, count - 1);
    }
}

/// An underline is under what it underlines: blank before the column, marked for the
/// width, and then the note, if there is one; a column past the end is the last there
/// is.
pub proof fn an_underline_is_under_its_column(line: Seq<char>, column: int, width: int, note: Seq<char>)
    requires
        0 <= column,
        0 <= width,
    ensures
        ({
            let mark = underlined(line, column, width, note);
            let at = if line.len() == 0 || column < line.len() {
                column
            } else {
                line.len() - 1
            };
            &&& at + width <= mark.len()
            &&& forall|i: int| 0 <= i < at ==> #[trigger] mark[i] == ' '
            &&& forall|i: int| at <= i < at + width ==> #[trigger] mark[i] == '~'
            &&& note.len() == 0 ==> mark.len() == at + width
            &&& note.len() > 0 ==> mark.len() == at + width + 1 + note.len() && mark[at + width] == ' ' && mark.skip(
                at + width + 1,
            ) == note
        }),
{
    reveal_strlit(" ");
    reveal_strlit("~");
    let mark = underlined(line, column, width, note);
    let at = if line.len() == 0 || column < line.len() {
        column
    } else {
        line.len() - 1
    };
    a_mark_repeated(" "@, at);
    a_mark_repeated("~"@, width);
    let blank = repeated(" "@, at);
    let wave = repeated("~"@, width);
    assert forall|i: int| 0 <= i < at implies #[trigger] mark[i] == ' ' by {
        assert(mark[i] == blank[i]);
    }
    assert forall|i: int| at <= i < at + width implies #[trigger] mark[i] == '~' by {
        assert(mark[i] == wave[i - at]);
    }
    if note.len() > 0 {
        assert(mark.skip(at + width + 1) =~= note);
    }
}

/// An ordinal ends by its last digit, whatever its sign, but for the teens, which all
/// end alike.
pub proof fn an_ordinal_ends_by_its_last_digit(n: int)
    requires
        n >= 0,
    ensures
        ordinal_ending(-n) == ordinal_ending(n),
        ordinal_ending(n + 100) == ordinal_ending(n),
        (n / 10) % 10 == 1 ==> ordinal_ending(n) == "th"@,
        (n / 10) % 10 != 1 ==> ordinal_ending(n) == ordinal_ending(n % 10),
        ordinal_ending(1) == "st"@,
        ordinal_ending(2) == "nd"@,
        ordinal_ending(3) == "rd"@,
        n == 0 || 4 <= n < 10 ==> ordinal_ending(n) == "th"@,
{
}

} // verus!
