//! Numbers, texts and graphs: what stands on its own.

use sojourn::ast::{
    maximum, minimum, AggregateKind, Assignment, BinaryOp, Block, Expr, GlobalId, Kind, LocalSlot, Program, UnaryOp,
};
use sojourn::cube::Cube;
use sojourn::diagnostics::{
    line_col_idx, BoundKind, CompilationFailure, EvaluationFailure, Fault, NamedProblem, Problem, ProblemKind,
    RuntimeProblem, Span, SystemCompilationFailure,
};
use sojourn::frontend::{is_legal_variable_name, parse, Ast, Lowered};
use sojourn::graph::{closings, evaluation_order};
use sojourn::interval::Interval;
use sojourn::machine::{Function, Machine, Operation};
use sojourn::matching::{list_matchings, maximum_matching};
use sojourn::nodes::{compile_system, duplicates, Schema, Symbol};
use sojourn::number::{epsilon, infinity, least_normal, nan, to_index, two_to, Real};
use sojourn::regalloc::AllocatedTape;
use sojourn::slicing::{clamp, middle};
use sojourn::system::InputVariable;
use sojourn::tape::{Accumulate, Constants, Instruction, Register, VirtualRegister};
use sojourn::text::{integer, join, lines, natural, repeat, same_text};

fn r(x: f64) -> Real {
    Real::from_bits(x.to_bits())
}

fn f(x: Real) -> f64 {
    f64::from_bits(x.to_bits())
}

fn rs(xs: &[f64]) -> Vec<Real> {
    xs.iter().map(|x| r(*x)).collect()
}

fn fs(xs: &[Real]) -> Vec<f64> {
    xs.iter().map(|x| f(*x)).collect()
}

fn spell(value: Real) -> String {
    format!("{}", f(value))
}

fn texts(list: &[&str]) -> Vec<String> {
    list.iter().map(|text| (*text).to_owned()).collect()
}

/// Double precision.
struct Doubles;

impl Machine for Doubles {
    fn call(&self, function: Function, x: Real) -> Real {
        let x = f(x);
        r(match function {
            Function::Cos => x.cos(),
            Function::Sin => x.sin(),
            Function::Tan => x.tan(),
            Function::Acos => x.acos(),
            Function::Asin => x.asin(),
            Function::Atan => x.atan(),
            Function::Cosh => x.cosh(),
            Function::Sinh => x.sinh(),
            Function::Tanh => x.tanh(),
            Function::Ln => x.ln(),
            Function::Log10 => x.log10(),
            Function::Sqrt => x.sqrt(),
            Function::Cbrt => x.cbrt(),
            Function::Ceil => x.ceil(),
            Function::Floor => x.floor(),
        })
    }

    fn operate(&self, operation: Operation, a: Real, b: Real) -> Real {
        let (a, b) = (f(a), f(b));
        r(match operation {
            Operation::Add => a + b,
            Operation::Sub => a - b,
            Operation::Mul => a * b,
            Operation::Div => a / b,
            Operation::Rem => a % b,
            Operation::Pow => a.powf(b),
        })
    }
}

// ---- numbers ----

const SAMPLES: [f64; 17] = [
    f64::NEG_INFINITY,
    f64::MIN,
    -2.5,
    -1.0,
    -f64::MIN_POSITIVE,
    -5e-324,
    -0.0,
    0.0,
    5e-324,
    f64::MIN_POSITIVE,
    0.1,
    1.0,
    3.0,
    1e300,
    f64::MAX,
    f64::INFINITY,
    f64::NAN,
];

#[test]
fn numbers_compare_as_doubles_do() {
    for a in SAMPLES {
        let x = r(a);
        assert_eq!(x.is_nan(), a.is_nan(), "{a}");
        assert_eq!(x.is_finite(), a.is_finite(), "{a}");
        assert_eq!(x.is_sign_negative(), a.is_sign_negative(), "{a}");
        assert_eq!(x.negate().to_bits(), (-a).to_bits(), "{a}");
        assert_eq!(x.abs().to_bits(), a.abs().to_bits(), "{a}");
        assert_eq!(x.next_up().to_bits(), a.next_up().to_bits(), "{a}");
        for b in SAMPLES {
            let y = r(b);
            assert_eq!(x.lt(y), a < b, "{a} {b}");
            assert_eq!(x.le(y), a <= b, "{a} {b}");
            assert_eq!(x.equals(y), a == b, "{a} {b}");
            assert_eq!(x.ranks_before(y), a.total_cmp(&b).is_lt(), "{a} {b}");
            let (larger, smaller) = (f(x.max(y)), f(x.min(y)));
            assert!(larger == a.max(b) || (larger.is_nan() && a.max(b).is_nan()), "{a} {b}");
            assert!(smaller == a.min(b) || (smaller.is_nan() && a.min(b).is_nan()), "{a} {b}");
        }
    }
    assert_eq!(r(-0.0).max(r(0.0)).to_bits(), 0.0_f64.to_bits());
    assert_eq!(r(0.0).min(r(-0.0)).to_bits(), (-0.0_f64).to_bits());
}

#[test]
fn named_numbers_have_their_values() {
    assert_eq!(f(epsilon()), f64::EPSILON);
    assert_eq!(f(least_normal()), f64::MIN_POSITIVE);
    assert_eq!(f(infinity()), f64::INFINITY);
    assert!(f(nan()).is_nan());
    assert_eq!(f(two_to(0)), 1.0);
    assert_eq!(f(two_to(20)), 1_048_576.0);
    assert_eq!(f(two_to(1023)), 2_f64.powi(1023));
}

#[test]
fn a_whole_number_is_an_index_up_to_the_limit() {
    let limit = 9_007_199_254_740_992_f64;
    for (value, index) in [
        (0.0, Some(0)),
        (-0.0, Some(0)),
        (1.0, Some(1)),
        (-3.0, Some(-3)),
        (65.0, Some(65)),
        (limit, Some(9_007_199_254_740_992)),
        (-limit, Some(-9_007_199_254_740_992)),
        (limit.next_up(), None),
        (0.5, None),
        (1.5, None),
        (5e-324, None),
        (f64::NAN, None),
        (f64::INFINITY, None),
        (f64::NEG_INFINITY, None),
    ] {
        assert_eq!(to_index(r(value)), index, "{value}");
    }
}

#[test]
fn signs_and_extremes_propagate_what_is_not_a_number() {
    assert_eq!(f(r(-2.0).sign()), -1.0);
    assert_eq!(f(r(2.0).sign()), 1.0);
    assert_eq!(f(r(0.0).sign()), 0.0);
    assert!(f(r(f64::NAN).sign()).is_nan());
    assert!(f(maximum(r(f64::NAN), r(1.0))).is_nan());
    assert!(f(minimum(r(1.0), r(f64::NAN))).is_nan());
    assert_eq!(f(maximum(r(2.0), r(1.0))), 2.0);
    assert_eq!(f(minimum(r(2.0), r(1.0))), 1.0);
}

#[test]
fn operators_are_their_arithmetic() {
    let unary = |op: UnaryOp, x: f64| f(op.apply(&Doubles, r(x)));
    assert_eq!(unary(UnaryOp::Negate, 2.0), -2.0);
    assert_eq!(unary(UnaryOp::Sqr, 3.0), 9.0);
    assert_eq!(unary(UnaryOp::Cube, -2.0), -8.0);
    assert_eq!(unary(UnaryOp::Cot, 0.5), 1.0 / 0.5_f64.tan());
    assert_eq!(unary(UnaryOp::Abs, -4.0), 4.0);
    assert_eq!(unary(UnaryOp::Sgn, -4.0), -1.0);
    assert_eq!(unary(UnaryOp::Log10, 1000.0), 1000.0_f64.log10());
    assert_eq!(unary(UnaryOp::Floor, -1.5), -2.0);
    let binary = |op: BinaryOp, a: f64, b: f64| f(op.apply(&Doubles, r(a), r(b)));
    assert_eq!(binary(BinaryOp::Rem, -7.0, 3.0), -1.0, "a remainder, not a modulus");
    assert_eq!(binary(BinaryOp::Pow, 2.0, 10.0), 1024.0);
    assert_eq!(binary(BinaryOp::LogB, 2.0, 8.0), 8_f64.ln() / 2_f64.ln());
    assert_eq!(binary(BinaryOp::Max, 2.0, 8.0), 8.0);
    assert_eq!(UnaryOp::from_keyword("ln"), Some(UnaryOp::Ln));
    assert_eq!(UnaryOp::from_keyword("log"), Some(UnaryOp::Log10));
    assert_eq!(UnaryOp::from_keyword("max"), None);
    assert_eq!(BinaryOp::from_function_keyword("max"), Some(BinaryOp::Max));
    assert_eq!(BinaryOp::from_function_keyword("log"), Some(BinaryOp::LogB));
    assert_eq!(BinaryOp::from_function_keyword("sin"), None);
}

#[test]
fn folds_start_from_their_identity() {
    assert_eq!(f(AggregateKind::Sum.identity()), 0.0);
    assert_eq!(f(AggregateKind::Prod.identity()), 1.0);
    assert_eq!(f(AggregateKind::Prod.combine(&Doubles, r(3.0), r(4.0))), 12.0);
    assert_eq!(Accumulate::from_aggregate(AggregateKind::Sum), Accumulate::Sum);
    assert_eq!(f(Accumulate::Worst.identity()), f64::NEG_INFINITY);
    assert_eq!(f(Accumulate::Worst.apply(&Doubles, r(-1.0), r(2.0))), 2.0);
}

#[test]
fn intervals_meet_and_have_a_width() {
    let of = |lo: f64, hi: f64| Interval::new(r(lo), r(hi));
    assert_eq!(of(0.0, 4.0).intersect(of(3.0, 9.0)), of(3.0, 4.0));
    assert!(of(0.0, 1.0).intersect(of(2.0, 3.0)).is_empty());
    assert!(Interval::empty().is_empty() && Interval::entire().is_entire());
    assert!(of(1.0, 2.0).contains(r(2.0)) && !of(1.0, 2.0).contains(r(2.5)));
    assert_eq!(f(of(1.0, 4.5).width(&Doubles)), 3.5);
    assert_eq!(f(middle(&Doubles, of(1.0, 4.0))), 2.5);
    assert_eq!(f(clamp(of(1.0, 4.0), r(9.0))), 4.0);
    assert_eq!(f(clamp(of(1.0, 4.0), r(0.0))), 1.0);
    assert_eq!(f(clamp(of(1.0, 4.0), r(2.0))), 2.0);
    let x = InputVariable::new("x", r(-1.0), r(3.0));
    assert_eq!(f(x.width(&Doubles)), 4.0);
    assert!(x.contains(r(3.0)) && !x.contains(r(3.5)) && !x.contains(r(f64::NAN)));
}

#[test]
fn a_cube_names_the_points_of_its_box() {
    let cube = Cube::over(&Doubles, &vec![Interval::new(r(-2.0), r(2.0)), Interval::point(r(5.0))]);
    assert_eq!(fs(&cube.denormalised(&Doubles, &rs(&[0.25, 0.5]))), [-1.0, 5.0]);
    assert_eq!(fs(&cube.normalised(&Doubles, &rs(&[-1.0, 5.0]))), [0.25, 0.0], "no width is at zero");
    let mut rows = rs(&[7.0]);
    Cube::rows(&Doubles, &rs(&[0.25, 0.5]), &mut rows);
    assert_eq!(fs(&rows), [7.0, -0.25, -0.5, -0.75, -0.5]);
    let cube = Cube::declared(&Doubles, &vec![InputVariable::new("x", r(1.0), r(4.0))]);
    assert_eq!(fs(&cube.denormalised(&Doubles, &rs(&[0.5]))), [2.5]);
}

// ---- tapes ----

#[test]
fn a_pool_has_one_register_per_bit_pattern() {
    let mut pool = Constants::new();
    assert_eq!(pool.intern(r(2.0)), VirtualRegister::Const(0));
    assert_eq!(pool.intern(r(0.0)), VirtualRegister::Const(1));
    assert_eq!(pool.intern(r(-0.0)), VirtualRegister::Const(2));
    assert_eq!(pool.intern(r(2.0)), VirtualRegister::Const(0));
    assert_eq!(fs(&pool.duplicate().values), [2.0, 0.0, -0.0]);
}

#[test]
fn an_instruction_knows_its_registers() {
    let add = Instruction::Binary { dst: 3_u32, op: BinaryOp::Add, a: 1, b: 2 };
    assert_eq!(add.dst(), Some(3));
    assert_eq!(add.sources(), [1, 2]);
    assert_eq!(add.with_dst(9), Instruction::Binary { dst: 9, op: BinaryOp::Add, a: 1, b: 2 });
    assert_eq!(
        add.map(|register: u32| register * 10),
        Instruction::Binary { dst: 30, op: BinaryOp::Add, a: 10, b: 20 }
    );
    assert_eq!(Instruction::Check { reg: 4_u32 }.dst(), None);
}

#[test]
fn an_instruction_is_mapped_register_by_register() {
    let list = [
        Instruction::Load { dst: 1_u32, input: 7 },
        Instruction::Copy { dst: 2, src: 1 },
        Instruction::Unary { dst: 3, op: UnaryOp::Sin, a: 2 },
        Instruction::Binary { dst: 4, op: BinaryOp::Sub, a: 3, b: 1 },
        Instruction::Combine { dst: 5, how: Accumulate::Sum, a: 4, b: 3, last: true },
        Instruction::Check { reg: 5 },
    ];
    for insn in list {
        let doubled = insn.map(|register: u32| u64::from(register) * 2);
        assert_eq!(doubled.dst(), insn.dst().map(|register| u64::from(register) * 2));
        let sources: Vec<u64> = insn.sources().iter().map(|register| u64::from(*register) * 2).collect();
        assert_eq!(doubled.sources(), sources);
        assert_eq!(insn.map(|register: u32| register), insn, "each to itself");
        assert_eq!(
            doubled.map(|register: u64| register + 1),
            insn.map(|register: u32| u64::from(register) * 2 + 1),
            "one after the other is both at once"
        );
        // A name per call: the one written first, then those read in their order.
        let calls = std::cell::Cell::new(0_u32);
        let numbered = insn.map(|_: u32| {
            calls.set(calls.get() + 1);
            calls.get()
        });
        let first = u32::from(insn.dst().is_some());
        assert_eq!(numbered.dst(), if first == 1 { Some(1) } else { None });
        let order: Vec<u32> = (first + 1..=calls.get()).collect();
        assert_eq!(numbered.sources(), order);
    }
}

#[test]
fn a_primed_frame_is_constants_and_then_nothing() {
    let tape = AllocatedTape {
        consts: rs(&[2.0, 3.0]),
        locals: 1,
        registers: 4,
        insns: Vec::new(),
        spans: Vec::new(),
        result: Register(0),
        partials: Vec::new(),
    };
    let mut frame = rs(&[9.0; 4]);
    tape.prime(&mut frame);
    assert_eq!(fs(&frame[..2]), [2.0, 3.0]);
    assert!(frame[2].is_nan() && frame[3].is_nan());
    assert_eq!(tape.first_local(), 2);
}

// ---- texts ----

#[test]
fn texts_are_put_together() {
    assert_eq!(natural(0), "0");
    assert_eq!(natural(u64::MAX), u64::MAX.to_string());
    assert_eq!(integer(-120), "-120");
    assert_eq!(integer(i64::MIN), i64::MIN.to_string());
    assert_eq!(join(&texts(&["a", "b", "c"]), ", "), "a, b, c");
    assert_eq!(join(&Vec::new(), ", "), "");
    assert_eq!(repeat("ab", 3), "ababab");
    assert_eq!(lines("a\r\nb\n\nc"), ["a", "b", "", "c"]);
    assert_eq!(lines("a\n"), ["a"]);
    assert!(lines("").is_empty());
    assert!(same_text("x1", "x1") && !same_text("x1", "x") && !same_text("x", "x1"));
}

#[test]
fn spans_count_characters_and_not_bytes() {
    let source = "α + β\n+ γ";
    let at = source.find('γ').expect("there");
    assert_eq!(Span::from_utf8_range(source, at..at + 2), Span::new(8, 9));
    assert_eq!(Span::from_utf8_range(source, 0..999), Span::new(0, 9), "past the end is the end");
    assert_eq!(Span::from_utf8_range(source, 1..2), Span::new(0, 1), "inside a character is its start");
    assert_eq!(line_col_idx(source, 8), (1, 2));
    assert_eq!(line_col_idx(source, 0), (0, 0));
    assert!(Span::new(3, 3).is_empty() && !Span::new(3, 4).is_empty());
}

#[test]
fn every_problem_has_its_clause() {
    let clause = |kind: ProblemKind| kind.summary();
    assert_eq!(clause(ProblemKind::EmptyExpression), "expression is empty");
    assert_eq!(clause(ProblemKind::Syntax { message: "m".to_owned(), from_lexer: false }), "syntax error");
    assert_eq!(clause(ProblemKind::Unsupported { feature: "this".to_owned() }), "this is not supported yet");
    assert_eq!(clause(ProblemKind::Unbound { name: "x".to_owned() }), "unknown variable");
    assert_eq!(
        clause(ProblemKind::IllegalAggregateBound { bound: BoundKind::Lower, value: r(0.5) }),
        "illegal lower bound value"
    );
    assert_eq!(
        clause(ProblemKind::AggregateBoundNotConstant { bound: BoundKind::Upper }),
        "the upper bound of a sum or prod must be a constant"
    );
    assert_eq!(
        clause(ProblemKind::AggregateTooWide { terms: 70000, limit: 65536 }),
        "a sum or prod over 70000 terms is wider than the 65536 supported"
    );
    for (requested_1index, ending) in [(1, "1st"), (2, "2nd"), (3, "3rd"), (4, "4th"), (11, "11th"), (13, "13th"), (22, "22nd"), (111, "111th")] {
        assert_eq!(
            clause(ProblemKind::DynamicIndexOutOfBounds { requested_1index, available: 0 }),
            format!("attempted to access 'var[{requested_1index}]' (the {ending} parameter) when only 0 exist")
        );
    }
    assert_eq!(
        clause(ProblemKind::DynamicIndexNotAnInteger { value: r(1.5) }),
        "attempted to use a non-integer as an index"
    );
    assert_eq!(
        clause(ProblemKind::SubscriptNotIntegral),
        "this subscript is not a whole number by construction"
    );
    assert_eq!(clause(ProblemKind::ZeroIndex), "var[0] is not the first parameter (did you mean var[1]?)");
    assert_eq!(
        clause(ProblemKind::NegativeDynamicIndex { requested_1index: -2 }),
        "attempted to access 'var[-2]', but subscripts start at 1"
    );
    assert_eq!(clause(ProblemKind::NonFiniteConstant { value: r(f64::NAN) }), "this is constantly NaN");
    assert_eq!(clause(ProblemKind::NonFiniteConstant { value: r(f64::INFINITY) }), "this is constantly infinite");
    assert_eq!(
        clause(ProblemKind::DegenerateTolerance { tolerance: r(-1.0) }),
        "a negative tolerance is satisfied by nothing"
    );
    assert_eq!(
        clause(ProblemKind::DegenerateTolerance { tolerance: r(0.0) }),
        "a tolerance of zero is exact floating-point equality, which has no volume to sample; give the band a width"
    );
    assert_eq!(
        clause(ProblemKind::NonFiniteValue { value: r(f64::NAN) }),
        "this evaluated to something not a number"
    );
    assert_eq!(clause(ProblemKind::Duplicate { name: "y".to_owned() }), "'y' is declared more than once");
    assert_eq!(
        clause(ProblemKind::ConstraintAsValue { name: "y".to_owned() }),
        "'y' is a constraint and has no value to read"
    );
    assert_eq!(
        clause(ProblemKind::Cycle { chain: texts(&["a", "b"]) }),
        "'a' depends on itself: a -> b -> a"
    );
}

#[test]
fn a_problem_points_at_its_text() {
    let problem = Problem::new(ProblemKind::NonFiniteValue { value: r(f64::INFINITY) }, "x +\n1 / y", Span::new(4, 9));
    assert_eq!((problem.line_idx, problem.column_idx), (1, 0));
    assert_eq!(problem.text(), "1 / y");
    assert_eq!(problem.to_line(&spell), "this evaluated to something infinite at '1 / y': evaluates to inf");
    assert_eq!(
        problem.to_block(&spell),
        "Error in '1 / y': this evaluated to something infinite.\nx +\n1 / y\n~~~~~ evaluates to inf"
    );
    let end = Problem::new(ProblemKind::ZeroIndex, "x", Span::new(1, 1));
    assert_eq!(end.to_line(&spell), "var[0] is not the first parameter (did you mean var[1]?) at 'end of expression'");
    assert_eq!(Problem::new(ProblemKind::EmptyExpression, "", Span::new(0, 0)).to_line(&spell), "expression is empty");
}

#[test]
fn failures_render_every_problem() {
    let unbound = |source: &str, name: &str| {
        Problem::new(ProblemKind::Unbound { name: name.to_owned() }, source, Span::new(0, 1))
    };
    let failure = CompilationFailure { source: "a + b".to_owned(), problems: vec![unbound("a + b", "a"), unbound("b", "b")] };
    let line = "unknown variable at 'a': no input variable by that name\nunknown variable at 'b': no input variable by that name";
    assert_eq!(failure.render(false, &spell), line);
    let block = "Error in 'a': unknown variable.\na + b\n~ no input variable by that name\n\nError in 'b': unknown variable.\nb\n~ no input variable by that name";
    assert_eq!(failure.render(true, &spell), block);
    let wrapped = EvaluationFailure::from(failure);
    assert_eq!(wrapped.render(false, &spell), line);

    let named = SystemCompilationFailure {
        problems: vec![NamedProblem { name: "out".to_owned(), problem: unbound("a", "a") }],
    };
    assert_eq!(named.render(false, &spell), "out: unknown variable at 'a': no input variable by that name");
    assert_eq!(
        named.render(true, &spell),
        "out:\nError in 'a': unknown variable.\na\n~ no input variable by that name"
    );

    let runtime = RuntimeProblem {
        problem: Problem::new(ProblemKind::NonFiniteValue { value: r(f64::NAN) }, "x", Span::new(0, 1)),
        sample: Some(2),
        locals: vec![("i".to_owned(), r(1.0))],
        parameters: vec![("x".to_owned(), r(0.5)), ("y".to_owned(), r(2.0))],
    };
    assert_eq!(runtime.to_line(&spell), "this evaluated to something not a number at 'x': evaluates to NaN");
    assert_eq!(
        EvaluationFailure::Runtime(Box::new(runtime)).render(true, &spell),
        "Error in 'x': this evaluated to something not a number.\nx\n~ evaluates to NaN\nlocal-variables{i=1}\nparameters{x=0.5, y=2}"
    );
    assert_eq!(
        EvaluationFailure::RowWidthMismatch { expected: 3, actual: 2 }.render(false, &spell),
        "expected a row of 3 value(s), got 2"
    );
}

// ---- sources ----

/// One variable, read by name.
fn lowered(source: &str) -> Lowered {
    let end = source.chars().count() as u32;
    let result = Expr::new(Kind::Global(GlobalId::from_index(0)), Span::new(0, end));
    Lowered {
        program: Program { body: Block { assignments: Vec::new(), result }, frame_size: 0 },
        symbols: vec![source.to_owned()],
        contains_dynamic_lookup: false,
        is_constraint: false,
    }
}

#[test]
fn an_empty_source_is_its_own_problem() {
    let failure = parse("", |_: &str| -> Result<Lowered, Vec<Problem>> { panic!("nothing to translate") }, Ok)
        .expect_err("empty");
    assert_eq!(failure.render(false, &spell), "expression is empty");
}

#[test]
fn a_source_is_translated_and_then_made_canonical() {
    let ast = parse("alpha", |source: &str| Ok(lowered(source)), Ok).expect("parses");
    assert_eq!(ast.symbols, ["alpha"]);
    assert_eq!(ast.reference_spans(), [Some(Span::new(0, 5))]);

    let refused = |_: Program| Err(vec![Fault { kind: ProblemKind::ZeroIndex, span: Span::new(1, 3) }]);
    let failure = parse("alpha", |source: &str| Ok(lowered(source)), refused).expect_err("refused");
    assert_eq!(failure.problems[0].text(), "lp");
}

#[test]
fn a_variable_name_is_what_parses_as_one() {
    assert!(is_legal_variable_name("x", |_: &str| true));
    assert!(!is_legal_variable_name("x", |_: &str| false));
    assert!(!is_legal_variable_name("", |_: &str| true));
}

// ---- graphs and matchings ----

fn edges(reads: &[&[usize]]) -> Vec<Vec<(usize, Span)>> {
    reads.iter().map(|list| list.iter().map(|node| (*node, Span::new(0, 1))).collect()).collect()
}

#[test]
fn an_order_evaluates_and_keeps_declaration_order() {
    assert_eq!(evaluation_order(&edges(&[&[2], &[], &[], &[0, 1]])), [1, 2, 0, 3]);
    assert!(closings(&edges(&[&[2], &[], &[], &[0, 1]])).is_empty());
}

#[test]
fn every_cycle_is_closed_once() {
    let found = closings(&edges(&[&[1], &[2], &[0], &[3]]));
    assert_eq!(found.len(), 2);
    assert_eq!((found[0].node, found[0].reference, found[0].chain.clone()), (2, 0, vec![2, 0, 1]));
    assert_eq!((found[1].node, found[1].reference, found[1].chain.clone()), (3, 0, vec![3]));
}

#[test]
fn a_cycle_comes_by_no_node_twice() {
    let reads: [&[usize]; 5] = [&[1, 2], &[2, 0], &[3, 1], &[0, 3, 4], &[2]];
    let found = closings(&edges(&reads));
    assert!(found.len() >= 4);
    for closing in found {
        let chain = closing.chain;
        assert_eq!(chain[0], closing.node);
        for (i, node) in chain.iter().enumerate() {
            assert!(reads[*node].contains(&chain[(i + 1) % chain.len()]), "{chain:?}");
            assert!(!chain[..i].contains(node), "{chain:?}");
        }
    }
}

#[test]
fn a_matching_is_as_large_as_there_is() {
    let holder = maximum_matching(&vec![vec![0], vec![0, 1], vec![1, 2]], 3);
    assert_eq!(holder, [Some(0), Some(1), Some(2)]);
    let all = list_matchings(&vec![vec![0, 1], vec![0, 1]], 2, 2);
    assert_eq!(all, [[Some(0), Some(1)], [Some(1), Some(0)]]);
}

#[test]
fn a_reference_is_first_where_its_text_is() {
    let named = |at: u32, start: u32| Expr::new(Kind::Global(GlobalId::from_index(at)), Span::new(start, start + 1));
    let both = |lhs: Expr, rhs: Expr| {
        let span = Span::new(lhs.span.start, rhs.span.end);
        Expr::new(Kind::Binary { op: BinaryOp::Add, lhs: Box::new(lhs), rhs: Box::new(rhs) }, span)
    };
    let assignment = |value: Expr| Assignment { slot: LocalSlot::from_index(0), span: value.span, value };
    let ast = Ast {
        source: "0123456789".to_owned(),
        program: Program {
            body: Block {
                assignments: vec![assignment(both(named(0, 4), named(1, 6)))],
                result: both(named(0, 2), both(named(1, 8), named(0, 3))),
            },
            frame_size: 1,
        },
        symbols: texts(&["a", "b", "c"]),
        contains_dynamic_lookup: false,
        is_constraint: false,
    };
    assert_eq!(ast.reference_spans(), [Some(Span::new(2, 3)), Some(Span::new(6, 7)), None]);
}

// ---- documents ----

/// A source is names joined by `+`, or by `<` where it is a constraint; one that
/// ends in `@` has a subscript past the inputs.
fn read(source: &String) -> Result<Ast, CompilationFailure> {
    if source.contains('?') {
        let problem = Problem::new(
            ProblemKind::Syntax { message: "no token".to_owned(), from_lexer: true },
            source,
            Span::new(0, 1),
        );
        return Err(CompilationFailure { source: source.clone(), problems: vec![problem] });
    }
    let is_constraint = source.contains('<');
    let mut symbols: Vec<String> = Vec::new();
    let mut terms: Vec<Expr> = Vec::new();
    for part in source.trim_end_matches('@').split(['+', '<']) {
        let name = part.trim().to_owned();
        let start = source.find(&name).expect("there") as u32;
        let span = Span::new(start, start + name.len() as u32);
        let at = symbols.iter().position(|symbol| *symbol == name).unwrap_or_else(|| {
            symbols.push(name);
            symbols.len() - 1
        });
        terms.push(Expr::new(Kind::Global(GlobalId::from_index(at as u32)), span));
    }
    let span = Span::new(0, source.len() as u32);
    let result = Expr::new(Kind::Fold { kind: AggregateKind::Sum, terms }, span);
    Ok(Ast {
        source: source.clone(),
        program: Program { body: Block { assignments: Vec::new(), result }, frame_size: 0 },
        symbols,
        contains_dynamic_lookup: false,
        is_constraint,
    })
}

fn document(expressions: &[(&str, &str)]) -> Result<Vec<(String, Vec<Symbol>, bool)>, String> {
    let list: Vec<(String, String)> =
        expressions.iter().map(|(name, source)| ((*name).to_owned(), (*source).to_owned())).collect();
    let bind = |ast: &Ast, schema: &Schema| {
        let has = |name: &String| schema.inputs.contains(name) || schema.intermediates.contains(name);
        assert!(ast.symbols.iter().all(has), "nothing is bound that the schema does not name");
        ast.symbols.clone()
    };
    let resolve = |ast: &Ast, schema: &Schema| -> Result<Ast, Fault> {
        if ast.source.ends_with('@') {
            let kind = ProblemKind::DynamicIndexOutOfBounds { requested_1index: 9, available: schema.inputs.len() };
            let at = ast.source.len() as u32;
            return Err(Fault { kind, span: Span::new(at - 1, at) });
        }
        Ok(read(&ast.source).expect("it was read before"))
    };
    compile_system(&texts(&["x", "y"]), &texts(&["m"]), &list, read, resolve, bind)
        .map(|nodes| nodes.iter().map(|n| (n.name().to_owned(), n.reads().clone(), n.is_cheap())).collect())
        .map_err(|failure| failure.render(false, &spell))
}

#[test]
fn nodes_come_in_an_order_that_evaluates() {
    let nodes = document(&[("a", "b + x"), ("b", "y"), ("c", "m + a")]).expect("holds together");
    let input = |name: &str| Symbol::Input(name.to_owned());
    let output = |name: &str| Symbol::Output(name.to_owned());
    assert_eq!(
        nodes,
        [
            ("b".to_owned(), vec![input("y")], true),
            ("a".to_owned(), vec![input("x"), output("b")], true),
            ("c".to_owned(), vec![Symbol::External("m".to_owned()), output("a")], false),
        ]
    );
    assert_eq!(nodes[2].1[0].name(), "m");
}

#[test]
fn a_document_says_everything_that_is_wrong() {
    assert_eq!(document(&[("a", "a + x")]), Err("a: 'a' depends on itself: a -> a at 'a'".to_owned()));
    assert_eq!(
        document(&[("a", "z"), ("b", "? x")]),
        Err("b: syntax error at '?': no token\na: unknown variable at 'z': no input variable by that name".to_owned())
    );
    assert_eq!(
        document(&[("a", "x < y"), ("b", "a")]),
        Err("b: 'a' is a constraint and has no value to read at 'a': a boolean is not a number; compare against the expression instead".to_owned())
    );
    let misread = "is a constraint and has no value to read at";
    let text = document(&[("c", "c < x")]).expect_err("reads itself");
    let said: Vec<&str> = text.lines().collect();
    assert_eq!(said.len(), 2, "{text}");
    assert!(said[0].contains(misread), "{text}");
    assert_eq!(said[1], "c: 'c' depends on itself: c -> c at 'c'");
    let text = document(&[("c", "d < x"), ("d", "c < y")]).expect_err("a ring of constraints");
    let said: Vec<&str> = text.lines().collect();
    assert_eq!(said.len(), 3, "{text}");
    assert!(said[0].starts_with("c: 'd'") && said[0].contains(misread), "{text}");
    assert!(said[1].starts_with("d: 'c'") && said[1].contains(misread), "{text}");
    assert!(said[2].starts_with("d: 'd' depends on itself: d -> c -> d at 'c'"), "{text}");
    // What parsed is analysed whatever its subscripts are.
    let text = document(&[("h", "h + z @")]).expect_err("a subscript, a name and a cycle");
    let said: Vec<&str> = text.lines().collect();
    assert_eq!(said.len(), 3, "{text}");
    assert!(said[0].starts_with("h: ") && said[0].contains("at '@'"), "{text}");
    assert_eq!(said[1], "h: unknown variable at 'z': no input variable by that name");
    assert_eq!(said[2], "h: 'h' depends on itself: h -> h at 'h'");
    let text = document(&[("x", "y")]).expect_err("declared twice");
    assert!(text.contains("'x' is declared more than once"), "{text}");
    let (problems, repeated) = duplicates(&texts(&["x"]), &Vec::new(), &vec![("x".to_owned(), "1".to_owned()), ("z".to_owned(), "1".to_owned())]);
    assert_eq!((problems.len(), repeated), (1, vec![true, false]));
}
