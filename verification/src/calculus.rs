//! What a derivative is a derivative of.
//!
//! A derivative is emitted over doubles, and what it is the derivative *of* is a
//! function of real numbers. This is where the two meet: what each operator is
//! over the reals, what its partial derivatives are there, and the rules a sweep
//! applies, read with exact operations.

use vstd::prelude::*;
use vstd::arithmetic::power2::{lemma2_to64, lemma2_to64_rest, lemma_pow2_adds, lemma_pow2_pos, pow2};
use crate::ast::{BinaryOp, CompareOp, UnaryOp};
use crate::differentiate::{
    adjoints, applied, base_rule, constant, dividend_rule, divisor_rule, evaluated, exponent_rule, has_derivative, joined,
    leaf, ln_ten, load_of, negated_rule, product_rule, share_rule, slopes, slopes_added, three, unary_rule, Slopes, Term,
};
use crate::machine::{Arithmetic, Function, Operation};
use crate::number::{half, minus_one, one, order_is_the_order_of_values, two, zero, Real};
use crate::semantics::held;
use crate::tape::{Accumulate, Instruction, VirtualRegister};

verus! {

// ---- the reals ----

/// The real number a finite double is.
pub open spec fn quantity(value: Real) -> real {
    value.scaled() as real / (pow2(1074) as int as real)
}

pub proof fn the_constants_are_what_they_say()
    ensures
        quantity(one()) == 1real,
        quantity(two()) == 2real,
        quantity(three()) == 3real,
        quantity(half()) == 1real / 2real,
{
    let unit = pow2(1074) as int;
    lemma_pow2_pos(1074);
    lemma2_to64();
    lemma2_to64_rest();
    lemma_pow2_adds(52, 1022);
    lemma_pow2_adds(52, 1021);
    lemma_pow2_adds(1, 1073);
    lemma_pow2_adds(1, 1022);
    lemma_pow2_adds(52, 1023);
    lemma_pow2_adds(51, 1023);
    lemma_pow2_adds(1, 1074);
    let low = pow2(1023) as int;
    assert(2251799813685248 * low == unit);
    assert(one().scaled() == unit);
    assert(two().scaled() == 2 * unit);
    let most = three().magnitude();
    let weight = crate::number::FRACTION as int;
    assert(most == 1024 * weight + 2251799813685248);
    assert(most / weight == 1024 && most % weight == 2251799813685248);
    assert(three().scaled() == 6755399441055744 * low);
    assert(three().scaled() == 3 * unit);
    assert(2 * half().scaled() == unit);
    let whole = unit as real;
    let part = half().scaled() as real;
    assert(whole / whole == 1real) by (nonlinear_arith)
        requires
            whole > 0real,
    ;
    assert((2real * whole) / whole == 2real) by (nonlinear_arith)
        requires
            whole > 0real,
    ;
    assert((3real * whole) / whole == 3real) by (nonlinear_arith)
        requires
            whole > 0real,
    ;
    assert(part / whole == 1real / 2real) by (nonlinear_arith)
        requires
            whole > 0real,
            2real * part == whole,
    ;
}

pub open spec fn size(x: real) -> real {
    if x < 0real {
        -x
    } else {
        x
    }
}

pub open spec fn sign(x: real) -> real {
    if x < 0real {
        -1real
    } else if x > 0real {
        1real
    } else {
        0real
    }
}

/// The functions of real numbers that the machine's stand for.
pub ghost struct Functions {
    pub call: spec_fn(Function, real) -> real,
    pub power: spec_fn(real, real) -> real,
    pub remainder: spec_fn(real, real) -> real,
}

impl Functions {
    /// What an operator is over the reals.
    pub open spec fn unary(self, op: UnaryOp, x: real) -> real {
        match op {
            UnaryOp::Negate => -x,
            UnaryOp::Cos => (self.call)(Function::Cos, x),
            UnaryOp::Sin => (self.call)(Function::Sin, x),
            UnaryOp::Tan => (self.call)(Function::Tan, x),
            UnaryOp::Acos => (self.call)(Function::Acos, x),
            UnaryOp::Asin => (self.call)(Function::Asin, x),
            UnaryOp::Atan => (self.call)(Function::Atan, x),
            UnaryOp::Cosh => (self.call)(Function::Cosh, x),
            UnaryOp::Sinh => (self.call)(Function::Sinh, x),
            UnaryOp::Tanh => (self.call)(Function::Tanh, x),
            UnaryOp::Cot => 1real / (self.call)(Function::Tan, x),
            UnaryOp::Ln => (self.call)(Function::Ln, x),
            UnaryOp::Log10 => (self.call)(Function::Log10, x),
            UnaryOp::Abs => size(x),
            UnaryOp::Sqrt => (self.call)(Function::Sqrt, x),
            UnaryOp::Cbrt => (self.call)(Function::Cbrt, x),
            UnaryOp::Sqr => x * x,
            UnaryOp::Cube => x * x * x,
            UnaryOp::Ceil => (self.call)(Function::Ceil, x),
            UnaryOp::Floor => (self.call)(Function::Floor, x),
            UnaryOp::Sgn => sign(x),
        }
    }

    pub open spec fn binary(self, op: BinaryOp, a: real, b: real) -> real {
        match op {
            BinaryOp::Add => a + b,
            BinaryOp::Sub => a - b,
            BinaryOp::Mul => a * b,
            BinaryOp::Div => a / b,
            BinaryOp::Rem => (self.remainder)(a, b),
            BinaryOp::Pow => (self.power)(a, b),
            BinaryOp::Max => if a < b {
                b
            } else {
                a
            },
            BinaryOp::Min => if a < b {
                a
            } else {
                b
            },
            BinaryOp::LogB => (self.call)(Function::Ln, b) / (self.call)(Function::Ln, a),
        }
    }

    /// The derivative of an operator.
    pub open spec fn derivative(self, op: UnaryOp, x: real) -> real {
        match op {
            UnaryOp::Negate => -1real,
            UnaryOp::Cos => -(self.call)(Function::Sin, x),
            UnaryOp::Sin => (self.call)(Function::Cos, x),
            UnaryOp::Tan => 1real + (self.call)(Function::Tan, x) * (self.call)(Function::Tan, x),
            UnaryOp::Acos => -(1real / (self.call)(Function::Sqrt, 1real - x * x)),
            UnaryOp::Asin => 1real / (self.call)(Function::Sqrt, 1real - x * x),
            UnaryOp::Atan => 1real / (1real + x * x),
            UnaryOp::Cosh => (self.call)(Function::Sinh, x),
            UnaryOp::Sinh => (self.call)(Function::Cosh, x),
            UnaryOp::Tanh => 1real - (self.call)(Function::Tanh, x) * (self.call)(Function::Tanh, x),
            UnaryOp::Cot => -(1real + self.unary(UnaryOp::Cot, x) * self.unary(UnaryOp::Cot, x)),
            UnaryOp::Ln => 1real / x,
            UnaryOp::Log10 => 1real / (x * (self.call)(Function::Ln, 10real)),
            UnaryOp::Abs => sign(x),
            UnaryOp::Sqrt => 1real / (2real * (self.call)(Function::Sqrt, x)),
            UnaryOp::Cbrt => 1real / (3real * ((self.call)(Function::Cbrt, x) * (self.call)(Function::Cbrt, x))),
            UnaryOp::Sqr => 2real * x,
            UnaryOp::Cube => 3real * (x * x),
            UnaryOp::Ceil | UnaryOp::Floor | UnaryOp::Sgn => 0real,
        }
    }

    /// The partial derivatives of an operator, by each operand.
    pub open spec fn partials(self, op: BinaryOp, a: real, b: real) -> (real, real) {
        match op {
            BinaryOp::Add => (1real, 1real),
            BinaryOp::Sub => (1real, -1real),
            BinaryOp::Mul => (b, a),
            BinaryOp::Div => (1real / b, -(a / (b * b))),
            BinaryOp::Rem => (0real, 0real),
            BinaryOp::Pow => (b * (self.power)(a, b - 1real), (self.power)(a, b) * (self.call)(Function::Ln, a)),
            BinaryOp::Max => if a < b {
                (0real, 1real)
            } else {
                (1real, 0real)
            },
            BinaryOp::Min => if a < b {
                (1real, 0real)
            } else {
                (0real, 1real)
            },
            BinaryOp::LogB => {
                let base = (self.call)(Function::Ln, a);
                (-((self.call)(Function::Ln, b) / (a * (base * base))), 1real / (b * base))
            },
        }
    }

    /// Whether an operator has a derivative at a number.
    pub open spec fn is_smooth(self, op: UnaryOp, x: real) -> bool {
        match op {
            UnaryOp::Sqrt => (self.call)(Function::Sqrt, x) != 0real,
            UnaryOp::Cbrt => (self.call)(Function::Cbrt, x) != 0real,
            UnaryOp::Ln => x != 0real,
            UnaryOp::Log10 => x != 0real && (self.call)(Function::Ln, 10real) != 0real,
            UnaryOp::Asin | UnaryOp::Acos => (self.call)(Function::Sqrt, 1real - x * x) != 0real,
            _ => true,
        }
    }

    /// Whether an operator has both partial derivatives at two numbers.
    pub open spec fn are_smooth(self, op: BinaryOp, a: real, b: real) -> bool {
        match op {
            BinaryOp::Div => b != 0real,
            BinaryOp::Max | BinaryOp::Min => a != b,
            BinaryOp::LogB => a != 0real && b != 0real && (self.call)(Function::Ln, a) != 0real,
            _ => true,
        }
    }

    /// What an instruction computes of its operands, over the reals.
    pub open spec fn computed(self, insn: Instruction<VirtualRegister>, a: real, b: real) -> real {
        match insn {
            Instruction::Unary { op, .. } => self.unary(op, a),
            Instruction::Binary { op, .. } => self.binary(op, a, b),
            Instruction::Compare { op, .. } => match op {
                CompareOp::Lt | CompareOp::Lte => a - b,
                CompareOp::Gt | CompareOp::Gte => b - a,
            },
            Instruction::Combine { how, .. } => match how {
                Accumulate::Sum => a + b,
                Accumulate::Prod => a * b,
                Accumulate::Worst => self.binary(BinaryOp::Max, a, b),
            },
            _ => a,
        }
    }

    /// The partial derivatives of what an instruction computes.
    pub open spec fn gradient(self, insn: Instruction<VirtualRegister>, a: real, b: real) -> (real, real) {
        match insn {
            Instruction::Unary { op, .. } => (self.derivative(op, a), 0real),
            Instruction::Binary { op, .. } => self.partials(op, a, b),
            Instruction::Compare { op, .. } => match op {
                CompareOp::Lt | CompareOp::Lte => (1real, -1real),
                CompareOp::Gt | CompareOp::Gte => (-1real, 1real),
            },
            Instruction::Combine { how, .. } => match how {
                Accumulate::Sum => (1real, 1real),
                Accumulate::Prod => (b, a),
                Accumulate::Worst => self.partials(BinaryOp::Max, a, b),
            },
            _ => (1real, 0real),
        }
    }

    /// Whether what an instruction computes has its partial derivatives.
    pub open spec fn is_differentiable(self, insn: Instruction<VirtualRegister>, a: real, b: real) -> bool {
        match insn {
            Instruction::Unary { op, .. } => self.is_smooth(op, a),
            Instruction::Binary { op, .. } => self.are_smooth(op, a, b),
            Instruction::Combine { how, .. } => how is Worst ==> a != b,
            _ => true,
        }
    }
}

// ---- formulas ----

/// What a leaf of a contribution's formula stands for: the first operand, the last,
/// the value computed, and its adjoint.
pub ghost enum Place {
    A,
    B,
    Y,
    D,
}

/// A formula with values in its places.
pub open spec fn placed<L>(term: Term<Place>, a: L, b: L, y: L, d: L) -> Term<L>
    decreases term,
{
    match term {
        Term::Leaf(place) => Term::Leaf(
            match place {
                Place::A => a,
                Place::B => b,
                Place::Y => y,
                Place::D => d,
            },
        ),
        Term::Constant(value) => Term::Constant(value),
        Term::Unary(op, x) => Term::Unary(op, Box::new(placed(*x, a, b, y, d))),
        Term::Binary(op, x, z) => Term::Binary(
            op,
            Box::new(placed(*x, a, b, y, d)),
            Box::new(placed(*z, a, b, y, d)),
        ),
    }
}

/// The real number a constant stands for: the one it is, and the logarithm of ten
/// where it is that, rounded.
pub open spec fn reading(functions: Functions, value: Real) -> real {
    if value == ln_ten() {
        (functions.call)(Function::Ln, 10real)
    } else {
        quantity(value)
    }
}

/// What a formula comes to with exact operations.
pub open spec fn exactly(term: Term<real>, functions: Functions) -> real
    decreases term,
{
    match term {
        Term::Leaf(value) => value,
        Term::Constant(value) => reading(functions, value),
        Term::Unary(op, a) => functions.unary(op, exactly(*a, functions)),
        Term::Binary(op, a, b) => functions.binary(op, exactly(*a, functions), exactly(*b, functions)),
    }
}

/// Whether a formula is what an instruction hands one of its operands, whatever the
/// arithmetic.
pub open spec fn is_handed(insn: Instruction<VirtualRegister>, k: int, term: Term<Place>) -> bool {
    let operands = insn.read();
    forall|arithmetic: Arithmetic, held_in: Map<VirtualRegister, Real>, d: Real|
        (#[trigger] slopes(arithmetic, held_in, insn, d))[k] == (
            operands[k],
            evaluated(
                placed(
                    term,
                    held(held_in, operands[0]),
                    held(held_in, operands.last()),
                    held(held_in, insn.written()->0),
                    d,
                ),
                arithmetic,
            ),
        )
}

/// Whether a formula, with exact operations, is the adjoint times the partial
/// derivative by an operand, wherever there is one.
pub open spec fn is_partial(insn: Instruction<VirtualRegister>, k: int, term: Term<Place>) -> bool {
    forall|functions: Functions, a: real, b: real, d: real|
        functions.is_differentiable(insn, a, b) ==> #[trigger] exactly(
            placed(term, a, b, functions.computed(insn, a, b), d),
            functions,
        ) == d * (if k == 0 {
            functions.gradient(insn, a, b).0
        } else {
            functions.gradient(insn, a, b).1
        })
}

/// Whether an operand is a constant exponent, which has no adjoint.
pub open spec fn is_exponent(insn: Instruction<VirtualRegister>, k: int) -> bool {
    insn matches Instruction::Binary { op, b, .. } && op is Pow && b is Const && k == 1
}

// A rule over places, with values in them, is the rule over the values.

#[verifier::rlimit(80)]
proof fn a_unary_rule_has_its_places<L>(op: UnaryOp, a: L, b: L, y: L, d: L)
    ensures
        placed(unary_rule(op, Place::A, Place::Y, Place::D), a, b, y, d) == unary_rule(op, a, y, d),
{
    match op {
        UnaryOp::Negate => {
            reveal_with_fuel(placed, 6);
        },
        UnaryOp::Sqr => {
            reveal_with_fuel(placed, 6);
        },
        UnaryOp::Cube => {
            reveal_with_fuel(placed, 6);
        },
        UnaryOp::Sqrt => {
            reveal_with_fuel(placed, 6);
        },
        UnaryOp::Cbrt => {
            reveal_with_fuel(placed, 6);
        },
        UnaryOp::Ln => {
            reveal_with_fuel(placed, 6);
        },
        UnaryOp::Log10 => {
            reveal_with_fuel(placed, 6);
        },
        UnaryOp::Sin => {
            reveal_with_fuel(placed, 6);
        },
        UnaryOp::Cos => {
            reveal_with_fuel(placed, 6);
        },
        UnaryOp::Tan => {
            reveal_with_fuel(placed, 6);
        },
        UnaryOp::Cot => {
            reveal_with_fuel(placed, 6);
        },
        UnaryOp::Asin => {
            reveal_with_fuel(placed, 6);
        },
        UnaryOp::Acos => {
            reveal_with_fuel(placed, 6);
        },
        UnaryOp::Atan => {
            reveal_with_fuel(placed, 6);
        },
        UnaryOp::Sinh => {
            reveal_with_fuel(placed, 6);
        },
        UnaryOp::Cosh => {
            reveal_with_fuel(placed, 6);
        },
        UnaryOp::Tanh => {
            reveal_with_fuel(placed, 6);
        },
        UnaryOp::Abs => {
            reveal_with_fuel(placed, 6);
        },
        UnaryOp::Ceil => {
            reveal_with_fuel(placed, 6);
        },
        UnaryOp::Floor => {
            reveal_with_fuel(placed, 6);
        },
        UnaryOp::Sgn => {
            reveal_with_fuel(placed, 6);
        },
    }
}

spec fn weighed_with<L>(a: L, b: L, d: L, larger: bool) -> Term<L> {
    *joined(BinaryOp::Mul, leaf(d), Box::new(share_rule(a, b, larger)))
}

spec fn antilogarithm<L>(a: L, b: L, d: L) -> Term<L> {
    *joined(BinaryOp::Div, leaf(d), joined(BinaryOp::Mul, leaf(b), applied(UnaryOp::Ln, leaf(a))))
}

spec fn logarithm_base<L>(a: L, y: L, d: L) -> Term<L> {
    *applied(
        UnaryOp::Negate,
        joined(
            BinaryOp::Mul,
            leaf(d),
            joined(BinaryOp::Div, leaf(y), joined(BinaryOp::Mul, leaf(a), applied(UnaryOp::Ln, leaf(a)))),
        ),
    )
}

/// What an operator hands its first operand, and its second.
spec fn binary_formula<L>(op: BinaryOp, k: int, a: L, b: L, y: L, d: L) -> Term<L> {
    match op {
        BinaryOp::Add => Term::Leaf(d),
        BinaryOp::Sub => if k == 0 {
            Term::Leaf(d)
        } else {
            negated_rule(d)
        },
        BinaryOp::Mul => product_rule(
            d,
            if k == 0 {
                b
            } else {
                a
            },
        ),
        BinaryOp::Div => if k == 0 {
            dividend_rule(b, d)
        } else {
            divisor_rule(b, y, d)
        },
        BinaryOp::Pow => if k == 0 {
            base_rule(a, b, d)
        } else {
            exponent_rule(a, y, d)
        },
        BinaryOp::Max => weighed_with(a, b, d, k == 0),
        BinaryOp::Min => weighed_with(a, b, d, k != 0),
        BinaryOp::LogB => if k == 0 {
            logarithm_base(a, y, d)
        } else {
            antilogarithm(a, b, d)
        },
        BinaryOp::Rem => Term::Leaf(d),
    }
}

proof fn a_share_has_its_places<L>(a: L, b: L, y: L, d: L, larger: bool)
    ensures
        placed(weighed_with(Place::A, Place::B, Place::D, larger), a, b, y, d) == weighed_with(a, b, d, larger),
{
    let sign = applied(UnaryOp::Sgn, joined(BinaryOp::Sub, leaf(Place::A), leaf(Place::B)));
    let real_sign = applied(UnaryOp::Sgn, joined(BinaryOp::Sub, leaf(a), leaf(b)));
    assert(placed(*sign, a, b, y, d) == *real_sign) by {
        reveal_with_fuel(placed, 3);
    }
    if larger {
        let sum = joined(BinaryOp::Add, constant(one()), sign);
        assert(placed(*sum, a, b, y, d) == *joined(BinaryOp::Add, constant(one()), real_sign)) by {
            reveal_with_fuel(placed, 2);
        }
        reveal_with_fuel(placed, 3);
    } else {
        let sum = joined(BinaryOp::Sub, constant(one()), sign);
        assert(placed(*sum, a, b, y, d) == *joined(BinaryOp::Sub, constant(one()), real_sign)) by {
            reveal_with_fuel(placed, 2);
        }
        reveal_with_fuel(placed, 3);
    }
}

#[verifier::rlimit(80)]
proof fn a_binary_rule_has_its_places<L>(op: BinaryOp, k: int, a: L, b: L, y: L, d: L)
    ensures
        placed(binary_formula(op, k, Place::A, Place::B, Place::Y, Place::D), a, b, y, d) == binary_formula(
            op,
            k,
            a,
            b,
            y,
            d,
        ),
{
    match op {
        BinaryOp::Add => {
            if k == 0 {
                reveal_with_fuel(placed, 5);
            } else {
                reveal_with_fuel(placed, 5);
            }
        },
        BinaryOp::Sub => {
            if k == 0 {
                reveal_with_fuel(placed, 5);
            } else {
                reveal_with_fuel(placed, 5);
            }
        },
        BinaryOp::Mul => {
            if k == 0 {
                reveal_with_fuel(placed, 5);
            } else {
                reveal_with_fuel(placed, 5);
            }
        },
        BinaryOp::Div => {
            if k == 0 {
                reveal_with_fuel(placed, 5);
            } else {
                reveal_with_fuel(placed, 5);
            }
        },
        BinaryOp::Pow => {
            if k == 0 {
                reveal_with_fuel(placed, 5);
            } else {
                reveal_with_fuel(placed, 5);
            }
        },
        BinaryOp::LogB => {
            if k == 0 {
                reveal_with_fuel(placed, 5);
            } else {
                reveal_with_fuel(placed, 5);
            }
        },
        BinaryOp::Rem => {
            if k == 0 {
                reveal_with_fuel(placed, 5);
            } else {
                reveal_with_fuel(placed, 5);
            }
        },
        BinaryOp::Max => a_share_has_its_places(a, b, y, d, k == 0),
        BinaryOp::Min => a_share_has_its_places(a, b, y, d, k != 0),
    }
}

proof fn dividing_is_multiplying(d: real, z: real)
    requires
        z != 0real,
    ensures
        d / z == d * (1real / z),
{
    assert(d / z == d * (1real / z)) by (nonlinear_arith)
        requires
            z != 0real,
    ;
}

proof fn dividing_twice(a: real, b: real, c: real)
    requires
        b != 0real,
        c != 0real,
    ensures
        (a / b) / c == a / (b * c),
{
    assert((a / b) / c == a / (b * c)) by (nonlinear_arith)
        requires
            b != 0real,
            c != 0real,
    ;
}

proof fn nothing_is_a_product(a: real, b: real)
    requires
        a != 0real,
        b != 0real,
    ensures
        a * b != 0real,
{
    assert(a * b != 0real) by (nonlinear_arith)
        requires
            a != 0real,
            b != 0real,
    ;
}

proof fn times_minus(d: real, s: real)
    ensures
        -(d * s) == d * -s,
{
    assert(-(d * s) == d * -s) by (nonlinear_arith);
}

#[verifier::rlimit(60)]
proof fn a_unary_rule_is_the_derivative(functions: Functions, op: UnaryOp, x: real, d: real)
    requires
        functions.is_smooth(op, x),
        !(op is Ceil) && !(op is Floor) && !(op is Sgn),
    ensures
        exactly(unary_rule(op, x, functions.unary(op, x), d), functions) == d * functions.derivative(op, x),
{
    the_constants_are_what_they_say();
    reveal_with_fuel(exactly, 7);
    let y = functions.unary(op, x);
    let square = x * x;
    assert(square >= 0real) by (nonlinear_arith)
        requires
            square == x * x,
    ;
    match op {
        UnaryOp::Negate => times_minus(d, 1real),
        UnaryOp::Sqr => {
            assert((d * x) * 2real == d * (2real * x)) by (nonlinear_arith);
        },
        UnaryOp::Cube => {
            assert((d * square) * 3real == d * (3real * square)) by (nonlinear_arith);
        },
        UnaryOp::Sqrt => {
            assert(y * 2real == 2real * y);
            dividing_is_multiplying(d, 2real * y);
        },
        UnaryOp::Cbrt => {
            nothing_is_a_product(y, y);
            assert((y * y) * 3real == 3real * (y * y));
            dividing_is_multiplying(d, 3real * (y * y));
        },
        UnaryOp::Ln => dividing_is_multiplying(d, x),
        UnaryOp::Log10 => {
            let ln = (functions.call)(Function::Ln, 10real);
            nothing_is_a_product(x, ln);
            dividing_is_multiplying(d, x * ln);
        },
        UnaryOp::Cos => times_minus(d, (functions.call)(Function::Sin, x)),
        UnaryOp::Cot => times_minus(d, 1real + y * y),
        UnaryOp::Asin => dividing_is_multiplying(d, (functions.call)(Function::Sqrt, 1real - square)),
        UnaryOp::Acos => {
            let root = (functions.call)(Function::Sqrt, 1real - square);
            dividing_is_multiplying(d, root);
            times_minus(d, 1real / root);
        },
        UnaryOp::Atan => dividing_is_multiplying(d, 1real + square),
        _ => {},
    }
}

#[verifier::rlimit(60)]
proof fn a_binary_rule_is_the_derivative(functions: Functions, op: BinaryOp, k: int, a: real, b: real, d: real)
    requires
        functions.are_smooth(op, a, b),
        !(op is Rem),
        0 <= k < 2,
    ensures
        exactly(binary_formula(op, k, a, b, functions.binary(op, a, b), d), functions) == d * (if k == 0 {
            functions.partials(op, a, b).0
        } else {
            functions.partials(op, a, b).1
        }),
{
    the_constants_are_what_they_say();
    reveal_with_fuel(exactly, 7);
    let y = functions.binary(op, a, b);
    match op {
        BinaryOp::Div => {
            dividing_is_multiplying(d, b);
            dividing_twice(a, b, b);
            times_minus(d, a / (b * b));
        },
        BinaryOp::Sub => times_minus(d, 1real),
        BinaryOp::LogB => {
            let base = (functions.call)(Function::Ln, a);
            let ln = (functions.call)(Function::Ln, b);
            nothing_is_a_product(b, base);
            dividing_is_multiplying(d, b * base);
            nothing_is_a_product(a, base);
            dividing_twice(ln, base, a * base);
            assert(base * (a * base) == a * (base * base)) by (nonlinear_arith);
            times_minus(d, ln / (a * (base * base)));
        },
        BinaryOp::Max | BinaryOp::Min => {
            assert((1real + 1real) * (1real / 2real) == 1real);
            assert((1real - 1real) * (1real / 2real) == 0real);
        },
        _ => {},
    }
}

/// What a sweep hands an operand is a derivative: each operand of an instruction is
/// handed a formula that, with exact operations, is the adjoint times the partial
/// derivative by that operand of what the instruction computes. Nothing else is
/// handed, and a constant exponent is handed nothing.
#[verifier::rlimit(60)]
pub proof fn every_contribution_is_a_derivative(insn: Instruction<VirtualRegister>, k: int)
    requires
        has_derivative(insn),
        insn.written() is Some,
        0 <= k < insn.read().len(),
        !is_exponent(insn, k),
    ensures
        exists|term: Term<Place>| #[trigger] is_handed(insn, k, term) && is_partial(insn, k, term),
{
    let term: Term<Place> = match insn {
        Instruction::Unary { op, .. } => unary_rule(op, Place::A, Place::Y, Place::D),
        Instruction::Binary { op, .. } => binary_formula(op, k, Place::A, Place::B, Place::Y, Place::D),
        Instruction::Compare { op, .. } => match op {
            CompareOp::Lt | CompareOp::Lte => binary_formula(BinaryOp::Sub, k, Place::A, Place::B, Place::Y, Place::D),
            CompareOp::Gt | CompareOp::Gte => binary_formula(BinaryOp::Sub, 1 - k, Place::A, Place::B, Place::Y, Place::D),
        },
        Instruction::Combine { how, .. } => match how {
            Accumulate::Sum => binary_formula(BinaryOp::Add, k, Place::A, Place::B, Place::Y, Place::D),
            Accumulate::Prod => binary_formula(BinaryOp::Mul, k, Place::A, Place::B, Place::Y, Place::D),
            Accumulate::Worst => binary_formula(BinaryOp::Max, k, Place::A, Place::B, Place::Y, Place::D),
        },
        _ => Term::Leaf(Place::D),
    };
    let operands = insn.read();
    assert forall|arithmetic: Arithmetic, held_in: Map<VirtualRegister, Real>, d: Real|
        (#[trigger] slopes(arithmetic, held_in, insn, d))[k] == (
            operands[k],
            evaluated(
                placed(
                    term,
                    held(held_in, operands[0]),
                    held(held_in, operands.last()),
                    held(held_in, insn.written()->0),
                    d,
                ),
                arithmetic,
            ),
        ) by {
        let p = held(held_in, operands[0]);
        let q = held(held_in, operands.last());
        let y = held(held_in, insn.written()->0);
        reveal_with_fuel(evaluated, 7);
        match insn {
            Instruction::Unary { op, .. } => a_unary_rule_has_its_places(op, p, q, y, d),
            Instruction::Binary { op, .. } => a_binary_rule_has_its_places(op, k, p, q, y, d),
            Instruction::Compare { op, .. } => {
                a_binary_rule_has_its_places(BinaryOp::Sub, k, p, q, y, d);
                a_binary_rule_has_its_places(BinaryOp::Sub, 1 - k, p, q, y, d);
            },
            Instruction::Combine { how, .. } => {
                a_binary_rule_has_its_places(BinaryOp::Add, k, p, q, y, d);
                a_binary_rule_has_its_places(BinaryOp::Mul, k, p, q, y, d);
                a_binary_rule_has_its_places(BinaryOp::Max, k, p, q, y, d);
            },
            _ => {},
        }
    }
    assert(is_handed(insn, k, term));
    assert forall|functions: Functions, a: real, b: real, d: real|
        functions.is_differentiable(insn, a, b) implies #[trigger] exactly(
        placed(term, a, b, functions.computed(insn, a, b), d),
        functions,
    ) == d * (if k == 0 {
        functions.gradient(insn, a, b).0
    } else {
        functions.gradient(insn, a, b).1
    }) by {
        let y = functions.computed(insn, a, b);
        match insn {
            Instruction::Unary { op, .. } => {
                a_unary_rule_has_its_places(op, a, b, y, d);
                a_unary_rule_is_the_derivative(functions, op, a, d);
            },
            Instruction::Binary { op, .. } => {
                a_binary_rule_has_its_places(op, k, a, b, y, d);
                a_binary_rule_is_the_derivative(functions, op, k, a, b, d);
            },
            Instruction::Compare { op, .. } => {
                a_binary_rule_has_its_places(BinaryOp::Sub, k, a, b, y, d);
                a_binary_rule_has_its_places(BinaryOp::Sub, 1 - k, a, b, y, d);
                a_binary_rule_is_the_derivative(functions, BinaryOp::Sub, k, a, b, d);
                a_binary_rule_is_the_derivative(functions, BinaryOp::Sub, 1 - k, a, b, d);
                reveal_with_fuel(exactly, 3);
            },
            Instruction::Combine { how, .. } => {
                let op = match how {
                    Accumulate::Sum => BinaryOp::Add,
                    Accumulate::Prod => BinaryOp::Mul,
                    Accumulate::Worst => BinaryOp::Max,
                };
                a_binary_rule_has_its_places(op, k, a, b, y, d);
                a_binary_rule_is_the_derivative(functions, op, k, a, b, d);
            },
            _ => {},
        }
    }
    assert(is_partial(insn, k, term));
}

/// A tie hands each operand of a maximum or a minimum half of the adjoint: the two
/// shares are the whole of it, at a tie as anywhere.
pub proof fn the_shares_are_the_whole(functions: Functions, a: real, b: real, larger: bool)
    ensures
        exactly(share_rule(a, b, larger), functions) + exactly(share_rule(a, b, !larger), functions) == 1real,
        a == b ==> exactly(share_rule(a, b, larger), functions) == 1real / 2real,
{
    the_constants_are_what_they_say();
    reveal_with_fuel(exactly, 7);
    let s = sign(a - b);
    let part = quantity(half());
    assert((1real + s) * part + (1real - s) * part == 1real) by (nonlinear_arith)
        requires
            part == 1real / 2real,
    ;
}

// ---- accumulation ----

/// What is handed to a register, of a list.
pub open spec fn handed_by(list: Slopes, register: VirtualRegister, upto: int) -> Seq<Real>
    decreases upto,
{
    if upto <= 0 {
        Seq::empty()
    } else if list[upto - 1].0 == register {
        handed_by(list, register, upto - 1).push(list[upto - 1].1)
    } else {
        handed_by(list, register, upto - 1)
    }
}

/// Everything that is handed to a register by the instructions from `from` on, the
/// last one first; to the result, one before anything.
pub open spec fn handed_to(
    arithmetic: Arithmetic,
    held_in: Map<VirtualRegister, Real>,
    insns: Seq<Instruction<VirtualRegister>>,
    result: VirtualRegister,
    from: int,
    register: VirtualRegister,
) -> Seq<Real>
    decreases insns.len() - from,
{
    if from < 0 || from >= insns.len() {
        if register == result {
            seq![one()]
        } else {
            Seq::empty()
        }
    } else {
        let later = handed_to(arithmetic, held_in, insns, result, from + 1, register);
        let known = adjoints(arithmetic, held_in, insns, result, from + 1);
        match insns[from].written() {
            Some(dst) => if known.contains_key(dst) {
                let list = slopes(arithmetic, held_in, insns[from], known[dst]);
                later + handed_by(list, register, list.len() as int)
            } else {
                later
            },
            None => later,
        }
    }
}

/// The sum of a list that has something in it.
pub open spec fn total(arithmetic: Arithmetic, list: Seq<Real>) -> Real
    decreases list.len(),
{
    if list.len() <= 1 {
        list[0]
    } else {
        arithmetic.plus(total(arithmetic, list.drop_last()), list.last())
    }
}

proof fn adding_totals(
    arithmetic: Arithmetic,
    adjoint: Map<VirtualRegister, Real>,
    list: Slopes,
    upto: int,
    register: VirtualRegister,
    before: Seq<Real>,
)
    requires
        0 <= upto <= list.len(),
        !(register is Const),
        adjoint.contains_key(register) <==> before.len() > 0,
        before.len() > 0 ==> adjoint[register] == total(arithmetic, before),
    ensures
        ({
            let after = slopes_added(arithmetic, adjoint, list, upto);
            let all = before + handed_by(list, register, upto);
            &&& after.contains_key(register) <==> all.len() > 0
            &&& all.len() > 0 ==> after[register] == total(arithmetic, all)
        }),
    decreases upto,
{
    let all = before + handed_by(list, register, upto);
    if upto > 0 {
        adding_totals(arithmetic, adjoint, list, upto - 1, register, before);
        let earlier = before + handed_by(list, register, upto - 1);
        if list[upto - 1].0 == register {
            assert(all =~= earlier.push(list[upto - 1].1));
            assert(all.drop_last() =~= earlier);
        } else {
            assert(all =~= earlier);
        }
    } else {
        assert(all =~= before);
    }
}

/// An adjoint is the sum of everything handed down: a value has one where anything
/// is handed to it, and then it is all of it added up.
pub proof fn an_adjoint_is_the_sum_of_what_is_handed_down(
    arithmetic: Arithmetic,
    held_in: Map<VirtualRegister, Real>,
    insns: Seq<Instruction<VirtualRegister>>,
    result: VirtualRegister,
    from: int,
    register: VirtualRegister,
)
    requires
        0 <= from <= insns.len(),
        !(register is Const),
    ensures
        ({
            let all = adjoints(arithmetic, held_in, insns, result, from);
            let list = handed_to(arithmetic, held_in, insns, result, from, register);
            &&& all.contains_key(register) <==> list.len() > 0
            &&& list.len() > 0 ==> all[register] == total(arithmetic, list)
        }),
    decreases insns.len() - from,
{
    if from < insns.len() {
        an_adjoint_is_the_sum_of_what_is_handed_down(arithmetic, held_in, insns, result, from + 1, register);
        let later = handed_to(arithmetic, held_in, insns, result, from + 1, register);
        let known = adjoints(arithmetic, held_in, insns, result, from + 1);
        if let Some(dst) = insns[from].written() {
            if known.contains_key(dst) {
                let list = slopes(arithmetic, held_in, insns[from], known[dst]);
                adding_totals(arithmetic, known, list, list.len() as int, register, later);
            }
        }
    }
}

/// As many operands are handed something as there are, a constant exponent apart.
pub proof fn every_operand_is_handed_something(
    arithmetic: Arithmetic,
    held_in: Map<VirtualRegister, Real>,
    insn: Instruction<VirtualRegister>,
    d: Real,
)
    requires
        has_derivative(insn),
        insn.written() is Some,
    ensures
        slopes(arithmetic, held_in, insn, d).len() == (if is_exponent(insn, 1) {
            1
        } else {
            insn.read().len()
        }),
{
}

/// What is declined is what has no slope that says where a boundary is: a rounding,
/// a sign, a remainder or a computed subscript. Nothing else is.
pub proof fn only_steps_are_declined(insn: Instruction<VirtualRegister>)
    ensures
        !has_derivative(insn) <==> {
            ||| insn is Gather
            ||| insn matches Instruction::Unary { op, .. } && (op is Floor || op is Ceil || op is Sgn)
            ||| insn matches Instruction::Binary { op, .. } && op is Rem
        },
{
}

/// The load of a row is an instruction that loads it, and there is none exactly
/// where no instruction does.
pub proof fn the_load_of_a_row_loads_it(insns: Seq<Instruction<VirtualRegister>>, input: u32, from: int)
    requires
        0 <= from <= insns.len(),
    ensures
        match load_of(insns, input, from) {
            Some(dst) => exists|i: int| from <= i < insns.len() && #[trigger] insns[i] == (Instruction::Load { dst, input }),
            None => forall|i: int|
                from <= i < insns.len() ==> !((#[trigger] insns[i]) is Load && insns[i]->Load_input == input),
        },
    decreases insns.len() - from,
{
    if from < insns.len() {
        the_load_of_a_row_loads_it(insns, input, from + 1);
    }
}

// ---- exact answers ----

/// What changes of sign and size are over the reals, and that nothing is zero.
pub proof fn signs_are_exact(value: Real)
    ensures
        quantity(zero()) == 0real,
        quantity(minus_one()) == -1real,
        quantity(value.negated()) == -quantity(value),
        quantity(value.absolute()) == size(quantity(value)),
{
    let unit = pow2(1074) as int;
    lemma_pow2_pos(1074);
    lemma2_to64();
    lemma2_to64_rest();
    lemma_pow2_adds(52, 1022);
    let whole = unit as real;
    assert(zero().scaled() == 0);
    assert(minus_one().scaled() == -unit);
    assert(0real / whole == 0real) by (nonlinear_arith)
        requires
            whole > 0real,
    ;
    assert((-whole) / whole == -1real) by (nonlinear_arith)
        requires
            whole > 0real,
    ;
    let part = crate::number::scaled_magnitude(value.magnitude());
    crate::number::a_magnitude_is_not_negative(value.magnitude());
    let top = part as real;
    assert((-top) / whole == -(top / whole)) by (nonlinear_arith)
        requires
            whole > 0real,
    ;
    assert(top / whole >= 0real) by (nonlinear_arith)
        requires
            whole > 0real,
            top >= 0real,
    ;
}

/// Whether a sum is the sum of the numbers, and not one that it is rounded to.
pub open spec fn adds_exactly(arithmetic: Arithmetic, a: Real, b: Real) -> bool {
    quantity(arithmetic.plus(a, b)) == quantity(a) + quantity(b)
}

pub open spec fn subtracts_exactly(arithmetic: Arithmetic, a: Real, b: Real) -> bool {
    quantity(arithmetic.minus(a, b)) == quantity(a) - quantity(b)
}

pub open spec fn multiplies_exactly(arithmetic: Arithmetic, a: Real, b: Real) -> bool {
    quantity(arithmetic.times(a, b)) == quantity(a) * quantity(b)
}

pub open spec fn divides_exactly(arithmetic: Arithmetic, a: Real, b: Real) -> bool {
    quantity(b) != 0real && quantity(arithmetic.over(a, b)) == quantity(a) / quantity(b)
}

/// Finite numbers stand in the order of what they are.
pub proof fn an_order_of_quantities(a: Real, b: Real)
    requires
        a.finite(),
        b.finite(),
    ensures
        a.below(b) <==> quantity(a) < quantity(b),
        a.at_most(b) <==> quantity(a) <= quantity(b),
{
    order_is_the_order_of_values(a, b);
    lemma_pow2_pos(1074);
    let whole = pow2(1074) as int as real;
    let x = a.scaled() as real;
    let y = b.scaled() as real;
    assert(x / whole < y / whole <==> x < y) by (nonlinear_arith)
        requires
            whole > 0real,
    ;
    assert(x / whole <= y / whole <==> x <= y) by (nonlinear_arith)
        requires
            whole > 0real,
    ;
    assert(a.at_most(b) <==> a.below(b) || a.same(b));
}

// ---- what an operator is ----

/// An operator is its function: where the answers asked for are exact, what an
/// operator makes of a number is what its function is of it.
pub proof fn an_operator_is_its_function(functions: Functions, arithmetic: Arithmetic, op: UnaryOp, x: Real)
    requires
        x.finite(),
        forall|function: Function| quantity(#[trigger] (arithmetic.call)(function, x)) == (functions.call)(
            function,
            quantity(x),
        ),
        op is Sqr || op is Cube ==> multiplies_exactly(arithmetic, x, x),
        op is Cube ==> multiplies_exactly(arithmetic, arithmetic.times(x, x), x),
        op is Cot ==> divides_exactly(arithmetic, one(), (arithmetic.call)(Function::Tan, x)),
    ensures
        quantity(op.value(arithmetic, x)) == functions.unary(op, quantity(x)),
{
    the_constants_are_what_they_say();
    signs_are_exact(x);
    signs_are_exact(one());
    an_order_of_quantities(x, zero());
    an_order_of_quantities(zero(), x);
}

/// An operator of two operands is its function, where the answers asked for are
/// exact.
pub proof fn an_operator_of_two_is_its_function(
    functions: Functions,
    arithmetic: Arithmetic,
    op: BinaryOp,
    a: Real,
    b: Real,
)
    requires
        a.finite(),
        b.finite(),
        adds_exactly(arithmetic, a, b),
        subtracts_exactly(arithmetic, a, b),
        multiplies_exactly(arithmetic, a, b),
        op is Div ==> divides_exactly(arithmetic, a, b),
        quantity((arithmetic.operate)(Operation::Rem, a, b)) == (functions.remainder)(quantity(a), quantity(b)),
        quantity((arithmetic.operate)(Operation::Pow, a, b)) == (functions.power)(quantity(a), quantity(b)),
        quantity((arithmetic.call)(Function::Ln, a)) == (functions.call)(Function::Ln, quantity(a)),
        quantity((arithmetic.call)(Function::Ln, b)) == (functions.call)(Function::Ln, quantity(b)),
        op is LogB ==> divides_exactly(
            arithmetic,
            (arithmetic.call)(Function::Ln, b),
            (arithmetic.call)(Function::Ln, a),
        ),
    ensures
        quantity(op.value(arithmetic, a, b)) == functions.binary(op, quantity(a), quantity(b)),
{
    an_order_of_quantities(a, b);
    an_order_of_quantities(b, a);
}

} // verus!
