//! Double-precision numbers held as their bit patterns.
//!
//! The structure of an expression, the order two values stand in, which
//! literals are whole numbers and which registers may share a constant are
//! all questions about the bits of a number, and are answered here exactly.
//! What `a + b` rounds to is the machine's business; the crate reaches it
//! through [`Machine`](crate::machine::Machine) alone.

use vstd::prelude::*;
use vstd::arithmetic::power2::{
    lemma2_to64, lemma2_to64_rest, lemma_pow2_adds, lemma_pow2_pos, lemma_pow2_strictly_increases,
    pow2,
};
use vstd::arithmetic::div_mod::{lemma_fundamental_div_mod, lemma_mod_multiples_basic};
use vstd::bits::lemma_u64_shl_is_mul;

verus! {

/// The bit that carries the sign.
pub const SIGN: u64 = 0x8000_0000_0000_0000;

/// The magnitude of an infinity; every magnitude above it is a NaN.
pub const INFINITE: u64 = 0x7ff0_0000_0000_0000;

/// One past the largest fraction field, which is also the weight of the
/// implicit leading bit.
pub const FRACTION: u64 = 0x0010_0000_0000_0000;

/// `2^53`: the largest magnitude at which every integer is representable.
pub const WHOLE_LIMIT: i64 = 9_007_199_254_740_992;

/// A binary64 number, as its bit pattern.
#[derive(Debug, Clone, Copy, PartialEq, Eq, Structural)]
pub struct Real {
    pub bits: u64,
}

impl Real {
    /// Whether the sign bit is set, NaNs and zeros included.
    pub open spec fn negative(self) -> bool {
        self.bits >= SIGN
    }

    /// The bits without the sign.
    pub open spec fn magnitude(self) -> int {
        if self.bits >= SIGN {
            self.bits - SIGN
        } else {
            self.bits as int
        }
    }

    pub open spec fn nan(self) -> bool {
        self.magnitude() > INFINITE
    }

    pub open spec fn finite(self) -> bool {
        self.magnitude() < INFINITE
    }

    /// An integer that orders numbers as the numbers are ordered: both zeros
    /// at zero, the negatives below it. Meaningless for a NaN.
    pub open spec fn key(self) -> int {
        if self.bits >= SIGN {
            -self.magnitude()
        } else {
            self.magnitude()
        }
    }

    /// `self < other`, false wherever a NaN is involved.
    pub open spec fn below(self, other: Real) -> bool {
        !self.nan() && !other.nan() && self.key() < other.key()
    }

    /// `self <= other`, false wherever a NaN is involved.
    pub open spec fn at_most(self, other: Real) -> bool {
        !self.nan() && !other.nan() && self.key() <= other.key()
    }

    /// `self == other` as numbers: the zeros are equal, a NaN equals nothing.
    pub open spec fn same(self, other: Real) -> bool {
        !self.nan() && !other.nan() && self.key() == other.key()
    }

    /// The value times `2^1074`, which is an integer for every finite number.
    pub open spec fn scaled(self) -> int {
        if self.negative() {
            -scaled_magnitude(self.magnitude())
        } else {
            scaled_magnitude(self.magnitude())
        }
    }

    /// Whether the value is the integer `n`.
    pub open spec fn equals_integer(self, n: int) -> bool {
        self.finite() && self.scaled() == scaled_integer(n)
    }
}

/// The bit pattern of one.
pub const ONE: u64 = 0x3ff0_0000_0000_0000;

/// The bit pattern of minus one.
pub const MINUS_ONE: u64 = 0xbff0_0000_0000_0000;

/// The bit pattern of the quiet NaN every operation without an answer gives.
pub const QUIET: u64 = 0x7ff8_0000_0000_0000;

/// The bit pattern of minus infinity.
pub const BOTTOM: u64 = 0xfff0_0000_0000_0000;

#[verifier::allow_in_spec]
pub fn zero() -> Real
    returns
        (Real { bits: 0 }),
{
    Real { bits: 0 }
}

#[verifier::allow_in_spec]
pub fn one() -> Real
    returns
        (Real { bits: ONE }),
{
    Real { bits: ONE }
}

#[verifier::allow_in_spec]
pub fn minus_one() -> Real
    returns
        (Real { bits: MINUS_ONE }),
{
    Real { bits: MINUS_ONE }
}

#[verifier::allow_in_spec]
pub fn nan() -> Real
    returns
        (Real { bits: QUIET }),
{
    Real { bits: QUIET }
}

#[verifier::allow_in_spec]
pub fn infinity() -> Real
    returns
        (Real { bits: INFINITE }),
{
    Real { bits: INFINITE }
}

#[verifier::allow_in_spec]
pub fn negative_infinity() -> Real
    returns
        (Real { bits: BOTTOM }),
{
    Real { bits: BOTTOM }
}

/// The bit pattern of two.
pub const TWO: u64 = 0x4000_0000_0000_0000;

#[verifier::allow_in_spec]
pub fn two() -> Real
    returns
        (Real { bits: TWO }),
{
    Real { bits: TWO }
}

/// The bit pattern of a half.
pub const HALF: u64 = 0x3fe0_0000_0000_0000;

#[verifier::allow_in_spec]
pub fn half() -> Real
    returns
        (Real { bits: HALF }),
{
    Real { bits: HALF }
}

/// The gap from one to the next number up.
pub const EPSILON: u64 = 0x3cb0_0000_0000_0000;

#[verifier::allow_in_spec]
pub fn epsilon() -> Real
    returns
        (Real { bits: EPSILON }),
{
    Real { bits: EPSILON }
}

/// The bit pattern of the smallest positive number of full precision.
pub const LEAST_NORMAL: u64 = 0x0010_0000_0000_0000;

#[verifier::allow_in_spec]
pub fn least_normal() -> Real
    returns
        (Real { bits: LEAST_NORMAL }),
{
    Real { bits: LEAST_NORMAL }
}

/// Two to a power: the exponent field alone, which has room for it.
pub open spec fn power_of_two(exponent: int) -> Real {
    Real { bits: (ONE + exponent * FRACTION) as u64 }
}

pub fn two_to(exponent: u32) -> (power: Real)
    requires
        exponent < 1024,
    ensures
        power == power_of_two(exponent as int),
{
    assert(exponent as u64 * FRACTION <= 1023 * FRACTION) by (nonlinear_arith)
        requires
            exponent <= 1023,
            FRACTION == 0x0010_0000_0000_0000,
    ;
    Real { bits: ONE + exponent as u64 * FRACTION }
}

impl Real {
    /// The same number with the other sign.
    pub open spec fn negated(self) -> Real {
        if self.bits >= SIGN {
            Real { bits: (self.bits - SIGN) as u64 }
        } else {
            Real { bits: (self.bits + SIGN) as u64 }
        }
    }

    /// The same number with its sign cleared.
    pub open spec fn absolute(self) -> Real {
        Real { bits: self.magnitude() as u64 }
    }

    pub fn from_bits(bits: u64) -> (number: Real)
        ensures
            number == (Real { bits }),
    {
        Real { bits }
    }

    pub fn to_bits(self) -> (bits: u64)
        ensures
            bits == self.bits,
    {
        self.bits
    }

    pub fn is_sign_negative(self) -> (negative: bool)
        ensures
            negative == self.negative(),
    {
        self.bits >= SIGN
    }

    fn unsigned(self) -> (magnitude: u64)
        ensures
            magnitude == self.magnitude(),
            magnitude < SIGN,
    {
        if self.bits >= SIGN {
            self.bits - SIGN
        } else {
            self.bits
        }
    }

    pub fn is_nan(self) -> (nan: bool)
        ensures
            nan == self.nan(),
    {
        self.unsigned() > INFINITE
    }

    pub fn is_finite(self) -> (finite: bool)
        ensures
            finite == self.finite(),
    {
        self.unsigned() < INFINITE
    }

    fn ordinal(self) -> (ordinal: i64)
        ensures
            ordinal == self.key(),
    {
        let magnitude: i64 = self.unsigned() as i64;
        if self.bits >= SIGN {
            -magnitude
        } else {
            magnitude
        }
    }

    /// `self < other`.
    pub fn lt(self, other: Real) -> (less: bool)
        ensures
            less == self.below(other),
    {
        !self.is_nan() && !other.is_nan() && self.ordinal() < other.ordinal()
    }

    /// `self <= other`.
    pub fn le(self, other: Real) -> (less: bool)
        ensures
            less == self.at_most(other),
    {
        !self.is_nan() && !other.is_nan() && self.ordinal() <= other.ordinal()
    }

    /// `self == other`, as numbers.
    pub fn equals(self, other: Real) -> (equal: bool)
        ensures
            equal == self.same(other),
    {
        !self.is_nan() && !other.is_nan() && self.ordinal() == other.ordinal()
    }

    pub fn negate(self) -> (negated: Real)
        ensures
            negated == self.negated(),
    {
        if self.bits >= SIGN {
            Real { bits: self.bits - SIGN }
        } else {
            Real { bits: self.bits + SIGN }
        }
    }

    pub fn abs(self) -> (absolute: Real)
        ensures
            absolute == self.absolute(),
    {
        Real { bits: self.unsigned() }
    }

    /// The sign of a number that has one: a zero and a NaN are their own sign,
    /// everything else is one or minus one.
    pub open spec fn signed(self) -> Real {
        if self.magnitude() == 0 || self.nan() {
            self
        } else if self.negative() {
            minus_one()
        } else {
            one()
        }
    }

    pub fn sign(self) -> (sign: Real)
        ensures
            sign == self.signed(),
    {
        if self.equals(zero()) || self.is_nan() {
            self
        } else if self.is_sign_negative() {
            minus_one()
        } else {
            one()
        }
    }

    /// The larger of two numbers; a NaN if either is one, and the positive zero
    /// of the two zeros.
    pub open spec fn larger(self, other: Real) -> Real {
        if self.nan() || other.nan() {
            nan()
        } else if self.key() > other.key() || self.key() == other.key() && !self.negative() {
            self
        } else {
            other
        }
    }

    /// The smaller of two numbers; a NaN if either is one, and the negative
    /// zero of the two zeros.
    pub open spec fn smaller(self, other: Real) -> Real {
        if self.nan() || other.nan() {
            nan()
        } else if self.key() < other.key() || self.key() == other.key() && self.negative() {
            self
        } else {
            other
        }
    }

    /// The larger of two numbers, or the other one where one is a NaN.
    pub open spec fn upper(self, other: Real) -> Real {
        if self.nan() {
            other
        } else if other.nan() {
            self
        } else {
            self.larger(other)
        }
    }

    /// The smaller of two numbers, or the other one where one is a NaN.
    pub open spec fn lower(self, other: Real) -> Real {
        if self.nan() {
            other
        } else if other.nan() {
            self
        } else {
            self.smaller(other)
        }
    }

    /// Where a number stands among all of them, the NaNs and the two zeros
    /// told apart.
    pub open spec fn rank(self) -> int {
        if self.negative() {
            -self.magnitude() - 1
        } else {
            self.magnitude()
        }
    }

    /// Whether this number stands before another among all of them.
    pub fn ranks_before(self, other: Real) -> (before: bool)
        ensures
            before == (self.rank() < other.rank()),
    {
        if self.bits >= SIGN {
            other.bits < SIGN || self.bits > other.bits
        } else {
            other.bits < SIGN && self.bits < other.bits
        }
    }

    /// The next number up; a NaN and infinity are their own.
    pub open spec fn up(self) -> Real {
        if self.nan() || self == infinity() {
            self
        } else if self.magnitude() == 0 {
            Real { bits: 1 }
        } else if self.negative() {
            Real { bits: (self.bits - 1) as u64 }
        } else {
            Real { bits: (self.bits + 1) as u64 }
        }
    }

    pub fn next_up(self) -> (next: Real)
        ensures
            next == self.up(),
    {
        if self.is_nan() || self.bits == INFINITE {
            self
        } else if self.bits == 0 || self.bits == SIGN {
            Real { bits: 1 }
        } else if self.bits >= SIGN {
            Real { bits: self.bits - 1 }
        } else {
            Real { bits: self.bits + 1 }
        }
    }

    pub fn max(self, other: Real) -> (larger: Real)
        ensures
            larger == self.upper(other),
    {
        if self.is_nan() {
            other
        } else if other.is_nan() || other.lt(self) {
            self
        } else if self.lt(other) || self.is_sign_negative() {
            other
        } else {
            self
        }
    }

    pub fn min(self, other: Real) -> (smaller: Real)
        ensures
            smaller == self.lower(other),
    {
        if self.is_nan() {
            other
        } else if other.is_nan() || self.lt(other) {
            self
        } else if other.lt(self) || !self.is_sign_negative() {
            other
        } else {
            self
        }
    }
}

/// `n` times `2^1074`.
pub open spec fn scaled_integer(n: int) -> int {
    n * (pow2(1074) as int)
}

/// The magnitude's value times `2^1074`.
pub open spec fn scaled_magnitude(magnitude: int) -> int {
    let field = magnitude / (FRACTION as int);
    let fraction = magnitude % (FRACTION as int);
    if field == 0 {
        fraction
    } else {
        (FRACTION + fraction) * (pow2((field - 1) as nat) as int)
    }
}

proof fn magnitudes_are_ordered(a: int, b: int)
    requires
        0 <= a < b,
    ensures
        0 <= scaled_magnitude(a) < scaled_magnitude(b),
{
    let unit = FRACTION as int;
    let fa = a / unit;
    let ra = a % unit;
    let fb = b / unit;
    let rb = b % unit;
    lemma_fundamental_div_mod(a, unit);
    lemma_fundamental_div_mod(b, unit);
    assert(a == unit * fa + ra && b == unit * fb + rb);
    assert(0 <= ra < unit && 0 <= rb < unit);
    assert(0 <= fa <= fb);
    if fb == 0 {
    } else {
        let pb = pow2((fb - 1) as nat) as int;
        lemma_pow2_pos((fb - 1) as nat);
        if fa == fb {
            assert(0 <= (unit + ra) * pb < (unit + rb) * pb) by (nonlinear_arith)
                requires
                    0 <= ra < rb,
                    unit > 0,
                    pb > 0,
            ;
        } else if fa == 0 {
            assert(unit <= (unit + rb) * pb) by (nonlinear_arith)
                requires
                    0 <= rb,
                    unit > 0,
                    pb >= 1,
            ;
        } else {
            let pa = pow2((fa - 1) as nat) as int;
            lemma_pow2_pos((fa - 1) as nat);
            lemma_pow2_adds((fa - 1) as nat, (fb - fa) as nat);
            lemma_pow2_strictly_increases(0, (fb - fa) as nat);
            lemma2_to64();
            let gap = pow2((fb - fa) as nat) as int;
            assert(gap >= 2);
            assert(pb == pa * gap);
            assert(0 <= (unit + ra) * pa < (unit + rb) * pb) by (nonlinear_arith)
                requires
                    0 <= ra < unit,
                    0 <= rb,
                    pa > 0,
                    gap >= 2,
                    pb == pa * gap,
            ;
        }
    }
}

/// Two finite numbers stand in the order their values do, and are equal exactly
/// when their values are.
pub proof fn order_is_the_order_of_values(a: Real, b: Real)
    requires
        a.finite(),
        b.finite(),
    ensures
        a.below(b) <==> a.scaled() < b.scaled(),
        a.same(b) <==> a.scaled() == b.scaled(),
{
    let ma = a.magnitude();
    let mb = b.magnitude();
    assert(scaled_magnitude(0) == 0);
    if 0 < ma {
        magnitudes_are_ordered(0, ma);
    }
    if 0 < mb {
        magnitudes_are_ordered(0, mb);
    }
    if ma < mb {
        magnitudes_are_ordered(ma, mb);
    } else if mb < ma {
        magnitudes_are_ordered(mb, ma);
    }
}

proof fn whole_magnitude(field: int, fraction: int, n: int)
    requires
        1 <= field <= 1075,
        0 <= fraction < FRACTION,
    ensures
        (FRACTION + fraction) * (pow2((field - 1) as nat) as int) == n * (pow2(1074) as int) <==>
            FRACTION + fraction == n * (pow2((1075 - field) as nat) as int),
{
    let low = pow2((field - 1) as nat) as int;
    let high = pow2((1075 - field) as nat) as int;
    lemma_pow2_pos((field - 1) as nat);
    lemma_pow2_adds((field - 1) as nat, (1075 - field) as nat);
    assert(pow2(1074) as int == low * high);
    let significand = FRACTION + fraction;
    assert(significand * low == n * (low * high) <==> significand == n * high) by (nonlinear_arith)
        requires
            low > 0,
    ;
}

/// Whether `value` is the integer `n`, at most `2^53` from zero.
pub open spec fn is_index(value: Real, n: i64) -> bool {
    value.equals_integer(n as int) && -WHOLE_LIMIT <= n <= WHOLE_LIMIT
}

/// The index a number is, if it is one.
pub open spec fn index_of(value: Real) -> Option<i64> {
    if exists|n: i64| is_index(value, n) {
        Some(choose|n: i64| is_index(value, n))
    } else {
        None
    }
}

/// A number is at most one integer.
pub proof fn at_most_one_integer(value: Real, m: int, n: int)
    requires
        value.equals_integer(m),
        value.equals_integer(n),
    ensures
        m == n,
{
    lemma_pow2_pos(1074);
    let unit = pow2(1074) as int;
    assert(m == n) by (nonlinear_arith)
        requires
            unit > 0,
            m * unit == n * unit,
    ;
}

/// The single place where a number becomes an integer index: the integer the
/// value is, when it is one and no further than `2^53` from zero.
///
/// `None` for a NaN, an infinity, anything with a fractional part and anything
/// beyond the limit, past which consecutive integers are not representable.
pub fn to_index(value: Real) -> (index: Option<i64>)
    ensures
        index == index_of(value),
{
    let index = exact_integer(value);
    proof {
        if index is Some {
            assert(is_index(value, index->0));
            assert forall|n: i64| is_index(value, n) implies n == index->0 by {
                at_most_one_integer(value, n as int, index->0 as int);
            }
        } else {
            assert forall|n: i64| !is_index(value, n) by {
                assert(!value.equals_integer(n as int) || !(-WHOLE_LIMIT <= n <= WHOLE_LIMIT));
            }
        }
    }
    index
}

fn exact_integer(value: Real) -> (index: Option<i64>)
    ensures
        match index {
            Some(n) => value.equals_integer(n as int) && -WHOLE_LIMIT <= n <= WHOLE_LIMIT,
            None => forall|n: int| value.equals_integer(n) ==> !(-WHOLE_LIMIT <= n <= WHOLE_LIMIT),
        },
{
    if !value.is_finite() {
        return None;
    }
    let magnitude: u64 = value.unsigned();
    let negative: bool = value.is_sign_negative();
    let field: u64 = magnitude / FRACTION;
    let fraction: u64 = magnitude % FRACTION;
    let ghost unit = pow2(1074) as int;
    let ghost unsigned = scaled_magnitude(magnitude as int);
    proof {
        lemma_pow2_pos(1074);
        assert(value.scaled() == if negative { -unsigned } else { unsigned });
        assert forall|n: int| #[trigger] scaled_integer(-n) == -scaled_integer(n) by {
            assert((-n) * unit == -(n * unit)) by (nonlinear_arith);
        }
    }
    if magnitude == 0 {
        assert(unsigned == 0);
        assert(scaled_integer(0) == 0);
        return Some(0);
    }
    if field < 1023 {
        proof {
            magnitudes_are_ordered(0, magnitude as int);
            magnitudes_are_ordered(magnitude as int, 1023 * FRACTION as int);
            assert(scaled_magnitude(1023 * FRACTION as int) == FRACTION * (pow2(1022) as int));
            lemma_pow2_adds(52, 1022);
            lemma2_to64();
            lemma2_to64_rest();
            assert(pow2(52) == FRACTION);
            assert(0 < unsigned < unit);
            assert forall|n: int| #[trigger] scaled_integer(n) == unsigned implies false by {
                assert(n * unit <= 0 || n * unit >= unit) by (nonlinear_arith)
                    requires
                        unit > 0,
                ;
            }
        }
        assert(forall|n: int| #[trigger] scaled_integer(n) == value.scaled() ==> scaled_integer(-n) == -value.scaled());
        return None;
    }
    if field > 1076 || field == 1076 && fraction > 0 {
        proof {
            magnitudes_are_ordered(1076 * FRACTION as int, magnitude as int);
            assert(scaled_magnitude(1076 * FRACTION as int) == FRACTION * (pow2(1075) as int));
            lemma_pow2_adds(1, 1074);
            lemma2_to64();
            let limit = WHOLE_LIMIT as int;
            assert(limit == 2 * FRACTION);
            assert(FRACTION * (pow2(1075) as int) == limit * unit) by (nonlinear_arith)
                requires
                    pow2(1075) == 2 * unit,
                    limit == 2 * FRACTION,
            ;
            assert forall|n: int| #[trigger] scaled_integer(n) == unsigned implies n > limit by {
                assert(n > limit) by (nonlinear_arith)
                    requires
                        unit > 0,
                        n * unit > limit * unit,
                ;
            }
        }
        assert(forall|n: int| #[trigger] scaled_integer(n) == value.scaled() ==> scaled_integer(-n) == -value.scaled());
        return None;
    }
    let whole: u64;
    if field == 1076 {
        whole = 2 * FRACTION;
        proof {
            lemma_pow2_adds(1, 1074);
            lemma2_to64();
            assert(FRACTION * (pow2(1075) as int) == (2 * FRACTION) * unit) by (nonlinear_arith)
                requires
                    pow2(1075) == 2 * unit,
            ;
            assert(unsigned == whole * unit);
        }
    } else {
        let significand: u64 = FRACTION + fraction;
        let shift: u64 = 1075 - field;
        proof {
            lemma_pow2_strictly_increases(shift as nat, 53);
            lemma2_to64();
            lemma2_to64_rest();
            lemma_pow2_pos(shift as nat);
            lemma_u64_shl_is_mul(1, shift);
        }
        let step: u64 = 1u64 << shift;
        assert(step == pow2(shift as nat));
        let ghost divisor = step as int;
        proof {
            lemma_fundamental_div_mod(significand as int, divisor);
        }
        if significand % step != 0 {
            proof {
                assert forall|n: int| #[trigger] scaled_integer(n) == unsigned implies false by {
                    whole_magnitude(field as int, fraction as int, n);
                    assert(significand == n * divisor);
                    lemma_mod_multiples_basic(n, divisor);
                }
            }
            assert(forall|n: int| #[trigger] scaled_integer(n) == value.scaled() ==> scaled_integer(-n) == -value.scaled());
            return None;
        }
        whole = significand / step;
        proof {
            whole_magnitude(field as int, fraction as int, whole as int);
            assert(significand == whole * divisor) by (nonlinear_arith)
                requires
                    significand as int == divisor * (whole as int) + 0,
            ;
            assert(whole <= significand) by (nonlinear_arith)
                requires
                    significand == whole * divisor,
                    divisor >= 1,
                    whole >= 0,
            ;
        }
    }
    assert(scaled_integer(whole as int) == unsigned);
    assert(scaled_integer(-(whole as int)) == -unsigned);
    if negative {
        Some(-(whole as i64))
    } else {
        Some(whole as i64)
    }
}

/// A magnitude is not negative.
pub proof fn a_magnitude_is_not_negative(magnitude: int)
    requires
        0 <= magnitude,
    ensures
        0 <= scaled_magnitude(magnitude),
        scaled_magnitude(0) == 0,
{
    assert(scaled_magnitude(0) == 0);
    if 0 < magnitude {
        magnitudes_are_ordered(0, magnitude);
    }
}

/// The next number up is the next: above, where there is any above, and with no number
/// between the two.
pub proof fn nothing_is_between_neighbours(value: Real, between: Real)
    requires
        !value.nan(),
        value != infinity(),
    ensures
        value.below(value.up()),
        !(value.below(between) && between.below(value.up())),
{
}

} // verus!
