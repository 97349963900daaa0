//! The machine's arithmetic, as the crate sees it.
//!
//! What a cosine or a quotient rounds to is decided by the hardware and the
//! mathematics library, not here. Everything the crate decides *with* such a
//! result is written against [`Machine`]; a contract then says what comes out
//! whenever the machine gives one answer to one question.

use vstd::prelude::*;
use crate::number::Real;

verus! {

/// The functions of one number the machine supplies.
#[derive(Debug, Clone, Copy, PartialEq, Eq, Structural)]
pub enum Function {
    Cos,
    Sin,
    Tan,
    Acos,
    Asin,
    Atan,
    Cosh,
    Sinh,
    Tanh,
    Ln,
    Log10,
    Sqrt,
    Cbrt,
    Ceil,
    Floor,
}

/// The operations on two numbers the machine supplies.
#[derive(Debug, Clone, Copy, PartialEq, Eq, Structural)]
pub enum Operation {
    Add,
    Sub,
    Mul,
    Div,
    /// The truncated remainder, whose sign follows the dividend.
    Rem,
    Pow,
}

/// A source of arithmetic.
pub trait Machine {
    fn call(&self, function: Function, x: Real) -> (y: Real);

    fn operate(&self, operation: Operation, a: Real, b: Real) -> (y: Real);
}

/// An arithmetic: the answer to every question.
pub ghost struct Arithmetic {
    pub call: spec_fn(Function, Real) -> Real,
    pub operate: spec_fn(Operation, Real, Real) -> Real,
}

impl Arithmetic {
    pub open spec fn plus(self, a: Real, b: Real) -> Real {
        (self.operate)(Operation::Add, a, b)
    }

    pub open spec fn minus(self, a: Real, b: Real) -> Real {
        (self.operate)(Operation::Sub, a, b)
    }

    pub open spec fn times(self, a: Real, b: Real) -> Real {
        (self.operate)(Operation::Mul, a, b)
    }

    pub open spec fn over(self, a: Real, b: Real) -> Real {
        (self.operate)(Operation::Div, a, b)
    }
}

/// Whether every answer `machine` can give is the one `arithmetic` has.
pub open spec fn computes<M: Machine>(machine: M, arithmetic: Arithmetic) -> bool {
    &&& forall|function: Function, x: Real, y: Real| #[trigger]
        call_ensures(M::call, (&machine, function, x), y) ==> y == (arithmetic.call)(function, x)
    &&& forall|operation: Operation, a: Real, b: Real, y: Real| #[trigger]
        call_ensures(M::operate, (&machine, operation, a, b), y) ==> y == (arithmetic.operate)(operation, a, b)
}

/// Whether `machine` answers one question in one way.
pub open spec fn deterministic<M: Machine>(machine: M) -> bool {
    exists|arithmetic: Arithmetic| computes(machine, arithmetic)
}

/// The arithmetic of a deterministic machine.
pub open spec fn arithmetic_of<M: Machine>(machine: M) -> Arithmetic {
    choose|arithmetic: Arithmetic| computes(machine, arithmetic)
}

pub fn plus<M: Machine>(machine: &M, a: Real, b: Real) -> (y: Real)
    ensures
        deterministic(*machine) ==> y == arithmetic_of(*machine).plus(a, b),
{
    machine.operate(Operation::Add, a, b)
}

pub fn minus<M: Machine>(machine: &M, a: Real, b: Real) -> (y: Real)
    ensures
        deterministic(*machine) ==> y == arithmetic_of(*machine).minus(a, b),
{
    machine.operate(Operation::Sub, a, b)
}

pub fn times<M: Machine>(machine: &M, a: Real, b: Real) -> (y: Real)
    ensures
        deterministic(*machine) ==> y == arithmetic_of(*machine).times(a, b),
{
    machine.operate(Operation::Mul, a, b)
}

pub fn over<M: Machine>(machine: &M, a: Real, b: Real) -> (y: Real)
    ensures
        deterministic(*machine) ==> y == arithmetic_of(*machine).over(a, b),
{
    machine.operate(Operation::Div, a, b)
}

} // verus!
