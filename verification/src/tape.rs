//! The evaluator's **intermediate representation**: a flat list of
//! three-address instructions, in two forms. [`VirtualTape`] is the form
//! lowering produces, over virtual registers, which a tape-to-tape pass
//! transforms; [`AllocatedTape`] is the same after register allocation, over
//! physical ones, which the executors run.

use vstd::prelude::*;
use std::collections::HashMap;
use crate::ast::{maximum, AggregateKind, BinaryOp, CompareOp, UnaryOp};
use crate::diagnostics::Span;
use crate::machine::{arithmetic_of, deterministic, Arithmetic, Machine};
use crate::number::{negative_infinity, Real};

verus! {

broadcast use vstd::std_specs::hash::group_hash_axioms;

/// A physical register: an index into the frame (per lane) or the register
/// file (per tile).
#[derive(Debug, Clone, Copy, PartialEq, Eq, Structural)]
pub struct Register(pub u16);

impl Register {
    pub fn index(self) -> (index: usize)
        ensures
            index == self.0,
    {
        self.0 as usize
    }
}

/// A register before allocation, by class.
///
/// Constants and locals are *pinned*: a constant lives in one register for
/// the life of the tape, and a local keeps the frame slot the front end gave
/// it, so that an unwritten local reads the NaN it was primed with. Only
/// temporaries are packed.
#[derive(Debug, Clone, Copy, PartialEq, Eq, Structural)]
pub enum VirtualRegister {
    Const(u16),
    Local(u16),
    Temp(u32),
}

/// The constant pool of a tape under construction: one register per distinct
/// bit pattern, so `0.0` and `-0.0` stay distinct and a value used twice is
/// loaded once.
#[derive(Debug, Clone)]
pub struct Constants {
    pub values: Vec<Real>,
    pub index: HashMap<u64, u16>,
}

/// The pool once `value` has been asked for.
pub open spec fn interned(pool: Seq<Real>, value: Real) -> Seq<Real> {
    if pool.contains(value) {
        pool
    } else {
        pool.push(value)
    }
}

/// The register a pooled value lives in.
pub open spec fn pool_register(pool: Seq<Real>, value: Real) -> VirtualRegister {
    VirtualRegister::Const(pool.index_of(value) as u16)
}

impl View for Constants {
    type V = Seq<Real>;

    open spec fn view(&self) -> Seq<Real> {
        self.values@
    }
}

impl Constants {
    /// Each value once, and the index knows where each one is.
    pub open spec fn well_formed(&self) -> bool {
        &&& self@.no_duplicates()
        &&& self@.len() <= 65536
        &&& forall|i: int|
            0 <= i < self@.len() ==> #[trigger] self.index@.contains_key(self@[i].bits) && self.index@[self@[i].bits] == i
        &&& forall|bits: u64| #[trigger]
            self.index@.contains_key(bits) ==> self.index@[bits] < self@.len() && self@[self.index@[bits] as int].bits == bits
    }

    pub fn new() -> (pool: Self)
        ensures
            pool.well_formed(),
            pool@ == Seq::<Real>::empty(),
    {
        Constants { values: Vec::new(), index: HashMap::new() }
    }

    /// The register holding `value`, minted on first use.
    pub fn intern(&mut self, value: Real) -> (register: VirtualRegister)
        requires
            old(self).well_formed(),
            old(self)@.contains(value) || old(self)@.len() < 65536,
        ensures
            final(self).well_formed(),
            final(self)@ == interned(old(self)@, value),
            register == pool_register(final(self)@, value),
            final(self)@.contains(value),
    {
        let bits: u64 = value.to_bits();
        let found: Option<u16> = match self.index.get(&bits) {
            Some(index) => Some(*index),
            None => None,
        };
        match found {
            Some(index) => {
                proof {
                    assert(self@[index as int] == value);
                    assert(self@.contains(value));
                    let at = self@.index_of(value);
                    assert(0 <= at < self@.len() && self@[at] == value);
                    assert(at == index);
                }
                VirtualRegister::Const(index)
            },
            None => {
                proof {
                    if self@.contains(value) {
                        let i = choose|i: int| 0 <= i < self@.len() && self@[i] == value;
                        assert(self.index@.contains_key(self@[i].bits));
                    }
                }
                let index: u16 = self.values.len() as u16;
                self.values.push(value);
                self.index.insert(bits, index);
                proof {
                    assert(self@[index as int] == value);
                    assert(self@.contains(value));
                    let at = self@.index_of(value);
                    assert(0 <= at < self@.len() && self@[at] == value);
                    assert(at == index);
                }
                VirtualRegister::Const(index)
            },
        }
    }

    /// The same pool again.
    pub fn duplicate(&self) -> (pool: Constants)
        requires
            self.well_formed(),
        ensures
            pool.well_formed(),
            pool@ == self@,
    {
        let mut pool = Constants::new();
        for i in 0..self.values.len()
            invariant
                self.well_formed(),
                pool.well_formed(),
                pool@ == self@.take(i as int),
        {
            proof {
                let taken = self@.take(i as int);
                assert(!taken.contains(self@[i as int])) by {
                    if taken.contains(self@[i as int]) {
                        let j = choose|j: int| 0 <= j < taken.len() && taken[j] == self@[i as int];
                        assert(self@[j] == self@[i as int]);
                    }
                }
                assert(taken.push(self@[i as int]) =~= self@.take(i + 1));
            }
            let register = pool.intern(self.values[i]);
        }
        assert(self@.take(self@.len() as int) =~= self@);
        pool
    }
}

/// How a fold step combines.
#[derive(Debug, Clone, Copy, PartialEq, Eq, Structural)]
pub enum Accumulate {
    Sum,
    Prod,
    /// Conjunction under the `<= 0` convention: the worst residual wins.
    Worst,
}

impl Accumulate {
    /// The aggregate's own definition, or the larger residual.
    pub open spec fn value(self, arithmetic: Arithmetic, accumulated: Real, term: Real) -> Real {
        match self {
            Accumulate::Sum => AggregateKind::Sum.combined(arithmetic, accumulated, term),
            Accumulate::Prod => AggregateKind::Prod.combined(arithmetic, accumulated, term),
            Accumulate::Worst => accumulated.larger(term),
        }
    }

    pub fn apply<M: Machine>(self, machine: &M, accumulated: Real, term: Real) -> (y: Real)
        ensures
            deterministic(*machine) ==> y == self.value(arithmetic_of(*machine), accumulated, term),
            self is Worst ==> y == accumulated.larger(term),
    {
        match self {
            Accumulate::Sum => AggregateKind::Sum.combine(machine, accumulated, term),
            Accumulate::Prod => AggregateKind::Prod.combine(machine, accumulated, term),
            Accumulate::Worst => maximum(accumulated, term),
        }
    }

    #[verifier::allow_in_spec]
    pub fn identity(self) -> Real
        returns
            (match self {
                Accumulate::Sum => AggregateKind::Sum.identity(),
                Accumulate::Prod => AggregateKind::Prod.identity(),
                Accumulate::Worst => negative_infinity(),
            }),
    {
        match self {
            Accumulate::Sum => AggregateKind::Sum.identity(),
            Accumulate::Prod => AggregateKind::Prod.identity(),
            Accumulate::Worst => negative_infinity(),
        }
    }

    #[verifier::allow_in_spec]
    pub fn from_aggregate(kind: AggregateKind) -> Self
        returns
            (match kind {
                AggregateKind::Sum => Accumulate::Sum,
                AggregateKind::Prod => Accumulate::Prod,
            }),
    {
        match kind {
            AggregateKind::Sum => Accumulate::Sum,
            AggregateKind::Prod => Accumulate::Prod,
        }
    }
}

/// One instruction. Generic over the register type so that a tape whose
/// registers have not been allocated cannot be run by mistake.
///
/// "Checked" below means the destination is tested for a finite value, and a
/// non-finite one is a fault at the instruction's span.
#[derive(Debug, Clone, Copy, PartialEq, Eq, Structural)]
pub enum Instruction<R> {
    /// `row[input]` into `dst`. Checked, so a non-finite input fails at the
    /// variable that carried it.
    Load { dst: R, input: u32 },
    /// A leaf has no instruction of its own to write into a local, so it is
    /// copied. Unchecked; the leaf was.
    Copy { dst: R, src: R },
    Unary { dst: R, op: UnaryOp, a: R },
    Binary { dst: R, op: BinaryOp, a: R, b: R },
    /// The residual of `a op b` under the `<= 0` convention. Checked.
    Compare { dst: R, op: CompareOp, a: R, b: R },
    /// One step of a fold: `dst = how(a, b)`. Checked only when `last`.
    Combine { dst: R, how: Accumulate, a: R, b: R, last: bool },
    /// Test `reg` for a finite value. Emitted for a local the emitter cannot
    /// prove was assigned.
    Check { reg: R },
    /// `var[index]`: one-based into the whole row. The index faults name
    /// `subscript`; a non-finite value read names this instruction. Checked.
    Gather { dst: R, index: R, subscript: Span },
}

impl<R> Instruction<R> {
    /// The register written, if any.
    pub open spec fn written(self) -> Option<R> {
        match self {
            Instruction::Load { dst, .. } => Some(dst),
            Instruction::Copy { dst, .. } => Some(dst),
            Instruction::Unary { dst, .. } => Some(dst),
            Instruction::Binary { dst, .. } => Some(dst),
            Instruction::Compare { dst, .. } => Some(dst),
            Instruction::Combine { dst, .. } => Some(dst),
            Instruction::Gather { dst, .. } => Some(dst),
            Instruction::Check { .. } => None,
        }
    }

    /// The registers read, in operand order.
    pub open spec fn read(self) -> Seq<R> {
        match self {
            Instruction::Load { .. } => Seq::empty(),
            Instruction::Copy { src, .. } => seq![src],
            Instruction::Unary { a, .. } => seq![a],
            Instruction::Binary { a, b, .. } => seq![a, b],
            Instruction::Compare { a, b, .. } => seq![a, b],
            Instruction::Combine { a, b, .. } => seq![a, b],
            Instruction::Check { reg } => seq![reg],
            Instruction::Gather { index, .. } => seq![index],
        }
    }

    /// The same instruction writing `to` instead.
    pub open spec fn writing(self, to: R) -> Instruction<R> {
        match self {
            Instruction::Load { input, .. } => Instruction::Load { dst: to, input },
            Instruction::Copy { src, .. } => Instruction::Copy { dst: to, src },
            Instruction::Unary { op, a, .. } => Instruction::Unary { dst: to, op, a },
            Instruction::Binary { op, a, b, .. } => Instruction::Binary { dst: to, op, a, b },
            Instruction::Compare { op, a, b, .. } => Instruction::Compare { dst: to, op, a, b },
            Instruction::Combine { how, a, b, last, .. } => Instruction::Combine { dst: to, how, a, b, last },
            Instruction::Check { reg } => Instruction::Check { reg },
            Instruction::Gather { index, subscript, .. } => Instruction::Gather { dst: to, index, subscript },
        }
    }

    /// The same instruction with every register renamed.
    pub open spec fn renamed<S>(self, name: spec_fn(R) -> S) -> Instruction<S> {
        match self {
            Instruction::Load { dst, input } => Instruction::Load { dst: name(dst), input },
            Instruction::Copy { dst, src } => Instruction::Copy { dst: name(dst), src: name(src) },
            Instruction::Unary { dst, op, a } => Instruction::Unary { dst: name(dst), op, a: name(a) },
            Instruction::Binary { dst, op, a, b } => Instruction::Binary { dst: name(dst), op, a: name(a), b: name(b) },
            Instruction::Compare { dst, op, a, b } => Instruction::Compare { dst: name(dst), op, a: name(a), b: name(b) },
            Instruction::Combine { dst, how, a, b, last } => Instruction::Combine {
                dst: name(dst),
                how,
                a: name(a),
                b: name(b),
                last,
            },
            Instruction::Check { reg } => Instruction::Check { reg: name(reg) },
            Instruction::Gather { dst, index, subscript } => Instruction::Gather {
                dst: name(dst),
                index: name(index),
                subscript,
            },
        }
    }

    /// What is left of an instruction without its registers: the kind, the
    /// operation, and whatever else it carries.
    pub open spec fn bare(self) -> Instruction<()> {
        self.renamed(|register: R| ())
    }

    /// Whether `image` is this instruction with each register in the place of
    /// the one `f` answered it for, and everything else as it was.
    pub open spec fn maps_to<S, F: Fn(R) -> S>(self, f: F, image: Instruction<S>) -> bool {
        &&& image.bare() == self.bare()
        &&& image.written() is Some == self.written() is Some
        &&& self.written() is Some ==> call_ensures(f, (self.written()->0,), image.written()->0)
        &&& image.read().len() == self.read().len()
        &&& forall|k: int|
            0 <= k < self.read().len() ==> call_ensures(f, (self.read()[k],), #[trigger] image.read()[k])
    }
}

/// Renaming keeps what an instruction is, and renames its register and its
/// operands in their order.
pub proof fn renaming_is_register_by_register<R, S>(insn: Instruction<R>, name: spec_fn(R) -> S)
    ensures
        insn.renamed(name).bare() == insn.bare(),
        insn.renamed(name).written() == match insn.written() {
            Some(register) => Some(name(register)),
            None => None,
        },
        insn.renamed(name).read() == insn.read().map_values(name),
{
    assert(insn.renamed(name).read() =~= insn.read().map_values(name));
}

/// Renaming every register to itself changes nothing.
pub proof fn renaming_to_itself_changes_nothing<R>(insn: Instruction<R>)
    ensures
        insn.renamed(|register: R| register) == insn,
{
}

/// Renaming twice is renaming once by both names in turn.
pub proof fn renaming_twice_is_once<R, S, T>(insn: Instruction<R>, first: spec_fn(R) -> S, second: spec_fn(S) -> T)
    ensures
        insn.renamed(first).renamed(second) == insn.renamed(|register: R| second(first(register))),
{
}

/// What an instruction maps to, where `f` is a function of its argument, is the
/// renaming by that function, and nothing else.
pub proof fn a_function_renames<R, S, F: Fn(R) -> S>(
    insn: Instruction<R>,
    f: F,
    name: spec_fn(R) -> S,
    image: Instruction<S>,
)
    requires
        insn.maps_to(f, image),
        forall|register: R, answer: S| #[trigger] call_ensures(f, (register,), answer) ==> answer == name(register),
    ensures
        image == insn.renamed(name),
{
    operands(insn);
    operands(image);
    assert(image.bare() == insn.bare());
    assert forall|k: int| 0 <= k < insn.read().len() implies #[trigger] image.read()[k] == name(insn.read()[k]) by {
        assert(call_ensures(f, (insn.read()[k],), image.read()[k]));
    }
}

impl<R: Copy> Instruction<R> {
    /// The register this instruction writes, if any.
    pub fn dst(&self) -> (register: Option<R>)
        ensures
            register == self.written(),
    {
        match *self {
            Instruction::Load { dst, .. } => Some(dst),
            Instruction::Copy { dst, .. } => Some(dst),
            Instruction::Unary { dst, .. } => Some(dst),
            Instruction::Binary { dst, .. } => Some(dst),
            Instruction::Compare { dst, .. } => Some(dst),
            Instruction::Combine { dst, .. } => Some(dst),
            Instruction::Gather { dst, .. } => Some(dst),
            Instruction::Check { .. } => None,
        }
    }

    /// The registers this instruction reads.
    pub fn sources(&self) -> (registers: Vec<R>)
        ensures
            registers@ == self.read(),
    {
        match *self {
            Instruction::Load { .. } => Vec::new(),
            Instruction::Copy { src, .. } => vec![src],
            Instruction::Unary { a, .. } => vec![a],
            Instruction::Binary { a, b, .. } => vec![a, b],
            Instruction::Compare { a, b, .. } => vec![a, b],
            Instruction::Combine { a, b, .. } => vec![a, b],
            Instruction::Check { reg } => vec![reg],
            Instruction::Gather { index, .. } => vec![index],
        }
    }

    /// The same instruction writing `dst` instead; a `Check` is unchanged.
    pub fn with_dst(self, dst: R) -> (instruction: Self)
        ensures
            instruction == self.writing(dst),
    {
        match self {
            Instruction::Load { input, .. } => Instruction::Load { dst, input },
            Instruction::Copy { src, .. } => Instruction::Copy { dst, src },
            Instruction::Unary { op, a, .. } => Instruction::Unary { dst, op, a },
            Instruction::Binary { op, a, b, .. } => Instruction::Binary { dst, op, a, b },
            Instruction::Compare { op, a, b, .. } => Instruction::Compare { dst, op, a, b },
            Instruction::Combine { how, a, b, last, .. } => Instruction::Combine { dst, how, a, b, last },
            Instruction::Check { reg } => Instruction::Check { reg },
            Instruction::Gather { index, subscript, .. } => Instruction::Gather { dst, index, subscript },
        }
    }

    /// The same instruction over another register type: `f` of each register,
    /// the one written first and then those read in their order, and everything
    /// else as it was.
    pub fn map<S, F: Fn(R) -> S>(self, f: F) -> (instruction: Instruction<S>)
        requires
            self.written() is Some ==> call_requires(f, (self.written()->0,)),
            forall|k: int| 0 <= k < self.read().len() ==> call_requires(f, (#[trigger] self.read()[k],)),
        ensures
            self.maps_to(f, instruction),
            forall|name: spec_fn(R) -> S|
                (forall|register: R, image: S| #[trigger]
                    call_ensures(f, (register,), image) ==> image == name(register)) ==> instruction
                    == #[trigger] self.renamed(name),
    {
        proof {
            operands(self);
        }
        let instruction = match self {
            Instruction::Load { dst, input } => Instruction::Load { dst: f(dst), input },
            Instruction::Copy { dst, src } => Instruction::Copy { dst: f(dst), src: f(src) },
            Instruction::Unary { dst, op, a } => Instruction::Unary { dst: f(dst), op, a: f(a) },
            Instruction::Binary { dst, op, a, b } => Instruction::Binary { dst: f(dst), op, a: f(a), b: f(b) },
            Instruction::Compare { dst, op, a, b } => Instruction::Compare { dst: f(dst), op, a: f(a), b: f(b) },
            Instruction::Combine { dst, how, a, b, last } => Instruction::Combine {
                dst: f(dst),
                how,
                a: f(a),
                b: f(b),
                last,
            },
            Instruction::Check { reg } => Instruction::Check { reg: f(reg) },
            Instruction::Gather { dst, index, subscript } => Instruction::Gather {
                dst: f(dst),
                index: f(index),
                subscript,
            },
        };
        proof {
            operands(instruction);
            assert(self.maps_to(f, instruction));
            assert forall|name: spec_fn(R) -> S|
                (forall|register: R, image: S| #[trigger]
                    call_ensures(f, (register,), image) ==> image == name(register)) implies instruction
                == #[trigger] self.renamed(name) by {
                a_function_renames(self, f, name, instruction);
            }
        }
        instruction
    }
}

/// The operands of an instruction, one by one.
pub proof fn operands<R>(insn: Instruction<R>)
    ensures
        match insn {
            Instruction::Load { .. } => true,
            Instruction::Copy { src, .. } => insn.read()[0] == src && insn.read().len() == 1,
            Instruction::Unary { a, .. } => insn.read()[0] == a && insn.read().len() == 1,
            Instruction::Binary { a, b, .. } => insn.read()[0] == a && insn.read()[1] == b && insn.read().len() == 2,
            Instruction::Compare { a, b, .. } => insn.read()[0] == a && insn.read()[1] == b && insn.read().len() == 2,
            Instruction::Combine { a, b, .. } => insn.read()[0] == a && insn.read()[1] == b && insn.read().len() == 2,
            Instruction::Check { reg } => insn.read()[0] == reg && insn.read().len() == 1,
            Instruction::Gather { index, .. } => insn.read()[0] == index && insn.read().len() == 1,
        },
{
}

/// What went wrong on one lane.
#[derive(Debug, Clone, Copy, PartialEq, Eq, Structural)]
pub struct LaneFault {
    pub insn: u32,
    pub kind: FaultKind,
}

#[derive(Debug, Clone, Copy, PartialEq, Eq, Structural)]
pub enum FaultKind {
    NonFinite(Real),
    NotAnInteger(Real),
    OutOfBounds { requested_1index: i64, available: usize },
}

/// The intermediate representation before register allocation: instructions
/// over virtual registers, with the constant pool they refer to.
#[derive(Debug, Clone)]
pub struct VirtualTape {
    pub consts: Constants,
    pub locals: u16,
    /// One past the highest temporary in use.
    pub temps: u32,
    pub insns: Vec<Instruction<VirtualRegister>>,
    pub spans: Vec<Span>,
    pub result: VirtualRegister,
    /// The partial derivatives a differentiated tape also computes, one per
    /// symbol; empty for a plain expression.
    pub partials: Vec<VirtualRegister>,
}

impl VirtualTape {
    /// An emitted program's tape: `temps` is the count the emitter minted.
    pub fn new(
        consts: Constants,
        locals: u16,
        temps: u32,
        insns: Vec<Instruction<VirtualRegister>>,
        spans: Vec<Span>,
        result: VirtualRegister,
    ) -> (tape: Self)
        ensures
            tape.consts == consts,
            tape.locals == locals,
            tape.temps == temps,
            tape.insns == insns,
            tape.spans == spans,
            tape.result == result,
            tape.partials@ == Seq::<VirtualRegister>::empty(),
    {
        Self { consts, locals, temps, insns, spans, result, partials: Vec::new() }
    }

    /// A temporary no instruction has written yet.
    pub fn fresh_temp(&mut self) -> (register: VirtualRegister)
        requires
            old(self).temps < u32::MAX,
        ensures
            register == VirtualRegister::Temp(old(self).temps),
            final(self).temps == old(self).temps + 1,
            final(self).consts == old(self).consts,
            final(self).locals == old(self).locals,
            final(self).insns == old(self).insns,
            final(self).spans == old(self).spans,
            final(self).result == old(self).result,
            final(self).partials == old(self).partials,
    {
        let register = VirtualRegister::Temp(self.temps);
        self.temps = self.temps + 1;
        register
    }
}

} // verus!
