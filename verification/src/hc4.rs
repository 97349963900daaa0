//! What one variable may be if a constraint is to hold, with every other
//! variable at a given interval.
//!
//! A constraint is lowered to a straight-line tape in single assignment, and
//! the tape is run over intervals twice. **Forward**, in order: what each value
//! *can* be. **Backward**, in reverse, from the requirement that the result, the
//! residual, be at most zero: each instruction's requirement is pushed onto its
//! operands through the operator's inverse, intersecting. The requirement that
//! reaches the wanted variable's load is the answer, a superset of the values
//! that satisfy the constraint.

use vstd::prelude::*;
use crate::ast::{BinaryOp, CompareOp, GlobalId, UnaryOp, POWER_LIMIT};
use crate::emission::what_is_lowered_fits;
use crate::frontend::Ast;
use crate::interval::{
    binary, common_has_nothing_else, common_has_what_both_have, enclosures_of, encloses, encloses_binary, encloses_power, encloses_unary,
    invert_binary, invert_power, invert_unary, power, regular, unary, undoes_binary, undoes_power, undoes_unary,
    Enclosures, Interval, Intervals,
};
use crate::irgen::{emit, fits_a_tape, lowered};
use crate::number::{index_of, negative_infinity, to_index, zero, Real};
use crate::lowering::{a_tape_computes_its_program, primed, unassigned};
use crate::machine::Arithmetic;
use crate::renaming::{
    all_fit, below, fits, latest, numbered, renaming, renaming_assigns_once,
    renaming_computes_the_same, renaming_stays_in_range, writes,
};
use crate::semantics::{evaluate_block, held, run, step, Run, Semantics};
use crate::tape::{operands, Accumulate, Instruction, VirtualRegister};

verus! {

/// A constraint's tape over intervals, compiled once.
#[derive(Debug, Clone)]
pub struct IntervalTape {
    /// The tape over slots, in single assignment.
    pub steps: Vec<Instruction<u32>>,
    /// Slot `i` holds constant `i`.
    pub consts: Vec<Real>,
    /// The residual's slot.
    pub result: u32,
    pub slots: usize,
    /// How many symbols the constraint has.
    pub symbols: usize,
    /// Per slot and symbol, whether the slot's value depends on the symbol.
    pub depends: Vec<Vec<bool>>,
}

// ---- compiling ----

/// The slot of a register: constants, then locals, then temporaries.
pub open spec fn slot(pool: int, locals: int, register: VirtualRegister) -> u32 {
    match register {
        VirtualRegister::Const(i) => i as u32,
        VirtualRegister::Local(j) => (pool + j) as u32,
        VirtualRegister::Temp(k) => (pool + locals + k) as u32,
    }
}

/// An instruction over slots.
pub open spec fn slotted(pool: int, locals: int, insn: Instruction<VirtualRegister>) -> Instruction<u32> {
    insn.renamed(|register: VirtualRegister| slot(pool, locals, register))
}

/// The symbols in order: each its own row.
pub open spec fn own_rows(symbols: nat) -> Seq<u32> {
    Seq::new(symbols, |i: int| i as u32)
}

/// The symbols an instruction's value depends on, given those of every slot.
pub open spec fn depending(insn: Instruction<u32>, traced: Seq<Set<int>>, symbols: int) -> Set<int> {
    match insn {
        Instruction::Load { input, .. } => if input < symbols {
            set![input as int]
        } else {
            Set::empty()
        },
        _ => Set::new(
            |g: int|
                exists|k: int| 0 <= k < insn.read().len() && traced[#[trigger] insn.read()[k] as int].contains(g),
        ),
    }
}

/// The symbols each slot depends on after the first `upto` instructions.
pub open spec fn traced(steps: Seq<Instruction<u32>>, slots: nat, symbols: int, upto: int) -> Seq<Set<int>>
    decreases upto,
{
    if upto <= 0 {
        Seq::new(slots, |s: int| Set::empty())
    } else {
        let before = traced(steps, slots, symbols, upto - 1);
        match steps[upto - 1].written() {
            Some(dst) => before.update(
                dst as int,
                before[dst as int].union(depending(steps[upto - 1], before, symbols)),
            ),
            None => before,
        }
    }
}

proof fn tracing_keeps_the_slots(steps: Seq<Instruction<u32>>, slots: nat, symbols: int, upto: int)
    requires
        upto <= steps.len(),
        forall|i: int| 0 <= i < steps.len() ==> on_slots(#[trigger] steps[i], slots as int),
    ensures
        traced(steps, slots, symbols, upto).len() == slots,
    decreases upto,
{
    if upto > 0 {
        tracing_keeps_the_slots(steps, slots, symbols, upto - 1);
        assert(on_slots(steps[upto - 1], slots as int));
    }
}

/// Whether an instruction reads and writes only slots there are.
pub open spec fn on_slots(insn: Instruction<u32>, slots: int) -> bool {
    &&& insn.written() is Some ==> insn.written()->0 < slots
    &&& forall|k: int| 0 <= k < insn.read().len() ==> #[trigger] insn.read()[k] < slots
}

/// Whether every value has a slot of its own: no constant written, no slot
/// written twice, and none read before it is written.
pub open spec fn assigns_once(steps: Seq<Instruction<u32>>, pool: int) -> bool {
    &&& forall|i: int|
        0 <= i < steps.len() ==> ((#[trigger] steps[i]).written() is Some ==> steps[i].written()->0 >= pool)
    &&& forall|i: int, j: int|
        0 <= i < j < steps.len() && (#[trigger] steps[i]).written() is Some ==> steps[i].written()
            != (#[trigger] steps[j]).written()
    &&& forall|i: int, j: int, k: int|
        0 <= i <= j < steps.len() && 0 <= k < steps[i].read().len() ==> (#[trigger] steps[j]).written() != Some(
            #[trigger] steps[i].read()[k],
        )
}

impl IntervalTape {
    pub open spec fn well_formed(&self) -> bool {
        &&& self.consts@.len() <= self.slots
        &&& self.result < self.slots
        &&& forall|i: int| 0 <= i < self.steps@.len() ==> on_slots(#[trigger] self.steps@[i], self.slots as int)
        &&& assigns_once(self.steps@, self.consts@.len() as int)
        &&& self.symbols <= u32::MAX
        &&& self.depends@.len() == self.slots
        &&& forall|s: int| 0 <= s < self.slots ==> (#[trigger] self.depends@[s])@.len() == self.symbols
        &&& forall|s: int, g: int|
            0 <= s < self.slots && 0 <= g < self.symbols ==> (#[trigger] self.depends@[s]@[g] <==> self.reaching(s, g))
    }

    /// Whether a slot's value depends on a symbol.
    pub open spec fn reaching(&self, s: int, g: int) -> bool {
        traced(self.steps@, self.slots as nat, self.symbols as int, self.steps@.len() as int)[s].contains(g)
    }
}

/// Whether a tape is what a constraint compiles to: lowered with every symbol
/// its own row, put in single assignment, and over slots.
pub open spec fn is_tape_of(tape: IntervalTape, constraint: Ast) -> bool {
    let (state, result) = lowered(constraint.program, own_rows(constraint.symbols@.len()));
    let done = renaming(state.insns, state.temps);
    let pool = state.pool.len() as int;
    let locals = constraint.program.frame_size as int;
    &&& tape.well_formed()
    &&& tape.steps@ == done.insns.map_values(|insn: Instruction<VirtualRegister>| slotted(pool, locals, insn))
    &&& tape.consts@ == state.pool
    &&& tape.result == slot(pool, locals, latest(done.version, result))
    &&& tape.slots == pool + locals + done.temps
    &&& tape.symbols == constraint.symbols@.len()
}

/// Whether a constraint can be compiled to slots: lowered, and with fewer than
/// `2^32` of everything together.
pub open spec fn compilable(constraint: Ast) -> bool {
    let state = lowered(constraint.program, own_rows(constraint.symbols@.len())).0;
    &&& constraint.symbols@.len() <= u32::MAX
    &&& constraint.program.frame_size < 65536
    &&& constraint.program.body.lowerable(constraint.symbols@.len() as int, constraint.program.frame_size as int)
    &&& fits_a_tape(state)
    &&& state.pool.len() + constraint.program.frame_size + state.temps + writes(state.insns) <= u32::MAX
}

proof fn slots_are_distinct(pool: int, locals: int, temps: int, a: VirtualRegister, b: VirtualRegister)
    requires
        fits(a, pool, locals, temps),
        fits(b, pool, locals, temps),
        0 <= pool,
        0 <= locals,
        0 <= temps,
        pool + locals + temps <= u32::MAX,
    ensures
        slot(pool, locals, a) == slot(pool, locals, b) <==> a == b,
        slot(pool, locals, a) < pool + locals + temps,
{
}

proof fn slotting(pool: int, locals: int, insn: Instruction<VirtualRegister>)
    ensures
        match insn.written() {
            Some(dst) => slotted(pool, locals, insn).written() == Some(slot(pool, locals, dst)),
            None => slotted(pool, locals, insn).written() is None,
        },
        slotted(pool, locals, insn).read().len() == insn.read().len(),
        forall|k: int|
            0 <= k < insn.read().len() ==> #[trigger] slotted(pool, locals, insn).read()[k] == slot(
                pool,
                locals,
                insn.read()[k],
            ),
{
    operands(insn);
    operands(slotted(pool, locals, insn));
}

proof fn slotting_assigns_once(insns: Seq<Instruction<VirtualRegister>>, temps: int, pool: int, locals: int)
    requires
        0 <= temps,
        0 <= pool,
        0 <= locals,
        pool + locals + temps + writes(insns) <= u32::MAX,
        forall|i: int| 0 <= i < insns.len() ==> all_fit(#[trigger] insns[i], pool, locals, temps),
    ensures
        ({
            let done = renaming(insns, temps);
            let steps = done.insns.map_values(|insn: Instruction<VirtualRegister>| slotted(pool, locals, insn));
            &&& assigns_once(steps, pool)
            &&& forall|i: int| 0 <= i < steps.len() ==> on_slots(#[trigger] steps[i], pool + locals + done.temps)
        }),
{
    let done = renaming(insns, temps);
    let steps = done.insns.map_values(|insn: Instruction<VirtualRegister>| slotted(pool, locals, insn));
    renaming_stays_in_range(insns, pool, locals, temps);
    assert forall|i: int| 0 <= i < insns.len() implies numbered(#[trigger] insns[i], temps) by {
        assert(all_fit(insns[i], pool, locals, temps));
        assert forall|k: int| 0 <= k < insns[i].read().len() implies below(#[trigger] insns[i].read()[k], temps) by {
            assert(fits(insns[i].read()[k], pool, locals, temps));
        }
    }
    renaming_assigns_once(insns, temps);
    assert forall|i: int| 0 <= i < steps.len() implies on_slots(#[trigger] steps[i], pool + locals + done.temps) by {
        let insn = done.insns[i];
        slotting(pool, locals, insn);
        assert(all_fit(insn, pool, locals, done.temps));
        if insn.written() is Some {
            slots_are_distinct(pool, locals, done.temps, insn.written()->0, insn.written()->0);
        }
        assert forall|k: int| 0 <= k < steps[i].read().len() implies #[trigger] steps[i].read()[k] < pool + locals
            + done.temps by {
            assert(fits(insn.read()[k], pool, locals, done.temps));
            slots_are_distinct(pool, locals, done.temps, insn.read()[k], insn.read()[k]);
        }
    }
    assert forall|i: int| 0 <= i < steps.len() implies ((#[trigger] steps[i]).written() is Some ==> steps[i].written()->0
        >= pool) by {
        slotting(pool, locals, done.insns[i]);
        assert(all_fit(done.insns[i], pool, locals, done.temps));
    }
    assert forall|i: int, j: int| 0 <= i < j < steps.len() && (#[trigger] steps[i]).written() is Some implies steps[i].written()
        != (#[trigger] steps[j]).written() by {
        slotting(pool, locals, done.insns[i]);
        slotting(pool, locals, done.insns[j]);
        assert(all_fit(done.insns[i], pool, locals, done.temps));
        assert(all_fit(done.insns[j], pool, locals, done.temps));
        assert(done.insns[i].written() != done.insns[j].written());
        if done.insns[j].written() is Some {
            slots_are_distinct(pool, locals, done.temps, done.insns[i].written()->0, done.insns[j].written()->0);
        }
    }
    assert forall|i: int, j: int, k: int|
        0 <= i <= j < steps.len() && 0 <= k < steps[i].read().len() implies (#[trigger] steps[j]).written() != Some(
        #[trigger] steps[i].read()[k],
    ) by {
        slotting(pool, locals, done.insns[i]);
        slotting(pool, locals, done.insns[j]);
        assert(all_fit(done.insns[i], pool, locals, done.temps));
        assert(all_fit(done.insns[j], pool, locals, done.temps));
        assert(done.insns[j].written() != Some(done.insns[i].read()[k]));
        assert(fits(done.insns[i].read()[k], pool, locals, done.temps));
        if done.insns[j].written() is Some {
            slots_are_distinct(pool, locals, done.temps, done.insns[j].written()->0, done.insns[i].read()[k]);
        }
    }
}

fn rows_of_their_own(count: usize) -> (rows: Vec<u32>)
    requires
        count <= u32::MAX,
    ensures
        rows@ == own_rows(count as nat),
{
    let mut rows: Vec<u32> = Vec::with_capacity(count);
    for i in 0..count
        invariant
            count <= u32::MAX,
            rows@ =~= own_rows(i as nat),
    {
        rows.push(i as u32);
    }
    rows
}

/// Marks, per slot, the symbols of a set.
spec fn marks_sets(rows: Seq<Vec<bool>>, sets: Seq<Set<int>>, symbols: int) -> bool {
    &&& rows.len() == sets.len()
    &&& forall|s: int| 0 <= s < rows.len() ==> marks_set((#[trigger] rows[s])@, sets[s], symbols)
}

spec fn marks_set(row: Seq<bool>, set: Set<int>, symbols: int) -> bool {
    row.len() == symbols && forall|g: int| 0 <= g < symbols ==> (#[trigger] row[g] <==> set.contains(g))
}

fn add_marks(row: &mut Vec<bool>, more: &Vec<bool>)
    requires
        old(row)@.len() == more@.len(),
    ensures
        final(row)@.len() == old(row)@.len(),
        forall|g: int| 0 <= g < more@.len() ==> (#[trigger] final(row)@[g] <==> old(row)@[g] || more@[g]),
{
    let ghost before = row@;
    let count: usize = more.len();
    for g in 0..count
        invariant
            count == more@.len(),
            row@.len() == before.len() == more@.len(),
            forall|j: int| 0 <= j < g ==> (#[trigger] row@[j] <==> before[j] || more@[j]),
            forall|j: int| g <= j < count ==> #[trigger] row@[j] == before[j],
    {
        if more[g] {
            row.set(g, true);
        }
    }
}

/// The marks of the slot an instruction writes, once it has run.
fn marks_after(
    insn: Instruction<u32>,
    dst: u32,
    depends: &Vec<Vec<bool>>,
    symbols: usize,
    sets: Ghost<Seq<Set<int>>>,
) -> (
    row: Vec<bool>)
    requires
        marks_sets(depends@, sets@, symbols as int),
        on_slots(insn, depends@.len() as int),
        insn.written() == Some(dst),
    ensures
        marks_set(row@, sets@[dst as int].union(depending(insn, sets@, symbols as int)), symbols as int),
{
    let mut row: Vec<bool> = vec![false; symbols];
    assert(marks_set(depends@[dst as int]@, sets@[dst as int], symbols as int));
    add_marks(&mut row, &depends[dst as usize]);
    match insn {
        Instruction::Load { input, .. } => {
            if (input as usize) < symbols {
                row.set(input as usize, true);
            }
            proof {
                let set = sets@[dst as int].union(depending(insn, sets@, symbols as int));
                assert forall|g: int| 0 <= g < symbols implies (#[trigger] row@[g] <==> set.contains(g)) by {
                    assert(depends@[dst as int]@[g] <==> sets@[dst as int].contains(g));
                }
            }
            return row;
        },
        _ => {},
    }
    let sources = insn.sources();
    let ghost first = row@;
    for k in 0..sources.len()
        invariant
            sources@ == insn.read(),
            marks_sets(depends@, sets@, symbols as int),
            on_slots(insn, depends@.len() as int),
            row@.len() == symbols == first.len(),
            forall|g: int|
                0 <= g < symbols ==> (#[trigger] row@[g] <==> first[g] || exists|j: int|
                    0 <= j < k && sets@[#[trigger] insn.read()[j] as int].contains(g)),
    {
        let ghost before = row@;
        let source: u32 = sources[k];
        assert(insn.read()[k as int] < depends@.len());
        assert(marks_set(depends@[source as int]@, sets@[source as int], symbols as int));
        add_marks(&mut row, &depends[source as usize]);
        proof {
            assert forall|g: int| 0 <= g < symbols implies (#[trigger] row@[g] <==> first[g] || exists|j: int|
                0 <= j < k + 1 && sets@[#[trigger] insn.read()[j] as int].contains(g)) by {
                assert(before[g] <==> first[g] || exists|j: int|
                    0 <= j < k && sets@[#[trigger] insn.read()[j] as int].contains(g));
                assert(depends@[source as int]@[g] <==> sets@[source as int].contains(g));
                if depends@[source as int]@[g] {
                    assert(sets@[insn.read()[k as int] as int].contains(g));
                }
            }
        }
    }
    proof {
        let set = sets@[dst as int].union(depending(insn, sets@, symbols as int));
        assert forall|g: int| 0 <= g < symbols implies (#[trigger] row@[g] <==> set.contains(g)) by {
            assert(first[g] <==> depends@[dst as int]@[g]);
            assert(depends@[dst as int]@[g] <==> sets@[dst as int].contains(g));
        }
    }
    row
}

fn trace(steps: &Vec<Instruction<u32>>, slots: usize, symbols: usize) -> (depends: Vec<Vec<bool>>)
    requires
        forall|i: int| 0 <= i < steps@.len() ==> on_slots(#[trigger] steps@[i], slots as int),
    ensures
        marks_sets(
            depends@,
            traced(steps@, slots as nat, symbols as int, steps@.len() as int),
            symbols as int,
        ),
{
    let mut depends: Vec<Vec<bool>> = Vec::with_capacity(slots);
    for s in 0..slots
        invariant
            depends@.len() == s,
            forall|t: int| 0 <= t < s ==> marks_set((#[trigger] depends@[t])@, Set::empty(), symbols as int),
    {
        let row: Vec<bool> = vec![false; symbols];
        depends.push(row);
    }
    let count: usize = steps.len();
    for i in 0..count
        invariant
            count == steps@.len(),
            forall|i: int| 0 <= i < steps@.len() ==> on_slots(#[trigger] steps@[i], slots as int),
            depends@.len() == slots,
            marks_sets(depends@, traced(steps@, slots as nat, symbols as int, i as int), symbols as int),
    {
        let ghost sets = traced(steps@, slots as nat, symbols as int, i as int);
        let insn = steps[i];
        assert(on_slots(steps@[i as int], slots as int));
        match insn.dst() {
            Some(dst) => {
                let row = marks_after(insn, dst, &depends, symbols, Ghost(sets));
                depends.set(dst as usize, row);
            },
            None => {},
        }
    }
    depends
}

/// Compiles a constraint to its interval tape. Its loads read the constraint's
/// own symbols by index.
pub fn compile(constraint: &Ast) -> (tape: IntervalTape)
    requires
        compilable(*constraint),
    ensures
        is_tape_of(tape, *constraint),
{
    let symbols: usize = constraint.symbols.len();
    let rows = rows_of_their_own(symbols);
    let emitted = emit(&constraint.program, &rows);
    let ghost program = constraint.program;
    let ghost state = lowered(program, rows@).0;
    let tape = emitted.single_assignment();
    let ghost done = renaming(state.insns, state.temps);
    let pool: usize = tape.consts.values.len();
    let locals: usize = tape.locals as usize;
    proof {
        what_is_lowered_fits(program, rows@);
        renaming_stays_in_range(state.insns, pool as int, locals as int, state.temps);
        slotting_assigns_once(state.insns, state.temps, pool as int, locals as int);
    }
    let slots: usize = pool + locals + tape.temps as usize;
    let slot_of = |register: VirtualRegister| -> (at: u32)
        requires
            fits(register, pool as int, locals as int, tape.temps as int),
            pool + locals + tape.temps <= u32::MAX,
        ensures
            at == slot(pool as int, locals as int, register),
        {
            match register {
                VirtualRegister::Const(i) => i as u32,
                VirtualRegister::Local(j) => pool as u32 + j as u32,
                VirtualRegister::Temp(k) => pool as u32 + locals as u32 + k,
            }
        };
    let ghost name = |register: VirtualRegister| slot(pool as int, locals as int, register);
    let mut steps: Vec<Instruction<u32>> = Vec::with_capacity(tape.insns.len());
    let count: usize = tape.insns.len();
    for i in 0..count
        invariant
            count == tape.insns@.len(),
            tape.insns@ == done.insns,
            tape.temps == done.temps,
            pool + locals + tape.temps <= u32::MAX,
            forall|i: int|
                0 <= i < done.insns.len() ==> all_fit(#[trigger] done.insns[i], pool as int, locals as int, done.temps),
            forall|register: VirtualRegister|
                fits(register, pool as int, locals as int, tape.temps as int) ==> #[trigger] call_requires(
                    slot_of,
                    (register,),
                ),
            forall|register: VirtualRegister, at: u32| #[trigger]
                call_ensures(slot_of, (register,), at) ==> at == slot(pool as int, locals as int, register),
            name == (|register: VirtualRegister| slot(pool as int, locals as int, register)),
            steps@ =~= done.insns.take(i as int).map_values(
                |insn: Instruction<VirtualRegister>| slotted(pool as int, locals as int, insn),
            ),
    {
        let insn = tape.insns[i];
        proof {
            assert(all_fit(done.insns[i as int], pool as int, locals as int, done.temps));
        }
        let step = insn.map(slot_of);
        proof {
            assert(step == insn.renamed(name));
        }
        steps.push(step);
    }
    assert(done.insns.take(count as int) =~= done.insns);
    let result: u32 = slot_of(tape.result);
    proof {
        slots_are_distinct(pool as int, locals as int, done.temps, tape.result, tape.result);
    }
    let depends = trace(&steps, slots, symbols);
    let consts = tape.consts.values;
    let compiled = IntervalTape { steps, consts, result, slots, symbols, depends };
    proof {
        let sets = traced(compiled.steps@, slots as nat, symbols as int, compiled.steps@.len() as int);
        tracing_keeps_the_slots(compiled.steps@, slots as nat, symbols as int, compiled.steps@.len() as int);
        assert forall|s: int| 0 <= s < slots implies (#[trigger] compiled.depends@[s])@.len() == symbols by {
            assert(marks_set(compiled.depends@[s]@, sets[s], symbols as int));
        }
        assert forall|s: int, g: int| 0 <= s < slots && 0 <= g < symbols implies (#[trigger] compiled.depends@[s]@[g]
            <==> compiled.reaching(s, g)) by {
            assert(marks_set(compiled.depends@[s]@, sets[s], symbols as int));
        }
    }
    compiled
}

// ---- the two sweeps ----

/// Which operand a comparison's residual subtracts from which: `a < b` is
/// `a - b`, `a > b` is `b - a`.
pub open spec fn residual_order(op: CompareOp, a: u32, b: u32) -> (u32, u32) {
    match op {
        CompareOp::Lt | CompareOp::Lte => (a, b),
        CompareOp::Gt | CompareOp::Gte => (b, a),
    }
}

fn residual(op: CompareOp, a: u32, b: u32) -> (order: (u32, u32))
    ensures
        order == residual_order(op, a, b),
{
    match op {
        CompareOp::Lt | CompareOp::Lte => (a, b),
        CompareOp::Gt | CompareOp::Gte => (b, a),
    }
}

/// The operator a fold step applies.
#[verifier::allow_in_spec]
pub fn how_op(how: Accumulate) -> BinaryOp
    returns
        (match how {
            Accumulate::Sum => BinaryOp::Add,
            Accumulate::Prod => BinaryOp::Mul,
            Accumulate::Worst => BinaryOp::Max,
        }),
{
    match how {
        Accumulate::Sum => BinaryOp::Add,
        Accumulate::Prod => BinaryOp::Mul,
        Accumulate::Worst => BinaryOp::Max,
    }
}

/// The whole exponent of a power whose exponent is a constant slot, within the
/// limit.
pub open spec fn whole_power(op: BinaryOp, consts: Seq<Real>, b: u32) -> Option<i64> {
    if op == BinaryOp::Pow && b < consts.len() {
        match index_of(consts[b as int]) {
            Some(n) => if -POWER_LIMIT <= n <= POWER_LIMIT {
                Some(n)
            } else {
                None
            },
            None => None,
        }
    } else {
        None
    }
}

/// What an instruction's value can be, given what every slot can.
pub open spec fn image(
    insn: Instruction<u32>,
    enclosures: Enclosures,
    consts: Seq<Real>,
    globals: Seq<Interval>,
    frame: Seq<Interval>,
) -> Interval {
    match insn {
        Instruction::Load { input, .. } => if input < globals.len() {
            globals[input as int]
        } else {
            Interval::entire()
        },
        Instruction::Copy { src, .. } => frame[src as int],
        Instruction::Unary { op, a, .. } => (enclosures.unary)(op, frame[a as int]),
        Instruction::Binary { op, a, b, .. } => match whole_power(op, consts, b) {
            Some(n) => (enclosures.power)(frame[a as int], n),
            None => (enclosures.binary)(op, frame[a as int], frame[b as int]),
        },
        Instruction::Compare { op, a, b, .. } => {
            let (minuend, subtrahend) = residual_order(op, a, b);
            (enclosures.binary)(BinaryOp::Sub, frame[minuend as int], frame[subtrahend as int])
        },
        Instruction::Combine { how, a, b, .. } => (enclosures.binary)(how_op(how), frame[a as int], frame[b as int]),
        Instruction::Gather { .. } | Instruction::Check { .. } => Interval::entire(),
    }
}

/// What every slot can be before the first instruction.
pub open spec fn unswept(consts: Seq<Real>, slots: nat) -> Seq<Interval> {
    Seq::new(
        slots,
        |s: int|
            if s < consts.len() {
                Interval::point(consts[s])
            } else {
                Interval::entire()
            },
    )
}

impl IntervalTape {
    /// What every slot can be after the first `upto` instructions.
    pub open spec fn swept(&self, enclosures: Enclosures, globals: Seq<Interval>, upto: int) -> Seq<Interval>
        decreases upto,
    {
        if upto <= 0 {
            unswept(self.consts@, self.slots as nat)
        } else {
            let before = self.swept(enclosures, globals, upto - 1);
            match self.steps@[upto - 1].written() {
                Some(dst) => before.update(
                    dst as int,
                    image(self.steps@[upto - 1], enclosures, self.consts@, globals, before),
                ),
                None => before,
            }
        }
    }

    /// What every value can be.
    pub open spec fn possible(&self, enclosures: Enclosures, globals: Seq<Interval>) -> Seq<Interval> {
        self.swept(enclosures, globals, self.steps@.len() as int)
    }

    proof fn sweeping_keeps_the_slots(&self, enclosures: Enclosures, globals: Seq<Interval>, upto: int)
        requires
            self.well_formed(),
            upto <= self.steps@.len(),
        ensures
            self.swept(enclosures, globals, upto).len() == self.slots,
        decreases upto,
    {
        if upto > 0 {
            self.sweeping_keeps_the_slots(enclosures, globals, upto - 1);
            assert(on_slots(self.steps@[upto - 1], self.slots as int));
        }
    }

    fn whole_exponent(&self, op: BinaryOp, b: u32) -> (exponent: Option<i64>)
        ensures
            exponent == whole_power(op, self.consts@, b),
    {
        match op {
            BinaryOp::Pow => {},
            _ => {
                return None;
            },
        }
        if b as usize >= self.consts.len() {
            return None;
        }
        match to_index(self.consts[b as usize]) {
            Some(n) => {
                if -POWER_LIMIT <= n && n <= POWER_LIMIT {
                    Some(n)
                } else {
                    None
                }
            },
            None => None,
        }
    }

    /// The forward sweep: what every value can be, over the constraint's
    /// symbols in order. A computed subscript reads a coordinate chosen by the
    /// point, so there is no static answer for it.
    pub fn forward<I: Intervals>(&self, intervals: &I, globals: &Vec<Interval>) -> (frame: Vec<Interval>)
        requires
            self.well_formed(),
        ensures
            frame@.len() == self.slots,
            regular(*intervals) ==> frame@ == self.possible(enclosures_of(*intervals), globals@),
    {
        let mut frame: Vec<Interval> = Vec::with_capacity(self.slots);
        for s in 0..self.slots
            invariant
                frame@ =~= unswept(self.consts@, self.slots as nat).take(s as int),
        {
            if s < self.consts.len() {
                frame.push(Interval::point(self.consts[s]));
            } else {
                frame.push(Interval::entire());
            }
        }
        proof {
            assert(frame@ =~= unswept(self.consts@, self.slots as nat));
        }
        let count: usize = self.steps.len();
        for i in 0..count
            invariant
                self.well_formed(),
                count == self.steps@.len(),
                frame@.len() == self.slots,
                regular(*intervals) ==> frame@ == self.swept(enclosures_of(*intervals), globals@, i as int),
        {
            let insn = self.steps[i];
            proof {
                assert(on_slots(self.steps@[i as int], self.slots as int));
                operands(insn);
            }
            match insn {
                Instruction::Load { dst, input } => {
                    let value = if (input as usize) < globals.len() {
                        globals[input as usize]
                    } else {
                        Interval::entire()
                    };
                    frame.set(dst as usize, value);
                },
                Instruction::Copy { dst, src } => {
                    let value = frame[src as usize];
                    frame.set(dst as usize, value);
                },
                Instruction::Unary { dst, op, a } => {
                    let value = unary(intervals, op, frame[a as usize]);
                    frame.set(dst as usize, value);
                },
                Instruction::Binary { dst, op, a, b } => {
                    let value = match self.whole_exponent(op, b) {
                        Some(n) => power(intervals, frame[a as usize], n),
                        None => binary(intervals, op, frame[a as usize], frame[b as usize]),
                    };
                    frame.set(dst as usize, value);
                },
                Instruction::Compare { dst, op, a, b } => {
                    let (minuend, subtrahend) = residual(op, a, b);
                    let value = binary(intervals, BinaryOp::Sub, frame[minuend as usize], frame[subtrahend as usize]);
                    frame.set(dst as usize, value);
                },
                Instruction::Combine { dst, how, a, b, .. } => {
                    let value = binary(intervals, how_op(how), frame[a as usize], frame[b as usize]);
                    frame.set(dst as usize, value);
                },
                Instruction::Gather { dst, .. } => {
                    frame.set(dst as usize, Interval::entire());
                },
                Instruction::Check { .. } => {},
            }
        }
        frame
    }
}

/// How far a backward sweep has got.
pub ghost struct Narrowing {
    /// What every slot must be.
    pub need: Seq<Interval>,
    /// What the wanted symbol must be.
    pub found: Interval,
    /// Whether some value cannot be what it must.
    pub dead: bool,
}

/// A slot's requirement tightened.
pub open spec fn tightened(need: Seq<Interval>, slot: u32, more: Interval) -> Seq<Interval> {
    need.update(slot as int, need[slot as int].common(more))
}

/// Two slots' requirements tightened.
pub open spec fn both_tightened(need: Seq<Interval>, a: u32, b: u32, more: (Interval, Interval)) -> Seq<Interval> {
    tightened(tightened(need, a, more.0), b, more.1)
}

/// The operands' requirements once the value must be in `target`.
pub open spec fn pushed(
    insn: Instruction<u32>,
    target: Interval,
    enclosures: Enclosures,
    consts: Seq<Real>,
    can: Seq<Interval>,
    need: Seq<Interval>,
) -> Seq<Interval> {
    match insn {
        Instruction::Copy { src, .. } => tightened(need, src, target),
        Instruction::Unary { op, a, .. } => tightened(need, a, (enclosures.invert_unary)(op, target, can[a as int])),
        Instruction::Binary { op, a, b, .. } => match whole_power(op, consts, b) {
            Some(n) => tightened(need, a, (enclosures.invert_power)(target, n, can[a as int])),
            None => both_tightened(
                need,
                a,
                b,
                (enclosures.invert_binary)(op, target, can[a as int], can[b as int]),
            ),
        },
        Instruction::Compare { op, a, b, .. } => {
            let (minuend, subtrahend) = residual_order(op, a, b);
            both_tightened(
                need,
                minuend,
                subtrahend,
                (enclosures.invert_binary)(
                    BinaryOp::Sub,
                    target,
                    can[minuend as int],
                    can[subtrahend as int],
                ),
            )
        },
        Instruction::Combine { how, a, b, .. } => match how {
            Accumulate::Sum | Accumulate::Prod => both_tightened(
                need,
                a,
                b,
                (enclosures.invert_binary)(how_op(how), target, can[a as int], can[b as int]),
            ),
            // The worst residual is in the target only if every residual is at
            // most its top; only one of them need reach the bottom.
            Accumulate::Worst => {
                let cap = Interval::new(negative_infinity(), target.hi);
                both_tightened(need, a, b, (cap, cap))
            },
        },
        _ => need,
    }
}

impl IntervalTape {
    /// What is required before anything is pushed back: the residual at most
    /// zero.
    pub open spec fn required(&self) -> Narrowing {
        Narrowing {
            need: Seq::new(self.slots as nat, |s: int| Interval::entire()).update(
                self.result as int,
                Interval::new(negative_infinity(), zero()),
            ),
            found: Interval::entire(),
            dead: false,
        }
    }

    /// One instruction, backward.
    pub open spec fn pushed_back(
        &self,
        insn: Instruction<u32>,
        enclosures: Enclosures,
        can: Seq<Interval>,
        wanted: u32,
        after: Narrowing,
    ) -> Narrowing {
        match insn.written() {
            None => after,
            Some(dst) => {
                let target = after.need[dst as int].common(can[dst as int]);
                if after.dead || !self.reaching(dst as int, wanted as int) || after.need[dst as int]
                    == Interval::entire() {
                    after
                } else if target.has_nothing() {
                    Narrowing { dead: true, ..after }
                } else {
                    Narrowing {
                        need: pushed(insn, target, enclosures, self.consts@, can, after.need),
                        found: if insn matches Instruction::Load { input, .. } && input == wanted {
                            after.found.common(target)
                        } else {
                            after.found
                        },
                        dead: false,
                    }
                }
            },
        }
    }

    /// The instructions from `from` on, backward.
    pub open spec fn swept_back(
        &self,
        enclosures: Enclosures,
        can: Seq<Interval>,
        wanted: u32,
        from: int,
    ) -> Narrowing
        decreases self.steps@.len() - from,
    {
        if from < 0 || from >= self.steps@.len() {
            self.required()
        } else {
            self.pushed_back(
                self.steps@[from],
                enclosures,
                can,
                wanted,
                self.swept_back(enclosures, can, wanted, from + 1),
            )
        }
    }

    /// What a symbol may be if the constraint is to hold.
    pub open spec fn narrowed(&self, enclosures: Enclosures, globals: Seq<Interval>, wanted: u32) -> Interval {
        let last = self.swept_back(enclosures, self.possible(enclosures, globals), wanted, 0);
        if last.dead {
            Interval::empty()
        } else {
            last.found
        }
    }

    proof fn pushing_keeps_the_slots(
        &self,
        enclosures: Enclosures,
        can: Seq<Interval>,
        wanted: u32,
        from: int,
    )
        requires
            self.well_formed(),
            0 <= from <= self.steps@.len(),
        ensures
            self.swept_back(enclosures, can, wanted, from).need.len() == self.slots,
        decreases self.steps@.len() - from,
    {
        if from < self.steps@.len() {
            self.pushing_keeps_the_slots(enclosures, can, wanted, from + 1);
            assert(on_slots(self.steps@[from], self.slots as int));
            operands(self.steps@[from]);
        }
    }

    proof fn death_is_final(&self, enclosures: Enclosures, can: Seq<Interval>, wanted: u32, from: int)
        requires
            0 <= from <= self.steps@.len(),
            self.swept_back(enclosures, can, wanted, from).dead,
        ensures
            self.swept_back(enclosures, can, wanted, 0).dead,
        decreases from,
    {
        if from > 0 {
            self.death_is_final(enclosures, can, wanted, from - 1);
        }
    }

    /// What `wanted` may be if the constraint is to hold, with every other
    /// symbol in the interval `globals` gives it.
    ///
    /// [`Interval::entire`] where nothing was concluded, and
    /// [`Interval::empty`] where the constraint holds nowhere on these globals.
    /// Where `wanted` is read more than once each read contributes a necessary
    /// condition.
    pub fn narrow<I: Intervals>(&self, intervals: &I, globals: &Vec<Interval>, wanted: GlobalId) -> (found: Interval)
        requires
            self.well_formed(),
            wanted.0 < self.symbols,
        ensures
            regular(*intervals) ==> found == self.narrowed(enclosures_of(*intervals), globals@, wanted.0),
    {
        let can = self.forward(intervals, globals);
        let ghost enclosures = enclosures_of(*intervals);
        let ghost possible = can@;
        let mut need: Vec<Interval> = vec![Interval::entire(); self.slots];
        need.set(self.result as usize, Interval::new(negative_infinity(), zero()));
        let mut found = Interval::entire();
        let mut from: usize = self.steps.len();
        assert(need@ =~= self.required().need);
        while from > 0
            invariant
                self.well_formed(),
                wanted.0 < self.symbols,
                from <= self.steps@.len(),
                enclosures == enclosures_of(*intervals),
                can@ == possible,
                can@.len() == self.slots,
                need@.len() == self.slots,
                regular(*intervals) ==> possible == self.possible(enclosures, globals@),
                regular(*intervals) ==> self.swept_back(enclosures, possible, wanted.0, from as int)
                    == (Narrowing { need: need@, found, dead: false }),
            decreases from,
        {
            from = from - 1;
            let insn = self.steps[from];
            proof {
                assert(on_slots(self.steps@[from as int], self.slots as int));
                operands(insn);
            }
            let dst: u32 = match insn.dst() {
                Some(dst) => dst,
                None => {
                    continue;
                },
            };
            assert(self.depends@[dst as int]@[wanted.0 as int] <==> self.reaching(dst as int, wanted.0 as int));
            if !self.depends[dst as usize][wanted.0 as usize] || need[dst as usize].is_entire() {
                continue;
            }
            let target = need[dst as usize].intersect(can[dst as usize]);
            if target.is_empty() {
                proof {
                    if regular(*intervals) {
                        assert(self.swept_back(enclosures, possible, wanted.0, from as int).dead);
                        self.death_is_final(enclosures, possible, wanted.0, from as int);
                    }
                }
                return Interval::empty();
            }
            match insn {
                Instruction::Load { input, .. } => {
                    if input == wanted.0 {
                        found = found.intersect(target);
                    }
                },
                Instruction::Copy { src, .. } => {
                    tighten(&mut need, src, target);
                },
                Instruction::Unary { op, a, .. } => {
                    let more = invert_unary(intervals, op, target, can[a as usize]);
                    tighten(&mut need, a, more);
                },
                Instruction::Binary { op, a, b, .. } => match self.whole_exponent(op, b) {
                    Some(n) => {
                        let more = invert_power(intervals, target, n, can[a as usize]);
                        tighten(&mut need, a, more);
                    },
                    None => {
                        let more = invert_binary(intervals, op, target, can[a as usize], can[b as usize]);
                        tighten(&mut need, a, more.0);
                        tighten(&mut need, b, more.1);
                    },
                },
                Instruction::Compare { op, a, b, .. } => {
                    let (minuend, subtrahend) = residual(op, a, b);
                    let more = invert_binary(
                        intervals,
                        BinaryOp::Sub,
                        target,
                        can[minuend as usize],
                        can[subtrahend as usize],
                    );
                    tighten(&mut need, minuend, more.0);
                    tighten(&mut need, subtrahend, more.1);
                },
                Instruction::Combine { how, a, b, .. } => match how {
                    Accumulate::Sum | Accumulate::Prod => {
                        let more = invert_binary(intervals, how_op(how), target, can[a as usize], can[b as usize]);
                        tighten(&mut need, a, more.0);
                        tighten(&mut need, b, more.1);
                    },
                    Accumulate::Worst => {
                        let cap = Interval::new(negative_infinity(), target.hi);
                        tighten(&mut need, a, cap);
                        tighten(&mut need, b, cap);
                    },
                },
                Instruction::Gather { .. } | Instruction::Check { .. } => {},
            }
        }
        found
    }
}

fn tighten(need: &mut Vec<Interval>, slot: u32, more: Interval)
    requires
        slot < old(need)@.len(),
    ensures
        final(need)@ == tightened(old(need)@, slot, more),
{
    let both = need[slot as usize].intersect(more);
    need.set(slot as usize, both);
}

// ---- laws ----

/// What the slots hold before the first instruction: the constants.
pub open spec fn slots_primed(consts: Seq<Real>) -> Map<u32, Real> {
    Map::new(|s: u32| s < consts.len(), |s: u32| consts[s as int])
}

/// Whether a comparison's residual is the plain difference. A strict
/// comparison's may be nudged upwards; the sweeps leave the nudge out, which
/// is one point wider than the truth.
pub open spec fn is_plain(semantics: Semantics) -> bool {
    forall|op: CompareOp, a: Real, b: Real| #[trigger]
        (semantics.residual)(op, a, b) == (match op {
            CompareOp::Lt | CompareOp::Lte => BinaryOp::Sub.value(semantics.arithmetic, a, b),
            CompareOp::Gt | CompareOp::Gte => BinaryOp::Sub.value(semantics.arithmetic, b, a),
        })
}

/// Whether the interval operator an instruction asks forward encloses what the
/// instruction computes.
pub open spec fn image_is_enclosed(
    insn: Instruction<u32>,
    enclosures: Enclosures,
    arithmetic: Arithmetic,
    consts: Seq<Real>,
    frame: Seq<Interval>,
    end: Map<u32, Real>,
) -> bool {
    match insn {
        Instruction::Unary { op, a, .. } => encloses_unary(enclosures, arithmetic, op, frame[a as int], held(end, a)),
        Instruction::Binary { op, a, b, .. } => match whole_power(op, consts, b) {
            Some(n) => encloses_power(enclosures, arithmetic, frame[a as int], n, held(end, a), held(end, b)),
            None => encloses_binary(
                enclosures,
                arithmetic,
                op,
                frame[a as int],
                frame[b as int],
                held(end, a),
                held(end, b),
            ),
        },
        Instruction::Compare { op, a, b, .. } => {
            let (minuend, subtrahend) = residual_order(op, a, b);
            encloses_binary(
                enclosures,
                arithmetic,
                BinaryOp::Sub,
                frame[minuend as int],
                frame[subtrahend as int],
                held(end, minuend),
                held(end, subtrahend),
            )
        },
        Instruction::Combine { how, a, b, .. } => encloses_binary(
            enclosures,
            arithmetic,
            how_op(how),
            frame[a as int],
            frame[b as int],
            held(end, a),
            held(end, b),
        ),
        _ => true,
    }
}

/// Whether the interval operator an instruction asks backward keeps the operands
/// of what the instruction computes.
pub open spec fn operands_are_undone(
    insn: Instruction<u32>,
    target: Interval,
    enclosures: Enclosures,
    arithmetic: Arithmetic,
    consts: Seq<Real>,
    can: Seq<Interval>,
    end: Map<u32, Real>,
) -> bool {
    match insn {
        Instruction::Unary { op, a, .. } => undoes_unary(
            enclosures,
            arithmetic,
            op,
            target,
            can[a as int],
            held(end, a),
        ),
        Instruction::Binary { op, a, b, .. } => match whole_power(op, consts, b) {
            Some(n) => undoes_power(enclosures, arithmetic, target, n, can[a as int], held(end, a), held(end, b)),
            None => undoes_binary(
                enclosures,
                arithmetic,
                op,
                target,
                can[a as int],
                can[b as int],
                held(end, a),
                held(end, b),
            ),
        },
        Instruction::Compare { op, a, b, .. } => {
            let (minuend, subtrahend) = residual_order(op, a, b);
            undoes_binary(
                enclosures,
                arithmetic,
                BinaryOp::Sub,
                target,
                can[minuend as int],
                can[subtrahend as int],
                held(end, minuend),
                held(end, subtrahend),
            )
        },
        Instruction::Combine { how, a, b, .. } => how is Worst || undoes_binary(
            enclosures,
            arithmetic,
            how_op(how),
            target,
            can[a as int],
            can[b as int],
            held(end, a),
            held(end, b),
        ),
        _ => true,
    }
}

/// Whether a finished run met no NaN: none was written, and nothing was read
/// before it was written.
pub open spec fn is_numeric(steps: Seq<Instruction<u32>>, end: Map<u32, Real>) -> bool {
    &&& forall|s: u32| #[trigger] end.contains_key(s) ==> !end[s].nan()
    &&& forall|i: int, k: int|
        0 <= i < steps.len() && 0 <= k < steps[i].read().len() ==> end.contains_key(#[trigger] steps[i].read()[k])
}

pub proof fn earlier_runs_on<R>(
    steps: Seq<Instruction<R>>,
    semantics: Semantics,
    row: Seq<Real>,
    start: Map<R, Real>,
    i: int,
)
    requires
        0 <= i <= steps.len(),
        run(steps, semantics, row, start) is Running,
    ensures
        run(steps.take(i), semantics, row, start) is Running,
        i < steps.len() ==> {
            &&& step(steps[i], semantics, row, run(steps.take(i), semantics, row, start)->Running_0) is Ok
            &&& run(steps.take(i + 1), semantics, row, start) == (Run::Running(
                step(steps[i], semantics, row, run(steps.take(i), semantics, row, start)->Running_0)->Ok_0,
            ))
        },
    decreases steps.len() - i,
{
    if i == steps.len() {
        assert(steps.take(i) =~= steps);
    } else {
        earlier_runs_on(steps, semantics, row, start, i + 1);
        assert(steps.take(i + 1).drop_last() =~= steps.take(i));
        assert(steps.take(i + 1).last() == steps[i]);
    }
}

/// An instruction changes only what it writes.
pub proof fn a_step_writes_one<R>(
    insn: Instruction<R>,
    semantics: Semantics,
    row: Seq<Real>,
    registers: Map<R, Real>,
    s: R,
)
    requires
        step(insn, semantics, row, registers) is Ok,
        insn.written() != Some(s),
    ensures
        step(insn, semantics, row, registers)->Ok_0.contains_key(s) == registers.contains_key(s),
        registers.contains_key(s) ==> step(insn, semantics, row, registers)->Ok_0[s] == registers[s],
{
}

/// What no later instruction writes is held to the end.
pub proof fn held_to_the_end<R>(
    steps: Seq<Instruction<R>>,
    semantics: Semantics,
    row: Seq<Real>,
    start: Map<R, Real>,
    i: int,
    s: R,
)
    requires
        0 <= i <= steps.len(),
        run(steps, semantics, row, start) is Running,
        forall|j: int| i <= j < steps.len() ==> (#[trigger] steps[j]).written() != Some(s),
    ensures
        ({
            let then = run(steps.take(i), semantics, row, start)->Running_0;
            let end = run(steps, semantics, row, start)->Running_0;
            &&& then.contains_key(s) == end.contains_key(s)
            &&& then.contains_key(s) ==> then[s] == end[s]
        }),
    decreases steps.len() - i,
{
    if i == steps.len() {
        assert(steps.take(i) =~= steps);
    } else {
        held_to_the_end(steps, semantics, row, start, i + 1, s);
        earlier_runs_on(steps, semantics, row, start, i);
        a_step_writes_one(steps[i], semantics, row, run(steps.take(i), semantics, row, start)->Running_0, s);
    }
}

/// What is held at the end was a constant, or was written.
proof fn held_was_written(
    steps: Seq<Instruction<u32>>,
    semantics: Semantics,
    row: Seq<Real>,
    start: Map<u32, Real>,
    s: u32,
)
    requires
        run(steps, semantics, row, start) is Running,
        run(steps, semantics, row, start)->Running_0.contains_key(s),
    ensures
        start.contains_key(s) || exists|j: int| 0 <= j < steps.len() && (#[trigger] steps[j]).written() == Some(s),
    decreases steps.len(),
{
    if steps.len() > 0 {
        let rest = steps.drop_last();
        let before = run(rest, semantics, row, start)->Running_0;
        if steps.last().written() == Some(s) {
            assert(steps[steps.len() - 1].written() == Some(s));
        } else {
            a_step_writes_one(steps.last(), semantics, row, before, s);
            held_was_written(rest, semantics, row, start, s);
            if !start.contains_key(s) {
                let j = choose|j: int| 0 <= j < rest.len() && (#[trigger] rest[j]).written() == Some(s);
                assert(steps[j].written() == Some(s));
            }
        }
    }
}

/// In single assignment every instruction still holds at the end: running it
/// again on what is held then gives what it wrote.
proof fn every_step_holds_at_the_end(
    steps: Seq<Instruction<u32>>,
    pool: int,
    semantics: Semantics,
    row: Seq<Real>,
    start: Map<u32, Real>,
    i: int,
)
    requires
        assigns_once(steps, pool),
        run(steps, semantics, row, start) is Running,
        0 <= i < steps.len(),
        steps[i].written() is Some,
    ensures
        ({
            let end = run(steps, semantics, row, start)->Running_0;
            let dst = steps[i].written()->0;
            &&& end.contains_key(dst)
            &&& step(steps[i], semantics, row, end) is Ok
            &&& step(steps[i], semantics, row, end)->Ok_0[dst] == end[dst]
        }),
{
    let insn = steps[i];
    let dst = insn.written()->0;
    let end = run(steps, semantics, row, start)->Running_0;
    let then = run(steps.take(i), semantics, row, start)->Running_0;
    earlier_runs_on(steps, semantics, row, start, i);
    held_to_the_end(steps, semantics, row, start, i + 1, dst);
    operands(insn);
    assert forall|k: int| 0 <= k < insn.read().len() implies held(then, #[trigger] insn.read()[k]) == held(
        end,
        insn.read()[k],
    ) by {
        assert forall|j: int| i <= j < steps.len() implies (#[trigger] steps[j]).written() != Some(insn.read()[k]) by {
            assert(steps[j].written() != Some(steps[i].read()[k]));
        }
        held_to_the_end(steps, semantics, row, start, i, insn.read()[k]);
    }
}

impl IntervalTape {
    /// What a run of the tape on a row ends with.
    pub open spec fn ran(&self, semantics: Semantics, row: Seq<Real>) -> Run<u32> {
        run(self.steps@, semantics, row, slots_primed(self.consts@))
    }

    /// Whether `row` is a point of the box at which the tape comes to a
    /// residual at most zero without meeting a NaN.
    pub open spec fn is_solution(&self, semantics: Semantics, globals: Seq<Interval>, row: Seq<Real>) -> bool {
        &&& globals.len() <= row.len()
        &&& forall|g: int| 0 <= g < globals.len() ==> (#[trigger] globals[g]).has_value(row[g])
        &&& self.ran(semantics, row) matches Run::Running(end)
        &&& is_numeric(self.steps@, end)
        &&& held(end, self.result).at_most(zero())
    }

    /// Whether something is required of a slot on the way to the wanted symbol.
    pub open spec fn is_pushed(&self, dst: u32, after: Narrowing, wanted: u32) -> bool {
        !after.dead && self.reaching(dst as int, wanted as int) && after.need[dst as int] != Interval::entire()
    }

    /// Whether what the sweeps of a box ask of the interval operators they are told
    /// rightly at a point: every image has the value it is the image of, and every
    /// preimage the operands that gave what was wanted.
    pub open spec fn encloses_at(
        &self,
        enclosures: Enclosures,
        semantics: Semantics,
        globals: Seq<Interval>,
        row: Seq<Real>,
        wanted: u32,
    ) -> bool {
        let end = self.ran(semantics, row)->Running_0;
        let can = self.possible(enclosures, globals);
        forall|i: int|
            0 <= i < self.steps@.len() ==> {
                &&& image_is_enclosed(
                    #[trigger] self.steps@[i],
                    enclosures,
                    semantics.arithmetic,
                    self.consts@,
                    self.swept(enclosures, globals, i),
                    end,
                )
                &&& self.steps@[i].written() matches Some(dst) ==> {
                    let after = self.swept_back(enclosures, can, wanted, i + 1);
                    self.is_pushed(dst, after, wanted) ==> operands_are_undone(
                        self.steps@[i],
                        after.need[dst as int].common(can[dst as int]),
                        enclosures,
                        semantics.arithmetic,
                        self.consts@,
                        can,
                        end,
                    )
                }
            }
    }

    spec fn settled_by(&self, s: u32, upto: int) -> bool {
        s < self.consts@.len() || exists|j: int|
            0 <= j < upto && (#[trigger] self.steps@[j]).written() == Some(s)
    }

    proof fn operand_is_settled(&self, semantics: Semantics, row: Seq<Real>, i: int, k: int)
        requires
            self.well_formed(),
            self.ran(semantics, row) is Running,
            is_numeric(self.steps@, self.ran(semantics, row)->Running_0),
            0 <= i < self.steps@.len(),
            0 <= k < self.steps@[i].read().len(),
        ensures
            self.settled_by(self.steps@[i].read()[k], i),
            self.ran(semantics, row)->Running_0.contains_key(self.steps@[i].read()[k]),
            !self.ran(semantics, row)->Running_0[self.steps@[i].read()[k]].nan(),
            self.steps@[i].read()[k] < self.slots,
    {
        let s = self.steps@[i].read()[k];
        let end = self.ran(semantics, row)->Running_0;
        assert(end.contains_key(s));
        held_was_written(self.steps@, semantics, row, slots_primed(self.consts@), s);
        if s >= self.consts@.len() {
            let j = choose|j: int| 0 <= j < self.steps@.len() && (#[trigger] self.steps@[j]).written() == Some(s);
            if j >= i {
                assert(self.steps@[j].written() != Some(self.steps@[i].read()[k]));
            }
        }
        assert(on_slots(self.steps@[i], self.slots as int));
    }

    /// Forward, every value is where it can be.
    proof fn every_value_is_possible(
        &self,
        enclosures: Enclosures,
        semantics: Semantics,
        globals: Seq<Interval>,
        row: Seq<Real>,
        wanted: u32,
        upto: int,
    )
        requires
            self.well_formed(),
            self.encloses_at(enclosures, semantics, globals, row, wanted),
            is_plain(semantics),
            self.is_solution(semantics, globals, row),
            0 <= upto <= self.steps@.len(),
        ensures
            forall|s: u32|
                #[trigger] self.settled_by(s, upto) && s < self.slots && self.ran(semantics, row)->Running_0.contains_key(s)
                    ==> self.swept(enclosures, globals, upto)[s as int].has_value(
                    self.ran(semantics, row)->Running_0[s],
                ),
        decreases upto,
    {
        let end = self.ran(semantics, row)->Running_0;
        let start = slots_primed(self.consts@);
        if upto == 0 {
            assert forall|s: u32| #[trigger] self.settled_by(s, 0) && s < self.slots && end.contains_key(s) implies self.swept(
                enclosures,
                globals,
                0,
            )[s as int].has_value(end[s]) by {
                assert forall|j: int| 0 <= j < self.steps@.len() implies (#[trigger] self.steps@[j]).written() != Some(s) by {
                    assert(self.steps@[j].written() is Some ==> self.steps@[j].written()->0 >= self.consts@.len());
                }
                held_to_the_end(self.steps@, semantics, row, start, 0, s);
                assert(self.steps@.take(0) =~= Seq::empty());
            }
        } else {
            let i = upto - 1;
            let insn = self.steps@[i];
            let before = self.swept(enclosures, globals, i);
            self.every_value_is_possible(enclosures, semantics, globals, row, wanted, i);
            self.sweeping_keeps_the_slots(enclosures, globals, i);
            assert(on_slots(insn, self.slots as int));
            operands(insn);
            if insn.written() is Some {
                let dst = insn.written()->0;
                every_step_holds_at_the_end(self.steps@, self.consts@.len() as int, semantics, row, start, i);
                assert forall|k: int| 0 <= k < insn.read().len() implies before[#[trigger] insn.read()[k] as int].has_value(
                    held(end, insn.read()[k]),
                ) by {
                    self.operand_is_settled(semantics, row, i, k);
                }
                self.an_image_has_its_value(enclosures, semantics, globals, row, i, before);
            }
            assert forall|s: u32| #[trigger] self.settled_by(s, upto) && s < self.slots && end.contains_key(s) implies self.swept(
                enclosures,
                globals,
                upto,
            )[s as int].has_value(end[s]) by {
                if insn.written() != Some(s) {
                    if s >= self.consts@.len() {
                        let j = choose|j: int| 0 <= j < upto && (#[trigger] self.steps@[j]).written() == Some(s);
                        assert(j < i);
                    }
                    assert(self.settled_by(s, i));
                }
            }
        }
    }

    proof fn an_image_has_its_value(
        &self,
        enclosures: Enclosures,
        semantics: Semantics,
        globals: Seq<Interval>,
        row: Seq<Real>,
        i: int,
        frame: Seq<Interval>,
    )
        requires
            self.well_formed(),
            image_is_enclosed(
                self.steps@[i],
                enclosures,
                semantics.arithmetic,
                self.consts@,
                frame,
                self.ran(semantics, row)->Running_0,
            ),
            is_plain(semantics),
            self.is_solution(semantics, globals, row),
            0 <= i < self.steps@.len(),
            self.steps@[i].written() is Some,
            frame.len() == self.slots,
            ({
                let end = self.ran(semantics, row)->Running_0;
                let insn = self.steps@[i];
                &&& forall|k: int|
                    0 <= k < insn.read().len() ==> frame[#[trigger] insn.read()[k] as int].has_value(
                        held(end, insn.read()[k]),
                    )
                &&& end.contains_key(insn.written()->0)
                &&& step(insn, semantics, row, end) is Ok
                &&& step(insn, semantics, row, end)->Ok_0[insn.written()->0] == end[insn.written()->0]
            }),
        ensures
            image(self.steps@[i], enclosures, self.consts@, globals, frame).has_value(
                self.ran(semantics, row)->Running_0[self.steps@[i].written()->0],
            ),
    {
        let end = self.ran(semantics, row)->Running_0;
        let insn = self.steps@[i];
        let start = slots_primed(self.consts@);
        operands(insn);
        let value = end[insn.written()->0];
        assert(!value.nan());
        assert(forall|k: int|
            0 <= k < insn.read().len() ==> frame[#[trigger] insn.read()[k] as int].has_value(held(end, insn.read()[k])));
        match insn {
            Instruction::Load { input, .. } => {
                if input < globals.len() {
                    assert(globals[input as int].has_value(row[input as int]));
                }
            },
            Instruction::Copy { .. } => {},
            Instruction::Unary { op, a, .. } => {
                let x = held(end, insn.read()[0]);
                assert(frame[a as int].has_value(x));
                assert((enclosures.unary)(op, frame[a as int]).has_value(op.value(semantics.arithmetic, x)));
            },
            Instruction::Binary { op, a, b, .. } => {
                let p = held(end, insn.read()[0]);
                let q = held(end, insn.read()[1]);
                assert(frame[a as int].has_value(p));
                assert(frame[b as int].has_value(q));
                match whole_power(op, self.consts@, b) {
                    Some(n) => {
                        self.a_constant_is_held(semantics, row, b);
                        assert((enclosures.power)(frame[a as int], n).has_value(
                            BinaryOp::Pow.value(semantics.arithmetic, p, q),
                        ));
                    },
                    None => {
                        assert((enclosures.binary)(op, frame[a as int], frame[b as int]).has_value(
                            op.value(semantics.arithmetic, p, q),
                        ));
                    },
                }
            },
            Instruction::Compare { op, a, b, .. } => {
                let p = held(end, insn.read()[0]);
                let q = held(end, insn.read()[1]);
                assert(frame[a as int].has_value(p));
                assert(frame[b as int].has_value(q));
                let (minuend, subtrahend) = residual_order(op, a, b);
                let (first, second) = if minuend == a && subtrahend == b && !(op is Gt) && !(op is Gte) {
                    (p, q)
                } else {
                    (q, p)
                };
                assert((semantics.residual)(op, p, q) == BinaryOp::Sub.value(semantics.arithmetic, first, second));
                assert((enclosures.binary)(
                    BinaryOp::Sub,
                    frame[minuend as int],
                    frame[subtrahend as int],
                ).has_value(BinaryOp::Sub.value(semantics.arithmetic, first, second)));
            },
            Instruction::Combine { how, a, b, .. } => {
                let p = held(end, insn.read()[0]);
                let q = held(end, insn.read()[1]);
                assert(frame[a as int].has_value(p));
                assert(frame[b as int].has_value(q));
                assert(how.value(semantics.arithmetic, p, q) == how_op(how).value(semantics.arithmetic, p, q));
                assert((enclosures.binary)(how_op(how), frame[a as int], frame[b as int]).has_value(
                    how_op(how).value(semantics.arithmetic, p, q),
                ));
            },
            Instruction::Gather { .. } => {},
            Instruction::Check { .. } => {},
        }
    }

    proof fn a_constant_is_held(&self, semantics: Semantics, row: Seq<Real>, s: u32)
        requires
            self.well_formed(),
            self.ran(semantics, row) is Running,
            s < self.consts@.len(),
        ensures
            held(self.ran(semantics, row)->Running_0, s) == self.consts@[s as int],
    {
        assert forall|j: int| 0 <= j < self.steps@.len() implies (#[trigger] self.steps@[j]).written() != Some(s) by {
            assert(self.steps@[j].written() is Some ==> self.steps@[j].written()->0 >= self.consts@.len());
        }
        held_to_the_end(self.steps@, semantics, row, slots_primed(self.consts@), 0, s);
        assert(self.steps@.take(0) =~= Seq::empty());
    }

    /// Backward, every value is where it must be.
    proof fn every_value_is_allowed(
        &self,
        enclosures: Enclosures,
        semantics: Semantics,
        globals: Seq<Interval>,
        row: Seq<Real>,
        wanted: u32,
        from: int,
    )
        requires
            self.well_formed(),
            self.encloses_at(enclosures, semantics, globals, row, wanted),
            is_plain(semantics),
            self.is_solution(semantics, globals, row),
            wanted < globals.len(),
            0 <= from <= self.steps@.len(),
        ensures
            ({
                let state = self.swept_back(enclosures, self.possible(enclosures, globals), wanted, from);
                let end = self.ran(semantics, row)->Running_0;
                &&& !state.dead
                &&& state.found.has_value(row[wanted as int])
                &&& state.need.len() == self.slots
                &&& forall|s: u32|
                    s < self.slots && #[trigger] end.contains_key(s) ==> state.need[s as int].has_value(end[s])
            }),
        decreases self.steps@.len() - from,
    {
        let can = self.possible(enclosures, globals);
        let end = self.ran(semantics, row)->Running_0;
        let count = self.steps@.len() as int;
        let state = self.swept_back(enclosures, can, wanted, from);
        self.pushing_keeps_the_slots(enclosures, can, wanted, from);
        assert(globals[wanted as int].has_value(row[wanted as int]));
        if from < count {
            self.every_value_is_allowed(enclosures, semantics, globals, row, wanted, from + 1);
            self.every_value_is_possible(enclosures, semantics, globals, row, wanted, count);
            self.sweeping_keeps_the_slots(enclosures, globals, count);
            let insn = self.steps@[from];
            let after = self.swept_back(enclosures, can, wanted, from + 1);
            assert(on_slots(insn, self.slots as int));
            operands(insn);
            if insn.written() is Some {
                let dst = insn.written()->0;
                every_step_holds_at_the_end(
                    self.steps@,
                    self.consts@.len() as int,
                    semantics,
                    row,
                    slots_primed(self.consts@),
                    from,
                );
                let value = end[dst];
                assert(self.settled_by(dst, count));
                assert(can[dst as int].has_value(value));
                let target = after.need[dst as int].common(can[dst as int]);
                common_has_what_both_have(after.need[dst as int], can[dst as int], value);
                assert forall|k: int| 0 <= k < insn.read().len() implies end.contains_key(#[trigger] insn.read()[k])
                    && can[insn.read()[k] as int].has_value(end[insn.read()[k]]) by {
                    self.operand_is_settled(semantics, row, from, k);
                    let s = insn.read()[k];
                    if s >= self.consts@.len() {
                        let j = choose|j: int| 0 <= j < from && (#[trigger] self.steps@[j]).written() == Some(s);
                        assert(0 <= j < count);
                    }
                    assert(self.settled_by(s, count));
                }
                if self.reaching(dst as int, wanted as int) && after.need[dst as int] != Interval::entire() {
                    self.a_push_allows_every_value(
                        enclosures,
                        semantics,
                        globals,
                        row,
                        from,
                        target,
                        can,
                        after.need,
                    );
                }
            }
        }
    }

    proof fn a_push_allows_every_value(
        &self,
        enclosures: Enclosures,
        semantics: Semantics,
        globals: Seq<Interval>,
        row: Seq<Real>,
        i: int,
        target: Interval,
        can: Seq<Interval>,
        need: Seq<Interval>,
    )
        requires
            self.well_formed(),
            operands_are_undone(
                self.steps@[i],
                target,
                enclosures,
                semantics.arithmetic,
                self.consts@,
                can,
                self.ran(semantics, row)->Running_0,
            ),
            is_plain(semantics),
            self.is_solution(semantics, globals, row),
            0 <= i < self.steps@.len(),
            self.steps@[i].written() is Some,
            can.len() == self.slots,
            need.len() == self.slots,
            ({
                let end = self.ran(semantics, row)->Running_0;
                let insn = self.steps@[i];
                &&& end.contains_key(insn.written()->0)
                &&& step(insn, semantics, row, end) is Ok
                &&& step(insn, semantics, row, end)->Ok_0[insn.written()->0] == end[insn.written()->0]
                &&& target.has_value(end[insn.written()->0])
                &&& forall|k: int|
                    0 <= k < insn.read().len() ==> end.contains_key(#[trigger] insn.read()[k])
                        && can[insn.read()[k] as int].has_value(end[insn.read()[k]])
                &&& forall|s: u32| s < self.slots && #[trigger] end.contains_key(s) ==> need[s as int].has_value(end[s])
            }),
        ensures
            ({
                let end = self.ran(semantics, row)->Running_0;
                let after = pushed(self.steps@[i], target, enclosures, self.consts@, can, need);
                forall|s: u32| s < self.slots && #[trigger] end.contains_key(s) ==> after[s as int].has_value(end[s])
            }),
    {
        let end = self.ran(semantics, row)->Running_0;
        let insn = self.steps@[i];
        let arithmetic = semantics.arithmetic;
        operands(insn);
        assert(on_slots(insn, self.slots as int));
        match insn {
            Instruction::Copy { src, .. } => {
                assert(end.contains_key(insn.read()[0]));
                tightening(need, src, target, end);
            },
            Instruction::Unary { op, a, .. } => {
                assert(end.contains_key(insn.read()[0]));
                let more = (enclosures.invert_unary)(op, target, can[a as int]);
                assert(target.has_value(op.value(arithmetic, end[a])));
                assert(more.has_value(end[a]));
                tightening(need, a, more, end);
            },
            Instruction::Binary { op, a, b, .. } => {
                assert(end.contains_key(insn.read()[0]));
                assert(end.contains_key(insn.read()[1]));
                match whole_power(op, self.consts@, b) {
                    Some(n) => {
                        self.a_constant_is_held(semantics, row, b);
                        let more = (enclosures.invert_power)(target, n, can[a as int]);
                        assert(target.has_value(BinaryOp::Pow.value(arithmetic, end[a], end[b])));
                        assert(more.has_value(end[a]));
                        tightening(need, a, more, end);
                    },
                    None => {
                        let more = (enclosures.invert_binary)(op, target, can[a as int], can[b as int]);
                        assert(target.has_value(op.value(arithmetic, end[a], end[b])));
                        assert(more.0.has_value(end[a]) && more.1.has_value(end[b]));
                        tightening(need, a, more.0, end);
                        tightening(tightened(need, a, more.0), b, more.1, end);
                    },
                }
            },
            Instruction::Compare { op, a, b, .. } => {
                assert(end.contains_key(insn.read()[0]));
                assert(end.contains_key(insn.read()[1]));
                let (minuend, subtrahend) = residual_order(op, a, b);
                let more = (enclosures.invert_binary)(
                    BinaryOp::Sub,
                    target,
                    can[minuend as int],
                    can[subtrahend as int],
                );
                assert((semantics.residual)(op, end[a], end[b]) == BinaryOp::Sub.value(
                    arithmetic,
                    end[minuend],
                    end[subtrahend],
                ));
                assert(target.has_value(BinaryOp::Sub.value(arithmetic, end[minuend], end[subtrahend])));
                assert(more.0.has_value(end[minuend]) && more.1.has_value(end[subtrahend]));
                tightening(need, minuend, more.0, end);
                tightening(tightened(need, minuend, more.0), subtrahend, more.1, end);
            },
            Instruction::Combine { how, a, b, .. } => {
                assert(end.contains_key(insn.read()[0]));
                assert(end.contains_key(insn.read()[1]));
                assert(how.value(arithmetic, end[a], end[b]) == how_op(how).value(arithmetic, end[a], end[b]));
                match how {
                    Accumulate::Sum | Accumulate::Prod => {
                        let more = (enclosures.invert_binary)(how_op(how), target, can[a as int], can[b as int]);
                        assert(target.has_value(how_op(how).value(arithmetic, end[a], end[b])));
                        assert(more.0.has_value(end[a]) && more.1.has_value(end[b]));
                        tightening(need, a, more.0, end);
                        tightening(tightened(need, a, more.0), b, more.1, end);
                    },
                    Accumulate::Worst => {
                        let cap = Interval::new(negative_infinity(), target.hi);
                        assert(cap.has_value(end[a]) && cap.has_value(end[b]));
                        tightening(need, a, cap, end);
                        tightening(tightened(need, a, cap), b, cap, end);
                    },
                }
            },
            _ => {},
        }
    }
}

proof fn tightening(need: Seq<Interval>, slot: u32, more: Interval, end: Map<u32, Real>)
    requires
        slot < need.len(),
        end.contains_key(slot) ==> more.has_value(end[slot]),
        forall|s: u32| s < need.len() && #[trigger] end.contains_key(s) ==> need[s as int].has_value(end[s]),
    ensures
        forall|s: u32|
            s < need.len() && #[trigger] end.contains_key(s) ==> tightened(need, slot, more)[s as int].has_value(end[s]),
{
    assert forall|s: u32| s < need.len() && #[trigger] end.contains_key(s) implies tightened(need, slot, more)[s as int].has_value(
        end[s],
    ) by {
        if s == slot {
            common_has_what_both_have(need[slot as int], more, end[slot]);
        }
    }
}

/// Where the interval operators enclose whatever they are asked, they do at every
/// point of every box.
pub proof fn enclosing_is_enclosing_everywhere(
    tape: IntervalTape,
    enclosures: Enclosures,
    semantics: Semantics,
    globals: Seq<Interval>,
    row: Seq<Real>,
    wanted: u32,
)
    requires
        encloses(enclosures, semantics.arithmetic),
    ensures
        tape.encloses_at(enclosures, semantics, globals, row, wanted),
{
}

/// The superset rule: a point of the box that satisfies the constraint has its
/// coordinate in the answer, where the interval operators enclose what the sweeps
/// ask of them there.
pub proof fn narrowing_keeps_every_solution(
    tape: IntervalTape,
    enclosures: Enclosures,
    semantics: Semantics,
    globals: Seq<Interval>,
    row: Seq<Real>,
    wanted: u32,
)
    requires
        tape.well_formed(),
        tape.encloses_at(enclosures, semantics, globals, row, wanted),
        is_plain(semantics),
        wanted < globals.len(),
        tape.is_solution(semantics, globals, row),
    ensures
        tape.narrowed(enclosures, globals, wanted).has_value(row[wanted as int]),
{
    tape.every_value_is_allowed(enclosures, semantics, globals, row, wanted, 0);
}

/// An empty answer is a proof: no point of the box satisfies the constraint at
/// which the interval operators enclose what the sweeps ask of them.
pub proof fn an_empty_answer_is_a_proof(
    tape: IntervalTape,
    enclosures: Enclosures,
    semantics: Semantics,
    globals: Seq<Interval>,
    row: Seq<Real>,
    wanted: u32,
)
    requires
        tape.well_formed(),
        tape.encloses_at(enclosures, semantics, globals, row, wanted),
        is_plain(semantics),
        wanted < globals.len(),
        tape.narrowed(enclosures, globals, wanted).has_nothing(),
    ensures
        !tape.is_solution(semantics, globals, row),
{
    if tape.is_solution(semantics, globals, row) {
        narrowing_keeps_every_solution(tape, enclosures, semantics, globals, row, wanted);
    }
}

/// Whether an interval has nothing that another has not.
pub open spec fn is_inside(inner: Interval, outer: Interval) -> bool {
    forall|value: Real| #[trigger] inner.has_value(value) ==> outer.has_value(value)
}

proof fn tightening_is_inside(need: Seq<Interval>, slot: u32, more: Interval, s: int)
    requires
        slot < need.len(),
        0 <= s < need.len(),
    ensures
        is_inside(tightened(need, slot, more)[s], need[s]),
        is_inside(tightened(need, slot, more)[slot as int], more),
{
    let after = tightened(need, slot, more);
    assert forall|value: Real| #[trigger] after[s].has_value(value) implies need[s].has_value(value) by {
        if s == slot {
            common_has_nothing_else(need[s], more, value);
        }
    }
    assert forall|value: Real| #[trigger] after[slot as int].has_value(value) implies more.has_value(value) by {
        common_has_nothing_else(need[slot as int], more, value);
    }
}

proof fn tightening_both_is_inside(need: Seq<Interval>, a: u32, b: u32, more: (Interval, Interval), s: int)
    requires
        a < need.len(),
        b < need.len(),
        0 <= s < need.len(),
    ensures
        is_inside(both_tightened(need, a, b, more)[s], need[s]),
        is_inside(both_tightened(need, a, b, more)[a as int], more.0),
        is_inside(both_tightened(need, a, b, more)[b as int], more.1),
{
    let first = tightened(need, a, more.0);
    tightening_is_inside(need, a, more.0, s);
    tightening_is_inside(need, a, more.0, a as int);
    tightening_is_inside(first, b, more.1, s);
    tightening_is_inside(first, b, more.1, a as int);
}

impl IntervalTape {
    proof fn a_push_only_tightens(
        &self,
        enclosures: Enclosures,
        can: Seq<Interval>,
        wanted: u32,
        from: int,
        s: int,
    )
        requires
            self.well_formed(),
            0 <= from < self.steps@.len(),
            0 <= s < self.slots,
        ensures
            ({
                let after = self.swept_back(enclosures, can, wanted, from + 1);
                let now = self.swept_back(enclosures, can, wanted, from);
                is_inside(now.need[s], after.need[s]) && is_inside(now.found, after.found)
            }),
    {
        let after = self.swept_back(enclosures, can, wanted, from + 1);
        let now = self.swept_back(enclosures, can, wanted, from);
        let insn = self.steps@[from];
        self.pushing_keeps_the_slots(enclosures, can, wanted, from + 1);
        assert(on_slots(insn, self.slots as int));
        operands(insn);
        if let Some(dst) = insn.written() {
            let target = after.need[dst as int].common(can[dst as int]);
            if self.is_pushed(dst, after, wanted) && !target.has_nothing() {
                assert(now.need == pushed(insn, target, enclosures, self.consts@, can, after.need));
                self.a_push_is_inside(insn, target, enclosures, can, after.need, s);
                assert forall|value: Real| #[trigger] now.found.has_value(value) implies after.found.has_value(value) by {
                    if insn is Load {
                        if now.found != after.found {
                            common_has_nothing_else(after.found, target, value);
                        }
                    }
                }
            }
        }
    }

    proof fn a_push_is_inside(
        &self,
        insn: Instruction<u32>,
        target: Interval,
        enclosures: Enclosures,
        can: Seq<Interval>,
        need: Seq<Interval>,
        s: int,
    )
        requires
            on_slots(insn, need.len() as int),
            0 <= s < need.len(),
        ensures
            is_inside(pushed(insn, target, enclosures, self.consts@, can, need)[s], need[s]),
    {
        operands(insn);
        match insn {
            Instruction::Copy { src, .. } => {
                assert(insn.read()[0] < need.len());
                tightening_is_inside(need, src, target, s);
            },
            Instruction::Unary { op, a, .. } => {
                assert(insn.read()[0] < need.len());
                tightening_is_inside(need, a, (enclosures.invert_unary)(op, target, can[a as int]), s);
            },
            Instruction::Binary { op, a, b, .. } => {
                assert(insn.read()[0] < need.len() && insn.read()[1] < need.len());
                match whole_power(op, self.consts@, b) {
                    Some(n) => tightening_is_inside(need, a, (enclosures.invert_power)(target, n, can[a as int]), s),
                    None => tightening_both_is_inside(
                        need,
                        a,
                        b,
                        (enclosures.invert_binary)(op, target, can[a as int], can[b as int]),
                        s,
                    ),
                }
            },
            Instruction::Compare { op, a, b, .. } => {
                assert(insn.read()[0] < need.len() && insn.read()[1] < need.len());
                let (minuend, subtrahend) = residual_order(op, a, b);
                tightening_both_is_inside(
                    need,
                    minuend,
                    subtrahend,
                    (enclosures.invert_binary)(BinaryOp::Sub, target, can[minuend as int], can[subtrahend as int]),
                    s,
                );
            },
            Instruction::Combine { how, a, b, .. } => {
                assert(insn.read()[0] < need.len() && insn.read()[1] < need.len());
                let cap = Interval::new(negative_infinity(), target.hi);
                tightening_both_is_inside(need, a, b, (cap, cap), s);
                tightening_both_is_inside(
                    need,
                    a,
                    b,
                    (enclosures.invert_binary)(how_op(how), target, can[a as int], can[b as int]),
                    s,
                );
            },
            _ => {},
        }
    }

    proof fn the_rest_only_tightens(
        &self,
        enclosures: Enclosures,
        can: Seq<Interval>,
        wanted: u32,
        from: int,
        s: int,
    )
        requires
            self.well_formed(),
            0 <= from <= self.steps@.len(),
            0 <= s < self.slots,
        ensures
            is_inside(
                self.swept_back(enclosures, can, wanted, 0).need[s],
                self.swept_back(enclosures, can, wanted, from).need[s],
            ),
            is_inside(
                self.swept_back(enclosures, can, wanted, 0).found,
                self.swept_back(enclosures, can, wanted, from).found,
            ),
        decreases from,
    {
        if from > 0 {
            self.a_push_only_tightens(enclosures, can, wanted, from - 1, s);
            self.the_rest_only_tightens(enclosures, can, wanted, from - 1, s);
        }
    }

    /// What a slot must be in, once an instruction's value must be in the target: for
    /// a function of one operand what the operators say gives something in the
    /// target, and so for each operand of a function of two.
    pub open spec fn must_be_in(
        &self,
        insn: Instruction<u32>,
        target: Interval,
        enclosures: Enclosures,
        can: Seq<Interval>,
        slot: int,
        required: Interval,
    ) -> bool {
        &&& insn matches Instruction::Copy { src, .. } ==> (slot == src ==> is_inside(required, target))
        &&& insn matches Instruction::Unary { op, a, .. } ==> (slot == a ==> is_inside(
            required,
            (enclosures.invert_unary)(op, target, can[a as int]),
        ))
        &&& insn matches Instruction::Binary { op, a, b, .. } ==> match whole_power(op, self.consts@, b) {
            Some(n) => slot == a ==> is_inside(required, (enclosures.invert_power)(target, n, can[a as int])),
            None => {
                let pair = (enclosures.invert_binary)(op, target, can[a as int], can[b as int]);
                (slot == a ==> is_inside(required, pair.0)) && (slot == b ==> is_inside(required, pair.1))
            },
        }
        &&& insn matches Instruction::Compare { op, a, b, .. } ==> {
            let (x, y) = if op is Lt || op is Lte {
                (a, b)
            } else {
                (b, a)
            };
            let pair = (enclosures.invert_binary)(BinaryOp::Sub, target, can[x as int], can[y as int]);
            (slot == x ==> is_inside(required, pair.0)) && (slot == y ==> is_inside(required, pair.1))
        }
        &&& insn matches Instruction::Combine { how, a, b, .. } ==> {
            let pair = if how is Sum {
                (enclosures.invert_binary)(BinaryOp::Add, target, can[a as int], can[b as int])
            } else {
                (enclosures.invert_binary)(BinaryOp::Mul, target, can[a as int], can[b as int])
            };
            &&& !(how is Worst) ==> (slot == a ==> is_inside(required, pair.0)) && (slot == b ==> is_inside(
                required,
                pair.1,
            ))
            &&& how is Worst && (slot == a || slot == b) ==> forall|value: Real|
                #[trigger] required.has_value(value) ==> value.at_most(target.hi)
        }
    }
}

/// Narrowing is as tight as the interval operators allow: once the value an
/// instruction computes must be in some target, on the way to the wanted symbol,
/// what each of its operands must be is inside what the operators say gives
/// something in the target, whatever the operator is; and no later step of the
/// sweep lets any of it go. Where the instruction loads the wanted symbol, what is
/// found is inside the target.
pub proof fn a_requirement_reaches_every_operand(
    tape: IntervalTape,
    enclosures: Enclosures,
    globals: Seq<Interval>,
    wanted: u32,
    i: int,
)
    requires
        tape.well_formed(),
        0 <= i < tape.steps@.len(),
        tape.steps@[i].written() is Some,
        tape.is_pushed(
            tape.steps@[i].written()->0,
            tape.swept_back(enclosures, tape.possible(enclosures, globals), wanted, i + 1),
            wanted,
        ),
    ensures
        ({
            let can = tape.possible(enclosures, globals);
            let after = tape.swept_back(enclosures, can, wanted, i + 1);
            let dst = tape.steps@[i].written()->0 as int;
            let target = after.need[dst].common(can[dst]);
            let end = tape.swept_back(enclosures, can, wanted, 0);
            &&& target.has_nothing() ==> tape.narrowed(enclosures, globals, wanted).has_nothing()
            &&& !target.has_nothing() ==> forall|s: int|
                0 <= s < tape.slots ==> tape.must_be_in(
                    tape.steps@[i],
                    target,
                    enclosures,
                    can,
                    s,
                    #[trigger] end.need[s],
                )
            &&& tape.steps@[i] matches Instruction::Load { input, .. } ==> (input == wanted ==> is_inside(
                tape.narrowed(enclosures, globals, wanted),
                target,
            ))
        }),
{
    let can = tape.possible(enclosures, globals);
    let after = tape.swept_back(enclosures, can, wanted, i + 1);
    let now = tape.swept_back(enclosures, can, wanted, i);
    let end = tape.swept_back(enclosures, can, wanted, 0);
    let insn = tape.steps@[i];
    let dst = insn.written()->0;
    let target = after.need[dst as int].common(can[dst as int]);
    tape.pushing_keeps_the_slots(enclosures, can, wanted, i + 1);
    assert(on_slots(insn, tape.slots as int));
    operands(insn);
    if target.has_nothing() {
        assert(now.dead);
        tape.death_is_final(enclosures, can, wanted, i);
        assert(tape.narrowed(enclosures, globals, wanted) == Interval::empty());
    } else {
        let need = after.need;
        assert(now.need == pushed(insn, target, enclosures, tape.consts@, can, need));
        assert forall|s: int| 0 <= s < tape.slots implies tape.must_be_in(
            insn,
            target,
            enclosures,
            can,
            s,
            #[trigger] end.need[s],
        ) by {
            tape.the_rest_only_tightens(enclosures, can, wanted, i, s);
            match insn {
                Instruction::Copy { src, .. } => {
                    assert(insn.read()[0] < need.len());
                    tightening_is_inside(need, src, target, s);
                },
                Instruction::Unary { op, a, .. } => {
                    assert(insn.read()[0] < need.len());
                    tightening_is_inside(need, a, (enclosures.invert_unary)(op, target, can[a as int]), s);
                },
                Instruction::Binary { op, a, b, .. } => {
                    assert(insn.read()[0] < need.len() && insn.read()[1] < need.len());
                    match whole_power(op, tape.consts@, b) {
                        Some(n) => tightening_is_inside(
                            need,
                            a,
                            (enclosures.invert_power)(target, n, can[a as int]),
                            s,
                        ),
                        None => tightening_both_is_inside(
                            need,
                            a,
                            b,
                            (enclosures.invert_binary)(op, target, can[a as int], can[b as int]),
                            s,
                        ),
                    }
                },
                Instruction::Compare { op, a, b, .. } => {
                    assert(insn.read()[0] < need.len() && insn.read()[1] < need.len());
                    let (minuend, subtrahend) = residual_order(op, a, b);
                    tightening_both_is_inside(
                        need,
                        minuend,
                        subtrahend,
                        (enclosures.invert_binary)(
                            BinaryOp::Sub,
                            target,
                            can[minuend as int],
                            can[subtrahend as int],
                        ),
                        s,
                    );
                },
                Instruction::Combine { how, a, b, .. } => {
                    assert(insn.read()[0] < need.len() && insn.read()[1] < need.len());
                    let cap = Interval::new(negative_infinity(), target.hi);
                    tightening_both_is_inside(need, a, b, (cap, cap), s);
                    tightening_both_is_inside(
                        need,
                        a,
                        b,
                        (enclosures.invert_binary)(how_op(how), target, can[a as int], can[b as int]),
                        s,
                    );
                },
                _ => {},
            }
        }
    }
    if let Instruction::Load { input, .. } = insn {
        if input == wanted {
            assert(tape.slots > 0);
            tape.the_rest_only_tightens(enclosures, can, wanted, i, 0);
            assert forall|value: Real| #[trigger] tape.narrowed(enclosures, globals, wanted).has_value(value) implies target.has_value(
                value,
            ) by {
                if target.has_nothing() {
                    assert(Interval::empty().has_value(value));
                } else {
                    assert(now.found == after.found.common(target));
                    assert(end.found.has_value(value));
                    assert(now.found.has_value(value));
                    common_has_nothing_else(after.found, target, value);
                }
            }
        }
    }
}

/// What is required to begin with is that the constraint hold: whatever a sweep
/// leaves the residual to be is at most zero.
pub proof fn the_residual_is_required_at_most_zero(
    tape: IntervalTape,
    enclosures: Enclosures,
    can: Seq<Interval>,
    wanted: u32,
    from: int,
    value: Real,
)
    requires
        tape.well_formed(),
        0 <= from <= tape.steps@.len(),
        tape.swept_back(enclosures, can, wanted, from).need[tape.result as int].has_value(value),
    ensures
        value.at_most(zero()),
    decreases tape.steps@.len() - from,
{
    if from < tape.steps@.len() {
        tape.a_push_only_tightens(enclosures, can, wanted, from, tape.result as int);
        the_residual_is_required_at_most_zero(tape, enclosures, can, wanted, from + 1, value);
    }
}

/// What a value can be is what the operators make of what its operands can be,
/// whatever the operator is; what a load can be is the interval of its symbol.
pub proof fn what_can_be_is_the_image(tape: IntervalTape, enclosures: Enclosures, globals: Seq<Interval>, i: int)
    requires
        tape.well_formed(),
        0 <= i < tape.steps@.len(),
    ensures
        ({
            let can = tape.possible(enclosures, globals);
            match tape.steps@[i] {
                Instruction::Load { dst, input } => can[dst as int] == (if input < globals.len() {
                    globals[input as int]
                } else {
                    Interval::entire()
                }),
                Instruction::Copy { dst, src } => can[dst as int] == can[src as int],
                Instruction::Unary { dst, op, a } => can[dst as int] == (enclosures.unary)(op, can[a as int]),
                Instruction::Binary { dst, op, a, b } => match whole_power(op, tape.consts@, b) {
                    Some(n) => can[dst as int] == (enclosures.power)(can[a as int], n),
                    None => can[dst as int] == (enclosures.binary)(op, can[a as int], can[b as int]),
                },
                Instruction::Compare { dst, op, a, b } => can[dst as int] == (if op is Lt || op is Lte {
                    (enclosures.binary)(BinaryOp::Sub, can[a as int], can[b as int])
                } else {
                    (enclosures.binary)(BinaryOp::Sub, can[b as int], can[a as int])
                }),
                Instruction::Combine { dst, how, a, b, .. } => can[dst as int] == (enclosures.binary)(
                    if how is Sum {
                        BinaryOp::Add
                    } else if how is Prod {
                        BinaryOp::Mul
                    } else {
                        BinaryOp::Max
                    },
                    can[a as int],
                    can[b as int],
                ),
                _ => true,
            }
        }),
{
    let insn = tape.steps@[i];
    let before = tape.swept(enclosures, globals, i);
    let after = tape.swept(enclosures, globals, i + 1);
    let count = tape.steps@.len() as int;
    let can = tape.possible(enclosures, globals);
    assert(on_slots(insn, tape.slots as int));
    operands(insn);
    tape.sweeping_keeps_the_slots(enclosures, globals, i);
    tape.sweeping_keeps_the_slots(enclosures, globals, i + 1);
    if let Some(dst) = insn.written() {
        tape.swept_stays(enclosures, globals, i + 1, count, dst);
        assert forall|k: int| 0 <= k < insn.read().len() implies before[#[trigger] insn.read()[k] as int] == can[insn.read()[k] as int] by {
            assert(insn.read()[k] < tape.slots);
            tape.swept_stays(enclosures, globals, i, count, insn.read()[k]);
        }
        assert(can[dst as int] == image(insn, enclosures, tape.consts@, globals, before));
        match insn {
            Instruction::Copy { .. } | Instruction::Unary { .. } => {
                assert(before[insn.read()[0] as int] == can[insn.read()[0] as int]);
            },
            Instruction::Binary { .. } | Instruction::Compare { .. } | Instruction::Combine { .. } => {
                assert(before[insn.read()[0] as int] == can[insn.read()[0] as int]);
                assert(before[insn.read()[1] as int] == can[insn.read()[1] as int]);
            },
            _ => {},
        }
    }
}

impl IntervalTape {
    proof fn swept_stays(&self, enclosures: Enclosures, globals: Seq<Interval>, from: int, upto: int, s: u32)
        requires
            self.well_formed(),
            0 <= from <= upto <= self.steps@.len(),
            s < self.slots,
            forall|j: int| from <= j < upto ==> (#[trigger] self.steps@[j]).written() != Some(s),
        ensures
            self.swept(enclosures, globals, upto)[s as int] == self.swept(enclosures, globals, from)[s as int],
        decreases upto - from,
    {
        if from < upto {
            self.swept_stays(enclosures, globals, from, upto - 1, s);
            self.sweeping_keeps_the_slots(enclosures, globals, upto - 1);
            assert(self.steps@[upto - 1].written() != Some(s));
        }
    }
}

/// For a constraint `f(x) < c`: where the symbol is loaded, put through a function
/// and compared, what the symbol may be is inside what the operators say gives
/// something that the comparison allows.
pub proof fn narrowing_inverts_a_function(
    tape: IntervalTape,
    enclosures: Enclosures,
    globals: Seq<Interval>,
    wanted: u32,
    x: u32,
    load: int,
    op: UnaryOp,
    y: u32,
    function: int,
)
    requires
        tape.well_formed(),
        0 <= load < function < tape.steps@.len(),
        tape.steps@[load] == (Instruction::Load { dst: x, input: wanted }),
        tape.steps@[function] == (Instruction::Unary { dst: y, op, a: x }),
        tape.is_pushed(y, tape.swept_back(enclosures, tape.possible(enclosures, globals), wanted, function + 1), wanted),
        tape.is_pushed(x, tape.swept_back(enclosures, tape.possible(enclosures, globals), wanted, load + 1), wanted),
    ensures
        ({
            let can = tape.possible(enclosures, globals);
            let after = tape.swept_back(enclosures, can, wanted, function + 1);
            is_inside(
                tape.narrowed(enclosures, globals, wanted),
                (enclosures.invert_unary)(op, after.need[y as int].common(can[y as int]), can[x as int]),
            )
        }),
{
    let can = tape.possible(enclosures, globals);
    let after = tape.swept_back(enclosures, can, wanted, function + 1);
    let target = after.need[y as int].common(can[y as int]);
    let late = tape.swept_back(enclosures, can, wanted, load + 1);
    let now = tape.swept_back(enclosures, can, wanted, function);
    a_requirement_reaches_every_operand(tape, enclosures, globals, wanted, load);
    a_requirement_reaches_every_operand(tape, enclosures, globals, wanted, function);
    assert(on_slots(tape.steps@[function], tape.slots as int));
    operands(tape.steps@[function]);
    assert(tape.steps@[function].read()[0] < tape.slots);
    tape.pushing_keeps_the_slots(enclosures, can, wanted, function + 1);
    let inverse = (enclosures.invert_unary)(op, target, can[x as int]);
    if !target.has_nothing() {
        assert(now.need == pushed(tape.steps@[function], target, enclosures, tape.consts@, can, after.need));
        tightening_is_inside(after.need, x, inverse, x as int);
        tape.between_only_tightens(enclosures, can, wanted, load + 1, function, x as int);
    }
    assert forall|value: Real| #[trigger] tape.narrowed(enclosures, globals, wanted).has_value(value) implies inverse.has_value(
        value,
    ) by {
        common_has_nothing_else(late.need[x as int], can[x as int], value);
        assert(now.need[x as int].has_value(value));
    }
}

impl IntervalTape {
    proof fn between_only_tightens(
        &self,
        enclosures: Enclosures,
        can: Seq<Interval>,
        wanted: u32,
        early: int,
        late: int,
        s: int,
    )
        requires
            self.well_formed(),
            0 <= early <= late <= self.steps@.len(),
            0 <= s < self.slots,
        ensures
            is_inside(
                self.swept_back(enclosures, can, wanted, early).need[s],
                self.swept_back(enclosures, can, wanted, late).need[s],
            ),
        decreases late - early,
    {
        if early < late {
            self.a_push_only_tightens(enclosures, can, wanted, early, s);
            self.between_only_tightens(enclosures, can, wanted, early + 1, late, s);
        }
    }

    proof fn tracing_grows(&self, from: int, upto: int, s: int)
        requires
            self.well_formed(),
            0 <= from <= upto <= self.steps@.len(),
            0 <= s < self.slots,
            forall|j: int| from <= j < upto ==> (#[trigger] self.steps@[j]).written() != Some(s as u32),
        ensures
            traced(self.steps@, self.slots as nat, self.symbols as int, upto)[s] == traced(
                self.steps@,
                self.slots as nat,
                self.symbols as int,
                from,
            )[s],
        decreases upto - from,
    {
        if from < upto {
            self.tracing_grows(from, upto - 1, s);
            tracing_keeps_the_slots(self.steps@, self.slots as nat, self.symbols as int, upto - 1);
            assert(self.steps@[upto - 1].written() != Some(s as u32));
        }
    }
}

/// A value depends on a symbol exactly where it loads it, or where something it is
/// computed from does.
pub proof fn what_is_computed_depends_as_its_operands_do(tape: IntervalTape, i: int, g: int)
    requires
        tape.well_formed(),
        tape.slots <= u32::MAX,
        0 <= i < tape.steps@.len(),
        tape.steps@[i].written() is Some,
        0 <= g < tape.symbols,
    ensures
        tape.reaching(tape.steps@[i].written()->0 as int, g) <==> {
            ||| tape.steps@[i] matches Instruction::Load { input, .. } && input == g
            ||| exists|k: int|
                0 <= k < tape.steps@[i].read().len() && tape.reaching(#[trigger] tape.steps@[i].read()[k] as int, g)
        },
{
    let insn = tape.steps@[i];
    let dst = insn.written()->0;
    let count = tape.steps@.len() as int;
    let slots = tape.slots as nat;
    let symbols = tape.symbols as int;
    let before = traced(tape.steps@, slots, symbols, i);
    assert(on_slots(insn, tape.slots as int));
    operands(insn);
    tracing_keeps_the_slots(tape.steps@, slots, symbols, i);
    assert forall|j: int| 0 <= j < i implies (#[trigger] tape.steps@[j]).written() != Some(dst) by {
        if tape.steps@[j].written() is Some {
            assert(tape.steps@[j].written() != tape.steps@[i].written());
        }
    }
    tape.tracing_grows(0, i, dst as int);
    assert forall|j: int| i + 1 <= j < count implies (#[trigger] tape.steps@[j]).written() != Some(dst) by {
        assert(tape.steps@[i].written() != tape.steps@[j].written());
    }
    tape.tracing_grows(i + 1, count, dst as int);
    assert forall|k: int| 0 <= k < insn.read().len() implies before[#[trigger] insn.read()[k] as int].contains(g)
        == tape.reaching(insn.read()[k] as int, g) by {
        assert(insn.read()[k] < tape.slots);
        assert forall|j: int| i <= j < count implies (#[trigger] tape.steps@[j]).written() != Some(insn.read()[k]) by {
            assert(tape.steps@[j].written() != Some(tape.steps@[i].read()[k]));
        }
        tape.tracing_grows(i, count, insn.read()[k] as int);
    }
    assert(tape.reaching(dst as int, g) <==> depending(insn, before, symbols).contains(g));
    if !(insn is Load) {
        if depending(insn, before, symbols).contains(g) {
            let k = choose|k: int| 0 <= k < insn.read().len() && before[#[trigger] insn.read()[k] as int].contains(g);
            assert(tape.reaching(insn.read()[k] as int, g));
        }
    }
}

/// Whether two register files hold the same, register by slot.
spec fn same_holdings(
    registers: Map<VirtualRegister, Real>,
    slots: Map<u32, Real>,
    pool: int,
    locals: int,
    temps: int,
) -> bool {
    forall|register: VirtualRegister|
        fits(register, pool, locals, temps) ==> #[trigger] held(registers, register) == held(
            slots,
            slot(pool, locals, register),
        )
}

proof fn a_slotted_step_is_the_same(
    insn: Instruction<VirtualRegister>,
    pool: int,
    locals: int,
    temps: int,
    semantics: Semantics,
    row: Seq<Real>,
    registers: Map<VirtualRegister, Real>,
    slots: Map<u32, Real>,
)
    requires
        0 <= pool,
        0 <= locals,
        0 <= temps,
        pool + locals + temps <= u32::MAX,
        all_fit(insn, pool, locals, temps),
        same_holdings(registers, slots, pool, locals, temps),
    ensures
        match step(insn, semantics, row, registers) {
            Ok(after) => {
                &&& step(slotted(pool, locals, insn), semantics, row, slots) is Ok
                &&& same_holdings(
                    after,
                    step(slotted(pool, locals, insn), semantics, row, slots)->Ok_0,
                    pool,
                    locals,
                    temps,
                )
            },
            Err(kind) => step(slotted(pool, locals, insn), semantics, row, slots) == Err::<Map<u32, Real>, _>(kind),
        },
{
    operands(insn);
    slotting(pool, locals, insn);
    let there = slotted(pool, locals, insn);
    operands(there);
    assert forall|k: int| 0 <= k < insn.read().len() implies held(registers, #[trigger] insn.read()[k]) == held(
        slots,
        there.read()[k],
    ) by {
        assert(fits(insn.read()[k], pool, locals, temps));
    }
    if step(insn, semantics, row, registers) is Ok {
        let after = step(insn, semantics, row, registers)->Ok_0;
        let beyond = step(there, semantics, row, slots)->Ok_0;
        assert forall|register: VirtualRegister| fits(register, pool, locals, temps) implies #[trigger] held(after, register)
            == held(beyond, slot(pool, locals, register)) by {
            assert(held(registers, register) == held(slots, slot(pool, locals, register)));
            if insn.written() is Some {
                slots_are_distinct(pool, locals, temps, register, insn.written()->0);
            }
        }
    }
}

proof fn a_slotted_run_is_the_same(
    insns: Seq<Instruction<VirtualRegister>>,
    pool: int,
    locals: int,
    temps: int,
    semantics: Semantics,
    row: Seq<Real>,
    registers: Map<VirtualRegister, Real>,
    slots: Map<u32, Real>,
)
    requires
        0 <= pool,
        0 <= locals,
        0 <= temps,
        pool + locals + temps <= u32::MAX,
        forall|i: int| 0 <= i < insns.len() ==> all_fit(#[trigger] insns[i], pool, locals, temps),
        same_holdings(registers, slots, pool, locals, temps),
    ensures
        ({
            let there = insns.map_values(|insn: Instruction<VirtualRegister>| slotted(pool, locals, insn));
            match run(insns, semantics, row, registers) {
                Run::Running(after) => {
                    &&& run(there, semantics, row, slots) is Running
                    &&& same_holdings(after, run(there, semantics, row, slots)->Running_0, pool, locals, temps)
                },
                Run::Faulted { insn, kind } => run(there, semantics, row, slots) == (Run::<u32>::Faulted { insn, kind }),
            }
        }),
    decreases insns.len(),
{
    if insns.len() > 0 {
        let rest = insns.drop_last();
        let there = insns.map_values(|insn: Instruction<VirtualRegister>| slotted(pool, locals, insn));
        let short = rest.map_values(|insn: Instruction<VirtualRegister>| slotted(pool, locals, insn));
        assert(there.drop_last() =~= short);
        assert forall|i: int| 0 <= i < rest.len() implies all_fit(#[trigger] rest[i], pool, locals, temps) by {
            assert(rest[i] == insns[i]);
        }
        a_slotted_run_is_the_same(rest, pool, locals, temps, semantics, row, registers, slots);
        assert(all_fit(insns[insns.len() - 1], pool, locals, temps));
        if run(rest, semantics, row, registers) is Running {
            a_slotted_step_is_the_same(
                insns.last(),
                pool,
                locals,
                temps,
                semantics,
                row,
                run(rest, semantics, row, registers)->Running_0,
                run(short, semantics, row, slots)->Running_0,
            );
        }
    }
}

/// The tape computes the constraint: on a row of the constraint's own symbols
/// it comes to the value a walk of the tree comes to, and faults where the walk
/// does.
pub proof fn an_interval_tape_computes_its_constraint(
    tape: IntervalTape,
    constraint: Ast,
    semantics: Semantics,
    row: Seq<Real>,
)
    requires
        compilable(constraint),
        constraint.program.body.hygienic(),
        is_tape_of(tape, constraint),
    ensures
        match evaluate_block(
            constraint.program.body,
            semantics,
            own_rows(constraint.symbols@.len()),
            row,
            unassigned(constraint.program.frame_size as nat),
        ) {
            Ok((value, _)) => tape.ran(semantics, row) is Running && held(
                tape.ran(semantics, row)->Running_0,
                tape.result,
            ) == value,
            Err(_) => tape.ran(semantics, row) is Faulted,
        },
{
    let program = constraint.program;
    let positions = own_rows(constraint.symbols@.len());
    let (state, result) = lowered(program, positions);
    let pool = state.pool.len() as int;
    let locals = program.frame_size as int;
    let done = renaming(state.insns, state.temps);
    a_tape_computes_its_program(program, semantics, positions, row);
    what_is_lowered_fits(program, positions);
    renaming_stays_in_range(state.insns, pool, locals, state.temps);
    assert forall|i: int| 0 <= i < state.insns.len() implies numbered(#[trigger] state.insns[i], state.temps) by {
        assert(all_fit(state.insns[i], pool, locals, state.temps));
        assert forall|k: int| 0 <= k < state.insns[i].read().len() implies below(
            #[trigger] state.insns[i].read()[k],
            state.temps,
        ) by {
            assert(fits(state.insns[i].read()[k], pool, locals, state.temps));
        }
    }
    renaming_computes_the_same(state.insns, state.temps, semantics, row, primed(state.pool));
    let start = primed(state.pool);
    let slots = slots_primed(state.pool);
    assert forall|register: VirtualRegister| fits(register, pool, locals, done.temps) implies #[trigger] held(start, register)
        == held(slots, slot(pool, locals, register)) by {
        slots_are_distinct(pool, locals, done.temps, register, register);
    }
    a_slotted_run_is_the_same(done.insns, pool, locals, done.temps, semantics, row, start, slots);
    if run(state.insns, semantics, row, start) is Running {
        let original = run(state.insns, semantics, row, start)->Running_0;
        let renamed = run(done.insns, semantics, row, start)->Running_0;
        assert(held(original, result) == held(renamed, latest(done.version, result)));
    }
}

} // verus!
