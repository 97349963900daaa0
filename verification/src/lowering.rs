//! Lowering keeps the meaning of a program.
//!
//! [`a_tape_computes_its_program`] is the statement: the tape of a program ends
//! with the value a walk of the tree gives in its result register, or stops
//! with the fault the walk stops with, reported at the same text.

use vstd::prelude::*;
use crate::ast::{Assignment, Block, Expr, Kind, Program};
use crate::diagnostics::Span;
use crate::irgen::{
    blank, continues, fits_a_tape, local_register, lower, lower_assignments, lower_block,
    lower_fold, lower_near, lower_terms, lowered, lowering_continues, assignments_continue,
    block_continues, load_index, pooling_continues, terms_continue, Lowering,
};
use crate::number::{nan, Real};
use crate::semantics::{
    a_fault_is_final, checked, evaluate, evaluate_assignments, evaluate_block, evaluate_fold,
    evaluate_terms, held, near, reported, run, run_of_push, step, wrote, Frame, Run,
    Semantics, Trouble,
};
use crate::tape::{pool_register, Accumulate, FaultKind, Instruction, VirtualRegister};

verus! {

impl Expr {
    /// Whether the expression binds the slot anywhere.
    pub open spec fn assigns(self, slot: u32) -> bool
        decreases self,
    {
        match self.kind {
            Kind::Literal(_) | Kind::Global(_) | Kind::Local(_) => false,
            Kind::Unary { arg, .. } => arg.assigns(slot),
            Kind::DynamicIndex(arg) => arg.assigns(slot),
            Kind::Binary { lhs, rhs, .. } => lhs.assigns(slot) || rhs.assigns(slot),
            Kind::Compare { lhs, rhs, .. } => lhs.assigns(slot) || rhs.assigns(slot),
            Kind::NearEq { lhs, rhs, .. } => lhs.assigns(slot) || rhs.assigns(slot),
            Kind::And { terms } => exists|i: int| 0 <= i < terms@.len() && (#[trigger] terms@[i]).assigns(slot),
            Kind::Fold { terms, .. } => exists|i: int| 0 <= i < terms@.len() && (#[trigger] terms@[i]).assigns(slot),
            Kind::Block(block) => block.assigns(slot),
            Kind::Aggregate { lower, upper, param, body, .. } => lower.assigns(slot) || upper.assigns(slot) || param.0
                == slot || body.assigns(slot),
        }
    }

    /// Whether the expression reads or binds the slot anywhere.
    pub open spec fn mentions(self, slot: u32) -> bool
        decreases self,
    {
        match self.kind {
            Kind::Literal(_) | Kind::Global(_) => false,
            Kind::Local(local) => local.0 == slot,
            Kind::Unary { arg, .. } => arg.mentions(slot),
            Kind::DynamicIndex(arg) => arg.mentions(slot),
            Kind::Binary { lhs, rhs, .. } => lhs.mentions(slot) || rhs.mentions(slot),
            Kind::Compare { lhs, rhs, .. } => lhs.mentions(slot) || rhs.mentions(slot),
            Kind::NearEq { lhs, rhs, .. } => lhs.mentions(slot) || rhs.mentions(slot),
            Kind::And { terms } => exists|i: int| 0 <= i < terms@.len() && (#[trigger] terms@[i]).mentions(slot),
            Kind::Fold { terms, .. } => exists|i: int| 0 <= i < terms@.len() && (#[trigger] terms@[i]).mentions(slot),
            Kind::Block(block) => block.mentions(slot),
            Kind::Aggregate { lower, upper, param, body, .. } => lower.mentions(slot) || upper.mentions(slot) || param.0
                == slot || body.mentions(slot),
        }
    }

    /// Whether slots are used as the front end hands them out, one binding
    /// each: a right operand binds nothing its left operand mentions, and no
    /// binding mentions itself.
    pub open spec fn hygienic(self) -> bool
        decreases self,
    {
        match self.kind {
            Kind::Literal(_) | Kind::Global(_) | Kind::Local(_) => true,
            Kind::Unary { arg, .. } => arg.hygienic(),
            Kind::DynamicIndex(arg) => arg.hygienic(),
            Kind::Binary { lhs, rhs, .. } => lhs.hygienic() && rhs.hygienic() && independent(*lhs, *rhs),
            Kind::Compare { lhs, rhs, .. } => lhs.hygienic() && rhs.hygienic() && independent(*lhs, *rhs),
            Kind::NearEq { lhs, rhs, .. } => lhs.hygienic() && rhs.hygienic() && independent(*lhs, *rhs),
            Kind::And { terms } => forall|i: int| 0 <= i < terms@.len() ==> (#[trigger] terms@[i]).hygienic(),
            Kind::Fold { terms, .. } => forall|i: int| 0 <= i < terms@.len() ==> (#[trigger] terms@[i]).hygienic(),
            Kind::Block(block) => block.hygienic(),
            Kind::Aggregate { lower, upper, body, .. } => lower.hygienic() && upper.hygienic() && body.hygienic(),
        }
    }
}

/// Whether `rhs` binds nothing that `lhs` mentions.
pub open spec fn independent(lhs: Expr, rhs: Expr) -> bool {
    forall|slot: u32| #[trigger] rhs.assigns(slot) ==> !lhs.mentions(slot)
}

impl Block {
    pub open spec fn assigns(self, slot: u32) -> bool
        decreases self,
    {
        ||| exists|i: int|
            0 <= i < self.assignments@.len() && ((#[trigger] self.assignments@[i]).slot.0 == slot
                || self.assignments@[i].value.assigns(slot))
        ||| self.result.assigns(slot)
    }

    pub open spec fn mentions(self, slot: u32) -> bool
        decreases self,
    {
        ||| exists|i: int|
            0 <= i < self.assignments@.len() && ((#[trigger] self.assignments@[i]).slot.0 == slot
                || self.assignments@[i].value.mentions(slot))
        ||| self.result.mentions(slot)
    }

    pub open spec fn hygienic(self) -> bool
        decreases self,
    {
        &&& forall|i: int|
            0 <= i < self.assignments@.len() ==> (#[trigger] self.assignments@[i]).value.hygienic()
                && !self.assignments@[i].value.mentions(self.assignments@[i].slot.0)
        &&& self.result.hygienic()
    }
}

proof fn binding_is_mentioning(e: Expr, slot: u32)
    ensures
        e.assigns(slot) ==> e.mentions(slot),
    decreases e,
{
    if e.assigns(slot) {
        match e.kind {
            Kind::Literal(_) | Kind::Global(_) | Kind::Local(_) => {},
            Kind::Unary { arg, .. } => binding_is_mentioning(*arg, slot),
            Kind::DynamicIndex(arg) => binding_is_mentioning(*arg, slot),
            Kind::Binary { lhs, rhs, .. } => {
                binding_is_mentioning(*lhs, slot);
                binding_is_mentioning(*rhs, slot);
            },
            Kind::Compare { lhs, rhs, .. } => {
                binding_is_mentioning(*lhs, slot);
                binding_is_mentioning(*rhs, slot);
            },
            Kind::NearEq { lhs, rhs, .. } => {
                binding_is_mentioning(*lhs, slot);
                binding_is_mentioning(*rhs, slot);
            },
            Kind::And { terms } => {
                let i = choose|i: int| 0 <= i < terms@.len() && (#[trigger] terms@[i]).assigns(slot);
                binding_is_mentioning(terms@[i], slot);
            },
            Kind::Fold { terms, .. } => {
                let i = choose|i: int| 0 <= i < terms@.len() && (#[trigger] terms@[i]).assigns(slot);
                binding_is_mentioning(terms@[i], slot);
            },
            Kind::Block(block) => block_binding_is_mentioning(*block, slot),
            Kind::Aggregate { lower, upper, body, .. } => {
                binding_is_mentioning(*lower, slot);
                binding_is_mentioning(*upper, slot);
                block_binding_is_mentioning(*body, slot);
            },
        }
    }
}

proof fn block_binding_is_mentioning(block: Block, slot: u32)
    ensures
        block.assigns(slot) ==> block.mentions(slot),
    decreases block,
{
    if block.assigns(slot) {
        if block.result.assigns(slot) {
            binding_is_mentioning(block.result, slot);
        } else {
            let i = choose|i: int|
                0 <= i < block.assignments@.len() && ((#[trigger] block.assignments@[i]).slot.0 == slot
                    || block.assignments@[i].value.assigns(slot));
            binding_is_mentioning(block.assignments@[i].value, slot);
        }
    }
}

/// Everything a run depends on but the tape.
pub ghost struct Setting {
    pub semantics: Semantics,
    pub positions: Seq<u32>,
    pub row: Seq<Real>,
    /// The whole tape's constants, of which a part of the tape uses a part.
    pub pool: Seq<Real>,
}

/// The register file before the first instruction: constants in place.
pub open spec fn primed(pool: Seq<Real>) -> Map<VirtualRegister, Real> {
    Map::new(
        |register: VirtualRegister| register matches VirtualRegister::Const(i) && i < pool.len(),
        |register: VirtualRegister| pool[register->Const_0 as int],
    )
}

spec fn progress(setting: Setting, state: Lowering) -> Run<VirtualRegister> {
    run(state.insns, setting.semantics, setting.row, primed(setting.pool))
}

spec fn registers(setting: Setting, state: Lowering) -> Map<VirtualRegister, Real> {
    progress(setting, state)->Running_0
}

/// A tape so far that has not faulted, and a frame, agree: every constant in
/// its place, every slot but the exempt ones as the frame has it, and every
/// load a finite row.
spec fn faithful(setting: Setting, state: Lowering, frame: Frame, exempt: Set<u16>) -> bool {
    let held = registers(setting, state);
    &&& progress(setting, state) is Running
    &&& state.insns.len() == state.spans.len()
    &&& state.assigned.len() == frame.len()
    &&& frame.len() <= 65536
    &&& 0 <= state.temps
    &&& setting.pool.len() <= 65536
    &&& setting.pool.no_duplicates()
    &&& state.pool.no_duplicates()
    &&& forall|i: u16|
        i < setting.pool.len() ==> #[trigger] held.contains_key(VirtualRegister::Const(i))
            && held[VirtualRegister::Const(i)] == setting.pool[i as int]
    &&& forall|i: u16|
        i < frame.len() && !exempt.contains(i) ==> slot_agrees(
            #[trigger] state.assigned[i as int],
            frame[i as int],
            held,
            VirtualRegister::Local(i),
        )
    &&& forall|k: int| 0 <= k < state.loads.len() ==> load_agrees(#[trigger] state.loads[k], state.temps, setting.row, held)
}

/// Whether a register is a slot that need not agree for now.
spec fn excused(exempt: Set<u16>, register: VirtualRegister) -> bool {
    register matches VirtualRegister::Local(i) && exempt.contains(i)
}

/// A destination lowering asks for: none, or a slot that need not agree.
spec fn aims(dst: Option<VirtualRegister>, exempt: Set<u16>) -> bool {
    dst is None || excused(exempt, dst->0)
}

spec fn slot_agrees(
    assigned: bool,
    value: Option<Real>,
    held: Map<VirtualRegister, Real>,
    register: VirtualRegister,
) -> bool {
    if assigned {
        value is Some && held.contains_key(register) && held[register] == value->0
    } else {
        value is None && !held.contains_key(register)
    }
}

spec fn load_agrees(load: (u32, VirtualRegister), temps: int, row: Seq<Real>, held: Map<VirtualRegister, Real>) -> bool {
    &&& load.1 matches VirtualRegister::Temp(t) && t < temps
    &&& held.contains_key(load.1)
    &&& held[load.1] == row[load.0 as int]
    &&& row[load.0 as int].finite()
}

/// A tape that has stopped, with the fault and the place of `trouble`.
spec fn stopped_with(setting: Setting, state: Lowering, trouble: Trouble) -> bool {
    match progress(setting, state) {
        Run::Running(_) => false,
        Run::Faulted { insn, kind } => {
            &&& 0 <= insn < state.insns.len()
            &&& state.insns.len() == state.spans.len()
            &&& reported(state.insns[insn], state.spans[insn], kind) == trouble
        },
    }
}

proof fn stopping_is_final(setting: Setting, earlier: Lowering, later: Lowering, trouble: Trouble)
    requires
        continues(earlier, later),
        stopped_with(setting, earlier, trouble),
    ensures
        stopped_with(setting, later, trouble),
{
    let more = later.insns.skip(earlier.insns.len() as int);
    assert(later.insns =~= earlier.insns + more);
    a_fault_is_final(earlier.insns, more, setting.semantics, setting.row, primed(setting.pool));
    let at = progress(setting, earlier)->insn;
    assert(later.insns[at] == earlier.insns[at]);
    assert(later.spans[at] == earlier.spans[at]);
}

/// What a stretch of tape leaves alone: the constants, every earlier
/// temporary, and every slot it does not write.
spec fn untouched(
    before: Map<VirtualRegister, Real>,
    after: Map<VirtualRegister, Real>,
    temps: int,
    dst: Option<VirtualRegister>,
    writes: spec_fn(u32) -> bool,
) -> bool {
    forall|register: VirtualRegister|
        kept(register, temps, dst, writes) ==> #[trigger] after.contains_key(register) == before.contains_key(register)
            && after[register] == before[register]
}

spec fn kept(register: VirtualRegister, temps: int, dst: Option<VirtualRegister>, writes: spec_fn(u32) -> bool) -> bool {
    match register {
        VirtualRegister::Const(_) => true,
        VirtualRegister::Temp(t) => t < temps,
        VirtualRegister::Local(i) => Some(register) != dst && !writes(i as u32),
    }
}

/// A register that holds a value for as long as nothing binds a slot of `e`.
spec fn stable(register: VirtualRegister, temps: int, mentions: spec_fn(u32) -> bool) -> bool {
    match register {
        VirtualRegister::Const(_) => true,
        VirtualRegister::Temp(t) => t < temps,
        VirtualRegister::Local(i) => mentions(i as u32),
    }
}

/// Whether every load since is into a temporary minted since.
spec fn fresh_loads(before: Lowering, after: Lowering) -> bool {
    &&& before.loads.is_prefix_of(after.loads)
    &&& forall|k: int|
        before.loads.len() <= k < after.loads.len() ==> ((#[trigger] after.loads[k]).1 matches VirtualRegister::Temp(t) && t
            >= before.temps)
}

proof fn leaving_alone_twice(
    first: Map<VirtualRegister, Real>,
    second: Map<VirtualRegister, Real>,
    third: Map<VirtualRegister, Real>,
    temps: int,
    more: int,
    early: Option<VirtualRegister>,
    late: Option<VirtualRegister>,
    dst: Option<VirtualRegister>,
    w1: spec_fn(u32) -> bool,
    w2: spec_fn(u32) -> bool,
    writes: spec_fn(u32) -> bool,
)
    requires
        untouched(first, second, temps, early, w1),
        untouched(second, third, more, late, w2),
        temps <= more,
        early is None || early == dst,
        late is None || late == dst,
        forall|slot: u32| #[trigger] w1(slot) ==> writes(slot),
        forall|slot: u32| #[trigger] w2(slot) ==> writes(slot),
    ensures
        untouched(first, third, temps, dst, writes),
{
    assert forall|register: VirtualRegister| kept(register, temps, dst, writes) implies #[trigger] third.contains_key(
        register,
    ) == first.contains_key(register) && third[register] == first[register] by {
        assert(kept(register, temps, early, w1));
        assert(kept(register, more, late, w2));
        assert(third.contains_key(register) == second.contains_key(register));
        assert(second.contains_key(register) == first.contains_key(register));
    }
}

/// What lowering establishes: the tape and the walk came to the same end.
spec fn agree(
    setting: Setting,
    before: Lowering,
    after: Lowering,
    register: VirtualRegister,
    dst: Option<VirtualRegister>,
    exempt: Set<u16>,
    outcome: Result<(Real, Frame), Trouble>,
    writes: spec_fn(u32) -> bool,
    mentions: spec_fn(u32) -> bool,
) -> bool {
    match outcome {
        Err(trouble) => stopped_with(setting, after, trouble),
        Ok((value, frame)) => {
            &&& faithful(setting, after, frame, exempt)
            &&& held(registers(setting, after), register) == value
            &&& dst is Some ==> register == dst->0 && registers(setting, after).contains_key(register)
            &&& dst is None ==> stable(register, after.temps, mentions)
            &&& untouched(registers(setting, before), registers(setting, after), before.temps, dst, writes)
            &&& before.temps <= after.temps
            &&& fresh_loads(before, after)
            &&& frame.len() == before.assigned.len()
        },
    }
}

/// One instruction appended that writes its destination, or faults.
proof fn writing_is_faithful(
    setting: Setting,
    state: Lowering,
    frame: Frame,
    exempt: Set<u16>,
    insn: Instruction<VirtualRegister>,
    dst: VirtualRegister,
    value: Result<Real, FaultKind>,
    span: Span,
)
    requires
        faithful(setting, state, frame, exempt),
        step(insn, setting.semantics, setting.row, registers(setting, state)) == wrote(
            registers(setting, state),
            dst,
            value,
        ),
        excused(exempt, dst) || (dst matches VirtualRegister::Temp(t) && forall|k: int|
            0 <= k < state.loads.len() ==> (#[trigger] state.loads[k]).1 != dst),
    ensures
        match value {
            Ok(value) => faithful(setting, state.emitted(insn, span), frame, exempt) && registers(
                setting,
                state.emitted(insn, span),
            ) == registers(setting, state).insert(dst, value),
            Err(kind) => stopped_with(setting, state.emitted(insn, span), reported(insn, span, kind)),
        },
{
    run_of_push(state.insns, insn, setting.semantics, setting.row, primed(setting.pool));
    let after = state.emitted(insn, span);
    match value {
        Ok(value) => {
            let held = registers(setting, state);
            let next = held.insert(dst, value);
            assert(registers(setting, after) == next);
            assert forall|i: u16| i < frame.len() && !exempt.contains(i) implies slot_agrees(
                #[trigger] after.assigned[i as int],
                frame[i as int],
                next,
                VirtualRegister::Local(i),
            ) by {
                assert(slot_agrees(state.assigned[i as int], frame[i as int], held, VirtualRegister::Local(i)));
            }
            assert forall|k: int| 0 <= k < after.loads.len() implies load_agrees(
                #[trigger] after.loads[k],
                after.temps,
                setting.row,
                next,
            ) by {
                assert(load_agrees(state.loads[k], state.temps, setting.row, held));
            }
        },
        Err(kind) => {},
    }
}

/// An instruction that computes into the destination asked for.
proof fn computing_is_faithful(
    setting: Setting,
    state: Lowering,
    frame: Frame,
    dst: Option<VirtualRegister>,
    exempt: Set<u16>,
    insn: Instruction<VirtualRegister>,
    value: Result<Real, FaultKind>,
    span: Span,
)
    requires
        faithful(setting, state, frame, exempt),
        aims(dst, exempt),
        state.target(dst).0.temps <= u32::MAX,
        step(insn, setting.semantics, setting.row, registers(setting, state)) == wrote(
            registers(setting, state),
            state.target(dst).1,
            value,
        ),
    ensures
        ({
            let (aimed, register) = state.target(dst);
            let after = aimed.emitted(insn, span);
            match value {
                Ok(value) => faithful(setting, after, frame, exempt) && registers(setting, after) == registers(
                    setting,
                    state,
                ).insert(register, value),
                Err(kind) => stopped_with(setting, after, reported(insn, span, kind)),
            }
        }),
{
    let (aimed, register) = state.target(dst);
    let held = registers(setting, state);
    assert(progress(setting, aimed) == progress(setting, state));
    assert(faithful(setting, aimed, frame, exempt)) by {
        assert forall|i: u16| i < frame.len() && !exempt.contains(i) implies slot_agrees(
            #[trigger] aimed.assigned[i as int],
            frame[i as int],
            held,
            VirtualRegister::Local(i),
        ) by {
            assert(slot_agrees(state.assigned[i as int], frame[i as int], held, VirtualRegister::Local(i)));
        }
        assert forall|k: int| 0 <= k < aimed.loads.len() implies load_agrees(
            #[trigger] aimed.loads[k],
            aimed.temps,
            setting.row,
            held,
        ) by {
            assert(load_agrees(state.loads[k], state.temps, setting.row, held));
        }
    }
    assert forall|k: int| 0 <= k < aimed.loads.len() implies (#[trigger] aimed.loads[k]).1 != register by {
        assert(load_agrees(state.loads[k], state.temps, setting.row, held));
    }
    writing_is_faithful(setting, aimed, frame, exempt, insn, register, value, span);
}

/// A value that already lives in a register, delivered.
proof fn placing_is_faithful(
    setting: Setting,
    before: Lowering,
    state: Lowering,
    frame: Frame,
    dst: Option<VirtualRegister>,
    exempt: Set<u16>,
    register: VirtualRegister,
    value: Real,
    span: Span,
    writes: spec_fn(u32) -> bool,
    mentions: spec_fn(u32) -> bool,
)
    requires
        faithful(setting, state, frame, exempt),
        aims(dst, exempt),
        held(registers(setting, state), register) == value,
        stable(register, state.temps, mentions),
        !excused(exempt, register),
        untouched(registers(setting, before), registers(setting, state), before.temps, None, writes),
        before.temps <= state.temps <= u32::MAX,
        fresh_loads(before, state),
        frame.len() == before.assigned.len(),
    ensures
        ({
            let (after, result) = state.placed(register, dst, span);
            agree(setting, before, after, result, dst, exempt, Ok((value, frame)), writes, mentions)
        }),
{
    if dst is Some {
        let insn = Instruction::Copy { dst: dst->0, src: register };
        writing_is_faithful(setting, state, frame, exempt, insn, dst->0, Ok(value), span);
        let after = state.emitted(insn, span);
        leaving_alone_twice(
            registers(setting, before),
            registers(setting, state),
            registers(setting, after),
            before.temps,
            state.temps,
            None,
            dst,
            dst,
            writes,
            |slot: u32| false,
            writes,
        );
    }
}

/// An instruction computed from operands already lowered, as the end of a node.
proof fn finishing_is_faithful(
    setting: Setting,
    before: Lowering,
    state: Lowering,
    frame: Frame,
    dst: Option<VirtualRegister>,
    exempt: Set<u16>,
    insn: Instruction<VirtualRegister>,
    value: Result<Real, FaultKind>,
    span: Span,
    writes: spec_fn(u32) -> bool,
    mentions: spec_fn(u32) -> bool,
)
    requires
        faithful(setting, state, frame, exempt),
        aims(dst, exempt),
        state.target(dst).0.temps <= u32::MAX,
        step(insn, setting.semantics, setting.row, registers(setting, state)) == wrote(
            registers(setting, state),
            state.target(dst).1,
            value,
        ),
        untouched(registers(setting, before), registers(setting, state), before.temps, None, writes),
        before.temps <= state.temps,
        fresh_loads(before, state),
        frame.len() == before.assigned.len(),
    ensures
        ({
            let (aimed, register) = state.target(dst);
            let after = aimed.emitted(insn, span);
            match value {
                Ok(value) => agree(
                    setting,
                    before,
                    after,
                    register,
                    dst,
                    exempt,
                    Ok((value, frame)),
                    writes,
                    mentions,
                ),
                Err(kind) => stopped_with(setting, after, reported(insn, span, kind)),
            }
        }),
{
    let (aimed, register) = state.target(dst);
    let after = aimed.emitted(insn, span);
    computing_is_faithful(setting, state, frame, dst, exempt, insn, value, span);
    if value is Ok {
        leaving_alone_twice(
            registers(setting, before),
            registers(setting, state),
            registers(setting, after),
            before.temps,
            state.temps,
            None,
            dst,
            dst,
            writes,
            |slot: u32| false,
            writes,
        );
    }
}

spec fn spared(exempt: Set<u16>, mentions: spec_fn(u32) -> bool) -> bool {
    forall|i: u16| #[trigger] exempt.contains(i) ==> !mentions(i as u32)
}

/// What has to hold before `e` is lowered.
spec fn ready(
    setting: Setting,
    e: Expr,
    dst: Option<VirtualRegister>,
    exempt: Set<u16>,
    state: Lowering,
    frame: Frame,
) -> bool {
    let after = lower(e, setting.positions, dst, state).0;
    &&& faithful(setting, state, frame, exempt)
    &&& aims(dst, exempt)
    &&& spared(exempt, |slot: u32| e.mentions(slot))
    &&& e.lowerable(setting.positions.len() as int, frame.len() as int)
    &&& e.hygienic()
    &&& after.pool.is_prefix_of(setting.pool)
    &&& after.temps <= u32::MAX
}

proof fn pooling_is_faithful(setting: Setting, state: Lowering, frame: Frame, exempt: Set<u16>, value: Real)
    requires
        faithful(setting, state, frame, exempt),
        state.pooled(value).pool.is_prefix_of(setting.pool),
    ensures
        faithful(setting, state.pooled(value), frame, exempt),
        registers(setting, state.pooled(value)) == registers(setting, state),
        held(registers(setting, state), pool_register(state.pooled(value).pool, value)) == value,
        pool_register(state.pooled(value).pool, value) is Const,
{
    pooling_continues(state, value);
    let after = state.pooled(value);
    let at = after.pool.index_of(value);
    assert(0 <= at < after.pool.len() && after.pool[at] == value);
    assert(setting.pool[at] == value);
    assert(registers(setting, state).contains_key(VirtualRegister::Const(at as u16)));
    let now = registers(setting, state);
    assert(progress(setting, after) == progress(setting, state));
    assert forall|i: u16| i < frame.len() && !exempt.contains(i) implies slot_agrees(
        #[trigger] after.assigned[i as int],
        frame[i as int],
        now,
        VirtualRegister::Local(i),
    ) by {
        assert(slot_agrees(state.assigned[i as int], frame[i as int], now, VirtualRegister::Local(i)));
    }
    assert forall|k: int| 0 <= k < after.loads.len() implies load_agrees(
        #[trigger] after.loads[k],
        after.temps,
        setting.row,
        now,
    ) by {
        assert(load_agrees(state.loads[k], state.temps, setting.row, now));
    }
}

proof fn loading_is_faithful(
    setting: Setting,
    state: Lowering,
    frame: Frame,
    exempt: Set<u16>,
    input: u32,
    span: Span,
)
    requires
        faithful(setting, state, frame, exempt),
        state.loaded(input, span).0.temps <= u32::MAX,
    ensures
        ({
            let (after, register) = state.loaded(input, span);
            let value = setting.row[input as int];
            &&& continues(state, after)
            &&& if value.finite() {
                &&& faithful(setting, after, frame, exempt)
                &&& held(registers(setting, after), register) == value
                &&& (register matches VirtualRegister::Temp(t) && t < after.temps)
                &&& untouched(registers(setting, state), registers(setting, after), state.temps, None, |slot: u32| false)
                &&& fresh_loads(state, after)
            } else {
                stopped_with(setting, after, Trouble { kind: FaultKind::NonFinite(value), span })
            }
        }),
{
    let (after, register) = state.loaded(input, span);
    let value = setting.row[input as int];
    let now = registers(setting, state);
    if state.has_loaded(input) {
        let k = load_index(state.loads, input);
        assert(0 <= k < state.loads.len() && state.loads[k].0 == input);
        assert(load_agrees(state.loads[k], state.temps, setting.row, now));
    } else {
        let insn = Instruction::Load { dst: register, input };
        computing_is_faithful(setting, state, frame, None, exempt, insn, checked(value), span);
        let emitted = state.fresh().0.emitted(insn, span);
        if value.finite() {
            let next = registers(setting, emitted);
            assert(progress(setting, after) == progress(setting, emitted));
            assert forall|i: u16| i < frame.len() && !exempt.contains(i) implies slot_agrees(
                #[trigger] after.assigned[i as int],
                frame[i as int],
                next,
                VirtualRegister::Local(i),
            ) by {
                assert(slot_agrees(emitted.assigned[i as int], frame[i as int], next, VirtualRegister::Local(i)));
            }
            assert forall|k: int| 0 <= k < after.loads.len() implies load_agrees(
                #[trigger] after.loads[k],
                after.temps,
                setting.row,
                next,
            ) by {
                if k < state.loads.len() {
                    assert(load_agrees(emitted.loads[k], emitted.temps, setting.row, next));
                }
            }
            assert(faithful(setting, after, frame, exempt));
        } else {
            assert(stopped_with(setting, emitted, reported(insn, span, FaultKind::NonFinite(value))));
            assert(progress(setting, after) == progress(setting, emitted));
        }
    }
}

/// The five instructions of a near equality.
proof fn near_is_faithful(
    setting: Setting,
    before: Lowering,
    state: Lowering,
    frame: Frame,
    dst: Option<VirtualRegister>,
    exempt: Set<u16>,
    a: VirtualRegister,
    b: VirtualRegister,
    left: Real,
    right: Real,
    tolerance: Real,
    span: Span,
    writes: spec_fn(u32) -> bool,
    mentions: spec_fn(u32) -> bool,
)
    requires
        faithful(setting, state, frame, exempt),
        aims(dst, exempt),
        lower_near(state, a, b, tolerance, dst, span).0.temps <= u32::MAX,
        lower_near(state, a, b, tolerance, dst, span).0.pool.is_prefix_of(setting.pool),
        held(registers(setting, state), a) == left,
        held(registers(setting, state), b) == right,
        a matches VirtualRegister::Temp(t) ==> t < state.temps,
        b matches VirtualRegister::Temp(t) ==> t < state.temps,
        untouched(registers(setting, before), registers(setting, state), before.temps, None, writes),
        before.temps <= state.temps,
        fresh_loads(before, state),
        frame.len() == before.assigned.len(),
    ensures
        ({
            let (after, register) = lower_near(state, a, b, tolerance, dst, span);
            agree(
                setting,
                before,
                after,
                register,
                dst,
                exempt,
                near(setting.semantics, left, right, tolerance, frame, span),
                writes,
                mentions,
            )
        }),
{
    let (last, register) = lower_near(state, a, b, tolerance, dst, span);
    let arithmetic = setting.semantics.arithmetic;
    let s0 = state.pooled(tolerance);
    pooling_is_faithful(setting, state, frame, exempt, tolerance);
    let margin = pool_register(s0.pool, tolerance);
    let low = arithmetic.minus(right, tolerance);
    let high = arithmetic.plus(right, tolerance);
    let (f1, floor) = s0.fresh();
    let i1 = Instruction::Binary { dst: floor, op: crate::ast::BinaryOp::Sub, a: b, b: margin };
    let s1 = f1.emitted(i1, span);
    let (f2, ceiling) = s1.fresh();
    let i2 = Instruction::Binary { dst: ceiling, op: crate::ast::BinaryOp::Add, a: b, b: margin };
    let s2 = f2.emitted(i2, span);
    let (f3, at_least) = s2.fresh();
    let i3 = Instruction::Compare { dst: at_least, op: crate::ast::CompareOp::Gte, a, b: floor };
    let s3 = f3.emitted(i3, span);
    let (f4, at_most) = s3.fresh();
    let i4 = Instruction::Compare { dst: at_most, op: crate::ast::CompareOp::Lte, a, b: ceiling };
    let s4 = f4.emitted(i4, span);
    let (f5, target) = s4.target(dst);
    let i5 = Instruction::Combine { dst: target, how: Accumulate::Worst, a: at_least, b: at_most, last: true };
    assert(last == f5.emitted(i5, span));
    assert(continues(s4, last));
    assert(continues(s3, s4));
    assert(continues(s2, s3));
    assert(continues(s1, s2));
    computing_is_faithful(setting, s0, frame, None, exempt, i1, checked(low), span);
    if !low.finite() {
        let trouble = reported(i1, span, FaultKind::NonFinite(low));
        stopping_is_final(setting, s1, s2, trouble);
        stopping_is_final(setting, s2, s3, trouble);
        stopping_is_final(setting, s3, s4, trouble);
        stopping_is_final(setting, s4, last, trouble);
        return;
    }
    computing_is_faithful(setting, s1, frame, None, exempt, i2, checked(high), span);
    if !high.finite() {
        let trouble = reported(i2, span, FaultKind::NonFinite(high));
        stopping_is_final(setting, s2, s3, trouble);
        stopping_is_final(setting, s3, s4, trouble);
        stopping_is_final(setting, s4, last, trouble);
        return;
    }
    let under = (setting.semantics.residual)(crate::ast::CompareOp::Gte, left, low);
    let over = (setting.semantics.residual)(crate::ast::CompareOp::Lte, left, high);
    computing_is_faithful(setting, s2, frame, None, exempt, i3, checked(under), span);
    if !under.finite() {
        let trouble = reported(i3, span, FaultKind::NonFinite(under));
        stopping_is_final(setting, s3, s4, trouble);
        stopping_is_final(setting, s4, last, trouble);
        return;
    }
    computing_is_faithful(setting, s3, frame, None, exempt, i4, checked(over), span);
    if !over.finite() {
        let trouble = reported(i4, span, FaultKind::NonFinite(over));
        stopping_is_final(setting, s4, last, trouble);
        return;
    }
    assert(untouched(registers(setting, state), registers(setting, s4), state.temps, None, |slot: u32| false));
    leaving_alone_twice(
        registers(setting, before),
        registers(setting, state),
        registers(setting, s4),
        before.temps,
        state.temps,
        None,
        None,
        None,
        writes,
        |slot: u32| false,
        writes,
    );
    finishing_is_faithful(
        setting,
        before,
        s4,
        frame,
        dst,
        exempt,
        i5,
        checked(under.larger(over)),
        span,
        writes,
        mentions,
    );
}

/// Lowering an expression keeps its meaning.
#[verifier::rlimit(60)]
proof fn lowering_is_faithful(
    setting: Setting,
    e: Expr,
    dst: Option<VirtualRegister>,
    exempt: Set<u16>,
    state: Lowering,
    frame: Frame,
)
    requires
        ready(setting, e, dst, exempt, state, frame),
    ensures
        agree(
            setting,
            state,
            lower(e, setting.positions, dst, state).0,
            lower(e, setting.positions, dst, state).1,
            dst,
            exempt,
            evaluate(e, setting.semantics, setting.positions, setting.row, frame),
            |slot: u32| e.assigns(slot),
            |slot: u32| e.mentions(slot),
        ),
    decreases e, 3nat, 0nat,
{
    let span = e.span;
    let writes = |slot: u32| e.assigns(slot);
    let mentions = |slot: u32| e.mentions(slot);
    let (after, result) = lower(e, setting.positions, dst, state);
    lowering_continues(e, setting.positions, dst, state);
    match e.kind {
        Kind::Literal(value) => {
            let pooled = state.pooled(value);
            let register = pool_register(pooled.pool, value);
            pooling_is_faithful(setting, state, frame, exempt, value);
            placing_is_faithful(setting, state, pooled, frame, dst, exempt, register, value, span, writes, mentions);
        },
        Kind::Global(id) => {
            let input = setting.positions[id.0 as int];
            let value = setting.row[input as int];
            let (loaded, register) = state.loaded(input, span);
            loading_is_faithful(setting, state, frame, exempt, input, span);
            if value.finite() {
                leaving_alone_twice(
                    registers(setting, state),
                    registers(setting, loaded),
                    registers(setting, loaded),
                    state.temps,
                    loaded.temps,
                    None,
                    None,
                    None,
                    |slot: u32| false,
                    |slot: u32| false,
                    writes,
                );
                placing_is_faithful(setting, state, loaded, frame, dst, exempt, register, value, span, writes, mentions);
            } else {
                assert(continues(loaded, after));
                stopping_is_final(setting, loaded, after, Trouble { kind: FaultKind::NonFinite(value), span });
            }
        },
        Kind::Local(slot) => {
            let register = local_register(slot);
            assert(mentions(slot.0));
            assert(slot_agrees(
                state.assigned[slot.0 as u16 as int],
                frame[slot.0 as int],
                registers(setting, state),
                VirtualRegister::Local(slot.0 as u16),
            ));
            if state.assigned[slot.0 as int] {
                placing_is_faithful(
                    setting,
                    state,
                    state,
                    frame,
                    dst,
                    exempt,
                    register,
                    frame[slot.0 as int]->0,
                    span,
                    writes,
                    mentions,
                );
            } else {
                let insn = Instruction::Check { reg: register };
                let emitted = state.emitted(insn, span);
                run_of_push(state.insns, insn, setting.semantics, setting.row, primed(setting.pool));
                assert(held(registers(setting, state), register) == nan());
                let trouble = Trouble { kind: FaultKind::NonFinite(nan()), span };
                assert(stopped_with(setting, emitted, trouble));
                assert(continues(emitted, after));
                stopping_is_final(setting, emitted, after, trouble);
            }
        },
        Kind::DynamicIndex(subscript) => {
            let (s1, index) = lower(*subscript, setting.positions, None, state);
            assert(ready(setting, *subscript, None, exempt, state, frame));
            lowering_is_faithful(setting, *subscript, None, exempt, state, frame);
            let (aimed, register) = s1.target(dst);
            let insn = Instruction::Gather { dst: register, index, subscript: subscript.span };
            assert(continues(s1, after));
            match evaluate(*subscript, setting.semantics, setting.positions, setting.row, frame) {
                Err(trouble) => stopping_is_final(setting, s1, after, trouble),
                Ok((value, next)) => {
                    widening(setting, state, s1, |slot: u32| subscript.assigns(slot), writes);
                    finishing_is_faithful(
                        setting,
                        state,
                        s1,
                        next,
                        dst,
                        exempt,
                        insn,
                        crate::semantics::gathered(setting.row, value),
                        span,
                        writes,
                        mentions,
                    );
                },
            }
        },
        Kind::Unary { op, arg } => {
            let (s1, a) = lower(*arg, setting.positions, None, state);
            assert(ready(setting, *arg, None, exempt, state, frame));
            lowering_is_faithful(setting, *arg, None, exempt, state, frame);
            let (aimed, register) = s1.target(dst);
            let insn = Instruction::Unary { dst: register, op, a };
            assert(continues(s1, after));
            match evaluate(*arg, setting.semantics, setting.positions, setting.row, frame) {
                Err(trouble) => stopping_is_final(setting, s1, after, trouble),
                Ok((value, next)) => {
                    widening(setting, state, s1, |slot: u32| arg.assigns(slot), writes);
                    finishing_is_faithful(
                        setting,
                        state,
                        s1,
                        next,
                        dst,
                        exempt,
                        insn,
                        checked(op.value(setting.semantics.arithmetic, value)),
                        span,
                        writes,
                        mentions,
                    );
                },
            }
        },
        Kind::Binary { op, lhs, rhs } => {
            let (s1, a) = lower(*lhs, setting.positions, None, state);
            let (s2, b) = lower(*rhs, setting.positions, None, s1);
            lowering_continues(*lhs, setting.positions, None, state);
            lowering_continues(*rhs, setting.positions, None, s1);
            let (aimed, register) = s2.target(dst);
            let insn = Instruction::Binary { dst: register, op, a, b };
            assert(continues(s2, after));
            operands_are_faithful(setting, e, *lhs, *rhs, exempt, state, frame);
            match evaluate(*lhs, setting.semantics, setting.positions, setting.row, frame) {
                Err(trouble) => stopping_is_final(setting, s2, after, trouble),
                Ok((x, middle)) => match evaluate(*rhs, setting.semantics, setting.positions, setting.row, middle) {
                    Err(trouble) => stopping_is_final(setting, s2, after, trouble),
                    Ok((y, next)) => {
                        widening(setting, state, s2, |slot: u32| lhs.assigns(slot) || rhs.assigns(slot), writes);
                        finishing_is_faithful(
                            setting,
                            state,
                            s2,
                            next,
                            dst,
                            exempt,
                            insn,
                            checked(op.value(setting.semantics.arithmetic, x, y)),
                            span,
                            writes,
                            mentions,
                        );
                    },
                },
            }
        },
        Kind::Compare { op, lhs, rhs } => {
            let (s1, a) = lower(*lhs, setting.positions, None, state);
            let (s2, b) = lower(*rhs, setting.positions, None, s1);
            lowering_continues(*lhs, setting.positions, None, state);
            lowering_continues(*rhs, setting.positions, None, s1);
            let (aimed, register) = s2.target(dst);
            let insn = Instruction::Compare { dst: register, op, a, b };
            assert(continues(s2, after));
            operands_are_faithful(setting, e, *lhs, *rhs, exempt, state, frame);
            match evaluate(*lhs, setting.semantics, setting.positions, setting.row, frame) {
                Err(trouble) => stopping_is_final(setting, s2, after, trouble),
                Ok((x, middle)) => match evaluate(*rhs, setting.semantics, setting.positions, setting.row, middle) {
                    Err(trouble) => stopping_is_final(setting, s2, after, trouble),
                    Ok((y, next)) => {
                        widening(setting, state, s2, |slot: u32| lhs.assigns(slot) || rhs.assigns(slot), writes);
                        finishing_is_faithful(
                            setting,
                            state,
                            s2,
                            next,
                            dst,
                            exempt,
                            insn,
                            checked((setting.semantics.residual)(op, x, y)),
                            span,
                            writes,
                            mentions,
                        );
                    },
                },
            }
        },
        Kind::NearEq { lhs, rhs, tolerance } => {
            let (s1, a) = lower(*lhs, setting.positions, None, state);
            let (s2, b) = lower(*rhs, setting.positions, None, s1);
            lowering_continues(*lhs, setting.positions, None, state);
            lowering_continues(*rhs, setting.positions, None, s1);
            pooling_continues(s2, tolerance);
            assert(continues(s2, after));
            operands_are_faithful(setting, e, *lhs, *rhs, exempt, state, frame);
            match evaluate(*lhs, setting.semantics, setting.positions, setting.row, frame) {
                Err(trouble) => stopping_is_final(setting, s2, after, trouble),
                Ok((x, middle)) => match evaluate(*rhs, setting.semantics, setting.positions, setting.row, middle) {
                    Err(trouble) => stopping_is_final(setting, s2, after, trouble),
                    Ok((y, next)) => {
                        widening(setting, state, s2, |slot: u32| lhs.assigns(slot) || rhs.assigns(slot), writes);
                        near_is_faithful(
                            setting,
                            state,
                            s2,
                            next,
                            dst,
                            exempt,
                            a,
                            b,
                            x,
                            y,
                            tolerance,
                            span,
                            writes,
                            mentions,
                        );
                    },
                },
            }
        },
        Kind::Fold { kind, terms } => fold_is_faithful(
            setting,
            e,
            terms@,
            Accumulate::from_aggregate(kind),
            dst,
            exempt,
            state,
            frame,
        ),
        Kind::And { terms } => fold_is_faithful(setting, e, terms@, Accumulate::Worst, dst, exempt, state, frame),
        Kind::Block(block) => {
            assert(block_ready(setting, *block, dst, exempt, state, frame)) by {
                assert forall|i: u16| exempt.contains(i) implies !mentions(i as u32) by {}
            }
            block_is_faithful(setting, *block, dst, exempt, state, frame);
            assert(agree(
                setting,
                state,
                after,
                result,
                dst,
                exempt,
                evaluate_block(*block, setting.semantics, setting.positions, setting.row, frame),
                |slot: u32| block.assigns(slot),
                |slot: u32| block.mentions(slot),
            ));
            relabelling(
                setting,
                state,
                after,
                result,
                dst,
                exempt,
                evaluate_block(*block, setting.semantics, setting.positions, setting.row, frame),
                |slot: u32| block.assigns(slot),
                |slot: u32| block.mentions(slot),
                writes,
                mentions,
            );
        },
        Kind::Aggregate { .. } => {},
    }
}

/// A larger set of writes leaves fewer registers alone.
proof fn widening(
    setting: Setting,
    before: Lowering,
    after: Lowering,
    narrow: spec_fn(u32) -> bool,
    wide: spec_fn(u32) -> bool,
)
    requires
        untouched(registers(setting, before), registers(setting, after), before.temps, None, narrow),
        forall|slot: u32| #[trigger] narrow(slot) ==> wide(slot),
    ensures
        untouched(registers(setting, before), registers(setting, after), before.temps, None, wide),
{
    let first = registers(setting, before);
    let second = registers(setting, after);
    assert forall|register: VirtualRegister| kept(register, before.temps, None, wide) implies #[trigger] second.contains_key(
        register,
    ) == first.contains_key(register) && second[register] == first[register] by {
        assert(kept(register, before.temps, None, narrow));
        assert(second.contains_key(register) == first.contains_key(register));
    }
}

/// Agreement does not depend on how the sets of slots are written.
proof fn relabelling(
    setting: Setting,
    before: Lowering,
    after: Lowering,
    register: VirtualRegister,
    dst: Option<VirtualRegister>,
    exempt: Set<u16>,
    outcome: Result<(Real, Frame), Trouble>,
    w1: spec_fn(u32) -> bool,
    m1: spec_fn(u32) -> bool,
    w2: spec_fn(u32) -> bool,
    m2: spec_fn(u32) -> bool,
)
    requires
        agree(setting, before, after, register, dst, exempt, outcome, w1, m1),
        forall|slot: u32| #[trigger] w1(slot) ==> w2(slot),
        forall|slot: u32| #[trigger] m1(slot) ==> m2(slot),
    ensures
        agree(setting, before, after, register, dst, exempt, outcome, w2, m2),
{
    if outcome is Ok {
        assert forall|r: VirtualRegister| kept(r, before.temps, dst, w2) implies #[trigger] registers(
            setting,
            after,
        ).contains_key(r) == registers(setting, before).contains_key(r) && registers(setting, after)[r] == registers(
            setting,
            before,
        )[r] by {
            assert(kept(r, before.temps, dst, w1));
        }
    }
}

/// Two operands, left then right: both values are in their registers at the
/// end, since the right one binds nothing the left one mentions.
proof fn operands_are_faithful(
    setting: Setting,
    e: Expr,
    lhs: Expr,
    rhs: Expr,
    exempt: Set<u16>,
    state: Lowering,
    frame: Frame,
)
    requires
        decreases_to!(e => lhs),
        decreases_to!(e => rhs),
        faithful(setting, state, frame, exempt),
        spared(exempt, |slot: u32| lhs.mentions(slot) || rhs.mentions(slot)),
        lhs.lowerable(setting.positions.len() as int, frame.len() as int),
        rhs.lowerable(setting.positions.len() as int, frame.len() as int),
        lhs.hygienic(),
        rhs.hygienic(),
        independent(lhs, rhs),
        ({
            let s1 = lower(lhs, setting.positions, None, state).0;
            let s2 = lower(rhs, setting.positions, None, s1).0;
            s2.pool.is_prefix_of(setting.pool) && s2.temps <= u32::MAX
        }),
    ensures
        ({
            let (s1, a) = lower(lhs, setting.positions, None, state);
            let (s2, b) = lower(rhs, setting.positions, None, s1);
            match evaluate(lhs, setting.semantics, setting.positions, setting.row, frame) {
                Err(trouble) => stopped_with(setting, s2, trouble),
                Ok((x, middle)) => match evaluate(rhs, setting.semantics, setting.positions, setting.row, middle) {
                    Err(trouble) => stopped_with(setting, s2, trouble),
                    Ok((y, next)) => {
                        &&& faithful(setting, s2, next, exempt)
                        &&& held(registers(setting, s2), a) == x
                        &&& held(registers(setting, s2), b) == y
                        &&& a matches VirtualRegister::Temp(t) ==> t < s2.temps
                        &&& b matches VirtualRegister::Temp(t) ==> t < s2.temps
                        &&& untouched(
                            registers(setting, state),
                            registers(setting, s2),
                            state.temps,
                            None,
                            |slot: u32| lhs.assigns(slot) || rhs.assigns(slot),
                        )
                        &&& state.temps <= s2.temps
                        &&& fresh_loads(state, s2)
                        &&& next.len() == state.assigned.len()
                    },
                },
            }
        }),
    decreases e, 2nat, 0nat,
{
    let (s1, a) = lower(lhs, setting.positions, None, state);
    let (s2, b) = lower(rhs, setting.positions, None, s1);
    lowering_continues(lhs, setting.positions, None, state);
    lowering_continues(rhs, setting.positions, None, s1);
    assert(ready(setting, lhs, None, exempt, state, frame)) by {
        let both = |slot: u32| lhs.mentions(slot) || rhs.mentions(slot);
            assert forall|i: u16| exempt.contains(i) implies !both(i as u32) by {}
    }
    lowering_is_faithful(setting, lhs, None, exempt, state, frame);
    match evaluate(lhs, setting.semantics, setting.positions, setting.row, frame) {
        Err(trouble) => stopping_is_final(setting, s1, s2, trouble),
        Ok((x, middle)) => {
            assert(ready(setting, rhs, None, exempt, s1, middle)) by {
                let both = |slot: u32| lhs.mentions(slot) || rhs.mentions(slot);
                    assert forall|i: u16| exempt.contains(i) implies !both(i as u32) by {}
            }
            lowering_is_faithful(setting, rhs, None, exempt, s1, middle);
            match evaluate(rhs, setting.semantics, setting.positions, setting.row, middle) {
                Err(trouble) => {},
                Ok((y, next)) => {
                    let w1 = |slot: u32| lhs.assigns(slot);
                    let w2 = |slot: u32| rhs.assigns(slot);
                    let both = |slot: u32| lhs.assigns(slot) || rhs.assigns(slot);
                    leaving_alone_twice(
                        registers(setting, state),
                        registers(setting, s1),
                        registers(setting, s2),
                        state.temps,
                        s1.temps,
                        None,
                        None,
                        None,
                        w1,
                        w2,
                        both,
                    );
                    assert(kept(a, s1.temps, None, w2));
                    assert(registers(setting, s2).contains_key(a) == registers(setting, s1).contains_key(a));
                    loads_stay_fresh(state, s1, s2);
                },
            }
        },
    }
}

proof fn loads_stay_fresh(a: Lowering, b: Lowering, c: Lowering)
    requires
        fresh_loads(a, b),
        fresh_loads(b, c),
        a.temps <= b.temps,
    ensures
        fresh_loads(a, c),
{
    assert forall|k: int| a.loads.len() <= k < c.loads.len() implies ((#[trigger] c.loads[k]).1 matches VirtualRegister::Temp(
        t,
    ) && t >= a.temps) by {
        if k < b.loads.len() {
            assert(c.loads[k] == b.loads[k]);
        }
    }
}

/// What holds between two terms of a fold: the accumulator has the value so
/// far.
spec fn accumulating(
    setting: Setting,
    before: Lowering,
    after: Lowering,
    accumulator: VirtualRegister,
    dst: Option<VirtualRegister>,
    exempt: Set<u16>,
    started: bool,
    value: Real,
    frame: Frame,
    writes: spec_fn(u32) -> bool,
) -> bool {
    &&& faithful(setting, after, frame, exempt)
    &&& started ==> registers(setting, after).contains_key(accumulator) && registers(setting, after)[accumulator] == value
    &&& untouched(registers(setting, before), registers(setting, after), before.temps, dst, writes)
    &&& before.temps <= after.temps
    &&& fresh_loads(before, after)
    &&& frame.len() == before.assigned.len()
    &&& usable(after, accumulator, exempt)
}

/// An accumulator: the exempt slot, or a temporary no load is in.
spec fn usable(state: Lowering, accumulator: VirtualRegister, exempt: Set<u16>) -> bool {
    ||| excused(exempt, accumulator)
    ||| {
        &&& (accumulator matches VirtualRegister::Temp(t) && t < state.temps)
        &&& forall|k: int| 0 <= k < state.loads.len() ==> (#[trigger] state.loads[k]).1 != accumulator
    }
}

/// Whether `whole` mentions and binds everything that `part` does.
spec fn part_of(whole: Expr, part: Expr) -> bool {
    &&& forall|slot: u32| #[trigger] part.mentions(slot) ==> whole.mentions(slot)
    &&& forall|slot: u32| #[trigger] part.assigns(slot) ==> whole.assigns(slot)
}

/// One term of a fold, and the step that takes it in.
proof fn term_is_faithful(
    setting: Setting,
    e: Expr,
    term: Expr,
    how: Accumulate,
    identity: VirtualRegister,
    accumulator: VirtualRegister,
    first: bool,
    last: bool,
    dst: Option<VirtualRegister>,
    exempt: Set<u16>,
    start: Lowering,
    before: Lowering,
    sofar: Real,
    frame: Frame,
)
    requires
        decreases_to!(e => term),
        accumulating(setting, start, before, accumulator, dst, exempt, !first, sofar, frame, |slot: u32| e.assigns(slot)),
        first ==> sofar == how.identity() && identity is Const && held(registers(setting, before), identity) == sofar,
        aims(dst, exempt),
        Some(accumulator) == dst || (accumulator matches VirtualRegister::Temp(t) && t >= start.temps),
        spared(exempt, |slot: u32| e.mentions(slot)),
        part_of(e, term),
        term.lowerable(setting.positions.len() as int, frame.len() as int),
        term.hygienic(),
        lower(term, setting.positions, None, before).0.pool.is_prefix_of(setting.pool),
        lower(term, setting.positions, None, before).0.temps <= u32::MAX,
    ensures
        ({
            let (state, b) = lower(term, setting.positions, None, before);
            let a = if first {
                identity
            } else {
                accumulator
            };
            let after = state.emitted(Instruction::Combine { dst: accumulator, how, a, b, last }, e.span);
            match evaluate(term, setting.semantics, setting.positions, setting.row, frame) {
                Err(trouble) => stopped_with(setting, after, trouble),
                Ok((value, next)) => {
                    let total = how.value(setting.semantics.arithmetic, sofar, value);
                    if last && !total.finite() {
                        stopped_with(setting, after, Trouble { kind: FaultKind::NonFinite(total), span: e.span })
                    } else {
                        accumulating(
                            setting,
                            start,
                            after,
                            accumulator,
                            dst,
                            exempt,
                            true,
                            total,
                            next,
                            |slot: u32| e.assigns(slot),
                        )
                    }
                },
            }
        }),
    decreases e, 1nat, 0nat,
{
    let (state, b) = lower(term, setting.positions, None, before);
    let a = if first {
        identity
    } else {
        accumulator
    };
    let insn = Instruction::Combine { dst: accumulator, how, a, b, last };
    let after = state.emitted(insn, e.span);
    let w = |slot: u32| e.assigns(slot);
    let m = |slot: u32| e.mentions(slot);
    lowering_continues(term, setting.positions, None, before);
    assert(ready(setting, term, None, exempt, before, frame)) by {
        assert forall|i: u16| exempt.contains(i) implies !m(i as u32) by {}
    }
    lowering_is_faithful(setting, term, None, exempt, before, frame);
    match evaluate(term, setting.semantics, setting.positions, setting.row, frame) {
        Err(trouble) => {
            assert(continues(state, after));
            stopping_is_final(setting, state, after, trouble);
        },
        Ok((value, next)) => {
            let tw = |slot: u32| term.assigns(slot);
            assert(kept(a, before.temps, None, tw)) by {
                if excused(exempt, a) {
                    let slot = a->Local_0 as u32;
                    assert(exempt.contains(a->Local_0));
                    assert(!m(slot));
                    binding_is_mentioning(term, slot);
                    assert(!term.mentions(slot));
                }
            }
            assert(registers(setting, state).contains_key(a) == registers(setting, before).contains_key(a));
            let total = how.value(setting.semantics.arithmetic, sofar, value);
            let written = if last {
                checked(total)
            } else {
                Ok(total)
            };
            assert(usable(state, accumulator, exempt)) by {
                if !excused(exempt, accumulator) {
                    assert forall|k: int| 0 <= k < state.loads.len() implies (#[trigger] state.loads[k]).1 != accumulator by {
                        if k < before.loads.len() {
                            assert(state.loads[k] == before.loads[k]);
                        }
                    }
                }
            }
            writing_is_faithful(setting, state, next, exempt, insn, accumulator, written, e.span);
            if written is Ok {
                leaving_alone_twice(
                    registers(setting, start),
                    registers(setting, before),
                    registers(setting, state),
                    start.temps,
                    before.temps,
                    dst,
                    None,
                    dst,
                    w,
                    tw,
                    w,
                );
                assert(untouched(
                    registers(setting, state),
                    registers(setting, after),
                    start.temps,
                    dst,
                    |slot: u32| false,
                ));
                leaving_alone_twice(
                    registers(setting, start),
                    registers(setting, state),
                    registers(setting, after),
                    start.temps,
                    start.temps,
                    dst,
                    dst,
                    dst,
                    w,
                    |slot: u32| false,
                    w,
                );
                loads_stay_fresh(start, before, state);
                assert(fresh_loads(start, after));
            }
        },
    }
}

/// The terms of a fold before the last.
proof fn terms_are_faithful(
    setting: Setting,
    e: Expr,
    terms: Seq<Expr>,
    count: int,
    how: Accumulate,
    identity: VirtualRegister,
    accumulator: VirtualRegister,
    dst: Option<VirtualRegister>,
    exempt: Set<u16>,
    start: Lowering,
    state: Lowering,
    frame: Frame,
)
    requires
        terms.len() < count,
        forall|i: int| 0 <= i < terms.len() ==> decreases_to!(e => #[trigger] terms[i]),
        accumulating(
            setting,
            start,
            state,
            accumulator,
            dst,
            exempt,
            false,
            how.identity(),
            frame,
            |slot: u32| e.assigns(slot),
        ),
        identity is Const,
        held(registers(setting, state), identity) == how.identity(),
        registers(setting, state).contains_key(identity),
        start.temps <= state.temps,
        aims(dst, exempt),
        Some(accumulator) == dst || (accumulator matches VirtualRegister::Temp(t) && t >= start.temps),
        spared(exempt, |slot: u32| e.mentions(slot)),
        forall|i: int|
            0 <= i < terms.len() ==> part_of(e, #[trigger] terms[i]) && terms[i].hygienic() && terms[i].lowerable(
                setting.positions.len() as int,
                frame.len() as int,
            ),
        ({
            let after = lower_terms(terms, count, how, setting.positions, identity, accumulator, e.span, state);
            after.pool.is_prefix_of(setting.pool) && after.temps <= u32::MAX
        }),
    ensures
        ({
            let after = lower_terms(terms, count, how, setting.positions, identity, accumulator, e.span, state);
            match evaluate_terms(terms, how, setting.semantics, setting.positions, setting.row, frame) {
                Err(trouble) => stopped_with(setting, after, trouble),
                Ok((value, next)) => accumulating(
                    setting,
                    start,
                    after,
                    accumulator,
                    dst,
                    exempt,
                    terms.len() > 0,
                    value,
                    next,
                    |slot: u32| e.assigns(slot),
                ),
            }
        }),
    decreases e, 1nat, terms.len(),
{
    if terms.len() > 0 {
        let before = lower_terms(
            terms.drop_last(),
            count,
            how,
            setting.positions,
            identity,
            accumulator,
            e.span,
            state,
        );
        let after = lower_terms(terms, count, how, setting.positions, identity, accumulator, e.span, state);
        let (lowered, b) = lower(terms.last(), setting.positions, None, before);
        lowering_continues(terms.last(), setting.positions, None, before);
        assert(continues(lowered, after));
        assert(continues(before, after));
        terms_are_faithful(
            setting,
            e,
            terms.drop_last(),
            count,
            how,
            identity,
            accumulator,
            dst,
            exempt,
            start,
            state,
            frame,
        );
        match evaluate_terms(terms.drop_last(), how, setting.semantics, setting.positions, setting.row, frame) {
            Err(trouble) => stopping_is_final(setting, before, after, trouble),
            Ok((sofar, middle)) => {
                let first = terms.len() == 1;
                if first {
                    assert(terms.drop_last() =~= Seq::empty());
                }
                assert(terms.last() == terms[terms.len() - 1]);
                term_is_faithful(
                    setting,
                    e,
                    terms.last(),
                    how,
                    identity,
                    accumulator,
                    first,
                    false,
                    dst,
                    exempt,
                    start,
                    before,
                    sofar,
                    middle,
                );
            },
        }
    }
}

proof fn fold_is_faithful(
    setting: Setting,
    e: Expr,
    terms: Seq<Expr>,
    how: Accumulate,
    dst: Option<VirtualRegister>,
    exempt: Set<u16>,
    state: Lowering,
    frame: Frame,
)
    requires
        ready(setting, e, dst, exempt, state, frame),
        forall|i: int| 0 <= i < terms.len() ==> decreases_to!(e => #[trigger] terms[i]),
        forall|i: int|
            0 <= i < terms.len() ==> part_of(e, #[trigger] terms[i]) && terms[i].hygienic() && terms[i].lowerable(
                setting.positions.len() as int,
                frame.len() as int,
            ),
        lower(e, setting.positions, dst, state) == lower_fold(terms, how, setting.positions, dst, e.span, state),
    ensures
        agree(
            setting,
            state,
            lower_fold(terms, how, setting.positions, dst, e.span, state).0,
            lower_fold(terms, how, setting.positions, dst, e.span, state).1,
            dst,
            exempt,
            evaluate_fold(terms, how, setting.semantics, setting.positions, setting.row, frame, e.span),
            |slot: u32| e.assigns(slot),
            |slot: u32| e.mentions(slot),
        ),
    decreases e, 2nat, 0nat,
{
    let writes = |slot: u32| e.assigns(slot);
    let mentions = |slot: u32| e.mentions(slot);
    let value = how.identity();
    let pooled = state.pooled(value);
    let identity = pool_register(pooled.pool, value);
    let (after, result) = lower_fold(terms, how, setting.positions, dst, e.span, state);
    pooling_continues(state, value);
    if terms.len() == 0 {
        pooling_is_faithful(setting, state, frame, exempt, value);
        placing_is_faithful(setting, state, pooled, frame, dst, exempt, identity, value, e.span, writes, mentions);
    } else {
        let count = terms.len() as int;
        let (aimed, accumulator) = pooled.target(dst);
        terms_continue(terms, count, how, setting.positions, identity, accumulator, e.span, aimed);
        assert(pooled.pool.is_prefix_of(setting.pool));
        pooling_is_faithful(setting, state, frame, exempt, value);
        let now = registers(setting, state);
        assert(progress(setting, aimed) == progress(setting, state));
        assert(faithful(setting, aimed, frame, exempt)) by {
            assert forall|i: u16| i < frame.len() && !exempt.contains(i) implies slot_agrees(
                #[trigger] aimed.assigned[i as int],
                frame[i as int],
                now,
                VirtualRegister::Local(i),
            ) by {
                assert(slot_agrees(state.assigned[i as int], frame[i as int], now, VirtualRegister::Local(i)));
            }
            assert forall|k: int| 0 <= k < aimed.loads.len() implies load_agrees(
                #[trigger] aimed.loads[k],
                aimed.temps,
                setting.row,
                now,
            ) by {
                assert(load_agrees(state.loads[k], state.temps, setting.row, now));
            }
        }
        assert forall|k: int| 0 <= k < aimed.loads.len() implies (#[trigger] aimed.loads[k]).1 != accumulator || excused(
            exempt,
            accumulator,
        ) by {
            assert(load_agrees(state.loads[k], state.temps, setting.row, now));
        }
        let before = lower_terms(
            terms.drop_last(),
            count,
            how,
            setting.positions,
            identity,
            accumulator,
            e.span,
            aimed,
        );
        let (lowered, b) = lower(terms.last(), setting.positions, None, before);
        terms_continue(terms.drop_last(), count, how, setting.positions, identity, accumulator, e.span, aimed);
        lowering_continues(terms.last(), setting.positions, None, before);
        assert(continues(lowered, after));
        assert(continues(before, after));
        terms_are_faithful(
            setting,
            e,
            terms.drop_last(),
            count,
            how,
            identity,
            accumulator,
            dst,
            exempt,
            state,
            aimed,
            frame,
        );
        match evaluate_terms(terms.drop_last(), how, setting.semantics, setting.positions, setting.row, frame) {
            Err(trouble) => stopping_is_final(setting, before, after, trouble),
            Ok((sofar, middle)) => {
                let first = terms.len() == 1;
                if first {
                    assert(terms.drop_last() =~= Seq::empty());
                }
                assert(terms.last() == terms[terms.len() - 1]);
                term_is_faithful(
                    setting,
                    e,
                    terms.last(),
                    how,
                    identity,
                    accumulator,
                    first,
                    true,
                    dst,
                    exempt,
                    state,
                    before,
                    sofar,
                    middle,
                );
            },
        }
    }
}

spec fn block_ready(
    setting: Setting,
    block: Block,
    dst: Option<VirtualRegister>,
    exempt: Set<u16>,
    state: Lowering,
    frame: Frame,
) -> bool {
    let after = lower_block(block, setting.positions, dst, state).0;
    &&& faithful(setting, state, frame, exempt)
    &&& aims(dst, exempt)
    &&& spared(exempt, |slot: u32| block.mentions(slot))
    &&& block.lowerable(setting.positions.len() as int, frame.len() as int)
    &&& block.hygienic()
    &&& after.pool.is_prefix_of(setting.pool)
    &&& after.temps <= u32::MAX
}

/// What holds between two assignments of a block.
spec fn assigning(
    setting: Setting,
    before: Lowering,
    after: Lowering,
    exempt: Set<u16>,
    frame: Frame,
    writes: spec_fn(u32) -> bool,
) -> bool {
    &&& faithful(setting, after, frame, exempt)
    &&& untouched(registers(setting, before), registers(setting, after), before.temps, None, writes)
    &&& before.temps <= after.temps
    &&& fresh_loads(before, after)
    &&& frame.len() == before.assigned.len()
}

proof fn assignments_are_faithful(
    setting: Setting,
    block: Block,
    assignments: Seq<Assignment>,
    exempt: Set<u16>,
    state: Lowering,
    frame: Frame,
)
    requires
        faithful(setting, state, frame, exempt),
        spared(exempt, |slot: u32| block.mentions(slot)),
        block.lowerable(setting.positions.len() as int, frame.len() as int),
        block.hygienic(),
        assignments.is_prefix_of(block.assignments@),
        ({
            let after = lower_assignments(assignments, setting.positions, state);
            after.pool.is_prefix_of(setting.pool) && after.temps <= u32::MAX
        }),
    ensures
        ({
            let after = lower_assignments(assignments, setting.positions, state);
            match evaluate_assignments(assignments, setting.semantics, setting.positions, setting.row, frame) {
                Err(trouble) => stopped_with(setting, after, trouble),
                Ok(next) => assigning(setting, state, after, exempt, next, |slot: u32| block.assigns(slot)),
            }
        }),
    decreases block, 1nat, assignments.len(),
{
    if assignments.len() > 0 {
        let rest = assignments.drop_last();
        let assignment = assignments.last();
        let at = assignments.len() - 1;
        assert(assignment == block.assignments@[at]);
        assert(decreases_to!(block => block.assignments@[at].value));
        let target = local_register(assignment.slot);
        let before = lower_assignments(rest, setting.positions, state);
        let (lowered, result) = lower(assignment.value, setting.positions, Some(target), before);
        let after = lower_assignments(assignments, setting.positions, state);
        lowering_continues(assignment.value, setting.positions, Some(target), before);
        assert(continues(lowered, after));
        assert(continues(before, after));
        assignments_are_faithful(setting, block, rest, exempt, state, frame);
        let writes = |slot: u32| block.assigns(slot);
        let m = |slot: u32| block.mentions(slot);
        match evaluate_assignments(rest, setting.semantics, setting.positions, setting.row, frame) {
            Err(trouble) => stopping_is_final(setting, before, after, trouble),
            Ok(middle) => {
                value_is_faithful(setting, block, at, exempt, before, middle);
                let vw = |slot: u32| slot == assignment.slot.0 || assignment.value.assigns(slot);
                match evaluate(assignment.value, setting.semantics, setting.positions, setting.row, middle) {
                    Err(trouble) => stopping_is_final(setting, lowered, after, trouble),
                    Ok((value, next)) => {
                        assert forall|slot: u32| #[trigger] vw(slot) implies writes(slot) by {
                            assert(block.assignments@[at].slot.0 == slot || block.assignments@[at].value.assigns(slot));
                        }
                        leaving_alone_twice(
                            registers(setting, state),
                            registers(setting, before),
                            registers(setting, after),
                            state.temps,
                            before.temps,
                            None,
                            None,
                            None,
                            writes,
                            vw,
                            writes,
                        );
                        loads_stay_fresh(state, before, after);
                    },
                }
            },
        }
    }
}

/// One assignment: its value lowered into its slot, and the slot marked.
proof fn value_is_faithful(
    setting: Setting,
    block: Block,
    at: int,
    exempt: Set<u16>,
    before: Lowering,
    frame: Frame,
)
    requires
        0 <= at < block.assignments@.len(),
        faithful(setting, before, frame, exempt),
        spared(exempt, |slot: u32| block.mentions(slot)),
        block.lowerable(setting.positions.len() as int, frame.len() as int),
        block.hygienic(),
        ({
            let assignment = block.assignments@[at];
            let after = lower(
                assignment.value,
                setting.positions,
                Some(local_register(assignment.slot)),
                before,
            ).0;
            after.pool.is_prefix_of(setting.pool) && after.temps <= u32::MAX
        }),
    ensures
        ({
            let assignment = block.assignments@[at];
            let lowered = lower(
                assignment.value,
                setting.positions,
                Some(local_register(assignment.slot)),
                before,
            ).0;
            let after = Lowering { assigned: lowered.assigned.update(assignment.slot.0 as int, true), ..lowered };
            match evaluate(assignment.value, setting.semantics, setting.positions, setting.row, frame) {
                Err(trouble) => stopped_with(setting, lowered, trouble),
                Ok((value, next)) => assigning(
                    setting,
                    before,
                    after,
                    exempt,
                    next.update(assignment.slot.0 as int, Some(value)),
                    |slot: u32| slot == assignment.slot.0 || assignment.value.assigns(slot),
                ),
            }
        }),
    decreases block, 0nat, 0nat,
{
    let assignment = block.assignments@[at];
    let slot = assignment.slot.0;
    let target = local_register(assignment.slot);
    let inner = exempt.insert(slot as u16);
    let (lowered, result) = lower(assignment.value, setting.positions, Some(target), before);
    let after = Lowering { assigned: lowered.assigned.update(slot as int, true), ..lowered };
    assert(decreases_to!(block => block.assignments@[at].value));
    assert(ready(setting, assignment.value, Some(target), inner, before, frame)) by {
        let m = |slot: u32| block.mentions(slot);
        assert forall|i: u16| inner.contains(i) implies !assignment.value.mentions(i as u32) by {
            if exempt.contains(i) {
                assert(!m(i as u32));
                assert(block.assignments@[at].value.mentions(i as u32) ==> block.mentions(i as u32));
            }
        }
        let now = registers(setting, before);
        assert forall|i: u16| i < frame.len() && !inner.contains(i) implies slot_agrees(
            #[trigger] before.assigned[i as int],
            frame[i as int],
            now,
            VirtualRegister::Local(i),
        ) by {
            assert(!exempt.contains(i));
        }
    }
    lowering_is_faithful(setting, assignment.value, Some(target), inner, before, frame);
    match evaluate(assignment.value, setting.semantics, setting.positions, setting.row, frame) {
        Err(_) => {},
        Ok((value, next)) => {
            let last = next.update(slot as int, Some(value));
            let held = registers(setting, after);
            let w = |s: u32| assignment.value.assigns(s);
            let vw = |s: u32| s == slot || assignment.value.assigns(s);
            assert(progress(setting, after) == progress(setting, lowered));
            assert forall|i: u16| i < last.len() && !exempt.contains(i) implies slot_agrees(
                #[trigger] after.assigned[i as int],
                last[i as int],
                held,
                VirtualRegister::Local(i),
            ) by {
                if i != slot {
                    assert(slot_agrees(lowered.assigned[i as int], next[i as int], held, VirtualRegister::Local(i)));
                }
            }
            assert forall|k: int| 0 <= k < after.loads.len() implies load_agrees(
                #[trigger] after.loads[k],
                after.temps,
                setting.row,
                held,
            ) by {
                assert(load_agrees(lowered.loads[k], lowered.temps, setting.row, held));
            }
            let first = registers(setting, before);
            assert forall|register: VirtualRegister| kept(register, before.temps, None, vw) implies #[trigger] held.contains_key(
                register,
            ) == first.contains_key(register) && held[register] == first[register] by {
                assert(kept(register, before.temps, Some(target), w));
            }
        },
    }
}

proof fn block_is_faithful(
    setting: Setting,
    block: Block,
    dst: Option<VirtualRegister>,
    exempt: Set<u16>,
    state: Lowering,
    frame: Frame,
)
    requires
        block_ready(setting, block, dst, exempt, state, frame),
    ensures
        agree(
            setting,
            state,
            lower_block(block, setting.positions, dst, state).0,
            lower_block(block, setting.positions, dst, state).1,
            dst,
            exempt,
            evaluate_block(block, setting.semantics, setting.positions, setting.row, frame),
            |slot: u32| block.assigns(slot),
            |slot: u32| block.mentions(slot),
        ),
    decreases block, 3nat, 0nat,
{
    let writes = |slot: u32| block.assigns(slot);
    let mentions = |slot: u32| block.mentions(slot);
    let middle = lower_assignments(block.assignments@, setting.positions, state);
    let (after, result) = lower(block.result, setting.positions, dst, middle);
    assignments_continue(block.assignments@, setting.positions, state);
    lowering_continues(block.result, setting.positions, dst, middle);
    assignments_are_faithful(setting, block, block.assignments@, exempt, state, frame);
    match evaluate_assignments(block.assignments@, setting.semantics, setting.positions, setting.row, frame) {
        Err(trouble) => stopping_is_final(setting, middle, after, trouble),
        Ok(next) => {
            assert(ready(setting, block.result, dst, exempt, middle, next)) by {
                assert forall|i: u16| exempt.contains(i) implies !mentions(i as u32) by {}
            }
            lowering_is_faithful(setting, block.result, dst, exempt, middle, next);
            match evaluate(block.result, setting.semantics, setting.positions, setting.row, next) {
                Err(_) => {},
                Ok((value, last)) => {
                    leaving_alone_twice(
                        registers(setting, state),
                        registers(setting, middle),
                        registers(setting, after),
                        state.temps,
                        middle.temps,
                        None,
                        dst,
                        dst,
                        writes,
                        |slot: u32| block.result.assigns(slot),
                        writes,
                    );
                    loads_stay_fresh(state, middle, after);
                },
            }
        },
    }
}

/// The frame a program starts with: nothing assigned.
pub open spec fn unassigned(slots: nat) -> Frame {
    Seq::new(slots, |i: int| None)
}

/// A tape computes its program. Where a walk of the tree gives a value, the
/// tape runs to its end and holds that value in its result register; where the
/// walk stops with a fault, the tape stops with the same fault, reported at the
/// same text.
pub proof fn a_tape_computes_its_program(program: Program, semantics: Semantics, positions: Seq<u32>, row: Seq<Real>)
    requires
        program.frame_size < 65536,
        program.body.lowerable(positions.len() as int, program.frame_size as int),
        program.body.hygienic(),
        fits_a_tape(lowered(program, positions).0),
    ensures
        ({
            let (tape, result) = lowered(program, positions);
            let outcome = run(tape.insns, semantics, row, primed(tape.pool));
            match evaluate_block(program.body, semantics, positions, row, unassigned(program.frame_size as nat)) {
                Ok((value, _)) => outcome is Running && held(outcome->Running_0, result) == value,
                Err(trouble) => {
                    &&& outcome matches Run::Faulted { insn, kind }
                    &&& 0 <= insn < tape.insns.len()
                    &&& reported(tape.insns[insn], tape.spans[insn], kind) == trouble
                },
            }
        }),
{
    let start = blank(program.frame_size as nat);
    let frame = unassigned(program.frame_size as nat);
    let (tape, result) = lowered(program, positions);
    block_continues(program.body, positions, None, start);
    let setting = Setting { semantics, positions, row, pool: tape.pool };
    let held = primed(tape.pool);
    assert(registers(setting, start) == held);
    assert forall|i: u16| i < frame.len() implies slot_agrees(
        #[trigger] start.assigned[i as int],
        frame[i as int],
        held,
        VirtualRegister::Local(i),
    ) by {}
    assert(faithful(setting, start, frame, Set::empty()));
    block_is_faithful(setting, program.body, None, Set::empty(), start, frame);
}

} // verus!
