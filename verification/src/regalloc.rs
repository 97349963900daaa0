//! Register allocation: constants first, locals after them, and the
//! temporaries packed above, each into the lowest register that is free.
//!
//! A temporary's register is free again after the last instruction that
//! mentions it, so a destination never shares a register with an operand unless
//! the virtual tape had them share one.

use vstd::prelude::*;
use vstd::set_lib::{lemma_int_range, lemma_len_subset, set_int_range};
use crate::diagnostics::{Fault, ProblemKind, Span};
use crate::lowering::primed;
use crate::number::{nan, Real};
use crate::semantics::{held, reported, run, run_of_push, step, Run, Semantics};
use crate::tape::{operands, FaultKind, Instruction, LaneFault, Register, VirtualRegister, VirtualTape};

verus! {

/// The intermediate representation after register allocation: what the
/// executors run.
#[derive(Debug, Clone)]
pub struct AllocatedTape {
    /// Register `i` holds `consts[i]`.
    pub consts: Vec<Real>,
    /// Registers `consts.len()..` are the locals, primed to NaN.
    pub locals: u16,
    /// Constants, locals and packed temporaries together.
    pub registers: u16,
    pub insns: Vec<Instruction<Register>>,
    /// `spans[i]` is the node `insns[i]` computes: the span a check reports.
    pub spans: Vec<Span>,
    pub result: Register,
    /// The partial derivatives a differentiated tape also computes.
    pub partials: Vec<Register>,
}

/// Whether an instruction reads or writes a temporary.
pub open spec fn touches(insn: Instruction<VirtualRegister>, t: int) -> bool {
    ||| insn.written() matches Some(VirtualRegister::Temp(u)) && u == t
    ||| exists|k: int| 0 <= k < insn.read().len() && #[trigger] is_temp(insn.read()[k], t)
}

pub open spec fn is_temp(register: VirtualRegister, t: int) -> bool {
    register matches VirtualRegister::Temp(u) && u == t
}

/// Whether one of the first `i` instructions writes a temporary.
pub open spec fn written_by(insns: Seq<Instruction<VirtualRegister>>, i: int, t: int) -> bool {
    exists|j: int| 0 <= j < i && (#[trigger] insns[j]).written() is Some && is_temp(insns[j].written()->0, t)
}

/// Whether a temporary is an output, or instruction `i` or a later one mentions
/// it.
pub open spec fn needed_from(
    insns: Seq<Instruction<VirtualRegister>>,
    outputs: Seq<VirtualRegister>,
    i: int,
    t: int,
) -> bool {
    ||| exists|k: int| 0 <= k < outputs.len() && is_temp(#[trigger] outputs[k], t)
    ||| exists|j: int| i <= j < insns.len() && touches(#[trigger] insns[j], t)
}

/// The temporaries that need a register during instruction `i`.
pub open spec fn crowd(
    insns: Seq<Instruction<VirtualRegister>>,
    outputs: Seq<VirtualRegister>,
    temps: int,
    i: int,
) -> Set<int> {
    set_int_range(0, temps).filter(|t: int| written_by(insns, i + 1, t) && needed_from(insns, outputs, i, t))
}

impl VirtualTape {
    pub open spec fn outputs(&self) -> Seq<VirtualRegister> {
        seq![self.result] + self.partials@
    }

    /// Whether a register is one of this tape's.
    pub open spec fn has(&self, register: VirtualRegister) -> bool {
        match register {
            VirtualRegister::Const(i) => i < self.consts@.len(),
            VirtualRegister::Local(i) => i < self.locals,
            VirtualRegister::Temp(t) => t < self.temps,
        }
    }

    /// Whether a register may be read once the first `i` instructions have
    /// run: a constant, a local, or a temporary one of them writes.
    pub open spec fn readable(&self, register: VirtualRegister, i: int) -> bool {
        self.has(register) && (register matches VirtualRegister::Temp(t) ==> written_by(self.insns@, i, t as int))
    }

    /// Whether the tape can be run: every register its own, constants never
    /// written, and no temporary read before it is written.
    pub open spec fn runnable(&self) -> bool {
        &&& self.consts.well_formed()
        &&& self.insns@.len() == self.spans@.len()
        &&& forall|i: int|
            0 <= i < self.insns@.len() ==> ((#[trigger] self.insns@[i]).written() is Some ==> self.has(
                self.insns@[i].written()->0,
            ) && !(self.insns@[i].written()->0 is Const))
        &&& forall|i: int, k: int|
            0 <= i < self.insns@.len() && 0 <= k < self.insns@[i].read().len() ==> self.readable(
                #[trigger] self.insns@[i].read()[k],
                i,
            )
        &&& forall|k: int|
            0 <= k < self.outputs().len() ==> self.readable(#[trigger] self.outputs()[k], self.insns@.len() as int)
    }

    /// Whether constants, locals and the temporaries in use at any one time fit
    /// the register file.
    pub open spec fn has_room(&self) -> bool {
        &&& self.consts@.len() + self.locals <= 65535
        &&& forall|i: int|
            0 <= i < self.insns@.len() ==> self.consts@.len() + self.locals + #[trigger] crowd(
                self.insns@,
                self.outputs(),
                self.temps as int,
                i,
            ).len() <= 65535
    }
}

impl VirtualTape {
    /// Whether so many registers are what the tape needs: the constants, the
    /// locals, and as many as there are temporaries in use where most are.
    pub open spec fn is_packed_in(&self, registers: int) -> bool {
        let pinned = self.consts@.len() + self.locals;
        &&& registers >= pinned
        &&& forall|i: int|
            0 <= i < self.insns@.len() ==> pinned + (#[trigger] crowd(
                self.insns@,
                self.outputs(),
                self.temps as int,
                i,
            )).len() <= registers
        &&& registers == pinned || exists|i: int|
            0 <= i < self.insns@.len() && registers == pinned + (#[trigger] crowd(
                self.insns@,
                self.outputs(),
                self.temps as int,
                i,
            )).len()
    }
}

/// The physical register file before the first instruction.
pub open spec fn primed_registers(pool: Seq<Real>) -> Map<Register, Real> {
    Map::new(|register: Register| register.0 < pool.len(), |register: Register| pool[register.0 as int])
}

/// Whether two tapes came to the same end: the same fault at the same
/// instruction, or the same values in the registers that correspond.
pub open spec fn same_end(
    left: Run<VirtualRegister>,
    right: Run<Register>,
    a: Seq<VirtualRegister>,
    b: Seq<Register>,
) -> bool {
    match left {
        Run::Faulted { insn, kind } => right == (Run::<Register>::Faulted { insn, kind }),
        Run::Running(virtuals) => {
            &&& right is Running
            &&& forall|k: int|
                0 <= k < a.len() ==> held(virtuals, #[trigger] a[k]) == held(right->Running_0, b[k])
        },
    }
}

/// Where a register is, for temporaries that are somewhere.
spec fn physical(pool: int, locals: int, place: Seq<Option<u16>>, register: VirtualRegister) -> Register {
    match register {
        VirtualRegister::Const(i) => Register(i),
        VirtualRegister::Local(i) => Register((pool + i) as u16),
        VirtualRegister::Temp(t) => Register(
            (pool + locals + (match place[t as int] {
                Some(p) => p as int,
                None => 0,
            })) as u16,
        ),
    }
}

/// Temporaries and packed registers are each other's.
spec fn consistent(place: Seq<Option<u16>>, holder: Seq<Option<u32>>) -> bool {
    &&& place.len() <= u32::MAX
    &&& holder.len() <= 65535
    &&& forall|t: int|
        0 <= t < place.len() ==> ((#[trigger] place[t]) matches Some(p) ==> p < holder.len() && holder[p as int] == Some(
            t as u32,
        ))
    &&& forall|p: int|
        0 <= p < holder.len() ==> ((#[trigger] holder[p]) matches Some(t) ==> t < place.len() && place[t as int] == Some(
            p as u16,
        ))
}

spec fn placed(place: Seq<Option<u16>>, register: VirtualRegister) -> bool {
    register matches VirtualRegister::Temp(t) ==> t < place.len() && place[t as int] is Some
}

/// What has a register holds its value there.
spec fn mirrored(
    tape: VirtualTape,
    place: Seq<Option<u16>>,
    virtuals: Map<VirtualRegister, Real>,
    registers: Map<Register, Real>,
) -> bool {
    forall|register: VirtualRegister|
        tape.has(register) && placed(place, register) ==> #[trigger] held(virtuals, register) == held(
            registers,
            physical(tape.consts@.len() as int, tape.locals as int, place, register),
        )
}

spec fn simulated(
    tape: VirtualTape,
    insns: Seq<Instruction<VirtualRegister>>,
    done: Seq<Instruction<Register>>,
    place: Seq<Option<u16>>,
) -> bool {
    forall|semantics: Semantics, row: Seq<Real>| #[trigger]
        simulated_on(tape, insns, done, place, semantics, row)
}

spec fn simulated_on(
    tape: VirtualTape,
    insns: Seq<Instruction<VirtualRegister>>,
    done: Seq<Instruction<Register>>,
    place: Seq<Option<u16>>,
    semantics: Semantics,
    row: Seq<Real>,
) -> bool {
    match run(insns, semantics, row, primed(tape.consts@)) {
        Run::Faulted { insn, kind } => run(done, semantics, row, primed_registers(tape.consts@)) == (Run::<
            Register,
        >::Faulted { insn, kind }),
        Run::Running(virtuals) => {
            let after = run(done, semantics, row, primed_registers(tape.consts@));
            after is Running && mirrored(tape, place, virtuals, after->Running_0)
        },
    }
}

proof fn physical_is_injective(
    tape: VirtualTape,
    place: Seq<Option<u16>>,
    holder: Seq<Option<u32>>,
    a: VirtualRegister,
    b: VirtualRegister,
)
    requires
        consistent(place, holder),
        tape.has(a),
        tape.has(b),
        placed(place, a),
        placed(place, b),
        tape.consts@.len() + tape.locals + holder.len() <= 65535,
        a != b,
    ensures
        physical(tape.consts@.len() as int, tape.locals as int, place, a) != physical(
            tape.consts@.len() as int,
            tape.locals as int,
            place,
            b,
        ),
{
}

/// One instruction simulated: its operands are placed, and so is what it
/// writes, in a register nothing else is in.
proof fn instruction_is_simulated(
    tape: VirtualTape,
    insns: Seq<Instruction<VirtualRegister>>,
    done: Seq<Instruction<Register>>,
    before: Seq<Option<u16>>,
    place: Seq<Option<u16>>,
    holder: Seq<Option<u32>>,
    insn: Instruction<VirtualRegister>,
    image: Instruction<Register>,
)
    requires
        simulated(tape, insns, done, before),
        insns.len() == done.len(),
        consistent(place, holder),
        tape.consts@.len() + tape.locals + holder.len() <= 65535,
        forall|k: int|
            0 <= k < insn.read().len() ==> tape.has(#[trigger] insn.read()[k]) && placed(before, insn.read()[k]),
        insn.written() is Some ==> tape.has(insn.written()->0) && placed(place, insn.written()->0),
        place.len() == before.len(),
        forall|t: int|
            0 <= t < before.len() && !(insn.written() is Some && is_temp(insn.written()->0, t)) ==> #[trigger] place[t]
                == before[t],
        forall|t: int| 0 <= t < before.len() && (#[trigger] before[t]) is Some ==> place[t] == before[t],
        image == insn.renamed(
            |register: VirtualRegister| physical(tape.consts@.len() as int, tape.locals as int, place, register),
        ),
    ensures
        simulated(tape, insns.push(insn), done.push(image), place),
{
    let pool = tape.consts@.len() as int;
    let locals = tape.locals as int;
    assert forall|semantics: Semantics, row: Seq<Real>| #[trigger]
        simulated_on(tape, insns.push(insn), done.push(image), place, semantics, row) by {
        assert(simulated_on(tape, insns, done, before, semantics, row));
        run_of_push(insns, insn, semantics, row, primed(tape.consts@));
        run_of_push(done, image, semantics, row, primed_registers(tape.consts@));
        match run(insns, semantics, row, primed(tape.consts@)) {
            Run::Faulted { .. } => {},
            Run::Running(virtuals) => {
                let registers = run(done, semantics, row, primed_registers(tape.consts@))->Running_0;
                assert forall|k: int| 0 <= k < insn.read().len() implies held(virtuals, #[trigger] insn.read()[k]) == held(
                    registers,
                    physical(pool, locals, place, insn.read()[k]),
                ) by {
                    let register = insn.read()[k];
                    assert(held(virtuals, register) == held(registers, physical(pool, locals, before, register)));
                }
                operands(insn);
                match step(insn, semantics, row, virtuals) {
                    Err(_) => {},
                    Ok(next) => {
                        let after = step(image, semantics, row, registers)->Ok_0;
                        assert(step(image, semantics, row, registers) is Ok);
                        assert forall|register: VirtualRegister|
                            tape.has(register) && placed(place, register) implies #[trigger] held(next, register) == held(
                            after,
                            physical(pool, locals, place, register),
                        ) by {
                            if insn.written() is None {
                                assert(held(virtuals, register) == held(registers, physical(pool, locals, before, register)));
                            } else {
                                let dst = insn.written()->0;
                                if register != dst {
                                    physical_is_injective(tape, place, holder, register, dst);
                                    assert(held(virtuals, register) == held(
                                        registers,
                                        physical(pool, locals, before, register),
                                    ));
                                }
                            }
                        }
                    },
                }
            },
        }
    }
}

/// Whether the bound on a temporary's last mention is right for every `j` up to
/// `upto`.
spec fn bounds_mentions(
    last: Seq<usize>,
    insns: Seq<Instruction<VirtualRegister>>,
    outputs: Seq<VirtualRegister>,
    upto: int,
) -> bool {
    forall|t: int, j: int|
        0 <= t < last.len() && 0 <= j <= upto ==> (last[t] > j <==> #[trigger] needed_from(insns, outputs, j, t))
}

fn mark(last: &mut Vec<usize>, register: VirtualRegister, at: usize)
    requires
        register matches VirtualRegister::Temp(t) ==> t < old(last)@.len(),
    ensures
        final(last)@.len() == old(last)@.len(),
        forall|t: int|
            0 <= t < old(last)@.len() ==> #[trigger] final(last)@[t] == if is_temp(register, t) {
                at
            } else {
                old(last)@[t]
            },
{
    match register {
        VirtualRegister::Temp(t) => {
            last.set(t as usize, at);
        },
        _ => {},
    }
}

/// For each temporary, one past the last instruction that mentions it, or past
/// the end of the tape for an output.
fn last_mentions(tape: &VirtualTape, outputs: &Vec<VirtualRegister>) -> (last: Vec<usize>)
    requires
        tape.runnable(),
        outputs@ == tape.outputs(),
        tape.insns@.len() < usize::MAX,
    ensures
        last@.len() == tape.temps,
        bounds_mentions(last@, tape.insns@, outputs@, tape.insns@.len() as int),
{
    let mut last: Vec<usize> = vec![0; tape.temps as usize];
    let ghost none = Seq::<VirtualRegister>::empty();
    let ghost insns = tape.insns@;
    let count: usize = tape.insns.len();
    for i in 0..count
        invariant
            tape.runnable(),
            insns == tape.insns@,
            count == insns.len(),
            count < usize::MAX,
            last@.len() == tape.temps,
            forall|t: int, j: int|
                #![trigger last@[t], insns[j]]
                0 <= t < last@.len() && 0 <= j < i && touches(insns[j], t) ==> last@[t] > j,
            forall|t: int|
                0 <= t < last@.len() && (#[trigger] last@[t]) > 0 ==> last@[t] <= i && touches(insns[last@[t] - 1], t),
    {
        let insn = tape.insns[i];
        let sources = insn.sources();
        let ghost before = last@;
        for k in 0..sources.len()
            invariant
                tape.runnable(),
                insns == tape.insns@,
                i < count == insns.len(),
                count < usize::MAX,
                insn == insns[i as int],
                sources@ == insn.read(),
                last@.len() == before.len() == tape.temps,
                forall|t: int|
                    #![trigger last@[t]]
                    0 <= t < last@.len() ==> last@[t] == (if exists|m: int|
                        0 <= m < k && #[trigger] is_temp(insn.read()[m], t) {
                        (i + 1) as usize
                    } else {
                        before[t]
                    }),
        {
            assert(tape.readable(insns[i as int].read()[k as int], i as int));
            let ghost earlier = last@;
            mark(&mut last, sources[k], i + 1);
            assert forall|t: int|
                #![trigger last@[t]]
                0 <= t < last@.len() implies last@[t] == (if exists|m: int|
                    0 <= m < k + 1 && #[trigger] is_temp(insn.read()[m], t) {
                    (i + 1) as usize
                } else {
                    before[t]
                }) by {
                assert(earlier[t] == (if exists|m: int| 0 <= m < k && #[trigger] is_temp(insn.read()[m], t) {
                    (i + 1) as usize
                } else {
                    before[t]
                }));
                if is_temp(insn.read()[k as int], t) {
                } else if exists|m: int| 0 <= m < k + 1 && #[trigger] is_temp(insn.read()[m], t) {
                    let m = choose|m: int| 0 <= m < k + 1 && #[trigger] is_temp(insn.read()[m], t);
                    assert(m < k);
                }
            }
        }
        let ghost middle = last@;
        match insn.dst() {
            Some(dst) => mark(&mut last, dst, i + 1),
            None => {},
        }
        proof {
            assert forall|t: int| 0 <= t < last@.len() implies #[trigger] last@[t] == (if touches(insns[i as int], t) {
                (i + 1) as usize
            } else {
                before[t]
            }) by {
                assert(middle[t] == (if exists|m: int|
                    0 <= m < insn.read().len() && #[trigger] is_temp(insn.read()[m], t) {
                    (i + 1) as usize
                } else {
                    before[t]
                }));
            }
        }
    }
    let ghost swept = last@;
    for k in 0..outputs.len()
        invariant
            tape.runnable(),
            outputs@ == tape.outputs(),
            count == insns.len(),
            count < usize::MAX,
            insns == tape.insns@,
            last@.len() == swept.len() == tape.temps,
            forall|t: int|
                #![trigger last@[t]]
                0 <= t < last@.len() ==> last@[t] == (if exists|m: int|
                    0 <= m < k && is_temp(#[trigger] outputs@[m], t) {
                    (count + 1) as usize
                } else {
                    swept[t]
                }),
    {
        assert(tape.readable(tape.outputs()[k as int], insns.len() as int));
        let ghost earlier = last@;
        mark(&mut last, outputs[k], count + 1);
        assert forall|t: int|
            #![trigger last@[t]]
            0 <= t < last@.len() implies last@[t] == (if exists|m: int|
                0 <= m < k + 1 && is_temp(#[trigger] outputs@[m], t) {
                (count + 1) as usize
            } else {
                swept[t]
            }) by {
            assert(earlier[t] == (if exists|m: int| 0 <= m < k && is_temp(#[trigger] outputs@[m], t) {
                (count + 1) as usize
            } else {
                swept[t]
            }));
            if is_temp(outputs@[k as int], t) {
            } else if exists|m: int| 0 <= m < k + 1 && is_temp(#[trigger] outputs@[m], t) {
                let m = choose|m: int| 0 <= m < k + 1 && is_temp(#[trigger] outputs@[m], t);
                assert(m < k);
            }
        }
    }
    proof {
        assert forall|t: int, j: int| 0 <= t < last@.len() && 0 <= j <= insns.len() implies (last@[t] > j
            <==> #[trigger] needed_from(insns, outputs@, j, t)) by {
            if exists|m: int| 0 <= m < outputs@.len() && is_temp(#[trigger] outputs@[m], t) {
            } else {
                assert(last@[t] == swept[t]);
                if last@[t] > j {
                    assert(touches(insns[last@[t] - 1], t));
                }
                if needed_from(insns, outputs@, j, t) {
                    let k = choose|k: int| j <= k < insns.len() && touches(#[trigger] insns[k], t);
                    assert(swept[t] > k);
                }
            }
        }
    }
    last
}

/// Whether every register of an instruction is below `count`.
pub open spec fn within(insn: Instruction<Register>, count: int) -> bool {
    &&& insn.written() is Some ==> (insn.written()->0).0 < count
    &&& forall|k: int| 0 <= k < insn.read().len() ==> (#[trigger] insn.read()[k]).0 < count
}

/// Whether a destination that was none of the operands is none of them still.
pub open spec fn keeps_apart(before: Instruction<VirtualRegister>, after: Instruction<Register>) -> bool {
    &&& before.read().len() == after.read().len()
    &&& forall|k: int|
        0 <= k < before.read().len() && before.written() is Some && before.written() != Some(before.read()[k])
            ==> after.written() != Some(#[trigger] after.read()[k])
}

/// The temporaries with a register are those that were written and are still
/// needed.
spec fn holds_the_living(
    place: Seq<Option<u16>>,
    insns: Seq<Instruction<VirtualRegister>>,
    outputs: Seq<VirtualRegister>,
    written: int,
    needed: int,
) -> bool {
    forall|t: int|
        0 <= t < place.len() ==> ((#[trigger] place[t]) is Some <==> written_by(insns, written, t) && needed_from(
            insns,
            outputs,
            needed,
            t,
        ))
}

/// With every packed register taken, one more temporary in the crowd means the
/// crowd is larger than the registers.
proof fn a_full_house_is_smaller_than_its_crowd(
    place: Seq<Option<u16>>,
    holder: Seq<Option<u32>>,
    people: Set<int>,
    newcomer: int,
)
    requires
        consistent(place, holder),
        forall|p: int| 0 <= p < holder.len() ==> (#[trigger] holder[p]) is Some,
        forall|t: int| 0 <= t < place.len() && (#[trigger] place[t]) is Some ==> people.contains(t),
        people.finite(),
        people.contains(newcomer),
        0 <= newcomer < place.len(),
        place[newcomer] is None,
    ensures
        holder.len() + 1 <= people.len(),
{
    let residents = holder.map_values(|h: Option<u32>| h->0 as int);
    assert forall|p: int, q: int| 0 <= p < residents.len() && 0 <= q < residents.len() && p != q implies residents[p]
        != residents[q] by {
        assert(holder[p] is Some && holder[q] is Some);
    }
    residents.unique_seq_to_set();
    let others = people.remove(newcomer);
    assert forall|t: int| residents.to_set().contains(t) implies others.contains(t) by {
        let p = choose|p: int| 0 <= p < residents.len() && residents[p] == t;
        assert(holder[p] is Some);
        assert(place[t] is Some);
    }
    lemma_len_subset(residents.to_set(), others);
}

/// Everyone in the crowd has a register of their own.
proof fn a_crowd_is_housed(place: Seq<Option<u16>>, holder: Seq<Option<u32>>, people: Set<int>)
    requires
        consistent(place, holder),
        forall|t: int| #[trigger] people.contains(t) ==> 0 <= t < place.len() && place[t] is Some,
    ensures
        people.len() <= holder.len(),
{
    let residents = holder.map_values(|h: Option<u32>| h->0 as int);
    residents.lemma_cardinality_of_set();
    assert forall|t: int| people.contains(t) implies residents.to_set().contains(t) by {
        let p = place[t]->0 as int;
        assert(residents[p] == t);
    }
    lemma_len_subset(people, residents.to_set());
}

fn physically(pool: u16, locals: u16, place: &Vec<Option<u16>>, register: VirtualRegister) -> (at: Register)
    requires
        pool + locals <= 65535,
        register matches VirtualRegister::Local(i) ==> i < locals,
        register matches VirtualRegister::Temp(t) ==> t < place@.len() && (place@[t as int] matches Some(p) ==> pool
            + locals + p <= 65535),
    ensures
        at == physical(pool as int, locals as int, place@, register),
{
    match register {
        VirtualRegister::Const(i) => Register(i),
        VirtualRegister::Local(i) => Register(pool + i),
        VirtualRegister::Temp(t) => match place[t as usize] {
            Some(p) => Register(pool + locals + p),
            None => Register(pool + locals),
        },
    }
}

/// Frees a temporary's register if nothing from `at` on needs it.
fn release(
    place: &mut Vec<Option<u16>>,
    holder: &mut Vec<Option<u32>>,
    last: &Vec<usize>,
    register: VirtualRegister,
    at: usize,
)
    requires
        consistent(old(place)@, old(holder)@),
        old(place)@.len() == last@.len(),
        register matches VirtualRegister::Temp(t) ==> t < old(place)@.len(),
    ensures
        consistent(final(place)@, final(holder)@),
        final(place)@.len() == old(place)@.len(),
        final(holder)@.len() == old(holder)@.len(),
        forall|t: int|
            0 <= t < old(place)@.len() ==> #[trigger] final(place)@[t] == if is_temp(register, t) && last@[t] <= at {
                None
            } else {
                old(place)@[t]
            },
{
    match register {
        VirtualRegister::Temp(t) => {
            if last[t as usize] <= at {
                match place[t as usize] {
                    Some(p) => {
                        holder.set(p as usize, None);
                        place.set(t as usize, None);
                    },
                    None => {},
                }
            }
        },
        _ => {},
    }
}

proof fn fewer_placed_is_simulated(
    tape: VirtualTape,
    insns: Seq<Instruction<VirtualRegister>>,
    done: Seq<Instruction<Register>>,
    place: Seq<Option<u16>>,
    fewer: Seq<Option<u16>>,
)
    requires
        simulated(tape, insns, done, place),
        place.len() == fewer.len(),
        forall|t: int| 0 <= t < fewer.len() && (#[trigger] fewer[t]) is Some ==> place[t] == fewer[t],
    ensures
        simulated(tape, insns, done, fewer),
{
    assert forall|semantics: Semantics, row: Seq<Real>| #[trigger]
        simulated_on(tape, insns, done, fewer, semantics, row) by {
        assert(simulated_on(tape, insns, done, place, semantics, row));
        match run(insns, semantics, row, primed(tape.consts@)) {
            Run::Faulted { .. } => {},
            Run::Running(virtuals) => {
                let registers = run(done, semantics, row, primed_registers(tape.consts@))->Running_0;
                assert forall|register: VirtualRegister| tape.has(register) && placed(fewer, register) implies #[trigger] held(
                    virtuals,
                    register,
                ) == held(
                    registers,
                    physical(tape.consts@.len() as int, tape.locals as int, fewer, register),
                ) by {
                    assert(held(virtuals, register) == held(
                        registers,
                        physical(tape.consts@.len() as int, tape.locals as int, place, register),
                    ));
                }
            },
        }
    }
}

/// Gives the destination of instruction `i` a register, if it is a temporary
/// without one: the lowest that is free.
fn claim(tape: &VirtualTape, i: usize, place: &mut Vec<Option<u16>>, holder: &mut Vec<Option<u32>>)
    requires
        tape.runnable(),
        tape.has_room(),
        i < tape.insns@.len(),
        old(place)@.len() == tape.temps,
        consistent(old(place)@, old(holder)@),
        holds_the_living(old(place)@, tape.insns@, tape.outputs(), i as int, i as int),
        tape.consts@.len() + tape.locals + old(holder)@.len() <= 65535,
    ensures
        consistent(final(place)@, final(holder)@),
        final(place)@.len() == tape.temps,
        holds_the_living(final(place)@, tape.insns@, tape.outputs(), i + 1, i as int),
        tape.consts@.len() + tape.locals + final(holder)@.len() <= 65535,
        old(holder)@.len() <= final(holder)@.len(),
        final(holder)@.len() == old(holder)@.len() || final(holder)@.len() <= crowd(
            tape.insns@,
            tape.outputs(),
            tape.temps as int,
            i as int,
        ).len(),
        crowd(tape.insns@, tape.outputs(), tape.temps as int, i as int).len() <= final(holder)@.len(),
        forall|t: int|
            0 <= t < tape.temps && !(tape.insns@[i as int].written() is Some && is_temp(
                tape.insns@[i as int].written()->0,
                t,
            )) ==> #[trigger] final(place)@[t] == old(place)@[t],
        forall|t: int| 0 <= t < tape.temps && (#[trigger] old(place)@[t]) is Some ==> final(place)@[t] == old(place)@[t],
{
    let insn = tape.insns[i];
    let written = insn.dst();
    let ghost insns = tape.insns@;
    let ghost outs = tape.outputs();
    let ghost before = place@;
    proof {
        if written is Some {
            assert(tape.has(insns[i as int].written()->0));
        }
    }
    match written {
        Some(VirtualRegister::Temp(t)) => {
            if place[t as usize].is_none() {
                let mut p: usize = 0;
                while p < holder.len() && holder[p].is_some()
                    invariant
                        p <= holder@.len(),
                        forall|q: int| 0 <= q < p ==> (#[trigger] holder@[q]) is Some,
                    decreases holder@.len() - p,
                {
                    p = p + 1;
                }
                if p == holder.len() {
                    proof {
                        let temps = tape.temps as int;
                        let people = crowd(insns, outs, temps, i as int);
                        lemma_int_range(0, temps);
                        assert(insns[i as int].written() == Some(VirtualRegister::Temp(t)));
                        assert(touches(insns[i as int], t as int));
                        assert(written_by(insns, i + 1, t as int));
                        assert(people.contains(t as int));
                        assert forall|u: int| 0 <= u < place@.len() && (#[trigger] place@[u]) is Some implies people.contains(
                            u,
                        ) by {
                            one_more_writer(insns, i as int, u);
                        }
                        a_full_house_is_smaller_than_its_crowd(place@, holder@, people, t as int);
                    }
                    holder.push(None);
                }
                holder.set(p, Some(t));
                place.set(t as usize, Some(p as u16));
            }
        },
        _ => {},
    }
    proof {
        let during = place@;
        assert forall|t: int| 0 <= t < during.len() implies ((#[trigger] during[t]) is Some <==> written_by(
            insns,
            i + 1,
            t,
        ) && needed_from(insns, outs, i as int, t)) by {
            assert(before[t] is Some <==> written_by(insns, i as int, t) && needed_from(insns, outs, i as int, t));
            one_more_writer(insns, i as int, t);
            if written is Some && is_temp(written->0, t) {
                assert(touches(insns[i as int], t));
            }
        }
        let people = crowd(insns, outs, tape.temps as int, i as int);
        assert forall|t: int| #[trigger] people.contains(t) implies 0 <= t < during.len() && during[t] is Some by {
            lemma_int_range(0, tape.temps as int);
        }
        a_crowd_is_housed(during, holder@, people);
    }
}

/// Frees the registers of what instruction `i` is the last to mention.
fn release_all(
    tape: &VirtualTape,
    i: usize,
    last: &Vec<usize>,
    place: &mut Vec<Option<u16>>,
    holder: &mut Vec<Option<u32>>,
)
    requires
        tape.runnable(),
        i < tape.insns@.len() < usize::MAX,
        last@.len() == tape.temps == old(place)@.len(),
        bounds_mentions(last@, tape.insns@, tape.outputs(), tape.insns@.len() as int),
        consistent(old(place)@, old(holder)@),
        holds_the_living(old(place)@, tape.insns@, tape.outputs(), i + 1, i as int),
    ensures
        consistent(final(place)@, final(holder)@),
        final(place)@.len() == tape.temps,
        final(holder)@.len() == old(holder)@.len(),
        holds_the_living(final(place)@, tape.insns@, tape.outputs(), i + 1, i + 1),
        forall|t: int| 0 <= t < tape.temps && (#[trigger] final(place)@[t]) is Some ==> old(place)@[t] == final(place)@[t],
{
    let insn = tape.insns[i];
    let ghost insns = tape.insns@;
    let ghost outs = tape.outputs();
    let ghost during = place@;
    let ghost spread = holder@.len();
    let sources = insn.sources();
    proof {
        assert forall|m: int| 0 <= m < insn.read().len() implies tape.has(#[trigger] insn.read()[m]) by {
            assert(tape.readable(insns[i as int].read()[m], i as int));
        }
    }
    for k in 0..sources.len()
        invariant
            sources@ == insn.read(),
            last@.len() == tape.temps == place@.len() == during.len(),
            holder@.len() == spread,
            i < tape.insns@.len() < usize::MAX,
            consistent(place@, holder@),
            forall|m: int| 0 <= m < insn.read().len() ==> tape.has(#[trigger] insn.read()[m]),
            forall|t: int|
                #![trigger place@[t]]
                0 <= t < place@.len() ==> place@[t] == (if last@[t] <= i + 1 && exists|m: int|
                    0 <= m < k && #[trigger] is_temp(insn.read()[m], t) {
                    None
                } else {
                    during[t]
                }),
    {
        let ghost earlier = place@;
        assert(tape.has(insn.read()[k as int]));
        release(place, holder, last, sources[k], i + 1);
        assert forall|t: int|
            #![trigger place@[t]]
            0 <= t < place@.len() implies place@[t] == (if last@[t] <= i + 1 && exists|m: int|
                0 <= m < k + 1 && #[trigger] is_temp(insn.read()[m], t) {
                None
            } else {
                during[t]
            }) by {
            assert(earlier[t] == (if last@[t] <= i + 1 && exists|m: int|
                0 <= m < k && #[trigger] is_temp(insn.read()[m], t) {
                None
            } else {
                during[t]
            }));
            if is_temp(insn.read()[k as int], t) {
            } else if exists|m: int| 0 <= m < k + 1 && #[trigger] is_temp(insn.read()[m], t) {
                let m = choose|m: int| 0 <= m < k + 1 && #[trigger] is_temp(insn.read()[m], t);
                assert(m < k);
            }
        }
    }
    let ghost partly = place@;
    match insn.dst() {
        Some(dst) => {
            assert(tape.has(insns[i as int].written()->0));
            release(place, holder, last, dst, i + 1);
        },
        None => {},
    }
    proof {
        assert forall|t: int| 0 <= t < place@.len() implies #[trigger] place@[t] == (if last@[t] <= i + 1 && touches(
            insns[i as int],
            t,
        ) {
            None
        } else {
            during[t]
        }) by {
            assert(partly[t] == (if last@[t] <= i + 1 && exists|m: int|
                0 <= m < insn.read().len() && #[trigger] is_temp(insn.read()[m], t) {
                None
            } else {
                during[t]
            }));
        }
        assert forall|t: int| 0 <= t < place@.len() implies ((#[trigger] place@[t]) is Some <==> written_by(
            insns,
            i + 1,
            t,
        ) && needed_from(insns, outs, i + 1, t)) by {
            assert(during[t] is Some <==> written_by(insns, i + 1, t) && needed_from(insns, outs, i as int, t));
            assert(last@[t] > i + 1 <==> needed_from(insns, outs, i + 1, t));
            one_less_needed(insns, outs, i as int, t);
        }
    }
}

impl VirtualTape {
    /// Packs the temporaries and pins everything else: the tape the executors
    /// run.
    ///
    /// Constant `i` is register `i` and local `i` is `i` past the constants.
    /// On every row, the allocated tape comes to the end this one comes to.
    pub fn allocate(self) -> (allocated: AllocatedTape)
        requires
            self.runnable(),
            self.has_room(),
            self.insns@.len() < usize::MAX,
        ensures
            allocated.consts@ == self.consts@,
            allocated.locals == self.locals,
            allocated.spans@ == self.spans@,
            allocated.insns@.len() == self.insns@.len(),
            allocated.partials@.len() == self.partials@.len(),
            self.is_packed_in(allocated.registers as int),
            forall|i: int|
                0 <= i < self.insns@.len() ==> within(#[trigger] allocated.insns@[i], allocated.registers as int)
                    && keeps_apart(self.insns@[i], allocated.insns@[i]),
            forall|semantics: Semantics, row: Seq<Real>|
                same_end(
                    #[trigger] run(self.insns@, semantics, row, primed(self.consts@)),
                    run(allocated.insns@, semantics, row, primed_registers(self.consts@)),
                    self.outputs(),
                    seq![allocated.result] + allocated.partials@,
                ),
    {
        let ghost tape = self;
        let ghost insns = self.insns@;
        let ghost outs = self.outputs();
        let ghost temps = self.temps as int;
        let pool: u16 = self.consts.values.len() as u16;
        let locals: u16 = self.locals;
        let count: usize = self.insns.len();
        let mut outputs: Vec<VirtualRegister> = vec![self.result];
        for k in 0..self.partials.len()
            invariant
                outputs@ =~= seq![self.result] + self.partials@.take(k as int),
        {
            outputs.push(self.partials[k]);
        }
        assert(outputs@ =~= outs);
        let last = last_mentions(&self, &outputs);
        let mut place: Vec<Option<u16>> = vec![None; self.temps as usize];
        let mut holder: Vec<Option<u32>> = Vec::new();
        let mut done: Vec<Instruction<Register>> = Vec::with_capacity(count);
        proof {
            assert(insns.take(0) =~= Seq::empty());
            assert forall|semantics: Semantics, row: Seq<Real>| #[trigger]
                simulated_on(tape, insns.take(0), done@, place@, semantics, row) by {}
        }
        for i in 0..count
            invariant
                self == tape,
                tape.runnable(),
                tape.has_room(),
                insns == tape.insns@,
                outs == tape.outputs(),
                temps == tape.temps,
                count == insns.len(),
                count < usize::MAX,
                pool == tape.consts@.len(),
                locals == tape.locals,
                last@.len() == temps,
                bounds_mentions(last@, insns, outs, count as int),
                place@.len() == temps,
                consistent(place@, holder@),
                holds_the_living(place@, insns, outs, i as int, i as int),
                pool + locals + holder@.len() <= 65535,
                forall|j: int| 0 <= j < i ==> (#[trigger] crowd(insns, outs, temps, j)).len() <= holder@.len(),
                holder@.len() == 0 || exists|j: int|
                    0 <= j < i && holder@.len() <= (#[trigger] crowd(insns, outs, temps, j)).len(),
                done@.len() == i,
                forall|j: int|
                    0 <= j < i ==> within(#[trigger] done@[j], pool + locals + holder@.len()) && keeps_apart(
                        insns[j],
                        done@[j],
                    ),
                simulated(tape, insns.take(i as int), done@, place@),
        {
            let insn = self.insns[i];
            let ghost before = place@;
            let ghost spread = holder@.len();
            claim(&self, i, &mut place, &mut holder);
            let ghost during = place@;
            proof {
                assert(crowd(insns, outs, temps, i as int).len() <= holder@.len());
                if holder@.len() == spread && spread > 0 {
                    let j = choose|j: int| 0 <= j < i && spread <= (#[trigger] crowd(insns, outs, temps, j)).len();
                    assert(holder@.len() <= crowd(insns, outs, temps, j).len());
                }
            }
            let ghost name = |register: VirtualRegister| physical(pool as int, locals as int, during, register);
            proof {
                assert forall|k: int| 0 <= k < insn.read().len() implies tape.has(#[trigger] insn.read()[k]) && placed(
                    before,
                    insn.read()[k],
                ) by {
                    assert(tape.readable(insns[i as int].read()[k], i as int));
                    if insn.read()[k] is Temp {
                        let t = insn.read()[k]->Temp_0 as int;
                        assert(is_temp(insns[i as int].read()[k], t));
                        assert(touches(insns[i as int], t));
                        assert(before[t] is Some);
                    }
                }
                if insn.written() is Some {
                    assert(tape.has(insns[i as int].written()->0));
                    if insn.written()->0 is Temp {
                        let t = insn.written()->0->Temp_0 as int;
                        one_more_writer(insns, i as int, t);
                        assert(touches(insns[i as int], t));
                        assert(during[t] is Some);
                    }
                }
            }
            let rename = |register: VirtualRegister| -> (image: Register)
                requires
                    register matches VirtualRegister::Local(k) ==> k < locals,
                    register matches VirtualRegister::Temp(t) ==> t < place@.len() && (place@[t as int] matches Some(p)
                        ==> pool + locals + p <= 65535),
                    pool + locals <= 65535,
                ensures
                    image == physical(pool as int, locals as int, place@, register),
            {
                physically(pool, locals, &place, register)
            };
            let image = insn.map(rename);
            proof {
                assert(image == insn.renamed(name));
                instruction_is_simulated(tape, insns.take(i as int), done@, before, during, holder@, insn, image);
                operands(insn);
                operands(image);
                assert(keeps_apart(insn, image)) by {
                    assert forall|k: int|
                        0 <= k < insn.read().len() && insn.written() is Some && insn.written() != Some(insn.read()[k]) implies image.written()
                        != Some(#[trigger] image.read()[k]) by {
                        assert(image.read()[k] == name(insn.read()[k]));
                        assert(tape.has(insn.read()[k]) && placed(before, insn.read()[k]));
                        physical_is_injective(tape, during, holder@, insn.written()->0, insn.read()[k]);
                    }
                }
                assert(within(image, pool + locals + holder@.len())) by {
                    assert forall|k: int| 0 <= k < image.read().len() implies (#[trigger] image.read()[k]).0 < pool + locals
                        + holder@.len() by {
                        assert(image.read()[k] == name(insn.read()[k]));
                        assert(tape.has(insn.read()[k]) && placed(before, insn.read()[k]));
                    }
                }
                assert(insns.take(i + 1) =~= insns.take(i as int).push(insn));
            }
            done.push(image);
            release_all(&self, i, &last, &mut place, &mut holder);
            proof {
                fewer_placed_is_simulated(tape, insns.take(i + 1), done@, during, place@);
            }
        }
        assert(insns.take(count as int) =~= insns);
        proof {
            assert forall|k: int| 0 <= k < outs.len() implies tape.has(#[trigger] outs[k]) && placed(place@, outs[k]) by {
                assert(tape.readable(tape.outputs()[k], insns.len() as int));
                if outs[k] is Temp {
                    assert(is_temp(outs[k], outs[k]->Temp_0 as int));
                    assert(place@[outs[k]->Temp_0 as int] is Some);
                }
            }
        }
        assert(tape.has(outs[0]) && placed(place@, outs[0]));
        let result = physically(pool, locals, &place, self.result);
        let mut partials: Vec<Register> = Vec::with_capacity(self.partials.len());
        for k in 0..self.partials.len()
            invariant
                self == tape,
                outs == tape.outputs(),
                pool == tape.consts@.len(),
                locals == tape.locals,
                pool + locals + holder@.len() <= 65535,
                consistent(place@, holder@),
                forall|k: int| 0 <= k < outs.len() ==> tape.has(#[trigger] outs[k]) && placed(place@, outs[k]),
                partials@.len() == k,
                place@.len() == tape.temps,
                forall|j: int|
                    0 <= j < k ==> #[trigger] partials@[j] == physical(
                        pool as int,
                        locals as int,
                        place@,
                        tape.partials@[j],
                    ),
        {
            assert(outs[k + 1] == tape.partials@[k as int]);
            partials.push(physically(pool, locals, &place, self.partials[k]));
        }
        let registers: u16 = pool + locals + holder.len() as u16;
        let mut consts: Vec<Real> = Vec::with_capacity(self.consts.values.len());
        for k in 0..self.consts.values.len()
            invariant
                consts@ =~= self.consts@.take(k as int),
        {
            consts.push(self.consts.values[k]);
        }
        proof {
            assert(consts@ =~= tape.consts@);
            let names = seq![result] + partials@;
            assert forall|semantics: Semantics, row: Seq<Real>|
                same_end(
                    #[trigger] run(insns, semantics, row, primed(tape.consts@)),
                    run(done@, semantics, row, primed_registers(tape.consts@)),
                    outs,
                    names,
                ) by {
                assert(simulated_on(tape, insns, done@, place@, semantics, row));
                match run(insns, semantics, row, primed(tape.consts@)) {
                    Run::Faulted { .. } => {},
                    Run::Running(virtuals) => {
                        let after = run(done@, semantics, row, primed_registers(tape.consts@))->Running_0;
                        assert forall|k: int| 0 <= k < outs.len() implies held(virtuals, #[trigger] outs[k]) == held(
                            after,
                            names[k],
                        ) by {
                            assert(names[k] == physical(pool as int, locals as int, place@, outs[k]));
                        }
                    },
                }
            }
        }
        AllocatedTape { consts, locals, registers, insns: done, spans: self.spans, result, partials }
    }
}

proof fn one_more_writer(insns: Seq<Instruction<VirtualRegister>>, i: int, t: int)
    requires
        0 <= i < insns.len(),
    ensures
        written_by(insns, i + 1, t) <==> written_by(insns, i, t) || (insns[i].written() is Some && is_temp(
            insns[i].written()->0,
            t,
        )),
{
    if written_by(insns, i + 1, t) {
        let j = choose|j: int|
            0 <= j < i + 1 && (#[trigger] insns[j]).written() is Some && is_temp(insns[j].written()->0, t);
        assert(insns[j].written() is Some);
    }
    if written_by(insns, i, t) {
        let j = choose|j: int|
            0 <= j < i && (#[trigger] insns[j]).written() is Some && is_temp(insns[j].written()->0, t);
        assert(insns[j].written() is Some);
    }
}

proof fn one_less_needed(insns: Seq<Instruction<VirtualRegister>>, outputs: Seq<VirtualRegister>, i: int, t: int)
    requires
        0 <= i < insns.len(),
    ensures
        needed_from(insns, outputs, i, t) <==> needed_from(insns, outputs, i + 1, t) || touches(insns[i], t),
{
    if exists|k: int| 0 <= k < outputs.len() && is_temp(#[trigger] outputs[k], t) {
    } else if needed_from(insns, outputs, i, t) {
        let j = choose|j: int| i <= j < insns.len() && touches(#[trigger] insns[j], t);
        assert(touches(insns[j], t));
    }
}

/// The problem a lane's fault is reported as.
pub open spec fn problem_of(kind: FaultKind) -> ProblemKind {
    match kind {
        FaultKind::NonFinite(value) => ProblemKind::NonFiniteValue { value },
        FaultKind::NotAnInteger(value) => ProblemKind::DynamicIndexNotAnInteger { value },
        FaultKind::OutOfBounds { requested_1index, available } => ProblemKind::DynamicIndexOutOfBounds {
            requested_1index,
            available,
        },
    }
}

impl AllocatedTape {
    /// Fills a frame: constants in place, everything else NaN. The NaN is what
    /// makes a `Check` on an unassigned local fire.
    pub fn prime(&self, frame: &mut Vec<Real>)
        requires
            old(frame)@.len() == self.registers,
            self.consts@.len() <= self.registers,
        ensures
            final(frame)@ == Seq::new(
                self.registers as nat,
                |i: int| if i < self.consts@.len() { self.consts@[i] } else { nan() },
            ),
    {
        let count: usize = frame.len();
        for i in 0..count
            invariant
                frame@.len() == count == self.registers,
                forall|j: int|
                    0 <= j < i ==> #[trigger] frame@[j] == (if j < self.consts@.len() {
                        self.consts@[j]
                    } else {
                        nan()
                    }),
        {
            let value = if i < self.consts.len() {
                self.consts[i]
            } else {
                nan()
            };
            frame.set(i, value);
        }
        assert(frame@ =~= Seq::new(
            self.registers as nat,
            |i: int| if i < self.consts@.len() { self.consts@[i] } else { nan() },
        ));
    }

    /// One past the constants: the first local.
    pub fn first_local(&self) -> (index: u16)
        requires
            self.consts@.len() <= 65535,
        ensures
            index == self.consts@.len(),
    {
        self.consts.len() as u16
    }

    /// Renders a lane's fault against the tape's spans: a bad subscript at the
    /// subscript, anything else at the instruction.
    pub fn fault(&self, lane: LaneFault) -> (fault: Fault)
        requires
            lane.insn < self.insns@.len(),
            self.insns@.len() == self.spans@.len(),
        ensures
            fault.kind == problem_of(lane.kind),
            fault.span == reported(self.insns@[lane.insn as int], self.spans@[lane.insn as int], lane.kind).span,
    {
        let at: usize = lane.insn as usize;
        let subscript = match self.insns[at] {
            Instruction::Gather { subscript, .. } => subscript,
            _ => self.spans[at],
        };
        match lane.kind {
            FaultKind::NonFinite(value) => Fault { kind: ProblemKind::NonFiniteValue { value }, span: self.spans[at] },
            FaultKind::NotAnInteger(value) => Fault {
                kind: ProblemKind::DynamicIndexNotAnInteger { value },
                span: subscript,
            },
            FaultKind::OutOfBounds { requested_1index, available } => Fault {
                kind: ProblemKind::DynamicIndexOutOfBounds { requested_1index, available },
                span: subscript,
            },
        }
    }
}

} // verus!
