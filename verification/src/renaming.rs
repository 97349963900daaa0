//! Single assignment: every value in a register of its own for the life of the
//! tape, which is what a sweep that reads intermediates after the fact relies
//! on.
//!
//! The emitter writes a fold's accumulator once per term and a local where the
//! front end put it; this undoes both. Straight-line code needs no more than
//! renaming: every write goes to a fresh temporary and every read names the
//! write it sees.

use vstd::prelude::*;
use std::collections::HashMap;
use crate::number::Real;
use crate::semantics::{held, run, step, Run, Semantics};
use crate::tape::{operands, Instruction, VirtualRegister, VirtualTape};

verus! {

broadcast use vstd::std_specs::hash::group_hash_axioms;

/// Straight-line code renamed so far.
pub ghost struct Renaming {
    pub insns: Seq<Instruction<VirtualRegister>>,
    /// Which fresh temporary has each register's latest value.
    pub version: Map<VirtualRegister, VirtualRegister>,
    pub temps: int,
}

/// The register that has the latest value of `register`.
pub open spec fn latest(version: Map<VirtualRegister, VirtualRegister>, register: VirtualRegister) -> VirtualRegister {
    if version.contains_key(register) {
        version[register]
    } else {
        register
    }
}

/// Straight-line code renamed, with temporaries from `temps` on.
pub open spec fn renaming(insns: Seq<Instruction<VirtualRegister>>, temps: int) -> Renaming
    decreases insns.len(),
{
    if insns.len() == 0 {
        Renaming { insns: Seq::empty(), version: Map::empty(), temps }
    } else {
        let before = renaming(insns.drop_last(), temps);
        let insn = insns.last();
        let read = insn.renamed(|register: VirtualRegister| latest(before.version, register));
        match insn.written() {
            None => Renaming { insns: before.insns.push(read), ..before },
            Some(dst) => {
                let fresh = VirtualRegister::Temp(before.temps as u32);
                Renaming {
                    insns: before.insns.push(read.writing(fresh)),
                    version: before.version.insert(dst, fresh),
                    temps: before.temps + 1,
                }
            },
        }
    }
}

/// How many instructions write a register.
pub open spec fn writes(insns: Seq<Instruction<VirtualRegister>>) -> int
    decreases insns.len(),
{
    if insns.len() == 0 {
        0
    } else {
        writes(insns.drop_last()) + if insns.last().written() is Some {
            1int
        } else {
            0
        }
    }
}

/// Whether every temporary of an instruction is below `temps`.
pub open spec fn numbered(insn: Instruction<VirtualRegister>, temps: int) -> bool {
    &&& insn.written() is Some ==> below(insn.written()->0, temps)
    &&& forall|k: int| 0 <= k < insn.read().len() ==> below(#[trigger] insn.read()[k], temps)
}

pub open spec fn below(register: VirtualRegister, temps: int) -> bool {
    register matches VirtualRegister::Temp(t) ==> t < temps
}

proof fn renaming_counts(insns: Seq<Instruction<VirtualRegister>>, temps: int)
    ensures
        renaming(insns, temps).temps == temps + writes(insns),
        renaming(insns, temps).insns.len() == insns.len(),
        0 <= writes(insns) <= insns.len(),
    decreases insns.len(),
{
    if insns.len() > 0 {
        renaming_counts(insns.drop_last(), temps);
    }
}

proof fn writes_grow(insns: Seq<Instruction<VirtualRegister>>, at: int)
    requires
        0 <= at <= insns.len(),
    ensures
        writes(insns.take(at)) <= writes(insns),
    decreases insns.len() - at,
{
    if at == insns.len() {
        assert(insns.take(at) =~= insns);
    } else {
        writes_grow(insns, at + 1);
        assert(insns.take(at + 1).drop_last() =~= insns.take(at));
    }
}

/// A number of its own for every register.
pub open spec fn code(register: VirtualRegister) -> u64 {
    match register {
        VirtualRegister::Const(i) => i as u64,
        VirtualRegister::Local(i) => (0x1_0000 + i) as u64,
        VirtualRegister::Temp(t) => (0x2_0000 + t) as u64,
    }
}

pub fn coded(register: VirtualRegister) -> (number: u64)
    ensures
        number == code(register),
{
    match register {
        VirtualRegister::Const(i) => i as u64,
        VirtualRegister::Local(i) => 0x1_0000 + i as u64,
        VirtualRegister::Temp(t) => 0x2_0000 + t as u64,
    }
}

spec fn represents(table: Map<u64, VirtualRegister>, version: Map<VirtualRegister, VirtualRegister>) -> bool {
    forall|register: VirtualRegister|
        (#[trigger] version.contains_key(register) <==> table.contains_key(code(register))) && (version.contains_key(register)
            ==> table[code(register)] == version[register])
}

spec fn looked_up(table: Map<u64, VirtualRegister>, register: VirtualRegister) -> VirtualRegister {
    if table.contains_key(code(register)) {
        table[code(register)]
    } else {
        register
    }
}

proof fn looking_up_is_the_latest(table: Map<u64, VirtualRegister>, version: Map<VirtualRegister, VirtualRegister>)
    requires
        represents(table, version),
    ensures
        forall|register: VirtualRegister| #[trigger] looked_up(table, register) == latest(version, register),
{
    assert forall|register: VirtualRegister| #[trigger] looked_up(table, register) == latest(version, register) by {
        assert(version.contains_key(register) <==> table.contains_key(code(register)));
    }
}

fn look_up(table: &HashMap<u64, VirtualRegister>, register: VirtualRegister) -> (found: VirtualRegister)
    ensures
        found == looked_up(table@, register),
{
    let number: u64 = coded(register);
    match table.get(&number) {
        Some(found) => *found,
        None => register,
    }
}

impl VirtualTape {
    /// The same computation with every write to a fresh temporary and every
    /// read naming the write it sees. Constants stay where they are; the
    /// temporary numbering continues past this tape's own.
    pub fn single_assignment(&self) -> (renamed: VirtualTape)
        requires
            self.consts.well_formed(),
            self.temps + writes(self.insns@) <= u32::MAX,
        ensures
            ({
                let done = renaming(self.insns@, self.temps as int);
                &&& renamed.consts.well_formed()
                &&& renamed.consts@ == self.consts@
                &&& renamed.locals == self.locals
                &&& renamed.temps == done.temps
                &&& renamed.insns@ == done.insns
                &&& renamed.spans@ == self.spans@
                &&& renamed.result == latest(done.version, self.result)
                &&& renamed.partials@ == self.partials@.map_values(
                    |register: VirtualRegister| latest(done.version, register),
                )
            }),
    {
        let ghost all = self.insns@;
        let ghost start = self.temps as int;
        let mut insns: Vec<Instruction<VirtualRegister>> = Vec::with_capacity(self.insns.len());
        let mut temps: u32 = self.temps;
        let mut table: HashMap<u64, VirtualRegister> = HashMap::new();
        assert(all.take(0) =~= Seq::empty());
        for i in 0..self.insns.len()
            invariant
                all == self.insns@,
                start == self.temps,
                start + writes(all) <= u32::MAX,
                insns@ == renaming(all.take(i as int), start).insns,
                temps == renaming(all.take(i as int), start).temps,
                represents(table@, renaming(all.take(i as int), start).version),
        {
            let ghost before = renaming(all.take(i as int), start);
            proof {
                assert(all.take(i + 1).drop_last() =~= all.take(i as int));
                assert(all.take(i + 1).last() == all[i as int]);
                renaming_counts(all.take(i + 1), start);
                writes_grow(all, i + 1);
                looking_up_is_the_latest(table@, before.version);
            }
            let insn = self.insns[i];
            let rename = |register: VirtualRegister| -> (image: VirtualRegister)
                ensures
                    image == looked_up(table@, register),
            {
                look_up(&table, register)
            };
            let read = insn.map(rename);
            let ghost name = |register: VirtualRegister| latest(before.version, register);
            assert(read == insn.renamed(name));
            match insn.dst() {
                None => insns.push(read),
                Some(dst) => {
                    let fresh = VirtualRegister::Temp(temps);
                    insns.push(read.with_dst(fresh));
                    table.insert(coded(dst), fresh);
                    temps = temps + 1;
                },
            }
            proof {
                let after = renaming(all.take(i + 1), start);
                assert(represents(table@, after.version)) by {
                    assert forall|register: VirtualRegister|
                        (#[trigger] after.version.contains_key(register) <==> table@.contains_key(code(register))) && (
                        after.version.contains_key(register) ==> table@[code(register)] == after.version[register]) by {
                        assert(before.version.contains_key(register) == before.version.contains_key(register));
                    }
                }
            }
        }
        assert(all.take(all.len() as int) =~= all);
        let ghost done = renaming(all, start);
        proof {
            looking_up_is_the_latest(table@, done.version);
        }
        let mut partials: Vec<VirtualRegister> = Vec::with_capacity(self.partials.len());
        for i in 0..self.partials.len()
            invariant
                forall|register: VirtualRegister| #[trigger]
                    looked_up(table@, register) == latest(done.version, register),
                partials@ =~= self.partials@.take(i as int).map_values(
                    |register: VirtualRegister| latest(done.version, register),
                ),
        {
            let image = look_up(&table, self.partials[i]);
            partials.push(image);
        }
        assert(self.partials@.take(self.partials@.len() as int) =~= self.partials@);
        let result = look_up(&table, self.result);
        VirtualTape {
            consts: self.consts.duplicate(),
            locals: self.locals,
            temps,
            insns,
            spans: self.spans.clone(),
            result,
            partials,
        }
    }
}

spec fn fresh_versions(version: Map<VirtualRegister, VirtualRegister>, from: int, to: int) -> bool {
    forall|register: VirtualRegister| #[trigger]
        version.contains_key(register) ==> (version[register] matches VirtualRegister::Temp(t) && from <= t < to)
}

proof fn versions_are_fresh(insns: Seq<Instruction<VirtualRegister>>, temps: int)
    requires
        0 <= temps,
        temps + writes(insns) <= u32::MAX,
    ensures
        fresh_versions(renaming(insns, temps).version, temps, renaming(insns, temps).temps),
    decreases insns.len(),
{
    if insns.len() > 0 {
        renaming_counts(insns.drop_last(), temps);
        versions_are_fresh(insns.drop_last(), temps);
    }
}

/// Renaming keeps the meaning of straight-line code: it faults where the
/// original faults, and the latest register of every register holds what the
/// original register holds.
pub proof fn renaming_computes_the_same(
    insns: Seq<Instruction<VirtualRegister>>,
    temps: int,
    semantics: Semantics,
    row: Seq<Real>,
    start: Map<VirtualRegister, Real>,
)
    requires
        0 <= temps,
        temps + writes(insns) <= u32::MAX,
        forall|i: int| 0 <= i < insns.len() ==> numbered(#[trigger] insns[i], temps),
    ensures
        match run(insns, semantics, row, start) {
            Run::Faulted { insn, kind } => run(renaming(insns, temps).insns, semantics, row, start) == (Run::<
                VirtualRegister,
            >::Faulted { insn, kind }),
            Run::Running(original) => {
                &&& run(renaming(insns, temps).insns, semantics, row, start) is Running
                &&& forall|register: VirtualRegister|
                    below(register, temps) ==> #[trigger] held(original, register) == held(
                        run(renaming(insns, temps).insns, semantics, row, start)->Running_0,
                        latest(renaming(insns, temps).version, register),
                    )
            },
        },
    decreases insns.len(),
{
    if insns.len() > 0 {
        let rest = insns.drop_last();
        let insn = insns.last();
        let before = renaming(rest, temps);
        let after = renaming(insns, temps);
        renaming_counts(rest, temps);
        renaming_counts(insns, temps);
        versions_are_fresh(rest, temps);
        assert forall|i: int| 0 <= i < rest.len() implies numbered(#[trigger] rest[i], temps) by {
            assert(numbered(insns[i], temps));
        }
        renaming_computes_the_same(rest, temps, semantics, row, start);
        assert(numbered(insns[insns.len() - 1], temps));
        assert(after.insns.drop_last() =~= before.insns);
        match run(rest, semantics, row, start) {
            Run::Faulted { .. } => {},
            Run::Running(original) => {
                let renamed = run(before.insns, semantics, row, start)->Running_0;
                let name = |register: VirtualRegister| latest(before.version, register);
                assert forall|k: int| 0 <= k < insn.read().len() implies held(original, #[trigger] insn.read()[k]) == held(
                    renamed,
                    name(insn.read()[k]),
                ) by {
                    assert(below(insn.read()[k], temps));
                }
                operands(insn);
                if insn.written() is Some {
                    let dst = insn.written()->0;
                    let fresh = VirtualRegister::Temp(before.temps as u32);
                    if step(insn, semantics, row, original) is Ok {
                        let next = step(insn, semantics, row, original)->Ok_0;
                        let value = next[dst];
                        assert(next == original.insert(dst, value));
                        let also = step(after.insns.last(), semantics, row, renamed)->Ok_0;
                        assert(also == renamed.insert(fresh, value));
                        assert forall|register: VirtualRegister| below(register, temps) implies #[trigger] held(
                            next,
                            register,
                        ) == held(also, latest(after.version, register)) by {
                            if register != dst {
                                assert(held(original, register) == held(renamed, latest(before.version, register)));
                                assert(latest(after.version, register) == latest(before.version, register));
                                assert(before.version.contains_key(register) || !before.version.contains_key(register));
                                assert(latest(before.version, register) != fresh);
                            }
                        }
                    }
                }
            },
        }
    }
}

/// After renaming, every write is to a register of its own, and no instruction
/// reads a register that it or a later one writes.
pub proof fn renaming_assigns_once(insns: Seq<Instruction<VirtualRegister>>, temps: int)
    requires
        0 <= temps,
        temps + writes(insns) <= u32::MAX,
        forall|i: int| 0 <= i < insns.len() ==> numbered(#[trigger] insns[i], temps),
    ensures
        ({
            let done = renaming(insns, temps).insns;
            &&& forall|i: int, j: int|
                0 <= i < j < done.len() && done[i].written() is Some ==> #[trigger] done[i].written()
                    != #[trigger] done[j].written()
            &&& forall|i: int, j: int, k: int|
                0 <= i <= j < done.len() && 0 <= k < done[i].read().len() ==> #[trigger] done[j].written() != Some(
                    #[trigger] done[i].read()[k],
                )
        }),
    decreases insns.len(),
{
    tags_increase(insns, temps);
}

/// The fresh temporaries come in order, and everything read is older.
spec fn ordered(done: Seq<Instruction<VirtualRegister>>, from: int, to: int) -> bool {
    &&& forall|j: int|
        0 <= j < done.len() ==> ((#[trigger] done[j]).written() is Some ==> (done[j].written()->0 matches VirtualRegister::Temp(t)
            && from <= t < to))
    &&& forall|i: int, j: int|
        0 <= i < j < done.len() && (#[trigger] done[i]).written() is Some && (#[trigger] done[j]).written() is Some
            ==> done[i].written()->0->Temp_0 < done[j].written()->0->Temp_0
    &&& forall|i: int, j: int, k: int|
        0 <= i <= j < done.len() && 0 <= k < done[i].read().len() && (#[trigger] done[j]).written() is Some ==> below(
            #[trigger] done[i].read()[k],
            done[j].written()->0->Temp_0 as int,
        )
    &&& forall|i: int, k: int| 0 <= i < done.len() && 0 <= k < done[i].read().len() ==> below(#[trigger] done[i].read()[k], to)
}

proof fn tags_increase(insns: Seq<Instruction<VirtualRegister>>, temps: int)
    requires
        0 <= temps,
        temps + writes(insns) <= u32::MAX,
        forall|i: int| 0 <= i < insns.len() ==> numbered(#[trigger] insns[i], temps),
    ensures
        ordered(renaming(insns, temps).insns, temps, renaming(insns, temps).temps),
    decreases insns.len(),
{
    if insns.len() > 0 {
        let rest = insns.drop_last();
        let insn = insns.last();
        renaming_counts(rest, temps);
        renaming_counts(insns, temps);
        versions_are_fresh(rest, temps);
        assert forall|i: int| 0 <= i < rest.len() implies numbered(#[trigger] rest[i], temps) by {
            assert(numbered(insns[i], temps));
        }
        tags_increase(rest, temps);
        assert(numbered(insns[insns.len() - 1], temps));
        let before = renaming(rest, temps);
        let done = renaming(insns, temps).insns;
        let last = done.len() - 1;
        operands(insn);
        operands(done[last]);
        assert forall|k: int| 0 <= k < done[last].read().len() implies below(#[trigger] done[last].read()[k], before.temps) by {
            assert(below(insn.read()[k], temps));
            assert(done[last].read()[k] == latest(before.version, insn.read()[k]));
            assert(before.version.contains_key(insn.read()[k]) || !before.version.contains_key(insn.read()[k]));
        }
        assert forall|i: int| 0 <= i < last implies done[i] == #[trigger] before.insns[i] by {}
    }
}

/// Whether a register is one of so many constants, locals and temporaries.
pub open spec fn fits(register: VirtualRegister, pool: int, locals: int, temps: int) -> bool {
    match register {
        VirtualRegister::Const(c) => c < pool,
        VirtualRegister::Local(l) => l < locals,
        VirtualRegister::Temp(t) => t < temps,
    }
}

/// Whether every register of an instruction is.
pub open spec fn all_fit(insn: Instruction<VirtualRegister>, pool: int, locals: int, temps: int) -> bool {
    &&& insn.written() is Some ==> fits(insn.written()->0, pool, locals, temps)
    &&& forall|k: int| 0 <= k < insn.read().len() ==> fits(#[trigger] insn.read()[k], pool, locals, temps)
}

/// Renaming brings in no register but the fresh temporaries.
pub proof fn renaming_stays_in_range(insns: Seq<Instruction<VirtualRegister>>, pool: int, locals: int, temps: int)
    requires
        0 <= temps,
        temps + writes(insns) <= u32::MAX,
        forall|i: int| 0 <= i < insns.len() ==> all_fit(#[trigger] insns[i], pool, locals, temps),
    ensures
        ({
            let done = renaming(insns, temps);
            &&& forall|i: int| 0 <= i < done.insns.len() ==> all_fit(#[trigger] done.insns[i], pool, locals, done.temps)
            &&& forall|i: int|
                0 <= i < done.insns.len() ==> ((#[trigger] done.insns[i]).written() is Some ==> done.insns[i].written()->0 is Temp
                    && done.insns[i].written()->0->Temp_0 >= temps)
            &&& forall|register: VirtualRegister|
                fits(register, pool, locals, temps) ==> fits(
                    #[trigger] latest(done.version, register),
                    pool,
                    locals,
                    done.temps,
                )
            &&& done.insns.len() == insns.len()
            &&& temps <= done.temps
            &&& done.temps == temps + writes(insns)
        }),
    decreases insns.len(),
{
    renaming_counts(insns, temps);
    versions_are_fresh(insns, temps);
    let done = renaming(insns, temps);
    assert forall|register: VirtualRegister| fits(register, pool, locals, temps) implies fits(
        #[trigger] latest(done.version, register),
        pool,
        locals,
        done.temps,
    ) by {
        if done.version.contains_key(register) {
            assert(done.version[register] is Temp);
        }
    }
    if insns.len() > 0 {
        let rest = insns.drop_last();
        let insn = insns.last();
        renaming_counts(rest, temps);
        assert forall|i: int| 0 <= i < rest.len() implies all_fit(#[trigger] rest[i], pool, locals, temps) by {
            assert(rest[i] == insns[i]);
        }
        renaming_stays_in_range(rest, pool, locals, temps);
        let before = renaming(rest, temps);
        assert(all_fit(insns[insns.len() - 1], pool, locals, temps));
        operands(insn);
        let last = done.insns[done.insns.len() - 1];
        operands(last);
        assert forall|k: int| 0 <= k < last.read().len() implies fits(#[trigger] last.read()[k], pool, locals, done.temps) by {
            assert(fits(insn.read()[k], pool, locals, temps));
            assert(last.read()[k] == latest(before.version, insn.read()[k]));
        }
        assert forall|i: int| 0 <= i < done.insns.len() implies all_fit(#[trigger] done.insns[i], pool, locals, done.temps)
            && (done.insns[i].written() is Some ==> done.insns[i].written()->0 is Temp && done.insns[i].written()->0->Temp_0
            >= temps) by {
            if i < rest.len() {
                assert(done.insns[i] == before.insns[i]);
                assert(all_fit(before.insns[i], pool, locals, before.temps));
                assert forall|k: int| 0 <= k < done.insns[i].read().len() implies fits(
                    #[trigger] done.insns[i].read()[k],
                    pool,
                    locals,
                    done.temps,
                ) by {
                    assert(fits(before.insns[i].read()[k], pool, locals, before.temps));
                }
            }
        }
    }
}

} // verus!
