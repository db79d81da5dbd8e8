//! Allocation for callers that cannot promise that the commands can be
//! carried out: the same walk, which stops at the first command that cannot
//! and says what is wrong with it.
use vstd::prelude::*;
use std::collections::VecDeque;
use crate::hla::allocation::{
    allocation_of, can_pin, can_run, can_step, emitted, has_free, input, pinned, place, pool_of,
    read, rewritten, run, step, Allocation,
};
use crate::hla::builders::texts;
use crate::hla::liveness::commands;
use crate::hla::{
    register_of, typed, Allocator, Command, FreshRegister, HardwareRegister, InstructionF,
    InstructionText, LivenessCommand, Reg, RegisterBank, RegisterMapping, RegisterSource,
    RegisterState, TypedSizedRegister,
};

verus! {

/// Why a sequence of commands cannot be carried out.
#[derive(Debug, PartialEq, Eq, Clone, Copy)]
pub enum AllocationError {
    /// A register is beyond the end of the mapping.
    UnknownRegister,
    /// A destination needs a physical register and the pool of its class is
    /// empty.
    RanOutOfRegisters,
    /// An instruction mentions a register that has been dropped.
    AlreadyDropped,
    /// A source register holds no physical register.
    NotAssigned,
    /// A register is dropped that was never given a physical register.
    DropOfUnassigned,
    /// A register is dropped a second time.
    DoubleDrop,
    /// The physical register of a dropped register is free already: two
    /// fresh registers hold it.
    SharedRegister,
}

/// Why the source registers `src[from..]` cannot be read, if they cannot.
pub open spec fn read_failure(
    s: Allocation,
    src: Seq<TypedSizedRegister<FreshRegister>>,
    from: int,
) -> Option<AllocationError>
    decreases src.len() - from,
{
    if from < 0 || from >= src.len() {
        None
    } else if register_of(src[from]) >= s.mapping.len() {
        Some(AllocationError::UnknownRegister)
    } else {
        match s.mapping[register_of(src[from]) as int] {
            RegisterState::Unassigned => Some(AllocationError::NotAssigned),
            RegisterState::Dropped => Some(AllocationError::AlreadyDropped),
            RegisterState::Assigned(_) => read_failure(s, src, from + 1),
        }
    }
}

/// Why a command cannot be carried out, if it cannot.
pub open spec fn step_failure(s: Allocation, c: Command) -> Option<AllocationError> {
    match c {
        Command::Instr(i) => {
            if register_of(i.dest) >= s.mapping.len() {
                Some(AllocationError::UnknownRegister)
            } else {
                match s.mapping[register_of(i.dest) as int] {
                    RegisterState::Dropped => Some(AllocationError::AlreadyDropped),
                    RegisterState::Unassigned => if has_free(
                        pool_of(i.dest, s.scalars, s.vectors),
                    ) {
                        read_failure(place(s, i.dest), i.src, 0)
                    } else {
                        Some(AllocationError::RanOutOfRegisters)
                    },
                    RegisterState::Assigned(_) => read_failure(place(s, i.dest), i.src, 0),
                }
            }
        },
        Command::Drop(r) => {
            if register_of(r) >= s.mapping.len() {
                Some(AllocationError::UnknownRegister)
            } else {
                match s.mapping[register_of(r) as int] {
                    RegisterState::Unassigned => Some(AllocationError::DropOfUnassigned),
                    RegisterState::Dropped => Some(AllocationError::DoubleDrop),
                    RegisterState::Assigned(held) => if pool_of(
                        held,
                        s.scalars,
                        s.vectors,
                    ).contains(register_of(held)) {
                        Some(AllocationError::SharedRegister)
                    } else {
                        None
                    },
                }
            }
        },
    }
}

/// Why a sequence of commands cannot be carried out, if it cannot: what is
/// wrong with the first command that fails.
pub open spec fn failure(s: Allocation, cs: Seq<Command>) -> Option<AllocationError>
    decreases cs.len(),
{
    if cs.len() == 0 {
        None
    } else if step_failure(s, cs[0]) is Some {
        step_failure(s, cs[0])
    } else {
        failure(step(s, cs[0]), cs.skip(1))
    }
}

/// The sources from `from` on can be read just when nothing is wrong with
/// them.
pub proof fn lemma_read_failure(
    s: Allocation,
    src: Seq<TypedSizedRegister<FreshRegister>>,
    from: int,
)
    requires
        0 <= from <= src.len(),
    ensures
        read_failure(s, src, from) is None <==> forall|j: int|
            from <= j < src.len() ==> register_of(#[trigger] src[j]) < s.mapping.len()
                && s.mapping[register_of(src[j]) as int] is Assigned,
    decreases src.len() - from,
{
    if from < src.len() {
        lemma_read_failure(s, src, from + 1);
        if read_failure(s, src, from) is None {
            assert forall|j: int| from <= j < src.len() implies register_of(#[trigger] src[j])
                < s.mapping.len() && s.mapping[register_of(src[j]) as int] is Assigned by {
                if j > from {
                }
            }
        }
    }
}

/// A command can be carried out just when nothing is wrong with it.
pub proof fn lemma_step_failure(s: Allocation, c: Command)
    ensures
        step_failure(s, c) is None <==> can_step(s, c),
{
    match c {
        Command::Instr(i) => {
            lemma_read_failure(place(s, i.dest), i.src, 0);
        },
        Command::Drop(_) => {},
    }
}

/// A sequence of commands can be carried out just when nothing is wrong with
/// any of them.
pub proof fn lemma_failure(s: Allocation, cs: Seq<Command>)
    ensures
        failure(s, cs) is None <==> can_run(s, cs),
    decreases cs.len(),
{
    if cs.len() > 0 {
        lemma_step_failure(s, cs[0]);
        lemma_failure(step(s, cs[0]), cs.skip(1));
    }
}

/// [`input`] for callers that cannot know whether the physical register is
/// free: where it is, and the mapping has room for one more fresh register,
/// the new register comes back; where not, nothing changes.
pub fn try_input<T>(
    allocator: &mut Allocator,
    mapping: &mut RegisterMapping,
    phys_registers: &mut RegisterBank,
    phys: u64,
) -> (r: Option<Reg<T>>) where T: RegisterSource
    ensures
        r is Some <==> can_pin(
            allocation_of(*old(mapping), *old(phys_registers)),
            old(allocator).next(),
            typed(T::vector_size(), phys),
        ),
        r is None ==> final(allocator).next() == old(allocator).next() && allocation_of(
            *final(mapping),
            *final(phys_registers),
        ) == allocation_of(*old(mapping), *old(phys_registers)),
        r is Some ==> r->Some_0.id() == old(allocator).next(),
        r is Some ==> final(allocator).next() == old(allocator).next() + 1,
        r is Some ==> allocation_of(*final(mapping), *final(phys_registers)) == pinned(
            allocation_of(*old(mapping), *old(phys_registers)),
            old(allocator).next(),
            typed(T::vector_size(), phys),
        ),
{
    let size: usize = mapping.len();
    let room = allocator.peek() < size as u64;
    let free = phys_registers.is_free(T::to_typed_register(phys));
    if room && free {
        Some(input(allocator, mapping, phys_registers, phys))
    } else {
        None
    }
}

/// The state of allocation with the mapping alone, both pools empty.
pub open spec fn mapping_alone(mapping: Seq<RegisterState>) -> Allocation {
    Allocation { mapping, scalars: Set::empty(), vectors: Set::empty() }
}

/// Looks up the sources, as far as nothing is wrong with them.
fn try_read(mapping: &RegisterMapping, src: &Vec<TypedSizedRegister<FreshRegister>>) -> (r: Result<
    Vec<TypedSizedRegister<HardwareRegister>>,
    AllocationError,
>)
    ensures
        match r {
            Ok(v) => read_failure(mapping_alone(mapping@), src@, 0) is None && v@ == read(
                mapping_alone(mapping@),
                src@,
            ),
            Err(e) => read_failure(mapping_alone(mapping@), src@, 0) == Some(e),
        },
{
    let ghost s = mapping_alone(mapping@);
    let mut out: Vec<TypedSizedRegister<HardwareRegister>> = Vec::new();
    let n = src.len();
    let size = mapping.len();
    let mut j: usize = 0;
    while j < n
        invariant
            j <= n,
            n == src@.len(),
            size == mapping@.len(),
            s == mapping_alone(mapping@),
            read_failure(s, src@, 0) == read_failure(s, src@, j as int),
            out@ == read(s, src@).take(j as int),
        decreases n - j,
    {
        let id: FreshRegister = *src[j].as_fresh();
        if id >= size as u64 {
            return Err(AllocationError::UnknownRegister);
        }
        match mapping.index(id) {
            RegisterState::Unassigned => {
                return Err(AllocationError::NotAssigned);
            },
            RegisterState::Dropped => {
                return Err(AllocationError::AlreadyDropped);
            },
            RegisterState::Assigned(reg) => {
                out.push(*reg);
                assert(out@ =~= read(s, src@).take(j + 1));
            },
        }
        j += 1;
    }
    assert(out@ =~= read(s, src@));
    Ok(out)
}

/// The sources are read from the mapping alone.
proof fn lemma_read_ignores_pools(
    s: Allocation,
    t: Allocation,
    src: Seq<TypedSizedRegister<FreshRegister>>,
    from: int,
)
    requires
        s.mapping == t.mapping,
        0 <= from <= src.len(),
    ensures
        read_failure(s, src, from) == read_failure(t, src, from),
        read(s, src) =~= read(t, src),
    decreases src.len() - from,
{
    if from < src.len() {
        lemma_read_ignores_pools(s, t, src, from + 1);
    }
}

/// Carries out one command, if nothing is wrong with it.
fn try_step(
    mapping: &mut RegisterMapping,
    register_bank: &mut RegisterBank,
    command: LivenessCommand,
) -> (r: Result<Option<InstructionF<HardwareRegister>>, AllocationError>)
    ensures
        match r {
            Ok(emitted) => {
                &&& can_step(allocation_of(*old(mapping), *old(register_bank)), command@)
                &&& allocation_of(*final(mapping), *final(register_bank)) == step(
                    allocation_of(*old(mapping), *old(register_bank)),
                    command@,
                )
                &&& match command@ {
                    Command::Instr(i) => emitted is Some && emitted->Some_0@ == rewritten(
                        allocation_of(*old(mapping), *old(register_bank)),
                        i,
                    ),
                    Command::Drop(_) => emitted is None,
                }
            },
            Err(e) => step_failure(allocation_of(*old(mapping), *old(register_bank)), command@)
                == Some(e),
        },
{
    let ghost state = allocation_of(*mapping, *register_bank);
    proof {
        lemma_step_failure(state, command@);
    }
    let size = mapping.len();
    match command {
        LivenessCommand::Instr(inst) => {
            let id: FreshRegister = *inst.dest.as_fresh();
            if id >= size as u64 {
                return Err(AllocationError::UnknownRegister);
            }
            match mapping.index(id) {
                RegisterState::Dropped => {
                    return Err(AllocationError::AlreadyDropped);
                },
                RegisterState::Unassigned => {
                    if !register_bank.has_free(inst.dest) {
                        return Err(AllocationError::RanOutOfRegisters);
                    }
                },
                RegisterState::Assigned(_) => {},
            }
            let ghost text = inst@;
            let InstructionF { opcode, dest, src, modifiers } = inst;
            let new_dest = mapping.get_or_allocate_register(register_bank, dest);
            proof {
                let after = allocation_of(*mapping, *register_bank);
                lemma_read_ignores_pools(after, mapping_alone(mapping@), src@, 0);
                lemma_read_failure(after, src@, 0);
            }
            match try_read(mapping, &src) {
                Err(e) => Err(e),
                Ok(new_src) => Ok(
                    Some(InstructionF { opcode, dest: new_dest, src: new_src, modifiers }),
                ),
            }
        },
        LivenessCommand::Drop(fresh) => {
            let id: FreshRegister = *fresh.as_fresh();
            if id >= size as u64 {
                return Err(AllocationError::UnknownRegister);
            }
            match mapping.index(id) {
                RegisterState::Unassigned => {
                    return Err(AllocationError::DropOfUnassigned);
                },
                RegisterState::Dropped => {
                    return Err(AllocationError::DoubleDrop);
                },
                RegisterState::Assigned(held) => {
                    if register_bank.is_free(*held) {
                        return Err(AllocationError::SharedRegister);
                    }
                },
            }
            mapping.free_register(register_bank, fresh);
            Ok(None)
        },
    }
}

/// [`hardware_register_allocation`] for callers that cannot know whether
/// the commands can be carried out: stops at the first command that cannot,
/// and says what is wrong with it.
pub fn try_hardware_register_allocation(
    mapping: &mut RegisterMapping,
    register_bank: &mut RegisterBank,
    commands: VecDeque<LivenessCommand>,
) -> (r: Result<Vec<InstructionF<HardwareRegister>>, AllocationError>)
    ensures
        match r {
            Ok(v) => {
                &&& can_run(
                    allocation_of(*old(mapping), *old(register_bank)),
                    self::commands(commands@),
                )
                &&& texts(v@) == emitted(
                    allocation_of(*old(mapping), *old(register_bank)),
                    self::commands(commands@),
                )
                &&& allocation_of(*final(mapping), *final(register_bank)) == run(
                    allocation_of(*old(mapping), *old(register_bank)),
                    self::commands(commands@),
                )
            },
            Err(e) => failure(
                allocation_of(*old(mapping), *old(register_bank)),
                self::commands(commands@),
            ) == Some(e),
        },
{
    let mut queue = commands;
    let ghost all = self::commands(commands@);
    let ghost start = allocation_of(*mapping, *register_bank);
    let mut out: Vec<InstructionF<HardwareRegister>> = Vec::new();
    assert(texts(out@) =~= Seq::empty());
    while queue.len() > 0
        invariant
            all == self::commands(commands@),
            start == allocation_of(*old(mapping), *old(register_bank)),
            failure(start, all) == failure(
                allocation_of(*mapping, *register_bank),
                self::commands(queue@),
            ),
            emitted(start, all) == texts(out@) + emitted(
                allocation_of(*mapping, *register_bank),
                self::commands(queue@),
            ),
            run(start, all) == run(allocation_of(*mapping, *register_bank), self::commands(queue@)),
        decreases queue@.len(),
    {
        let ghost state = allocation_of(*mapping, *register_bank);
        let ghost pending = self::commands(queue@);
        let ghost done = texts(out@);
        let command = queue.pop_front().unwrap();
        proof {
            assert(pending[0] == command@);
            assert(self::commands(queue@) =~= pending.skip(1));
            lemma_step_failure(state, pending[0]);
        }
        let stepped = try_step(mapping, register_bank, command);
        match stepped {
            Err(e) => {
                return Err(e);
            },
            Ok(Some(instruction)) => {
                let ghost text = instruction@;
                out.push(instruction);
                proof {
                    assert(texts(out@) =~= done.push(text));
                    lemma_emitted_step(state, pending, done, texts(out@));
                }
            },
            Ok(None) => {},
        }
    }
    proof {
        assert(self::commands(queue@) =~= Seq::empty());
        assert(texts(out@) + Seq::empty() =~= texts(out@));
        lemma_failure(start, all);
    }
    Ok(out)
}

/// What a sequence of commands that begins with an instruction emits, seen
/// from what has been emitted before it.
proof fn lemma_emitted_step(
    state: Allocation,
    pending: Seq<Command>,
    done: Seq<InstructionText<u64>>,
    after: Seq<InstructionText<u64>>,
)
    requires
        pending.len() > 0,
        pending[0] is Instr,
        after == done.push(rewritten(state, pending[0]->Instr_0)),
    ensures
        done + emitted(state, pending) == after + emitted(
            step(state, pending[0]),
            pending.skip(1),
        ),
{
    let text = rewritten(state, pending[0]->Instr_0);
    let next = emitted(step(state, pending[0]), pending.skip(1));
    assert(done + (seq![text] + next) =~= done.push(text) + next);
}

} // verus!
