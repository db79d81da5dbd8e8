//! Liveness analysis: where the life of every fresh register ends.
use vstd::prelude::*;
use std::collections::{HashSet, VecDeque};
use crate::hla::builders::texts;
use crate::hla::{
    drop_size, sizeless, typed, Command, FreshRegister, InstructionF, InstructionText,
    LivenessCommand, Reg, RegisterSource, Seen, TypedRegister, TypedRegisterF, TypedSizedRegister,
};

verus! {

broadcast use vstd::std_specs::hash::group_hash_axioms;

impl Seen {
    /// No register seen.
    pub fn new() -> (r: Self)
        ensures
            r@ == Set::<TypedRegister<FreshRegister>>::empty(),
    {
        let r = Self { scalar: HashSet::new(), vector: HashSet::new() };
        assert(r@ =~= Set::<TypedRegister<FreshRegister>>::empty());
        r
    }

    /// Names a register as an output, so that it is never dropped. The result
    /// says whether it was new.
    pub fn output_interface<T: RegisterSource>(&mut self, fresh: &Reg<T>) -> (r: bool)
        ensures
            final(self)@ == old(self)@.insert(sizeless(typed(T::vector_size(), fresh.id()))),
            r == !old(self)@.contains(sizeless(typed(T::vector_size(), fresh.id()))),
    {
        self.insert(drop_size(fresh.to_typed_register()))
    }

    /// Marks a register as seen. The result says whether it was new.
    pub fn insert(&mut self, fresh: TypedRegister<FreshRegister>) -> (r: bool)
        ensures
            final(self)@ == old(self)@.insert(fresh),
            r == !old(self)@.contains(fresh),
    {
        let r = match fresh {
            TypedRegisterF::Scalar(reg) => self.scalar.insert(reg),
            TypedRegisterF::Vector(reg, _) => self.vector.insert(reg),
        };
        proof {
            assert forall|t: TypedRegister<FreshRegister>| self@.contains(t) == old(
                self,
            )@.insert(fresh).contains(t) by {
                match (t, fresh) {
                    (TypedRegisterF::Vector(_, u), TypedRegisterF::Vector(_, v)) => {
                        assert(u == v);
                    },
                    _ => {},
                }
            }
            assert(self@ =~= old(self)@.insert(fresh));
        }
        r
    }
}

/// What the commands of a queue hold, in their order.
pub open spec fn commands(queue: Seq<LivenessCommand>) -> Seq<Command> {
    queue.map_values(|c: LivenessCommand| c@)
}

/// The registers that an instruction mentions, without sizes: the sources in
/// their order, then the destination.
pub open spec fn registers_of(i: InstructionText<u64>) -> Seq<TypedRegister<u64>> {
    i.src.push(i.dest).map_values(|t: TypedSizedRegister<u64>| sizeless(t))
}

/// The drops that follow an instruction with the registers `regs`, given the
/// registers seen later in the program: one for each register that is not
/// seen later, the register that comes last in `regs` first.
pub open spec fn drops(seen: Set<TypedRegister<u64>>, regs: Seq<TypedRegister<u64>>) -> Seq<
    Command,
>
    decreases regs.len(),
{
    if regs.len() == 0 {
        Seq::empty()
    } else {
        let rest = drops(seen, regs.drop_last());
        let r = regs.last();
        if seen.contains(r) || regs.drop_last().contains(r) {
            rest
        } else {
            seq![Command::Drop(r)] + rest
        }
    }
}

/// The instructions of a program, each followed by the drops of the
/// registers that it is the last to mention, given the registers that are
/// seen after the program.
pub open spec fn liveness(seen: Set<TypedRegister<u64>>, program: Seq<InstructionText<u64>>) -> Seq<
    Command,
>
    decreases program.len(),
{
    if program.len() == 0 {
        Seq::empty()
    } else {
        let last = program.last();
        liveness(seen.union(registers_of(last).to_set()), program.drop_last()) + seq![
            Command::Instr(last),
        ] + drops(seen, registers_of(last))
    }
}

/// The registers seen once a program has been analysed: those seen after it
/// and all that it mentions.
pub open spec fn seen_after(
    seen: Set<TypedRegister<u64>>,
    program: Seq<InstructionText<u64>>,
) -> Set<TypedRegister<u64>>
    decreases program.len(),
{
    if program.len() == 0 {
        seen
    } else {
        seen_after(seen.union(registers_of(program.last()).to_set()), program.drop_last())
    }
}

/// Places the drops: walks the program backwards and puts, after each
/// instruction, a drop for every register that has not been seen yet, which
/// is then seen. Registers that `seen_registers` holds at the start are the
/// outputs of the program and get no drop.
pub fn liveness_analysis(
    seen_registers: &mut Seen,
    instructions: Vec<InstructionF<FreshRegister>>,
) -> (r: VecDeque<LivenessCommand>)
    ensures
        commands(r@) == liveness(old(seen_registers)@, texts(instructions@)),
        final(seen_registers)@ == seen_after(old(seen_registers)@, texts(instructions@)),
{
    let mut instructions = instructions;
    let ghost program = texts(instructions@);
    let ghost outputs = seen_registers@;
    let mut queue: VecDeque<LivenessCommand> = VecDeque::new();
    assert(commands(queue@) =~= Seq::empty());
    assert(program.take(program.len() as int) =~= program);
    while instructions.len() > 0
        invariant
            instructions@.len() <= program.len(),
            texts(instructions@) == program.take(instructions@.len() as int),
            liveness(outputs, program) == liveness(seen_registers@, texts(instructions@))
                + commands(queue@),
            seen_after(outputs, program) == seen_after(seen_registers@, texts(instructions@)),
        decreases instructions@.len(),
    {
        let ghost before = texts(instructions@);
        let ghost later = seen_registers@;
        let ghost tail = commands(queue@);
        let instruction = instructions.pop().unwrap();
        let registers = instruction.extract_registers();
        let ghost regs = registers_of(instruction@);
        proof {
            assert(before.last() == instruction@);
            assert(texts(instructions@) =~= before.drop_last());
            assert(texts(instructions@) =~= program.take(instructions@.len() as int));
            assert(regs.take(0) =~= Seq::empty());
            assert(later.union(regs.take(0).to_set()) =~= later);
        }
        let n = registers.len();
        let mut j: usize = 0;
        while j < n
            invariant
                j <= n,
                n == registers@.len(),
                regs.len() == n,
                forall|k: int| 0 <= k < n ==> regs[k] == sizeless(#[trigger] registers@[k]),
                seen_registers@ == later.union(regs.take(j as int).to_set()),
                commands(queue@) == drops(later, regs.take(j as int)) + tail,
            decreases n - j,
        {
            let ghost current = seen_registers@;
            let ghost queued = commands(queue@);
            let register = drop_size(registers[j]);
            proof {
                assert(regs.take(j + 1).drop_last() =~= regs.take(j as int));
                assert(regs.take(j + 1).last() == register);
                assert(current.contains(register) == (later.contains(register) || regs.take(
                    j as int,
                ).contains(register)));
                assert(regs.take(j + 1).to_set() =~= regs.take(j as int).to_set().insert(register))
                    by {
                    assert(regs.take(j + 1) =~= regs.take(j as int).push(register));
                    regs.take(j as int).lemma_push_to_set_commute(register);
                }
                assert(later.union(regs.take(j + 1).to_set()) =~= current.insert(register));
            }
            if seen_registers.insert(register) {
                queue.push_front(LivenessCommand::Drop(register));
                assert(commands(queue@) =~= seq![Command::Drop(register)] + queued);
            }
            j += 1;
        }
        proof {
            assert(regs.take(n as int) =~= regs);
        }
        let ghost dropped = commands(queue@);
        queue.push_front(LivenessCommand::from(instruction));
        proof {
            assert(commands(queue@) =~= seq![Command::Instr(before.last())] + dropped);
            assert(liveness(later, before) + tail =~= liveness(
                later.union(regs.to_set()),
                before.drop_last(),
            ) + commands(queue@));
        }
    }
    assert(texts(instructions@) =~= Seq::<InstructionText<u64>>::empty());
    queue
}

} // verus!
