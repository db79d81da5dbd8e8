//! Allocation of physical registers: the pools, the state of every fresh
//! register, and the walk through the commands of liveness analysis.
use vstd::prelude::*;
use std::collections::{BTreeSet, VecDeque};
use crate::hla::builders::texts;
use crate::hla::liveness::commands;
use crate::hla::text::{instruction_text, lines, program_text, register_text};
use crate::hla::{
    register_of, typed, Allocator, Command, FreshRegister, HardwareRegister, InstructionF,
    InstructionText, LivenessCommand, Reg, RegisterBank, RegisterMapping, RegisterPool,
    RegisterSource, RegisterState, TypedRegister, TypedRegisterF, TypedSizedRegister,
};

verus! {

broadcast use vstd::std_specs::btree::group_btree_axioms;

/// The physical registers that allocation starts with: `0` to `30` in each
/// class.
pub open spec fn all_registers() -> Set<HardwareRegister> {
    Set::new(|k: HardwareRegister| k <= 30)
}

/// The least member of a set of registers that is not empty.
pub open spec fn least(pool: Set<HardwareRegister>) -> HardwareRegister {
    choose|k: HardwareRegister|
        pool.contains(k) && forall|j: HardwareRegister| pool.contains(j) ==> k <= j
}

/// A register that is in the pool and not above any other in it is its least
/// member.
pub proof fn lemma_least(pool: Set<HardwareRegister>, k: HardwareRegister)
    requires
        pool.contains(k),
        forall|j: HardwareRegister| pool.contains(j) ==> k <= j,
    ensures
        least(pool) == k,
{
    let m = least(pool);
    assert(pool.contains(m) && forall|j: HardwareRegister| pool.contains(j) ==> m <= j);
}

/// Takes the least register out of a pool.
///
/// Calls `BTreeSet::pop_first`, which removes and returns the first element
/// of the set, the minimum, if there is one. The contract states just that:
/// an empty pool gives `None` and stays as it is, any other pool gives its
/// least member and loses it.
#[verifier::external_body]
fn pop_first(pool: &mut RegisterPool) -> (r: Option<HardwareRegister>)
    ensures
        match r {
            None => old(pool)@ == Set::<HardwareRegister>::empty() && final(pool)@ == old(pool)@,
            Some(k) => old(pool)@.contains(k) && (forall|j: HardwareRegister|
                old(pool)@.contains(j) ==> k <= j) && final(pool)@ == old(pool)@.remove(k),
        },
{
    pool.pop_first()
}

/// Whether a pool holds a free register.
pub open spec fn has_free(pool: Set<HardwareRegister>) -> bool {
    exists|k: HardwareRegister| pool.contains(k)
}

/// The pool that a register of the class of `t` comes from.
pub open spec fn pool_of<R, S>(
    t: TypedRegisterF<R, S>,
    scalars: Set<HardwareRegister>,
    vectors: Set<HardwareRegister>,
) -> Set<HardwareRegister> {
    match t {
        TypedRegisterF::Scalar(_) => scalars,
        TypedRegisterF::Vector(_, _) => vectors,
    }
}

/// The physical register that a fresh register gets from the pools: the
/// least free register of its class, at the size of the fresh register.
pub open spec fn allocated(
    fresh: TypedSizedRegister<FreshRegister>,
    scalars: Set<HardwareRegister>,
    vectors: Set<HardwareRegister>,
) -> TypedSizedRegister<HardwareRegister> {
    match fresh {
        TypedRegisterF::Scalar(_) => TypedRegisterF::Scalar(least(scalars)),
        TypedRegisterF::Vector(_, size) => TypedRegisterF::Vector(least(vectors), size),
    }
}

/// The state of allocation: where every fresh register stands, and the free
/// physical registers of both classes.
pub struct Allocation {
    pub mapping: Seq<RegisterState>,
    pub scalars: Set<HardwareRegister>,
    pub vectors: Set<HardwareRegister>,
}

/// The state that a mapping and a bank are in.
pub open spec fn allocation_of(mapping: RegisterMapping, bank: RegisterBank) -> Allocation {
    Allocation { mapping: mapping@, scalars: bank.scalars(), vectors: bank.vectors() }
}

/// Whether a destination register can be given its physical register: it is
/// known to the mapping and has not been dropped, and where it holds none yet,
/// the pool of its class has one free.
pub open spec fn can_place(s: Allocation, dest: TypedSizedRegister<FreshRegister>) -> bool {
    &&& register_of(dest) < s.mapping.len()
    &&& !(s.mapping[register_of(dest) as int] is Dropped)
    &&& s.mapping[register_of(dest) as int] is Unassigned ==> has_free(
        pool_of(dest, s.scalars, s.vectors),
    )
}

/// The physical register of a destination register.
pub open spec fn placed(
    s: Allocation,
    dest: TypedSizedRegister<FreshRegister>,
) -> TypedSizedRegister<HardwareRegister> {
    match s.mapping[register_of(dest) as int] {
        RegisterState::Assigned(reg) => reg,
        _ => allocated(dest, s.scalars, s.vectors),
    }
}

/// The state after a destination register has been given its physical
/// register.
pub open spec fn place(s: Allocation, dest: TypedSizedRegister<FreshRegister>) -> Allocation {
    if s.mapping[register_of(dest) as int] is Assigned {
        s
    } else {
        Allocation {
            mapping: s.mapping.update(
                register_of(dest) as int,
                RegisterState::Assigned(placed(s, dest)),
            ),
            scalars: if dest is Scalar {
                s.scalars.remove(register_of(placed(s, dest)))
            } else {
                s.scalars
            },
            vectors: if dest is Vector {
                s.vectors.remove(register_of(placed(s, dest)))
            } else {
                s.vectors
            },
        }
    }
}

/// Whether all source registers hold a physical register.
pub open spec fn can_read(s: Allocation, src: Seq<TypedSizedRegister<FreshRegister>>) -> bool {
    forall|j: int|
        0 <= j < src.len() ==> register_of(#[trigger] src[j]) < s.mapping.len()
            && s.mapping[register_of(src[j]) as int] is Assigned
}

/// The physical registers of the source registers.
pub open spec fn read(s: Allocation, src: Seq<TypedSizedRegister<FreshRegister>>) -> Seq<
    TypedSizedRegister<HardwareRegister>,
> {
    src.map_values(
        |t: TypedSizedRegister<FreshRegister>| s.mapping[register_of(t) as int]->Assigned_0,
    )
}

/// Whether a fresh register can be dropped: it holds a physical register,
/// and the pool of that register does not hold it as well.
pub open spec fn can_release(s: Allocation, fresh: TypedRegister<FreshRegister>) -> bool {
    &&& register_of(fresh) < s.mapping.len()
    &&& s.mapping[register_of(fresh) as int] is Assigned
    &&& !pool_of(
        s.mapping[register_of(fresh) as int]->Assigned_0,
        s.scalars,
        s.vectors,
    ).contains(register_of(s.mapping[register_of(fresh) as int]->Assigned_0))
}

/// The state after a fresh register has been dropped.
pub open spec fn release(s: Allocation, fresh: TypedRegister<FreshRegister>) -> Allocation {
    let held = s.mapping[register_of(fresh) as int]->Assigned_0;
    Allocation {
        mapping: s.mapping.update(register_of(fresh) as int, RegisterState::Dropped),
        scalars: if held is Scalar {
            s.scalars.insert(register_of(held))
        } else {
            s.scalars
        },
        vectors: if held is Vector {
            s.vectors.insert(register_of(held))
        } else {
            s.vectors
        },
    }
}

/// Whether the fresh register `fresh` can be pinned to the physical register
/// `hw`: the mapping knows the fresh register, and the physical register is
/// free.
pub open spec fn can_pin(
    s: Allocation,
    fresh: FreshRegister,
    hw: TypedSizedRegister<HardwareRegister>,
) -> bool {
    &&& fresh < s.mapping.len()
    &&& pool_of(hw, s.scalars, s.vectors).contains(register_of(hw))
}

/// The state after a fresh register has been pinned to a physical register.
pub open spec fn pinned(
    s: Allocation,
    fresh: FreshRegister,
    hw: TypedSizedRegister<HardwareRegister>,
) -> Allocation {
    Allocation {
        mapping: s.mapping.update(fresh as int, RegisterState::Assigned(hw)),
        scalars: if hw is Scalar {
            s.scalars.remove(register_of(hw))
        } else {
            s.scalars
        },
        vectors: if hw is Vector {
            s.vectors.remove(register_of(hw))
        } else {
            s.vectors
        },
    }
}

/// Whether a command can be carried out.
pub open spec fn can_step(s: Allocation, c: Command) -> bool {
    match c {
        Command::Instr(i) => can_place(s, i.dest) && can_read(place(s, i.dest), i.src),
        Command::Drop(r) => can_release(s, r),
    }
}

/// The state after a command.
pub open spec fn step(s: Allocation, c: Command) -> Allocation {
    match c {
        Command::Instr(i) => place(s, i.dest),
        Command::Drop(r) => release(s, r),
    }
}

/// An instruction over physical registers.
pub open spec fn rewritten(s: Allocation, i: InstructionText<u64>) -> InstructionText<u64> {
    InstructionText {
        opcode: i.opcode,
        dest: placed(s, i.dest),
        src: read(place(s, i.dest), i.src),
        modifier: i.modifier,
    }
}

/// Whether a sequence of commands can be carried out from a state.
pub open spec fn can_run(s: Allocation, cs: Seq<Command>) -> bool
    decreases cs.len(),
{
    cs.len() == 0 || (can_step(s, cs[0]) && can_run(step(s, cs[0]), cs.skip(1)))
}

/// The state after a sequence of commands.
pub open spec fn run(s: Allocation, cs: Seq<Command>) -> Allocation
    decreases cs.len(),
{
    if cs.len() == 0 {
        s
    } else {
        run(step(s, cs[0]), cs.skip(1))
    }
}

/// The instructions that a sequence of commands emits.
pub open spec fn emitted(s: Allocation, cs: Seq<Command>) -> Seq<InstructionText<u64>>
    decreases cs.len(),
{
    if cs.len() == 0 {
        Seq::empty()
    } else {
        match cs[0] {
            Command::Instr(i) => seq![rewritten(s, i)] + emitted(step(s, cs[0]), cs.skip(1)),
            Command::Drop(_) => emitted(step(s, cs[0]), cs.skip(1)),
        }
    }
}

impl RegisterBank {
    /// A bank in which the registers `0` to `30` of both classes are free.
    pub fn new() -> (r: Self)
        ensures
            r.scalars() == all_registers(),
            r.vectors() == all_registers(),
    {
        let mut x: RegisterPool = BTreeSet::new();
        let mut v: RegisterPool = BTreeSet::new();
        let mut i: u64 = 0;
        while i <= 30
            invariant
                i <= 31,
                x@ == Set::new(|k: HardwareRegister| k < i),
                v@ == Set::new(|k: HardwareRegister| k < i),
            decreases 31 - i,
        {
            x.insert(i);
            v.insert(i);
            assert(x@ =~= Set::new(|k: HardwareRegister| k < i + 1));
            assert(v@ =~= Set::new(|k: HardwareRegister| k < i + 1));
            i += 1;
        }
        assert(x@ =~= all_registers());
        assert(v@ =~= all_registers());
        Self { x, v }
    }

    /// Returns a physical register to the pool of its class. The result says
    /// whether it was missing there.
    pub fn insert<S>(&mut self, register: TypedRegisterF<HardwareRegister, S>) -> (r: bool)
        ensures
            r == !pool_of(register, old(self).scalars(), old(self).vectors()).contains(
                register_of(register),
            ),
            register is Scalar ==> final(self).scalars() == old(self).scalars().insert(
                register_of(register),
            ) && final(self).vectors() == old(self).vectors(),
            register is Vector ==> final(self).vectors() == old(self).vectors().insert(
                register_of(register),
            ) && final(self).scalars() == old(self).scalars(),
    {
        match register {
            TypedRegisterF::Scalar(reg) => self.x.insert(reg),
            TypedRegisterF::Vector(reg, _) => self.v.insert(reg),
        }
    }

    /// Whether a physical register is free.
    pub fn is_free<S>(&self, register: TypedRegisterF<HardwareRegister, S>) -> (r: bool)
        ensures
            r == pool_of(register, self.scalars(), self.vectors()).contains(
                register_of(register),
            ),
    {
        match register {
            TypedRegisterF::Scalar(reg) => self.x.contains(&reg),
            TypedRegisterF::Vector(reg, _) => self.v.contains(&reg),
        }
    }

    /// Whether a class has a free register.
    pub fn has_free<R, S>(&self, class: TypedRegisterF<R, S>) -> (r: bool)
        ensures
            r == self::has_free(pool_of(class, self.scalars(), self.vectors())),
    {
        let empty = match class {
            TypedRegisterF::Scalar(_) => self.x.is_empty(),
            TypedRegisterF::Vector(_, _) => self.v.is_empty(),
        };
        proof {
            let pool = pool_of(class, self.scalars(), self.vectors());
            if empty {
                assert(pool =~= Set::<HardwareRegister>::empty());
            } else {
                assert(self::has_free(pool)) by {
                    if !self::has_free(pool) {
                        assert(pool =~= Set::<HardwareRegister>::empty());
                    }
                }
            }
        }
        !empty
    }
}

impl RegisterMapping {
    /// A mapping for the fresh registers `0` to `29`, none of them assigned.
    pub fn new() -> (r: Self)
        ensures
            r@.len() == 30,
            forall|i: int| 0 <= i < 30 ==> r@[i] == RegisterState::Unassigned,
    {
        let mut states: Vec<RegisterState> = Vec::new();
        let mut i: usize = 0;
        while i < 30
            invariant
                i <= 30,
                states@.len() == i,
                forall|k: int| 0 <= k < i ==> states@[k] == RegisterState::Unassigned,
            decreases 30 - i,
        {
            states.push(RegisterState::Unassigned);
            i += 1;
        }
        Self(states)
    }

    /// The state of a fresh register.
    pub fn index(&self, idx: FreshRegister) -> (r: &RegisterState)
        requires
            idx < self@.len(),
        ensures
            *r == self@[idx as int],
    {
        let n: usize = self.0.len();
        assert(idx < n);
        &self.0[idx as usize]
    }

    /// The state of a fresh register, to be changed.
    pub fn index_mut(&mut self, idx: FreshRegister) -> (r: &mut RegisterState)
        requires
            idx < old(self)@.len(),
        ensures
            *r == old(self)@[idx as int],
            final(self)@ == old(self)@.update(idx as int, *final(r)),
    {
        let n: usize = self.0.len();
        assert(idx < n);
        &mut self.0[idx as usize]
    }

    /// The physical register of a source register, which must hold one.
    pub fn get_register(&self, fresh: TypedSizedRegister<FreshRegister>) -> (r: TypedSizedRegister<
        HardwareRegister,
    >)
        requires
            register_of(fresh) < self@.len(),
            self@[register_of(fresh) as int] is Assigned,
        ensures
            self@[register_of(fresh) as int] == RegisterState::Assigned(r),
    {
        match self.index(*fresh.as_fresh()) {
            RegisterState::Assigned(reg) => *reg,
            _ => unreached(),
        }
    }

    /// How many fresh registers the mapping has room for.
    pub fn len(&self) -> (r: usize)
        ensures
            r == self@.len(),
    {
        self.0.len()
    }

    /// The physical register of a destination register: the one it holds, or
    /// the least free one of its class, which it then holds.
    pub fn get_or_allocate_register(
        &mut self,
        register_bank: &mut RegisterBank,
        typed_register: TypedSizedRegister<FreshRegister>,
    ) -> (r: TypedSizedRegister<HardwareRegister>)
        requires
            can_place(allocation_of(*old(self), *old(register_bank)), typed_register),
        ensures
            r == placed(allocation_of(*old(self), *old(register_bank)), typed_register),
            allocation_of(*final(self), *final(register_bank)) == place(
                allocation_of(*old(self), *old(register_bank)),
                typed_register,
            ),
    {
        let id: FreshRegister = *typed_register.as_fresh();
        let held: Option<TypedSizedRegister<HardwareRegister>> = match self.index(id) {
            RegisterState::Assigned(reg) => Some(*reg),
            _ => None,
        };
        let ghost state = allocation_of(*self, *register_bank);
        match held {
            Some(reg) => reg,
            None => {
                let hw_reg = match typed_register {
                    TypedRegisterF::Scalar(_) => {
                        let ghost before = register_bank.x@;
                        match pop_first(&mut register_bank.x) {
                            Some(reg) => {
                                proof {
                                    lemma_least(before, reg);
                                }
                                TypedRegisterF::Scalar(reg)
                            },
                            None => unreached(),
                        }
                    },
                    TypedRegisterF::Vector(_, size) => {
                        let ghost before = register_bank.v@;
                        match pop_first(&mut register_bank.v) {
                            Some(reg) => {
                                proof {
                                    lemma_least(before, reg);
                                }
                                TypedRegisterF::Vector(reg, size)
                            },
                            None => unreached(),
                        }
                    },
                };
                let entry = self.index_mut(id);
                *entry = RegisterState::Assigned(hw_reg);
                proof {
                    let after = allocation_of(*self, *register_bank);
                    assert(after.scalars =~= place(state, typed_register).scalars);
                    assert(after.vectors =~= place(state, typed_register).vectors);
                    assert(after.mapping =~= place(state, typed_register).mapping);
                }
                hw_reg
            },
        }
    }

    /// Ends the life of a fresh register: its physical register goes back to
    /// the pool of its class. The result says that the pool did not hold it
    /// yet, which is always so.
    pub fn free_register(
        &mut self,
        register_bank: &mut RegisterBank,
        typed_register: TypedRegister<FreshRegister>,
    ) -> (r: bool)
        requires
            can_release(allocation_of(*old(self), *old(register_bank)), typed_register),
        ensures
            r,
            allocation_of(*final(self), *final(register_bank)) == release(
                allocation_of(*old(self), *old(register_bank)),
                typed_register,
            ),
    {
        let ghost state = allocation_of(*self, *register_bank);
        let id: FreshRegister = *typed_register.as_fresh();
        let mut held = RegisterState::Dropped;
        core::mem::swap(self.index_mut(id), &mut held);
        let new = match held {
            RegisterState::Assigned(reg) => register_bank.insert(reg),
            _ => unreached(),
        };
        proof {
            let after = allocation_of(*self, *register_bank);
            assert(after.scalars =~= release(state, typed_register).scalars);
            assert(after.vectors =~= release(state, typed_register).vectors);
            assert(after.mapping =~= release(state, typed_register).mapping);
        }
        new
    }

    /// How the register behind a handle is written once allocation is
    /// through: its physical register, or `Dropped` where its life has ended.
    pub fn output_register<T: RegisterSource>(&self, reg: &Reg<T>) -> (s: String)
        requires
            reg.id() < self@.len(),
            !(self@[reg.id() as int] is Unassigned),
        ensures
            s@ == (match self@[reg.id() as int] {
                RegisterState::Assigned(hw_reg) => register_text(hw_reg),
                _ => "Dropped"@,
            }),
    {
        match self.index(reg.reg) {
            RegisterState::Assigned(hw_reg) => hw_reg.to_string(),
            _ => String::from_str("Dropped"),
        }
    }
}

/// Reserves the physical register `phys` of the class of `T` and binds a new
/// fresh register to it.
pub fn input<T>(
    allocator: &mut Allocator,
    mapping: &mut RegisterMapping,
    phys_registers: &mut RegisterBank,
    phys: u64,
) -> (r: Reg<T>) where T: RegisterSource
    requires
        can_pin(
            allocation_of(*old(mapping), *old(phys_registers)),
            old(allocator).next(),
            typed(T::vector_size(), phys),
        ),
    ensures
        r.id() == old(allocator).next(),
        final(allocator).next() == old(allocator).next() + 1,
        allocation_of(*final(mapping), *final(phys_registers)) == pinned(
            allocation_of(*old(mapping), *old(phys_registers)),
            old(allocator).next(),
            typed(T::vector_size(), phys),
        ),
{
    let ghost state = allocation_of(*mapping, *phys_registers);
    let size: usize = mapping.0.len();
    assert(allocator.next() < size);
    let fresh = allocator.fresh();
    let pool = T::get_register_pool(phys_registers);
    let was_free = pool.remove(&phys);
    assert(was_free);
    let entry = mapping.index_mut(fresh.reg);
    *entry = RegisterState::Assigned(T::to_typed_register(phys));
    proof {
        let after = allocation_of(*mapping, *phys_registers);
        let hw = typed(T::vector_size(), phys);
        assert(after.scalars =~= pinned(state, fresh.id(), hw).scalars);
        assert(after.vectors =~= pinned(state, fresh.id(), hw).vectors);
        assert(after.mapping =~= pinned(state, fresh.id(), hw).mapping);
    }
    fresh
}

/// Rewrites one instruction over physical registers: the destination gets
/// its physical register, the sources are looked up.
fn allocate_instruction(
    mapping: &mut RegisterMapping,
    register_bank: &mut RegisterBank,
    inst: InstructionF<FreshRegister>,
) -> (r: InstructionF<HardwareRegister>)
    requires
        can_step(allocation_of(*old(mapping), *old(register_bank)), Command::Instr(inst@)),
    ensures
        r@ == rewritten(allocation_of(*old(mapping), *old(register_bank)), inst@),
        allocation_of(*final(mapping), *final(register_bank)) == place(
            allocation_of(*old(mapping), *old(register_bank)),
            inst@.dest,
        ),
{
    let ghost state = allocation_of(*mapping, *register_bank);
    let InstructionF { opcode, dest, src, modifiers } = inst;
    let new_dest = mapping.get_or_allocate_register(register_bank, dest);
    let mut new_src: Vec<TypedSizedRegister<HardwareRegister>> = Vec::new();
    let n = src.len();
    let mut j: usize = 0;
    while j < n
        invariant
            j <= n,
            n == src@.len(),
            can_read(allocation_of(*mapping, *register_bank), src@),
            new_src@ == read(allocation_of(*mapping, *register_bank), src@).take(j as int),
        decreases n - j,
    {
        let hw = mapping.get_register(src[j]);
        new_src.push(hw);
        assert(new_src@ =~= read(allocation_of(*mapping, *register_bank), src@).take(j + 1));
        j += 1;
    }
    assert(new_src@ =~= read(place(state, dest), src@));
    InstructionF { opcode, dest: new_dest, src: new_src, modifiers }
}

/// Carries out the commands of liveness analysis: every instruction is
/// rewritten over physical registers and emitted, every drop returns a
/// physical register to its pool.
///
/// The destination of an instruction gets the least free register of its
/// class where it holds none yet; the sources must hold theirs.
pub fn hardware_register_allocation(
    mapping: &mut RegisterMapping,
    register_bank: &mut RegisterBank,
    commands: VecDeque<LivenessCommand>,
) -> (r: Vec<InstructionF<HardwareRegister>>)
    requires
        can_run(allocation_of(*old(mapping), *old(register_bank)), self::commands(commands@)),
    ensures
        texts(r@) == emitted(
            allocation_of(*old(mapping), *old(register_bank)),
            self::commands(commands@),
        ),
        allocation_of(*final(mapping), *final(register_bank)) == run(
            allocation_of(*old(mapping), *old(register_bank)),
            self::commands(commands@),
        ),
{
    let mut queue = commands;
    let ghost all = self::commands(commands@);
    let ghost start = allocation_of(*mapping, *register_bank);
    let mut out: Vec<InstructionF<HardwareRegister>> = Vec::new();
    assert(texts(out@) =~= Seq::empty());
    loop
        invariant
            can_run(allocation_of(*mapping, *register_bank), self::commands(queue@)),
            emitted(start, all) == texts(out@) + emitted(
                allocation_of(*mapping, *register_bank),
                self::commands(queue@),
            ),
            run(start, all) == run(allocation_of(*mapping, *register_bank), self::commands(queue@)),
        ensures
            texts(out@) == emitted(start, all),
            allocation_of(*mapping, *register_bank) == run(start, all),
        decreases queue@.len(),
    {
        let ghost state = allocation_of(*mapping, *register_bank);
        let ghost pending = self::commands(queue@);
        let ghost done = texts(out@);
        match queue.pop_front() {
            None => {
                assert(pending =~= Seq::empty());
                assert(texts(out@) =~= texts(out@) + Seq::empty());
                break ;
            },
            Some(command) => {
                proof {
                    assert(pending[0] == command@);
                    assert(self::commands(queue@) =~= pending.skip(1));
                }
                match command {
                    LivenessCommand::Instr(inst) => {
                        let ghost text = inst@;
                        let rewritten = allocate_instruction(mapping, register_bank, inst);
                        out.push(rewritten);
                        proof {
                            let next = emitted(step(state, pending[0]), pending.skip(1));
                            assert(texts(out@) =~= done.push(self::rewritten(state, text)));
                            assert(done + (seq![self::rewritten(state, text)] + next)
                                =~= done.push(self::rewritten(state, text)) + next);
                        }
                    },
                    LivenessCommand::Drop(fresh) => {
                        mapping.free_register(register_bank, fresh);
                    },
                }
            },
        }
    }
    out
}

/// Carries out the commands of liveness analysis and writes every emitted
/// instruction as a line of assembly.
pub fn generate(
    mapping: &mut RegisterMapping,
    register_bank: &mut RegisterBank,
    instructions: VecDeque<LivenessCommand>,
) -> (r: Vec<String>)
    requires
        can_run(allocation_of(*old(mapping), *old(register_bank)), commands(instructions@)),
    ensures
        lines(r@) == program_text(
            emitted(allocation_of(*old(mapping), *old(register_bank)), commands(instructions@)),
        ),
        allocation_of(*final(mapping), *final(register_bank)) == run(
            allocation_of(*old(mapping), *old(register_bank)),
            commands(instructions@),
        ),
{
    let physical = hardware_register_allocation(mapping, register_bank, instructions);
    let mut out: Vec<String> = Vec::new();
    let n = physical.len();
    let mut i: usize = 0;
    while i < n
        invariant
            i <= n,
            n == physical@.len(),
            out@.len() == i,
            forall|k: int| 0 <= k < i ==> (#[trigger] out@[k])@ == instruction_text(physical@[k]@),
        decreases n - i,
    {
        out.push(physical[i].format_instruction());
        i += 1;
    }
    assert(lines(out@) =~= program_text(texts(physical@)));
    out
}

} // verus!
