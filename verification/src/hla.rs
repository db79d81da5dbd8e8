//! A small assembly generator: typed register handles, instruction records,
//! liveness analysis and allocation of physical registers from two pools.
//!
//! Code is first written over fresh registers, which are minted by a counter
//! and never reused ([`builders`]). Liveness analysis then places one drop
//! after the last use of every fresh register ([`liveness`]), and allocation
//! walks the result, handing each fresh register the smallest free physical
//! register of its class at its first appearance as a destination and taking
//! it back at its drop ([`allocation`], and [`checked`] for callers that
//! cannot promise that the commands can be carried out). The instructions
//! over physical registers are written out as lines of assembly ([`text`]).
//!
//! This module holds the data: registers, instructions, commands, and the
//! state of allocation.
use vstd::prelude::*;
use std::collections::{BTreeSet, HashSet};
use std::marker::PhantomData;

pub mod allocation;
pub mod allocation_laws;
pub mod builders;
pub mod checked;
pub mod liveness;
pub mod liveness_laws;
pub mod text;

pub use self::allocation::{
    all_registers, allocated, allocation_of, can_pin, can_place, can_read, can_release, can_run,
    can_step, emitted, generate, hardware_register_allocation, has_free, input, least, pinned,
    place, placed, pool_of, read, release, rewritten, run, step, Allocation,
};
pub use self::builders::{
    adcs, adds, cinc, dup2d, fmla2d, interleave, interleaved, mov, mov16b, mul, single, texts,
    ucvtf, ucvtf2d, umulh,
};
pub use self::checked::{
    failure, read_failure, step_failure, try_hardware_register_allocation, try_input,
    AllocationError,
};
pub use self::liveness::{commands, drops, liveness, liveness_analysis, registers_of, seen_after};
pub use self::text::{
    decimal, decimal_string, digit_char, instruction_text, lines, modifier_text, more_registers,
    program_text, register_text,
};

verus! {

/// A register that has not been given a physical register yet.
pub type FreshRegister = u64;

/// A physical register.
pub type HardwareRegister = u64;

/// How much of a vector register an instruction addresses.
#[derive(Debug, Eq, Hash, PartialEq, Clone, Copy)]
pub enum VectorSizes {
    /// The full 128 bits.
    V,
    /// The low 64 bits.
    D,
}

/// A register together with its class.
#[derive(Debug, Eq, Hash, PartialEq, Clone, Copy)]
pub enum TypedRegisterF<R, Sizes> {
    Scalar(R),
    Vector(R, Sizes),
}

/// A register and its class, without the size of a vector register.
pub type TypedRegister<R> = TypedRegisterF<R, ()>;

/// A register and its class, with the size of a vector register.
pub type TypedSizedRegister<R> = TypedRegisterF<R, VectorSizes>;

/// What follows the registers of an instruction.
#[derive(Debug)]
pub enum Mod {
    Nothing,
    Imm(u64),
    Idx(u64),
    Cond(String),
}

/// One instruction: an opcode, a destination, sources and a modifier.
#[derive(Debug)]
pub struct InstructionF<R> {
    opcode: String,
    dest: TypedSizedRegister<R>,
    src: Vec<TypedSizedRegister<R>>,
    modifiers: Mod,
}

/// Instructions that must stay together when streams are interleaved.
pub type AtomicInstruction = Vec<InstructionF<FreshRegister>>;

/// An instruction over fresh registers.
pub type Instruction = InstructionF<FreshRegister>;

/// What a [`Mod`] holds.
pub enum Modifier {
    Nothing,
    Imm(u64),
    Idx(u64),
    Cond(Seq<char>),
}

/// What an [`InstructionF`] holds.
pub struct InstructionText<R> {
    pub opcode: Seq<char>,
    pub dest: TypedSizedRegister<R>,
    pub src: Seq<TypedSizedRegister<R>>,
    pub modifier: Modifier,
}

impl View for Mod {
    type V = Modifier;

    open spec fn view(&self) -> Modifier {
        match self {
            Mod::Nothing => Modifier::Nothing,
            Mod::Imm(n) => Modifier::Imm(*n),
            Mod::Idx(n) => Modifier::Idx(*n),
            Mod::Cond(c) => Modifier::Cond(c@),
        }
    }
}

impl<R> View for InstructionF<R> {
    type V = InstructionText<R>;

    closed spec fn view(&self) -> InstructionText<R> {
        InstructionText {
            opcode: self.opcode@,
            dest: self.dest,
            src: self.src@,
            modifier: self.modifiers@,
        }
    }
}

/// The register of a typed register.
pub open spec fn register_of<R, S>(t: TypedRegisterF<R, S>) -> R {
    match t {
        TypedRegisterF::Scalar(r) => r,
        TypedRegisterF::Vector(r, _) => r,
    }
}

/// A typed register without the size of a vector register.
pub open spec fn sizeless<R>(t: TypedSizedRegister<R>) -> TypedRegister<R> {
    match t {
        TypedRegisterF::Scalar(r) => TypedRegisterF::Scalar(r),
        TypedRegisterF::Vector(r, _) => TypedRegisterF::Vector(r, ()),
    }
}

impl<S> TypedRegisterF<FreshRegister, S> {
    /// The fresh register inside.
    pub fn as_fresh(&self) -> (r: &FreshRegister)
        ensures
            *r == register_of(*self),
    {
        match self {
            TypedRegisterF::Scalar(r) => r,
            TypedRegisterF::Vector(r, _) => r,
        }
    }
}

/// Forgets the size of a vector register.
pub fn drop_size<R>(t: TypedSizedRegister<R>) -> (r: TypedRegister<R>)
    ensures
        r == sizeless(t),
{
    match t {
        TypedRegisterF::Scalar(reg) => TypedRegisterF::Scalar(reg),
        TypedRegisterF::Vector(reg, _) => TypedRegisterF::Vector(reg, ()),
    }
}

/// A handle on a fresh register of the class that `T` stands for.
pub struct Reg<T> {
    reg: FreshRegister,
    _marker: PhantomData<T>,
}

/// Stands for a vector of `N` lanes of `T` in the type of a register handle.
pub struct Simd<T, const N: usize>(PhantomData<T>);

/// Stands for a 64-bit floating-point number in the type of a register
/// handle.
pub struct Double;

/// A scalar register.
pub type XReg = Reg<u64>;

/// A full vector register.
pub type VReg = Reg<Simd<u64, 2>>;

/// The low half of a vector register.
pub type DReg = Reg<Double>;

/// Types that stand for a value of 64 bits.
pub trait Reg64Bit {

}

impl Reg64Bit for u64 {

}

impl Reg64Bit for Double {

}

/// The pool of free physical registers of one class.
pub type RegisterPool = BTreeSet<HardwareRegister>;

/// The free physical registers: a pool of scalar and a pool of vector
/// registers.
#[derive(Debug)]
pub struct RegisterBank {
    x: RegisterPool,
    v: RegisterPool,
}

impl RegisterBank {
    /// The pool of one class.
    pub closed spec fn pool(self, vector: bool) -> RegisterPool {
        if vector {
            self.v
        } else {
            self.x
        }
    }

    /// The free scalar registers.
    pub open spec fn scalars(self) -> Set<HardwareRegister> {
        self.pool(false)@
    }

    /// The free vector registers.
    pub open spec fn vectors(self) -> Set<HardwareRegister> {
        self.pool(true)@
    }
}

/// The typed register for a register of the class with the given vector size;
/// no size means a scalar register.
pub open spec fn typed<R>(size: Option<VectorSizes>, reg: R) -> TypedSizedRegister<R> {
    match size {
        None => TypedRegisterF::Scalar(reg),
        Some(s) => TypedRegisterF::Vector(reg, s),
    }
}

/// Types that stand for a class of registers.
pub trait RegisterSource {
    /// The size at which registers of this class are addressed, for vector
    /// registers.
    spec fn vector_size() -> Option<VectorSizes>;

    /// The pool that registers of this class come from.
    fn get_register_pool(pools: &mut RegisterBank) -> (pool: &mut RegisterPool)
        ensures
            *pool == old(pools).pool(Self::vector_size() is Some),
            final(pools).pool(Self::vector_size() is Some) == *final(pool),
            final(pools).pool(!(Self::vector_size() is Some)) == old(pools).pool(
                !(Self::vector_size() is Some),
            ),
    ;

    /// A register as a register of this class.
    fn to_typed_register<R>(reg: R) -> (r: TypedSizedRegister<R>)
        ensures
            r == typed(Self::vector_size(), reg),
    ;
}

impl RegisterSource for u64 {
    open spec fn vector_size() -> Option<VectorSizes> {
        None
    }

    fn get_register_pool(pools: &mut RegisterBank) -> (pool: &mut RegisterPool) {
        &mut pools.x
    }

    fn to_typed_register<R>(reg: R) -> (r: TypedSizedRegister<R>) {
        TypedRegisterF::Scalar(reg)
    }
}

impl RegisterSource for Double {
    open spec fn vector_size() -> Option<VectorSizes> {
        Some(VectorSizes::D)
    }

    fn get_register_pool(pools: &mut RegisterBank) -> (pool: &mut RegisterPool) {
        &mut pools.v
    }

    fn to_typed_register<R>(reg: R) -> (r: TypedSizedRegister<R>) {
        TypedRegisterF::Vector(reg, VectorSizes::D)
    }
}

impl RegisterSource for Simd<u64, 2> {
    open spec fn vector_size() -> Option<VectorSizes> {
        Some(VectorSizes::V)
    }

    fn get_register_pool(pools: &mut RegisterBank) -> (pool: &mut RegisterPool) {
        &mut pools.v
    }

    fn to_typed_register<R>(reg: R) -> (r: TypedSizedRegister<R>) {
        TypedRegisterF::Vector(reg, VectorSizes::V)
    }
}

impl<T> Reg<T> {
    /// The fresh register behind the handle.
    pub closed spec fn id(&self) -> FreshRegister {
        self.reg
    }

    /// A handle on the fresh register `reg`.
    pub fn new(reg: u64) -> (r: Self)
        ensures
            r.id() == reg,
    {
        Self { reg, _marker: PhantomData }
    }

    /// The register with its class.
    pub fn to_typed_register(&self) -> (r: TypedSizedRegister<FreshRegister>) where
        T: RegisterSource,

        ensures
            r == typed(T::vector_size(), self.id()),
    {
        T::to_typed_register(self.reg)
    }
}

impl Reg<Simd<u64, 2>> {
    /// The low half of the same register.
    pub fn as_f64(&self) -> (r: Reg<Double>)
        ensures
            r.id() == self.id(),
    {
        Reg::new(self.reg)
    }
}

/// Mints fresh registers: one counter for both classes.
#[derive(Debug)]
pub struct Allocator {
    fresh: u64,
}

impl Allocator {
    /// The register that will be minted next.
    pub closed spec fn next(&self) -> FreshRegister {
        self.fresh
    }

    /// A register that has not been handed out before.
    pub fn fresh<T>(&mut self) -> (r: Reg<T>)
        requires
            old(self).next() < u64::MAX,
        ensures
            r.id() == old(self).next(),
            final(self).next() == old(self).next() + 1,
    {
        let x: u64 = self.fresh;
        self.fresh += 1;
        Reg::new(x)
    }

    /// An allocator that has minted nothing.
    pub fn new() -> (r: Self)
        ensures
            r.next() == 0,
    {
        Self::start_from(0)
    }

    /// An allocator that mints `n` next.
    pub fn start_from(n: u64) -> (r: Self)
        ensures
            r.next() == n,
    {
        Self { fresh: n }
    }

    /// The number of the register that will be minted next.
    pub fn peek(&self) -> (r: u64)
        ensures
            r == self.next(),
    {
        self.fresh
    }
}

/// What liveness analysis hands to allocation: an instruction to emit, or the
/// end of the life of a fresh register.
#[derive(Debug)]
pub enum LivenessCommand {
    Instr(InstructionF<FreshRegister>),
    Drop(TypedRegisterF<FreshRegister, ()>),
}

/// What a [`LivenessCommand`] holds.
pub enum Command {
    Instr(InstructionText<u64>),
    Drop(TypedRegister<u64>),
}

impl View for LivenessCommand {
    type V = Command;

    open spec fn view(&self) -> Command {
        match self {
            LivenessCommand::Instr(i) => Command::Instr(i@),
            LivenessCommand::Drop(r) => Command::Drop(*r),
        }
    }
}

impl From<InstructionF<FreshRegister>> for LivenessCommand {
    fn from(instr: InstructionF<FreshRegister>) -> (r: Self) {
        LivenessCommand::Instr(instr)
    }
}

impl vstd::std_specs::convert::FromSpecImpl<InstructionF<FreshRegister>> for LivenessCommand {
    open spec fn obeys_from_spec() -> bool {
        true
    }

    open spec fn from_spec(instr: InstructionF<FreshRegister>) -> Self {
        LivenessCommand::Instr(instr)
    }
}

/// Where a fresh register stands: not yet given a physical register, holding
/// one, or done with.
#[derive(PartialEq, Debug)]
pub enum RegisterState {
    Unassigned,
    Assigned(TypedSizedRegister<HardwareRegister>),
    Dropped,
}

/// The state of every fresh register, by its number.
#[derive(Debug)]
pub struct RegisterMapping(Vec<RegisterState>);

impl View for RegisterMapping {
    type V = Seq<RegisterState>;

    closed spec fn view(&self) -> Seq<RegisterState> {
        self.0@
    }
}

/// The registers that liveness analysis has met so far, or that were named as
/// outputs before it began.
pub struct Seen {
    scalar: HashSet<FreshRegister>,
    vector: HashSet<FreshRegister>,
}

impl View for Seen {
    type V = Set<TypedRegister<FreshRegister>>;

    closed spec fn view(&self) -> Set<TypedRegister<FreshRegister>> {
        Set::new(
            |t: TypedRegister<FreshRegister>|
                match t {
                    TypedRegisterF::Scalar(r) => self.scalar@.contains(r),
                    TypedRegisterF::Vector(r, _) => self.vector@.contains(r),
                },
        )
    }
}

} // verus!
