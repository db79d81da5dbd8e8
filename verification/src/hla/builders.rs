//! The instructions that programs are written with, and the merging of two
//! programs into one.
use vstd::prelude::*;
use crate::hla::{
    typed, AtomicInstruction, DReg, FreshRegister, InstructionF, InstructionText, Mod, Modifier,
    Reg, Reg64Bit, RegisterSource, TypedRegisterF, TypedSizedRegister, VReg, VectorSizes, XReg,
};

verus! {

/// The one instruction of an atomic instruction that holds nothing else.
pub open spec fn single(
    atom: AtomicInstruction,
    opcode: Seq<char>,
    dest: TypedSizedRegister<FreshRegister>,
    src: Seq<TypedSizedRegister<FreshRegister>>,
    modifier: Modifier,
) -> bool {
    &&& atom@.len() == 1
    &&& atom@[0]@ == (InstructionText { opcode, dest, src, modifier })
}

/// An atomic instruction that holds one instruction.
fn one(
    opcode: &str,
    dest: TypedSizedRegister<FreshRegister>,
    src: Vec<TypedSizedRegister<FreshRegister>>,
    modifiers: Mod,
) -> (r: AtomicInstruction)
    ensures
        single(r, opcode@, dest, src@, modifiers@),
{
    let mut atom: AtomicInstruction = Vec::new();
    atom.push(InstructionF { opcode: String::from_str(opcode), dest, src, modifiers });
    atom
}

/// The sources of an instruction with one source.
fn one_source(a: TypedSizedRegister<FreshRegister>) -> (r: Vec<TypedSizedRegister<FreshRegister>>)
    ensures
        r@ == seq![a],
{
    let mut src: Vec<TypedSizedRegister<FreshRegister>> = Vec::new();
    src.push(a);
    src
}

/// The sources of an instruction with two sources.
fn two_sources(a: TypedSizedRegister<FreshRegister>, b: TypedSizedRegister<FreshRegister>) -> (r:
    Vec<TypedSizedRegister<FreshRegister>>)
    ensures
        r@ == seq![a, b],
{
    let mut src: Vec<TypedSizedRegister<FreshRegister>> = Vec::new();
    src.push(a);
    src.push(b);
    src
}

/// `mov dst, #val`: loads an immediate.
pub fn mov(dst: &XReg, val: u64) -> (r: AtomicInstruction)
    ensures
        single(
            r,
            "mov"@,
            TypedRegisterF::Scalar(dst.id()),
            Seq::empty(),
            Modifier::Imm(val),
        ),
{
    one("mov", dst.to_typed_register(), Vec::new(), Mod::Imm(val))
}

/// `mul dst, a, b`: the low 64 bits of a product.
pub fn mul(dst: &XReg, a: &XReg, b: &XReg) -> (r: AtomicInstruction)
    ensures
        single(
            r,
            "mul"@,
            TypedRegisterF::Scalar(dst.id()),
            seq![TypedRegisterF::Scalar(a.id()), TypedRegisterF::Scalar(b.id())],
            Modifier::Nothing,
        ),
{
    one(
        "mul",
        dst.to_typed_register(),
        two_sources(a.to_typed_register(), b.to_typed_register()),
        Mod::Nothing,
    )
}

/// `umulh dst, a, b`: the high 64 bits of a product.
pub fn umulh(dst: &XReg, a: &XReg, b: &XReg) -> (r: AtomicInstruction)
    ensures
        single(
            r,
            "umulh"@,
            TypedRegisterF::Scalar(dst.id()),
            seq![TypedRegisterF::Scalar(a.id()), TypedRegisterF::Scalar(b.id())],
            Modifier::Nothing,
        ),
{
    one(
        "umulh",
        dst.to_typed_register(),
        two_sources(a.to_typed_register(), b.to_typed_register()),
        Mod::Nothing,
    )
}

/// `adds dst, a, b`: a sum that sets the carry flag.
pub fn adds(dst: &XReg, a: &XReg, b: &XReg) -> (r: AtomicInstruction)
    ensures
        single(
            r,
            "adds"@,
            TypedRegisterF::Scalar(dst.id()),
            seq![TypedRegisterF::Scalar(a.id()), TypedRegisterF::Scalar(b.id())],
            Modifier::Nothing,
        ),
{
    one(
        "adds",
        dst.to_typed_register(),
        two_sources(a.to_typed_register(), b.to_typed_register()),
        Mod::Nothing,
    )
}

/// `adcs dst, a, b`: a sum with carry in that sets the carry flag.
pub fn adcs(dst: &XReg, a: &XReg, b: &XReg) -> (r: AtomicInstruction)
    ensures
        single(
            r,
            "adcs"@,
            TypedRegisterF::Scalar(dst.id()),
            seq![TypedRegisterF::Scalar(a.id()), TypedRegisterF::Scalar(b.id())],
            Modifier::Nothing,
        ),
{
    one(
        "adcs",
        dst.to_typed_register(),
        two_sources(a.to_typed_register(), b.to_typed_register()),
        Mod::Nothing,
    )
}

/// `cinc dst, src, condition`: an increment under a condition.
pub fn cinc(dst: &XReg, src: &XReg, condition: &str) -> (r: AtomicInstruction)
    ensures
        single(
            r,
            "cinc"@,
            TypedRegisterF::Scalar(dst.id()),
            seq![TypedRegisterF::Scalar(src.id())],
            Modifier::Cond(condition@),
        ),
{
    one(
        "cinc",
        dst.to_typed_register(),
        one_source(src.to_typed_register()),
        Mod::Cond(String::from_str(condition)),
    )
}

/// `mov.16b dst, src`: copies a vector register.
pub fn mov16b(dst: &VReg, src: &VReg) -> (r: AtomicInstruction)
    ensures
        single(
            r,
            "mov.16b"@,
            TypedRegisterF::Vector(dst.id(), VectorSizes::V),
            seq![TypedRegisterF::Vector(src.id(), VectorSizes::V)],
            Modifier::Nothing,
        ),
{
    one(
        "mov.16b",
        dst.to_typed_register(),
        one_source(src.to_typed_register()),
        Mod::Nothing,
    )
}

/// `ucvtf.2d dst, src`: converts both lanes from integer to floating point.
pub fn ucvtf2d(dst: &VReg, src: &VReg) -> (r: AtomicInstruction)
    ensures
        single(
            r,
            "ucvtf.2d"@,
            TypedRegisterF::Vector(dst.id(), VectorSizes::V),
            seq![TypedRegisterF::Vector(src.id(), VectorSizes::V)],
            Modifier::Nothing,
        ),
{
    one(
        "ucvtf.2d",
        dst.to_typed_register(),
        one_source(src.to_typed_register()),
        Mod::Nothing,
    )
}

/// `dup.2d dst, src`: copies a scalar register into both lanes.
pub fn dup2d(dst: &VReg, src: &XReg) -> (r: AtomicInstruction)
    ensures
        single(
            r,
            "dup.2d"@,
            TypedRegisterF::Vector(dst.id(), VectorSizes::V),
            seq![TypedRegisterF::Scalar(src.id())],
            Modifier::Nothing,
        ),
{
    one(
        "dup.2d",
        dst.to_typed_register(),
        one_source(src.to_typed_register()),
        Mod::Nothing,
    )
}

/// `ucvtf dst, src`: converts a 64-bit integer to floating point.
pub fn ucvtf<T: Reg64Bit + RegisterSource>(dst: &DReg, src: &Reg<T>) -> (r: AtomicInstruction)
    ensures
        single(
            r,
            "ucvtf"@,
            TypedRegisterF::Vector(dst.id(), VectorSizes::D),
            seq![typed(T::vector_size(), src.id())],
            Modifier::Nothing,
        ),
{
    one("ucvtf", dst.to_typed_register(), one_source(src.to_typed_register()), Mod::Nothing)
}

/// `fmla.2d dst, a, b[i]`: a fused multiply-add on both lanes by lane `i` of
/// `b`.
pub fn fmla2d(dst: &VReg, src_a: &VReg, src_b: &VReg, i: u8) -> (r: AtomicInstruction)
    ensures
        single(
            r,
            "fmla.2d"@,
            TypedRegisterF::Vector(dst.id(), VectorSizes::V),
            seq![
                TypedRegisterF::Vector(src_a.id(), VectorSizes::V),
                TypedRegisterF::Vector(src_b.id(), VectorSizes::V),
            ],
            Modifier::Idx(i as u64),
        ),
{
    one(
        "fmla.2d",
        dst.to_typed_register(),
        two_sources(src_a.to_typed_register(), src_b.to_typed_register()),
        Mod::Idx(i as u64),
    )
}

/// What the instructions of a list hold, in their order.
pub open spec fn texts(instructions: Seq<InstructionF<u64>>) -> Seq<InstructionText<u64>> {
    instructions.map_values(|i: InstructionF<u64>| i@)
}

/// The atomic instructions of two streams in turn, one of each as long as
/// both streams last, laid out as one list of instructions.
pub open spec fn interleaved(lhs: Seq<AtomicInstruction>, rhs: Seq<AtomicInstruction>) -> Seq<
    InstructionText<u64>,
>
    decreases lhs.len(),
{
    if lhs.len() == 0 || rhs.len() == 0 {
        Seq::empty()
    } else {
        texts(lhs[0]@) + texts(rhs[0]@) + interleaved(lhs.skip(1), rhs.skip(1))
    }
}

/// Interleaving with one pair fewer at the front, seen from the back: what
/// the first `n + 1` pairs give is what the first `n` give and pair `n`.
proof fn lemma_interleaved_step(lhs: Seq<AtomicInstruction>, rhs: Seq<AtomicInstruction>, n: int)
    requires
        0 <= n < lhs.len(),
        n < rhs.len(),
    ensures
        interleaved(lhs.take(n + 1), rhs.take(n + 1)) == interleaved(lhs.take(n), rhs.take(n))
            + texts(lhs[n]@) + texts(rhs[n]@),
    decreases n,
{
    if n == 0 {
        assert(lhs.take(1).skip(1) =~= Seq::<AtomicInstruction>::empty());
        assert(interleaved(lhs.take(1).skip(1), rhs.take(1).skip(1)) =~= Seq::empty());
        assert(interleaved(lhs.take(0), rhs.take(0)) =~= Seq::empty());
        assert(interleaved(lhs.take(1), rhs.take(1)) =~= texts(lhs[0]@) + texts(rhs[0]@));
    } else {
        lemma_interleaved_step(lhs.skip(1), rhs.skip(1), n - 1);
        assert(lhs.take(n + 1).skip(1) =~= lhs.skip(1).take(n));
        assert(rhs.take(n + 1).skip(1) =~= rhs.skip(1).take(n));
        assert(lhs.take(n).skip(1) =~= lhs.skip(1).take(n - 1));
        assert(rhs.take(n).skip(1) =~= rhs.skip(1).take(n - 1));
        assert(interleaved(lhs.take(n + 1), rhs.take(n + 1)) =~= texts(lhs[0]@) + texts(rhs[0]@)
            + (interleaved(lhs.skip(1).take(n - 1), rhs.skip(1).take(n - 1)) + texts(lhs[n]@)
            + texts(rhs[n]@)));
        assert(interleaved(lhs.take(n), rhs.take(n)) =~= texts(lhs[0]@) + texts(rhs[0]@)
            + interleaved(lhs.skip(1).take(n - 1), rhs.skip(1).take(n - 1)));
    }
}

/// Interleaving stops where the shorter stream ends.
proof fn lemma_interleaved_cut(lhs: Seq<AtomicInstruction>, rhs: Seq<AtomicInstruction>, n: int)
    requires
        0 <= n <= lhs.len(),
        n <= rhs.len(),
        n == lhs.len() || n == rhs.len(),
    ensures
        interleaved(lhs, rhs) == interleaved(lhs.take(n), rhs.take(n)),
    decreases n,
{
    if n == 0 {
        assert(lhs.take(0).len() == 0);
    } else {
        lemma_interleaved_cut(lhs.skip(1), rhs.skip(1), n - 1);
        assert(lhs.take(n).skip(1) =~= lhs.skip(1).take(n - 1));
        assert(rhs.take(n).skip(1) =~= rhs.skip(1).take(n - 1));
    }
}

/// Merges two streams of atomic instructions one for one, in turn. Each
/// atomic instruction stays whole and each stream keeps its order; what the
/// longer stream holds beyond the length of the shorter is left out.
pub fn interleave(lhs: Vec<AtomicInstruction>, rhs: Vec<AtomicInstruction>) -> (r: Vec<
    InstructionF<FreshRegister>,
>)
    ensures
        texts(r@) == interleaved(lhs@, rhs@),
{
    let mut lhs = lhs;
    let mut rhs = rhs;
    let ghost left = lhs@;
    let ghost right = rhs@;
    let mut out: Vec<InstructionF<FreshRegister>> = Vec::new();
    let n: usize = if lhs.len() < rhs.len() {
        lhs.len()
    } else {
        rhs.len()
    };
    let mut i: usize = 0;
    assert(texts(out@) =~= interleaved(left.take(0), right.take(0)));
    while i < n
        invariant
            i <= n,
            n <= left.len(),
            n <= right.len(),
            lhs@.len() == left.len(),
            rhs@.len() == right.len(),
            forall|k: int| i <= k < left.len() ==> lhs@[k] == left[k],
            forall|k: int| i <= k < right.len() ==> rhs@[k] == right[k],
            texts(out@) == interleaved(left.take(i as int), right.take(i as int)),
        decreases n - i,
    {
        let ghost before = out@;
        let mut a: AtomicInstruction = Vec::new();
        let mut b: AtomicInstruction = Vec::new();
        core::mem::swap(&mut lhs[i], &mut a);
        core::mem::swap(&mut rhs[i], &mut b);
        out.append(&mut a);
        out.append(&mut b);
        proof {
            lemma_interleaved_step(left, right, i as int);
            assert(texts(out@) =~= texts(before) + texts(left[i as int]@) + texts(
                right[i as int]@,
            ));
        }
        i += 1;
    }
    proof {
        lemma_interleaved_cut(left, right, n as int);
    }
    out
}

} // verus!
