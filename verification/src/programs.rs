//! The programs that the generator is driven with: the product of a number
//! of four words by one word, and the start of its paired floating-point
//! counterpart.
use vstd::prelude::*;
use crate::emmart::C1;
use crate::hla::{
    adds, cinc, dup2d, fmla2d, mov, mov16b, single, ucvtf, ucvtf2d, umulh, Allocator,
    AtomicInstruction, Modifier, TypedRegisterF, VReg, VectorSizes, XReg,
};

verus! {

/// An atomic instruction that adds `add` to the register `low` and carries
/// into the register `high`.
pub open spec fn carries(atom: AtomicInstruction, low: u64, high: u64, add: u64) -> bool {
    &&& atom@.len() == 2
    &&& atom@[0]@.opcode == "adds"@
    &&& atom@[0]@.dest == TypedRegisterF::<u64, VectorSizes>::Scalar(low)
    &&& atom@[0]@.src == seq![
        TypedRegisterF::<u64, VectorSizes>::Scalar(low),
        TypedRegisterF::<u64, VectorSizes>::Scalar(add),
    ]
    &&& atom@[0]@.modifier == Modifier::Nothing
    &&& atom@[1]@.opcode == "cinc"@
    &&& atom@[1]@.dest == TypedRegisterF::<u64, VectorSizes>::Scalar(high)
    &&& atom@[1]@.src == seq![TypedRegisterF::<u64, VectorSizes>::Scalar(high)]
    &&& atom@[1]@.modifier == Modifier::Cond("hs"@)
}

/// Adds `add` to the two-word number in `s`: an addition into the low word
/// and an increment of the high word where the addition carried. The two
/// instructions stay together.
pub fn carry_add(s: [&XReg; 2], add: &XReg) -> (r: AtomicInstruction)
    ensures
        carries(r, s@[0].id(), s@[1].id(), add.id()),
{
    let mut atom = adds(s[0], s[0], add);
    let mut carry = cinc(s[1], s[1], "hs");
    atom.append(&mut carry);
    atom
}

/// The product of the four-word number in `a` by the word in `b`, into the
/// five words of `s`: for every word of `a` the low and the high half of its
/// product with `b`, the low half added into the word of `s` below.
pub fn smult(allocator: &mut Allocator, s: &[XReg; 5], a: [XReg; 4], b: XReg) -> (r: Vec<
    AtomicInstruction,
>)
    requires
        old(allocator).next() < u64::MAX,
    ensures
        final(allocator).next() == old(allocator).next() + 1,
        r@.len() == 11,
        single(r@[0], "mul"@, scalar(s@[0].id()), pair(a@[0].id(), b.id()), Modifier::Nothing),
        single(r@[1], "umulh"@, scalar(s@[1].id()), pair(a@[0].id(), b.id()), Modifier::Nothing),
        single(
            r@[2],
            "mul"@,
            scalar(old(allocator).next()),
            pair(a@[1].id(), b.id()),
            Modifier::Nothing,
        ),
        single(r@[3], "umulh"@, scalar(s@[2].id()), pair(a@[1].id(), b.id()), Modifier::Nothing),
        carries(r@[4], s@[1].id(), s@[2].id(), old(allocator).next()),
        single(
            r@[5],
            "mul"@,
            scalar(old(allocator).next()),
            pair(a@[2].id(), b.id()),
            Modifier::Nothing,
        ),
        single(r@[6], "umulh"@, scalar(s@[3].id()), pair(a@[2].id(), b.id()), Modifier::Nothing),
        carries(r@[7], s@[2].id(), s@[3].id(), old(allocator).next()),
        single(
            r@[8],
            "mul"@,
            scalar(old(allocator).next()),
            pair(a@[3].id(), b.id()),
            Modifier::Nothing,
        ),
        single(r@[9], "umulh"@, scalar(s@[4].id()), pair(a@[3].id(), b.id()), Modifier::Nothing),
        carries(r@[10], s@[3].id(), s@[4].id(), old(allocator).next()),
{
    let tmp: XReg = allocator.fresh();
    let mut out: Vec<AtomicInstruction> = Vec::new();
    out.push(crate::hla::builders::mul(&s[0], &a[0], &b));
    out.push(umulh(&s[1], &a[0], &b));
    out.push(crate::hla::builders::mul(&tmp, &a[1], &b));
    out.push(umulh(&s[2], &a[1], &b));
    out.push(carry_add([&s[1], &s[2]], &tmp));
    out.push(crate::hla::builders::mul(&tmp, &a[2], &b));
    out.push(umulh(&s[3], &a[2], &b));
    out.push(carry_add([&s[2], &s[3]], &tmp));
    out.push(crate::hla::builders::mul(&tmp, &a[3], &b));
    out.push(umulh(&s[4], &a[3], &b));
    out.push(carry_add([&s[3], &s[4]], &tmp));
    out
}

/// A scalar register.
pub open spec fn scalar(id: u64) -> TypedRegisterF<u64, VectorSizes> {
    TypedRegisterF::Scalar(id)
}

/// A full vector register.
pub open spec fn vector(id: u64) -> TypedRegisterF<u64, VectorSizes> {
    TypedRegisterF::Vector(id, VectorSizes::V)
}

/// Two scalar source registers.
pub open spec fn pair(a: u64, b: u64) -> Seq<TypedRegisterF<u64, VectorSizes>> {
    seq![scalar(a), scalar(b)]
}

/// The start of the paired product of the two digits in `s` by the number in
/// `v`: converts `s` to floating point, loads the bias of the high half,
/// converts the first word of `v`, and multiplies and adds onto the bias.
pub fn smult_noinit_simd(allocator: &mut Allocator, t: &[VReg; 6], s: VReg, v: [XReg; 5]) -> (r:
    Vec<AtomicInstruction>)
    requires
        old(allocator).next() < u64::MAX - 4,
    ensures
        final(allocator).next() == old(allocator).next() + 4,
        r@.len() == 6,
        single(r@[0], "ucvtf.2d"@, vector(s.id()), seq![vector(s.id())], Modifier::Nothing),
        single(
            r@[1],
            "mov"@,
            scalar(old(allocator).next()),
            Seq::empty(),
            Modifier::Imm(C1),
        ),
        single(
            r@[2],
            "ucvtf"@,
            TypedRegisterF::Vector((old(allocator).next() + 3) as u64, VectorSizes::D),
            seq![scalar(v@[0].id())],
            Modifier::Nothing,
        ),
        single(
            r@[3],
            "dup.2d"@,
            vector((old(allocator).next() + 1) as u64),
            seq![scalar(old(allocator).next())],
            Modifier::Nothing,
        ),
        single(
            r@[4],
            "mov.16b"@,
            vector((old(allocator).next() + 2) as u64),
            seq![vector((old(allocator).next() + 1) as u64)],
            Modifier::Nothing,
        ),
        single(
            r@[5],
            "fmla.2d"@,
            vector((old(allocator).next() + 2) as u64),
            seq![vector(s.id()), vector((old(allocator).next() + 3) as u64)],
            Modifier::Idx(0),
        ),
{
    let tmp: XReg = allocator.fresh();
    let splat_c1: VReg = allocator.fresh();
    let cc1: VReg = allocator.fresh();
    let fv0: VReg = allocator.fresh();
    let mut out: Vec<AtomicInstruction> = Vec::new();
    out.push(ucvtf2d(&s, &s));
    out.push(mov(&tmp, C1));
    out.push(ucvtf(&fv0.as_f64(), &v[0]));
    out.push(dup2d(&splat_c1, &tmp));
    out.push(mov16b(&cc1, &splat_c1));
    out.push(fmla2d(&cc1, &s, &fv0, 0));
    out
}

} // verus!
