//! Multi-precision integers as little-endian limb sequences, and the
//! mathematical value that each representation stands for.
//!
//! Two layouts are used throughout the crate: four 64-bit limbs (the canonical
//! form of a 256-bit integer) and five or more 52-bit limbs (the redundant form
//! in which the multiplication engines work).
use vstd::prelude::*;

verus! {

/// Mask that keeps the low 52 bits of a word.
pub const MASK52: u64 = 0xF_FFFF_FFFF_FFFF;

/// Mask that keeps the low 48 bits of a word.
pub const MASK48: u64 = 0xFFFF_FFFF_FFFF;

/// The radix of the 52-bit limb form, `2^52`.
pub open spec fn radix52() -> int {
    0x10_0000_0000_0000
}

/// The radix of the 64-bit limb form, `2^64`.
pub open spec fn radix64() -> int {
    0x1_0000_0000_0000_0000
}

/// The low 52 bits of a word and what lies above them.
pub fn split52(x: u64) -> (r: (u64, u64))
    ensures
        r.0 == x % 0x10_0000_0000_0000,
        r.1 == x / 0x10_0000_0000_0000,
        r.0 == x & MASK52,
        r.1 == x >> 52,
{
    let low: u64 = x & MASK52;
    let high: u64 = x >> 52;
    assert(low == x % 0x10_0000_0000_0000 && high == x / 0x10_0000_0000_0000) by (bit_vector)
        requires
            low == x & 0xF_FFFF_FFFF_FFFF,
            high == x >> 52,
    ;
    (low, high)
}

/// `2^(52 k)`.
pub open spec fn pow52(k: nat) -> int
    decreases k,
{
    if k == 0 {
        1
    } else {
        radix52() * pow52((k - 1) as nat)
    }
}

/// `2^(64 k)`.
pub open spec fn pow64(k: nat) -> int
    decreases k,
{
    if k == 0 {
        1
    } else {
        radix64() * pow64((k - 1) as nat)
    }
}

/// The integer that a little-endian sequence of 52-bit limbs stands for:
/// the sum of `limbs[i] * 2^(52 i)`. Limbs may exceed 52 bits (redundant form).
pub open spec fn value52(limbs: Seq<u64>) -> int
    decreases limbs.len(),
{
    if limbs.len() == 0 {
        0
    } else {
        value52(limbs.drop_last()) + limbs.last() * pow52((limbs.len() - 1) as nat)
    }
}

/// The integer that a little-endian sequence of 64-bit limbs stands for.
pub open spec fn value64(limbs: Seq<u64>) -> int
    decreases limbs.len(),
{
    if limbs.len() == 0 {
        0
    } else {
        value64(limbs.drop_last()) + limbs.last() * pow64((limbs.len() - 1) as nat)
    }
}

/// A 52-bit limb sequence is resolved when every limb is below `2^52`, so that
/// the sequence is the unique base-`2^52` expansion of its value.
pub open spec fn resolved(limbs: Seq<u64>) -> bool {
    forall|i: int| 0 <= i < limbs.len() ==> #[trigger] limbs[i] < radix52()
}

/// The powers of `2^52` that the limb forms of this library need, written
/// out.
pub proof fn lemma_pow52_values()
    ensures
        pow52(0) == 1,
        pow52(1) == 0x10_0000_0000_0000,
        pow52(2) == 0x100_0000_0000_0000_0000_0000_0000,
        pow52(3) == 0x1000_0000_0000_0000_0000_0000_0000_0000_0000_0000,
        pow52(4) == 0x1_0000_0000_0000_0000_0000_0000_0000_0000_0000_0000_0000_0000_0000,
        pow52(5) == 0x10_0000_0000_0000_0000_0000_0000_0000_0000_0000_0000_0000_0000_0000_0000_0000_0000,
        pow52(6) == 0x100_0000_0000_0000_0000_0000_0000_0000_0000_0000_0000_0000_0000_0000_0000_0000_0000_0000_0000_0000,
        pow52(7) == 0x1000_0000_0000_0000_0000_0000_0000_0000_0000_0000_0000_0000_0000_0000_0000_0000_0000_0000_0000_0000_0000_0000_0000,
        pow52(8) == 0x1_0000_0000_0000_0000_0000_0000_0000_0000_0000_0000_0000_0000_0000_0000_0000_0000_0000_0000_0000_0000_0000_0000_0000_0000_0000_0000,
        pow52(9) == 0x10_0000_0000_0000_0000_0000_0000_0000_0000_0000_0000_0000_0000_0000_0000_0000_0000_0000_0000_0000_0000_0000_0000_0000_0000_0000_0000_0000_0000_0000,
        pow52(10) == 0x100_0000_0000_0000_0000_0000_0000_0000_0000_0000_0000_0000_0000_0000_0000_0000_0000_0000_0000_0000_0000_0000_0000_0000_0000_0000_0000_0000_0000_0000_0000_0000_0000,
{
    reveal_with_fuel(pow52, 11);
}

/// The powers of `2^64` that the limb forms of this library need, written
/// out.
pub proof fn lemma_pow64_values()
    ensures
        pow64(0) == 0x1,
        pow64(1) == 0x1_0000_0000_0000_0000,
        pow64(2) == 0x1_0000_0000_0000_0000_0000_0000_0000_0000,
        pow64(3) == 0x1_0000_0000_0000_0000_0000_0000_0000_0000_0000_0000_0000_0000,
        pow64(4) == 0x1_0000_0000_0000_0000_0000_0000_0000_0000_0000_0000_0000_0000_0000_0000_0000_0000,
        pow64(5) == 0x1_0000_0000_0000_0000_0000_0000_0000_0000_0000_0000_0000_0000_0000_0000_0000_0000_0000_0000_0000_0000,
        pow64(6) == 0x1_0000_0000_0000_0000_0000_0000_0000_0000_0000_0000_0000_0000_0000_0000_0000_0000_0000_0000_0000_0000_0000_0000_0000_0000,
        pow64(7) == 0x1_0000_0000_0000_0000_0000_0000_0000_0000_0000_0000_0000_0000_0000_0000_0000_0000_0000_0000_0000_0000_0000_0000_0000_0000_0000_0000_0000_0000,
        pow64(8) == 0x1_0000_0000_0000_0000_0000_0000_0000_0000_0000_0000_0000_0000_0000_0000_0000_0000_0000_0000_0000_0000_0000_0000_0000_0000_0000_0000_0000_0000_0000_0000_0000_0000,
        pow64(9) == 0x1_0000_0000_0000_0000_0000_0000_0000_0000_0000_0000_0000_0000_0000_0000_0000_0000_0000_0000_0000_0000_0000_0000_0000_0000_0000_0000_0000_0000_0000_0000_0000_0000_0000_0000_0000_0000,
{
    reveal_with_fuel(pow64, 10);
}

/// The value of a sequence grows by the new top limb when one is appended.
pub proof fn lemma_value52_take(limbs: Seq<u64>, i: int)
    requires
        0 <= i < limbs.len(),
    ensures
        value52(limbs.take(i + 1)) == value52(limbs.take(i)) + limbs[i] * pow52(i as nat),
{
    assert(limbs.take(i + 1).drop_last() =~= limbs.take(i));
}

/// Expansion of the value of five 52-bit limbs.
pub proof fn lemma_value52_of5(s: Seq<u64>)
    requires
        s.len() == 5,
    ensures
        value52(s) == s[0] + s[1] * pow52(1) + s[2] * pow52(2) + s[3] * pow52(3) + s[4] * pow52(4),
{
    lemma_value52_take(s, 0);
    lemma_value52_take(s, 1);
    lemma_value52_take(s, 2);
    lemma_value52_take(s, 3);
    lemma_value52_take(s, 4);
    assert(s.take(5) =~= s);
    assert(value52(s.take(0)) == 0);
    lemma_pow52_values();
}

/// Expansion of the value of six 52-bit limbs.
pub proof fn lemma_value52_of6(s: Seq<u64>)
    requires
        s.len() == 6,
    ensures
        value52(s) == s[0] + s[1] * pow52(1) + s[2] * pow52(2) + s[3] * pow52(3) + s[4] * pow52(4)
            + s[5] * pow52(5),
{
    lemma_value52_take(s, 0);
    lemma_value52_take(s, 1);
    lemma_value52_take(s, 2);
    lemma_value52_take(s, 3);
    lemma_value52_take(s, 4);
    lemma_value52_take(s, 5);
    assert(s.take(6) =~= s);
    assert(value52(s.take(0)) == 0);
    lemma_pow52_values();
}

/// The value of a 64-bit limb sequence grows by the new top limb when one is
/// appended.
pub proof fn lemma_value64_take(limbs: Seq<u64>, i: int)
    requires
        0 <= i < limbs.len(),
    ensures
        value64(limbs.take(i + 1)) == value64(limbs.take(i)) + limbs[i] * pow64(i as nat),
{
    assert(limbs.take(i + 1).drop_last() =~= limbs.take(i));
}

/// Expansion of the value of ten 52-bit limbs.
pub proof fn lemma_value52_of10(s: Seq<u64>)
    requires
        s.len() == 10,
    ensures
        value52(s) == s[0] + s[1] * pow52(1) + s[2] * pow52(2) + s[3] * pow52(3) + s[4] * pow52(4)
            + s[5] * pow52(5) + s[6] * pow52(6) + s[7] * pow52(7) + s[8] * pow52(8) + s[9] * pow52(
            9,
        ),
{
    lemma_value52_take(s, 0);
    lemma_value52_take(s, 1);
    lemma_value52_take(s, 2);
    lemma_value52_take(s, 3);
    lemma_value52_take(s, 4);
    lemma_value52_take(s, 5);
    lemma_value52_take(s, 6);
    lemma_value52_take(s, 7);
    lemma_value52_take(s, 8);
    lemma_value52_take(s, 9);
    assert(s.take(10) =~= s);
    assert(value52(s.take(0)) == 0);
    lemma_pow52_values();
}

/// Expansion of the value of four 64-bit limbs.
pub proof fn lemma_value64_of4(s: Seq<u64>)
    requires
        s.len() == 4,
    ensures
        value64(s) == s[0] + s[1] * pow64(1) + s[2] * pow64(2) + s[3] * pow64(3),
{
    lemma_value64_take(s, 0);
    lemma_value64_take(s, 1);
    lemma_value64_take(s, 2);
    lemma_value64_take(s, 3);
    assert(s.take(4) =~= s);
    assert(value64(s.take(0)) == 0);
    lemma_pow64_values();
}

/// `2^(52 k)` is positive.
pub proof fn lemma_pow52_positive(k: nat)
    ensures
        pow52(k) > 0,
    decreases k,
{
    if k > 0 {
        lemma_pow52_positive((k - 1) as nat);
        assert(radix52() * pow52((k - 1) as nat) > 0) by (nonlinear_arith)
            requires
                pow52((k - 1) as nat) > 0,
                radix52() > 0,
        ;
    }
}

/// A resolved sequence of `n` limbs stands for a value in `[0, 2^(52 n))`.
pub proof fn lemma_resolved_bound(limbs: Seq<u64>)
    requires
        resolved(limbs),
    ensures
        0 <= value52(limbs) < pow52(limbs.len()),
    decreases limbs.len(),
{
    if limbs.len() > 0 {
        let lower = limbs.drop_last();
        let k = (limbs.len() - 1) as nat;
        assert forall|i: int| 0 <= i < lower.len() implies #[trigger] lower[i] < radix52() by {
            assert(lower[i] == limbs[i]);
        }
        lemma_resolved_bound(lower);
        lemma_pow52_positive(k);
        let top = limbs.last() as int;
        let pw = pow52(k);
        assert(top < radix52());
        assert(0 <= top * pw && top * pw + pw <= radix52() * pw) by (nonlinear_arith)
            requires
                0 <= top < radix52(),
                pw > 0,
        ;
    }
}

/// Any limb sequence stands for a non-negative value.
pub proof fn lemma_value52_nonnegative(limbs: Seq<u64>)
    ensures
        0 <= value52(limbs),
    decreases limbs.len(),
{
    if limbs.len() > 0 {
        let k = (limbs.len() - 1) as nat;
        lemma_value52_nonnegative(limbs.drop_last());
        lemma_pow52_positive(k);
        let top = limbs.last() as int;
        let pw = pow52(k);
        assert(0 <= top * pw) by (nonlinear_arith)
            requires
                0 <= top,
                pw > 0,
        ;
    }
}

/// Two resolved sequences of the same length that stand for the same value
/// are the same sequence.
pub proof fn lemma_resolved_unique(x: Seq<u64>, y: Seq<u64>)
    requires
        resolved(x),
        resolved(y),
        x.len() == y.len(),
        value52(x) == value52(y),
    ensures
        x =~= y,
    decreases x.len(),
{
    if x.len() > 0 {
        let k = (x.len() - 1) as nat;
        let xl = x.drop_last();
        let yl = y.drop_last();
        assert forall|i: int| 0 <= i < xl.len() implies #[trigger] xl[i] < radix52() by {
            assert(xl[i] == x[i]);
        }
        assert forall|i: int| 0 <= i < yl.len() implies #[trigger] yl[i] < radix52() by {
            assert(yl[i] == y[i]);
        }
        lemma_resolved_bound(xl);
        lemma_resolved_bound(yl);
        lemma_pow52_positive(k);
        let pw = pow52(k);
        let xt = x.last() as int;
        let yt = y.last() as int;
        let vx = value52(xl);
        let vy = value52(yl);
        assert(xt == yt) by (nonlinear_arith)
            requires
                vx + xt * pw == vy + yt * pw,
                0 <= vx < pw,
                0 <= vy < pw,
        ;
        lemma_resolved_unique(xl, yl);
        assert forall|i: int| 0 <= i < x.len() implies x[i] == y[i] by {
            if i < x.len() - 1 {
                assert(xl[i] == x[i]);
                assert(yl[i] == y[i]);
            }
        }
    }
}

/// `2^(64 k)` is positive.
pub proof fn lemma_pow64_positive(k: nat)
    ensures
        pow64(k) > 0,
    decreases k,
{
    if k > 0 {
        lemma_pow64_positive((k - 1) as nat);
        assert(radix64() * pow64((k - 1) as nat) > 0) by (nonlinear_arith)
            requires
                pow64((k - 1) as nat) > 0,
                radix64() > 0,
        ;
    }
}

/// A sequence of `n` 64-bit limbs stands for a value in `[0, 2^(64 n))`.
pub proof fn lemma_value64_bound(limbs: Seq<u64>)
    ensures
        0 <= value64(limbs) < pow64(limbs.len()),
    decreases limbs.len(),
{
    if limbs.len() > 0 {
        let k = (limbs.len() - 1) as nat;
        lemma_value64_bound(limbs.drop_last());
        lemma_pow64_positive(k);
        let top = limbs.last() as int;
        let pw = pow64(k);
        assert(0 <= top * pw && top * pw + pw <= radix64() * pw) by (nonlinear_arith)
            requires
                0 <= top < radix64(),
                pw > 0,
        ;
    }
}

/// Two sequences of 64-bit limbs of the same length that stand for the same
/// value are the same sequence.
pub proof fn lemma_value64_unique(x: Seq<u64>, y: Seq<u64>)
    requires
        x.len() == y.len(),
        value64(x) == value64(y),
    ensures
        x =~= y,
    decreases x.len(),
{
    if x.len() > 0 {
        let k = (x.len() - 1) as nat;
        let xl = x.drop_last();
        let yl = y.drop_last();
        lemma_value64_bound(xl);
        lemma_value64_bound(yl);
        lemma_pow64_positive(k);
        let pw = pow64(k);
        let xt = x.last() as int;
        let yt = y.last() as int;
        let vx = value64(xl);
        let vy = value64(yl);
        assert(xt == yt) by (nonlinear_arith)
            requires
                vx + xt * pw == vy + yt * pw,
                0 <= vx < pw,
                0 <= vy < pw,
        ;
        lemma_value64_unique(xl, yl);
        assert forall|i: int| 0 <= i < x.len() implies x[i] == y[i] by {
            if i < x.len() - 1 {
                assert(xl[i] == x[i]);
                assert(yl[i] == y[i]);
            }
        }
    }
}

/// Limbs that are all zero stand for zero.
pub proof fn lemma_value64_zero(limbs: Seq<u64>)
    requires
        forall|i: int| 0 <= i < limbs.len() ==> limbs[i] == 0,
    ensures
        value64(limbs) == 0,
    decreases limbs.len(),
{
    if limbs.len() > 0 {
        lemma_value64_zero(limbs.drop_last());
        assert(limbs.last() == 0);
        assert(0 * pow64((limbs.len() - 1) as nat) == 0);
    }
}

} // verus!
