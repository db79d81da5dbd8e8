//! The digit-product kernel and the bias bookkeeping that goes with it.
//!
//! A product of two 52-bit digits is split at bit 52. Each half comes back
//! with a constant in its top twelve bits: the exponent field of the double in
//! which a fused multiply-add delivers it. An accumulator can be seeded with
//! the negated sum of the constants it is going to receive, so that plain
//! wrapping addition leaves the sum of the halves alone.
use vstd::prelude::*;
use crate::limbs::{radix52, radix64};

verus! {

/// Bias carried by the high half of a kernel product: the bit pattern of the
/// double `2^104`.
pub const C1: u64 = 0x4670_0000_0000_0000;

/// Bit pattern of the double `2^104 + 2^52`.
pub const C2: u64 = 0x4670_0000_0000_0001;

/// Bias carried by the low half of a kernel product: the bit pattern of the
/// double `2^52`.
pub const C3: u64 = 0x4330_0000_0000_0000;

/// The product kernel: splits `a * b` at bit 52.
///
/// The first component is the low half plus the bias [`C3`], the second the
/// high half plus the bias [`C1`].
pub fn mult(a: u64, b: u64) -> (r: (u64, u64))
    requires
        a < radix52(),
        b < radix52(),
    ensures
        r.0 == C3 + low_half(a as int, b as int),
        r.1 == C1 + high_half(a as int, b as int),
{
    reveal(low_half);
    reveal(high_half);
    assert(0 <= a * b < 0x10_0000_0000_0000 * 0x10_0000_0000_0000) by (nonlinear_arith)
        requires
            a < 0x10_0000_0000_0000,
            b < 0x10_0000_0000_0000,
    ;
    let product: u128 = (a as u128) * (b as u128);
    let low: u128 = product & 0xF_FFFF_FFFF_FFFF;
    let high: u128 = product >> 52;
    assert(low == product % 0x10_0000_0000_0000 && high == product / 0x10_0000_0000_0000)
        by (bit_vector)
        requires
            low == product & 0xF_FFFF_FFFF_FFFF,
            high == product >> 52,
    ;
    (C3 + low as u64, C1 + high as u64)
}

/// Total bias, in units of `2^52`, of `low_count` low halves and `high_count`
/// high halves of kernel products.
pub open spec fn bias_weight(low_count: int, high_count: int) -> int {
    high_count * 0x467 + low_count * 0x433
}

/// The word that cancels, in wrapping addition, the bias of `low_count` low
/// halves and `high_count` high halves.
pub open spec fn initial_constant(low_count: int, high_count: int) -> int {
    (-((bias_weight(low_count, high_count) % 0x1000) * radix52())) % radix64()
}

/// Seed for an accumulator that will receive `low_count` low halves and
/// `high_count` high halves of kernel products by wrapping addition.
pub fn make_initial(low_count: usize, high_count: usize) -> (r: u64)
    requires
        bias_weight(low_count as int, high_count as int) <= usize::MAX,
    ensures
        r == initial_constant(low_count as int, high_count as int),
{
    let val: usize = high_count * 0x467 + low_count * 0x433;
    let wide: u64 = val as u64;
    let low12: u64 = wide & 0xFFF;
    let shifted: u64 = low12 << 52;
    assert(low12 == wide % 0x1000 && shifted == low12 * 0x10_0000_0000_0000) by (bit_vector)
        requires
            low12 == wide & 0xFFF,
            shifted == low12 << 52,
    ;
    0u64.wrapping_sub(shifted)
}

/// The low 52-bit half of the product `x * y`.
#[verifier::opaque]
pub open spec fn low_half(x: int, y: int) -> int {
    (x * y) % radix52()
}

/// The high half of the product `x * y`: what lies above bit 52.
#[verifier::opaque]
pub open spec fn high_half(x: int, y: int) -> int {
    (x * y) / radix52()
}

/// The two halves of a product of 52-bit digits are 52-bit digits and put
/// together give the product.
pub proof fn lemma_halves(x: int, y: int)
    requires
        0 <= x < radix52(),
        0 <= y < radix52(),
    ensures
        0 <= low_half(x, y) < radix52(),
        0 <= high_half(x, y) < radix52(),
        low_half(x, y) + high_half(x, y) * radix52() == x * y,
{
    reveal(low_half);
    reveal(high_half);
    assert(0 <= x * y < radix52() * radix52()) by (nonlinear_arith)
        requires
            0 <= x < radix52(),
            0 <= y < radix52(),
    ;
}

/// The word `x` holds the partial sum `v` of an accumulator that still awaits
/// `w` units of bias, each unit being `2^52`: `x = v - w * 2^52` modulo `2^64`.
#[verifier::opaque]
pub open spec fn biased(x: u64, v: int, w: int) -> bool {
    (x + w * radix52() - v) % radix64() == 0
}

/// A seed made for given counts holds the empty sum and awaits exactly the
/// bias of those counts.
pub proof fn lemma_seed_is_biased(low_count: int, high_count: int)
    requires
        0 <= low_count,
        0 <= high_count,
    ensures
        0 <= initial_constant(low_count, high_count) < radix64(),
        biased(
            initial_constant(low_count, high_count) as u64,
            0,
            bias_weight(low_count, high_count),
        ),
{
    reveal(biased);
    let w = bias_weight(low_count, high_count);
    let rest = w % 0x1000;
    let whole = w / 0x1000;
    let x = initial_constant(low_count, high_count);
    assert(w == 0x1000 * whole + rest);
    if rest == 0 {
        assert(x == 0);
    } else {
        vstd::arithmetic::div_mod::lemma_fundamental_div_mod_converse(
            -(rest * radix52()),
            radix64(),
            -1,
            radix64() - rest * radix52(),
        );
        assert(x == radix64() - rest * radix52());
    }
    assert(x + w * radix52() == radix64() * (whole + (if rest == 0 {
        0int
    } else {
        1int
    })));
    vstd::arithmetic::div_mod::lemma_fundamental_div_mod_converse(
        x + w * radix52(),
        radix64(),
        whole + (if rest == 0 {
            0int
        } else {
            1int
        }),
        0,
    );
}

/// Wrapping addition of a word that carries `dw` units of bias and the payload
/// `dv` moves the sum up by `dv` and the awaited bias down by `dw`.
pub proof fn lemma_biased_add(x: u64, y: u64, v: int, w: int, dv: int, dw: int)
    requires
        biased(x, v, w),
        y == dw * radix52() + dv,
    ensures
        biased(x.wrapping_add(y), v + dv, w - dw),
{
    reveal(biased);
}

/// An accumulator that awaits no more bias holds its sum as it is.
pub proof fn lemma_biased_exact(x: u64, v: int)
    requires
        biased(x, v, 0),
        0 <= v < radix64(),
    ensures
        x == v,
{
    reveal(biased);
}

/// Whatever bias an accumulator awaits, its low 52 bits are those of its sum.
pub proof fn lemma_biased_low_bits(x: u64, v: int, w: int)
    requires
        biased(x, v, w),
    ensures
        x % 0x10_0000_0000_0000 == v % radix52(),
{
    reveal(biased);
}

/// Wrapping addition of two words adds their sums and the bias they await. A
/// word that brings bias with it, such as a product half, awaits a negative
/// amount.
pub proof fn lemma_biased_sum(x: u64, y: u64, vx: int, wx: int, vy: int, wy: int)
    requires
        biased(x, vx, wx),
        biased(y, vy, wy),
    ensures
        biased(x.wrapping_add(y), vx + vy, wx + wy),
{
    reveal(biased);
}

/// A word that is written as a payload plus whole units of bias brings that
/// bias with it.
pub proof fn lemma_biased_word(x: u64, v: int, w: int)
    requires
        x == v + w * radix52(),
    ensures
        biased(x, v, -w),
{
    reveal(biased);
}

/// The word that wrapping addition leaves in an accumulator that started at
/// `start` and has received payloads that sum to `v` and `w` units of bias.
#[verifier::opaque]
pub open spec fn accumulated(start: u64, v: int, w: int) -> int {
    (start + v + w * radix52()) % radix64()
}

/// An accumulator that has received nothing holds what it started with.
pub proof fn lemma_accumulated_nothing(start: u64)
    ensures
        start == accumulated(start, 0, 0),
{
    reveal(accumulated);
}

/// Wrapping addition of a word made of the payload `dv` and `dw` units of bias.
pub proof fn lemma_accumulated_add(start: u64, x: u64, y: u64, v: int, w: int, dv: int, dw: int)
    requires
        x == accumulated(start, v, w),
        y == dw * radix52() + dv,
    ensures
        x.wrapping_add(y) == accumulated(start, v + dv, w + dw),
{
    reveal(accumulated);
}

/// What an accumulator holds after it has received payloads and bias, given
/// what it held and awaited at the start.
pub proof fn lemma_accumulated_biased(start: u64, x: u64, v0: int, w0: int, v: int, w: int)
    requires
        biased(start, v0, w0),
        x == accumulated(start, v, w),
    ensures
        biased(x, v0 + v, w0 - w),
{
    reveal(accumulated);
    reveal(biased);
}

} // verus!
