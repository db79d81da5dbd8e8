//! Montgomery multiplication over four 64-bit limbs, with 64-by-64-bit
//! products of 128 bits: separated, coarsely integrated and finely
//! integrated operand scanning.
//!
//! All engines take any two four-limb factors and return five limbs that
//! stand for a Montgomery product for the radix `2^256`. For factors below
//! the modulus the result is below twice the modulus.
use vstd::prelude::*;
use crate::limbs::{
    lemma_pow64_positive, lemma_pow64_values, lemma_value64_bound, lemma_value64_of4,
    lemma_value64_take, lemma_value64_zero, pow64, radix64, value64,
};
use crate::montgomery::{
    lemma_montgomery_bound, lemma_montgomery_from_quotient, montgomery_product,
};

verus! {

/// The modulus limb `n0` and the word `np0` are matched: `n0 * np0 = -1`
/// modulo `2^64`.
pub open spec fn inverts64(n0: int, np0: int) -> bool {
    (n0 * np0 + 1) % radix64() == 0
}

/// `a * b + c + d` in two words: the low and the high 64 bits.
pub fn mac(a: u64, b: u64, c: u64, d: u64) -> (r: (u64, u64))
    ensures
        r.0 + r.1 * radix64() == a * b + c + d,
{
    assert(0 <= a * b <= 0xFFFF_FFFF_FFFF_FFFF * 0xFFFF_FFFF_FFFF_FFFF) by (nonlinear_arith)
        requires
            0 <= a <= 0xFFFF_FFFF_FFFF_FFFF,
            0 <= b <= 0xFFFF_FFFF_FFFF_FFFF,
    ;
    let wide: u128 = (a as u128) * (b as u128) + (c as u128) + (d as u128);
    split128(wide)
}

/// `a + b + c` in two words: the low 64 bits and the carry.
pub fn adc(a: u64, b: u64, c: u64) -> (r: (u64, u64))
    ensures
        r.0 + r.1 * radix64() == a + b + c,
        r.1 <= 2,
        c <= 1 ==> r.1 <= 1,
{
    let wide: u128 = (a as u128) + (b as u128) + (c as u128);
    split128(wide)
}

/// The low and the high 64 bits of a double word.
fn split128(wide: u128) -> (r: (u64, u64))
    ensures
        r.0 + r.1 * radix64() == wide,
{
    let low: u128 = wide & 0xFFFF_FFFF_FFFF_FFFF;
    let high: u128 = wide >> 64;
    assert(low + high * 0x1_0000_0000_0000_0000 == wide && low <= 0xFFFF_FFFF_FFFF_FFFF && high
        <= 0xFFFF_FFFF_FFFF_FFFF) by (bit_vector)
        requires
            low == wide & 0xFFFF_FFFF_FFFF_FFFF,
            high == wide >> 64,
    ;
    (low as u64, high as u64)
}

/// One step of a multiply-and-add chain, scaled by the weight of its
/// position: the step adds `x * y` at weight `pw`.
proof fn lemma_mac_step(pw: int, low: int, high: int, x: int, y: int, limb: int, carry: int)
    requires
        low + high * radix64() == x * y + limb + carry,
    ensures
        low * pw + high * (radix64() * pw) == limb * pw + carry * pw + x * (y * pw),
{
    let xy = x * y;
    assert((low + high * radix64()) * pw == low * pw + high * (radix64() * pw))
        by (nonlinear_arith);
    assert((xy + limb + carry) * pw == xy * pw + limb * pw + carry * pw) by (nonlinear_arith);
    assert(xy * pw == x * (y * pw)) by (nonlinear_arith)
        requires
            xy == x * y,
    ;
}

/// One step of a carry chain, scaled by the weight of its position.
proof fn lemma_adc_step(pw: int, low: int, high: int, limb: int, carry: int)
    requires
        low + high * radix64() == limb + carry,
    ensures
        low * pw + high * (radix64() * pw) == limb * pw + carry * pw,
{
    assert((low + high * radix64()) * pw == low * pw + high * (radix64() * pw))
        by (nonlinear_arith);
    assert((limb + carry) * pw == limb * pw + carry * pw) by (nonlinear_arith);
}

/// The word `m = t0 * np0` cancels the low word of `t0 + m * n0`.
proof fn lemma_digit64(t0: u64, n0: u64, np0: u64, m: u64, low: int, high: int)
    requires
        inverts64(n0 as int, np0 as int),
        m == t0.wrapping_mul(np0),
        0 <= low < radix64(),
        low + high * radix64() == m * n0 + t0,
    ensures
        low == 0,
{
    let w = radix64();
    let p = t0 as int * np0 as int;
    assert(0 <= p) by (nonlinear_arith)
        requires
            p == t0 as int * np0 as int,
            0 <= t0,
            0 <= np0,
    ;
    assert(m == p % w);
    // m * n0 = t0 * np0 * n0 = -t0 modulo the radix
    vstd::arithmetic::div_mod::lemma_mul_mod_noop_left(p, n0 as int, w);
    assert((m * n0) % w == (p * n0) % w);
    assert(p * n0 == t0 * (n0 * np0 + 1) - t0) by (nonlinear_arith)
        requires
            p == t0 as int * np0 as int,
    ;
    vstd::arithmetic::div_mod::lemma_mul_mod_noop_right(t0 as int, n0 * np0 + 1, w);
    assert((t0 * (n0 * np0 + 1)) % w == (t0 * 0) % w);
    let q = (t0 * (n0 * np0 + 1)) / w;
    vstd::arithmetic::div_mod::lemma_fundamental_div_mod(t0 * (n0 * np0 + 1), w);
    assert(p * n0 == w * q - t0);
    vstd::arithmetic::div_mod::lemma_mod_multiples_vanish(q, -(t0 as int), w);
    assert((p * n0) % w == (-(t0 as int)) % w);
    vstd::arithmetic::div_mod::lemma_add_mod_noop(m * n0, t0 as int, w);
    vstd::arithmetic::div_mod::lemma_add_mod_noop((-(t0 as int)), t0 as int, w);
    assert((m * n0 + t0) % w == 0);
    vstd::arithmetic::div_mod::lemma_fundamental_div_mod_converse(m * n0 + t0, w, high, low);
}

/// Folding a round into the running identity of a multiplication that scans
/// the digits of `b`.
proof fn lemma_fold64(
    t: int,
    next: int,
    pw: int,
    acc_b: int,
    acc_m: int,
    x: int,
    m: int,
    va: int,
    vn: int,
)
    requires
        t * pw == acc_b * va + acc_m * vn,
        radix64() * next == t + x * va + m * vn,
    ensures
        next * (radix64() * pw) == (acc_b + x * pw) * va + (acc_m + m * pw) * vn,
{
    let radix = radix64();
    let xa = x * va;
    let mn = m * vn;
    assert(next * (radix * pw) == (radix * next) * pw) by (nonlinear_arith);
    assert((t + xa + mn) * pw == t * pw + xa * pw + mn * pw) by (nonlinear_arith);
    assert(xa * pw == (x * pw) * va) by (nonlinear_arith)
        requires
            xa == x * va,
    ;
    assert(mn * pw == (m * pw) * vn) by (nonlinear_arith)
        requires
            mn == m * vn,
    ;
    assert((acc_b + x * pw) * va == acc_b * va + (x * pw) * va) by (nonlinear_arith);
    assert((acc_m + m * pw) * vn == acc_m * vn + (m * pw) * vn) by (nonlinear_arith);
}

/// A digit times a number that grows by a limb.
proof fn lemma_scale_take(x: int, v: Seq<u64>, j: int)
    requires
        0 <= j < v.len(),
    ensures
        x * value64(v.take(j + 1)) == x * value64(v.take(j)) + x * (v[j] * pow64(j as nat)),
{
    lemma_value64_take(v, j);
    let low = value64(v.take(j));
    let top = v[j] * pow64(j as nat);
    assert(x * (low + top) == x * low + x * top) by (nonlinear_arith);
}

/// A modulus that is matched by some word is not zero.
proof fn lemma_modulus_positive(n: Seq<u64>, np0: int)
    requires
        n.len() == 4,
        inverts64(n[0] as int, np0),
    ensures
        value64(n) > 0,
{
    lemma_value64_of4(n);
    lemma_pow64_values();
    if n[0] == 0 {
        assert(0 * np0 == 0);
    }
}

/// The sums of a round stay below the sum of the first factor and the
/// modulus.
proof fn lemma_round_bound(t: int, next: int, x: int, m: int, va: int, vn: int)
    requires
        0 <= t < va + vn,
        0 <= x < radix64(),
        0 <= m < radix64(),
        0 <= va,
        0 < vn,
        radix64() * next == t + x * va + m * vn,
    ensures
        0 <= next < va + vn,
{
    let radix = radix64();
    assert(x * va <= (radix - 1) * va) by (nonlinear_arith)
        requires
            0 <= x <= radix - 1,
            0 <= va,
    ;
    assert(m * vn <= (radix - 1) * vn) by (nonlinear_arith)
        requires
            0 <= m <= radix - 1,
            0 <= vn,
    ;
    assert(0 <= x * va && 0 <= m * vn) by (nonlinear_arith)
        requires
            0 <= x,
            0 <= va,
            0 <= m,
            0 <= vn,
    ;
    assert((radix - 1) * va + (radix - 1) * vn + va + vn == radix * (va + vn))
        by (nonlinear_arith);
}

/// What five limb sums that scan all four digits of `b` stand for is a
/// Montgomery product.
proof fn lemma_scanned(
    r: Seq<u64>,
    a: Seq<u64>,
    b: Seq<u64>,
    n: Seq<u64>,
    quotient: int,
)
    requires
        b.len() == 4,
        n.len() == 4,
        value64(n) > 0,
        0 <= quotient < pow64(4),
        value64(r) * pow64(4) == value64(b.take(4)) * value64(a) + quotient * value64(n),
    ensures
        montgomery_product(value64(r), value64(a), value64(b), value64(n), pow64(4)),
        value64(a) < value64(n) && value64(b) < value64(n) ==> value64(r) < 2 * value64(n),
{
    assert(b.take(4) =~= b);
    assert(value64(b) * value64(a) == value64(a) * value64(b)) by (nonlinear_arith);
    lemma_montgomery_from_quotient(
        value64(r),
        value64(a),
        value64(b),
        value64(n),
        pow64(4),
        quotient,
    );
    lemma_residues_bound(r, a, b, n);
}

/// The Montgomery product of two residues is below twice the modulus.
proof fn lemma_residues_bound(r: Seq<u64>, a: Seq<u64>, b: Seq<u64>, n: Seq<u64>)
    requires
        n.len() == 4,
        montgomery_product(value64(r), value64(a), value64(b), value64(n), pow64(4)),
    ensures
        value64(a) < value64(n) && value64(b) < value64(n) ==> value64(r) < 2 * value64(n),
{
    lemma_value64_bound(a);
    lemma_value64_bound(b);
    lemma_value64_bound(n);
    lemma_pow64_positive(4);
    lemma_montgomery_bound(value64(r), value64(a), value64(b), value64(n), pow64(4));
}

/// The end of a round: the top of the second pass is carried into limb
/// three, and the two carries that are left make up limb four.
proof fn lemma_round_end(
    v3: int,
    low: int,
    high: int,
    x4: int,
    x5: int,
    carry: int,
    low4: int,
    mn: int,
)
    requires
        radix64() * v3 + carry * pow64(4) == low4 + mn,
        low + high * radix64() == x4 + carry,
    ensures
        radix64() * (v3 + low * pow64(3) + (x5 + high) * pow64(4)) == (low4 + x4 * pow64(4) + x5
            * pow64(5)) + mn,
{
    lemma_pow64_values();
}

/// Coarsely integrated operand scanning: for every digit of `b`, one pass
/// adds the digit times `a` to the six-limb scratch, and a second pass adds
/// the round's digit `m` times the modulus and moves the limbs down one
/// place.
pub fn cios(a: [u64; 4], b: [u64; 4], n: [u64; 4], np0: u64) -> (r: [u64; 5])
    requires
        inverts64(n@[0] as int, np0 as int),
    ensures
        montgomery_product(value64(r@), value64(a@), value64(b@), value64(n@), pow64(4)),
        value64(a@) < value64(n@) && value64(b@) < value64(n@) ==> value64(r@) < 2 * value64(n@),
{
    let mut t: [u64; 6] = [0u64;6];
    let ghost mut quotient: int = 0;
    proof {
        lemma_modulus_positive(n@, np0 as int);
        lemma_value64_bound(a@);
        lemma_value64_zero(t@.take(5));
        assert(value64(b@.take(0)) == 0);
        assert(pow64(0) == 1);
    }
    for i in 0..4
        invariant
            inverts64(n@[0] as int, np0 as int),
            value64(n@) > 0,
            0 <= value64(a@),
            0 <= quotient < pow64(i as nat),
            0 <= value64(t@.take(5)) < value64(a@) + value64(n@),
            value64(t@.take(5)) * pow64(i as nat) == value64(b@.take(i as int)) * value64(a@)
                + quotient * value64(n@),
    {
        let ghost t0 = t@;
        let mut c: u64 = 0;
        proof {
            assert(value64(t@.take(0)) == 0 && value64(a@.take(0)) == 0);
            assert(b@[i as int] * 0 == 0 && pow64(0) == 1);
        }
        for j in 0..4
            invariant
                i < 4,
                t0.len() == 6,
                forall|k: int| j <= k < 6 ==> t@[k] == t0[k],
                value64(t@.take(j as int)) + c * pow64(j as nat) == value64(t0.take(j as int))
                    + b@[i as int] * value64(a@.take(j as int)),
        {
            let ghost before = t@;
            let (lo, hi): (u64, u64) = mac(b[i], a[j], t[j], c);
            t[j] = lo;
            proof {
                let k = j as int;
                lemma_value64_take(t@, k);
                lemma_value64_take(t0, k);
                lemma_scale_take(b@[i as int] as int, a@, k);
                assert(t@.take(k) =~= before.take(k));
                lemma_mac_step(
                    pow64(j as nat),
                    lo as int,
                    hi as int,
                    b@[i as int] as int,
                    a@[k] as int,
                    t0[k] as int,
                    c as int,
                );
                assert(pow64((j + 1) as nat) == radix64() * pow64(j as nat));
            }
            c = hi;
        }
        let ghost row = t@;
        let (lo, hi): (u64, u64) = adc(t[4], c, 0);
        t[4] = lo;
        t[5] = hi;
        let ghost t1 = t@;
        proof {
            // the scratch holds the sums before the round and the digit
            // times the first factor
            lemma_value64_take(t1, 4);
            lemma_value64_take(t1, 5);
            lemma_value64_take(t0, 4);
            assert(t1.take(4) =~= row.take(4));
            assert(t1.take(6) =~= t1);
            assert(a@.take(4) =~= a@);
            lemma_adc_step(pow64(4), lo as int, hi as int, t0[4] as int, c as int);
            assert(pow64(5) == radix64() * pow64(4));
            assert(value64(t1) == value64(t0.take(5)) + b@[i as int] * value64(a@));
        }
        let m: u64 = t[0].wrapping_mul(np0);
        let (lo0, hi0): (u64, u64) = mac(m, n[0], t[0], 0);
        let mut c: u64 = hi0;
        proof {
            lemma_digit64(t[0], n[0], np0, m, lo0 as int, hi0 as int);
            lemma_value64_take(t1, 0);
            lemma_value64_take(n@, 0);
            assert(value64(t1.take(0)) == 0 && value64(n@.take(0)) == 0);
            assert(value64(t@.take(0)) == 0);
            assert(pow64(1) == radix64() * pow64(0) && pow64(0) == 1);
            assert(m * (n@[0] * 1) == m * n@[0]) by (nonlinear_arith);
            assert(m * (0 + n@[0] * 1) == m * n@[0]) by (nonlinear_arith);
        }
        for j in 1..4
            invariant
                t1.len() == 6,
                forall|k: int| j <= k < 6 ==> t@[k] == t1[k],
                radix64() * value64(t@.take(j - 1)) + c * pow64(j as nat) == value64(
                    t1.take(j as int),
                ) + m * value64(n@.take(j as int)),
        {
            let ghost before = t@;
            let (lo, hi): (u64, u64) = mac(m, n[j], t[j], c);
            t[j - 1] = lo;
            proof {
                let k = j as int;
                lemma_value64_take(t@, k - 1);
                lemma_value64_take(t1, k);
                lemma_scale_take(m as int, n@, k);
                assert(t@.take(k - 1) =~= before.take(k - 1));
                lemma_mac_step(
                    pow64(j as nat),
                    lo as int,
                    hi as int,
                    m as int,
                    n@[k] as int,
                    t1[k] as int,
                    c as int,
                );
                assert(pow64((j + 1) as nat) == radix64() * pow64(j as nat));
                assert(pow64(j as nat) == radix64() * pow64((j - 1) as nat));
                assert(radix64() * (lo * pow64((j - 1) as nat)) == lo * pow64(j as nat))
                    by (nonlinear_arith)
                    requires
                        pow64(j as nat) == radix64() * pow64((j - 1) as nat),
                ;
            }
            c = hi;
        }
        let ghost t2 = t@;
        let (lo, hi): (u64, u64) = adc(t[4], c, 0);
        t[3] = lo;
        t[4] = t[5] + hi;
        proof {
            let radix = radix64();
            let next = value64(t@.take(5));
            let total = value64(t1);
            lemma_value64_take(t@, 3);
            lemma_value64_take(t@, 4);
            lemma_value64_take(t1, 4);
            lemma_value64_take(t1, 5);
            assert(t@.take(3) =~= t2.take(3));
            assert(t1.take(6) =~= t1);
            assert(t@.take(5).take(3) =~= t@.take(3));
            assert(n@.take(4) =~= n@);
            lemma_pow64_values();
            lemma_adc_step(pow64(4), lo as int, hi as int, t1[4] as int, c as int);
            assert(t@.take(4) =~= t@.take(5).take(4));
            assert(radix * next == value64(t1) + m * value64(n@)) by {
                let v3 = value64(t@.take(3));
                let (l, h, x4, x5) = (lo as int, hi as int, t1[4] as int, t1[5] as int);
                assert(next == v3 + l * pow64(3) + (x5 + h) * pow64(4));
                assert(value64(t1) == value64(t1.take(4)) + x4 * pow64(4) + x5 * pow64(5));
                assert(radix * v3 + c * pow64(4) == value64(t1.take(4)) + m * value64(n@));
                lemma_round_end(
                    v3,
                    l,
                    h,
                    x4,
                    x5,
                    c as int,
                    value64(t1.take(4)),
                    m * value64(n@),
                );
            }
            lemma_fold64(
                value64(t0.take(5)),
                next,
                pow64(i as nat),
                value64(b@.take(i as int)),
                quotient,
                b@[i as int] as int,
                m as int,
                value64(a@),
                value64(n@),
            );
            lemma_round_bound(
                value64(t0.take(5)),
                next,
                b@[i as int] as int,
                m as int,
                value64(a@),
                value64(n@),
            );
            lemma_value64_take(b@, i as int);
            lemma_pow64_positive(i as nat);
            let pw = pow64(i as nat);
            assert(m * pw + quotient < radix * pw && 0 <= m * pw) by (nonlinear_arith)
                requires
                    0 <= m < radix,
                    0 <= quotient < pw,
            ;
            assert(pow64((i + 1) as nat) == radix * pw);
            quotient = quotient + m * pw;
        }
    }
    let r: [u64; 5] = [t[0], t[1], t[2], t[3], t[4]];
    proof {
        assert(r@ =~= t@.take(5));
        lemma_scanned(r@, a@, b@, n@, quotient);
    }
    r
}

/// One fused step of a round, scaled by the weight of its position: the
/// step adds `x * y` and `m * z` at weight `pw` with two carries.
proof fn lemma_fused_step(
    pw: int,
    mid: int,
    low: int,
    high1: int,
    high2: int,
    x: int,
    y: int,
    m: int,
    z: int,
    limb: int,
    carry1: int,
    carry2: int,
)
    requires
        mid + high1 * radix64() == x * y + limb + carry1,
        low + high2 * radix64() == m * z + mid + carry2,
    ensures
        low * pw + (high1 + high2) * (radix64() * pw) == limb * pw + (carry1 + carry2) * pw + x * (y
            * pw) + m * (z * pw),
{
    lemma_mac_step(pw, mid, high1, x, y, limb, carry1);
    lemma_mac_step(pw, low, high2, m, z, mid, carry2);
    assert((high1 + high2) * (radix64() * pw) == high1 * (radix64() * pw) + high2 * (radix64()
        * pw)) by (nonlinear_arith);
    assert((carry1 + carry2) * pw == carry1 * pw + carry2 * pw) by (nonlinear_arith);
}

/// The end of a fused round: the top limb and the two carries are summed
/// into limbs three and four.
proof fn lemma_fused_end(
    v3: int,
    low: int,
    high: int,
    x4: int,
    carries: int,
    low4: int,
    rest: int,
)
    requires
        radix64() * v3 + carries * pow64(4) == low4 + rest,
        low + high * radix64() == x4 + carries,
    ensures
        radix64() * (v3 + low * pow64(3) + high * pow64(4)) == (low4 + x4 * pow64(4)) + rest,
{
    lemma_pow64_values();
}

/// Finely integrated operand scanning: for every digit of `b`, one fused
/// pass adds the digit times `a` and the round's digit `m` times the modulus
/// and moves the limbs down one place, with one carry for each of the two
/// products.
pub fn fios(a: [u64; 4], b: [u64; 4], n: [u64; 4], np0: u64) -> (r: [u64; 5])
    requires
        inverts64(n@[0] as int, np0 as int),
    ensures
        montgomery_product(value64(r@), value64(a@), value64(b@), value64(n@), pow64(4)),
        value64(a@) < value64(n@) && value64(b@) < value64(n@) ==> value64(r@) < 2 * value64(n@),
{
    let mut t: [u64; 5] = [0u64;5];
    let ghost mut quotient: int = 0;
    proof {
        lemma_modulus_positive(n@, np0 as int);
        lemma_value64_bound(a@);
        lemma_value64_zero(t@);
        assert(value64(b@.take(0)) == 0);
        assert(pow64(0) == 1);
    }
    for i in 0..4
        invariant
            inverts64(n@[0] as int, np0 as int),
            value64(n@) > 0,
            0 <= value64(a@),
            0 <= quotient < pow64(i as nat),
            0 <= value64(t@) < value64(a@) + value64(n@),
            value64(t@) * pow64(i as nat) == value64(b@.take(i as int)) * value64(a@) + quotient
                * value64(n@),
    {
        let ghost t0 = t@;
        let (s, hi1): (u64, u64) = mac(b[i], a[0], t[0], 0);
        let m: u64 = s.wrapping_mul(np0);
        let (zero, hi2): (u64, u64) = mac(m, n[0], s, 0);
        let mut c1: u64 = hi1;
        let mut c2: u64 = hi2;
        proof {
            lemma_digit64(s, n[0], np0, m, zero as int, hi2 as int);
            lemma_value64_take(t0, 0);
            lemma_value64_take(n@, 0);
            lemma_value64_take(a@, 0);
            assert(value64(t0.take(0)) == 0 && value64(n@.take(0)) == 0 && value64(a@.take(0))
                == 0);
            assert(value64(t@.take(0)) == 0);
            assert(pow64(1) == radix64() * pow64(0) && pow64(0) == 1);
            assert(m * (0 + n@[0] * 1) == m * n@[0]) by (nonlinear_arith);
            assert(b@[i as int] * (0 + a@[0] * 1) == b@[i as int] * a@[0]) by (nonlinear_arith);
        }
        for j in 1..4
            invariant
                i < 4,
                t0.len() == 5,
                forall|k: int| j <= k < 5 ==> t@[k] == t0[k],
                radix64() * value64(t@.take(j - 1)) + (c1 + c2) * pow64(j as nat) == value64(
                    t0.take(j as int),
                ) + b@[i as int] * value64(a@.take(j as int)) + m * value64(n@.take(j as int)),
        {
            let ghost before = t@;
            let (mid, hi1): (u64, u64) = mac(b[i], a[j], t[j], c1);
            let (lo, hi2): (u64, u64) = mac(m, n[j], mid, c2);
            t[j - 1] = lo;
            proof {
                let k = j as int;
                lemma_value64_take(t@, k - 1);
                lemma_value64_take(t0, k);
                lemma_scale_take(b@[i as int] as int, a@, k);
                lemma_scale_take(m as int, n@, k);
                assert(t@.take(k - 1) =~= before.take(k - 1));
                lemma_fused_step(
                    pow64(j as nat),
                    mid as int,
                    lo as int,
                    hi1 as int,
                    hi2 as int,
                    b@[i as int] as int,
                    a@[k] as int,
                    m as int,
                    n@[k] as int,
                    t0[k] as int,
                    c1 as int,
                    c2 as int,
                );
                assert(pow64((j + 1) as nat) == radix64() * pow64(j as nat));
                assert(pow64(j as nat) == radix64() * pow64((j - 1) as nat));
                assert(radix64() * (lo * pow64((j - 1) as nat)) == lo * pow64(j as nat))
                    by (nonlinear_arith)
                    requires
                        pow64(j as nat) == radix64() * pow64((j - 1) as nat),
                ;
            }
            c1 = hi1;
            c2 = hi2;
        }
        let ghost t2 = t@;
        let (lo, hi): (u64, u64) = adc(t[4], c1, c2);
        t[3] = lo;
        t[4] = hi;
        proof {
            let radix = radix64();
            let next = value64(t@);
            lemma_value64_take(t@, 3);
            lemma_value64_take(t@, 4);
            lemma_value64_take(t0, 4);
            assert(t@.take(3) =~= t2.take(3));
            assert(t@.take(5) =~= t@);
            assert(t0.take(5) =~= t0);
            assert(n@.take(4) =~= n@);
            assert(a@.take(4) =~= a@);
            assert(radix * next == value64(t0) + b@[i as int] * value64(a@) + m * value64(n@)) by {
                let v3 = value64(t@.take(3));
                lemma_fused_end(
                    v3,
                    lo as int,
                    hi as int,
                    t0[4] as int,
                    c1 + c2,
                    value64(t0.take(4)),
                    b@[i as int] * value64(a@) + m * value64(n@),
                );
            }
            lemma_fold64(
                value64(t0),
                next,
                pow64(i as nat),
                value64(b@.take(i as int)),
                quotient,
                b@[i as int] as int,
                m as int,
                value64(a@),
                value64(n@),
            );
            lemma_round_bound(
                value64(t0),
                next,
                b@[i as int] as int,
                m as int,
                value64(a@),
                value64(n@),
            );
            lemma_value64_take(b@, i as int);
            lemma_pow64_positive(i as nat);
            let pw = pow64(i as nat);
            assert(m * pw + quotient < radix * pw && 0 <= m * pw) by (nonlinear_arith)
                requires
                    0 <= m < radix,
                    0 <= quotient < pw,
            ;
            assert(pow64((i + 1) as nat) == radix * pw);
            quotient = quotient + m * pw;
        }
    }
    proof {
        lemma_scanned(t@, a@, b@, n@, quotient);
    }
    t
}

/// A digit times a number that grows by a limb, `i` limbs up.
proof fn lemma_scale_take_shifted(x: int, v: Seq<u64>, i: nat, j: int)
    requires
        0 <= j < v.len(),
    ensures
        x * (value64(v.take(j + 1)) * pow64(i)) == x * (value64(v.take(j)) * pow64(i)) + x * (v[j]
            * pow64((i + j) as nat)),
{
    lemma_value64_take(v, j);
    lemma_pow64_add(i, j as nat);
    let low = value64(v.take(j));
    let top = v[j] as int;
    let pi = pow64(i);
    let pj = pow64(j as nat);
    let pij = pow64((i + j) as nat);
    assert((low + top * pj) * pi == low * pi + top * pij) by (nonlinear_arith)
        requires
            pij == pi * pj,
    ;
    assert(x * (low * pi + top * pij) == x * (low * pi) + x * (top * pij)) by (nonlinear_arith);
}

/// Powers of the radix multiply.
proof fn lemma_pow64_add(i: nat, j: nat)
    ensures
        pow64(i + j) == pow64(i) * pow64(j),
    decreases j,
{
    if j == 0 {
        assert(pow64(i) * 1 == pow64(i));
    } else {
        lemma_pow64_add(i, (j - 1) as nat);
        let pi = pow64(i);
        let pj = pow64((j - 1) as nat);
        assert(pow64(i + j) == radix64() * pow64((i + j - 1) as nat));
        assert(radix64() * (pi * pj) == pi * (radix64() * pj)) by (nonlinear_arith);
    }
}

/// Nine limbs of which the lowest four are zero stand for `2^256` times what
/// the upper five stand for.
proof fn lemma_upper_limbs(t: Seq<u64>, r: Seq<u64>)
    requires
        t.len() == 9,
        r.len() == 5,
        t[0] == 0 && t[1] == 0 && t[2] == 0 && t[3] == 0,
        forall|k: int| 0 <= k < 5 ==> r[k] == t[k + 4],
    ensures
        value64(t) == value64(r) * pow64(4),
{
    lemma_pow64_values();
    lemma_value64_take(t, 0);
    lemma_value64_take(t, 1);
    lemma_value64_take(t, 2);
    lemma_value64_take(t, 3);
    lemma_value64_take(t, 4);
    lemma_value64_take(t, 5);
    lemma_value64_take(t, 6);
    lemma_value64_take(t, 7);
    lemma_value64_take(t, 8);
    lemma_value64_take(r, 0);
    lemma_value64_take(r, 1);
    lemma_value64_take(r, 2);
    lemma_value64_take(r, 3);
    lemma_value64_take(r, 4);
    assert(t.take(9) =~= t);
    assert(r.take(5) =~= r);
    assert(value64(t.take(0)) == 0 && value64(r.take(0)) == 0);
    assert(r[0] == t[4] && r[1] == t[5] && r[2] == t[6] && r[3] == t[7] && r[4] == t[8]);
}

/// The product of two four-limb numbers and a multiple of the modulus with
/// a quotient of up to four limbs fit into nine limbs.
proof fn lemma_sos_bound(va: int, vb: int, vn: int, quotient: int, pw: int)
    requires
        0 <= va < pow64(4),
        0 <= vb < pow64(4),
        0 <= vn < pow64(4),
        0 <= quotient < pw,
        0 < pw <= pow64(4),
    ensures
        0 <= va * vb + quotient * vn < pow64(9),
{
    lemma_pow64_values();
    let w4 = pow64(4);
    assert(0 <= va * vb < w4 * w4) by (nonlinear_arith)
        requires
            0 <= va < w4,
            0 <= vb < w4,
    ;
    assert(0 <= quotient * vn < w4 * w4) by (nonlinear_arith)
        requires
            0 <= quotient < w4,
            0 <= vn < w4,
    ;
}

/// Separated operand scanning: first the whole product of `a` and `b` in
/// eight limbs, then four rounds that each add a multiple of the modulus to
/// clear one more low limb. The upper five limbs are the result.
pub fn sos(a: [u64; 4], b: [u64; 4], n: [u64; 4], np0: u64) -> (r: [u64; 5])
    requires
        inverts64(n@[0] as int, np0 as int),
    ensures
        montgomery_product(value64(r@), value64(a@), value64(b@), value64(n@), pow64(4)),
        value64(a@) < value64(n@) && value64(b@) < value64(n@) ==> value64(r@) < 2 * value64(n@),
{
    let mut t: [u64; 9] = [0u64;9];
    proof {
        lemma_modulus_positive(n@, np0 as int);
        lemma_value64_bound(a@);
        lemma_value64_bound(b@);
        lemma_value64_bound(n@);
        lemma_value64_zero(t@.take(4));
        assert(value64(b@.take(0)) == 0);
        assert(pow64(0) == 1);
    }
    for i in 0..4
        invariant
            forall|k: int| i + 4 <= k < 9 ==> t@[k] == 0,
            value64(t@.take(i + 4)) == value64(b@.take(i as int)) * value64(a@),
    {
        let ghost t0 = t@;
        let mut c: u64 = 0;
        proof {
            assert(value64(a@.take(0)) == 0);
            assert(b@[i as int] * (0 * pow64(i as nat)) == 0) by (nonlinear_arith);
        }
        for j in 0..4
            invariant
                i < 4,
                t0.len() == 9,
                forall|k: int| i + j <= k < 9 ==> t@[k] == t0[k],
                value64(t@.take(i + j)) + c * pow64((i + j) as nat) == value64(t0.take(i + j))
                    + b@[i as int] * (value64(a@.take(j as int)) * pow64(i as nat)),
        {
            let ghost before = t@;
            let (lo, hi): (u64, u64) = mac(b[i], a[j], t[i + j], c);
            t[i + j] = lo;
            proof {
                let k = i + j;
                lemma_value64_take(t@, k);
                lemma_value64_take(t0, k);
                lemma_scale_take_shifted(b@[i as int] as int, a@, i as nat, j as int);
                assert(t@.take(k) =~= before.take(k));
                lemma_mac_step(
                    pow64(k as nat),
                    lo as int,
                    hi as int,
                    b@[i as int] as int,
                    a@[j as int] as int,
                    t0[k] as int,
                    c as int,
                );
                assert(pow64((k + 1) as nat) == radix64() * pow64(k as nat));
            }
            c = hi;
        }
        let ghost row = t@;
        t[i + 4] = c;
        proof {
            let k = i + 4;
            assert forall|q: int| i + 5 <= q < 9 implies t@[q] == 0 by {
                assert(row[q] == t0[q]);
            }
            lemma_value64_take(t@, k);
            lemma_value64_take(b@, i as int);
            assert(t@.take(k) =~= row.take(k));
            assert(a@.take(4) =~= a@);
            let (bi, va, pw) = (b@[i as int] as int, value64(a@), pow64(i as nat));
            let low = value64(b@.take(i as int));
            assert((low + bi * pw) * va == low * va + bi * (va * pw)) by (nonlinear_arith);
        }
    }
    let ghost mut quotient: int = 0;
    proof {
        lemma_value64_take(t@, 8);
        assert(t@.take(9) =~= t@);
        assert(b@.take(4) =~= b@);
        assert(value64(b@) * value64(a@) == value64(a@) * value64(b@)) by (nonlinear_arith);
        assert(0 * pow64(8) == 0);
    }
    for i in 0..4
        invariant
            inverts64(n@[0] as int, np0 as int),
            0 <= value64(a@) < pow64(4),
            0 <= value64(b@) < pow64(4),
            0 < value64(n@) < pow64(4),
            0 <= quotient < pow64(i as nat),
            forall|k: int| 0 <= k < i ==> t@[k] == 0,
            value64(t@) == value64(a@) * value64(b@) + quotient * value64(n@),
    {
        let ghost t0 = t@;
        let m: u64 = t[i].wrapping_mul(np0);
        let mut c: u64 = 0;
        proof {
            assert(value64(n@.take(0)) == 0);
            assert(m * (0 * pow64(i as nat)) == 0) by (nonlinear_arith);
        }
        for j in 0..4
            invariant
                i < 4,
                t0.len() == 9,
                inverts64(n@[0] as int, np0 as int),
                m == t0[i as int].wrapping_mul(np0),
                forall|k: int| i + j <= k < 9 ==> t@[k] == t0[k],
                forall|k: int| 0 <= k < i ==> t@[k] == t0[k],
                j > 0 ==> t@[i as int] == 0,
                j == 0 ==> c == 0,
                value64(t@.take(i + j)) + c * pow64((i + j) as nat) == value64(t0.take(i + j)) + m
                    * (value64(n@.take(j as int)) * pow64(i as nat)),
        {
            let ghost before = t@;
            let (lo, hi): (u64, u64) = mac(m, n[j], t[i + j], c);
            t[i + j] = lo;
            proof {
                let k = i + j;
                if j == 0 {
                    lemma_digit64(t0[i as int], n[0], np0, m, lo as int, hi as int);
                }
                lemma_value64_take(t@, k);
                lemma_value64_take(t0, k);
                lemma_scale_take_shifted(m as int, n@, i as nat, j as int);
                assert(t@.take(k) =~= before.take(k));
                lemma_mac_step(
                    pow64(k as nat),
                    lo as int,
                    hi as int,
                    m as int,
                    n@[j as int] as int,
                    t0[k] as int,
                    c as int,
                );
                assert(pow64((k + 1) as nat) == radix64() * pow64(k as nat));
            }
            c = hi;
        }
        proof {
            assert(n@.take(4) =~= n@);
        }
        for k in (i + 4)..9
            invariant
                i < 4,
                t0.len() == 9,
                forall|q: int| k <= q < 9 ==> t@[q] == t0[q],
                forall|q: int| 0 <= q < i ==> t@[q] == t0[q],
                t@[i as int] == 0,
                value64(t@.take(k as int)) + c * pow64(k as nat) == value64(t0.take(k as int)) + m
                    * (value64(n@) * pow64(i as nat)),
        {
            let ghost before = t@;
            let (lo, hi): (u64, u64) = adc(t[k], c, 0);
            t[k] = lo;
            proof {
                lemma_value64_take(t@, k as int);
                lemma_value64_take(t0, k as int);
                assert(t@.take(k as int) =~= before.take(k as int));
                lemma_adc_step(pow64(k as nat), lo as int, hi as int, t0[k as int] as int, c as int);
                assert(pow64((k + 1) as nat) == radix64() * pow64(k as nat));
            }
            c = hi;
        }
        proof {
            let pw = pow64(i as nat);
            let radix = radix64();
            let vn = value64(n@);
            assert forall|q: int| 0 <= q < i + 1 implies t@[q] == 0 by {
                if q < i {
                    assert(t@[q] == t0[q]);
                }
            }
            assert(t@.take(9) =~= t@);
            assert(t0.take(9) =~= t0);
            lemma_pow64_positive(i as nat);
            lemma_pow64_values();
            assert(m * pw + quotient < radix * pw && 0 <= m * pw) by (nonlinear_arith)
                requires
                    0 <= m < radix,
                    0 <= quotient < pw,
            ;
            assert(pow64((i + 1) as nat) == radix * pw);
            assert(m * (vn * pw) == (m * pw) * vn) by (nonlinear_arith);
            assert((quotient + m * pw) * vn == quotient * vn + (m * pw) * vn) by (nonlinear_arith);
            assert(pow64((i + 1) as nat) <= pow64(4)) by {
                if i == 0 {
                } else if i == 1 {
                } else if i == 2 {
                } else {
                }
            }
            lemma_sos_bound(
                value64(a@),
                value64(b@),
                vn,
                quotient + m * pw,
                pow64((i + 1) as nat),
            );
            lemma_value64_bound(t@);
            // the carry out of the top limb is zero
            assert(c == 0) by {
                if c >= 1 {
                    assert(c * pow64(9) >= pow64(9)) by (nonlinear_arith)
                        requires
                            c >= 1,
                            pow64(9) > 0,
                    ;
                }
            }
            quotient = quotient + m * pw;
        }
    }
    let r: [u64; 5] = [t[4], t[5], t[6], t[7], t[8]];
    proof {
        lemma_upper_limbs(t@, r@);
        lemma_montgomery_from_quotient(
            value64(r@),
            value64(a@),
            value64(b@),
            value64(n@),
            pow64(4),
            quotient,
        );
        lemma_residues_bound(r@, a@, b@, n@);
    }
    r
}

/// The low halves and the high halves of the products of a digit with the
/// four limbs of a number make up the digit times the number.
proof fn lemma_halves64(x: int, v: Seq<u64>, lows: Seq<u64>, highs: Seq<u64>)
    requires
        v.len() == 4,
        lows.len() == 4,
        highs.len() == 4,
        forall|j: int| 0 <= j < 4 ==> (#[trigger] lows[j]) + highs[j] * radix64() == x * v[j],
    ensures
        value64(lows) + radix64() * value64(highs) == x * value64(v),
{
    lemma_value64_of4(v);
    lemma_value64_of4(lows);
    lemma_value64_of4(highs);
    lemma_pow64_values();
    let (v0, v1, v2, v3) = (v[0] as int, v[1] as int, v[2] as int, v[3] as int);
    let (w1, w2, w3) = (pow64(1), pow64(2), pow64(3));
    let (s1, s2, s3) = (v1 * w1, v2 * w2, v3 * w3);
    assert(x * (v0 + s1 + s2 + s3) == x * v0 + x * s1 + x * s2 + x * s3) by (nonlinear_arith);
    assert(x * s1 == (x * v1) * w1) by (nonlinear_arith)
        requires
            s1 == v1 * w1,
    ;
    assert(x * s2 == (x * v2) * w2) by (nonlinear_arith)
        requires
            s2 == v2 * w2,
    ;
    assert(x * s3 == (x * v3) * w3) by (nonlinear_arith)
        requires
            s3 == v3 * w3,
    ;
    assert(lows[0] + highs[0] * radix64() == x * v[0]);
    assert(lows[1] + highs[1] * radix64() == x * v[1]);
    assert(lows[2] + highs[2] * radix64() == x * v[2]);
    assert(lows[3] + highs[3] * radix64() == x * v[3]);
}

/// Adds the digit `x` times the number `v` to five limb sums: the low and
/// the high halves of the four products go in by one carry chain each. What
/// does not fit into the five limbs comes back as a sixth.
fn add_products(t: [u64; 5], x: u64, v: [u64; 4]) -> (r: ([u64; 5], u64))
    ensures
        value64(r.0@) + r.1 * pow64(5) == value64(t@) + x * value64(v@),
        r.1 <= 2,
{
    let ghost t0 = t@;
    let mut t = t;
    let mut lows: [u64; 4] = [0u64;4];
    let mut highs: [u64; 4] = [0u64;4];
    for j in 0..4
        invariant
            forall|k: int|
                0 <= k < j ==> (#[trigger] lows@[k]) + highs@[k] * radix64() == x * v@[k],
    {
        let (lo, hi): (u64, u64) = mac(x, v[j], 0, 0);
        lows[j] = lo;
        highs[j] = hi;
    }
    let mut c: u64 = 0;
    proof {
        assert(value64(t@.take(0)) == 0 && value64(lows@.take(0)) == 0 && pow64(0) == 1);
    }
    for j in 0..4
        invariant
            t0.len() == 5,
            c <= 1,
            forall|k: int| j <= k < 5 ==> t@[k] == t0[k],
            value64(t@.take(j as int)) + c * pow64(j as nat) == value64(t0.take(j as int))
                + value64(lows@.take(j as int)),
    {
        let ghost before = t@;
        let (lo, hi): (u64, u64) = adc(t[j], lows[j], c);
        t[j] = lo;
        proof {
            let k = j as int;
            lemma_value64_take(t@, k);
            lemma_value64_take(t0, k);
            lemma_value64_take(lows@, k);
            assert(t@.take(k) =~= before.take(k));
            lemma_adc_step(
                pow64(j as nat),
                lo as int,
                hi as int,
                t0[k] + lows@[k],
                c as int,
            );
            assert((t0[k] + lows@[k]) * pow64(j as nat) == t0[k] * pow64(j as nat) + lows@[k]
                * pow64(j as nat)) by (nonlinear_arith);
            assert(pow64((j + 1) as nat) == radix64() * pow64(j as nat));
        }
        c = hi;
    }
    let ghost chain = t@;
    let (lo, hi): (u64, u64) = adc(t[4], c, 0);
    t[4] = lo;
    let mut top: u64 = hi;
    let ghost t1 = t@;
    proof {
        lemma_value64_take(t1, 4);
        lemma_value64_take(t0, 4);
        assert(t1.take(4) =~= chain.take(4));
        assert(t1.take(5) =~= t1);
        assert(t0.take(5) =~= t0);
        assert(lows@.take(4) =~= lows@);
        lemma_adc_step(pow64(4), lo as int, hi as int, t0[4] as int, c as int);
        assert(pow64(5) == radix64() * pow64(4));
        assert(value64(t1) + top * pow64(5) == value64(t0) + value64(lows@));
        lemma_value64_take(t1, 0);
        assert(value64(t1.take(0)) == 0 && value64(highs@.take(0)) == 0);
        assert(pow64(1) == radix64() * pow64(0) && pow64(0) == 1);
    }
    c = 0;
    for j in 0..4
        invariant
            t1.len() == 5,
            c <= 1,
            forall|k: int| j + 1 <= k < 5 ==> t@[k] == t1[k],
            value64(t@.take(j + 1)) + c * pow64((j + 1) as nat) == value64(t1.take(j + 1))
                + radix64() * value64(highs@.take(j as int)),
    {
        let ghost before = t@;
        let (lo, hi): (u64, u64) = adc(t[j + 1], highs[j], c);
        t[j + 1] = lo;
        proof {
            let k = j + 1;
            lemma_value64_take(t@, k);
            lemma_value64_take(t1, k);
            lemma_value64_take(highs@, j as int);
            assert(t@.take(k) =~= before.take(k));
            lemma_adc_step(
                pow64(k as nat),
                lo as int,
                hi as int,
                t1[k] + highs@[j as int],
                c as int,
            );
            assert((t1[k] + highs@[j as int]) * pow64(k as nat) == t1[k] * pow64(k as nat)
                + highs@[j as int] * pow64(k as nat)) by (nonlinear_arith);
            assert(pow64((k + 1) as nat) == radix64() * pow64(k as nat));
            assert(pow64(k as nat) == radix64() * pow64(j as nat));
            assert(radix64() * (highs@[j as int] * pow64(j as nat)) == highs@[j as int] * pow64(
                k as nat,
            )) by (nonlinear_arith)
                requires
                    pow64(k as nat) == radix64() * pow64(j as nat),
            ;
        }
        c = hi;
    }
    proof {
        assert(t@.take(5) =~= t@);
        assert(highs@.take(4) =~= highs@);
        lemma_halves64(x as int, v@, lows@, highs@);
        lemma_pow64_values();
    }
    top = top + c;
    (t, top)
}

/// One round of [`cios_opt`]: adds the digit `x` times `a` and the round's
/// digit times the modulus to the sums and moves them down one limb. The
/// round's digit comes back beside the sums.
fn cios_opt_round(t: [u64; 5], x: u64, a: [u64; 4], n: [u64; 4], np0: u64) -> (r: (
    [u64; 5],
    u64,
))
    requires
        inverts64(n@[0] as int, np0 as int),
    ensures
        radix64() * value64(r.0@) == value64(t@) + x * value64(a@) + r.1 * value64(n@),
{
    let (u, top1): ([u64; 5], u64) = add_products(t, x, a);
    let m: u64 = u[0].wrapping_mul(np0);
    let (w, top2): ([u64; 5], u64) = add_products(u, m, n);
    let r: [u64; 5] = [w[1], w[2], w[3], w[4], top1 + top2];
    proof {
        let radix = radix64();
        lemma_pow64_values();
        lemma_value64_take(u@, 0);
        lemma_value64_take(u@, 1);
        lemma_value64_take(u@, 2);
        lemma_value64_take(u@, 3);
        lemma_value64_take(u@, 4);
        lemma_value64_take(w@, 0);
        lemma_value64_take(w@, 1);
        lemma_value64_take(w@, 2);
        lemma_value64_take(w@, 3);
        lemma_value64_take(w@, 4);
        lemma_value64_take(r@, 0);
        lemma_value64_take(r@, 1);
        lemma_value64_take(r@, 2);
        lemma_value64_take(r@, 3);
        lemma_value64_take(r@, 4);
        lemma_value64_of4(n@);
        assert(u@.take(5) =~= u@ && w@.take(5) =~= w@ && r@.take(5) =~= r@);
        assert(value64(u@.take(0)) == 0 && value64(w@.take(0)) == 0 && value64(r@.take(0))
            == 0);
        // the lowest limb of the sums is zero
        let above_w = w@[1] + w@[2] * pow64(1) + w@[3] * pow64(2) + w@[4] * pow64(3) + top2
            * pow64(4);
        let above_u = u@[1] + u@[2] * pow64(1) + u@[3] * pow64(2) + u@[4] * pow64(3);
        let above_n = n@[1] + n@[2] * pow64(1) + n@[3] * pow64(2);
        assert(value64(w@) == w@[0] + w@[1] * pow64(1) + w@[2] * pow64(2) + w@[3] * pow64(3)
            + w@[4] * pow64(4));
        assert(value64(u@) == u@[0] + u@[1] * pow64(1) + u@[2] * pow64(2) + u@[3] * pow64(3)
            + u@[4] * pow64(4));
        assert(value64(w@) + top2 * pow64(5) == w@[0] + radix * above_w);
        assert(value64(u@) == u@[0] + radix * above_u);
        assert(value64(n@) == n@[0] + radix * above_n);
        assert(m * (n@[0] + radix * above_n) == m * n@[0] + radix * (m * above_n))
            by (nonlinear_arith);
        assert(w@[0] + radix * (above_w - above_u - m * above_n) == m * n@[0] + u@[0]);
        lemma_digit64(
            u@[0],
            n@[0],
            np0,
            m,
            w@[0] as int,
            above_w - above_u - m * above_n,
        );
    }
    (r, m)
}

/// Coarsely integrated operand scanning on a scratch of five limbs, with
/// every 128-bit product taken apart into its low and its high word: in each
/// round the low words and the high words are added by carry chains of
/// their own.
pub fn cios_opt(a: [u64; 4], b: [u64; 4], n: [u64; 4], np0: u64) -> (r: [u64; 5])
    requires
        inverts64(n@[0] as int, np0 as int),
    ensures
        montgomery_product(value64(r@), value64(a@), value64(b@), value64(n@), pow64(4)),
        value64(a@) < value64(n@) && value64(b@) < value64(n@) ==> value64(r@) < 2 * value64(n@),
{
    let mut t: [u64; 5] = [0u64;5];
    let ghost mut quotient: int = 0;
    proof {
        lemma_modulus_positive(n@, np0 as int);
        lemma_value64_zero(t@);
        assert(value64(b@.take(0)) == 0);
        assert(pow64(0) == 1);
    }
    for i in 0..4
        invariant
            inverts64(n@[0] as int, np0 as int),
            value64(n@) > 0,
            0 <= quotient < pow64(i as nat),
            value64(t@) * pow64(i as nat) == value64(b@.take(i as int)) * value64(a@) + quotient
                * value64(n@),
    {
        let ghost t0 = t@;
        let (next, m): ([u64; 5], u64) = cios_opt_round(t, b[i], a, n, np0);
        t = next;
        proof {
            lemma_scan_round(t0, t@, a@, b@, n@, i as nat, m as int, quotient);
            quotient = quotient + m * pow64(i as nat);
        }
    }
    proof {
        lemma_scanned(t@, a@, b@, n@, quotient);
    }
    t
}

/// A round that scans digit `i` of `b` keeps the running identity of the
/// multiplication.
proof fn lemma_scan_round(
    before: Seq<u64>,
    after: Seq<u64>,
    a: Seq<u64>,
    b: Seq<u64>,
    n: Seq<u64>,
    i: nat,
    m: int,
    quotient: int,
)
    requires
        i < 4,
        b.len() == 4,
        0 <= m < radix64(),
        0 <= quotient < pow64(i),
        value64(before) * pow64(i) == value64(b.take(i as int)) * value64(a) + quotient * value64(
            n,
        ),
        radix64() * value64(after) == value64(before) + b[i as int] * value64(a) + m * value64(n),
    ensures
        0 <= quotient + m * pow64(i) < pow64(i + 1),
        value64(after) * pow64(i + 1) == value64(b.take(i as int + 1)) * value64(a) + (quotient + m
            * pow64(i)) * value64(n),
{
    let radix = radix64();
    let pw = pow64(i);
    lemma_fold64(
        value64(before),
        value64(after),
        pw,
        value64(b.take(i as int)),
        quotient,
        b[i as int] as int,
        m,
        value64(a),
        value64(n),
    );
    lemma_value64_take(b, i as int);
    lemma_pow64_positive(i);
    assert(m * pw + quotient < radix * pw && 0 <= m * pw) by (nonlinear_arith)
        requires
            0 <= m < radix,
            0 <= quotient < pw,
    ;
    assert(pow64(i + 1) == radix * pw);
}

/// Two multiplications by [`cios_opt`] side by side, round by round, so that
/// the products of the one can be computed while the carries of the other
/// are still on their way: the first result is the Montgomery product of `a`
/// and `b`, the second that of `c` and `d`.
pub fn cios_opt_sat(
    a: [u64; 4],
    b: [u64; 4],
    c: [u64; 4],
    d: [u64; 4],
    n: [u64; 4],
    np0: u64,
) -> (r: ([u64; 5], [u64; 5]))
    requires
        inverts64(n@[0] as int, np0 as int),
    ensures
        montgomery_product(value64(r.0@), value64(a@), value64(b@), value64(n@), pow64(4)),
        montgomery_product(value64(r.1@), value64(c@), value64(d@), value64(n@), pow64(4)),
        value64(a@) < value64(n@) && value64(b@) < value64(n@) ==> value64(r.0@) < 2 * value64(
            n@,
        ),
        value64(c@) < value64(n@) && value64(d@) < value64(n@) ==> value64(r.1@) < 2 * value64(
            n@,
        ),
{
    let mut t: [u64; 5] = [0u64;5];
    let mut u: [u64; 5] = [0u64;5];
    let ghost mut first: int = 0;
    let ghost mut second: int = 0;
    proof {
        lemma_modulus_positive(n@, np0 as int);
        lemma_value64_zero(t@);
        lemma_value64_zero(u@);
        assert(value64(b@.take(0)) == 0);
        assert(value64(d@.take(0)) == 0);
        assert(pow64(0) == 1);
    }
    for i in 0..4
        invariant
            inverts64(n@[0] as int, np0 as int),
            value64(n@) > 0,
            0 <= first < pow64(i as nat),
            0 <= second < pow64(i as nat),
            value64(t@) * pow64(i as nat) == value64(b@.take(i as int)) * value64(a@) + first
                * value64(n@),
            value64(u@) * pow64(i as nat) == value64(d@.take(i as int)) * value64(c@) + second
                * value64(n@),
    {
        let ghost t0 = t@;
        let ghost u0 = u@;
        let (next_t, m): ([u64; 5], u64) = cios_opt_round(t, b[i], a, n, np0);
        let (next_u, k): ([u64; 5], u64) = cios_opt_round(u, d[i], c, n, np0);
        t = next_t;
        u = next_u;
        proof {
            lemma_scan_round(t0, t@, a@, b@, n@, i as nat, m as int, first);
            lemma_scan_round(u0, u@, c@, d@, n@, i as nat, k as int, second);
            first = first + m * pow64(i as nat);
            second = second + k * pow64(i as nat);
        }
    }
    proof {
        lemma_scanned(t@, a@, b@, n@, first);
        lemma_scanned(u@, c@, d@, n@, second);
    }
    (t, u)
}

} // verus!
