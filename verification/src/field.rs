//! The laws of Montgomery multiplication for the prime of this library: what
//! holds of every result of the engines, whichever of them computed it.
use vstd::prelude::*;
use vstd::arithmetic::div_mod::lemma_fundamental_div_mod_converse;
use crate::limbs::{
    lemma_pow52_values, lemma_pow64_values, lemma_resolved_unique, lemma_value52_of5,
    lemma_value64_of4, pow52, pow64, resolved, value52, value64,
};
use crate::montgomery::{
    inverts_modulo, lemma_cancel, lemma_montgomery_bound, lemma_montgomery_congruent,
    lemma_montgomery_round_trip, lemma_montgomery_unique, lemma_montgomery_zero, montgomery_product,
};
use crate::reduction::{
    lemma_parallel_reduce_bound, lemma_parallel_reduce_congruent, modulus, parallel_reduce,
};
use crate::acar::inverts64;
use crate::{NP0, P, R2, U52_R2};

verus! {

/// The inverse of `2^260` modulo the prime.
pub open spec fn radix52_inverse() -> int {
    0x76b_4963_7452_8957_038c_6995_1b1b_b0e1_7597_6c63_ad48_4cda_a641_f8b2_d4db_1195int
}

/// The inverse of `2^256` modulo the prime.
pub open spec fn radix64_inverse() -> int {
    0x15eb_f951_82c5_551c_c826_0de4_aeb8_5d5d_090e_f5a9_e111_ec87_dc5b_a005_6db1_194eint
}

/// The inverse of the prime modulo `2^260`.
pub open spec fn modulus_inverse() -> int {
    0xd_8c07_d0e2_f27c_be4d_1c65_67d7_66f9_dc6e_9a79_79b4_b396_ee4c_3d1e_0a6c_1000_0001int
}

/// The inverse of the prime modulo `2^256`.
pub open spec fn modulus_inverse64() -> int {
    0x8c07_d0e2_f27c_be4d_1c65_67d7_66f9_dc6e_9a79_79b4_b396_ee4c_3d1e_0a6c_1000_0001int
}

/// The inverse of sixteen modulo the prime.
pub open spec fn sixteen_inverse() -> int {
    0x2d5e_098b_b31e_8627_1ccb_415b_1969_42d7_55b0_a9c3_f21d_d988_2fa3_d63a_b100_0001int
}

/// The radices and the prime are invertible modulo each other, and the
/// constants `U52_R2` and `R2` hold the squares of the radices modulo the
/// prime.
pub proof fn lemma_inverses()
    ensures
        inverts_modulo(pow52(5), radix52_inverse(), modulus()),
        inverts_modulo(pow64(4), radix64_inverse(), modulus()),
        inverts_modulo(modulus(), modulus_inverse(), pow52(5)),
        inverts_modulo(modulus(), modulus_inverse64(), pow64(4)),
        inverts_modulo(16, sixteen_inverse(), modulus()),
        value64(P@) == modulus(),
        inverts64(P@[0] as int, NP0 as int),
        0 <= value52(U52_R2@) < modulus(),
        0 <= value64(R2@) < modulus(),
        value52(U52_R2@) % modulus() == (pow52(5) * pow52(5)) % modulus(),
        value64(R2@) % modulus() == (pow64(4) * pow64(4)) % modulus(),
        4 * modulus() < pow64(4),
        pow52(5) == 16 * pow64(4),
{
    lemma_pow52_values();
    lemma_pow64_values();
    lemma_value52_of5(U52_R2@);
    lemma_value64_of4(R2@);
    let p = modulus();
    lemma_fundamental_div_mod_converse(
        pow52(5) * radix52_inverse(),
        p,
        0x2_73f8_2f1d_0d83_41b2_e39a_9828_9906_2391_6586_864b_4c69_11b3_c2e1_f593_efff_ffffint,
        1,
    );
    lemma_fundamental_div_mod_converse(
        pow64(4) * radix64_inverse(),
        p,
        0x73f8_2f1d_0d83_41b2_e39a_9828_9906_2391_6586_864b_4c69_11b3_c2e1_f593_efff_ffffint,
        1,
    );
    lemma_fundamental_div_mod_converse(
        p * modulus_inverse(),
        pow52(5),
        0x28f9_050f_6cdf_16d2_b4c3_dc21_6665_a77b_b29c_7be4_cc71_23b6_9d9f_fce1_1b24_ee6cint,
        1,
    );
    lemma_fundamental_div_mod_converse(
        p * modulus_inverse64(),
        pow64(4),
        0x1a78_5521_5e6c_4b0c_f02a_37d1_d2c8_fb00_1f24_f29e_98a7_8409_6786_558e_824e_e6b3int,
        1,
    );
    lemma_value64_of4(P@);
    lemma_fundamental_div_mod_converse(
        (P@[0] as int) * (NP0 as int) + 1,
        crate::limbs::radix64(),
        0x33ad_26d1_6d50_5ede,
        0,
    );
    lemma_fundamental_div_mod_converse(16 * sixteen_inverse(), p, 15, 1);
    lemma_fundamental_div_mod_converse(value52(U52_R2@), p, 0, value52(U52_R2@));
    lemma_fundamental_div_mod_converse(
        pow52(5) * pow52(5),
        p,
        0x54a_4746_2623_a04a_7ab0_74a5_8680_7301_4714_4852_009e_880a_e620_703a_6be1_de92_590bint,
        value52(U52_R2@),
    );
    lemma_fundamental_div_mod_converse(value64(R2@), p, 0, value64(R2@));
    lemma_fundamental_div_mod_converse(
        pow64(4) * pow64(4),
        p,
        0x5_4a47_4626_23a0_4a7a_b074_a586_8073_0147_1448_5200_9e88_0ae6_2070_3a6b_e1de_9259int,
        value64(R2@),
    );
}

/// Every engine returns the same number: the Montgomery product of given
/// factors for the prime and the radix `2^260` is unique.
pub proof fn lemma_engines_equal(r1: int, r2: int, a: int, b: int)
    requires
        montgomery_product(r1, a, b, modulus(), pow52(5)),
        montgomery_product(r2, a, b, modulus(), pow52(5)),
    ensures
        r1 == r2,
{
    lemma_inverses();
    lemma_pow52_values();
    lemma_montgomery_unique(r1, r2, a, b, modulus(), pow52(5), modulus_inverse());
}

/// The serial engines and the parallel reduction agree modulo the prime.
pub proof fn lemma_parallel_agrees(r: int, a: int, b: int)
    requires
        montgomery_product(r, a, b, modulus(), pow52(5)),
        0 <= a,
        0 <= b,
    ensures
        r % modulus() == parallel_reduce(a * b) % modulus(),
{
    lemma_inverses();
    assert(0 <= a * b) by (nonlinear_arith)
        requires
            0 <= a,
            0 <= b,
    ;
    lemma_montgomery_congruent(r, a, b, modulus(), pow52(5));
    lemma_parallel_reduce_congruent(a * b);
    lemma_cancel(r, parallel_reduce(a * b), pow52(5), radix52_inverse(), modulus());
}

/// A factor zero gives the result zero in every serial engine.
pub proof fn lemma_engine_zero(r: int, a: int, b: int)
    requires
        montgomery_product(r, a, b, modulus(), pow52(5)),
        a == 0 || b == 0,
    ensures
        r == 0,
{
    lemma_inverses();
    lemma_pow52_values();
    lemma_montgomery_zero(r, a, b, modulus(), pow52(5), radix52_inverse());
}

/// Two residues multiply to a result below twice the prime in every serial
/// engine, so that one conditional subtraction of the prime reduces it fully.
pub proof fn lemma_engine_bound(r: int, a: int, b: int)
    requires
        montgomery_product(r, a, b, modulus(), pow52(5)),
        0 <= a < modulus(),
        0 <= b < modulus(),
    ensures
        0 <= r < 2 * modulus(),
{
    lemma_pow52_values();
    lemma_montgomery_bound(r, a, b, modulus(), pow52(5));
}

/// Into the Montgomery domain and back through a serial engine: multiplying
/// a five-limb number by `U52_R2` and the result by one gives back the number
/// modulo the prime. Both results fit into five limbs, and the second is at
/// most the prime.
pub proof fn lemma_engine_round_trip(a: int, there: int, back: int)
    requires
        0 <= a < pow52(5),
        montgomery_product(there, a, value52(U52_R2@), modulus(), pow52(5)),
        montgomery_product(back, there, 1, modulus(), pow52(5)),
    ensures
        0 <= there < 2 * modulus(),
        0 <= back <= modulus(),
        back % modulus() == a % modulus(),
{
    lemma_inverses();
    lemma_pow52_values();
    let p = modulus();
    let radix = pow52(5);
    let r2 = value52(U52_R2@);
    lemma_montgomery_round_trip(a, there, back, r2, p, radix, radix52_inverse());
    lemma_montgomery_bound(there, a, r2, p, radix);
    assert(a * r2 < radix * p) by (nonlinear_arith)
        requires
            0 <= a < radix,
            0 <= r2 < p,
    ;
    assert(there < 2 * p) by (nonlinear_arith)
        requires
            there * radix < a * r2 + radix * p,
            a * r2 < radix * p,
            radix > 0,
    ;
    lemma_montgomery_bound(back, there, 1, p, radix);
    assert(back <= p) by (nonlinear_arith)
        requires
            back * radix < there * 1 + radix * p,
            there < 2 * p,
            2 * p < radix,
            radix > 0,
    ;
}

/// Into the Montgomery domain and back through the parallel reduction:
/// neither result is cut, and the second is the number modulo the prime.
pub proof fn lemma_parallel_round_trip(a: int)
    requires
        0 <= a < pow52(5),
    ensures
        0 <= parallel_reduce(a * value52(U52_R2@)) < 4 * modulus(),
        0 <= parallel_reduce(parallel_reduce(a * value52(U52_R2@)) * 1) < 4 * modulus(),
        4 * modulus() < pow52(5),
        parallel_reduce(parallel_reduce(a * value52(U52_R2@)) * 1) % modulus() == a % modulus(),
{
    lemma_inverses();
    lemma_pow52_values();
    let p = modulus();
    let radix = pow52(5);
    let r2 = value52(U52_R2@);
    let t = a * r2;
    assert(0 <= t < radix * p) by (nonlinear_arith)
        requires
            0 <= a < radix,
            0 <= r2 < p,
            t == a * r2,
    ;
    let there = parallel_reduce(t);
    lemma_parallel_reduce_congruent(t);
    lemma_parallel_reduce_bound(t);
    assert(there < 4 * p) by (nonlinear_arith)
        requires
            there * radix <= t + 3 * p * radix,
            t < radix * p,
            radix > 0,
    ;
    let back = parallel_reduce(there * 1);
    lemma_parallel_reduce_congruent(there * 1);
    lemma_parallel_reduce_bound(there * 1);
    assert(back < 4 * p) by (nonlinear_arith)
        requires
            back * radix <= there * 1 + 3 * p * radix,
            there < radix,
            p >= 1,
            radix > 0,
    ;
    // there = a * radix and back * radix = there, modulo the prime
    vstd::arithmetic::div_mod::lemma_mul_mod_noop_right(a, r2, p);
    vstd::arithmetic::div_mod::lemma_mul_mod_noop_right(a, radix * radix, p);
    assert(a * (radix * radix) == (a * radix) * radix) by (nonlinear_arith);
    lemma_cancel(there, a * radix, radix, radix52_inverse(), p);
    lemma_cancel(back, a, radix, radix52_inverse(), p);
}

/// The parallel reduction of sixteen times a product is a Montgomery
/// reduction of the product for the radix `2^256`: the result times `2^256`
/// is congruent to the product modulo the prime, and it exceeds the product
/// divided by `2^256` by less than three times the prime.
pub proof fn lemma_r256(t: int)
    requires
        0 <= t,
    ensures
        0 <= parallel_reduce(16 * t),
        (parallel_reduce(16 * t) * pow64(4)) % modulus() == t % modulus(),
        parallel_reduce(16 * t) * pow64(4) <= t + 3 * modulus() * pow64(4),
{
    lemma_inverses();
    lemma_pow52_values();
    lemma_pow64_values();
    let p = modulus();
    let y = parallel_reduce(16 * t);
    lemma_parallel_reduce_congruent(16 * t);
    lemma_parallel_reduce_bound(16 * t);
    assert(y * pow52(5) == (y * pow64(4)) * 16);
    assert(16 * t == t * 16);
    lemma_cancel(y * pow64(4), t, 16, sixteen_inverse(), p);
}

/// Into the Montgomery domain and back through the parallel reduction on
/// four 64-bit limbs: multiplying a 256-bit number by `R2` and the result by
/// one gives back the number modulo the prime, and neither result is cut.
pub proof fn lemma_r256_round_trip(a: int)
    requires
        0 <= a < pow64(4),
    ensures
        0 <= parallel_reduce(16 * (a * value64(R2@))) < 4 * modulus(),
        0 <= parallel_reduce(16 * (parallel_reduce(16 * (a * value64(R2@))) * 1)) < 4 * modulus(),
        4 * modulus() < pow64(4),
        parallel_reduce(16 * (parallel_reduce(16 * (a * value64(R2@))) * 1)) % modulus() == a
            % modulus(),
{
    lemma_inverses();
    lemma_pow64_values();
    let p = modulus();
    let radix = pow64(4);
    let r2 = value64(R2@);
    let t = a * r2;
    assert(0 <= t < radix * p) by (nonlinear_arith)
        requires
            0 <= a < radix,
            0 <= r2 < p,
            t == a * r2,
    ;
    let there = parallel_reduce(16 * t);
    lemma_r256(t);
    assert(there < 4 * p) by (nonlinear_arith)
        requires
            there * radix <= t + 3 * p * radix,
            t < radix * p,
            radix > 0,
    ;
    let back = parallel_reduce(16 * (there * 1));
    lemma_r256(there * 1);
    assert(back < 4 * p) by (nonlinear_arith)
        requires
            back * radix <= there * 1 + 3 * p * radix,
            there < radix,
            p >= 1,
            radix > 0,
    ;
    vstd::arithmetic::div_mod::lemma_mul_mod_noop_right(a, r2, p);
    vstd::arithmetic::div_mod::lemma_mul_mod_noop_right(a, radix * radix, p);
    assert(a * (radix * radix) == (a * radix) * radix) by (nonlinear_arith);
    lemma_cancel(there, a * radix, radix, radix64_inverse(), p);
    lemma_cancel(back, a, radix, radix64_inverse(), p);
}

/// The same for the engines on four 64-bit limbs: the Montgomery product of
/// given factors for the prime and the radix `2^256` is unique.
pub proof fn lemma_engines64_equal(r1: int, r2: int, a: int, b: int)
    requires
        montgomery_product(r1, a, b, modulus(), pow64(4)),
        montgomery_product(r2, a, b, modulus(), pow64(4)),
    ensures
        r1 == r2,
{
    lemma_inverses();
    lemma_pow64_values();
    lemma_montgomery_unique(r1, r2, a, b, modulus(), pow64(4), modulus_inverse64());
}

/// The serial engines on four 64-bit limbs and the parallel reduction on
/// four 64-bit limbs agree modulo the prime.
pub proof fn lemma_parallel_agrees64(r: int, a: int, b: int)
    requires
        montgomery_product(r, a, b, modulus(), pow64(4)),
        0 <= a,
        0 <= b,
    ensures
        r % modulus() == parallel_reduce(16 * (a * b)) % modulus(),
{
    lemma_inverses();
    assert(0 <= a * b) by (nonlinear_arith)
        requires
            0 <= a,
            0 <= b,
    ;
    lemma_montgomery_congruent(r, a, b, modulus(), pow64(4));
    lemma_r256(a * b);
    lemma_cancel(r, parallel_reduce(16 * (a * b)), pow64(4), radix64_inverse(), modulus());
}

/// A factor zero gives the result zero in every serial engine on four 64-bit
/// limbs.
pub proof fn lemma_engine64_zero(r: int, a: int, b: int)
    requires
        montgomery_product(r, a, b, modulus(), pow64(4)),
        a == 0 || b == 0,
    ensures
        r == 0,
{
    lemma_inverses();
    lemma_pow64_values();
    lemma_montgomery_zero(r, a, b, modulus(), pow64(4), radix64_inverse());
}

/// Two residues multiply to a result below twice the prime in every serial
/// engine on four 64-bit limbs.
pub proof fn lemma_engine64_bound(r: int, a: int, b: int)
    requires
        montgomery_product(r, a, b, modulus(), pow64(4)),
        0 <= a < modulus(),
        0 <= b < modulus(),
    ensures
        0 <= r < 2 * modulus(),
{
    lemma_pow64_values();
    lemma_montgomery_bound(r, a, b, modulus(), pow64(4));
}

/// Into the Montgomery domain and back through a serial engine on four
/// 64-bit limbs: multiplying a 256-bit number by `R2` and the result by one
/// gives back the number modulo the prime.
pub proof fn lemma_engine64_round_trip(a: int, there: int, back: int)
    requires
        0 <= a < pow64(4),
        montgomery_product(there, a, value64(R2@), modulus(), pow64(4)),
        montgomery_product(back, there, 1, modulus(), pow64(4)),
    ensures
        0 <= there < 2 * modulus(),
        0 <= back <= modulus(),
        back % modulus() == a % modulus(),
{
    lemma_inverses();
    lemma_pow64_values();
    let p = modulus();
    let radix = pow64(4);
    let r2 = value64(R2@);
    lemma_montgomery_round_trip(a, there, back, r2, p, radix, radix64_inverse());
    lemma_montgomery_bound(there, a, r2, p, radix);
    assert(a * r2 < radix * p) by (nonlinear_arith)
        requires
            0 <= a < radix,
            0 <= r2 < p,
    ;
    assert(there < 2 * p) by (nonlinear_arith)
        requires
            there * radix < a * r2 + radix * p,
            a * r2 < radix * p,
            radix > 0,
    ;
    lemma_montgomery_bound(back, there, 1, p, radix);
    assert(back <= p) by (nonlinear_arith)
        requires
            back * radix < there * 1 + radix * p,
            there < 2 * p,
            2 * p < radix,
            radix > 0,
    ;
}

/// The paired engine equals the scalar engines lane by lane: two resolved
/// results of six limbs that are both Montgomery products of the same
/// factors are the same six limbs.
pub proof fn lemma_paired_equals_scalar(scalar: Seq<u64>, paired: Seq<u64>, a: int, b: int)
    requires
        scalar.len() == 6,
        paired.len() == 6,
        resolved(scalar),
        resolved(paired),
        montgomery_product(value52(scalar), a, b, modulus(), pow52(5)),
        montgomery_product(value52(paired), a, b, modulus(), pow52(5)),
    ensures
        scalar =~= paired,
{
    lemma_engines_equal(value52(scalar), value52(paired), a, b);
    lemma_resolved_unique(scalar, paired);
}

} // verus!
