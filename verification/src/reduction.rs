//! The parallel reduction as a function on integers, the limb sums through
//! which the engines compute it, and the facts about the prime that make it a
//! Montgomery reduction.
use vstd::prelude::*;
use vstd::arithmetic::div_mod::{
    lemma_fundamental_div_mod, lemma_fundamental_div_mod_converse, lemma_mod_multiples_vanish,
    lemma_mul_mod_noop_left,
};
use crate::domb::{RHO_1, RHO_2, RHO_3, RHO_4};
use crate::kernel::{lemma_halves, low_half};
use crate::limbs::{
    lemma_pow52_values, lemma_pow64_values, lemma_value52_of5, lemma_value52_of6, lemma_value64_of4,
    pow52, radix52, resolved, value52, value64,
};
use crate::product::{
    columns, lemma_columns_bound, lemma_columns_value, lemma_row_bound, lemma_row_value, row_limb,
    weigh10, weigh6,
};
use crate::rounds::{inverts, lemma_digit_cancels};
use crate::{P, U52_NP0, U52_P};

verus! {

/// The prime modulus `P`.
pub open spec fn modulus() -> int {
    0x3064_4e72_e131_a029_b850_45b6_8181_585d_2833_e848_79b9_7091_43e1_f593_f000_0001int
}

/// What the constants of the library stand for: both forms of the prime hold
/// [`modulus`], the 52-bit form is resolved and matched by `U52_NP0`, and the
/// four reduction constants are resolved and are the inverses of the first
/// four powers of `2^52` modulo the prime.
pub proof fn lemma_constants()
    ensures
        value64(P@) == modulus(),
        value52(U52_P@) == modulus(),
        resolved(U52_P@),
        inverts(U52_P@[0] as int, U52_NP0 as int),
        resolved(RHO_1@),
        resolved(RHO_2@),
        resolved(RHO_3@),
        resolved(RHO_4@),
        0 <= value52(RHO_1@) < modulus(),
        0 <= value52(RHO_2@) < modulus(),
        0 <= value52(RHO_3@) < modulus(),
        0 <= value52(RHO_4@) < modulus(),
        (value52(RHO_1@) * pow52(1)) % modulus() == 1,
        (value52(RHO_2@) * pow52(2)) % modulus() == 1,
        (value52(RHO_3@) * pow52(3)) % modulus() == 1,
        (value52(RHO_4@) * pow52(4)) % modulus() == 1,
{
    lemma_rho_values();
    lemma_value64_of4(P@);
    lemma_pow64_values();
    lemma_pow52_values();
    let p = modulus();
    lemma_fundamental_div_mod_converse(value52(RHO_1@) * pow52(1), p, 0x1f59_3eff_ffff_f, 1);
    lemma_fundamental_div_mod_converse(
        value52(RHO_2@) * pow52(2),
        p,
        0x4b4c_6911_b3c2_e1f5_93ef_ffff_ffint,
        1,
    );
    lemma_fundamental_div_mod_converse(
        value52(RHO_3@) * pow52(3),
        p,
        0x9062_3916_5868_64b4_c691_1b3c_2e1f_593e_ffff_fffint,
        1,
    );
    lemma_fundamental_div_mod_converse(
        value52(RHO_4@) * pow52(4),
        p,
        0x41b2_e39a_9828_9906_2391_6586_864b_4c69_11b3_c2e1_f593_efff_ffffint,
        1,
    );
}

/// The integers that the 52-bit constants stand for.
pub proof fn lemma_rho_values()
    ensures
        value52(U52_P@) == modulus(),
        resolved(U52_P@),
        resolved(RHO_1@),
        resolved(RHO_2@),
        resolved(RHO_3@),
        resolved(RHO_4@),
        inverts(U52_P@[0] as int, U52_NP0 as int),
        value52(RHO_1@)
            == 0x5ed_0447_de83_8f0a_ad55_e2a1_fd46_fe04_d0a4_c7f9_3893_c98b_1de8_2e64_4ee4_c3d2int,
        value52(RHO_2@)
            == 0xe3b_d49f_6ee5_b23a_6fcc_592b_849e_cd35_3949_9e16_ddcc_30bd_8a47_4ecc_ce9a_797aint,
        value52(RHO_3@)
            == 0x1b4a_fd51_3572_a7da_e55c_5a29_6ea3_ba6b_1671_2843_0d05_713a_e610_e8c6_5656_7d77int,
        value52(RHO_4@)
            == 0xc6b_48af_e1b8_7824_014c_39e8_be6c_43f0_df67_2d32_3b46_ea19_6862_2e24_00e2_f27dint,
{
    lemma_value52_of5(U52_P@);
    lemma_value52_of5(RHO_1@);
    lemma_value52_of5(RHO_2@);
    lemma_value52_of5(RHO_3@);
    lemma_value52_of5(RHO_4@);
    lemma_pow52_values();
}

/// Digit `k` of `t` in base `2^52`.
pub open spec fn digit52(t: int, k: nat) -> int {
    (t / pow52(k)) % radix52()
}

/// The fold of a product `t`: what lies above the four low digits, plus each
/// low digit times the inverse of its weight relative to limb four. It is
/// congruent to `t / 2^208` modulo the prime.
pub open spec fn fold(t: int) -> int {
    t / pow52(4) + digit52(t, 0) * value52(RHO_4@) + digit52(t, 1) * value52(RHO_3@) + digit52(
        t,
        2,
    ) * value52(RHO_2@) + digit52(t, 3) * value52(RHO_1@)
}

/// The digit of the Montgomery round that follows the fold.
pub open spec fn fold_digit(t: int) -> int {
    (fold(t) * U52_NP0) % radix52()
}

/// The parallel reduction of a product `t`: the fold, brought down one more
/// limb by a Montgomery round. It is congruent to `t / 2^260` modulo the prime.
pub open spec fn parallel_reduce(t: int) -> int {
    (fold(t) + fold_digit(t) * modulus()) / radix52()
}

/// The sum in limb `k` of the product of `a` and `b` once the carries of the
/// limbs below it have been added.
pub open spec fn carried(a: Seq<u64>, b: Seq<u64>, k: nat) -> int
    decreases k,
{
    if k == 0 {
        columns(a, b, 5, 0)
    } else {
        columns(a, b, 5, k as int) + carried(a, b, (k - 1) as nat) / radix52()
    }
}

/// Low digit `q` of the product of `a` and `b`.
pub open spec fn low_digit(a: Seq<u64>, b: Seq<u64>, q: nat) -> int {
    carried(a, b, q) % radix52()
}

/// Limb `d` of the fold of the product of `a` and `b`, as the engines sum it.
pub open spec fn fold_limb(a: Seq<u64>, b: Seq<u64>, d: int) -> int {
    (if d == 0 {
        carried(a, b, 4)
    } else {
        columns(a, b, 5, 4 + d)
    }) + row_limb(low_digit(a, b, 0), RHO_4@, d) + row_limb(low_digit(a, b, 1), RHO_3@, d)
        + row_limb(low_digit(a, b, 2), RHO_2@, d) + row_limb(low_digit(a, b, 3), RHO_1@, d)
}

/// The digit of the Montgomery round, as the engines compute it from the
/// lowest limb of the fold.
pub open spec fn limb_digit(a: Seq<u64>, b: Seq<u64>) -> int {
    (fold_limb(a, b, 0) * U52_NP0) % radix52()
}

/// Limb `d` of the fold plus the digit of the round times the prime.
pub open spec fn final_limb(a: Seq<u64>, b: Seq<u64>, d: int) -> int {
    fold_limb(a, b, d) + row_limb(limb_digit(a, b), U52_P@, d)
}

/// A number written as four digits and a rest has those digits and that rest.
pub proof fn lemma_low_digits(t: int, d0: int, d1: int, d2: int, d3: int, rest: int)
    requires
        t == d0 + d1 * pow52(1) + d2 * pow52(2) + d3 * pow52(3) + rest * pow52(4),
        0 <= d0 < radix52(),
        0 <= d1 < radix52(),
        0 <= d2 < radix52(),
        0 <= d3 < radix52(),
    ensures
        digit52(t, 0) == d0,
        digit52(t, 1) == d1,
        digit52(t, 2) == d2,
        digit52(t, 3) == d3,
        t / pow52(4) == rest,
{
    lemma_pow52_values();
    let radix = radix52();
    let q1 = d1 + d2 * pow52(1) + d3 * pow52(2) + rest * pow52(3);
    let q2 = d2 + d3 * pow52(1) + rest * pow52(2);
    let q3 = d3 + rest * pow52(1);
    lemma_fundamental_div_mod_converse(t, pow52(1), q1, d0);
    lemma_fundamental_div_mod_converse(t, pow52(2), q2, d0 + d1 * pow52(1));
    lemma_fundamental_div_mod_converse(t, pow52(3), q3, d0 + d1 * pow52(1) + d2 * pow52(2));
    lemma_fundamental_div_mod_converse(
        t,
        pow52(4),
        rest,
        d0 + d1 * pow52(1) + d2 * pow52(2) + d3 * pow52(3),
    );
    lemma_fundamental_div_mod_converse(q1, radix, q2, d1);
    lemma_fundamental_div_mod_converse(q2, radix, q3, d2);
    lemma_fundamental_div_mod_converse(q3, radix, rest, d3);
    assert(t / pow52(0) == t);
}

/// What lies above the four low digits of the product of `a` and `b`, summed
/// from the carried limb four and the columns above it.
pub open spec fn high_part(a: Seq<u64>, b: Seq<u64>) -> int {
    carried(a, b, 4) + columns(a, b, 5, 5) * pow52(1) + columns(a, b, 5, 6) * pow52(2) + columns(
        a,
        b,
        5,
        7,
    ) * pow52(3) + columns(a, b, 5, 8) * pow52(4) + columns(a, b, 5, 9) * pow52(5)
}

/// Carrying through the four low limbs of the product leaves its four low
/// digits there and its high part above them.
pub proof fn lemma_carried(a: Seq<u64>, b: Seq<u64>)
    requires
        a.len() == 5,
        b.len() == 5,
        resolved(a),
        resolved(b),
    ensures
        forall|k: nat| k <= 4 ==> 0 <= #[trigger] carried(a, b, k) <= 11 * radix52(),
        forall|k: int| 0 <= k < 10 ==> 0 <= #[trigger] columns(a, b, 5, k) <= 10 * radix52(),
        forall|q: nat| q <= 3 ==> #[trigger] low_digit(a, b, q) == digit52(
            value52(a) * value52(b),
            q,
        ),
        forall|q: nat| q <= 3 ==> 0 <= #[trigger] low_digit(a, b, q) < radix52(),
        high_part(a, b) == (value52(a) * value52(b)) / pow52(4),
{
    let radix = radix52();
    let t = value52(a) * value52(b);
    lemma_pow52_values();
    lemma_columns_value(a, b);
    assert forall|k: int| 0 <= k < 10 implies 0 <= #[trigger] columns(a, b, 5, k) <= 10
        * radix52() by {
        lemma_columns_bound(a, b, 5, k);
    }
    let c = Seq::new(10, |k: int| columns(a, b, 5, k));
    reveal_with_fuel(carried, 5);
    let e0 = carried(a, b, 0);
    let e1 = carried(a, b, 1);
    let e2 = carried(a, b, 2);
    let e3 = carried(a, b, 3);
    let e4 = carried(a, b, 4);
    assert(0 <= columns(a, b, 5, 0) <= 10 * radix52());
    assert(0 <= columns(a, b, 5, 1) <= 10 * radix52());
    assert(0 <= columns(a, b, 5, 2) <= 10 * radix52());
    assert(0 <= columns(a, b, 5, 3) <= 10 * radix52());
    assert(0 <= columns(a, b, 5, 4) <= 10 * radix52());
    assert(e0 == c[0] && e1 == c[1] + e0 / radix && e2 == c[2] + e1 / radix && e3 == c[3] + e2
        / radix && e4 == c[4] + e3 / radix);
    let d0 = low_digit(a, b, 0);
    let d1 = low_digit(a, b, 1);
    let d2 = low_digit(a, b, 2);
    let d3 = low_digit(a, b, 3);
    assert(t == weigh10(c));
    assert(t == d0 + d1 * pow52(1) + d2 * pow52(2) + d3 * pow52(3) + high_part(a, b) * pow52(4));
    lemma_low_digits(t, d0, d1, d2, d3, high_part(a, b));
    assert forall|k: nat| k <= 4 implies 0 <= #[trigger] carried(a, b, k) <= 11 * radix52() by {
        if k == 0 {
        } else if k == 1 {
        } else if k == 2 {
        } else if k == 3 {
        } else {
        }
    }
    assert forall|q: nat| q <= 3 implies #[trigger] low_digit(a, b, q) == digit52(t, q) by {
        if q == 0 {
        } else if q == 1 {
        } else if q == 2 {
        } else {
        }
    }
}

/// The 52-bit constants of the library are resolved.
pub proof fn lemma_constants_resolved()
    ensures
        resolved(U52_P@),
        resolved(RHO_1@),
        resolved(RHO_2@),
        resolved(RHO_3@),
        resolved(RHO_4@),
{
}

/// Six limb sums that are, limb by limb, the sum of five others stand for the
/// sum of what those stand for.
proof fn lemma_weigh6_sum(
    total: Seq<int>,
    x0: Seq<int>,
    x1: Seq<int>,
    x2: Seq<int>,
    x3: Seq<int>,
    x4: Seq<int>,
)
    requires
        forall|d: int|
            0 <= d < 6 ==> #[trigger] total[d] == x0[d] + x1[d] + x2[d] + x3[d] + x4[d],
    ensures
        weigh6(total) == weigh6(x0) + weigh6(x1) + weigh6(x2) + weigh6(x3) + weigh6(x4),
{
    lemma_pow52_values();
    assert(total[0] == x0[0] + x1[0] + x2[0] + x3[0] + x4[0]);
    assert(total[1] == x0[1] + x1[1] + x2[1] + x3[1] + x4[1]);
    assert(total[2] == x0[2] + x1[2] + x2[2] + x3[2] + x4[2]);
    assert(total[3] == x0[3] + x1[3] + x2[3] + x3[3] + x4[3]);
    assert(total[4] == x0[4] + x1[4] + x2[4] + x3[4] + x4[4]);
    assert(total[5] == x0[5] + x1[5] + x2[5] + x3[5] + x4[5]);
}

/// Six limb sums that are, limb by limb, the sum of two others stand for the
/// sum of what those stand for.
proof fn lemma_weigh6_add(total: Seq<int>, x0: Seq<int>, x1: Seq<int>)
    requires
        forall|d: int| 0 <= d < 6 ==> #[trigger] total[d] == x0[d] + x1[d],
    ensures
        weigh6(total) == weigh6(x0) + weigh6(x1),
{
    lemma_pow52_values();
    assert(total[0] == x0[0] + x1[0]);
    assert(total[1] == x0[1] + x1[1]);
    assert(total[2] == x0[2] + x1[2]);
    assert(total[3] == x0[3] + x1[3]);
    assert(total[4] == x0[4] + x1[4]);
    assert(total[5] == x0[5] + x1[5]);
}

/// The limbs of the fold are small.
pub proof fn lemma_fold_limb_bound(a: Seq<u64>, b: Seq<u64>, d: int)
    requires
        a.len() == 5,
        b.len() == 5,
        resolved(a),
        resolved(b),
        0 <= d < 6,
    ensures
        0 <= fold_limb(a, b, d) <= 19 * radix52(),
{
    lemma_carried(a, b);
    lemma_constants_resolved();
    lemma_row_bound(low_digit(a, b, 0), RHO_4@, 5, d);
    lemma_row_bound(low_digit(a, b, 1), RHO_3@, 5, d);
    lemma_row_bound(low_digit(a, b, 2), RHO_2@, 5, d);
    lemma_row_bound(low_digit(a, b, 3), RHO_1@, 5, d);
    assert(0 <= columns(a, b, 5, 4 + d) <= 10 * radix52());
    assert(0 <= carried(a, b, 4) <= 11 * radix52());
}

/// The limbs of the fold stand for the fold of the product.
pub proof fn lemma_fold_limbs(a: Seq<u64>, b: Seq<u64>)
    requires
        a.len() == 5,
        b.len() == 5,
        resolved(a),
        resolved(b),
    ensures
        weigh6(Seq::new(6, |d: int| fold_limb(a, b, d))) == fold(value52(a) * value52(b)),
{
    let t = value52(a) * value52(b);
    lemma_carried(a, b);
    lemma_constants_resolved();
    let d0 = low_digit(a, b, 0);
    let d1 = low_digit(a, b, 1);
    let d2 = low_digit(a, b, 2);
    let d3 = low_digit(a, b, 3);
    lemma_row_value(d0, RHO_4@);
    lemma_row_value(d1, RHO_3@);
    lemma_row_value(d2, RHO_2@);
    lemma_row_value(d3, RHO_1@);
    let folded = Seq::new(6, |d: int| fold_limb(a, b, d));
    let high = Seq::new(
        6,
        |d: int|
            if d == 0 {
                carried(a, b, 4)
            } else {
                columns(a, b, 5, 4 + d)
            },
    );
    let row0 = Seq::new(6, |d: int| row_limb(d0, RHO_4@, d));
    let row1 = Seq::new(6, |d: int| row_limb(d1, RHO_3@, d));
    let row2 = Seq::new(6, |d: int| row_limb(d2, RHO_2@, d));
    let row3 = Seq::new(6, |d: int| row_limb(d3, RHO_1@, d));
    lemma_weigh6_sum(folded, high, row0, row1, row2, row3);
    assert(weigh6(high) == high_part(a, b));
    assert(d0 == digit52(t, 0) && d1 == digit52(t, 1) && d2 == digit52(t, 2) && d3 == digit52(
        t,
        3,
    ));
}

/// The digit that the engines compute from the lowest limb of the fold is the
/// digit of the round that follows the fold.
pub proof fn lemma_limb_digit(a: Seq<u64>, b: Seq<u64>)
    requires
        a.len() == 5,
        b.len() == 5,
        resolved(a),
        resolved(b),
    ensures
        0 <= limb_digit(a, b) < radix52(),
        limb_digit(a, b) == fold_digit(value52(a) * value52(b)),
{
    let radix = radix52();
    let t = value52(a) * value52(b);
    lemma_fold_limbs(a, b);
    lemma_pow52_values();
    let folded = Seq::new(6, |d: int| fold_limb(a, b, d));
    let above = folded[1] + folded[2] * pow52(1) + folded[3] * pow52(2) + folded[4] * pow52(3)
        + folded[5] * pow52(4);
    assert(folded[0] == fold_limb(a, b, 0));
    assert(weigh6(folded) == radix * above + folded[0]);
    lemma_mod_multiples_vanish(above, fold_limb(a, b, 0), radix);
    lemma_mul_mod_noop_left(fold(t), U52_NP0 as int, radix);
    lemma_mul_mod_noop_left(fold_limb(a, b, 0), U52_NP0 as int, radix);
}

/// The limb sums of the engines stand for the fold and the round of the
/// integer reduction: they are small, the lowest is divisible by `2^52`, and
/// together they hold `fold(t) + fold_digit(t) * P` for the product `t`.
pub proof fn lemma_final_limbs(a: Seq<u64>, b: Seq<u64>)
    requires
        a.len() == 5,
        b.len() == 5,
        resolved(a),
        resolved(b),
    ensures
        0 <= limb_digit(a, b) < radix52(),
        forall|d: int| 0 <= d < 6 ==> 0 <= #[trigger] final_limb(a, b, d) <= 21 * radix52(),
        final_limb(a, b, 0) % radix52() == 0,
        limb_digit(a, b) == fold_digit(value52(a) * value52(b)),
        weigh6(Seq::new(6, |d: int| final_limb(a, b, d))) == fold(value52(a) * value52(b))
            + fold_digit(value52(a) * value52(b)) * modulus(),
{
    let t = value52(a) * value52(b);
    lemma_fold_limbs(a, b);
    lemma_limb_digit(a, b);
    let m = limb_digit(a, b);
    assert(resolved(U52_P@) && value52(U52_P@) == modulus() && inverts(
        U52_P@[0] as int,
        U52_NP0 as int,
    )) by {
        lemma_rho_values();
    }
    lemma_row_value(m, U52_P@);
    lemma_digit_cancels(fold_limb(a, b, 0), U52_P@[0] as int, U52_NP0 as int);
    lemma_halves(m, U52_P@[0] as int);
    assert(final_limb(a, b, 0) == fold_limb(a, b, 0) + low_half(m, U52_P@[0] as int));
    assert forall|d: int| 0 <= d < 6 implies 0 <= #[trigger] final_limb(a, b, d) <= 21
        * radix52() by {
        lemma_row_bound(m, U52_P@, 5, d);
        lemma_fold_limb_bound(a, b, d);
    }
    let folded = Seq::new(6, |d: int| fold_limb(a, b, d));
    let last = Seq::new(6, |d: int| final_limb(a, b, d));
    let rowp = Seq::new(6, |d: int| row_limb(m, U52_P@, d));
    lemma_weigh6_add(last, folded, rowp);
}

/// The final limb sums stand for `2^52` times the parallel reduction of the
/// product.
pub proof fn lemma_final_total(a: Seq<u64>, b: Seq<u64>, u: Seq<u64>)
    requires
        a.len() == 5,
        b.len() == 5,
        resolved(a),
        resolved(b),
        u.len() == 6,
        forall|d: int| 0 <= d < 6 ==> #[trigger] u[d] == final_limb(a, b, d),
    ensures
        value52(u) == radix52() * parallel_reduce(value52(a) * value52(b)),
{
    let radix = radix52();
    let t = value52(a) * value52(b);
    let last = Seq::new(6, |d: int| final_limb(a, b, d));
    lemma_final_limbs(a, b);
    lemma_pow52_values();
    lemma_value52_of6(u);
    assert(u[0] == last[0] && u[1] == last[1] && u[2] == last[2] && u[3] == last[3] && u[4]
        == last[4] && u[5] == last[5]);
    let total = fold(t) + fold_digit(t) * modulus();
    assert(value52(u) == total);
    let above = last[1] + last[2] * pow52(1) + last[3] * pow52(2) + last[4] * pow52(3) + last[5]
        * pow52(4);
    assert(total == radix * above + last[0]);
    lemma_mod_multiples_vanish(above, last[0], radix);
    assert(total % radix == 0);
    lemma_fundamental_div_mod(total, radix);
}

/// Six resolved limbs without the lowest stand for the value of the six,
/// divided by `2^52`.
pub proof fn lemma_drop_lowest(x: int, r6: Seq<u64>, out: Seq<u64>)
    requires
        0 <= x,
        r6.len() == 6,
        resolved(r6),
        value52(r6) == x % pow52(6),
        out.len() == 5,
        forall|k: int| 0 <= k < 5 ==> #[trigger] out[k] == r6[k + 1],
    ensures
        resolved(out),
        value52(out) == (x / radix52()) % pow52(5),
{
    let radix = radix52();
    lemma_pow52_values();
    lemma_value52_of6(r6);
    lemma_value52_of5(out);
    assert(out[0] == r6[1] && out[1] == r6[2] && out[2] == r6[3] && out[3] == r6[4] && out[4]
        == r6[5]);
    assert(r6[0] < radix);
    assert(value52(r6) == radix * value52(out) + r6[0]);
    assert(radix * pow52(5) == pow52(6));
    vstd::arithmetic::div_mod::lemma_mod_breakdown(x, radix, pow52(5));
    let q = (x / radix) % pow52(5);
    lemma_fundamental_div_mod_converse(value52(r6), radix, value52(out), r6[0] as int);
    lemma_fundamental_div_mod_converse(value52(r6), radix, q, x % radix);
    assert forall|k: int| 0 <= k < out.len() implies #[trigger] out[k] < radix52() by {
        assert(out[k] == r6[k + 1]);
    }
}

/// What the engines return stands for the parallel reduction of the product:
/// `u` holds the final limb sums, `r6` is their resolved form, and `out` is
/// `r6` without its lowest limb.
pub proof fn lemma_parallel_result(
    a: Seq<u64>,
    b: Seq<u64>,
    u: Seq<u64>,
    r6: Seq<u64>,
    out: Seq<u64>,
)
    requires
        a.len() == 5,
        b.len() == 5,
        resolved(a),
        resolved(b),
        u.len() == 6,
        forall|d: int| 0 <= d < 6 ==> #[trigger] u[d] == final_limb(a, b, d),
        r6.len() == 6,
        resolved(r6),
        value52(r6) == value52(u) % pow52(6),
        out.len() == 5,
        forall|k: int| 0 <= k < 5 ==> #[trigger] out[k] == r6[k + 1],
    ensures
        resolved(out),
        value52(out) == parallel_reduce(value52(a) * value52(b)) % pow52(5),
{
    crate::limbs::lemma_value52_nonnegative(u);
    lemma_drop_lowest(value52(u), r6, out);
    lemma_parallel_truncated(a, b, u, out);
}

/// The same for engines that drop the lowest limb while they resolve: `out`
/// holds the five digits of the final limb sums above the lowest limb.
pub proof fn lemma_parallel_truncated(a: Seq<u64>, b: Seq<u64>, u: Seq<u64>, out: Seq<u64>)
    requires
        a.len() == 5,
        b.len() == 5,
        resolved(a),
        resolved(b),
        u.len() == 6,
        forall|d: int| 0 <= d < 6 ==> #[trigger] u[d] == final_limb(a, b, d),
        value52(out) == (value52(u) / radix52()) % pow52(5),
    ensures
        value52(out) == parallel_reduce(value52(a) * value52(b)) % pow52(5),
{
    lemma_final_total(a, b, u);
    let reduced = parallel_reduce(value52(a) * value52(b));
    vstd::arithmetic::div_mod::lemma_fundamental_div_mod_converse(
        radix52() * reduced,
        radix52(),
        reduced,
        0,
    );
}

/// A non-negative number is its four low digits and what lies above them.
pub proof fn lemma_digits_compose(t: int)
    requires
        0 <= t,
    ensures
        0 <= digit52(t, 0) < radix52(),
        0 <= digit52(t, 1) < radix52(),
        0 <= digit52(t, 2) < radix52(),
        0 <= digit52(t, 3) < radix52(),
        0 <= t / pow52(4),
        t == digit52(t, 0) + digit52(t, 1) * pow52(1) + digit52(t, 2) * pow52(2) + digit52(t, 3)
            * pow52(3) + (t / pow52(4)) * pow52(4),
{
    lemma_pow52_values();
    let radix = radix52();
    let q1 = t / radix;
    let q2 = q1 / radix;
    let q3 = q2 / radix;
    let q4 = q3 / radix;
    lemma_fundamental_div_mod(t, radix);
    lemma_fundamental_div_mod(q1, radix);
    lemma_fundamental_div_mod(q2, radix);
    lemma_fundamental_div_mod(q3, radix);
    lemma_low_digits(t, t % radix, q1 % radix, q2 % radix, q3 % radix, q4);
}

/// The digit of the round cancels the lowest limb of the fold, so that the
/// reduction, times `2^52`, is the fold plus the digit times the prime.
pub proof fn lemma_fold_round(t: int)
    requires
        0 <= t,
    ensures
        0 <= fold(t),
        0 <= fold_digit(t) < radix52(),
        radix52() * parallel_reduce(t) == fold(t) + fold_digit(t) * modulus(),
        0 <= parallel_reduce(t),
{
    let radix = radix52();
    let p = modulus();
    let f = fold(t);
    let m = fold_digit(t);
    assert(0 <= f) by {
        lemma_digits_compose(t);
        lemma_rho_values();
        assert(0 <= digit52(t, 0) * value52(RHO_4@)) by (nonlinear_arith)
            requires
                0 <= digit52(t, 0),
                0 <= value52(RHO_4@),
        ;
        assert(0 <= digit52(t, 1) * value52(RHO_3@)) by (nonlinear_arith)
            requires
                0 <= digit52(t, 1),
                0 <= value52(RHO_3@),
        ;
        assert(0 <= digit52(t, 2) * value52(RHO_2@)) by (nonlinear_arith)
            requires
                0 <= digit52(t, 2),
                0 <= value52(RHO_2@),
        ;
        assert(0 <= digit52(t, 3) * value52(RHO_1@)) by (nonlinear_arith)
            requires
                0 <= digit52(t, 3),
                0 <= value52(RHO_1@),
        ;
    }
    let w0 = U52_P@[0] as int;
    assert(inverts(w0, U52_NP0 as int) && p % radix == w0) by {
        lemma_rho_values();
    }
    lemma_digit_cancels(f, w0, U52_NP0 as int);
    assert((f + (m * w0) % radix) % radix == 0) by {
        reveal(low_half);
    }
    vstd::arithmetic::div_mod::lemma_mul_mod_noop_right(m, p, radix);
    vstd::arithmetic::div_mod::lemma_mul_mod_noop_right(m, w0, radix);
    assert((m * p) % radix == (m * w0) % radix);
    vstd::arithmetic::div_mod::lemma_add_mod_noop_right(f, m * p, radix);
    vstd::arithmetic::div_mod::lemma_add_mod_noop_right(f, (m * w0) % radix, radix);
    assert((f + m * p) % radix == 0);
    lemma_fundamental_div_mod(f + m * p, radix);
    assert(0 <= m * p) by (nonlinear_arith)
        requires
            0 <= m,
            p > 0,
    ;
}

/// The fold of `t`, times `2^208`, is `t` plus a multiple of the prime.
pub proof fn lemma_fold_scaled(t: int) -> (k: int)
    requires
        0 <= t,
    ensures
        fold(t) * pow52(4) == t + k * modulus(),
{
    lemma_digits_compose(t);
    lemma_rho_values();
    lemma_pow52_values();
    let d0 = digit52(t, 0);
    let d1 = digit52(t, 1);
    let d2 = digit52(t, 2);
    let d3 = digit52(t, 3);
    d0 * 0x41b2_e39a_9828_9906_2391_6586_864b_4c69_11b3_c2e1_f593_efff_ffffint + d1
        * 0x9062_3916_5868_64b4_c691_1b3c_2e1f_593e_ffff_fff0_0000_0000_0000int + d2
        * 0x4b4c_6911_b3c2_e1f5_93ef_ffff_ff00_0000_0000_0000_0000_0000_0000int + d3
        * 0x1f59_3eff_ffff_f000_0000_0000_0000_0000_0000_0000_0000_0000_0000int
}

/// The parallel reduction is a Montgomery reduction for the radix `2^260`: its
/// result, times `2^260`, is congruent to the product modulo the prime.
pub proof fn lemma_parallel_reduce_congruent(t: int)
    requires
        0 <= t,
    ensures
        0 <= parallel_reduce(t),
        (parallel_reduce(t) * pow52(5)) % modulus() == t % modulus(),
{
    let radix = radix52();
    let p = modulus();
    let f = fold(t);
    let m = fold_digit(t);
    let y = parallel_reduce(t);
    lemma_fold_round(t);
    let k = lemma_fold_scaled(t);
    let mp = m * p;
    let kp = k * p;
    let fs = f * pow52(4);
    assert(pow52(5) == radix * pow52(4)) by {
        lemma_pow52_values();
    }
    assert(y * pow52(5) == (radix * y) * pow52(4)) by (nonlinear_arith)
        requires
            pow52(5) == radix * pow52(4),
    ;
    assert((f + mp) * pow52(4) == fs + mp * pow52(4)) by (nonlinear_arith)
        requires
            fs == f * pow52(4),
    ;
    assert(mp * pow52(4) == (m * pow52(4)) * p) by (nonlinear_arith)
        requires
            mp == m * p,
    ;
    assert(kp + (m * pow52(4)) * p == p * (k + m * pow52(4))) by (nonlinear_arith)
        requires
            kp == k * p,
    ;
    lemma_mod_multiples_vanish(k + m * pow52(4), t, p);
}

/// The parallel reduction of a product `t` exceeds `t / 2^260` by less than
/// three times the prime.
pub proof fn lemma_parallel_reduce_bound(t: int)
    requires
        0 <= t,
    ensures
        parallel_reduce(t) * pow52(5) <= t + 3 * modulus() * pow52(5),
{
    let radix = radix52();
    let p = modulus();
    lemma_digits_compose(t);
    lemma_fold_round(t);
    lemma_rho_values();
    lemma_pow52_values();
    let f = fold(t);
    let m = fold_digit(t);
    let y = parallel_reduce(t);
    let mp = m * p;
    assert(mp <= (radix - 1) * p) by (nonlinear_arith)
        requires
            mp == m * p,
            0 <= m <= radix - 1,
            p > 0,
    ;
    assert(y * pow52(5) == (radix * y) * pow52(4));
    assert((t / pow52(4)) * pow52(4) <= t);
}

/// The parallel reduction of zero is zero.
pub proof fn lemma_parallel_reduce_zero()
    ensures
        parallel_reduce(0) == 0,
{
    lemma_pow52_values();
    assert(0int / pow52(4) == 0);
    assert(0int / pow52(0) == 0 && 0int / pow52(1) == 0 && 0int / pow52(2) == 0 && 0int / pow52(3)
        == 0);
    assert(digit52(0, 0) == 0 && digit52(0, 1) == 0 && digit52(0, 2) == 0 && digit52(0, 3) == 0);
    assert(fold(0) == 0) by (nonlinear_arith)
        requires
            fold(0) == 0int / pow52(4) + digit52(0, 0) * value52(RHO_4@) + digit52(0, 1) * value52(
                RHO_3@,
            ) + digit52(0, 2) * value52(RHO_2@) + digit52(0, 3) * value52(RHO_1@),
            0int / pow52(4) == 0,
            digit52(0, 0) == 0 && digit52(0, 1) == 0 && digit52(0, 2) == 0 && digit52(0, 3) == 0,
    ;
    assert(0 * (U52_NP0 as int) == 0);
    assert(fold_digit(0) == 0);
    assert(0 * modulus() == 0);
}

} // verus!
