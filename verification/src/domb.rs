//! Montgomery multiplication with a parallel reduction.
//!
//! The ten-limb product is cut at limb four. Each of the four low digits is
//! multiplied by a constant that stands for the inverse of its weight modulo
//! the prime, so that the low half folds into the high half in four
//! independent digit-by-number products; one ordinary Montgomery round then
//! brings the sum down to five limbs.
use vstd::prelude::*;
use crate::emmart::resolve;
use crate::kernel::{
    accumulated, biased, high_half, lemma_accumulated_add, lemma_accumulated_biased,
    lemma_accumulated_nothing, lemma_biased_add, lemma_biased_exact, lemma_biased_low_bits,
    lemma_biased_sum, lemma_biased_word, lemma_halves, lemma_seed_is_biased, low_half, make_initial,
    mult,
};
use crate::limbs::{
    lemma_pow52_values, lemma_pow64_values, lemma_resolved_bound, lemma_resolved_unique,
    lemma_value52_of10, lemma_value52_of5, lemma_value52_of6, lemma_value52_take,
    lemma_value64_bound, lemma_value64_of4, lemma_value64_unique, pow52, pow64, radix52, resolved,
    split52, value52, value64, MASK52,
};
use crate::product::{
    columns, columns_bias, lemma_columns_bias, lemma_columns_bound, lemma_columns_value,
    lemma_row_bound, lemma_row_value, row_bias, row_limb, row_prefix, row_prefix_bias, weigh10,
};
use crate::reduction::{
    carried, final_limb, fold_limb, lemma_carried, lemma_constants_resolved, lemma_final_limbs,
    lemma_fold_limb_bound, lemma_parallel_result, lemma_parallel_truncated, limb_digit, low_digit,
    parallel_reduce,
};
use crate::simd::{lane, lanes_add, lanes_high52, lanes_low52, lanes_mul, splat, Lanes};
use crate::{U52_NP0, U52_P};

verus! {

/// `2^-52 mod P`.
pub const RHO_1: [u64; 5] = [
    0x82e644ee4c3d2,
    0xf93893c98b1de,
    0xd46fe04d0a4c7,
    0x8f0aad55e2a1f,
    0x005ed0447de83,
];

/// `2^-104 mod P`.
pub const RHO_2: [u64; 5] = [
    0x74eccce9a797a,
    0x16ddcc30bd8a4,
    0x49ecd3539499e,
    0xb23a6fcc592b8,
    0x00e3bd49f6ee5,
];

/// `2^-156 mod P`.
pub const RHO_3: [u64; 5] = [
    0x0e8c656567d77,
    0x430d05713ae61,
    0xea3ba6b167128,
    0xa7dae55c5a296,
    0x01b4afd513572,
];

/// `2^-208 mod P`.
pub const RHO_4: [u64; 5] = [
    0x22e2400e2f27d,
    0x323b46ea19686,
    0xe6c43f0df672d,
    0x7824014c39e8b,
    0x00c6b48afe1b8,
];

/// The step function: one for a non-negative argument, zero for a negative one.
pub fn heaviside(x: isize) -> (r: usize)
    ensures
        r == (if x >= 0 {
            1int
        } else {
            0int
        }),
{
    if x >= 0 {
        1
    } else {
        0
    }
}

/// Limb-wise wrapping addition.
pub fn addv<const N: usize>(va: [u64; N], vb: [u64; N]) -> (r: [u64; N])
    ensures
        forall|k: int| 0 <= k < N ==> #[trigger] r@[k] == va@[k].wrapping_add(vb@[k]),
{
    let mut va = va;
    let ghost start = va@;
    let mut i: usize = 0;
    while i < N
        invariant
            i <= N,
            va@.len() == N,
            vb@.len() == N,
            start.len() == N,
            forall|k: int| 0 <= k < i ==> #[trigger] va@[k] == start[k].wrapping_add(vb@[k]),
            forall|k: int| i <= k < N ==> #[trigger] va@[k] == start[k],
        decreases N - i,
    {
        va[i] = va[i].wrapping_add(vb[i]);
        i += 1;
    }
    va
}

/// The row of the digit `s` times the number `v`, every product half with its
/// bias: limb `d` holds `row_limb(s, v, d)` and `row_bias(d)` units of bias.
pub fn smult_noinit(s: u64, v: [u64; 5]) -> (r: [u64; 6])
    requires
        s < radix52(),
        resolved(v@),
    ensures
        forall|d: int|
            0 <= d < 6 ==> #[trigger] r@[d] == row_limb(s as int, v@, d) + row_bias(d) * radix52(),
{
    let mut t: [u64; 6] = [0u64;6];
    for i in 0..5
        invariant
            s < radix52(),
            resolved(v@),
            forall|d: int|
                0 <= d < 6 ==> #[trigger] t@[d] == row_prefix(s as int, v@, i as int, d)
                    + row_prefix_bias(i as int, d) * radix52(),
    {
        let (sum, carry): (u64, u64) = mult(s, v[i]);
        proof {
            lemma_row_bound(s as int, v@, i as int, i as int);
            lemma_row_bound(s as int, v@, i as int, i + 1);
            lemma_halves(s as int, v@[i as int] as int);
            assert(t@[i as int] == row_prefix(s as int, v@, i as int, i as int) + row_prefix_bias(
                i as int,
                i as int,
            ) * radix52());
            assert(t@[i + 1] == row_prefix(s as int, v@, i as int, i + 1) + row_prefix_bias(
                i as int,
                i + 1,
            ) * radix52());
        }
        t[i] = t[i].wrapping_add(sum);
        t[i + 1] = t[i + 1].wrapping_add(carry);
    }
    t
}

/// The row of the digit `s` times the number `v`: limb `d` holds
/// `row_limb(s, v, d)`, and the six limbs stand for `s * v`.
pub fn smult(s: u64, v: [u64; 5]) -> (r: [u64; 6])
    requires
        s < radix52(),
        resolved(v@),
    ensures
        forall|d: int| 0 <= d < 6 ==> #[trigger] r@[d] == row_limb(s as int, v@, d),
        value52(r@) == s * value52(v@),
{
    let mut t: [u64; 6] = [0u64;6];
    t[0] = make_initial(1, 0);
    proof {
        lemma_seed_is_biased(1, 0);
        lemma_seed_is_biased(1, 1);
        lemma_seed_is_biased(0, 1);
    }
    for i in 1..5
        invariant
            biased(t@[0], 0, row_bias(0)),
            forall|d: int| 1 <= d < i ==> biased(#[trigger] t@[d], 0, row_bias(d)),
    {
        t[i] = make_initial(1, 1);
        proof {
            lemma_seed_is_biased(1, 1);
        }
    }
    t[5] = make_initial(0, 1);
    for i in 0..5
        invariant
            s < radix52(),
            resolved(v@),
            forall|d: int|
                0 <= d < 6 ==> biased(
                    #[trigger] t@[d],
                    row_prefix(s as int, v@, i as int, d),
                    row_bias(d) - row_prefix_bias(i as int, d),
                ),
    {
        let (sum, carry): (u64, u64) = mult(s, v[i]);
        proof {
            lemma_biased_add(
                t[i as int],
                sum,
                row_prefix(s as int, v@, i as int, i as int),
                row_bias(i as int) - row_prefix_bias(i as int, i as int),
                low_half(s as int, v@[i as int] as int),
                0x433,
            );
            lemma_biased_add(
                t[i + 1],
                carry,
                row_prefix(s as int, v@, i as int, i + 1),
                row_bias(i + 1) - row_prefix_bias(i as int, i + 1),
                high_half(s as int, v@[i as int] as int),
                0x467,
            );
        }
        t[i] = t[i].wrapping_add(sum);
        t[i + 1] = t[i + 1].wrapping_add(carry);
    }
    proof {
        assert forall|d: int| 0 <= d < 6 implies #[trigger] t@[d] == row_limb(s as int, v@, d) by {
            lemma_row_bound(s as int, v@, 5, d);
            lemma_biased_exact(t@[d], row_limb(s as int, v@, d));
        }
        let row = Seq::new(6, |d: int| row_limb(s as int, v@, d));
        lemma_row_value(s as int, v@);
        lemma_value52_of6(t@);
        assert(t@[0] == row[0] && t@[1] == row[1] && t@[2] == row[2] && t@[3] == row[3] && t@[4]
            == row[4] && t@[5] == row[5]);
    }
    t
}

/// Adds the product of `a` and `b` to the ten accumulators `t`, every product
/// half with its bias and with wrap-around: accumulator `k` receives column `k`
/// of the product.
pub fn vmultadd_noinit(a: [u64; 5], b: [u64; 5], t: [u64; 10]) -> (r: [u64; 10])
    requires
        resolved(a@),
        resolved(b@),
    ensures
        forall|k: int|
            0 <= k < 10 ==> #[trigger] r@[k] == accumulated(
                t@[k],
                columns(a@, b@, 5, k),
                columns_bias(5, k),
            ),
{
    let ghost start = t@;
    let mut t = t;
    proof {
        assert forall|k: int| 0 <= k < 10 implies #[trigger] t@[k] == accumulated(
            start[k],
            columns(a@, b@, 0, k),
            columns_bias(0, k),
        ) by {
            lemma_accumulated_nothing(start[k]);
        }
    }
    for i in 0..5
        invariant
            resolved(a@),
            resolved(b@),
            start.len() == 10,
            forall|k: int|
                0 <= k < 10 ==> #[trigger] t@[k] == accumulated(
                    start[k],
                    columns(a@, b@, i as nat, k),
                    columns_bias(i as nat, k),
                ),
    {
        for j in 0..5
            invariant
                i < 5,
                resolved(a@),
                resolved(b@),
                start.len() == 10,
                forall|k: int|
                    0 <= k < 10 ==> #[trigger] t@[k] == accumulated(
                        start[k],
                        columns(a@, b@, i as nat, k) + row_prefix(
                            a@[i as int] as int,
                            b@,
                            j as int,
                            k - i,
                        ),
                        columns_bias(i as nat, k) + row_prefix_bias(j as int, k - i),
                    ),
        {
            let (lo, hi): (u64, u64) = mult(a[i], b[j]);
            proof {
                let x = a@[i as int] as int;
                lemma_accumulated_add(
                    start[i + j + 1],
                    t[i + j + 1],
                    hi,
                    columns(a@, b@, i as nat, i + j + 1) + row_prefix(x, b@, j as int, j + 1),
                    columns_bias(i as nat, i + j + 1) + row_prefix_bias(j as int, j + 1),
                    high_half(x, b@[j as int] as int),
                    0x467,
                );
                lemma_accumulated_add(
                    start[i + j],
                    t[i + j],
                    lo,
                    columns(a@, b@, i as nat, i + j) + row_prefix(x, b@, j as int, j as int),
                    columns_bias(i as nat, i + j) + row_prefix_bias(j as int, j as int),
                    low_half(x, b@[j as int] as int),
                    0x433,
                );
            }
            t[i + j + 1] = t[i + j + 1].wrapping_add(hi);
            t[i + j] = t[i + j].wrapping_add(lo);
        }
    }
    t
}

/// The product of `a` and `b` in ten limb columns: limb `k` holds column `k`,
/// and the ten limbs stand for the product.
pub fn vmult(a: [u64; 5], b: [u64; 5]) -> (r: [u64; 10])
    requires
        resolved(a@),
        resolved(b@),
    ensures
        forall|k: int| 0 <= k < 10 ==> #[trigger] r@[k] == columns(a@, b@, 5, k),
        value52(r@) == value52(a@) * value52(b@),
{
    let mut t: [u64; 10] = [0u64;10];
    for i in 0..5
        invariant
            forall|k: int| 0 <= k < i ==> biased(#[trigger] t@[k], 0, columns_bias(5, k)),
            forall|k: int| 10 - i <= k < 10 ==> biased(#[trigger] t@[k], 0, columns_bias(5, k)),
    {
        proof {
            lemma_seed_is_biased(i + 1, i as int);
            lemma_seed_is_biased(i as int, i + 1);
            lemma_columns_bias(i as int);
            lemma_columns_bias(9 - i);
        }
        t[i] = make_initial(i + 1, i);
        t[10 - 1 - i] = make_initial(i, i + 1);
    }
    let ghost seeds = t@;
    let t = vmultadd_noinit(a, b, t);
    proof {
        assert forall|k: int| 0 <= k < 10 implies #[trigger] t@[k] == columns(a@, b@, 5, k) by {
            lemma_accumulated_biased(
                seeds[k],
                t@[k],
                0,
                columns_bias(5, k),
                columns(a@, b@, 5, k),
                columns_bias(5, k),
            );
            lemma_columns_bound(a@, b@, 5, k);
            lemma_biased_exact(t@[k], columns(a@, b@, 5, k));
        }
        lemma_columns_value(a@, b@);
        lemma_value52_of10(t@);
        let c = Seq::new(10, |k: int| columns(a@, b@, 5, k));
        assert(t@[0] == c[0] && t@[1] == c[1] && t@[2] == c[2] && t@[3] == c[3] && t@[4] == c[4]
            && t@[5] == c[5] && t@[6] == c[6] && t@[7] == c[7] && t@[8] == c[8] && t@[9] == c[9]);
        assert(value52(t@) == weigh10(c));
    }
    t
}

/// The word `r3 + ((s + r0) + (r1 + r2))`, all sums wrapping, holds the sum of
/// what the five words hold and awaits the sum of what they await.
proof fn lemma_fold_words(
    s: u64,
    r0: u64,
    r1: u64,
    r2: u64,
    r3: u64,
    v: int,
    w: int,
    v0: int,
    v1: int,
    v2: int,
    v3: int,
    each: int,
)
    requires
        biased(s, v, w),
        biased(r0, v0, each),
        biased(r1, v1, each),
        biased(r2, v2, each),
        biased(r3, v3, each),
    ensures
        biased(
            r3.wrapping_add(s.wrapping_add(r0).wrapping_add(r1.wrapping_add(r2))),
            v + v0 + v1 + v2 + v3,
            w + 4 * each,
        ),
{
    lemma_biased_sum(s, r0, v, w, v0, each);
    lemma_biased_sum(r1, r2, v1, each, v2, each);
    lemma_biased_sum(
        s.wrapping_add(r0),
        r1.wrapping_add(r2),
        v + v0,
        w + each,
        v1 + v2,
        each + each,
    );
    lemma_biased_sum(
        r3,
        s.wrapping_add(r0).wrapping_add(r1.wrapping_add(r2)),
        v3,
        each,
        v + v0 + v1 + v2,
        w + 3 * each,
    );
}

/// Montgomery multiplication by parallel reduction, with every intermediate
/// sum kept free of bias: the result is the resolved form of
/// `parallel_reduce(a * b)`, cut to five limbs.
pub fn parallel_ref(a: [u64; 5], b: [u64; 5]) -> (r: [u64; 5])
    requires
        resolved(a@),
        resolved(b@),
    ensures
        resolved(r@),
        value52(r@) == parallel_reduce(value52(a@) * value52(b@)) % pow52(5),
{
    let mut t = vmult(a, b);
    proof {
        lemma_carried(a@, b@);
        lemma_constants_resolved();
        reveal_with_fuel(carried, 5);
        assert(t@[0] == columns(a@, b@, 5, 0));
        assert(t@[1] == columns(a@, b@, 5, 1));
        assert(t@[2] == columns(a@, b@, 5, 2));
        assert(t@[3] == columns(a@, b@, 5, 3));
        assert(t@[4] == columns(a@, b@, 5, 4));
        assert(0 <= carried(a@, b@, 0) <= 11 * radix52());
        assert(0 <= carried(a@, b@, 1) <= 11 * radix52());
        assert(0 <= carried(a@, b@, 2) <= 11 * radix52());
        assert(0 <= carried(a@, b@, 3) <= 11 * radix52());
        assert(0 <= carried(a@, b@, 4) <= 11 * radix52());
    }
    let (d0, c0): (u64, u64) = split52(t[0]);
    t[1] += c0;
    let (d1, c1): (u64, u64) = split52(t[1]);
    t[2] += c1;
    let (d2, c2): (u64, u64) = split52(t[2]);
    t[3] += c2;
    let (d3, c3): (u64, u64) = split52(t[3]);
    t[4] += c3;
    let r0 = smult(d0, RHO_4);
    let r1 = smult(d1, RHO_3);
    let r2 = smult(d2, RHO_2);
    let r3 = smult(d3, RHO_1);
    let s: [u64; 6] = [t[4], t[5], t[6], t[7], t[8], t[9]];
    let s2 = addv(r3, addv(addv(s, r0), addv(r1, r2)));
    proof {
        assert(d0 == low_digit(a@, b@, 0) && d1 == low_digit(a@, b@, 1) && d2 == low_digit(
            a@,
            b@,
            2,
        ) && d3 == low_digit(a@, b@, 3));
        assert forall|d: int| 0 <= d < 6 implies #[trigger] s2@[d] == fold_limb(a@, b@, d) by {
            let high = if d == 0 {
                carried(a@, b@, 4)
            } else {
                columns(a@, b@, 5, 4 + d)
            };
            assert(s@[d] == high);
            lemma_biased_word(s@[d], high, 0);
            lemma_biased_word(r0@[d], row_limb(d0 as int, RHO_4@, d), 0);
            lemma_biased_word(r1@[d], row_limb(d1 as int, RHO_3@, d), 0);
            lemma_biased_word(r2@[d], row_limb(d2 as int, RHO_2@, d), 0);
            lemma_biased_word(r3@[d], row_limb(d3 as int, RHO_1@, d), 0);
            lemma_fold_words(
                s@[d],
                r0@[d],
                r1@[d],
                r2@[d],
                r3@[d],
                high,
                0,
                row_limb(d0 as int, RHO_4@, d),
                row_limb(d1 as int, RHO_3@, d),
                row_limb(d2 as int, RHO_2@, d),
                row_limb(d3 as int, RHO_1@, d),
                0,
            );
            lemma_fold_limb_bound(a@, b@, d);
            lemma_biased_exact(s2@[d], fold_limb(a@, b@, d));
        }
        lemma_final_limbs(a@, b@);
    }
    let m: u64 = s2[0].wrapping_mul(U52_NP0) & MASK52;
    proof {
        crate::emmart::lemma_digit_word(s2[0], U52_NP0, m, fold_limb(a@, b@, 0));
    }
    let mp = smult(m, U52_P);
    let u = addv(s2, mp);
    proof {
        assert forall|d: int| 0 <= d < 6 implies #[trigger] u@[d] == final_limb(a@, b@, d) by {
            assert(0 <= final_limb(a@, b@, d) <= 21 * radix52());
            assert(s2@[d] == fold_limb(a@, b@, d));
            assert(mp@[d] == row_limb(m as int, U52_P@, d));
        }
        assert forall|d: int| 0 <= d < 6 implies #[trigger] u@[d] <= u64::MAX - 0xFFF by {
            assert(0 <= final_limb(a@, b@, d) <= 21 * radix52());
        }
    }
    let digits: [u64; 6] = resolve(u);
    let out: [u64; 5] = [digits[1], digits[2], digits[3], digits[4], digits[5]];
    proof {
        lemma_parallel_result(a@, b@, u@, digits@, out@);
    }
    out
}

/// The bias that limb `k` of the product accumulators awaits from the fold and
/// the round: five more rows land on the six limbs from limb four up.
pub open spec fn fold_bias(k: int) -> int {
    if k < 4 {
        0
    } else {
        5 * row_bias(k - 4)
    }
}

/// Accumulators seeded for the product, the fold and the round hold, once the
/// product is in, its four low columns as they are, and its six high columns
/// with the bias of the fold and the round still to come.
pub proof fn lemma_seeded_product(a: Seq<u64>, b: Seq<u64>, seeds: Seq<u64>, t: Seq<u64>)
    requires
        a.len() == 5,
        b.len() == 5,
        resolved(a),
        resolved(b),
        seeds.len() == 10,
        t.len() == 10,
        forall|k: int|
            0 <= k < 10 ==> biased(#[trigger] seeds[k], 0, columns_bias(5, k) + fold_bias(k)),
        forall|k: int|
            0 <= k < 10 ==> #[trigger] t[k] == accumulated(
                seeds[k],
                columns(a, b, 5, k),
                columns_bias(5, k),
            ),
    ensures
        forall|k: int| 0 <= k < 4 ==> #[trigger] t[k] == columns(a, b, 5, k),
        forall|k: int| 0 <= k < 10 ==> biased(#[trigger] t[k], columns(a, b, 5, k), fold_bias(k)),
        t[0] == carried(a, b, 0),
        t[0] <= 11 * radix52(),
{
    assert forall|k: int| 0 <= k < 10 implies biased(
        #[trigger] t[k],
        columns(a, b, 5, k),
        fold_bias(k),
    ) by {
        lemma_accumulated_biased(
            seeds[k],
            t[k],
            0,
            columns_bias(5, k) + fold_bias(k),
            columns(a, b, 5, k),
            columns_bias(5, k),
        );
    }
    lemma_carried(a, b);
    assert forall|k: int| 0 <= k < 4 implies #[trigger] t[k] == columns(a, b, 5, k) by {
        assert(0 <= columns(a, b, 5, k) <= 10 * radix52());
        lemma_biased_exact(t[k], columns(a, b, 5, k));
    }
    assert(0 <= carried(a, b, 0) <= 11 * radix52());
}

/// Adding the carry of the limb below to limb `k` of the product leaves the
/// carried sum of limb `k` there.
pub proof fn lemma_carry_word(a: Seq<u64>, b: Seq<u64>, k: nat, below: u64, word: u64)
    requires
        a.len() == 5,
        b.len() == 5,
        resolved(a),
        resolved(b),
        1 <= k <= 4,
        below == carried(a, b, (k - 1) as nat),
        biased(word, columns(a, b, 5, k as int), fold_bias(k as int)),
    ensures
        biased(
            word.wrapping_add((below / 0x10_0000_0000_0000) as u64),
            carried(a, b, k),
            fold_bias(k as int),
        ),
        k < 4 ==> word.wrapping_add((below / 0x10_0000_0000_0000) as u64) == carried(a, b, k),
        0 <= carried(a, b, k) <= 11 * radix52(),
        below % 0x10_0000_0000_0000 == low_digit(a, b, (k - 1) as nat),
{
    lemma_carried(a, b);
    assert(0 <= carried(a, b, (k - 1) as nat) <= 11 * radix52());
    assert(0 <= carried(a, b, k) <= 11 * radix52());
    let carry = (below / 0x10_0000_0000_0000) as u64;
    lemma_biased_add(word, carry, columns(a, b, 5, k as int), fold_bias(k as int), carry as int, 0);
    if k < 4 {
        lemma_biased_exact(word.wrapping_add(carry), carried(a, b, k));
    }
}

/// The six high limbs of the product, with the four rows of the fold added
/// by wrapping addition, hold the limbs of the fold and await the bias of one
/// more row.
pub proof fn lemma_fold_lane(
    a: Seq<u64>,
    b: Seq<u64>,
    s: Seq<u64>,
    r0: Seq<u64>,
    r1: Seq<u64>,
    r2: Seq<u64>,
    r3: Seq<u64>,
    s2: Seq<u64>,
    each: int,
)
    requires
        a.len() == 5,
        b.len() == 5,
        resolved(a),
        resolved(b),
        s.len() == 6,
        each == 0 || each == 1,
        biased(s[0], carried(a, b, 4), 5 * each * row_bias(0)),
        forall|d: int|
            1 <= d < 6 ==> biased(#[trigger] s[d], columns(a, b, 5, 4 + d), 5 * each * row_bias(d)),
        forall|d: int|
            0 <= d < 6 ==> #[trigger] r0[d] == row_limb(low_digit(a, b, 0), RHO_4@, d) + each
                * row_bias(d) * radix52(),
        forall|d: int|
            0 <= d < 6 ==> #[trigger] r1[d] == row_limb(low_digit(a, b, 1), RHO_3@, d) + each
                * row_bias(d) * radix52(),
        forall|d: int|
            0 <= d < 6 ==> #[trigger] r2[d] == row_limb(low_digit(a, b, 2), RHO_2@, d) + each
                * row_bias(d) * radix52(),
        forall|d: int|
            0 <= d < 6 ==> #[trigger] r3[d] == row_limb(low_digit(a, b, 3), RHO_1@, d) + each
                * row_bias(d) * radix52(),
        forall|d: int|
            0 <= d < 6 ==> #[trigger] s2[d] == r3[d].wrapping_add(
                s[d].wrapping_add(r0[d]).wrapping_add(r1[d].wrapping_add(r2[d])),
            ),
    ensures
        forall|d: int|
            0 <= d < 6 ==> biased(#[trigger] s2[d], fold_limb(a, b, d), each * row_bias(d)),
{
    assert forall|d: int| 0 <= d < 6 implies biased(
        #[trigger] s2[d],
        fold_limb(a, b, d),
        each * row_bias(d),
    ) by {
        let high = if d == 0 {
            carried(a, b, 4)
        } else {
            columns(a, b, 5, 4 + d)
        };
        assert(biased(s[d], high, 5 * each * row_bias(d)));
        lemma_biased_word(r0[d], row_limb(low_digit(a, b, 0), RHO_4@, d), each * row_bias(d));
        lemma_biased_word(r1[d], row_limb(low_digit(a, b, 1), RHO_3@, d), each * row_bias(d));
        lemma_biased_word(r2[d], row_limb(low_digit(a, b, 2), RHO_2@, d), each * row_bias(d));
        lemma_biased_word(r3[d], row_limb(low_digit(a, b, 3), RHO_1@, d), each * row_bias(d));
        lemma_fold_words(
            s[d],
            r0[d],
            r1[d],
            r2[d],
            r3[d],
            high,
            5 * each * row_bias(d),
            row_limb(low_digit(a, b, 0), RHO_4@, d),
            row_limb(low_digit(a, b, 1), RHO_3@, d),
            row_limb(low_digit(a, b, 2), RHO_2@, d),
            row_limb(low_digit(a, b, 3), RHO_1@, d),
            -(each * row_bias(d)),
        );
    }
}

/// The digit of the round, computed from the lowest word of the fold.
pub proof fn lemma_digit_lane(a: Seq<u64>, b: Seq<u64>, word: u64, m: u64, each: int)
    requires
        a.len() == 5,
        b.len() == 5,
        resolved(a),
        resolved(b),
        biased(word, fold_limb(a, b, 0), each * row_bias(0)),
        m == word.wrapping_mul(U52_NP0) & MASK52,
    ensures
        m == limb_digit(a, b),
        m < radix52(),
{
    lemma_final_limbs(a, b);
    lemma_biased_low_bits(word, fold_limb(a, b, 0), each * row_bias(0));
    crate::emmart::lemma_digit_word(word, U52_NP0, m, fold_limb(a, b, 0));
}

/// The limbs of the fold with the row of the round added hold the final limb
/// sums, free of bias and small enough to be resolved.
pub proof fn lemma_final_lane(
    a: Seq<u64>,
    b: Seq<u64>,
    s2: Seq<u64>,
    mp: Seq<u64>,
    u: Seq<u64>,
    each: int,
)
    requires
        a.len() == 5,
        b.len() == 5,
        resolved(a),
        resolved(b),
        forall|d: int|
            0 <= d < 6 ==> biased(#[trigger] s2[d], fold_limb(a, b, d), each * row_bias(d)),
        forall|d: int|
            0 <= d < 6 ==> #[trigger] mp[d] == row_limb(limb_digit(a, b), U52_P@, d) + each
                * row_bias(d) * radix52(),
        forall|d: int| 0 <= d < 6 ==> #[trigger] u[d] == s2[d].wrapping_add(mp[d]),
    ensures
        forall|d: int| 0 <= d < 6 ==> #[trigger] u[d] == final_limb(a, b, d),
        forall|d: int| 0 <= d < 6 ==> #[trigger] u[d] <= u64::MAX - 0xFFF,
{
    lemma_final_limbs(a, b);
    assert forall|d: int| 0 <= d < 6 implies #[trigger] u[d] == final_limb(a, b, d) && u[d]
        <= u64::MAX - 0xFFF by {
        assert(0 <= final_limb(a, b, d) <= 21 * radix52());
        lemma_biased_word(mp[d], row_limb(limb_digit(a, b), U52_P@, d), each * row_bias(d));
        lemma_biased_sum(
            s2[d],
            mp[d],
            fold_limb(a, b, d),
            each * row_bias(d),
            row_limb(limb_digit(a, b), U52_P@, d),
            -(each * row_bias(d)),
        );
        lemma_biased_exact(u[d], final_limb(a, b, d));
    }
}

/// Montgomery multiplication by parallel reduction on accumulators that are
/// seeded once with the negated bias of every product half they will receive,
/// in the product, the fold and the round. The result is the resolved form of
/// `parallel_reduce(a * b)`, cut to five limbs.
pub fn parallel_sub(a: [u64; 5], b: [u64; 5]) -> (r: [u64; 5])
    requires
        resolved(a@),
        resolved(b@),
    ensures
        resolved(r@),
        value52(r@) == parallel_reduce(value52(a@) * value52(b@)) % pow52(5),
{
    let mut t: [u64; 10] = [0u64;10];
    for i in 0..5
        invariant
            forall|k: int|
                0 <= k < i ==> biased(#[trigger] t@[k], 0, columns_bias(5, k) + fold_bias(k)),
            forall|k: int|
                10 - i <= k < 10 ==> biased(#[trigger] t@[k], 0, columns_bias(5, k) + fold_bias(k)),
    {
        let j: usize = 10 - 1 - i;
        let below: usize = heaviside(i as isize - 4);
        let top: usize = heaviside(j as isize - 9);
        proof {
            lemma_seed_is_biased(i + 1 + 5 * below, i as int);
            lemma_seed_is_biased(i + 5 * (1 - top), i + 1 + 5 * 1);
            lemma_columns_bias(i as int);
            lemma_columns_bias(j as int);
        }
        t[i] = make_initial(i + 1 + 5 * below, i);
        t[j] = make_initial(i + 5 * (1 - top), i + 1 + 5 * 1);
    }
    let ghost seeds = t@;
    let mut t = vmultadd_noinit(a, b, t);
    let ghost product = t@;
    proof {
        lemma_seeded_product(a@, b@, seeds, product);
        lemma_constants_resolved();
        lemma_carry_word(a@, b@, 1, product[0], product[1]);
    }
    let (d0, c0): (u64, u64) = split52(t[0]);
    t[1] = t[1].wrapping_add(c0);
    proof {
        lemma_carry_word(a@, b@, 2, t@[1], product[2]);
    }
    let (d1, c1): (u64, u64) = split52(t[1]);
    t[2] = t[2].wrapping_add(c1);
    proof {
        lemma_carry_word(a@, b@, 3, t@[2], product[3]);
    }
    let (d2, c2): (u64, u64) = split52(t[2]);
    t[3] = t[3].wrapping_add(c2);
    proof {
        lemma_carry_word(a@, b@, 4, t@[3], product[4]);
    }
    let (d3, c3): (u64, u64) = split52(t[3]);
    t[4] = t[4].wrapping_add(c3);
    let r0 = smult_noinit(d0, RHO_4);
    let r1 = smult_noinit(d1, RHO_3);
    let r2 = smult_noinit(d2, RHO_2);
    let r3 = smult_noinit(d3, RHO_1);
    let s: [u64; 6] = [t[4], t[5], t[6], t[7], t[8], t[9]];
    let s2 = addv(r3, addv(addv(s, r0), addv(r1, r2)));
    proof {
        assert forall|d: int| 1 <= d < 6 implies biased(
            #[trigger] s@[d],
            columns(a@, b@, 5, 4 + d),
            5 * 1 * row_bias(d),
        ) by {
            assert(s@[d] == product[4 + d]);
        }
        lemma_fold_lane(a@, b@, s@, r0@, r1@, r2@, r3@, s2@, 1);
    }
    let m: u64 = s2[0].wrapping_mul(U52_NP0) & MASK52;
    proof {
        lemma_digit_lane(a@, b@, s2@[0], m, 1);
    }
    let mp = smult_noinit(m, U52_P);
    let u = addv(s2, mp);
    proof {
        lemma_final_lane(a@, b@, s2@, mp@, u@, 1);
    }
    let digits: [u64; 6] = resolve(u);
    let out: [u64; 5] = [digits[1], digits[2], digits[3], digits[4], digits[5]];
    proof {
        lemma_parallel_result(a@, b@, u@, digits@, out@);
    }
    out
}

/// [`parallel_sub`] under a name of its own, for callers that want a call
/// that is never merged into its surroundings.
pub fn parallel_sub_stub(a: [u64; 5], b: [u64; 5]) -> (r: [u64; 5])
    requires
        resolved(a@),
        resolved(b@),
    ensures
        resolved(r@),
        value52(r@) == parallel_reduce(value52(a@) * value52(b@)) % pow52(5),
{
    parallel_sub(a, b)
}

/// Repacks four 64-bit limbs into five 52-bit limbs.
pub fn convert_limb_64_52(limbs: [u64; 4]) -> (r: [u64; 5])
    ensures
        resolved(r@),
        value52(r@) == value64(limbs@),
{
    let l0: u64 = limbs[0];
    let l1: u64 = limbs[1];
    let l2: u64 = limbs[2];
    let l3: u64 = limbs[3];
    let r0: u64 = l0 & MASK52;
    let r1: u64 = ((l0 >> 52) | (l1 << 12)) & MASK52;
    let r2: u64 = ((l1 >> 40) | (l2 << 24)) & MASK52;
    let r3: u64 = ((l2 >> 28) | (l3 << 36)) & MASK52;
    let r4: u64 = l3 >> 16;
    assert(r0 == l0 % 0x10_0000_0000_0000) by (bit_vector)
        requires
            r0 == l0 & 0xF_FFFF_FFFF_FFFF,
    ;
    assert(r1 == l0 / 0x10_0000_0000_0000 + (l1 % 0x100_0000_0000) * 0x1000) by (bit_vector)
        requires
            r1 == ((l0 >> 52) | (l1 << 12)) & 0xF_FFFF_FFFF_FFFF,
    ;
    assert(r2 == l1 / 0x100_0000_0000 + (l2 % 0x1000_0000) * 0x100_0000) by (bit_vector)
        requires
            r2 == ((l1 >> 40) | (l2 << 24)) & 0xF_FFFF_FFFF_FFFF,
    ;
    assert(r3 == l2 / 0x1000_0000 + (l3 % 0x1_0000) * 0x10_0000_0000) by (bit_vector)
        requires
            r3 == ((l2 >> 28) | (l3 << 36)) & 0xF_FFFF_FFFF_FFFF,
    ;
    assert(r4 == l3 / 0x1_0000) by (bit_vector)
        requires
            r4 == l3 >> 16,
    ;
    let out: [u64; 5] = [r0, r1, r2, r3, r4];
    proof {
        lemma_value52_of5(out@);
        lemma_value64_of4(limbs@);
        lemma_pow52_values();
        lemma_pow64_values();
    }
    out
}

/// Repacks four 64-bit limbs into five 52-bit limbs, two bits to the left: the
/// result stands for four times the input.
pub fn convert_limb_64_52_shl2(limbs: [u64; 4]) -> (r: [u64; 5])
    ensures
        resolved(r@),
        value52(r@) == 4 * value64(limbs@),
{
    let l0: u64 = limbs[0];
    let l1: u64 = limbs[1];
    let l2: u64 = limbs[2];
    let l3: u64 = limbs[3];
    let r0: u64 = (l0 << 2) & MASK52;
    let r1: u64 = ((l0 >> 50) | (l1 << 14)) & MASK52;
    let r2: u64 = ((l1 >> 38) | (l2 << 26)) & MASK52;
    let r3: u64 = ((l2 >> 26) | (l3 << 38)) & MASK52;
    let r4: u64 = l3 >> 14;
    assert(r0 == (l0 % 0x4_0000_0000_0000) * 4) by (bit_vector)
        requires
            r0 == (l0 << 2) & 0xF_FFFF_FFFF_FFFF,
    ;
    assert(r1 == l0 / 0x4_0000_0000_0000 + (l1 % 0x40_0000_0000) * 0x4000) by (bit_vector)
        requires
            r1 == ((l0 >> 50) | (l1 << 14)) & 0xF_FFFF_FFFF_FFFF,
    ;
    assert(r2 == l1 / 0x40_0000_0000 + (l2 % 0x400_0000) * 0x400_0000) by (bit_vector)
        requires
            r2 == ((l1 >> 38) | (l2 << 26)) & 0xF_FFFF_FFFF_FFFF,
    ;
    assert(r3 == l2 / 0x400_0000 + (l3 % 0x4000) * 0x40_0000_0000) by (bit_vector)
        requires
            r3 == ((l2 >> 26) | (l3 << 38)) & 0xF_FFFF_FFFF_FFFF,
    ;
    assert(r4 == l3 / 0x4000) by (bit_vector)
        requires
            r4 == l3 >> 14,
    ;
    let out: [u64; 5] = [r0, r1, r2, r3, r4];
    proof {
        lemma_value52_of5(out@);
        lemma_value64_of4(limbs@);
        lemma_pow52_values();
        lemma_pow64_values();
    }
    out
}

/// Repacks five resolved 52-bit limbs into four 64-bit limbs. What does not
/// fit into 256 bits is dropped.
pub fn convert_limb_52_64(limbs: [u64; 5]) -> (r: [u64; 4])
    requires
        resolved(limbs@),
    ensures
        value64(r@) == value52(limbs@) % pow64(4),
{
    let l0: u64 = limbs[0];
    let l1: u64 = limbs[1];
    let l2: u64 = limbs[2];
    let l3: u64 = limbs[3];
    let l4: u64 = limbs[4];
    let r0: u64 = l0 | (l1 << 52);
    let r1: u64 = (l1 >> 12) | (l2 << 40);
    let r2: u64 = (l2 >> 24) | (l3 << 28);
    let r3: u64 = (l3 >> 36) | (l4 << 16);
    assert(r0 == l0 + (l1 % 0x1000) * 0x10_0000_0000_0000) by (bit_vector)
        requires
            r0 == l0 | (l1 << 52),
            l0 < 0x10_0000_0000_0000,
    ;
    assert(r1 == l1 / 0x1000 + (l2 % 0x100_0000) * 0x100_0000_0000) by (bit_vector)
        requires
            r1 == (l1 >> 12) | (l2 << 40),
            l1 < 0x10_0000_0000_0000,
    ;
    assert(r2 == l2 / 0x100_0000 + (l3 % 0x10_0000_0000) * 0x1000_0000) by (bit_vector)
        requires
            r2 == (l2 >> 24) | (l3 << 28),
            l2 < 0x10_0000_0000_0000,
    ;
    assert(r3 == l3 / 0x10_0000_0000 + (l4 % 0x1_0000_0000_0000) * 0x1_0000) by (bit_vector)
        requires
            r3 == (l3 >> 36) | (l4 << 16),
            l3 < 0x10_0000_0000_0000,
    ;
    let out: [u64; 4] = [r0, r1, r2, r3];
    proof {
        lemma_value52_of5(limbs@);
        lemma_value64_of4(out@);
        lemma_pow52_values();
        lemma_pow64_values();
        vstd::arithmetic::div_mod::lemma_fundamental_div_mod_converse(
            value52(limbs@),
            pow64(4),
            l4 as int / 0x1_0000_0000_0000,
            value64(out@),
        );
    }
    out
}

/// Montgomery multiplication by parallel reduction on four 64-bit limbs, for
/// the radix `2^256`: both factors are repacked two bits to the left, so that
/// the reduction by `2^260` divides their product by `2^256`.
pub fn parallel_sub_r256(a: [u64; 4], b: [u64; 4]) -> (r: [u64; 4])
    ensures
        value64(r@) == parallel_reduce(16 * (value64(a@) * value64(b@))) % pow64(4),
{
    let a52 = convert_limb_64_52_shl2(a);
    let b52 = convert_limb_64_52_shl2(b);
    let res = convert_limb_52_64(parallel_sub(a52, b52));
    proof {
        lemma_shifted_factors(value64(a@), value64(b@));
    }
    res
}

/// Puts two four-limb numbers side by side: limb `k` of the first in lane 0 of
/// pair `k`, limb `k` of the second in lane 1.
pub fn convert_to_simd(limbs: [[u64; 4]; 2]) -> (r: [Lanes; 4])
    ensures
        lane(r@, 0) == limbs@[0]@,
        lane(r@, 1) == limbs@[1]@,
{
    let r: [Lanes; 4] = [
        [limbs[0][0], limbs[1][0]],
        [limbs[0][1], limbs[1][1]],
        [limbs[0][2], limbs[1][2]],
        [limbs[0][3], limbs[1][3]],
    ];
    assert(lane(r@, 0) =~= limbs@[0]@);
    assert(lane(r@, 1) =~= limbs@[1]@);
    r
}

/// [`convert_to_simd`] under a name of its own.
pub fn convert_to_simd_stub(limbs: [[u64; 4]; 2]) -> (r: [Lanes; 4])
    ensures
        lane(r@, 0) == limbs@[0]@,
        lane(r@, 1) == limbs@[1]@,
{
    convert_to_simd(limbs)
}

/// Takes two four-limb numbers that stand side by side apart again.
pub fn convert_from_simd(limbs: [Lanes; 4]) -> (r: [[u64; 4]; 2])
    ensures
        r@[0]@ == lane(limbs@, 0),
        r@[1]@ == lane(limbs@, 1),
{
    let mut first: [u64; 4] = [0u64;4];
    let mut second: [u64; 4] = [0u64;4];
    for i in 0..4
        invariant
            forall|k: int| 0 <= k < i ==> #[trigger] first@[k] == limbs@[k]@[0],
            forall|k: int| 0 <= k < i ==> #[trigger] second@[k] == limbs@[k]@[1],
    {
        let tmp: Lanes = limbs[i];
        first[i] = tmp[0];
        second[i] = tmp[1];
    }
    assert(first@ =~= lane(limbs@, 0));
    assert(second@ =~= lane(limbs@, 1));
    [first, second]
}

/// Lane-wise [`convert_limb_64_52_shl2`].
pub fn convert_limb_64_52_shl2_simd(limbs: [Lanes; 4]) -> (r: [Lanes; 5])
    ensures
        resolved(lane(r@, 0)),
        resolved(lane(r@, 1)),
        value52(lane(r@, 0)) == 4 * value64(lane(limbs@, 0)),
        value52(lane(r@, 1)) == 4 * value64(lane(limbs@, 1)),
{
    let first: [u64; 4] = [limbs[0][0], limbs[1][0], limbs[2][0], limbs[3][0]];
    let second: [u64; 4] = [limbs[0][1], limbs[1][1], limbs[2][1], limbs[3][1]];
    let x = convert_limb_64_52_shl2(first);
    let y = convert_limb_64_52_shl2(second);
    let r: [Lanes; 5] = [[x[0], y[0]], [x[1], y[1]], [x[2], y[2]], [x[3], y[3]], [x[4], y[4]]];
    assert(first@ =~= lane(limbs@, 0));
    assert(second@ =~= lane(limbs@, 1));
    assert(lane(r@, 0) =~= x@);
    assert(lane(r@, 1) =~= y@);
    r
}

/// [`convert_limb_64_52_shl2_simd`] under a name of its own.
pub fn convert_limb_64_52_shl2_simd_stub(limbs: [Lanes; 4]) -> (r: [Lanes; 5])
    ensures
        resolved(lane(r@, 0)),
        resolved(lane(r@, 1)),
        value52(lane(r@, 0)) == 4 * value64(lane(limbs@, 0)),
        value52(lane(r@, 1)) == 4 * value64(lane(limbs@, 1)),
{
    convert_limb_64_52_shl2_simd(limbs)
}

/// Lane-wise [`convert_limb_52_64`].
pub fn convert_limb_52_64_simd(limbs: [Lanes; 5]) -> (r: [Lanes; 4])
    requires
        resolved(lane(limbs@, 0)),
        resolved(lane(limbs@, 1)),
    ensures
        value64(lane(r@, 0)) == value52(lane(limbs@, 0)) % pow64(4),
        value64(lane(r@, 1)) == value52(lane(limbs@, 1)) % pow64(4),
{
    let first: [u64; 5] = [limbs[0][0], limbs[1][0], limbs[2][0], limbs[3][0], limbs[4][0]];
    let second: [u64; 5] = [limbs[0][1], limbs[1][1], limbs[2][1], limbs[3][1], limbs[4][1]];
    assert(first@ =~= lane(limbs@, 0));
    assert(second@ =~= lane(limbs@, 1));
    let x = convert_limb_52_64(first);
    let y = convert_limb_52_64(second);
    let r: [Lanes; 4] = [[x[0], y[0]], [x[1], y[1]], [x[2], y[2]], [x[3], y[3]]];
    assert(lane(r@, 0) =~= x@);
    assert(lane(r@, 1) =~= y@);
    r
}

/// Lane-wise, limb-wise wrapping addition.
pub fn addv_simd<const N: usize>(va: [Lanes; N], vb: [Lanes; N]) -> (r: [Lanes; N])
    ensures
        forall|k: int|
            0 <= k < N ==> (#[trigger] r@[k])@[0] == va@[k]@[0].wrapping_add(vb@[k]@[0]) && r@[k]@[1]
                == va@[k]@[1].wrapping_add(vb@[k]@[1]),
{
    let mut va = va;
    let ghost start = va@;
    let mut i: usize = 0;
    while i < N
        invariant
            i <= N,
            va@.len() == N,
            vb@.len() == N,
            start.len() == N,
            forall|k: int|
                0 <= k < i ==> (#[trigger] va@[k])@[0] == start[k]@[0].wrapping_add(vb@[k]@[0])
                    && va@[k]@[1] == start[k]@[1].wrapping_add(vb@[k]@[1]),
            forall|k: int| i <= k < N ==> #[trigger] va@[k] == start[k],
        decreases N - i,
    {
        va[i] = lanes_add(va[i], vb[i]);
        i += 1;
    }
    va
}

/// Lane-wise [`smult_noinit`]: the rows of the two digits in `s` times the
/// number `v`, every product half with its bias.
pub fn smult_noinit_simd(s: Lanes, v: [u64; 5]) -> (r: [Lanes; 6])
    requires
        s@[0] < radix52(),
        s@[1] < radix52(),
        resolved(v@),
    ensures
        forall|d: int|
            0 <= d < 6 ==> (#[trigger] r@[d])@[0] == row_limb(s@[0] as int, v@, d) + row_bias(d)
                * radix52() && r@[d]@[1] == row_limb(s@[1] as int, v@, d) + row_bias(d) * radix52(),
{
    let mut t: [Lanes; 6] = [[0u64, 0u64];6];
    for i in 0..5
        invariant
            s@[0] < radix52(),
            s@[1] < radix52(),
            resolved(v@),
            forall|d: int|
                0 <= d < 6 ==> (#[trigger] t@[d])@[0] == row_prefix(s@[0] as int, v@, i as int, d)
                    + row_prefix_bias(i as int, d) * radix52() && t@[d]@[1] == row_prefix(
                    s@[1] as int,
                    v@,
                    i as int,
                    d,
                ) + row_prefix_bias(i as int, d) * radix52(),
    {
        let (lo0, hi0): (u64, u64) = mult(s[0], v[i]);
        let (lo1, hi1): (u64, u64) = mult(s[1], v[i]);
        proof {
            lemma_row_bound(s@[0] as int, v@, i as int, i as int);
            lemma_row_bound(s@[0] as int, v@, i as int, i + 1);
            lemma_row_bound(s@[1] as int, v@, i as int, i as int);
            lemma_row_bound(s@[1] as int, v@, i as int, i + 1);
            lemma_halves(s@[0] as int, v@[i as int] as int);
            lemma_halves(s@[1] as int, v@[i as int] as int);
            assert(t@[i as int]@[0] == row_prefix(s@[0] as int, v@, i as int, i as int)
                + row_prefix_bias(i as int, i as int) * radix52());
            assert(t@[i + 1]@[0] == row_prefix(s@[0] as int, v@, i as int, i + 1)
                + row_prefix_bias(i as int, i + 1) * radix52());
        }
        t[i + 1] = lanes_add(t[i + 1], [hi0, hi1]);
        t[i] = lanes_add(t[i], [lo0, lo1]);
    }
    t
}

/// Lane-wise [`vmultadd_noinit`]: adds the product of the two numbers in lane
/// `l` of `a` and `b` to lane `l` of the ten accumulators `t`.
pub fn vmultadd_noinit_simd(a: [Lanes; 5], b: [Lanes; 5], t: [Lanes; 10]) -> (r: [Lanes; 10])
    requires
        resolved(lane(a@, 0)),
        resolved(lane(a@, 1)),
        resolved(lane(b@, 0)),
        resolved(lane(b@, 1)),
    ensures
        forall|k: int|
            0 <= k < 10 ==> (#[trigger] r@[k])@[0] == accumulated(
                t@[k]@[0],
                columns(lane(a@, 0), lane(b@, 0), 5, k),
                columns_bias(5, k),
            ) && r@[k]@[1] == accumulated(
                t@[k]@[1],
                columns(lane(a@, 1), lane(b@, 1), 5, k),
                columns_bias(5, k),
            ),
{
    let ghost start = t@;
    let ghost a0 = lane(a@, 0);
    let ghost a1 = lane(a@, 1);
    let ghost b0 = lane(b@, 0);
    let ghost b1 = lane(b@, 1);
    let mut t = t;
    proof {
        assert forall|k: int| 0 <= k < 10 implies (#[trigger] t@[k])@[0] == accumulated(
            start[k]@[0],
            columns(a0, b0, 0, k),
            columns_bias(0, k),
        ) && t@[k]@[1] == accumulated(start[k]@[1], columns(a1, b1, 0, k), columns_bias(0, k)) by {
            lemma_accumulated_nothing(start[k]@[0]);
            lemma_accumulated_nothing(start[k]@[1]);
        }
    }
    for i in 0..5
        invariant
            a0 == lane(a@, 0),
            a1 == lane(a@, 1),
            b0 == lane(b@, 0),
            b1 == lane(b@, 1),
            resolved(a0),
            resolved(a1),
            resolved(b0),
            resolved(b1),
            start.len() == 10,
            forall|k: int|
                0 <= k < 10 ==> (#[trigger] t@[k])@[0] == accumulated(
                    start[k]@[0],
                    columns(a0, b0, i as nat, k),
                    columns_bias(i as nat, k),
                ) && t@[k]@[1] == accumulated(
                    start[k]@[1],
                    columns(a1, b1, i as nat, k),
                    columns_bias(i as nat, k),
                ),
    {
        for j in 0..5
            invariant
                i < 5,
                a0 == lane(a@, 0),
                a1 == lane(a@, 1),
                b0 == lane(b@, 0),
                b1 == lane(b@, 1),
                resolved(a0),
                resolved(a1),
                resolved(b0),
                resolved(b1),
                start.len() == 10,
                forall|k: int|
                    0 <= k < 10 ==> (#[trigger] t@[k])@[0] == accumulated(
                        start[k]@[0],
                        columns(a0, b0, i as nat, k) + row_prefix(
                            a0[i as int] as int,
                            b0,
                            j as int,
                            k - i,
                        ),
                        columns_bias(i as nat, k) + row_prefix_bias(j as int, k - i),
                    ) && t@[k]@[1] == accumulated(
                        start[k]@[1],
                        columns(a1, b1, i as nat, k) + row_prefix(
                            a1[i as int] as int,
                            b1,
                            j as int,
                            k - i,
                        ),
                        columns_bias(i as nat, k) + row_prefix_bias(j as int, k - i),
                    ),
        {
            proof {
                assert(a0[i as int] < radix52() && a1[i as int] < radix52());
                assert(b0[j as int] < radix52() && b1[j as int] < radix52());
            }
            let (lo0, hi0): (u64, u64) = mult(a[i][0], b[j][0]);
            let (lo1, hi1): (u64, u64) = mult(a[i][1], b[j][1]);
            proof {
                let x0 = a0[i as int] as int;
                let x1 = a1[i as int] as int;
                lemma_accumulated_add(
                    start[i + j + 1]@[0],
                    t[i + j + 1]@[0],
                    hi0,
                    columns(a0, b0, i as nat, i + j + 1) + row_prefix(x0, b0, j as int, j + 1),
                    columns_bias(i as nat, i + j + 1) + row_prefix_bias(j as int, j + 1),
                    high_half(x0, b0[j as int] as int),
                    0x467,
                );
                lemma_accumulated_add(
                    start[i + j]@[0],
                    t[i + j]@[0],
                    lo0,
                    columns(a0, b0, i as nat, i + j) + row_prefix(x0, b0, j as int, j as int),
                    columns_bias(i as nat, i + j) + row_prefix_bias(j as int, j as int),
                    low_half(x0, b0[j as int] as int),
                    0x433,
                );
                lemma_accumulated_add(
                    start[i + j + 1]@[1],
                    t[i + j + 1]@[1],
                    hi1,
                    columns(a1, b1, i as nat, i + j + 1) + row_prefix(x1, b1, j as int, j + 1),
                    columns_bias(i as nat, i + j + 1) + row_prefix_bias(j as int, j + 1),
                    high_half(x1, b1[j as int] as int),
                    0x467,
                );
                lemma_accumulated_add(
                    start[i + j]@[1],
                    t[i + j]@[1],
                    lo1,
                    columns(a1, b1, i as nat, i + j) + row_prefix(x1, b1, j as int, j as int),
                    columns_bias(i as nat, i + j) + row_prefix_bias(j as int, j as int),
                    low_half(x1, b1[j as int] as int),
                    0x433,
                );
            }
            t[i + j + 1] = lanes_add(t[i + j + 1], [hi0, hi1]);
            t[i + j] = lanes_add(t[i + j], [lo0, lo1]);
        }
    }
    t
}

/// [`vmultadd_noinit_simd`] for factors that are handed over as two numbers
/// each, rather than side by side.
pub fn trans_vmultadd_noinit_simd(a: [[u64; 5]; 2], b: [[u64; 5]; 2], t: [Lanes; 10]) -> (r: [
    Lanes;
    10
])
    requires
        resolved(a@[0]@),
        resolved(a@[1]@),
        resolved(b@[0]@),
        resolved(b@[1]@),
    ensures
        forall|k: int|
            0 <= k < 10 ==> (#[trigger] r@[k])@[0] == accumulated(
                t@[k]@[0],
                columns(a@[0]@, b@[0]@, 5, k),
                columns_bias(5, k),
            ) && r@[k]@[1] == accumulated(
                t@[k]@[1],
                columns(a@[1]@, b@[1]@, 5, k),
                columns_bias(5, k),
            ),
{
    let av: [Lanes; 5] = [
        [a[0][0], a[1][0]],
        [a[0][1], a[1][1]],
        [a[0][2], a[1][2]],
        [a[0][3], a[1][3]],
        [a[0][4], a[1][4]],
    ];
    let bv: [Lanes; 5] = [
        [b[0][0], b[1][0]],
        [b[0][1], b[1][1]],
        [b[0][2], b[1][2]],
        [b[0][3], b[1][3]],
        [b[0][4], b[1][4]],
    ];
    assert(lane(av@, 0) =~= a@[0]@);
    assert(lane(av@, 1) =~= a@[1]@);
    assert(lane(bv@, 0) =~= b@[0]@);
    assert(lane(bv@, 1) =~= b@[1]@);
    vmultadd_noinit_simd(av, bv, t)
}

/// Lane `l` of the limb-wise wrapping sums of two arrays of pairs.
pub open spec fn lane_sums(s: Seq<Lanes>, mp: Seq<Lanes>, l: int) -> Seq<u64> {
    Seq::new(s.len(), |d: int| s[d]@[l].wrapping_add(mp[d]@[l]))
}

/// One digit of a carry chain that starts one limb up.
proof fn lemma_truncate_step(
    sums: Seq<u64>,
    before: Seq<u64>,
    after: Seq<u64>,
    i: int,
    carry: u64,
    digit: u64,
    next: u64,
)
    requires
        sums.len() == 6,
        0 <= i < 5,
        before.len() == 5,
        after == before.update(i, digit),
        digit + next * radix52() == sums[i + 1] + carry,
        value52(before.take(i)) + carry * pow52(i as nat) == value52(sums.skip(1).take(i)) + sums[0]
            / 0x10_0000_0000_0000,
    ensures
        value52(after.take(i + 1)) + next * pow52((i + 1) as nat) == value52(
            sums.skip(1).take(i + 1),
        ) + sums[0] / 0x10_0000_0000_0000,
{
    let upper = sums.skip(1);
    lemma_value52_take(after, i);
    lemma_value52_take(upper, i);
    assert(after.take(i) =~= before.take(i));
    assert(upper[i] == sums[i + 1]);
    let pw = pow52(i as nat);
    assert(pow52((i + 1) as nat) == radix52() * pw);
    assert(digit * pw + next * (radix52() * pw) == sums[i + 1] * pw + carry * pw)
        by (nonlinear_arith)
        requires
            digit + next * radix52() == sums[i + 1] + carry,
    ;
}

/// The end of a carry chain that starts one limb up: the five digits stand
/// for the value of the six sums, divided by `2^52` and cut to five limbs.
proof fn lemma_truncate_done(sums: Seq<u64>, out: Seq<u64>, carry: u64)
    requires
        sums.len() == 6,
        out.len() == 5,
        resolved(out),
        value52(out) + carry * pow52(5) == value52(sums.skip(1)) + sums[0] / 0x10_0000_0000_0000,
    ensures
        value52(out) == (value52(sums) / radix52()) % pow52(5),
{
    let radix = radix52();
    let upper = sums.skip(1);
    lemma_pow52_values();
    lemma_value52_of6(sums);
    lemma_value52_of5(upper);
    assert(upper[0] == sums[1] && upper[1] == sums[2] && upper[2] == sums[3] && upper[3]
        == sums[4] && upper[4] == sums[5]);
    let low = sums[0] as int;
    assert(value52(sums) == radix * (value52(upper) + low / radix) + low % radix);
    vstd::arithmetic::div_mod::lemma_fundamental_div_mod_converse(
        value52(sums),
        radix,
        value52(upper) + low / radix,
        low % radix,
    );
    lemma_resolved_bound(out);
    vstd::arithmetic::div_mod::lemma_fundamental_div_mod_converse(
        value52(upper) + low / radix,
        pow52(5),
        carry as int,
        value52(out),
    );
}

/// Adds two arrays of six pairs limb by limb and resolves the sums in one carry
/// pass per lane, dropping the lowest limb: lane `l` of the result holds the
/// five digits above the lowest limb of the sums in lane `l`.
pub fn resolve_simd_add_truncate(s: [Lanes; 6], mp: [Lanes; 6]) -> (r: [Lanes; 5])
    requires
        forall|d: int| 0 <= d < 6 ==> #[trigger] lane_sums(s@, mp@, 0)[d] <= u64::MAX - 0xFFF,
        forall|d: int| 0 <= d < 6 ==> #[trigger] lane_sums(s@, mp@, 1)[d] <= u64::MAX - 0xFFF,
    ensures
        resolved(lane(r@, 0)),
        resolved(lane(r@, 1)),
        value52(lane(r@, 0)) == (value52(lane_sums(s@, mp@, 0)) / radix52()) % pow52(5),
        value52(lane(r@, 1)) == (value52(lane_sums(s@, mp@, 1)) / radix52()) % pow52(5),
{
    let ghost u0 = lane_sums(s@, mp@, 0);
    let ghost u1 = lane_sums(s@, mp@, 1);
    let mut out: [Lanes; 5] = [[0u64, 0u64];5];
    let mut carry: Lanes = lanes_high52(lanes_add(s[0], mp[0]));
    proof {
        assert(u0[0] == s@[0]@[0].wrapping_add(mp@[0]@[0]));
        assert(u1[0] == s@[0]@[1].wrapping_add(mp@[0]@[1]));
        assert(u0.skip(1).take(0) =~= Seq::<u64>::empty());
        assert(u1.skip(1).take(0) =~= Seq::<u64>::empty());
        assert(lane(out@, 0).take(0) =~= Seq::<u64>::empty());
        assert(lane(out@, 1).take(0) =~= Seq::<u64>::empty());
        assert(pow52(0) == 1);
    }
    for i in 0..5
        invariant
            u0 == lane_sums(s@, mp@, 0),
            u1 == lane_sums(s@, mp@, 1),
            forall|d: int| 0 <= d < 6 ==> #[trigger] u0[d] <= u64::MAX - 0xFFF,
            forall|d: int| 0 <= d < 6 ==> #[trigger] u1[d] <= u64::MAX - 0xFFF,
            carry@[0] <= 0xFFF,
            carry@[1] <= 0xFFF,
            forall|k: int| 0 <= k < i ==> #[trigger] lane(out@, 0)[k] < radix52(),
            forall|k: int| 0 <= k < i ==> #[trigger] lane(out@, 1)[k] < radix52(),
            value52(lane(out@, 0).take(i as int)) + carry@[0] * pow52(i as nat) == value52(
                u0.skip(1).take(i as int),
            ) + u0[0] / 0x10_0000_0000_0000,
            value52(lane(out@, 1).take(i as int)) + carry@[1] * pow52(i as nat) == value52(
                u1.skip(1).take(i as int),
            ) + u1[0] / 0x10_0000_0000_0000,
    {
        let ghost before0 = lane(out@, 0);
        let ghost before1 = lane(out@, 1);
        proof {
            assert(u0[i + 1] == s@[i + 1]@[0].wrapping_add(mp@[i + 1]@[0]));
            assert(u1[i + 1] == s@[i + 1]@[1].wrapping_add(mp@[i + 1]@[1]));
        }
        let tmp: Lanes = lanes_add(lanes_add(s[i + 1], mp[i + 1]), carry);
        let digit: Lanes = lanes_low52(tmp);
        let next: Lanes = lanes_high52(tmp);
        out[i] = digit;
        proof {
            assert(lane(out@, 0) =~= before0.update(i as int, digit@[0]));
            assert(lane(out@, 1) =~= before1.update(i as int, digit@[1]));
            lemma_truncate_step(
                u0,
                before0,
                lane(out@, 0),
                i as int,
                carry@[0],
                digit@[0],
                next@[0],
            );
            lemma_truncate_step(
                u1,
                before1,
                lane(out@, 1),
                i as int,
                carry@[1],
                digit@[1],
                next@[1],
            );
        }
        carry = next;
    }
    proof {
        assert(lane(out@, 0).take(5) =~= lane(out@, 0));
        assert(lane(out@, 1).take(5) =~= lane(out@, 1));
        assert(u0.skip(1).take(5) =~= u0.skip(1));
        assert(u1.skip(1).take(5) =~= u1.skip(1));
        lemma_truncate_done(u0, lane(out@, 0), carry@[0]);
        lemma_truncate_done(u1, lane(out@, 1), carry@[1]);
    }
    out
}

/// [`resolve_simd_add_truncate`] with the two results taken apart.
pub fn resolve_simd_add_truncate_trans(s: [Lanes; 6], mp: [Lanes; 6]) -> (r: [[u64; 5]; 2])
    requires
        forall|d: int| 0 <= d < 6 ==> #[trigger] lane_sums(s@, mp@, 0)[d] <= u64::MAX - 0xFFF,
        forall|d: int| 0 <= d < 6 ==> #[trigger] lane_sums(s@, mp@, 1)[d] <= u64::MAX - 0xFFF,
    ensures
        resolved(r@[0]@),
        resolved(r@[1]@),
        value52(r@[0]@) == (value52(lane_sums(s@, mp@, 0)) / radix52()) % pow52(5),
        value52(r@[1]@) == (value52(lane_sums(s@, mp@, 1)) / radix52()) % pow52(5),
{
    let paired = resolve_simd_add_truncate(s, mp);
    let first: [u64; 5] = [paired[0][0], paired[1][0], paired[2][0], paired[3][0], paired[4][0]];
    let second: [u64; 5] = [paired[0][1], paired[1][1], paired[2][1], paired[3][1], paired[4][1]];
    assert(first@ =~= lane(paired@, 0));
    assert(second@ =~= lane(paired@, 1));
    [first, second]
}

/// Two Montgomery multiplications by parallel reduction side by side: result
/// `l` is what [`parallel_sub`] returns for `a[l]` and `b[l]`, the resolved
/// form of `parallel_reduce(a[l] * b[l])`, cut to five limbs.
pub fn parallel_simd_sub(a: [[u64; 5]; 2], b: [[u64; 5]; 2]) -> (r: [[u64; 5]; 2])
    requires
        resolved(a@[0]@),
        resolved(a@[1]@),
        resolved(b@[0]@),
        resolved(b@[1]@),
    ensures
        resolved(r@[0]@),
        resolved(r@[1]@),
        value52(r@[0]@) == parallel_reduce(value52(a@[0]@) * value52(b@[0]@)) % pow52(5),
        value52(r@[1]@) == parallel_reduce(value52(a@[1]@) * value52(b@[1]@)) % pow52(5),
{
    let mut t: [Lanes; 10] = [[0u64, 0u64];10];
    for i in 0..5
        invariant
            forall|k: int|
                0 <= k < i ==> biased((#[trigger] t@[k])@[0], 0, columns_bias(5, k) + fold_bias(k))
                    && biased(t@[k]@[1], 0, columns_bias(5, k) + fold_bias(k)),
            forall|k: int|
                10 - i <= k < 10 ==> biased(
                    (#[trigger] t@[k])@[0],
                    0,
                    columns_bias(5, k) + fold_bias(k),
                ) && biased(t@[k]@[1], 0, columns_bias(5, k) + fold_bias(k)),
    {
        let j: usize = 10 - 1 - i;
        let below: usize = heaviside(i as isize - 4);
        let top: usize = heaviside(j as isize - 9);
        proof {
            lemma_seed_is_biased(i + 1 + 5 * below, i as int);
            lemma_seed_is_biased(i + 5 * (1 - top), i + 1 + 5 * 1);
            lemma_columns_bias(i as int);
            lemma_columns_bias(j as int);
        }
        t[i] = splat(make_initial(i + 1 + 5 * below, i));
        t[j] = splat(make_initial(i + 5 * (1 - top), i + 1 + 5 * 1));
    }
    let ghost seeds = t@;
    let mut t = trans_vmultadd_noinit_simd(a, b, t);
    let ghost product = t@;
    proof {
        lemma_constants_resolved();
        assert forall|k: int| 0 <= k < 10 implies #[trigger] lane(product, 0)[k]
            == accumulated(
            lane(seeds, 0)[k],
            columns(a@[0]@, b@[0]@, 5, k),
            columns_bias(5, k),
        ) by {
            assert(product[k]@[0] == accumulated(
                seeds[k]@[0],
                columns(a@[0]@, b@[0]@, 5, k),
                columns_bias(5, k),
            ));
        }
        assert forall|k: int| 0 <= k < 10 implies #[trigger] lane(product, 1)[k]
            == accumulated(
            lane(seeds, 1)[k],
            columns(a@[1]@, b@[1]@, 5, k),
            columns_bias(5, k),
        ) by {
            assert(product[k]@[1] == accumulated(
                seeds[k]@[1],
                columns(a@[1]@, b@[1]@, 5, k),
                columns_bias(5, k),
            ));
        }
        lemma_seeded_product(a@[0]@, b@[0]@, lane(seeds, 0), lane(product, 0));
        lemma_seeded_product(a@[1]@, b@[1]@, lane(seeds, 1), lane(product, 1));
        assert(lane(product, 0)[0] == product[0]@[0] && lane(product, 1)[0] == product[0]@[1]);
        assert(lane(product, 0)[1] == product[1]@[0] && lane(product, 1)[1] == product[1]@[1]);
        assert(lane(product, 0)[2] == product[2]@[0] && lane(product, 1)[2] == product[2]@[1]);
        assert(lane(product, 0)[3] == product[3]@[0] && lane(product, 1)[3] == product[3]@[1]);
        assert(lane(product, 0)[4] == product[4]@[0] && lane(product, 1)[4] == product[4]@[1]);
        lemma_carry_word(a@[0]@, b@[0]@, 1, product[0]@[0], product[1]@[0]);
        lemma_carry_word(a@[1]@, b@[1]@, 1, product[0]@[1], product[1]@[1]);
    }
    t[1] = lanes_add(t[1], lanes_high52(t[0]));
    proof {
        lemma_carry_word(a@[0]@, b@[0]@, 2, t@[1]@[0], product[2]@[0]);
        lemma_carry_word(a@[1]@, b@[1]@, 2, t@[1]@[1], product[2]@[1]);
    }
    t[2] = lanes_add(t[2], lanes_high52(t[1]));
    proof {
        lemma_carry_word(a@[0]@, b@[0]@, 3, t@[2]@[0], product[3]@[0]);
        lemma_carry_word(a@[1]@, b@[1]@, 3, t@[2]@[1], product[3]@[1]);
    }
    t[3] = lanes_add(t[3], lanes_high52(t[2]));
    proof {
        lemma_carry_word(a@[0]@, b@[0]@, 4, t@[3]@[0], product[4]@[0]);
        lemma_carry_word(a@[1]@, b@[1]@, 4, t@[3]@[1], product[4]@[1]);
    }
    t[4] = lanes_add(t[4], lanes_high52(t[3]));
    let r0 = smult_noinit_simd(lanes_low52(t[0]), RHO_4);
    let r1 = smult_noinit_simd(lanes_low52(t[1]), RHO_3);
    let r2 = smult_noinit_simd(lanes_low52(t[2]), RHO_2);
    let r3 = smult_noinit_simd(lanes_low52(t[3]), RHO_1);
    let s: [Lanes; 6] = [t[4], t[5], t[6], t[7], t[8], t[9]];
    let s2 = addv_simd(r3, addv_simd(addv_simd(s, r0), addv_simd(r1, r2)));
    proof {
        assert forall|d: int| 1 <= d < 6 implies biased(
            #[trigger] lane(s@, 0)[d],
            columns(a@[0]@, b@[0]@, 5, 4 + d),
            5 * 1 * row_bias(d),
        ) by {
            assert(s@[d] == product[4 + d]);
            assert(lane(product, 0)[4 + d] == product[4 + d]@[0]);
        }
        assert forall|d: int| 1 <= d < 6 implies biased(
            #[trigger] lane(s@, 1)[d],
            columns(a@[1]@, b@[1]@, 5, 4 + d),
            5 * 1 * row_bias(d),
        ) by {
            assert(s@[d] == product[4 + d]);
            assert(lane(product, 1)[4 + d] == product[4 + d]@[1]);
        }
        lemma_fold_lane(
            a@[0]@,
            b@[0]@,
            lane(s@, 0),
            lane(r0@, 0),
            lane(r1@, 0),
            lane(r2@, 0),
            lane(r3@, 0),
            lane(s2@, 0),
            1,
        );
        lemma_fold_lane(
            a@[1]@,
            b@[1]@,
            lane(s@, 1),
            lane(r0@, 1),
            lane(r1@, 1),
            lane(r2@, 1),
            lane(r3@, 1),
            lane(s2@, 1),
            1,
        );
    }
    let m: Lanes = lanes_low52(lanes_mul(s2[0], U52_NP0));
    proof {
        assert(lane(s2@, 0)[0] == s2@[0]@[0] && lane(s2@, 1)[0] == s2@[0]@[1]);
        lemma_digit_lane(a@[0]@, b@[0]@, s2@[0]@[0], m@[0], 1);
        lemma_digit_lane(a@[1]@, b@[1]@, s2@[0]@[1], m@[1], 1);
    }
    let mp = smult_noinit_simd(m, U52_P);
    proof {
        lemma_final_lane(a@[0]@, b@[0]@, lane(s2@, 0), lane(mp@, 0), lane_sums(s2@, mp@, 0), 1);
        lemma_final_lane(a@[1]@, b@[1]@, lane(s2@, 1), lane(mp@, 1), lane_sums(s2@, mp@, 1), 1);
    }
    let out = resolve_simd_add_truncate_trans(s2, mp);
    proof {
        lemma_parallel_truncated(a@[0]@, b@[0]@, lane_sums(s2@, mp@, 0), out@[0]@);
        lemma_parallel_truncated(a@[1]@, b@[1]@, lane_sums(s2@, mp@, 1), out@[1]@);
    }
    out
}

/// Two Montgomery multiplications by parallel reduction on four 64-bit limbs
/// side by side: result `l` is what [`parallel_sub_r256`] returns for `a[l]`
/// and `b[l]`.
pub fn parallel_sub_simd_r256(a: [[u64; 4]; 2], b: [[u64; 4]; 2]) -> (r: [[u64; 4]; 2])
    ensures
        value64(r@[0]@) == parallel_reduce(16 * (value64(a@[0]@) * value64(b@[0]@))) % pow64(4),
        value64(r@[1]@) == parallel_reduce(16 * (value64(a@[1]@) * value64(b@[1]@))) % pow64(4),
{
    let a52 = convert_limb_64_52_shl2_simd(convert_to_simd(a));
    let b52 = convert_limb_64_52_shl2_simd(convert_to_simd(b));
    let ghost a0 = lane(a52@, 0);
    let ghost a1 = lane(a52@, 1);
    let ghost b0 = lane(b52@, 0);
    let ghost b1 = lane(b52@, 1);

    let mut t: [Lanes; 10] = [[0u64, 0u64];10];
    for i in 0..5
        invariant
            forall|k: int|
                0 <= k < i ==> biased((#[trigger] t@[k])@[0], 0, columns_bias(5, k) + fold_bias(k))
                    && biased(t@[k]@[1], 0, columns_bias(5, k) + fold_bias(k)),
            forall|k: int|
                10 - i <= k < 10 ==> biased(
                    (#[trigger] t@[k])@[0],
                    0,
                    columns_bias(5, k) + fold_bias(k),
                ) && biased(t@[k]@[1], 0, columns_bias(5, k) + fold_bias(k)),
    {
        let j: usize = 10 - 1 - i;
        let below: usize = heaviside(i as isize - 4);
        let top: usize = heaviside(j as isize - 9);
        proof {
            lemma_seed_is_biased(i + 1 + 5 * below, i as int);
            lemma_seed_is_biased(i + 5 * (1 - top), i + 1 + 5 * 1);
            lemma_columns_bias(i as int);
            lemma_columns_bias(j as int);
        }
        t[i] = splat(make_initial(i + 1 + 5 * below, i));
        t[j] = splat(make_initial(i + 5 * (1 - top), i + 1 + 5 * 1));
    }
    let ghost seeds = t@;
    let mut t = vmultadd_noinit_simd(a52, b52, t);
    let ghost product = t@;
    proof {
        lemma_constants_resolved();
        assert forall|k: int| 0 <= k < 10 implies #[trigger] lane(product, 0)[k]
            == accumulated(
            lane(seeds, 0)[k],
            columns(a0, b0, 5, k),
            columns_bias(5, k),
        ) by {
            assert(product[k]@[0] == accumulated(
                seeds[k]@[0],
                columns(a0, b0, 5, k),
                columns_bias(5, k),
            ));
        }
        assert forall|k: int| 0 <= k < 10 implies #[trigger] lane(product, 1)[k]
            == accumulated(
            lane(seeds, 1)[k],
            columns(a1, b1, 5, k),
            columns_bias(5, k),
        ) by {
            assert(product[k]@[1] == accumulated(
                seeds[k]@[1],
                columns(a1, b1, 5, k),
                columns_bias(5, k),
            ));
        }
        lemma_seeded_product(a0, b0, lane(seeds, 0), lane(product, 0));
        lemma_seeded_product(a1, b1, lane(seeds, 1), lane(product, 1));
        assert(lane(product, 0)[0] == product[0]@[0] && lane(product, 1)[0] == product[0]@[1]);
        assert(lane(product, 0)[1] == product[1]@[0] && lane(product, 1)[1] == product[1]@[1]);
        assert(lane(product, 0)[2] == product[2]@[0] && lane(product, 1)[2] == product[2]@[1]);
        assert(lane(product, 0)[3] == product[3]@[0] && lane(product, 1)[3] == product[3]@[1]);
        assert(lane(product, 0)[4] == product[4]@[0] && lane(product, 1)[4] == product[4]@[1]);
        lemma_carry_word(a0, b0, 1, product[0]@[0], product[1]@[0]);
        lemma_carry_word(a1, b1, 1, product[0]@[1], product[1]@[1]);
    }
    t[1] = lanes_add(t[1], lanes_high52(t[0]));
    proof {
        lemma_carry_word(a0, b0, 2, t@[1]@[0], product[2]@[0]);
        lemma_carry_word(a1, b1, 2, t@[1]@[1], product[2]@[1]);
    }
    t[2] = lanes_add(t[2], lanes_high52(t[1]));
    proof {
        lemma_carry_word(a0, b0, 3, t@[2]@[0], product[3]@[0]);
        lemma_carry_word(a1, b1, 3, t@[2]@[1], product[3]@[1]);
    }
    t[3] = lanes_add(t[3], lanes_high52(t[2]));
    proof {
        lemma_carry_word(a0, b0, 4, t@[3]@[0], product[4]@[0]);
        lemma_carry_word(a1, b1, 4, t@[3]@[1], product[4]@[1]);
    }
    t[4] = lanes_add(t[4], lanes_high52(t[3]));
    let r0 = smult_noinit_simd(lanes_low52(t[0]), RHO_4);
    let r1 = smult_noinit_simd(lanes_low52(t[1]), RHO_3);
    let r2 = smult_noinit_simd(lanes_low52(t[2]), RHO_2);
    let r3 = smult_noinit_simd(lanes_low52(t[3]), RHO_1);
    let s: [Lanes; 6] = [t[4], t[5], t[6], t[7], t[8], t[9]];
    let s2 = addv_simd(r3, addv_simd(addv_simd(s, r0), addv_simd(r1, r2)));
    proof {
        assert forall|d: int| 1 <= d < 6 implies biased(
            #[trigger] lane(s@, 0)[d],
            columns(a0, b0, 5, 4 + d),
            5 * 1 * row_bias(d),
        ) by {
            assert(s@[d] == product[4 + d]);
            assert(lane(product, 0)[4 + d] == product[4 + d]@[0]);
        }
        assert forall|d: int| 1 <= d < 6 implies biased(
            #[trigger] lane(s@, 1)[d],
            columns(a1, b1, 5, 4 + d),
            5 * 1 * row_bias(d),
        ) by {
            assert(s@[d] == product[4 + d]);
            assert(lane(product, 1)[4 + d] == product[4 + d]@[1]);
        }
        lemma_fold_lane(
            a0,
            b0,
            lane(s@, 0),
            lane(r0@, 0),
            lane(r1@, 0),
            lane(r2@, 0),
            lane(r3@, 0),
            lane(s2@, 0),
            1,
        );
        lemma_fold_lane(
            a1,
            b1,
            lane(s@, 1),
            lane(r0@, 1),
            lane(r1@, 1),
            lane(r2@, 1),
            lane(r3@, 1),
            lane(s2@, 1),
            1,
        );
    }
    let m: Lanes = lanes_low52(lanes_mul(s2[0], U52_NP0));
    proof {
        assert(lane(s2@, 0)[0] == s2@[0]@[0] && lane(s2@, 1)[0] == s2@[0]@[1]);
        lemma_digit_lane(a0, b0, s2@[0]@[0], m@[0], 1);
        lemma_digit_lane(a1, b1, s2@[0]@[1], m@[1], 1);
    }
    let mp = smult_noinit_simd(m, U52_P);
    proof {
        lemma_final_lane(a0, b0, lane(s2@, 0), lane(mp@, 0), lane_sums(s2@, mp@, 0), 1);
        lemma_final_lane(a1, b1, lane(s2@, 1), lane(mp@, 1), lane_sums(s2@, mp@, 1), 1);
    }
    let digits = resolve_simd_add_truncate(s2, mp);
    let packed = convert_limb_52_64_simd(digits);
    let res = convert_from_simd(packed);
    proof {
        lemma_parallel_truncated(a0, b0, lane_sums(s2@, mp@, 0), lane(digits@, 0));
        lemma_parallel_truncated(a1, b1, lane_sums(s2@, mp@, 1), lane(digits@, 1));
        lemma_shifted_factors(value64(a@[0]@), value64(b@[0]@));
        lemma_shifted_factors(value64(a@[1]@), value64(b@[1]@));
    }
    res
}

/// Reducing modulo `2^260` and then modulo `2^256` is reducing modulo `2^256`,
/// and the product of two numbers that were both shifted left by two bits is
/// sixteen times their product.
proof fn lemma_shifted_factors(va: int, vb: int)
    ensures
        (4 * va) * (4 * vb) == 16 * (va * vb),
        (parallel_reduce(16 * (va * vb)) % pow52(5)) % pow64(4) == parallel_reduce(
            16 * (va * vb),
        ) % pow64(4),
{
    assert((4 * va) * (4 * vb) == 16 * (va * vb)) by (nonlinear_arith);
    lemma_pow52_values();
    lemma_pow64_values();
    vstd::arithmetic::div_mod::lemma_mod_mod(parallel_reduce(16 * (va * vb)), pow64(4), 16);
}

/// The conversions between the limb widths are inverses: four 64-bit limbs
/// that are repacked into five 52-bit limbs and back are the same four limbs.
pub proof fn lemma_conversions_inverse(limbs: Seq<u64>, wide: Seq<u64>, back: Seq<u64>)
    requires
        limbs.len() == 4,
        back.len() == 4,
        value52(wide) == value64(limbs),
        value64(back) == value52(wide) % pow64(4),
    ensures
        back =~= limbs,
{
    lemma_value64_bound(limbs);
    vstd::arithmetic::div_mod::lemma_small_mod(value64(limbs) as nat, pow64(4) as nat);
    lemma_value64_unique(back, limbs);
}

/// The paired engines equal the scalar ones lane by lane: what
/// [`parallel_simd_sub`] returns in a lane is what [`parallel_sub`] returns
/// for the factors of that lane.
pub proof fn lemma_lanes_equal_scalar(scalar: Seq<u64>, paired: Seq<u64>, product: int)
    requires
        scalar.len() == 5,
        paired.len() == 5,
        resolved(scalar),
        resolved(paired),
        value52(scalar) == parallel_reduce(product) % pow52(5),
        value52(paired) == parallel_reduce(product) % pow52(5),
    ensures
        scalar =~= paired,
{
    lemma_resolved_unique(scalar, paired);
}

/// The same for the engines on four 64-bit limbs: what
/// [`parallel_sub_simd_r256`] returns in a lane is what [`parallel_sub_r256`]
/// returns for the factors of that lane.
pub proof fn lemma_lanes_equal_scalar_r256(scalar: Seq<u64>, paired: Seq<u64>, product: int)
    requires
        scalar.len() == 4,
        paired.len() == 4,
        value64(scalar) == parallel_reduce(16 * product) % pow64(4),
        value64(paired) == parallel_reduce(16 * product) % pow64(4),
    ensures
        scalar =~= paired,
{
    lemma_value64_unique(scalar, paired);
}

} // verus!
