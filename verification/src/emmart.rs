//! Montgomery multiplication over five 52-bit limbs.
//!
//! Every digit product goes through the kernel [`mult`], which hands back the
//! low and the high 52-bit half of a 104-bit product, each offset by a fixed
//! bias in its top twelve bits. The engines either strip the bias from every
//! half, or seed their accumulators with the negated sum of all the biases
//! that will arrive ([`make_initial`]) and add with wrap-around.
use vstd::prelude::*;
pub use crate::kernel::{make_initial, mult, C1, C2, C3};
use crate::kernel::{
    bias_weight, biased, high_half, lemma_biased_add, lemma_biased_exact, lemma_biased_low_bits,
    lemma_halves, lemma_seed_is_biased, low_half,
};
use crate::limbs::{
    lemma_pow52_values, lemma_resolved_bound, lemma_resolved_unique, lemma_value52_nonnegative,
    lemma_value52_of6, lemma_value52_take, pow52, radix52, resolved, value52, MASK52,
};
use crate::montgomery::{
    lemma_montgomery_bound, lemma_montgomery_from_quotient, montgomery_product,
};
use crate::simd::{lane, lanes_add, lanes_high52, lanes_low52, lanes_mul, splat, Lanes};
use crate::rounds::{
    inverts, lemma_round, lemma_rounds, next_state, quotient_after, round_carry, round_digit,
    round_limb, state_after, weigh5,
};

verus! {

/// One digit of a carry chain, scaled by the weight of its position.
proof fn lemma_carry_step(pw: int, digit: int, carry_out: int, limb: int, carry_in: int)
    by (nonlinear_arith)
    requires
        digit + carry_out * radix52() == limb + carry_in,
    ensures
        digit * pw + carry_out * (radix52() * pw) == limb * pw + carry_in * pw,
{
}

/// Brings six limbs into resolved form with one carry pass from the lowest
/// limb up. A carry out of the top limb is discarded.
pub fn resolve(t: [u64; 6]) -> (r: [u64; 6])
    requires
        forall|i: int| 0 <= i < 6 ==> #[trigger] t@[i] <= u64::MAX - 0xFFF,
    ensures
        resolved(r@),
        value52(r@) == value52(t@) % pow52(6),
{
    let ghost before = t@;
    let mut t = t;
    let mut carry: u64 = 0;
    for i in 0..6
        invariant
            carry <= 0xFFF,
            before.len() == 6,
            forall|k: int| 0 <= k < 6 ==> #[trigger] before[k] <= u64::MAX - 0xFFF,
            forall|k: int| i <= k < 6 ==> t@[k] == before[k],
            forall|k: int| 0 <= k < i ==> #[trigger] t@[k] < radix52(),
            value52(t@.take(i as int)) + carry * pow52(i as nat) == value52(before.take(i as int)),
    {
        let ghost prev = t@;
        assert(t@[i as int] == before[i as int]);
        let tmp: u64 = t[i] + carry;
        let digit: u64 = tmp & MASK52;
        let next: u64 = tmp >> 52;
        assert(digit + next * 0x10_0000_0000_0000 == tmp && digit < 0x10_0000_0000_0000 && next
            <= 0xFFF) by (bit_vector)
            requires
                digit == tmp & 0xF_FFFF_FFFF_FFFF,
                next == tmp >> 52,
        ;
        t[i] = digit;
        proof {
            let k = i as int;
            lemma_value52_take(t@, k);
            lemma_value52_take(before, k);
            assert(t@.take(k) =~= prev.take(k));
            lemma_carry_step(pow52(i as nat), digit as int, next as int, before[k] as int, carry as int);
            assert(pow52((i + 1) as nat) == radix52() * pow52(i as nat));
        }
        carry = next;
    }
    proof {
        assert(t@.take(6) =~= t@);
        assert(before.take(6) =~= before);
        lemma_resolved_bound(t@);
        vstd::arithmetic::div_mod::lemma_fundamental_div_mod_converse(
            value52(before),
            pow52(6),
            carry as int,
            value52(t@),
        );
    }
    t
}

/// Whether two limb arrays hold the same limbs.
pub fn limbs_equal<const N: usize>(a: &[u64; N], b: &[u64; N]) -> (r: bool)
    ensures
        r == (a@ == b@),
{
    let mut i: usize = 0;
    while i < N
        invariant
            i <= N,
            a@.len() == N,
            b@.len() == N,
            forall|k: int| 0 <= k < i ==> a@[k] == b@[k],
        decreases N - i,
    {
        if a[i] != b[i] {
            return false;
        }
        i += 1;
    }
    assert(a@ =~= b@);
    true
}

/// Whether subtracting `b` from `a` limb by limb leaves neither a borrow nor a
/// carry out of the top limb.
pub open spec fn subtracts_exactly(a: Seq<u64>, b: Seq<u64>) -> bool {
    0 <= value52(a) - value52(b) < pow52(a.len())
}

/// The borrow out of the top limb is zero just when the difference is not
/// negative and fits.
proof fn lemma_borrow_decides(d: int, v: int, borrow: int, pw: int)
    by (nonlinear_arith)
    requires
        v + borrow * pw == d,
        0 <= v < pw,
    ensures
        borrow == 0 <==> 0 <= d < pw,
{
}

/// Conditional subtraction in 52-bit limbs: `a - b` in resolved form where the
/// difference is non-negative and fits, and `a` unchanged otherwise.
pub fn subtraction_step_u52<const N: usize>(a: [u64; N], b: [u64; N]) -> (r: [u64; N])
    ensures
        subtracts_exactly(a@, b@) ==> resolved(r@) && value52(r@) == value52(a@) - value52(b@),
        !subtracts_exactly(a@, b@) ==> r == a,
{
    let mut borrow: i64 = 0;
    let mut c = a;
    let mut i: usize = 0;
    while i < N
        invariant
            i <= N,
            a@.len() == N,
            b@.len() == N,
            c@.len() == N,
            -0x1001 <= borrow <= 0x1000,
            forall|k: int| 0 <= k < i ==> #[trigger] c@[k] < radix52(),
            value52(c@.take(i as int)) + borrow * pow52(i as nat) == value52(a@.take(i as int))
                - value52(b@.take(i as int)),
        decreases N - i,
    {
        let ghost prev = c@;
        let tmp: i128 = a[i] as i128 - b[i] as i128 + borrow as i128;
        let low: i128 = tmp & 0xF_FFFF_FFFF_FFFF;
        let high: i128 = tmp >> 52;
        assert(low + high * 0x10_0000_0000_0000 == tmp && 0 <= low < 0x10_0000_0000_0000 && -0x1001
            <= high <= 0x1000) by (bit_vector)
            requires
                low == tmp & 0xF_FFFF_FFFF_FFFF,
                high == tmp >> 52,
                -0x1_0000_0000_0000_1001 <= tmp <= 0x1_0000_0000_0000_1000,
        ;
        c[i] = low as u64;
        proof {
            let k = i as int;
            lemma_value52_take(c@, k);
            lemma_value52_take(a@, k);
            lemma_value52_take(b@, k);
            assert(c@.take(k) =~= prev.take(k));
            lemma_carry_step(
                pow52(i as nat),
                low as int,
                high as int,
                a@[k] - b@[k],
                borrow as int,
            );
            assert(pow52((i + 1) as nat) == radix52() * pow52(i as nat));
            assert((a@[k] - b@[k]) * pow52(i as nat) == a@[k] * pow52(i as nat) - b@[k] * pow52(
                i as nat,
            )) by (nonlinear_arith);
        }
        borrow = high as i64;
        i += 1;
    }
    proof {
        assert(c@.take(N as int) =~= c@);
        assert(a@.take(N as int) =~= a@);
        assert(b@.take(N as int) =~= b@);
        lemma_resolved_bound(c@);
        lemma_borrow_decides(
            value52(a@) - value52(b@),
            value52(c@),
            borrow as int,
            pow52(N as nat),
        );
    }
    if borrow != 0 {
        a
    } else {
        c
    }
}

/// The remainder that repeated subtraction of `b` leaves of `a`; subtracting
/// zero leaves `a`.
pub open spec fn remainder(a: int, b: int) -> int {
    if b == 0 {
        a
    } else {
        a % b
    }
}

/// What [`modulus_u52`] knows of its running value `d` once a subtraction has
/// gone through.
spec fn reducing(d: Seq<u64>, a: Seq<u64>, b: Seq<u64>) -> bool {
    &&& subtracts_exactly(a, b)
    &&& resolved(d)
    &&& d.len() == a.len()
    &&& remainder(value52(d), value52(b)) == remainder(value52(a), value52(b))
}

/// Reduction by repeated subtraction: subtracts `b` from `a` until the limbs
/// stop changing.
///
/// Where the first subtraction goes through, the result is the resolved form
/// of `a mod b` (of `a` itself for `b = 0`); where it does not, `a` comes back
/// as it was.
pub fn modulus_u52<const N: usize>(a: [u64; N], b: [u64; N]) -> (r: [u64; N])
    ensures
        subtracts_exactly(a@, b@) ==> resolved(r@) && value52(r@) == remainder(
            value52(a@),
            value52(b@),
        ),
        !subtracts_exactly(a@, b@) ==> r@ == a@,
        resolved(a@) && value52(b@) > 0 ==> resolved(r@) && value52(r@) == value52(a@) % value52(
            b@,
        ),
{
    let mut d = a;
    let mut prev = d;
    proof {
        lemma_value52_nonnegative(d@);
    }
    loop
        invariant
            prev@ == d@,
            d@.len() == N,
            a@.len() == N,
            b@.len() == N,
            0 <= value52(d@),
            d@ == a@ || reducing(d@, a@, b@),
        ensures
            subtracts_exactly(a@, b@) ==> resolved(d@) && value52(d@) == remainder(
                value52(a@),
                value52(b@),
            ),
            !subtracts_exactly(a@, b@) ==> d@ == a@,
        decreases value52(d@), (if resolved(d@) { 0int } else { 1int }),
    {
        let ghost before = d@;
        d = subtraction_step_u52(d, b);
        proof {
            lemma_value52_nonnegative(b@);
            lemma_value52_nonnegative(d@);
            if resolved(before) {
                lemma_resolved_bound(before);
            }
            if subtracts_exactly(before, b@) {
                let vb = value52(b@);
                if vb == 0 {
                    if resolved(before) {
                        lemma_resolved_unique(before, d@);
                    }
                } else {
                    vstd::arithmetic::div_mod::lemma_mod_sub_multiples_vanish(value52(before), vb);
                }
            } else if resolved(before) {
                vstd::arithmetic::div_mod::lemma_small_mod(
                    value52(before) as nat,
                    value52(b@) as nat,
                );
            }
        }
        if limbs_equal(&d, &prev) {
            break ;
        }
        prev = d;
    }
    proof {
        if resolved(a@) && value52(b@) > 0 && !subtracts_exactly(a@, b@) {
            lemma_resolved_bound(a@);
            lemma_value52_nonnegative(a@);
            vstd::arithmetic::div_mod::lemma_small_mod(value52(a@) as nat, value52(b@) as nat);
        }
    }
    d
}

/// Limb `k` of the sums `s`, and zero for the scratch limb above them.
spec fn limb_or_zero(s: Seq<int>, k: int) -> int {
    if 0 <= k < 5 {
        s[k]
    } else {
        0
    }
}

/// The word `t0` agrees with the sum `v0` in its low 52 bits, so it yields the
/// digit of the round.
pub proof fn lemma_digit_word(t0: u64, np0: u64, m: u64, v0: int)
    requires
        t0 % 0x10_0000_0000_0000 == v0 % radix52(),
        m == t0.wrapping_mul(np0) & MASK52,
    ensures
        m == (v0 * np0) % radix52(),
{
    let w = t0.wrapping_mul(np0);
    assert(w & 0xF_FFFF_FFFF_FFFF == w % 0x10_0000_0000_0000) by (bit_vector);
    let p = t0 as int * np0 as int;
    assert(0 <= p) by (nonlinear_arith)
        requires
            p == t0 as int * np0 as int,
    ;
    assert(w == p % 0x1_0000_0000_0000_0000);
    assert((p % 0x1_0000_0000_0000_0000) % 0x10_0000_0000_0000 == p % 0x10_0000_0000_0000);
    vstd::arithmetic::div_mod::lemma_mul_mod_noop_left(t0 as int, np0 as int, radix52());
    vstd::arithmetic::div_mod::lemma_mul_mod_noop_left(v0, np0 as int, radix52());
}

/// Five rounds leave a Montgomery product: once the limb sums of the last
/// round are resolved, the result satisfies the engines' contract.
proof fn lemma_engine_result(
    a: Seq<u64>,
    b: Seq<u64>,
    n: Seq<u64>,
    np0: int,
    t: Seq<u64>,
    r: Seq<u64>,
)
    requires
        a.len() == 5,
        b.len() == 5,
        n.len() == 5,
        t.len() == 6,
        resolved(a),
        resolved(b),
        resolved(n),
        inverts(n[0] as int, np0),
        forall|k: int| 0 <= k < 5 ==> #[trigger] t[k] == state_after(5, a, b, n, np0)[k],
        t[5] == 0,
        value52(r) == value52(t) % pow52(6),
    ensures
        montgomery_product(value52(r), value52(a), value52(b), value52(n), pow52(5)),
        value52(a) < value52(n) && value52(b) < value52(n) ==> value52(r) < 2 * value52(n),
{
    let s = state_after(5, a, b, n, np0);
    lemma_rounds(5, a, b, n, np0);
    lemma_value52_of6(t);
    lemma_pow52_values();
    assert(t[0] == s[0] && t[1] == s[1] && t[2] == s[2] && t[3] == s[3] && t[4] == s[4]);
    assert(value52(t) == weigh5(s));
    assert(0 <= weigh5(s) < pow52(6));
    vstd::arithmetic::div_mod::lemma_small_mod(weigh5(s) as nat, pow52(6) as nat);
    assert(a.take(5) =~= a);
    assert(n[0] > 0) by {
        if n[0] == 0 {
            assert(0 * np0 == 0);
        }
    }
    crate::limbs::lemma_value52_of5(n);
    lemma_montgomery_from_quotient(
        value52(r),
        value52(a),
        value52(b),
        value52(n),
        pow52(5),
        quotient_after(5, a, b, n, np0),
    );
    lemma_resolved_bound(a);
    lemma_resolved_bound(b);
    lemma_resolved_bound(n);
    lemma_montgomery_bound(value52(r), value52(a), value52(b), value52(n), pow52(5));
}

/// What limb `k` holds before step `j` of the fused loop of a round; limb
/// `j - 1` is vacant then.
spec fn fios_stage(s: Seq<int>, x: int, m: int, b: Seq<u64>, n: Seq<u64>, j: int, k: int) -> int {
    if k + 1 < j {
        round_limb(s, x, m, b, n, k)
    } else if k == j {
        limb_or_zero(s, k) + high_half(x, b[j - 1] as int) + high_half(m, n[j - 1] as int) + (if j
            == 1 {
            round_carry(s, x, m, b, n)
        } else {
            0
        })
    } else {
        limb_or_zero(s, k)
    }
}

/// Finely integrated operand scanning: in each round the products of one digit
/// of `a` with `b` and of the round's digit `m` with `n` are added in one fused
/// pass. The bias of every product half is taken off as it is added.
pub fn fios_opt(a: [u64; 5], b: [u64; 5], n: [u64; 5], np0: u64) -> (r: [u64; 6])
    requires
        resolved(a@),
        resolved(b@),
        resolved(n@),
        inverts(n@[0] as int, np0 as int),
    ensures
        resolved(r@),
        montgomery_product(value52(r@), value52(a@), value52(b@), value52(n@), pow52(5)),
        value52(a@) < value52(n@) && value52(b@) < value52(n@) ==> value52(r@) < 2 * value52(n@),
{
    let mut t: [u64; 6] = [0u64;6];
    for i in 0..5
        invariant
            resolved(a@),
            resolved(b@),
            resolved(n@),
            inverts(n@[0] as int, np0 as int),
            t@[5] == 0,
            forall|k: int|
                0 <= k < 5 ==> #[trigger] t@[k] == state_after(i as nat, a@, b@, n@, np0 as int)[k],
    {
        let ghost s = state_after(i as nat, a@, b@, n@, np0 as int);
        let ghost x = a@[i as int] as int;
        proof {
            lemma_rounds(i as nat, a@, b@, n@, np0 as int);
            lemma_round(s, x, b@, n@, np0 as int, 5 * (i as int) * radix52());
            lemma_halves(x, b@[0] as int);
            assert(t@[0] == s[0] && t@[1] == s[1]);
        }
        let (lo, hi): (u64, u64) = mult(a[i], b[0]);
        t[0] = t[0] + (lo - C3);
        t[1] = t[1] + (hi - C1);
        let m: u64 = t[0].wrapping_mul(np0) & MASK52;
        proof {
            lemma_digit_word(t[0], np0, m, s[0] + low_half(x, b@[0] as int));
            lemma_halves(m as int, n@[0] as int);
        }
        let (lo, hi): (u64, u64) = mult(m, n[0]);
        let low_sum: u64 = t[0] + lo - C3;
        let carry_t0: u64 = low_sum >> 52;
        assert(carry_t0 == low_sum / 0x10_0000_0000_0000) by (bit_vector)
            requires
                carry_t0 == low_sum >> 52,
        ;
        t[1] = t[1] + ((hi - C1) + carry_t0);
        for j in 1..5
            invariant
                i < 5,
                resolved(b@),
                resolved(n@),
                a@[i as int] < radix52(),
                x == a@[i as int],
                m < radix52(),
                s.len() == 5,
                forall|k: int| 0 <= k < 5 ==> 0 <= #[trigger] s[k] <= 20 * radix52(),
                0 <= round_carry(s, x, m as int, b@, n@) <= 22,
                forall|k: int|
                    0 <= k < 6 && k != j - 1 ==> #[trigger] t@[k] == fios_stage(
                        s,
                        x,
                        m as int,
                        b@,
                        n@,
                        j as int,
                        k,
                    ),
        {
            proof {
                lemma_halves(x, b@[j as int] as int);
                lemma_halves(m as int, n@[j as int] as int);
                lemma_halves(x, b@[j - 1] as int);
                lemma_halves(m as int, n@[j - 1] as int);
                assert(t@[j as int] == fios_stage(s, x, m as int, b@, n@, j as int, j as int));
                assert(t@[j + 1] == fios_stage(s, x, m as int, b@, n@, j as int, j + 1));
            }
            let (ab_lo, ab_hi): (u64, u64) = mult(a[i], b[j]);
            let (mn_lo, mn_hi): (u64, u64) = mult(m, n[j]);
            t[j + 1] = t[j + 1] + (ab_hi + mn_hi - 2 * C1);
            t[j - 1] = t[j] + ab_lo + mn_lo - 2 * C3;
        }
        t[4] = t[5];
        t[5] = 0;
        proof {
            let next = state_after((i + 1) as nat, a@, b@, n@, np0 as int);
            assert(next == next_state(s, x, b@, n@, np0 as int));
            assert forall|k: int| 0 <= k < 5 implies #[trigger] t@[k] == next[k] by {
                if k < 4 {
                    assert(t@[k] == fios_stage(s, x, m as int, b@, n@, 5, k));
                }
            }
        }
    }
    proof {
        lemma_rounds(5, a@, b@, n@, np0 as int);
    }
    let r = resolve(t);
    proof {
        lemma_engine_result(a@, b@, n@, np0 as int, t@, r@);
    }
    r
}

/// What limb `k` holds before step `j` of the first pass of a round, which adds
/// the products of the digit `x` with `b`.
spec fn cios_row(s: Seq<int>, x: int, b: Seq<u64>, j: int, k: int) -> int {
    limb_or_zero(s, k) + (if k < j {
        low_half(x, b[k] as int)
    } else {
        0
    }) + (if 1 <= k <= j {
        high_half(x, b[k - 1] as int)
    } else {
        0
    })
}

/// What limb `k` holds before step `j` of the second pass of a round, which
/// adds the products of the digit `m` with `n` and moves every limb down one
/// place; limb `j - 1` is vacant then.
spec fn cios_stage(s: Seq<int>, x: int, m: int, b: Seq<u64>, n: Seq<u64>, j: int, k: int) -> int {
    if k + 1 < j {
        round_limb(s, x, m, b, n, k)
    } else if k == j {
        cios_row(s, x, b, 5, k) + high_half(m, n[j - 1] as int) + (if j == 1 {
            round_carry(s, x, m, b, n)
        } else {
            0
        })
    } else {
        cios_row(s, x, b, 5, k)
    }
}

/// Coarsely integrated operand scanning: each round first adds the products of
/// one digit of `a` with `b`, then the products of the round's digit `m` with
/// `n`, moving the limbs down one place as it goes. The bias of every product
/// half is taken off as it is added.
pub fn cios_opt(a: [u64; 5], b: [u64; 5], n: [u64; 5], np0: u64) -> (r: [u64; 6])
    requires
        resolved(a@),
        resolved(b@),
        resolved(n@),
        inverts(n@[0] as int, np0 as int),
    ensures
        resolved(r@),
        montgomery_product(value52(r@), value52(a@), value52(b@), value52(n@), pow52(5)),
        value52(a@) < value52(n@) && value52(b@) < value52(n@) ==> value52(r@) < 2 * value52(n@),
{
    let mut t: [u64; 6] = [0u64;6];
    for i in 0..5
        invariant
            resolved(a@),
            resolved(b@),
            resolved(n@),
            inverts(n@[0] as int, np0 as int),
            t@[5] == 0,
            forall|k: int|
                0 <= k < 5 ==> #[trigger] t@[k] == state_after(i as nat, a@, b@, n@, np0 as int)[k],
    {
        let ghost s = state_after(i as nat, a@, b@, n@, np0 as int);
        let ghost x = a@[i as int] as int;
        proof {
            lemma_rounds(i as nat, a@, b@, n@, np0 as int);
            lemma_round(s, x, b@, n@, np0 as int, 5 * (i as int) * radix52());
        }
        for j in 0..5
            invariant
                i < 5,
                resolved(b@),
                a@[i as int] < radix52(),
                x == a@[i as int],
                s.len() == 5,
                forall|k: int| 0 <= k < 5 ==> 0 <= #[trigger] s[k] <= 20 * radix52(),
                forall|k: int| 0 <= k < 6 ==> #[trigger] t@[k] == cios_row(s, x, b@, j as int, k),
        {
            proof {
                lemma_halves(x, b@[j as int] as int);
                if j > 0 {
                    lemma_halves(x, b@[j - 1] as int);
                }
                assert(t@[j as int] == cios_row(s, x, b@, j as int, j as int));
                assert(t@[j + 1] == cios_row(s, x, b@, j as int, j + 1));
            }
            let (lo, hi): (u64, u64) = mult(a[i], b[j]);
            t[j + 1] = t[j + 1] + (hi - C1);
            t[j] = t[j] + (lo - C3);
        }
        proof {
            lemma_halves(x, b@[0] as int);
            lemma_halves(x, b@[1] as int);
            assert(t@[0] == cios_row(s, x, b@, 5, 0));
            assert(t@[1] == cios_row(s, x, b@, 5, 1));
        }
        let m: u64 = t[0].wrapping_mul(np0) & MASK52;
        proof {
            lemma_digit_word(t[0], np0, m, s[0] + low_half(x, b@[0] as int));
            lemma_halves(m as int, n@[0] as int);
        }
        let (lo, hi): (u64, u64) = mult(m, n[0]);
        t[0] = t[0] + (lo - C3);
        let low_sum: u64 = t[0];
        let carry: u64 = low_sum >> 52;
        assert(carry == low_sum / 0x10_0000_0000_0000) by (bit_vector)
            requires
                carry == low_sum >> 52,
        ;
        t[1] = t[1] + ((hi - C1) + carry);
        for j in 1..5
            invariant
                i < 5,
                resolved(b@),
                resolved(n@),
                a@[i as int] < radix52(),
                x == a@[i as int],
                m < radix52(),
                s.len() == 5,
                forall|k: int| 0 <= k < 5 ==> 0 <= #[trigger] s[k] <= 20 * radix52(),
                0 <= round_carry(s, x, m as int, b@, n@) <= 22,
                forall|k: int|
                    0 <= k < 6 && k != j - 1 ==> #[trigger] t@[k] == cios_stage(
                        s,
                        x,
                        m as int,
                        b@,
                        n@,
                        j as int,
                        k,
                    ),
        {
            proof {
                lemma_halves(x, b@[j as int] as int);
                lemma_halves(x, b@[j - 1] as int);
                lemma_halves(m as int, n@[j as int] as int);
                lemma_halves(m as int, n@[j - 1] as int);
                if j < 4 {
                    lemma_halves(x, b@[j + 1] as int);
                }
                assert(t@[j as int] == cios_stage(s, x, m as int, b@, n@, j as int, j as int));
                assert(t@[j + 1] == cios_stage(s, x, m as int, b@, n@, j as int, j + 1));
            }
            let (lo, hi): (u64, u64) = mult(m, n[j]);
            t[j + 1] = t[j + 1] + (hi - C1);
            t[j - 1] = t[j] + (lo - C3);
        }
        t[4] = t[5];
        t[5] = 0;
        proof {
            let next = state_after((i + 1) as nat, a@, b@, n@, np0 as int);
            assert(next == next_state(s, x, b@, n@, np0 as int));
            assert forall|k: int| 0 <= k < 5 implies #[trigger] t@[k] == next[k] by {
                if k < 4 {
                    assert(t@[k] == cios_stage(s, x, m as int, b@, n@, 5, k));
                }
            }
        }
    }
    proof {
        lemma_rounds(5, a@, b@, n@, np0 as int);
    }
    let r = resolve(t);
    proof {
        lemma_engine_result(a@, b@, n@, np0 as int, t@, r@);
    }
    r
}

/// The bias that limb `k` still awaits at the start of round `i`. Limb 5 is the
/// scratch limb, seeded anew in every round.
spec fn round_weight(i: int, k: int) -> int {
    if k == 5 {
        bias_weight(8 - 2 * i, 10 - 2 * i)
    } else if k + i <= 4 {
        bias_weight(2 + 2 * k, 2 * k)
    } else {
        bias_weight(10 - 2 * i, 10 - 2 * i)
    }
}

/// The bias that limb `k` awaits before step `j` of the fused loop of round `i`.
spec fn fios_stage_weight(i: int, j: int, k: int) -> int {
    if k + 1 < j {
        round_weight(i + 1, k)
    } else if k == j {
        round_weight(i, k) - 2 * 0x467
    } else {
        round_weight(i, k)
    }
}

/// The fused schedule of [`fios_opt`] on accumulators that are seeded with the
/// negated bias of all the product halves they will receive, so that the
/// halves are added as they come, with wrap-around.
pub fn fios_opt_sub(a: [u64; 5], b: [u64; 5], n: [u64; 5], np0: u64) -> (r: [u64; 6])
    requires
        resolved(a@),
        resolved(b@),
        resolved(n@),
        inverts(n@[0] as int, np0 as int),
    ensures
        resolved(r@),
        montgomery_product(value52(r@), value52(a@), value52(b@), value52(n@), pow52(5)),
        value52(a@) < value52(n@) && value52(b@) < value52(n@) ==> value52(r@) < 2 * value52(n@),
{
    let mut t: [u64; 6] = [0u64;6];
    for i in 0..5
        invariant
            forall|k: int| 0 <= k < i ==> biased(#[trigger] t@[k], 0, round_weight(0, k)),
    {
        t[i] = make_initial(2 + 2 * i, 2 * i);
        proof {
            lemma_seed_is_biased(2 + 2 * i, 2 * i);
        }
    }
    for i in 0..5
        invariant
            resolved(a@),
            resolved(b@),
            resolved(n@),
            inverts(n@[0] as int, np0 as int),
            forall|k: int|
                0 <= k < 5 ==> biased(
                    #[trigger] t@[k],
                    state_after(i as nat, a@, b@, n@, np0 as int)[k],
                    round_weight(i as int, k),
                ),
    {
        let ghost s = state_after(i as nat, a@, b@, n@, np0 as int);
        let ghost x = a@[i as int] as int;
        proof {
            lemma_rounds(i as nat, a@, b@, n@, np0 as int);
            lemma_round(s, x, b@, n@, np0 as int, 5 * (i as int) * radix52());
            lemma_halves(x, b@[0] as int);
            lemma_seed_is_biased(2 * (4 - i), 2 * (5 - i));
        }
        t[5] = make_initial(2 * (4 - i), 2 * (5 - i));
        let (lo, hi): (u64, u64) = mult(a[i], b[0]);
        proof {
            lemma_biased_add(
                t[0],
                lo,
                s[0],
                round_weight(i as int, 0),
                low_half(x, b@[0] as int),
                0x433,
            );
            lemma_biased_add(
                t[1],
                hi,
                s[1],
                round_weight(i as int, 1),
                high_half(x, b@[0] as int),
                0x467,
            );
        }
        t[0] = t[0].wrapping_add(lo);
        t[1] = t[1].wrapping_add(hi);
        let m: u64 = t[0].wrapping_mul(np0) & MASK52;
        proof {
            lemma_biased_low_bits(
                t[0],
                s[0] + low_half(x, b@[0] as int),
                round_weight(i as int, 0) - 0x433,
            );
            lemma_digit_word(t[0], np0, m, s[0] + low_half(x, b@[0] as int));
            lemma_halves(m as int, n@[0] as int);
        }
        let (lo, hi): (u64, u64) = mult(m, n[0]);
        let low_sum: u64 = t[0].wrapping_add(lo);
        proof {
            lemma_biased_add(
                t[0],
                lo,
                s[0] + low_half(x, b@[0] as int),
                round_weight(i as int, 0) - 0x433,
                low_half(m as int, n@[0] as int),
                0x433,
            );
            lemma_biased_exact(
                low_sum,
                s[0] + low_half(x, b@[0] as int) + low_half(m as int, n@[0] as int),
            );
        }
        let carry_t0: u64 = low_sum >> 52;
        assert(carry_t0 == low_sum / 0x10_0000_0000_0000) by (bit_vector)
            requires
                carry_t0 == low_sum >> 52,
        ;
        proof {
            lemma_biased_add(
                t[1],
                (hi + carry_t0) as u64,
                s[1] + high_half(x, b@[0] as int),
                round_weight(i as int, 1) - 0x467,
                high_half(m as int, n@[0] as int) + carry_t0,
                0x467,
            );
        }
        t[1] = t[1].wrapping_add(hi + carry_t0);
        for j in 1..5
            invariant
                i < 5,
                resolved(b@),
                resolved(n@),
                a@[i as int] < radix52(),
                x == a@[i as int],
                m < radix52(),
                s.len() == 5,
                forall|k: int|
                    0 <= k < 6 && k != j - 1 ==> biased(
                        #[trigger] t@[k],
                        fios_stage(s, x, m as int, b@, n@, j as int, k),
                        fios_stage_weight(i as int, j as int, k),
                    ),
        {
            let (ab_lo, ab_hi): (u64, u64) = mult(a[i], b[j]);
            let (mn_lo, mn_hi): (u64, u64) = mult(m, n[j]);
            proof {
                lemma_halves(x, b@[j as int] as int);
                lemma_halves(m as int, n@[j as int] as int);
                lemma_biased_add(
                    t[j + 1],
                    (ab_hi + mn_hi) as u64,
                    fios_stage(s, x, m as int, b@, n@, j as int, j + 1),
                    fios_stage_weight(i as int, j as int, j + 1),
                    high_half(x, b@[j as int] as int) + high_half(m as int, n@[j as int] as int),
                    0x8ce,
                );
                lemma_biased_add(
                    t[j as int],
                    (ab_lo + mn_lo) as u64,
                    fios_stage(s, x, m as int, b@, n@, j as int, j as int),
                    fios_stage_weight(i as int, j as int, j as int),
                    low_half(x, b@[j as int] as int) + low_half(m as int, n@[j as int] as int),
                    0x866,
                );
            }
            t[j + 1] = t[j + 1].wrapping_add(ab_hi + mn_hi);
            t[j - 1] = t[j].wrapping_add(ab_lo + mn_lo);
        }
        t[4] = t[5];
        proof {
            let next = state_after((i + 1) as nat, a@, b@, n@, np0 as int);
            assert(next == next_state(s, x, b@, n@, np0 as int));
            assert forall|k: int| 0 <= k < 5 implies biased(
                #[trigger] t@[k],
                next[k],
                round_weight(i + 1, k),
            ) by {
                if k < 4 {
                    assert(fios_stage(s, x, m as int, b@, n@, 5, k) == next[k]);
                } else {
                    assert(fios_stage(s, x, m as int, b@, n@, 5, 5) == next[4]);
                }
            }
        }
    }
    t[5] = 0;
    proof {
        lemma_rounds(5, a@, b@, n@, np0 as int);
        let last = state_after(5, a@, b@, n@, np0 as int);
        assert forall|k: int| 0 <= k < 5 implies #[trigger] t@[k] == last[k] by {
            lemma_biased_exact(t@[k], last[k]);
        }
    }
    let r = resolve(t);
    proof {
        lemma_engine_result(a@, b@, n@, np0 as int, t@, r@);
    }
    r
}

/// The bias that limb `k` awaits before step `j` of the first pass of round `i`.
spec fn cios_row_weight(i: int, j: int, k: int) -> int {
    round_weight(i, k) - (if k < j {
        0x433int
    } else {
        0
    }) - (if 1 <= k <= j {
        0x467int
    } else {
        0
    })
}

/// The bias that limb `k` awaits before step `j` of the second pass of round `i`.
spec fn cios_stage_weight(i: int, j: int, k: int) -> int {
    if k + 1 < j {
        round_weight(i + 1, k)
    } else if k == j {
        cios_row_weight(i, 5, k) - 0x467
    } else {
        cios_row_weight(i, 5, k)
    }
}

/// The two-pass schedule of [`cios_opt`] on accumulators that are seeded with
/// the negated bias of all the product halves they will receive, so that the
/// halves are added as they come, with wrap-around.
pub fn cios_opt_sub(a: [u64; 5], b: [u64; 5], n: [u64; 5], np0: u64) -> (r: [u64; 6])
    requires
        resolved(a@),
        resolved(b@),
        resolved(n@),
        inverts(n@[0] as int, np0 as int),
    ensures
        resolved(r@),
        montgomery_product(value52(r@), value52(a@), value52(b@), value52(n@), pow52(5)),
        value52(a@) < value52(n@) && value52(b@) < value52(n@) ==> value52(r@) < 2 * value52(n@),
{
    let mut t: [u64; 6] = [0u64;6];
    for i in 0..5
        invariant
            forall|k: int| 0 <= k < i ==> biased(#[trigger] t@[k], 0, round_weight(0, k)),
    {
        t[i] = make_initial(2 + 2 * i, 2 * i);
        proof {
            lemma_seed_is_biased(2 + 2 * i, 2 * i);
        }
    }
    for i in 0..5
        invariant
            resolved(a@),
            resolved(b@),
            resolved(n@),
            inverts(n@[0] as int, np0 as int),
            forall|k: int|
                0 <= k < 5 ==> biased(
                    #[trigger] t@[k],
                    state_after(i as nat, a@, b@, n@, np0 as int)[k],
                    round_weight(i as int, k),
                ),
    {
        let ghost s = state_after(i as nat, a@, b@, n@, np0 as int);
        let ghost x = a@[i as int] as int;
        proof {
            lemma_rounds(i as nat, a@, b@, n@, np0 as int);
            lemma_round(s, x, b@, n@, np0 as int, 5 * (i as int) * radix52());
            lemma_seed_is_biased(10 - 2 - 2 * i, 10 - 2 * i);
        }
        t[5] = make_initial(10 - 2 - 2 * i, 10 - 2 * i);
        for j in 0..5
            invariant
                i < 5,
                resolved(b@),
                a@[i as int] < radix52(),
                x == a@[i as int],
                s.len() == 5,
                forall|k: int|
                    0 <= k < 6 ==> biased(
                        #[trigger] t@[k],
                        cios_row(s, x, b@, j as int, k),
                        cios_row_weight(i as int, j as int, k),
                    ),
        {
            let (lo, hi): (u64, u64) = mult(a[i], b[j]);
            proof {
                lemma_biased_add(
                    t[j + 1],
                    hi,
                    cios_row(s, x, b@, j as int, j + 1),
                    cios_row_weight(i as int, j as int, j + 1),
                    high_half(x, b@[j as int] as int),
                    0x467,
                );
                lemma_biased_add(
                    t[j as int],
                    lo,
                    cios_row(s, x, b@, j as int, j as int),
                    cios_row_weight(i as int, j as int, j as int),
                    low_half(x, b@[j as int] as int),
                    0x433,
                );
            }
            t[j + 1] = t[j + 1].wrapping_add(hi);
            t[j] = t[j].wrapping_add(lo);
        }
        let m: u64 = t[0].wrapping_mul(np0) & MASK52;
        proof {
            lemma_halves(x, b@[0] as int);
            lemma_biased_low_bits(
                t[0],
                cios_row(s, x, b@, 5, 0),
                cios_row_weight(i as int, 5, 0),
            );
            lemma_digit_word(t[0], np0, m, s[0] + low_half(x, b@[0] as int));
            lemma_halves(m as int, n@[0] as int);
        }
        let (lo, hi): (u64, u64) = mult(m, n[0]);
        proof {
            lemma_biased_add(
                t[0],
                lo,
                cios_row(s, x, b@, 5, 0),
                cios_row_weight(i as int, 5, 0),
                low_half(m as int, n@[0] as int),
                0x433,
            );
        }
        t[0] = t[0].wrapping_add(lo);
        proof {
            lemma_biased_exact(
                t[0],
                s[0] + low_half(x, b@[0] as int) + low_half(m as int, n@[0] as int),
            );
        }
        let low_sum: u64 = t[0];
        let carry: u64 = low_sum >> 52;
        assert(carry == low_sum / 0x10_0000_0000_0000) by (bit_vector)
            requires
                carry == low_sum >> 52,
        ;
        proof {
            lemma_biased_add(
                t[1],
                (hi + carry) as u64,
                cios_row(s, x, b@, 5, 1),
                cios_row_weight(i as int, 5, 1),
                high_half(m as int, n@[0] as int) + carry,
                0x467,
            );
        }
        t[1] = t[1].wrapping_add(hi + carry);
        for j in 1..5
            invariant
                i < 5,
                resolved(b@),
                resolved(n@),
                a@[i as int] < radix52(),
                x == a@[i as int],
                m < radix52(),
                s.len() == 5,
                forall|k: int|
                    0 <= k < 6 && k != j - 1 ==> biased(
                        #[trigger] t@[k],
                        cios_stage(s, x, m as int, b@, n@, j as int, k),
                        cios_stage_weight(i as int, j as int, k),
                    ),
        {
            let (lo, hi): (u64, u64) = mult(m, n[j]);
            proof {
                lemma_biased_add(
                    t[j + 1],
                    hi,
                    cios_stage(s, x, m as int, b@, n@, j as int, j + 1),
                    cios_stage_weight(i as int, j as int, j + 1),
                    high_half(m as int, n@[j as int] as int),
                    0x467,
                );
                lemma_biased_add(
                    t[j as int],
                    lo,
                    cios_stage(s, x, m as int, b@, n@, j as int, j as int),
                    cios_stage_weight(i as int, j as int, j as int),
                    low_half(m as int, n@[j as int] as int),
                    0x433,
                );
            }
            t[j + 1] = t[j + 1].wrapping_add(hi);
            t[j - 1] = t[j].wrapping_add(lo);
        }
        t[4] = t[5];
        proof {
            let next = state_after((i + 1) as nat, a@, b@, n@, np0 as int);
            assert(next == next_state(s, x, b@, n@, np0 as int));
            assert forall|k: int| 0 <= k < 5 implies biased(
                #[trigger] t@[k],
                next[k],
                round_weight(i + 1, k),
            ) by {
                if k < 4 {
                    assert(cios_stage(s, x, m as int, b@, n@, 5, k) == next[k]);
                } else {
                    assert(cios_stage(s, x, m as int, b@, n@, 5, 5) == next[4]);
                }
            }
        }
    }
    t[5] = 0;
    proof {
        lemma_rounds(5, a@, b@, n@, np0 as int);
        let last = state_after(5, a@, b@, n@, np0 as int);
        assert forall|k: int| 0 <= k < 5 implies #[trigger] t@[k] == last[k] by {
            lemma_biased_exact(t@[k], last[k]);
        }
    }
    let r = resolve(t);
    proof {
        lemma_engine_result(a@, b@, n@, np0 as int, t@, r@);
    }
    r
}

/// What one lane of the paired accumulators holds at the start of round `i`.
spec fn lane_round(
    t: Seq<Lanes>,
    l: int,
    a: Seq<u64>,
    b: Seq<u64>,
    n: Seq<u64>,
    np0: int,
    i: int,
) -> bool {
    forall|k: int|
        0 <= k < 5 ==> biased(
            (#[trigger] t[k])@[l],
            state_after(i as nat, a, b, n, np0)[k],
            round_weight(i, k),
        )
}

/// What one lane of the paired accumulators holds before step `j` of the
/// fused loop of round `i`.
spec fn lane_stage(
    t: Seq<Lanes>,
    l: int,
    s: Seq<int>,
    x: int,
    m: int,
    b: Seq<u64>,
    n: Seq<u64>,
    i: int,
    j: int,
) -> bool {
    forall|k: int|
        0 <= k < 6 && k != j - 1 ==> biased(
            (#[trigger] t[k])@[l],
            fios_stage(s, x, m, b, n, j, k),
            fios_stage_weight(i, j, k),
        )
}

/// The start of a round in one lane: the scratch limb is seeded, the first
/// product is in, the digit of the round is chosen and the lowest limb has
/// handed its carry up.
proof fn lemma_lane_start(
    before: Seq<Lanes>,
    after: Seq<Lanes>,
    l: int,
    a: Seq<u64>,
    b: Seq<u64>,
    n: Seq<u64>,
    np0: u64,
    i: int,
    seed: u64,
    first: (u64, u64),
    lowest: u64,
    m: u64,
    second: (u64, u64),
    low_sum: u64,
    carry: u64,
)
    requires
        0 <= l < 2,
        0 <= i < 5,
        a.len() == 5,
        b.len() == 5,
        n.len() == 5,
        resolved(a),
        resolved(b),
        resolved(n),
        inverts(n[0] as int, np0 as int),
        before.len() == 6,
        after.len() == 6,
        lane_round(before, l, a, b, n, np0 as int, i),
        seed == crate::kernel::initial_constant(2 * (4 - i), 2 * (5 - i)),
        first.0 == C3 + low_half(a[i] as int, b[0] as int),
        first.1 == C1 + high_half(a[i] as int, b[0] as int),
        lowest == before[0]@[l].wrapping_add(first.0),
        m == lowest.wrapping_mul(np0) & MASK52,
        second.0 == C3 + low_half(m as int, n[0] as int),
        second.1 == C1 + high_half(m as int, n[0] as int),
        low_sum == lowest.wrapping_add(second.0),
        carry == low_sum / 0x10_0000_0000_0000,
        second.1 + carry <= u64::MAX,
        after[1]@[l] == before[1]@[l].wrapping_add(first.1).wrapping_add(
            (second.1 + carry) as u64,
        ),
        after[5]@[l] == seed,
        forall|k: int| 2 <= k < 5 ==> (#[trigger] after[k])@[l] == before[k]@[l],
    ensures
        m < radix52(),
        m == round_digit(state_after(i as nat, a, b, n, np0 as int), a[i] as int, b, np0 as int),
        lane_stage(
            after,
            l,
            state_after(i as nat, a, b, n, np0 as int),
            a[i] as int,
            m as int,
            b,
            n,
            i,
            1,
        ),
{
    let s = state_after(i as nat, a, b, n, np0 as int);
    let x = a[i] as int;
    lemma_rounds(i as nat, a, b, n, np0 as int);
    lemma_round(s, x, b, n, np0 as int, 5 * i * radix52());
    lemma_halves(x, b[0] as int);
    lemma_seed_is_biased(2 * (4 - i), 2 * (5 - i));
    assert(biased(before[0]@[l], s[0], round_weight(i, 0)));
    assert(biased(before[1]@[l], s[1], round_weight(i, 1)));
    lemma_biased_add(
        before[0]@[l],
        first.0,
        s[0],
        round_weight(i, 0),
        low_half(x, b[0] as int),
        0x433,
    );
    lemma_biased_add(
        before[1]@[l],
        first.1,
        s[1],
        round_weight(i, 1),
        high_half(x, b[0] as int),
        0x467,
    );
    lemma_biased_low_bits(lowest, s[0] + low_half(x, b[0] as int), round_weight(i, 0) - 0x433);
    lemma_digit_word(lowest, np0, m, s[0] + low_half(x, b[0] as int));
    lemma_halves(m as int, n[0] as int);
    lemma_biased_add(
        lowest,
        second.0,
        s[0] + low_half(x, b[0] as int),
        round_weight(i, 0) - 0x433,
        low_half(m as int, n[0] as int),
        0x433,
    );
    lemma_biased_exact(
        low_sum,
        s[0] + low_half(x, b[0] as int) + low_half(m as int, n[0] as int),
    );
    lemma_biased_add(
        before[1]@[l].wrapping_add(first.1),
        (second.1 + carry) as u64,
        s[1] + high_half(x, b[0] as int),
        round_weight(i, 1) - 0x467,
        high_half(m as int, n[0] as int) + carry,
        0x467,
    );
    assert forall|k: int| 0 <= k < 6 && k != 0 implies biased(
        (#[trigger] after[k])@[l],
        fios_stage(s, x, m as int, b, n, 1, k),
        fios_stage_weight(i, 1, k),
    ) by {
        if 2 <= k < 5 {
            assert(biased(before[k]@[l], s[k], round_weight(i, k)));
        }
    }
}

/// One step of the fused loop in one lane.
proof fn lemma_lane_step(
    before: Seq<Lanes>,
    after: Seq<Lanes>,
    l: int,
    s: Seq<int>,
    x: u64,
    m: u64,
    b: Seq<u64>,
    n: Seq<u64>,
    i: int,
    j: int,
    ab: (u64, u64),
    mn: (u64, u64),
)
    requires
        0 <= l < 2,
        1 <= j < 5,
        b.len() == 5,
        n.len() == 5,
        resolved(b),
        resolved(n),
        x < radix52(),
        m < radix52(),
        before.len() == 6,
        after.len() == 6,
        lane_stage(before, l, s, x as int, m as int, b, n, i, j),
        ab.0 == C3 + low_half(x as int, b[j] as int),
        ab.1 == C1 + high_half(x as int, b[j] as int),
        mn.0 == C3 + low_half(m as int, n[j] as int),
        mn.1 == C1 + high_half(m as int, n[j] as int),
        after[j + 1]@[l] == before[j + 1]@[l].wrapping_add((ab.1 + mn.1) as u64),
        after[j - 1]@[l] == before[j]@[l].wrapping_add((ab.0 + mn.0) as u64),
        forall|k: int|
            0 <= k < 6 && k != j + 1 && k != j - 1 ==> (#[trigger] after[k])@[l] == before[k]@[l],
    ensures
        lane_stage(after, l, s, x as int, m as int, b, n, i, j + 1),
{
    lemma_halves(x as int, b[j] as int);
    lemma_halves(m as int, n[j] as int);
    assert(biased(
        before[j + 1]@[l],
        fios_stage(s, x as int, m as int, b, n, j, j + 1),
        fios_stage_weight(i, j, j + 1),
    ));
    assert(biased(
        before[j]@[l],
        fios_stage(s, x as int, m as int, b, n, j, j),
        fios_stage_weight(i, j, j),
    ));
    lemma_biased_add(
        before[j + 1]@[l],
        (ab.1 + mn.1) as u64,
        fios_stage(s, x as int, m as int, b, n, j, j + 1),
        fios_stage_weight(i, j, j + 1),
        high_half(x as int, b[j] as int) + high_half(m as int, n[j] as int),
        0x8ce,
    );
    lemma_biased_add(
        before[j]@[l],
        (ab.0 + mn.0) as u64,
        fios_stage(s, x as int, m as int, b, n, j, j),
        fios_stage_weight(i, j, j),
        low_half(x as int, b[j] as int) + low_half(m as int, n[j] as int),
        0x866,
    );
    assert forall|k: int| 0 <= k < 6 && k != j implies biased(
        (#[trigger] after[k])@[l],
        fios_stage(s, x as int, m as int, b, n, j + 1, k),
        fios_stage_weight(i, j + 1, k),
    ) by {
        if k != j + 1 && k != j - 1 {
            assert(biased(
                before[k]@[l],
                fios_stage(s, x as int, m as int, b, n, j, k),
                fios_stage_weight(i, j, k),
            ));
        }
    }
}

/// The end of a round in one lane: the scratch limb becomes limb four.
proof fn lemma_lane_end(
    before: Seq<Lanes>,
    after: Seq<Lanes>,
    l: int,
    a: Seq<u64>,
    b: Seq<u64>,
    n: Seq<u64>,
    np0: int,
    i: int,
    m: int,
)
    requires
        0 <= l < 2,
        0 <= i < 5,
        before.len() == 6,
        after.len() == 6,
        m == round_digit(state_after(i as nat, a, b, n, np0), a[i] as int, b, np0),
        lane_stage(before, l, state_after(i as nat, a, b, n, np0), a[i] as int, m, b, n, i, 5),
        after[4]@[l] == before[5]@[l],
        forall|k: int| 0 <= k < 4 ==> (#[trigger] after[k])@[l] == before[k]@[l],
    ensures
        lane_round(after, l, a, b, n, np0, i + 1),
{
    let s = state_after(i as nat, a, b, n, np0);
    let x = a[i] as int;
    let next = state_after((i + 1) as nat, a, b, n, np0);
    assert(next == next_state(s, x, b, n, np0));
    assert forall|k: int| 0 <= k < 5 implies biased(
        (#[trigger] after[k])@[l],
        next[k],
        round_weight(i + 1, k),
    ) by {
        if k < 4 {
            assert(biased(
                before[k]@[l],
                fios_stage(s, x, m, b, n, 5, k),
                fios_stage_weight(i, 5, k),
            ));
            assert(fios_stage(s, x, m, b, n, 5, k) == next[k]);
        } else {
            assert(biased(
                before[5]@[l],
                fios_stage(s, x, m, b, n, 5, 5),
                fios_stage_weight(i, 5, 5),
            ));
            assert(fios_stage(s, x, m, b, n, 5, 5) == next[4]);
        }
    }
}

/// Two multiplications by [`fios_opt_sub`] side by side: lane `l` of the
/// result is what [`fios_opt_sub`] returns for the factors in lane `l` of `a`
/// and `b`.
pub fn fios_opt_sub_simd(a: [Lanes; 5], b: [Lanes; 5], n: [u64; 5], np0: u64) -> (r: [Lanes; 6])
    requires
        resolved(lane(a@, 0)),
        resolved(lane(a@, 1)),
        resolved(lane(b@, 0)),
        resolved(lane(b@, 1)),
        resolved(n@),
        inverts(n@[0] as int, np0 as int),
    ensures
        resolved(lane(r@, 0)),
        resolved(lane(r@, 1)),
        montgomery_product(
            value52(lane(r@, 0)),
            value52(lane(a@, 0)),
            value52(lane(b@, 0)),
            value52(n@),
            pow52(5),
        ),
        montgomery_product(
            value52(lane(r@, 1)),
            value52(lane(a@, 1)),
            value52(lane(b@, 1)),
            value52(n@),
            pow52(5),
        ),
        value52(lane(a@, 0)) < value52(n@) && value52(lane(b@, 0)) < value52(n@) ==> value52(
            lane(r@, 0),
        ) < 2 * value52(n@),
        value52(lane(a@, 1)) < value52(n@) && value52(lane(b@, 1)) < value52(n@) ==> value52(
            lane(r@, 1),
        ) < 2 * value52(n@),
{
    let ghost a0 = lane(a@, 0);
    let ghost a1 = lane(a@, 1);
    let ghost b0 = lane(b@, 0);
    let ghost b1 = lane(b@, 1);
    let mut t: [Lanes; 6] = [[0u64, 0u64];6];
    for i in 0..5
        invariant
            forall|k: int|
                0 <= k < i ==> biased((#[trigger] t@[k])@[0], 0, round_weight(0, k)) && biased(
                    t@[k]@[1],
                    0,
                    round_weight(0, k),
                ),
    {
        t[i] = splat(make_initial(2 + 2 * i, 2 * i));
        proof {
            lemma_seed_is_biased(2 + 2 * i, 2 * i);
        }
    }
    for i in 0..5
        invariant
            a0 == lane(a@, 0),
            a1 == lane(a@, 1),
            b0 == lane(b@, 0),
            b1 == lane(b@, 1),
            resolved(a0),
            resolved(a1),
            resolved(b0),
            resolved(b1),
            resolved(n@),
            inverts(n@[0] as int, np0 as int),
            lane_round(t@, 0, a0, b0, n@, np0 as int, i as int),
            lane_round(t@, 1, a1, b1, n@, np0 as int, i as int),
    {
        let ghost start = t@;
        let ghost s0 = state_after(i as nat, a0, b0, n@, np0 as int);
        let ghost s1 = state_after(i as nat, a1, b1, n@, np0 as int);
        proof {
            assert(a0[i as int] < radix52() && a1[i as int] < radix52());
            assert(b0[0] < radix52() && b1[0] < radix52());
            lemma_halves(a0[i as int] as int, b0[0] as int);
            lemma_halves(a1[i as int] as int, b1[0] as int);
        }
        t[5] = splat(make_initial(2 * (4 - i), 2 * (5 - i)));
        let first0: (u64, u64) = mult(a[i][0], b[0][0]);
        let first1: (u64, u64) = mult(a[i][1], b[0][1]);
        t[0] = lanes_add(t[0], [first0.0, first1.0]);
        t[1] = lanes_add(t[1], [first0.1, first1.1]);
        let ghost lowest = t@[0];
        let m: Lanes = lanes_low52(lanes_mul(t[0], np0));
        let second0: (u64, u64) = mult(m[0], n[0]);
        let second1: (u64, u64) = mult(m[1], n[0]);
        let low_sum: Lanes = lanes_add(t[0], [second0.0, second1.0]);
        let carry: Lanes = lanes_high52(low_sum);
        proof {
            lemma_halves(m@[0] as int, n@[0] as int);
            lemma_halves(m@[1] as int, n@[0] as int);
        }
        t[1] = lanes_add(t[1], [second0.1 + carry[0], second1.1 + carry[1]]);
        proof {
            lemma_lane_start(
                start,
                t@,
                0,
                a0,
                b0,
                n@,
                np0,
                i as int,
                t@[5]@[0],
                first0,
                lowest@[0],
                m@[0],
                second0,
                low_sum@[0],
                carry@[0],
            );
            lemma_lane_start(
                start,
                t@,
                1,
                a1,
                b1,
                n@,
                np0,
                i as int,
                t@[5]@[1],
                first1,
                lowest@[1],
                m@[1],
                second1,
                low_sum@[1],
                carry@[1],
            );
        }
        for j in 1..5
            invariant
                i < 5,
                a0 == lane(a@, 0),
                a1 == lane(a@, 1),
                b0 == lane(b@, 0),
                b1 == lane(b@, 1),
                resolved(a0),
                resolved(a1),
                resolved(b0),
                resolved(b1),
                resolved(n@),
                m@[0] < radix52(),
                m@[1] < radix52(),
                lane_stage(
                    t@,
                    0,
                    s0,
                    a0[i as int] as int,
                    m@[0] as int,
                    b0,
                    n@,
                    i as int,
                    j as int,
                ),
                lane_stage(
                    t@,
                    1,
                    s1,
                    a1[i as int] as int,
                    m@[1] as int,
                    b1,
                    n@,
                    i as int,
                    j as int,
                ),
        {
            let ghost before = t@;
            proof {
                assert(a0[i as int] < radix52() && a1[i as int] < radix52());
                assert(b0[j as int] < radix52() && b1[j as int] < radix52());
                lemma_halves(a0[i as int] as int, b0[j as int] as int);
                lemma_halves(a1[i as int] as int, b1[j as int] as int);
                lemma_halves(m@[0] as int, n@[j as int] as int);
                lemma_halves(m@[1] as int, n@[j as int] as int);
            }
            let ab0: (u64, u64) = mult(a[i][0], b[j][0]);
            let ab1: (u64, u64) = mult(a[i][1], b[j][1]);
            let mn0: (u64, u64) = mult(m[0], n[j]);
            let mn1: (u64, u64) = mult(m[1], n[j]);
            t[j + 1] = lanes_add(t[j + 1], [ab0.1 + mn0.1, ab1.1 + mn1.1]);
            t[j - 1] = lanes_add(t[j], [ab0.0 + mn0.0, ab1.0 + mn1.0]);
            proof {
                lemma_lane_step(
                    before,
                    t@,
                    0,
                    s0,
                    a0[i as int],
                    m@[0],
                    b0,
                    n@,
                    i as int,
                    j as int,
                    ab0,
                    mn0,
                );
                lemma_lane_step(
                    before,
                    t@,
                    1,
                    s1,
                    a1[i as int],
                    m@[1],
                    b1,
                    n@,
                    i as int,
                    j as int,
                    ab1,
                    mn1,
                );
            }
        }
        let ghost fused = t@;
        t[4] = t[5];
        proof {
            lemma_lane_end(fused, t@, 0, a0, b0, n@, np0 as int, i as int, m@[0] as int);
            lemma_lane_end(fused, t@, 1, a1, b1, n@, np0 as int, i as int, m@[1] as int);
        }
    }
    t[5] = splat(0);
    let first: [u64; 6] = [t[0][0], t[1][0], t[2][0], t[3][0], t[4][0], t[5][0]];
    let second: [u64; 6] = [t[0][1], t[1][1], t[2][1], t[3][1], t[4][1], t[5][1]];
    proof {
        lemma_rounds(5, a0, b0, n@, np0 as int);
        lemma_rounds(5, a1, b1, n@, np0 as int);
        let last0 = state_after(5, a0, b0, n@, np0 as int);
        let last1 = state_after(5, a1, b1, n@, np0 as int);
        assert forall|k: int| 0 <= k < 5 implies #[trigger] first@[k] == last0[k] by {
            assert(biased(t@[k]@[0], last0[k], round_weight(5, k)));
            lemma_biased_exact(first@[k], last0[k]);
        }
        assert forall|k: int| 0 <= k < 5 implies #[trigger] second@[k] == last1[k] by {
            assert(biased(t@[k]@[1], last1[k], round_weight(5, k)));
            lemma_biased_exact(second@[k], last1[k]);
        }
    }
    let x = resolve(first);
    let y = resolve(second);
    let r: [Lanes; 6] = [
        [x[0], y[0]],
        [x[1], y[1]],
        [x[2], y[2]],
        [x[3], y[3]],
        [x[4], y[4]],
        [x[5], y[5]],
    ];
    proof {
        lemma_engine_result(a0, b0, n@, np0 as int, first@, x@);
        lemma_engine_result(a1, b1, n@, np0 as int, second@, y@);
        assert(lane(r@, 0) =~= x@);
        assert(lane(r@, 1) =~= y@);
    }
    r
}

} // verus!
