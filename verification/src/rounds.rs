//! The round that every 52-bit engine performs five times, as a function on
//! limb sums, and the arithmetic that makes five rounds a Montgomery product.
//!
//! A round takes five limb sums `s`, one digit `x` of the first factor, the
//! second factor `b` and the modulus `n`. It adds `x * b` and `m * n`, where
//! the digit `m` is chosen so that the lowest limb of the total is divisible
//! by `2^52`, and shifts the total down by one limb. The engines differ in the
//! order in which they add the halves of the digit products; the limb sums
//! they end a round with are the same.
use vstd::prelude::*;
use crate::kernel::{high_half, lemma_halves, low_half};
use crate::limbs::{
    lemma_pow52_positive, lemma_pow52_values, lemma_value52_of5, lemma_value52_take, pow52, radix52,
    resolved, value52,
};

verus! {

/// The integer that five limb sums stand for.
pub open spec fn weigh5(s: Seq<int>) -> int {
    s[0] + s[1] * pow52(1) + s[2] * pow52(2) + s[3] * pow52(3) + s[4] * pow52(4)
}

/// The modulus digit `n0` and the word `np0` are matched: `n0 * np0 = -1`
/// modulo `2^52`.
pub open spec fn inverts(n0: int, np0: int) -> bool {
    (n0 * np0 + 1) % radix52() == 0
}

/// The digit `m` of a round: `m * n` cancels the lowest limb of `s + x * b`.
pub open spec fn round_digit(s: Seq<int>, x: int, b: Seq<u64>, np0: int) -> int {
    ((s[0] + low_half(x, b[0] as int)) * np0) % radix52()
}

/// The carry that the lowest limb hands to the next in a round.
pub open spec fn round_carry(s: Seq<int>, x: int, m: int, b: Seq<u64>, n: Seq<u64>) -> int {
    (s[0] + low_half(x, b[0] as int) + low_half(m, n[0] as int)) / radix52()
}

/// Limb `k` of the sums after a round with the digits `x` and `m`.
pub open spec fn round_limb(s: Seq<int>, x: int, m: int, b: Seq<u64>, n: Seq<u64>, k: int) -> int {
    if k == 0 {
        s[1] + high_half(x, b[0] as int) + low_half(x, b[1] as int) + high_half(m, n[0] as int)
            + low_half(m, n[1] as int) + round_carry(s, x, m, b, n)
    } else if k < 4 {
        s[k + 1] + high_half(x, b[k] as int) + low_half(x, b[k + 1] as int) + high_half(
            m,
            n[k] as int,
        ) + low_half(m, n[k + 1] as int)
    } else {
        high_half(x, b[4] as int) + high_half(m, n[4] as int)
    }
}

/// The limb sums after a round.
pub open spec fn next_state(s: Seq<int>, x: int, b: Seq<u64>, n: Seq<u64>, np0: int) -> Seq<int> {
    Seq::new(5, |k: int| round_limb(s, x, round_digit(s, x, b, np0), b, n, k))
}

/// The limb sums after the first `i` rounds of the multiplication of `a` by `b`.
pub open spec fn state_after(i: nat, a: Seq<u64>, b: Seq<u64>, n: Seq<u64>, np0: int) -> Seq<int>
    decreases i,
{
    if i == 0 {
        Seq::new(5, |k: int| 0int)
    } else {
        next_state(state_after((i - 1) as nat, a, b, n, np0), a[i - 1] as int, b, n, np0)
    }
}

/// The digit `m` that round `i` chooses.
pub open spec fn digit_at(i: nat, a: Seq<u64>, b: Seq<u64>, n: Seq<u64>, np0: int) -> int {
    round_digit(state_after(i, a, b, n, np0), a[i as int] as int, b, np0)
}

/// The quotient built from the digits of the first `i` rounds.
pub open spec fn quotient_after(i: nat, a: Seq<u64>, b: Seq<u64>, n: Seq<u64>, np0: int) -> int
    decreases i,
{
    if i == 0 {
        0
    } else {
        quotient_after((i - 1) as nat, a, b, n, np0) + digit_at((i - 1) as nat, a, b, n, np0)
            * pow52((i - 1) as nat)
    }
}

/// A digit times a five-limb value, limb by limb.
pub proof fn lemma_scale5(x: int, v: Seq<u64>)
    requires
        v.len() == 5,
    ensures
        x * value52(v) == x * v[0] + (x * v[1]) * pow52(1) + (x * v[2]) * pow52(2) + (x * v[3])
            * pow52(3) + (x * v[4]) * pow52(4),
{
    lemma_value52_of5(v);
    let (v0, v1, v2, v3, v4) = (v[0] as int, v[1] as int, v[2] as int, v[3] as int, v[4] as int);
    let (w1, w2, w3, w4) = (pow52(1), pow52(2), pow52(3), pow52(4));
    let (s1, s2, s3, s4) = (v1 * w1, v2 * w2, v3 * w3, v4 * w4);
    assert(x * (v0 + s1 + s2 + s3 + s4) == x * v0 + x * s1 + x * s2 + x * s3 + x * s4)
        by (nonlinear_arith);
    assert(x * s1 == (x * v1) * w1) by (nonlinear_arith)
        requires
            s1 == v1 * w1,
    ;
    assert(x * s2 == (x * v2) * w2) by (nonlinear_arith)
        requires
            s2 == v2 * w2,
    ;
    assert(x * s3 == (x * v3) * w3) by (nonlinear_arith)
        requires
            s3 == v3 * w3,
    ;
    assert(x * s4 == (x * v4) * w4) by (nonlinear_arith)
        requires
            s4 == v4 * w4,
    ;
}

/// The digit of a round cancels the lowest limb.
pub proof fn lemma_digit_cancels(v0: int, n0: int, np0: int)
    requires
        inverts(n0, np0),
    ensures
        (v0 + low_half((v0 * np0) % radix52(), n0)) % radix52() == 0,
{
    reveal(low_half);
    let radix = radix52();
    let m = (v0 * np0) % radix;
    // m * n0 = v0 * np0 * n0 = v0 * (np0 * n0) = -v0 modulo the radix
    vstd::arithmetic::div_mod::lemma_mul_mod_noop_left(v0 * np0, n0, radix);
    assert((m * n0) % radix == ((v0 * np0) * n0) % radix);
    assert((v0 * np0) * n0 == v0 * (n0 * np0 + 1) - v0) by (nonlinear_arith);
    vstd::arithmetic::div_mod::lemma_mul_mod_noop_right(v0, n0 * np0 + 1, radix);
    assert((v0 * (n0 * np0 + 1)) % radix == (v0 * 0) % radix);
    assert((v0 * (n0 * np0 + 1)) % radix == 0);
    let q = (v0 * (n0 * np0 + 1)) / radix;
    vstd::arithmetic::div_mod::lemma_fundamental_div_mod(v0 * (n0 * np0 + 1), radix);
    let q2 = (m * n0) / radix;
    vstd::arithmetic::div_mod::lemma_fundamental_div_mod(m * n0, radix);
    // v0 + (m * n0) % radix = v0 + ((q * radix) - v0) % radix
    vstd::arithmetic::div_mod::lemma_fundamental_div_mod((v0 * np0) * n0, radix);
    assert((v0 + (m * n0) % radix) % radix == 0) by {
        let p = (v0 * np0) * n0;
        assert(p == radix * q - v0);
        vstd::arithmetic::div_mod::lemma_mod_multiples_vanish(q, -v0, radix);
        assert(p % radix == (-v0) % radix);
        vstd::arithmetic::div_mod::lemma_add_mod_noop_right(v0, -v0, radix);
    }
}

/// One round: the digit cancels the lowest limb, the limb sums grow by less
/// than five digits, and the value after the round, times `2^52`, is the value
/// before it plus `x * b + m * n`.
pub proof fn lemma_round(s: Seq<int>, x: int, b: Seq<u64>, n: Seq<u64>, np0: int, cap: int)
    requires
        s.len() == 5,
        b.len() == 5,
        n.len() == 5,
        resolved(b),
        resolved(n),
        0 <= x < radix52(),
        inverts(n[0] as int, np0),
        0 <= cap <= 20 * radix52(),
        forall|k: int| 0 <= k < 5 ==> 0 <= #[trigger] s[k] <= cap,
    ensures
        0 <= round_digit(s, x, b, np0) < radix52(),
        (s[0] + low_half(x, b[0] as int) + low_half(round_digit(s, x, b, np0), n[0] as int))
            % radix52() == 0,
        0 <= round_carry(s, x, round_digit(s, x, b, np0), b, n) <= 22,
        next_state(s, x, b, n, np0).len() == 5,
        forall|k: int|
            0 <= k < 5 ==> 0 <= #[trigger] next_state(s, x, b, n, np0)[k] <= cap + 5 * radix52(),
        radix52() * weigh5(next_state(s, x, b, n, np0)) == weigh5(s) + x * value52(b)
            + round_digit(s, x, b, np0) * value52(n),
{
    let m = round_digit(s, x, b, np0);
    let t = next_state(s, x, b, n, np0);
    let carry = round_carry(s, x, m, b, n);
    assert(0 <= s[0] && 0 <= s[1] && 0 <= s[2] && 0 <= s[3] && 0 <= s[4]);
    lemma_digit_cancels(s[0] + low_half(x, b[0] as int), n[0] as int, np0);
    lemma_halves(x, b[0] as int);
    lemma_halves(x, b[1] as int);
    lemma_halves(x, b[2] as int);
    lemma_halves(x, b[3] as int);
    lemma_halves(x, b[4] as int);
    lemma_halves(m, n[0] as int);
    lemma_halves(m, n[1] as int);
    lemma_halves(m, n[2] as int);
    lemma_halves(m, n[3] as int);
    lemma_halves(m, n[4] as int);
    lemma_scale5(x, b);
    lemma_scale5(m, n);
    lemma_pow52_values();
    assert(t[0] == round_limb(s, x, m, b, n, 0));
    assert(t[1] == round_limb(s, x, m, b, n, 1));
    assert(t[2] == round_limb(s, x, m, b, n, 2));
    assert(t[3] == round_limb(s, x, m, b, n, 3));
    assert(t[4] == round_limb(s, x, m, b, n, 4));
    assert(carry * radix52() == s[0] + low_half(x, b[0] as int) + low_half(m, n[0] as int));
}

/// Folding a round into the running identity: if `s` stands for
/// `acc_a * vb + acc_m * vn` scaled by `pw`, the sums after the round stand for
/// the same with one more digit on each side, scaled by `2^52 * pw`.
proof fn lemma_fold_round(
    s: int,
    t: int,
    pw: int,
    acc_a: int,
    acc_m: int,
    x: int,
    m: int,
    vb: int,
    vn: int,
)
    requires
        s * pw == acc_a * vb + acc_m * vn,
        radix52() * t == s + x * vb + m * vn,
    ensures
        t * (radix52() * pw) == (acc_a + x * pw) * vb + (acc_m + m * pw) * vn,
{
    let radix = radix52();
    let xb = x * vb;
    let mn = m * vn;
    assert(t * (radix * pw) == (radix * t) * pw) by (nonlinear_arith);
    assert((s + xb + mn) * pw == s * pw + xb * pw + mn * pw) by (nonlinear_arith);
    assert(xb * pw == (x * pw) * vb) by (nonlinear_arith)
        requires
            xb == x * vb,
    ;
    assert(mn * pw == (m * pw) * vn) by (nonlinear_arith)
        requires
            mn == m * vn,
    ;
    assert((acc_a + x * pw) * vb == acc_a * vb + (x * pw) * vb) by (nonlinear_arith);
    assert((acc_m + m * pw) * vn == acc_m * vn + (m * pw) * vn) by (nonlinear_arith);
}

/// After `i` rounds the limb sums are small, the quotient is below `2^(52 i)`,
/// and the sums stand for `(a mod 2^(52 i)) * b + quotient * n`, divided by
/// `2^(52 i)`.
pub proof fn lemma_rounds(i: nat, a: Seq<u64>, b: Seq<u64>, n: Seq<u64>, np0: int)
    requires
        i <= 5,
        a.len() == 5,
        b.len() == 5,
        n.len() == 5,
        resolved(a),
        resolved(b),
        resolved(n),
        inverts(n[0] as int, np0),
    ensures
        state_after(i, a, b, n, np0).len() == 5,
        forall|k: int|
            0 <= k < 5 ==> 0 <= #[trigger] state_after(i, a, b, n, np0)[k] <= 5 * i * radix52(),
        0 <= quotient_after(i, a, b, n, np0) < pow52(i),
        weigh5(state_after(i, a, b, n, np0)) * pow52(i) == value52(a.take(i as int)) * value52(b)
            + quotient_after(i, a, b, n, np0) * value52(n),
    decreases i,
{
    if i == 0 {
        assert(value52(a.take(0)) == 0);
        lemma_pow52_values();
    } else {
        let h = (i - 1) as nat;
        lemma_rounds(h, a, b, n, np0);
        let s = state_after(h, a, b, n, np0);
        let x = a[h as int] as int;
        let m = round_digit(s, x, b, np0);
        let t = state_after(i, a, b, n, np0);
        assert(t == next_state(s, x, b, n, np0));
        lemma_round(s, x, b, n, np0, 5 * h * radix52());
        lemma_value52_take(a, h as int);
        lemma_pow52_positive(h);
        let pw = pow52(h);
        assert(pow52(i) == radix52() * pw);
        lemma_fold_round(
            weigh5(s),
            weigh5(t),
            pw,
            value52(a.take(h as int)),
            quotient_after(h, a, b, n, np0),
            x,
            m,
            value52(b),
            value52(n),
        );
        assert(weigh5(t) * pow52(i) == weigh5(t) * (radix52() * pw));
        assert(m * pw + quotient_after(h, a, b, n, np0) < radix52() * pw && 0 <= m * pw)
            by (nonlinear_arith)
            requires
                0 <= m < radix52(),
                0 <= quotient_after(h, a, b, n, np0) < pw,
        ;
        assert(a.take(i as int) =~= a.take(h as int + 1));
    }
}

} // verus!
