//! What it means to be a Montgomery product, and what follows from it.
use vstd::prelude::*;
use vstd::arithmetic::div_mod::{
    lemma_fundamental_div_mod, lemma_fundamental_div_mod_converse, lemma_mod_multiples_vanish,
    lemma_mul_mod_noop_left, lemma_small_mod,
};

verus! {

/// `r` is the Montgomery product of `a` and `b` for the modulus `n` and the
/// radix `radix`: `r * radix = a * b + m * n` for a quotient `m` in
/// `[0, radix)`. The quotient is `(r * radix - a * b) / n`.
pub open spec fn montgomery_product(r: int, a: int, b: int, n: int, radix: int) -> bool {
    &&& n > 0
    &&& (r * radix - a * b) % n == 0
    &&& 0 <= (r * radix - a * b) / n < radix
}

/// A value that is reached with a quotient `m` below the radix is a
/// Montgomery product.
pub proof fn lemma_montgomery_from_quotient(r: int, a: int, b: int, n: int, radix: int, m: int)
    requires
        n > 0,
        0 <= m < radix,
        r * radix == a * b + m * n,
    ensures
        montgomery_product(r, a, b, n, radix),
{
    assert(m * n == n * m) by (nonlinear_arith);
    lemma_fundamental_div_mod_converse(r * radix - a * b, n, m, 0);
}

/// A Montgomery product times the radix is congruent to `a * b` modulo `n`.
pub proof fn lemma_montgomery_congruent(r: int, a: int, b: int, n: int, radix: int)
    requires
        montgomery_product(r, a, b, n, radix),
    ensures
        (r * radix) % n == (a * b) % n,
{
    let excess = r * radix - a * b;
    let m = excess / n;
    lemma_fundamental_div_mod(excess, n);
    assert(n * m == m * n) by (nonlinear_arith);
    lemma_mod_multiples_vanish(m, a * b, n);
}

/// A Montgomery product of non-negative factors lies in `[0, a * b / radix + n)`:
/// for factors below the radix it is below `radix + n`, and for factors below
/// `n` with `n` below the radix it is below `2 n`.
pub proof fn lemma_montgomery_bound(r: int, a: int, b: int, n: int, radix: int)
    requires
        montgomery_product(r, a, b, n, radix),
        0 <= a,
        0 <= b,
        radix > 0,
    ensures
        0 <= r,
        r * radix < a * b + radix * n,
        a < radix && b < radix ==> r < radix + n,
        a < n && b < n && n <= radix ==> r < 2 * n,
{
    let excess = r * radix - a * b;
    let m = excess / n;
    lemma_fundamental_div_mod(excess, n);
    assert(0 <= a * b) by (nonlinear_arith)
        requires
            0 <= a,
            0 <= b,
    ;
    assert(0 <= n * m < radix * n) by (nonlinear_arith)
        requires
            0 <= m < radix,
            n > 0,
    ;
    assert(0 <= r) by (nonlinear_arith)
        requires
            r * radix >= 0,
            radix > 0,
    ;
    if a < radix && b < radix {
        assert(r < radix + n) by (nonlinear_arith)
            requires
                r * radix < a * b + radix * n,
                0 <= a < radix,
                0 <= b < radix,
                radix > 0,
        ;
    }
    if a < n && b < n && n <= radix {
        assert(r < 2 * n) by (nonlinear_arith)
            requires
                r * radix < a * b + radix * n,
                0 <= a < n,
                0 <= b < n,
                n <= radix,
                radix > 0,
        ;
    }
}

/// `inverse` is an inverse of `x` modulo `n`.
pub open spec fn inverts_modulo(x: int, inverse: int, n: int) -> bool {
    (x * inverse) % n == 1
}

/// A factor that has an inverse modulo `n` can be cancelled from a
/// congruence modulo `n`.
pub proof fn lemma_cancel(x: int, y: int, factor: int, inverse: int, n: int)
    requires
        n > 0,
        inverts_modulo(factor, inverse, n),
        (x * factor) % n == (y * factor) % n,
    ensures
        x % n == y % n,
{
    let xf = x * factor;
    let yf = y * factor;
    let one = factor * inverse;
    // x = x * (factor * inverse) = (x * factor) * inverse modulo n
    lemma_mul_mod_noop_left(xf, inverse, n);
    lemma_mul_mod_noop_left(yf, inverse, n);
    assert((xf * inverse) % n == (yf * inverse) % n);
    assert(xf * inverse == x * one) by (nonlinear_arith)
        requires
            xf == x * factor,
            one == factor * inverse,
    ;
    assert(yf * inverse == y * one) by (nonlinear_arith)
        requires
            yf == y * factor,
            one == factor * inverse,
    ;
    vstd::arithmetic::div_mod::lemma_mul_mod_noop_right(x, one, n);
    vstd::arithmetic::div_mod::lemma_mul_mod_noop_right(y, one, n);
    assert(x * (one % n) == x && y * (one % n) == y) by (nonlinear_arith)
        requires
            one % n == 1,
    ;
}

/// All Montgomery products of the same factors are congruent modulo `n`,
/// whatever engine they come from, where the radix has an inverse modulo `n`.
pub proof fn lemma_montgomery_agree(
    r1: int,
    r2: int,
    a: int,
    b: int,
    n: int,
    radix: int,
    radix_inverse: int,
)
    requires
        montgomery_product(r1, a, b, n, radix),
        montgomery_product(r2, a, b, n, radix),
        inverts_modulo(radix, radix_inverse, n),
    ensures
        r1 % n == r2 % n,
{
    lemma_montgomery_congruent(r1, a, b, n, radix);
    lemma_montgomery_congruent(r2, a, b, n, radix);
    lemma_cancel(r1, r2, radix, radix_inverse, n);
}

/// The Montgomery product is unique where `n` has an inverse modulo the
/// radix: two engines that both return a Montgomery product return the same
/// number.
pub proof fn lemma_montgomery_unique(
    r1: int,
    r2: int,
    a: int,
    b: int,
    n: int,
    radix: int,
    n_inverse: int,
)
    requires
        montgomery_product(r1, a, b, n, radix),
        montgomery_product(r2, a, b, n, radix),
        radix > 0,
        inverts_modulo(n, n_inverse, radix),
    ensures
        r1 == r2,
{
    let e1 = r1 * radix - a * b;
    let e2 = r2 * radix - a * b;
    let m1 = e1 / n;
    let m2 = e2 / n;
    lemma_fundamental_div_mod(e1, n);
    lemma_fundamental_div_mod(e2, n);
    // m1 * n = m2 * n modulo the radix
    assert(m1 * n == radix * r1 - a * b && m2 * n == radix * r2 - a * b) by (nonlinear_arith)
        requires
            e1 == n * m1,
            e2 == n * m2,
            e1 == r1 * radix - a * b,
            e2 == r2 * radix - a * b,
    ;
    lemma_mod_multiples_vanish(r1, -(a * b), radix);
    lemma_mod_multiples_vanish(r2, -(a * b), radix);
    assert((m1 * n) % radix == (m2 * n) % radix);
    lemma_cancel(m1, m2, n, n_inverse, radix);
    lemma_small_mod(m1 as nat, radix as nat);
    lemma_small_mod(m2 as nat, radix as nat);
    assert(m1 == m2);
    assert(r1 == r2) by (nonlinear_arith)
        requires
            r1 * radix - a * b == r2 * radix - a * b,
            radix > 0,
    ;
}

/// The Montgomery product with a factor zero is zero.
pub proof fn lemma_montgomery_zero(
    r: int,
    a: int,
    b: int,
    n: int,
    radix: int,
    radix_inverse: int,
)
    requires
        montgomery_product(r, a, b, n, radix),
        a == 0 || b == 0,
        radix > 0,
        inverts_modulo(radix, radix_inverse, n),
    ensures
        r == 0,
{
    assert(a * b == 0) by (nonlinear_arith)
        requires
            a == 0 || b == 0,
    ;
    lemma_montgomery_congruent(r, a, b, n, radix);
    assert(0 * radix == 0);
    lemma_cancel(r, 0, radix, radix_inverse, n);
    let m = (r * radix) / n;
    lemma_fundamental_div_mod(r * radix, n);
    assert(0 <= r < n) by (nonlinear_arith)
        requires
            r * radix == n * m,
            0 <= m < radix,
            n > 0,
            radix > 0,
    ;
    lemma_small_mod(r as nat, n as nat);
}

/// Into the Montgomery domain and back: multiplying by `radix^2 mod n` and
/// then by one gives back the number, modulo `n`.
pub proof fn lemma_montgomery_round_trip(
    a: int,
    there: int,
    back: int,
    radix_squared: int,
    n: int,
    radix: int,
    radix_inverse: int,
)
    requires
        montgomery_product(there, a, radix_squared, n, radix),
        montgomery_product(back, there, 1, n, radix),
        radix_squared % n == (radix * radix) % n,
        inverts_modulo(radix, radix_inverse, n),
    ensures
        back % n == a % n,
{
    lemma_montgomery_congruent(there, a, radix_squared, n, radix);
    lemma_montgomery_congruent(back, there, 1, n, radix);
    // there * radix = a * radix^2, so there = a * radix
    vstd::arithmetic::div_mod::lemma_mul_mod_noop_right(a, radix_squared, n);
    vstd::arithmetic::div_mod::lemma_mul_mod_noop_right(a, radix * radix, n);
    assert(a * (radix * radix) == (a * radix) * radix) by (nonlinear_arith);
    lemma_cancel(there, a * radix, radix, radix_inverse, n);
    // back * radix = there = a * radix, so back = a
    assert(there * 1 == there);
    lemma_cancel(back, a, radix, radix_inverse, n);
}

} // verus!
