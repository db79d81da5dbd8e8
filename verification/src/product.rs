//! The schoolbook product of two five-limb numbers, laid out in limb columns.
//!
//! The digit product `a[i] * b[j]` puts its low half into column `i + j` and
//! its high half into column `i + j + 1`. A row is what one digit of `a`
//! contributes; the columns are the sums of the rows.
use vstd::prelude::*;
use crate::kernel::{bias_weight, high_half, lemma_halves, low_half};
use crate::limbs::{lemma_pow52_values, pow52, radix52, resolved, value52};
use crate::rounds::lemma_scale5;

verus! {

/// What the first `j` digit products of the row of `x` times `v` put into the
/// limb `d` places above the start of the row.
pub open spec fn row_prefix(x: int, v: Seq<u64>, j: int, d: int) -> int {
    (if 0 <= d < j {
        low_half(x, v[d] as int)
    } else {
        0
    }) + (if 1 <= d <= j {
        high_half(x, v[d - 1] as int)
    } else {
        0
    })
}

/// The bias, in units of `2^52`, that comes with [`row_prefix`].
pub open spec fn row_prefix_bias(j: int, d: int) -> int {
    (if 0 <= d < j {
        0x433int
    } else {
        0
    }) + (if 1 <= d <= j {
        0x467int
    } else {
        0
    })
}

/// What the whole row of `x` times `v` puts into the limb `d` places above its
/// start.
pub open spec fn row_limb(x: int, v: Seq<u64>, d: int) -> int {
    row_prefix(x, v, 5, d)
}

/// The bias that comes with [`row_limb`].
pub open spec fn row_bias(d: int) -> int {
    row_prefix_bias(5, d)
}

/// Column `k` of the product of the lowest `i` digits of `a` with `b`.
pub open spec fn columns(a: Seq<u64>, b: Seq<u64>, i: nat, k: int) -> int
    decreases i,
{
    if i == 0 {
        0
    } else {
        columns(a, b, (i - 1) as nat, k) + row_limb(a[i - 1] as int, b, k - (i - 1))
    }
}

/// The bias that comes with [`columns`].
pub open spec fn columns_bias(i: nat, k: int) -> int
    decreases i,
{
    if i == 0 {
        0
    } else {
        columns_bias((i - 1) as nat, k) + row_bias(k - (i - 1))
    }
}

/// The integer that six limb sums stand for.
pub open spec fn weigh6(s: Seq<int>) -> int {
    s[0] + s[1] * pow52(1) + s[2] * pow52(2) + s[3] * pow52(3) + s[4] * pow52(4) + s[5] * pow52(5)
}

/// The integer that ten limb sums stand for.
pub open spec fn weigh10(s: Seq<int>) -> int {
    s[0] + s[1] * pow52(1) + s[2] * pow52(2) + s[3] * pow52(3) + s[4] * pow52(4) + s[5] * pow52(5)
        + s[6] * pow52(6) + s[7] * pow52(7) + s[8] * pow52(8) + s[9] * pow52(9)
}

/// Every limb of a row is the sum of at most two digits.
pub proof fn lemma_row_bound(x: int, v: Seq<u64>, j: int, d: int)
    requires
        0 <= x < radix52(),
        v.len() == 5,
        resolved(v),
        0 <= j <= 5,
    ensures
        0 <= row_prefix(x, v, j, d) <= 2 * (radix52() - 1),
{
    if 0 <= d < 5 {
        lemma_halves(x, v[d] as int);
    }
    if 1 <= d <= 5 {
        lemma_halves(x, v[d - 1] as int);
    }
}

/// A row stands for the digit times the number.
pub proof fn lemma_row_value(x: int, v: Seq<u64>)
    requires
        0 <= x < radix52(),
        v.len() == 5,
        resolved(v),
    ensures
        weigh6(Seq::new(6, |d: int| row_limb(x, v, d))) == x * value52(v),
{
    lemma_halves(x, v[0] as int);
    lemma_halves(x, v[1] as int);
    lemma_halves(x, v[2] as int);
    lemma_halves(x, v[3] as int);
    lemma_halves(x, v[4] as int);
    lemma_scale5(x, v);
    lemma_pow52_values();
}

/// A column of the full product is the sum of what the five rows put there.
pub proof fn lemma_columns_unfold(a: Seq<u64>, b: Seq<u64>, k: int)
    ensures
        columns(a, b, 5, k) == row_limb(a[0] as int, b, k) + row_limb(a[1] as int, b, k - 1)
            + row_limb(a[2] as int, b, k - 2) + row_limb(a[3] as int, b, k - 3) + row_limb(
            a[4] as int,
            b,
            k - 4,
        ),
{
    reveal_with_fuel(columns, 6);
}

/// The bias that arrives in column `k` of the full product is that of `k + 1`
/// low and `k` high halves in the lower five columns, and of `9 - k` low and
/// `10 - k` high halves in the upper five.
pub proof fn lemma_columns_bias(k: int)
    requires
        0 <= k < 10,
    ensures
        columns_bias(5, k) == (if k <= 4 {
            bias_weight(k + 1, k)
        } else {
            bias_weight(9 - k, 10 - k)
        }),
{
    reveal_with_fuel(columns_bias, 6);
}

/// A column of `i` rows is the sum of at most `2 i` digits.
pub proof fn lemma_columns_bound(a: Seq<u64>, b: Seq<u64>, i: nat, k: int)
    requires
        a.len() == 5,
        b.len() == 5,
        resolved(a),
        resolved(b),
        i <= 5,
    ensures
        0 <= columns(a, b, i, k) <= 2 * i * (radix52() - 1),
    decreases i,
{
    if i > 0 {
        lemma_columns_bound(a, b, (i - 1) as nat, k);
        lemma_row_bound(a[i - 1] as int, b, 5, k - (i - 1));
        assert(2 * i * (radix52() - 1) == 2 * (i - 1) * (radix52() - 1) + 2 * (radix52() - 1))
            by (nonlinear_arith);
    }
}

/// Six limb sums scaled by a power of the radix, limb by limb.
proof fn lemma_shift6(s: Seq<int>, i: nat)
    requires
        s.len() == 6,
        i <= 4,
    ensures
        weigh6(s) * pow52(i) == s[0] * pow52(i) + s[1] * pow52(i + 1) + s[2] * pow52(i + 2) + s[3]
            * pow52(i + 3) + s[4] * pow52(i + 4) + s[5] * pow52(i + 5),
{
    lemma_pow52_values();
    let w = weigh6(s);
    if i == 0 {
        assert(w * 1 == w);
    } else if i == 1 {
        assert(w * 0x10_0000_0000_0000 == s[0] * pow52(1) + s[1] * pow52(2) + s[2] * pow52(3)
            + s[3] * pow52(4) + s[4] * pow52(5) + s[5] * pow52(6));
    } else if i == 2 {
        assert(w * 0x100_0000_0000_0000_0000_0000_0000 == s[0] * pow52(2) + s[1] * pow52(3) + s[2]
            * pow52(4) + s[3] * pow52(5) + s[4] * pow52(6) + s[5] * pow52(7));
    } else if i == 3 {
        assert(w * 0x1000_0000_0000_0000_0000_0000_0000_0000_0000_0000 == s[0] * pow52(3) + s[1]
            * pow52(4) + s[2] * pow52(5) + s[3] * pow52(6) + s[4] * pow52(7) + s[5] * pow52(8));
    } else {
        assert(w * 0x1_0000_0000_0000_0000_0000_0000_0000_0000_0000_0000_0000_0000_0000 == s[0]
            * pow52(4) + s[1] * pow52(5) + s[2] * pow52(6) + s[3] * pow52(7) + s[4] * pow52(8)
            + s[5] * pow52(9));
    }
}

/// The columns of the full product stand for the product of the two numbers.
pub proof fn lemma_columns_value(a: Seq<u64>, b: Seq<u64>)
    requires
        a.len() == 5,
        b.len() == 5,
        resolved(a),
        resolved(b),
    ensures
        weigh10(Seq::new(10, |k: int| columns(a, b, 5, k))) == value52(a) * value52(b),
{
    let vb = value52(b);
    let row0 = Seq::new(6, |d: int| row_limb(a[0] as int, b, d));
    let row1 = Seq::new(6, |d: int| row_limb(a[1] as int, b, d));
    let row2 = Seq::new(6, |d: int| row_limb(a[2] as int, b, d));
    let row3 = Seq::new(6, |d: int| row_limb(a[3] as int, b, d));
    let row4 = Seq::new(6, |d: int| row_limb(a[4] as int, b, d));
    lemma_row_value(a[0] as int, b);
    lemma_row_value(a[1] as int, b);
    lemma_row_value(a[2] as int, b);
    lemma_row_value(a[3] as int, b);
    lemma_row_value(a[4] as int, b);
    lemma_columns_unfold(a, b, 0);
    lemma_columns_unfold(a, b, 1);
    lemma_columns_unfold(a, b, 2);
    lemma_columns_unfold(a, b, 3);
    lemma_columns_unfold(a, b, 4);
    lemma_columns_unfold(a, b, 5);
    lemma_columns_unfold(a, b, 6);
    lemma_columns_unfold(a, b, 7);
    lemma_columns_unfold(a, b, 8);
    lemma_columns_unfold(a, b, 9);
    lemma_pow52_values();
    let cols = Seq::new(10, |k: int| columns(a, b, 5, k));
    lemma_shift6(row0, 0);
    lemma_shift6(row1, 1);
    lemma_shift6(row2, 2);
    lemma_shift6(row3, 3);
    lemma_shift6(row4, 4);
    assert(weigh10(cols) == weigh6(row0) * pow52(0) + weigh6(row1) * pow52(1) + weigh6(row2)
        * pow52(2) + weigh6(row3) * pow52(3) + weigh6(row4) * pow52(4));
    lemma_scale5(vb, a);
    assert(vb * value52(a) == value52(a) * vb) by (nonlinear_arith);
}

} // verus!
