//! Two residues side by side: a pair of 64-bit lanes, and the lane-wise
//! operations on pairs that the paired engines are made of.
use vstd::prelude::*;
use crate::limbs::{split52, MASK52};

verus! {

/// Two 64-bit lanes.
pub type Lanes = [u64; 2];

/// Lane `l` of a sequence of pairs.
pub open spec fn lane(v: Seq<Lanes>, l: int) -> Seq<u64> {
    Seq::new(v.len(), |k: int| v[k]@[l])
}

/// The pair that holds `x` in both lanes.
pub fn splat(x: u64) -> (r: Lanes)
    ensures
        r@[0] == x,
        r@[1] == x,
{
    [x, x]
}

/// Lane-wise wrapping addition.
pub fn lanes_add(x: Lanes, y: Lanes) -> (r: Lanes)
    ensures
        r@[0] == x@[0].wrapping_add(y@[0]),
        r@[1] == x@[1].wrapping_add(y@[1]),
{
    [x[0].wrapping_add(y[0]), x[1].wrapping_add(y[1])]
}

/// Lane-wise wrapping multiplication by a word.
pub fn lanes_mul(x: Lanes, c: u64) -> (r: Lanes)
    ensures
        r@[0] == x@[0].wrapping_mul(c),
        r@[1] == x@[1].wrapping_mul(c),
{
    [x[0].wrapping_mul(c), x[1].wrapping_mul(c)]
}

/// The low 52 bits of each lane.
pub fn lanes_low52(x: Lanes) -> (r: Lanes)
    ensures
        r@[0] == x@[0] & MASK52,
        r@[1] == x@[1] & MASK52,
        r@[0] == x@[0] % 0x10_0000_0000_0000,
        r@[1] == x@[1] % 0x10_0000_0000_0000,
{
    [split52(x[0]).0, split52(x[1]).0]
}

/// What lies above the low 52 bits of each lane.
pub fn lanes_high52(x: Lanes) -> (r: Lanes)
    ensures
        r@[0] == x@[0] >> 52,
        r@[1] == x@[1] >> 52,
        r@[0] == x@[0] / 0x10_0000_0000_0000,
        r@[1] == x@[1] / 0x10_0000_0000_0000,
{
    [split52(x[0]).1, split52(x[1]).1]
}

} // verus!
