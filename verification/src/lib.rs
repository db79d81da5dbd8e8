//! Montgomery multiplication of 256-bit integers modulo a fixed prime, and a
//! small register-allocating assembly generator for tuning it by hand.
//!
//! The multiplication engines come in two limb widths. [`acar`] works on four
//! 64-bit limbs with 128-bit products. [`emmart`] and [`domb`] work on five
//! 52-bit limbs, on digit products that are split at bit 52, and [`domb`]
//! replaces four of the five reduction rounds by four independent
//! digit-by-constant products. What the engines have in common is stated in
//! [`montgomery`], and what holds of their results for the prime of this
//! library in [`field`].
//!
//! The generator is in [`hla`]: instructions over fresh registers, liveness
//! analysis, and allocation of physical registers; [`programs`] holds the
//! programs that it is driven with. What holds of every
//! analysis and allocation is stated in [`hla::liveness_laws`] and
//! [`hla::allocation_laws`].
use vstd::prelude::*;

pub use acar::{cios, cios_opt, fios, sos};

pub mod limbs;
pub mod kernel;
pub mod montgomery;
pub mod rounds;
pub mod product;
pub mod reduction;
pub mod field;
pub mod simd;
pub mod hla;
pub mod programs;
pub mod emmart;
pub mod acar;
pub mod domb;

verus! {

/// `-P^{-1} mod 2^64`.
pub const NP0: u64 = 0xc2e1f593efffffff;

/// The prime modulus, in four 64-bit limbs.
pub const P: [u64; 4] = [
    0x43e1f593f0000001,
    0x2833e84879b97091,
    0xb85045b68181585d,
    0x30644e72e131a029,
];

/// `R^2 mod P` for the radix `R = 2^256` of the four-limb form.
pub const R2: [u64; 4] = [
    0x1bb8e645ae216da7,
    0x53fe3ab1e35c59e3,
    0x8c49833d53bb8085,
    0x0216d0b17f4e44a5,
];

/// `-P^{-1} mod 2^52`.
pub const U52_NP0: u64 = 0x1f593efffffff;

/// The prime modulus, in five 52-bit limbs.
pub const U52_P: [u64; 5] = [
    0x1f593f0000001,
    0x4879b9709143e,
    0x181585d2833e8,
    0xa029b85045b68,
    0x030644e72e131,
];

/// `R^2 mod P` for the radix `R = 2^260` of the five-limb form.
pub const U52_R2: [u64; 5] = [
    0x0b852d16da6f5,
    0xc621620cddce3,
    0xaf1b95343ffb6,
    0xc3c15e103e7c2,
    0x00281528fa122,
];

} // verus!
