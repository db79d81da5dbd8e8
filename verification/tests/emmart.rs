use montgomery_reduction::emmart::{
    cios_opt, cios_opt_sub, fios_opt, fios_opt_sub, fios_opt_sub_simd, limbs_equal, make_initial,
    modulus_u52, mult, resolve, subtraction_step_u52, C1, C2, C3,
};
use montgomery_reduction::limbs::{split52, MASK48, MASK52};
use montgomery_reduction::{NP0, P, R2, U52_NP0, U52_P, U52_R2};

const A: [u64; 5] = [
    0x1433a6aa79987,
    0x6c029a7245bb9,
    0x340bbcdd1f6f8,
    0xa942cd8778e7d,
    0xdaea58ba4c73,
];
const A_MOD_P: [u64; 5] = [
    0x96ceaaaa79983,
    0x4a1bb4b000ac0,
    0xd3b5a59312757,
    0x289bec46620dc,
    0x19591eeec7ad,
];
const A_TILDE: [u64; 6] = [
    0x39b3b413e7ef0,
    0xcc7370882b005,
    0x651a4ade1996e,
    0x37a173f887d93,
    0x216e4b2c07e,
    0x0,
];
const C: [u64; 5] = [
    0x9e3b11fcff454,
    0x5c6ed4e94bdfc,
    0xfe4602442d6cb,
    0xc789a091250e8,
    0x27273a832ca1,
];
const D: [u64; 5] = [
    0x2b7a48d9fe5b9,
    0x7a5adad1212fd,
    0x543bbcfbcf74d,
    0xcd2bb9d58e4f,
    0x21fc9abb175f,
];
const C_TIMES_D: [u64; 6] = [
    0x6fba322ad6076,
    0x6e153fec2dbd2,
    0xb943d8df29c56,
    0x6790c073930ba,
    0x2ebfe7c79bfc,
    0x0,
];
const ONE: [u64; 5] = [1, 0, 0, 0, 0];
const ZERO: [u64; 5] = [0, 0, 0, 0, 0];
const TOP: [u64; 5] = [MASK52, MASK52, MASK52, MASK52, MASK52];
const ONE_R: [u64; 5] = [
    0xb6b753fffffac,
    0x380f271055b9d,
    0x18f016ecef7c8,
    0x724f85a9201d8,
    0x1f16424e1bb7,
];

type Engine = fn([u64; 5], [u64; 5], [u64; 5], u64) -> [u64; 6];

const ENGINES: [Engine; 4] = [cios_opt, cios_opt_sub, fios_opt, fios_opt_sub];

fn low5(x: [u64; 6]) -> [u64; 5] {
    [x[0], x[1], x[2], x[3], x[4]]
}

#[test]
fn constants_are_consistent() {
    assert_eq!(MASK52, (1u64 << 52) - 1);
    assert_eq!(MASK48, (1u64 << 48) - 1);
    assert_eq!(U52_NP0, NP0 & MASK52);
    assert_eq!(U52_P[0].wrapping_mul(U52_NP0) & MASK52, MASK52);
    assert_eq!(P[0].wrapping_mul(NP0), u64::MAX);
    assert_eq!(C1, (104u64 + 1023) << 52);
    assert_eq!(C3, (52u64 + 1023) << 52);
    assert_eq!(C2, C1 + 1);
    assert_eq!(R2[3], 0x0216d0b17f4e44a5);
    assert_eq!(U52_R2[4], 0x281528fa122);
}

#[test]
fn split52_cuts_at_bit_52() {
    assert_eq!(split52(0x4670_0000_0000_0001), (1, 0x467));
    assert_eq!(split52(MASK52), (MASK52, 0));
    assert_eq!(split52(u64::MAX), (MASK52, 0xFFF));
}

#[test]
fn mult_splits_the_product() {
    assert_eq!(mult(A[0], 0x971105e503a67), (0x433556da6e675b51, 0x4670bebcf33b3ca2));
    assert_eq!(mult(0, 12345), (C3, C1));
    assert_eq!(mult(1, 1), (C3 + 1, C1));
    assert_eq!(mult(MASK52, MASK52), (C3 + 1, C1 + MASK52 - 1));
    assert_eq!(mult(1 << 51, 2), (C3, C1 + 1));
}

#[test]
fn make_initial_negates_the_bias() {
    assert_eq!(make_initial(0, 0), 0);
    assert_eq!(make_initial(1, 0), 0xbcd0000000000000);
    assert_eq!(make_initial(1, 1), 0x7660000000000000);
    assert_eq!(make_initial(0, 1), 0xb990000000000000);
    assert_eq!(make_initial(2, 0), 0x79a0000000000000);
    assert_eq!(make_initial(10, 8), 0x2ca0000000000000);
    // one low half on a seed for one low half leaves the payload
    let (lo, _hi) = mult(3, 5);
    assert_eq!(make_initial(1, 0).wrapping_add(lo), 15);
}

#[test]
fn resolve_carries_upwards() {
    assert_eq!(resolve([0, 0, 0, 0, 0, 0]), [0, 0, 0, 0, 0, 0]);
    assert_eq!(resolve([1 << 52, 0, 0, 0, 0, 0]), [0, 1, 0, 0, 0, 0]);
    assert_eq!(
        resolve([MASK52 + 5, MASK52, MASK52, MASK52, MASK52, MASK52]),
        [4, 0, 0, 0, 0, 0]
    );
    assert_eq!(
        resolve([3 << 52 | 7, 2 << 52 | 1, 0, 0, 0, 9]),
        [7, 4, 2, 0, 0, 9]
    );
}

#[test]
fn limbs_equal_compares_all_limbs() {
    assert!(limbs_equal(&A, &A));
    assert!(!limbs_equal(&A, &C));
    assert!(!limbs_equal(&[1u64, 2, 3], &[1u64, 2, 4]));
}

#[test]
fn subtraction_step_subtracts_once() {
    let expected: [u64; 5] = [
        0xf4da67aa79986,
        0x2388e101b477a,
        0x1bf6370a9c310,
        0x919153733315,
        0xaa860a476b42,
    ];
    assert_eq!(subtraction_step_u52(A, U52_P), expected);
    // a smaller minuend comes back as it is
    assert_eq!(subtraction_step_u52(A_MOD_P, U52_P), A_MOD_P);
    assert_eq!(subtraction_step_u52(ZERO, ONE), ZERO);
    assert_eq!(subtraction_step_u52(U52_P, U52_P), ZERO);
    assert_eq!(subtraction_step_u52([0u64, 1], [1u64, 0]), [MASK52, 0]);
    // a limb above 52 bits is resolved where the difference fits
    assert_eq!(subtraction_step_u52([1u64 << 52, 0], [0u64, 0]), [0, 1]);
    // and the minuend comes back where it does not
    assert_eq!(subtraction_step_u52([0u64, 1 << 52], [0u64, 0]), [0, 1 << 52]);
}

#[test]
fn modulus_reduces_fully() {
    assert_eq!(modulus_u52(A, U52_P), A_MOD_P);
    assert_eq!(modulus_u52(A_MOD_P, U52_P), A_MOD_P);
    assert_eq!(modulus_u52(U52_P, U52_P), ZERO);
    assert_eq!(modulus_u52(TOP, U52_P), modulus_u52(subtraction_step_u52(TOP, U52_P), U52_P));
    assert_eq!(modulus_u52([7u64, 0], [3u64, 0]), [1, 0]);
    // subtracting zero changes nothing
    assert_eq!(modulus_u52(A, ZERO), A);
}

#[test]
fn engines_enter_the_montgomery_domain() {
    for engine in ENGINES {
        assert_eq!(engine(A, U52_R2, U52_P, U52_NP0), A_TILDE);
    }
}

#[test]
fn engines_round_trip() {
    for engine in ENGINES {
        let a_tilde = engine(A, U52_R2, U52_P, U52_NP0);
        let a_round = engine(low5(a_tilde), ONE, U52_P, U52_NP0);
        assert_eq!(a_round[5], 0);
        assert_eq!(subtraction_step_u52(low5(a_round), U52_P), modulus_u52(A, U52_P));
        assert_eq!(low5(a_round), A_MOD_P);
    }
}

#[test]
fn engines_agree() {
    for engine in ENGINES {
        assert_eq!(engine(C, D, U52_P, U52_NP0), C_TIMES_D);
        assert_eq!(engine(D, C, U52_P, U52_NP0), C_TIMES_D);
    }
}

#[test]
fn zero_factor_gives_zero() {
    for engine in ENGINES {
        assert_eq!(engine(ZERO, C, U52_P, U52_NP0), [0, 0, 0, 0, 0, 0]);
        assert_eq!(engine(C, ZERO, U52_P, U52_NP0), [0, 0, 0, 0, 0, 0]);
    }
}

#[test]
fn largest_residue_squared_stays_below_the_prime() {
    let mut largest = U52_P;
    largest[0] -= 1;
    let expected: [u64; 6] = [
        0x1f8b2d4db1195,
        0x63ad484cdaa64,
        0xb1bb0e175976c,
        0x8957038c69951,
        0x76b49637452,
        0x0,
    ];
    for engine in ENGINES {
        let r = engine(largest, largest, U52_P, U52_NP0);
        assert_eq!(r, expected);
        let corrected = subtraction_step_u52(low5(r), U52_P);
        assert_eq!(modulus_u52(corrected, U52_P), corrected);
    }
}

#[test]
fn factors_at_the_top_of_the_range() {
    let expected: [u64; 6] = [
        0x1f8b2d4db1193,
        0x63ad484cdaa64,
        0xb1bb0e175976c,
        0x8957038c69951,
        0x76b49637452,
        0x1,
    ];
    for engine in ENGINES {
        assert_eq!(engine(TOP, TOP, U52_P, U52_NP0), expected);
    }
}

#[test]
fn one_times_one_in_the_montgomery_domain() {
    let r = fios_opt_sub(ONE_R, ONE_R, U52_P, U52_NP0);
    assert_eq!(subtraction_step_u52(low5(r), U52_P), ONE_R);
    assert_eq!(modulus_u52(ONE_R, U52_P), ONE_R);
    for engine in ENGINES {
        assert_eq!(low5(engine(ONE_R, ONE_R, U52_P, U52_NP0)), ONE_R);
    }
}

#[test]
fn paired_engine_equals_the_scalar_engine_lane_by_lane() {
    let pairs = [(A, U52_R2), (C, D), (ZERO, C), (TOP, TOP), (ONE_R, ONE_R)];
    for (x, y) in pairs {
        for (u, v) in pairs {
            let a = [[x[0], u[0]], [x[1], u[1]], [x[2], u[2]], [x[3], u[3]], [x[4], u[4]]];
            let b = [[y[0], v[0]], [y[1], v[1]], [y[2], v[2]], [y[3], v[3]], [y[4], v[4]]];
            let both = fios_opt_sub_simd(a, b, U52_P, U52_NP0);
            let first = fios_opt_sub(x, y, U52_P, U52_NP0);
            let second = fios_opt_sub(u, v, U52_P, U52_NP0);
            for k in 0..6 {
                assert_eq!(both[k], [first[k], second[k]]);
            }
        }
    }
}
