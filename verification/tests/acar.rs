use montgomery_reduction::acar::{adc, cios, cios_opt, cios_opt_sat, fios, mac, sos};
use montgomery_reduction::domb::{convert_limb_64_52, parallel_sub_r256};
use montgomery_reduction::emmart::modulus_u52;
use montgomery_reduction::{NP0, P, R2, U52_P};

const A: [u64; 4] = [
    0xbb91433a6aa79987,
    0xd1f6f86c029a7245,
    0xcd8778e7d340bbcd,
    0xdaea58ba4c73a942,
];
const B: [u64; 4] = [
    0xee8971105e503a67,
    0x452ec40a3193ca54,
    0x6facaa5090e5e945,
    0x5f811cb929645f8b,
];
const C: [u64; 4] = [
    0xdfc9e3b11fcff454,
    0x42d6cb5c6ed4e94b,
    0xa091250e8fe46024,
    0x27273a832ca1c789,
];
const D: [u64; 4] = [
    0x2fd2b7a48d9fe5b9,
    0xbcf74d7a5adad121,
    0xbb9d58e4f543bbcf,
    0x21fc9abb175f0cd2,
];
const A_TIMES_B: [u64; 5] = [
    0xa1b23ee35da142bc,
    0xf3f349483f1fe0eb,
    0x4786d07a28af930d,
    0x67de34d463721815,
    0x0,
];
const C_TIMES_D: [u64; 5] = [
    0xd83256871ad60751,
    0xcebacaa232212a58,
    0x3a851b0922afab69,
    0x161de3be8dde169a,
    0x0,
];
const A_TILDE: [u64; 5] = [
    0xf3e72f47a413e7f0,
    0x064d7f3540f07913,
    0xcf8fce3414e672a8,
    0x3085bcbe0d3983a3,
    0x0,
];
const A_MOD_P: [u64; 5] = [
    0xac096ceaaaa79983,
    0x3127574a1bb4b000,
    0xec46620dcd3b5a59,
    0x19591eeec7ad289b,
    0x0,
];
const ONE_R: [u64; 4] = [
    0xac96341c4ffffffb,
    0x36fc76959f60cd29,
    0x666ea36f7879462e,
    0x0e0a77c19a07df2f,
];

type Engine64 = fn([u64; 4], [u64; 4], [u64; 4], u64) -> [u64; 5];

const ENGINES64: [Engine64; 4] = [sos, cios, fios, cios_opt];

fn low4(x: [u64; 5]) -> [u64; 4] {
    [x[0], x[1], x[2], x[3]]
}

#[test]
fn mac_and_adc_split_double_words() {
    assert_eq!(mac(0, 0, 0, 0), (0, 0));
    assert_eq!(mac(2, 3, 4, 5), (15, 0));
    assert_eq!(mac(u64::MAX, u64::MAX, u64::MAX, u64::MAX), (u64::MAX, u64::MAX));
    assert_eq!(mac(1 << 63, 2, 0, 1), (1, 1));
    assert_eq!(adc(1, 2, 3), (6, 0));
    assert_eq!(adc(u64::MAX, 1, 0), (0, 1));
    assert_eq!(adc(u64::MAX, u64::MAX, u64::MAX), (u64::MAX - 2, 2));
}

#[test]
fn engines64_multiply() {
    for engine in ENGINES64 {
        assert_eq!(engine(A, B, P, NP0), A_TIMES_B);
        assert_eq!(engine(B, A, P, NP0), A_TIMES_B);
        assert_eq!(engine(C, D, P, NP0), C_TIMES_D);
    }
}

#[test]
fn engines64_round_trip() {
    for engine in ENGINES64 {
        let a_tilde = engine(A, R2, P, NP0);
        assert_eq!(a_tilde, A_TILDE);
        let a_round = engine(low4(a_tilde), [1, 0, 0, 0], P, NP0);
        assert_eq!(a_round, A_MOD_P);
    }
}

#[test]
fn engines64_zero_factor_gives_zero() {
    for engine in ENGINES64 {
        assert_eq!(engine([0; 4], B, P, NP0), [0; 5]);
        assert_eq!(engine(A, [0; 4], P, NP0), [0; 5]);
    }
}

#[test]
fn engines64_largest_residue_squared() {
    let mut largest = P;
    largest[0] -= 1;
    let expected: [u64; 5] = [
        0xdc5ba0056db1194e,
        0x090ef5a9e111ec87,
        0xc8260de4aeb85d5d,
        0x15ebf95182c5551c,
        0x0,
    ];
    for engine in ENGINES64 {
        assert_eq!(engine(largest, largest, P, NP0), expected);
    }
    // below the prime already
    assert!(expected[3] < P[3]);
}

#[test]
fn engines64_factors_at_the_top_of_the_range() {
    let expected: [u64; 5] = [
        0xdc5ba0056db1194c,
        0x090ef5a9e111ec87,
        0xc8260de4aeb85d5d,
        0x15ebf95182c5551c,
        0x1,
    ];
    for engine in ENGINES64 {
        assert_eq!(engine([u64::MAX; 4], [u64::MAX; 4], P, NP0), expected);
    }
}

#[test]
fn engines64_one_times_one_in_the_montgomery_domain() {
    for engine in ENGINES64 {
        assert_eq!(low4(engine(ONE_R, ONE_R, P, NP0)), ONE_R);
    }
}

#[test]
fn saturated_engine_multiplies_two_pairs() {
    assert_eq!(cios_opt_sat(A, B, C, D, P, NP0), (A_TIMES_B, C_TIMES_D));
    assert_eq!(cios_opt_sat(C, D, A, R2, P, NP0), (C_TIMES_D, A_TILDE));
}

#[test]
fn engines64_agree_with_the_parallel_engine_modulo_the_prime() {
    let serial = cios(C, D, P, NP0);
    let parallel = parallel_sub_r256(C, D);
    assert_eq!(
        modulus_u52(convert_limb_64_52(low4(serial)), U52_P),
        modulus_u52(convert_limb_64_52(parallel), U52_P)
    );
    assert_eq!(low4(cios(A, R2, P, NP0)), parallel_sub_r256(A, R2));
}

#[test]
fn engines64_with_a_small_modulus() {
    // modulus 7, for which -7^{-1} mod 2^64 is 0x6db6db6db6db6db7 * -1
    let n: [u64; 4] = [7, 0, 0, 0];
    let inverse: u64 = 0x6db6db6db6db6db7;
    assert_eq!(7u64.wrapping_mul(inverse), 1);
    let np0 = inverse.wrapping_neg();
    for engine in ENGINES64 {
        let r = engine([3, 0, 0, 0], [5, 0, 0, 0], n, np0);
        // r * 2^256 = 15 modulo 7, and 2^256 = 2 modulo 7
        assert_eq!(r[1..], [0, 0, 0, 0]);
        assert!(r[0] < 14);
        assert_eq!((r[0] * 2) % 7, 15 % 7);
    }
}
