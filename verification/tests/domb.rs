use montgomery_reduction::domb::{
    addv, addv_simd, convert_from_simd, convert_limb_52_64, convert_limb_52_64_simd,
    convert_limb_64_52, convert_limb_64_52_shl2, convert_limb_64_52_shl2_simd,
    convert_limb_64_52_shl2_simd_stub, convert_to_simd, convert_to_simd_stub, heaviside,
    parallel_ref, parallel_simd_sub, parallel_sub, parallel_sub_r256, parallel_sub_simd_r256,
    parallel_sub_stub, resolve_simd_add_truncate, resolve_simd_add_truncate_trans, smult,
    smult_noinit, smult_noinit_simd, trans_vmultadd_noinit_simd, vmult, vmultadd_noinit,
    vmultadd_noinit_simd, RHO_1, RHO_2, RHO_3, RHO_4,
};
use montgomery_reduction::emmart::{modulus_u52, resolve};
use montgomery_reduction::simd::{lanes_add, lanes_high52, lanes_low52, lanes_mul, splat};
use montgomery_reduction::{P, R2, U52_P, U52_R2};

const A52: [u64; 5] = [
    0x1433a6aa79987,
    0x6c029a7245bb9,
    0x340bbcdd1f6f8,
    0xa942cd8778e7d,
    0xdaea58ba4c73,
];
const B52: [u64; 5] = [
    0x971105e503a67,
    0xa3193ca54ee8,
    0xe5e945452ec4,
    0x5f8b6facaa509,
    0x5f811cb92964,
];
const A64: [u64; 4] = [
    0xbb91433a6aa79987,
    0xd1f6f86c029a7245,
    0xcd8778e7d340bbcd,
    0xdaea58ba4c73a942,
];
const B64: [u64; 4] = [
    0xee8971105e503a67,
    0x452ec40a3193ca54,
    0x6facaa5090e5e945,
    0x5f811cb929645f8b,
];
const A_MOD_P52: [u64; 5] = [
    0x96ceaaaa79983,
    0x4a1bb4b000ac0,
    0xd3b5a59312757,
    0x289bec46620dc,
    0x19591eeec7ad,
];
const B_MOD_P52: [u64; 5] = [
    0x77b7c6e503a66,
    0xc1b7da59c3aaa,
    0xf6490e81cfadb,
    0xbf61b75c649a0,
    0x2f1cce464832,
];
const C52: [u64; 5] = [
    0x9e3b11fcff454,
    0x5c6ed4e94bdfc,
    0xfe4602442d6cb,
    0xc789a091250e8,
    0x27273a832ca1,
];
const D52: [u64; 5] = [
    0x2b7a48d9fe5b9,
    0x7a5adad1212fd,
    0x543bbcfbcf74d,
    0xcd2bb9d58e4f,
    0x21fc9abb175f,
];
const C_TIMES_D: [u64; 5] = [
    0x6fba322ad6076,
    0x6e153fec2dbd2,
    0xb943d8df29c56,
    0x6790c073930ba,
    0x2ebfe7c79bfc,
];
const A_TILDE: [u64; 5] = [
    0x590cf313e7ef1,
    0x14ed29f8bc443,
    0x7d2fd0b09cd57,
    0xd7cb2c48cd8fb,
    0x327b3325a1af,
];
const A_TILDE_256: [u64; 4] = [
    0xf3e72f47a413e7f0,
    0x064d7f3540f07913,
    0xcf8fce3414e672a8,
    0x3085bcbe0d3983a3,
];
const B_TILDE_256: [u64; 4] = [
    0x68a6ce00026ae4c5,
    0x2535773e96a924fa,
    0xa26007f6c151f89c,
    0x2408a08ac9fe8c44,
];
const ONE52: [u64; 5] = [1, 0, 0, 0, 0];
const ONE64: [u64; 4] = [1, 0, 0, 0];
const MASK52: u64 = (1 << 52) - 1;

fn weighted(limbs: &[u64], bits: u32) -> Vec<u128> {
    // the value of a limb array as 128-bit words of a carry-free sum, for
    // comparing redundant forms: accumulates limb k at bit position bits * k
    let mut acc = vec![0u128; 12];
    for (k, limb) in limbs.iter().enumerate() {
        let pos = bits as usize * k;
        let word = pos / 64;
        let shift = pos % 64;
        let wide = (*limb as u128) << shift;
        acc[word] += wide & 0xFFFF_FFFF_FFFF_FFFF;
        acc[word + 1] += wide >> 64;
    }
    for i in 0..11 {
        let carry = acc[i] >> 64;
        acc[i] &= 0xFFFF_FFFF_FFFF_FFFF;
        acc[i + 1] += carry;
    }
    acc
}

#[test]
fn heaviside_steps_at_zero() {
    assert_eq!(heaviside(-1), 0);
    assert_eq!(heaviside(0), 1);
    assert_eq!(heaviside(5), 1);
    assert_eq!(heaviside(isize::MIN), 0);
}

#[test]
fn reduction_constants_are_resolved() {
    for rho in [RHO_1, RHO_2, RHO_3, RHO_4] {
        for limb in rho {
            assert!(limb <= MASK52);
        }
        assert_eq!(modulus_u52(rho, U52_P), rho);
    }
}

#[test]
fn addv_wraps() {
    assert_eq!(addv([1u64, u64::MAX, 7], [2u64, 3, 0]), [3, 2, 7]);
    assert_eq!(
        addv_simd([[1u64, u64::MAX], [5, 6]], [[2u64, 3], [10, 20]]),
        [[3, 2], [15, 26]]
    );
}

#[test]
fn lane_operations_act_on_both_lanes() {
    assert_eq!(splat(9), [9, 9]);
    assert_eq!(lanes_add([1, u64::MAX], [2, 2]), [3, 1]);
    assert_eq!(lanes_mul([3, 1 << 63], 2), [6, 0]);
    assert_eq!(lanes_low52([MASK52 + 8, 5]), [7, 5]);
    assert_eq!(lanes_high52([MASK52 + 8, 5 << 52]), [1, 5]);
}

#[test]
fn vmult_gives_the_columns() {
    let expected: [u64; 10] = [
        0x556da6e675b51,
        0xe2b9858215269,
        0x1a2ba48d742b20,
        0x20a50c5029ce1f,
        0x2bf77caa4dec09,
        0x2c898bfeb3ad3a,
        0x8e9280b583401,
        0x745742e10f0b6,
        0x34e8aadb66d44,
        0x51ab5f93d0b,
    ];
    assert_eq!(vmult(A52, B52), expected);
    assert_eq!(vmult([0; 5], B52), [0; 10]);
    assert_eq!(vmult(ONE52, B52)[..5], B52);
}

#[test]
fn vmultadd_noinit_adds_with_bias() {
    // on accumulators seeded as vmult seeds them, the columns come out
    let seeded = vmultadd_noinit([0; 5], [0; 5], [0; 10]);
    let columns = vmult(A52, B52);
    let biased = vmultadd_noinit(A52, B52, [0; 10]);
    for k in 0..10 {
        assert_eq!(biased[k], columns[k].wrapping_add(seeded[k]));
    }
    // the bias of column 0 is that of one low half
    assert_eq!(seeded[0], 0x433 << 52);
    assert_eq!(seeded[9], 0x467 << 52);
    assert_eq!(seeded[4], (5u64 * 0x433 + 4 * 0x467) << 52);
}

#[test]
fn smult_gives_a_row() {
    let expected: [u64; 6] = [
        0xbeadfaa79987,
        0x1c13fb5197acd,
        0xa4610324febc9,
        0xef22c1786f706,
        0x8d84a67dd3591,
        0x3d1999ddef1,
    ];
    assert_eq!(smult(A52[0], U52_P), expected);
    assert_eq!(smult(0, U52_P), [0; 6]);
    assert_eq!(smult(1, U52_P)[..5], U52_P);
    let biased: [u64; 6] = [
        0x4330beadfaa79987,
        0x89a1c13fb5197acd,
        0x89aa4610324febc9,
        0x89aef22c1786f706,
        0x89a8d84a67dd3591,
        0x467003d1999ddef1,
    ];
    assert_eq!(smult_noinit(A52[0], U52_P), biased);
    let paired = smult_noinit_simd([A52[0], 1], U52_P);
    let second = smult_noinit(1, U52_P);
    for d in 0..6 {
        assert_eq!(paired[d], [biased[d], second[d]]);
    }
}

#[test]
fn conversions_are_inverses() {
    for x in [A64, B64, P, R2, [0; 4], [u64::MAX; 4]] {
        let wide = convert_limb_64_52(x);
        for limb in wide {
            assert!(limb <= MASK52);
        }
        assert_eq!(convert_limb_52_64(wide), x);
    }
    assert_eq!(convert_limb_64_52(A64), A52);
    assert_eq!(convert_limb_64_52(P), U52_P);
    assert_eq!(convert_limb_52_64(U52_P), P);
}

#[test]
fn shifted_conversion_multiplies_by_four() {
    let expected: [u64; 5] = [
        0x50ce9aa9e661c,
        0xb00a69c916ee4,
        0xd02ef3747dbe1,
        0xa50b361de39f4,
        0x36ba962e931ce,
    ];
    assert_eq!(convert_limb_64_52_shl2(A64), expected);
    assert_eq!(convert_limb_64_52_shl2(ONE64), [4, 0, 0, 0, 0]);
    assert_eq!(
        convert_limb_64_52_shl2([u64::MAX; 4]),
        [MASK52 - 3, MASK52, MASK52, MASK52, (1 << 50) - 1]
    );
    let shifted = [
        A64[0] << 2,
        (A64[0] >> 62) | (A64[1] << 2),
        (A64[1] >> 62) | (A64[2] << 2),
        (A64[2] >> 62) | (A64[3] << 2),
        A64[3] >> 62,
    ];
    assert_eq!(weighted(&expected, 52), weighted(&shifted, 64));
    // what does not fit into 256 bits is dropped on the way back
    assert_eq!(convert_limb_52_64([0, 0, 0, 0, 1 << 48]), [0; 4]);
    assert_eq!(convert_limb_52_64([0, 0, 0, 0, (1 << 48) | 1]), [0, 0, 0, 1 << 16]);
}

#[test]
fn parallel_round_trip() {
    for engine in [parallel_ref, parallel_sub, parallel_sub_stub] {
        let a_tilde = engine(A52, U52_R2);
        assert_eq!(a_tilde, A_TILDE);
        let a_round = engine(a_tilde, ONE52);
        assert_eq!(modulus_u52(a_round, U52_P), modulus_u52(A52, U52_P));
        assert_eq!(a_round, A_MOD_P52);
    }
}

#[test]
fn parallel_engines_agree_with_the_serial_ones() {
    assert_eq!(parallel_ref(C52, D52), C_TIMES_D);
    assert_eq!(parallel_sub(C52, D52), C_TIMES_D);
    assert_eq!(parallel_sub(D52, C52), C_TIMES_D);
}

#[test]
fn parallel_zero_factor_gives_zero() {
    assert_eq!(parallel_ref([0; 5], C52), [0; 5]);
    assert_eq!(parallel_sub([0; 5], C52), [0; 5]);
    assert_eq!(parallel_sub(C52, [0; 5]), [0; 5]);
    assert_eq!(parallel_sub_r256([0; 4], A64), [0; 4]);
}

#[test]
fn parallel_largest_residue_squared() {
    let mut largest = U52_P;
    largest[0] -= 1;
    let r = parallel_sub(largest, largest);
    let expected: [u64; 5] = [
        0x1f8b2d4db1195,
        0x63ad484cdaa64,
        0xb1bb0e175976c,
        0x8957038c69951,
        0x76b49637452,
    ];
    assert_eq!(modulus_u52(r, U52_P), expected);
    assert_eq!(parallel_ref(largest, largest), r);
}

#[test]
fn parallel_factors_at_the_top_of_the_range() {
    let top = [MASK52; 5];
    let expected: [u64; 5] = [
        0x1f8b2d4db1193,
        0x63ad484cdaa64,
        0xb1bb0e175976c,
        0x8957038c69951,
        0x76b49637452,
    ];
    assert_eq!(parallel_sub(top, top), expected);
    assert_eq!(parallel_ref(top, top), expected);
}

#[test]
fn parallel_sub_r256_round_trip() {
    let a_tilde = parallel_sub_r256(A64, R2);
    assert_eq!(a_tilde, A_TILDE_256);
    let a_round = parallel_sub_r256(a_tilde, ONE64);
    assert_eq!(
        a_round,
        [0xefeb627e9aa79984, 0x595b3f92956e2091, 0xa496a7c44ebcb2b6, 0x49bd6d61a8dec8c5]
    );
    assert_eq!(modulus_u52(convert_limb_64_52(a_round), U52_P), A_MOD_P52);
    assert_eq!(modulus_u52(convert_limb_64_52(A64), U52_P), A_MOD_P52);
}

#[test]
fn parallel_sub_simd_r256_round_trip() {
    let a_tilde = parallel_sub_simd_r256([A64, B64], [R2, R2]);
    assert_eq!(a_tilde, [A_TILDE_256, B_TILDE_256]);
    let a_round = parallel_sub_simd_r256(a_tilde, [ONE64, ONE64]);
    assert_eq!(modulus_u52(convert_limb_64_52(a_round[0]), U52_P), A_MOD_P52);
    assert_eq!(modulus_u52(convert_limb_64_52(a_round[1]), U52_P), B_MOD_P52);
    assert_eq!(
        a_round[1],
        [0xaaa77b7c6e503a66, 0x1cfadbc1b7da59c3, 0xb75c649a0f6490e8, 0x2f1cce464832bf61]
    );
}

#[test]
fn paired_engines_equal_the_scalar_ones_lane_by_lane() {
    let pairs = [(A52, B52), (C52, D52), ([0; 5], A52), ([MASK52; 5], [MASK52; 5])];
    for (x, y) in pairs {
        for (u, v) in pairs {
            let both = parallel_simd_sub([x, u], [y, v]);
            assert_eq!(both[0], parallel_sub(x, y));
            assert_eq!(both[1], parallel_sub(u, v));
        }
    }
    let both = parallel_sub_simd_r256([A64, B64], [B64, R2]);
    assert_eq!(both[0], parallel_sub_r256(A64, B64));
    assert_eq!(both[1], parallel_sub_r256(B64, R2));
}

#[test]
fn paired_helpers_equal_the_scalar_ones_lane_by_lane() {
    let paired = convert_to_simd([A64, B64]);
    assert_eq!(paired, [[A64[0], B64[0]], [A64[1], B64[1]], [A64[2], B64[2]], [A64[3], B64[3]]]);
    assert_eq!(convert_to_simd_stub([A64, B64]), paired);
    assert_eq!(convert_from_simd(paired), [A64, B64]);
    let wide = convert_limb_64_52_shl2_simd(paired);
    assert_eq!(convert_limb_64_52_shl2_simd_stub(paired), wide);
    let first = convert_limb_64_52_shl2(A64);
    let second = convert_limb_64_52_shl2(B64);
    for k in 0..5 {
        assert_eq!(wide[k], [first[k], second[k]]);
    }
    let a_lanes = [
        [A52[0], C52[0]],
        [A52[1], C52[1]],
        [A52[2], C52[2]],
        [A52[3], C52[3]],
        [A52[4], C52[4]],
    ];
    let narrow = convert_limb_52_64_simd(a_lanes);
    let x = convert_limb_52_64(A52);
    let y = convert_limb_52_64(C52);
    for k in 0..4 {
        assert_eq!(narrow[k], [x[k], y[k]]);
    }
    let b_lanes = [
        [B52[0], D52[0]],
        [B52[1], D52[1]],
        [B52[2], D52[2]],
        [B52[3], D52[3]],
        [B52[4], D52[4]],
    ];
    let t = vmultadd_noinit_simd(a_lanes, b_lanes, [[0, 0]; 10]);
    let t0 = vmultadd_noinit(A52, B52, [0; 10]);
    let t1 = vmultadd_noinit(C52, D52, [0; 10]);
    for k in 0..10 {
        assert_eq!(t[k], [t0[k], t1[k]]);
    }
    assert_eq!(trans_vmultadd_noinit_simd([A52, C52], [B52, D52], [[0, 0]; 10]), t);
}

#[test]
fn paired_resolve_drops_the_lowest_limb() {
    let s = [[5u64 << 52, 1 << 52], [MASK52, 0], [0, 7], [1, 0], [0, 0], [3, MASK52 + 2]];
    let mp = [[1u64 << 52, 0], [1, 0], [MASK52, 1], [0, 0], [0, 9], [0, 0]];
    let out = resolve_simd_add_truncate(s, mp);
    assert_eq!(out, [[6, 1], [0, 8], [2, 0], [0, 9], [3, 1]]);
    let apart = resolve_simd_add_truncate_trans(s, mp);
    assert_eq!(apart, [[6, 0, 2, 0, 3], [1, 8, 0, 9, 1]]);
    // the same through the six-limb resolve of each lane
    let first = resolve([6 << 52, MASK52 + 1, MASK52, 1, 0, 3]);
    assert_eq!(first[1..], apart[0]);
}
