use spiral_client::arith::{invert_pow2_mod, multiply_uint_mod, recenter};
use spiral_client::bits::{pack_bits, read_arbitrary_bits};
use spiral_client::decode::rescale;
use spiral_client::params::{log2_ceil_exec, params_with_moduli, Params, ParamsError};
use spiral_client::query_build::{get_bits_per, query_sigma};
use spiral_client::regev::{encrypt_reg_poly, matrix_with_identity};
use spiral_client::poly::PolyMatrixRaw;

const MODULI: [u64; 2] = [268369921, 249561089];
const Q: u64 = 66974689739603969;

fn short_params() -> Params {
    Params::init(2048, &MODULI.to_vec(), 2, 256, 20, 4, 4, 4, 4, true, 9, 6, 1, 2048).unwrap()
}

#[test]
fn params_derive_sizes() {
    let p = short_params();
    assert_eq!(p.modulus, Q);
    assert_eq!(p.g(), 10);
    assert_eq!(p.stop_round(), 5);
    assert_eq!(p.num_expanded(), 512);
    let mat = |r: usize, c: usize| r * c * 2048 * 8;
    assert_eq!(
        p.setup_bytes(),
        2 * mat(3, 4) + 10 * mat(2, 4) + 6 * mat(2, 4) + mat(2, 8)
    );
    assert_eq!(p.query_bytes(), mat(2, 1));
    assert_eq!(p.q2(), 786433);
}

#[test]
fn params_out_of_range_are_refused() {
    let m = MODULI.to_vec();
    let e = |r: Result<Params, ParamsError>| r.err().unwrap();
    assert_eq!(e(Params::init(3000, &m, 2, 256, 20, 4, 4, 4, 4, true, 9, 6, 1, 2048)), ParamsError::PolyLen);
    assert_eq!(e(Params::init(2048, &m, 2, 256, 5, 4, 4, 4, 4, true, 9, 6, 1, 2048)), ParamsError::Q2Bits);
    assert_eq!(e(Params::init(2048, &m, 0, 256, 20, 4, 4, 4, 4, true, 9, 6, 1, 2048)), ParamsError::N);
    assert_eq!(e(Params::init(2048, &vec![4, 9], 2, 256, 20, 4, 4, 4, 4, true, 9, 6, 1, 2048)), ParamsError::Modulus);
    assert_eq!(e(Params::init(2048, &vec![1u64 << 40, 1u64 << 40], 2, 256, 20, 4, 4, 4, 4, true, 9, 6, 1, 2048)), ParamsError::Moduli);
    assert_eq!(e(Params::init(2048, &m, 2, 256, 20, 0, 4, 4, 4, true, 9, 6, 1, 2048)), ParamsError::GadgetWidth);
    assert_eq!(e(Params::init(2048, &m, 2, 256, 20, 4, 4, 4, 4, true, 21, 6, 1, 2048)), ParamsError::DbDims);
    assert_eq!(e(Params::init(2048, &m, 2, 256, 20, 4, 4, 4, 4, true, 9, 6, 0, 2048)), ParamsError::Instances);
    assert_eq!(e(Params::init(2048, &m, 2, 1, 20, 4, 4, 4, 4, true, 9, 6, 1, 2048)), ParamsError::PtModulus);
}

#[test]
fn params_with_other_moduli() {
    let p = short_params();
    let q = params_with_moduli(&p, &vec![786433]).unwrap();
    assert_eq!(q.modulus, 786433);
    assert_eq!(q.n, p.n);
    assert_eq!(params_with_moduli(&p, &vec![255]).err(), Some(ParamsError::PtModulus));
}

#[test]
fn modular_helpers() {
    assert_eq!(multiply_uint_mod(1 << 40, 1 << 40, 1_000_000_007), ((1u128 << 80) % 1_000_000_007) as u64);
    assert_eq!(invert_pow2_mod(1, 7), 4);
    assert_eq!(invert_pow2_mod(3, 7), 1);
    let inv = invert_pow2_mod(10, Q);
    assert_eq!(((inv as u128) * 1024) % (Q as u128), 1);
    assert_eq!(recenter(6, 7, 5), 4);
    assert_eq!(recenter(2, 7, 5), 2);
    assert_eq!(recenter(Q - 1, Q, 786433), 786432);
    assert_eq!(log2_ceil_exec(1), 0);
    assert_eq!(log2_ceil_exec(1024), 10);
    assert_eq!(log2_ceil_exec(1025), 11);
    assert_eq!(log2_ceil_exec(Q), 56);
}

#[test]
fn rescale_rounds_half_away_from_zero() {
    assert_eq!(rescale(0, 8, 1024, 786433, 256), 2);
    assert_eq!(rescale(0, 1020, 1024, 786433, 256), 255);
    assert_eq!(rescale(786432, 0, 1024, 786433, 256), 0);
    assert_eq!(rescale(0, 4 * 77, 1024, 786433, 256), 77);
}

#[test]
fn bit_streams_are_msb_first() {
    let data = [0b1010_0000u8, 0xFF];
    assert_eq!(read_arbitrary_bits(&data, 0, 3), 5);
    assert_eq!(read_arbitrary_bits(&data, 2, 8), 0b1000_0011);
    assert_eq!(read_arbitrary_bits(&data, 0, 0), 0);
    assert_eq!(pack_bits(&vec![5, 3], 3), vec![0b1010_1100]);
    assert_eq!(pack_bits(&vec![0x1234], 16), vec![0x12, 0x34]);
    let packed = pack_bits(&vec![1000, 3, 77], 10);
    assert_eq!(packed.len(), 4);
    assert_eq!(read_arbitrary_bits(&packed, 0, 10), 1000);
    assert_eq!(read_arbitrary_bits(&packed, 10, 10), 3);
    assert_eq!(read_arbitrary_bits(&packed, 20, 10), 77);
}

#[test]
fn query_polynomial_for_index_one() {
    let p = short_params();
    assert_eq!(get_bits_per(&p, 4), 15);
    let sigma = query_sigma(&p, 1);
    let inv_first = invert_pow2_mod(10, Q);
    let inv_rest = invert_pow2_mod(6, Q);
    let scale_k = Q / 256;
    assert_eq!(sigma.len(), 2048);
    assert_eq!(sigma[0] as u128, (scale_k as u128 * inv_first as u128) % Q as u128);
    assert_eq!(sigma[1], inv_rest);
    assert_eq!(sigma[3], multiply_uint_mod(1 << 15, inv_rest, Q));
    assert_eq!(sigma[9], 0);
    assert_eq!(sigma[2], 0);
    let sigma2 = query_sigma(&p, 64);
    assert_eq!(sigma2[1], 0);
    assert_eq!(sigma2[2] as u128, (scale_k as u128 * inv_first as u128) % Q as u128);
}

#[test]
fn regev_ciphertext_is_negacyclic() {
    let s = vec![0, 1, 0, 0];
    let a = vec![0, 0, 0, 1];
    let e = vec![0, 0, 0, 0];
    let m = vec![5, 0, 0, 0];
    let ct = encrypt_reg_poly(&s, &a, &e, &m, 97);
    assert_eq!(ct.data, vec![0, 0, 0, 96, 4, 0, 0, 0]);
    let s = vec![1, 2, 0, 0];
    let a = vec![3, 0, 0, 0];
    let ct = encrypt_reg_poly(&s, &a, &vec![1, 0, 0, 0], &m, 97);
    assert_eq!(ct.data, vec![94, 0, 0, 0, 9, 6, 0, 0]);
}

#[test]
fn identity_augmentation() {
    let p = short_params();
    let mut sk = PolyMatrixRaw::zero(&p, 2, 1);
    sk.data[0] = 7;
    sk.data[2048] = 9;
    let full = matrix_with_identity(&sk);
    assert_eq!(full.rows, 2);
    assert_eq!(full.cols, 3);
    assert_eq!(full.data[0], 7);
    assert_eq!(full.data[2048], 1);
    assert_eq!(full.data[2 * 2048], 0);
    assert_eq!(full.data[3 * 2048], 9);
    assert_eq!(full.data[5 * 2048], 1);
    assert_eq!(full.data[5 * 2048 + 1], 0);
}
