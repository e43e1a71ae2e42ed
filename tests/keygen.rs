use spiral_client::client::Client;
use spiral_client::keygen::{automorph_poly, gadget_value, KeygenRandomness};
use spiral_client::params::Params;
use spiral_client::poly::PolyMatrixRaw;
use spiral_client::public_params::PublicParameters;

fn tiny_params(expand: bool) -> Params {
    Params::init(16, &vec![268369921, 249561089], 1, 256, 20, 2, 2, 2, 2, expand, 1, 1, 1, 16).unwrap()
}

fn polys(count: usize, len: usize, v: u64) -> Vec<Vec<u64>> {
    vec![vec![v; len]; count]
}

fn randomness(params: &Params) -> KeygenRandomness {
    let np = params.poly_len;
    let n = params.n;
    KeygenRandomness {
        packing_a: vec![polys(params.t_conv, np, 3); n],
        packing_e: vec![vec![polys(params.t_conv, np, 0); n]; n],
        left_a: Vec::new(),
        left_e: vec![polys(params.t_exp_left, np, 0); params.g()],
        right_a: Vec::new(),
        right_e: vec![polys(params.t_exp_right, np, 0); params.stop_round() + 1],
        conv_a: Vec::new(),
        conv_e: polys(2 * params.t_conv, np, 0),
    }
}

#[test]
fn keygen_produces_shaped_parameters() {
    let params = tiny_params(true);
    let mut client = Client::init(&params, [11u8; 32]);
    let mut sk_gsw = PolyMatrixRaw::zero(&params, 1, 1);
    sk_gsw.data[0] = 1;
    let mut sk_reg = PolyMatrixRaw::zero(&params, 1, 1);
    sk_reg.data[1] = params.modulus - 1;
    let pp = client.generate_keys(sk_gsw, sk_reg, randomness(&params));
    assert_eq!(pp.v_packing.len(), 1);
    assert_eq!(pp.v_expansion_left.as_ref().unwrap().len(), params.g());
    assert_eq!(pp.v_expansion_right.as_ref().unwrap().len(), params.stop_round() + 1);
    assert_eq!(pp.v_conversion.as_ref().unwrap().len(), 1);
    let bytes = pp.serialize();
    assert_eq!(bytes.len(), params.setup_bytes());
    let back = PublicParameters::deserialize(&params, &bytes).unwrap();
    assert_eq!(back.serialize(), bytes);

    // packing key: row 0 is -a, row 1 is sk_gsw * a + sk_reg * gadget digit
    let w = &pp.v_packing[0];
    let q = params.modulus;
    assert_eq!(w.data[0], q - 3);
    // sk_gsw = 1, so row 1, column 0 is a + sk_reg * 1
    let row1 = &w.data[2 * 16..3 * 16];
    assert_eq!(row1[0], 3);
    assert_eq!(row1[1], 2);
    assert_eq!(row1[2], 3);
}

#[test]
fn keygen_is_deterministic() {
    let params = tiny_params(true);
    let mut c1 = Client::init(&params, [1u8; 32]);
    let mut c2 = Client::init(&params, [1u8; 32]);
    let k1 = c1.generate_keys(PolyMatrixRaw::zero(&params, 1, 1), PolyMatrixRaw::zero(&params, 1, 1), randomness(&params));
    let k2 = c2.generate_keys(PolyMatrixRaw::zero(&params, 1, 1), PolyMatrixRaw::zero(&params, 1, 1), randomness(&params));
    assert_eq!(k1.serialize(), k2.serialize());
}

#[test]
fn no_expansion_keygen_has_only_packing_keys() {
    let params = tiny_params(false);
    let mut client = Client::init(&params, [2u8; 32]);
    let pp = client.generate_keys(PolyMatrixRaw::zero(&params, 1, 1), PolyMatrixRaw::zero(&params, 1, 1), randomness(&params));
    assert!(pp.v_expansion_left.is_none());
    assert_eq!(pp.serialize().len(), params.setup_bytes());
}

#[test]
fn automorphism_permutes_with_signs() {
    // p = X, t = 3: X -> X^3
    let mut p = vec![0u64; 4];
    p[1] = 5;
    assert_eq!(automorph_poly(&p, 3, 97), vec![0, 0, 0, 5]);
    // p = X^2, t = 3: X^6 = -X^2 mod X^4 + 1
    let mut p = vec![0u64; 4];
    p[2] = 5;
    assert_eq!(automorph_poly(&p, 3, 97), vec![0, 0, 92, 0]);
}

#[test]
fn gadget_digits_are_powers_of_two() {
    let params = tiny_params(true);
    // log2 Q = 56, two digits of 29 bits
    assert_eq!(gadget_value(&params, 2, 0), 1);
    assert_eq!(gadget_value(&params, 2, 1), 1 << 29);
}

#[test]
fn regev_matrix_decrypts_to_message_plus_noise() {
    let params = tiny_params(true);
    let mut client = Client::init(&params, [4u8; 32]);
    let mut sk_reg = PolyMatrixRaw::zero(&params, 1, 1);
    sk_reg.data[0] = 2;
    sk_reg.data[3] = params.modulus - 1;
    client.set_keys(PolyMatrixRaw::zero(&params, 1, 1), sk_reg);
    let msg = vec![vec![7u64; 16], (0..16).collect::<Vec<u64>>()];
    let e = vec![vec![1u64; 16], vec![0u64; 16]];
    let ct = client.encrypt_matrix_reg(&msg, &e);
    assert_eq!(ct.rows, 2);
    assert_eq!(ct.cols, 2);
    let pt = client.decrypt_matrix_reg(&ct);
    assert_eq!(&pt.data[0..16], &vec![8u64; 16][..]);
    assert_eq!(&pt.data[16..32], &(0..16).collect::<Vec<u64>>()[..]);
}

#[test]
fn expanded_query_decrypts_to_query_polynomial() {
    let params = Params::init(2048, &vec![268369921, 249561089], 2, 256, 20, 4, 4, 4, 4, true, 9, 6, 1, 2048).unwrap();
    let mut client = Client::init(&params, [6u8; 32]);
    let mut sk_reg = PolyMatrixRaw::zero(&params, 1, 1);
    sk_reg.data[5] = 1;
    client.set_keys(PolyMatrixRaw::zero(&params, 2, 1), sk_reg);
    let e = vec![vec![0u64; 2048]];
    let q = client.generate_query(1, &e);
    let pt = client.decrypt_matrix_reg(q.ct.as_ref().unwrap());
    assert_eq!(pt.data, spiral_client::query_build::query_sigma(&params, 1));
}

#[test]
fn packing_key_decrypts_to_scaled_secret() {
    let params = tiny_params(true);
    let mut client = Client::init(&params, [8u8; 32]);
    let mut sk_gsw = PolyMatrixRaw::zero(&params, 1, 1);
    sk_gsw.data[2] = 5;
    let mut sk_reg = PolyMatrixRaw::zero(&params, 1, 1);
    sk_reg.data[1] = params.modulus - 1;
    let pp = client.generate_keys(sk_gsw, sk_reg, randomness(&params));
    let pt = client.decrypt_matrix_gsw(&pp.v_packing[0]);
    assert_eq!(pt.rows, 1);
    assert_eq!(pt.cols, 2);
    let mut expected0 = vec![0u64; 16];
    expected0[1] = params.modulus - 1;
    assert_eq!(&pt.data[0..16], &expected0[..]);
    let mut expected1 = vec![0u64; 16];
    expected1[1] = params.modulus - (1u64 << 29);
    assert_eq!(&pt.data[16..32], &expected1[..]);
}

#[test]
fn unexpanded_query_ciphertexts_decrypt() {
    let params = tiny_params(false);
    let mut client = Client::init(&params, [12u8; 32]);
    let mut sk_reg = PolyMatrixRaw::zero(&params, 1, 1);
    sk_reg.data[2] = 3;
    client.set_keys(PolyMatrixRaw::zero(&params, 1, 1), sk_reg);
    let count = spiral_client::query_build::query_count_exec(&params);
    assert_eq!(count, 2 + 2 * 1 * 2);
    let noise = vec![vec![0u64; 16]; count];
    // index 3: first-dimension position 1, further bit 1
    let q = client.generate_query(3, &noise);
    let v_buf = q.v_buf.as_ref().unwrap();
    assert_eq!(v_buf.len(), 2 * 2 * 16);
    let q_mod = params.modulus;
    let scale_k = q_mod / 256;
    // rebuild ciphertext 1 from the server order and decrypt it: s * c0 + c1
    let c0: Vec<u64> = (0..16).map(|z| v_buf[z * 4 + 2]).collect();
    let c1: Vec<u64> = (0..16).map(|z| v_buf[z * 4 + 3]).collect();
    let mut ct = PolyMatrixRaw::zero(&params, 2, 1);
    ct.data[..16].copy_from_slice(&c0);
    ct.data[16..].copy_from_slice(&c1);
    let pt = client.decrypt_matrix_reg(&ct);
    assert_eq!(pt.data[0], scale_k);
    assert!(pt.data[1..].iter().all(|&x| x == 0));
    let gsw = &q.v_ct.as_ref().unwrap()[0];
    assert_eq!((gsw.rows, gsw.cols), (2, 4));
    let pt = client.decrypt_matrix_reg(gsw);
    // column 1: digit 0 of bit 1 is 1; column 0: sk_reg times it
    assert_eq!(pt.data[16], 1);
    assert_eq!(pt.data[2], 3);
    assert_eq!(pt.data[3 * 16], 1 << 29);
}
