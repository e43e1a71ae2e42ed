use rand::RngCore;
use rand::SeedableRng;
use rand_chacha::ChaCha20Rng;
use spiral_client::client::Client;
use spiral_client::keygen::KeygenRandomness;
use spiral_client::query_build::query_count_exec;
use spiral_client::params::Params;
use spiral_client::poly::PolyMatrixRaw;
use spiral_client::public_params::{CodecError, PublicParameters};
use spiral_client::query::Query;

const MODULI: [u64; 2] = [268369921, 249561089];

fn get_short_keygen_params() -> Params {
    Params::init(2048, &MODULI.to_vec(), 2, 256, 20, 4, 4, 4, 4, true, 9, 6, 1, 2048).unwrap()
}

fn get_no_expansion_testing_params() -> Params {
    Params::init(2048, &MODULI.to_vec(), 5, 65536, 27, 56, 56, 56, 3, false, 6, 2, 1, 2048).unwrap()
}

fn random_matrix(params: &Params, rng: &mut ChaCha20Rng, rows: usize, cols: usize) -> PolyMatrixRaw {
    let mut m = PolyMatrixRaw::zero(params, rows, cols);
    for x in m.data.iter_mut() {
        *x = rng.next_u64() % params.modulus;
    }
    m
}

fn random_list(params: &Params, rng: &mut ChaCha20Rng, count: usize, rows: usize, cols: usize) -> Vec<PolyMatrixRaw> {
    (0..count).map(|_| random_matrix(params, rng, rows, cols)).collect()
}

fn random_public_parameters(params: &Params) -> PublicParameters {
    let mut rng = ChaCha20Rng::from_seed([1u8; 32]);
    let mut pp = PublicParameters::init(params);
    pp.v_packing = random_list(params, &mut rng, params.n, params.n + 1, params.t_conv);
    if params.expand_queries {
        pp.v_expansion_left = Some(random_list(params, &mut rng, params.g(), 2, params.t_exp_left));
        pp.v_expansion_right =
            Some(random_list(params, &mut rng, params.stop_round() + 1, 2, params.t_exp_right));
        pp.v_conversion = Some(random_list(params, &mut rng, 1, 2, 2 * params.t_conv));
    }
    pp
}

fn get_vec(v: &Vec<PolyMatrixRaw>) -> Vec<u64> {
    v.iter().map(|d| d.data.clone()).flatten().collect()
}

fn public_parameters_serialization_is_correct_for_params(params: Params) {
    let pub_params = random_public_parameters(&params);

    let serialized1 = pub_params.serialize();
    assert_eq!(serialized1.len(), params.setup_bytes());
    let deserialized1 = PublicParameters::deserialize(&params, &serialized1).unwrap();
    let serialized2 = deserialized1.serialize();

    assert_eq!(serialized1, serialized2);
    assert_eq!(get_vec(&pub_params.v_packing), get_vec(&deserialized1.v_packing));
    if pub_params.v_conversion.is_some() {
        assert_eq!(
            get_vec(pub_params.v_conversion.as_ref().unwrap()),
            get_vec(deserialized1.v_conversion.as_ref().unwrap())
        );
    } else {
        assert!(deserialized1.v_conversion.is_none());
    }
    if pub_params.v_expansion_left.is_some() {
        assert_eq!(
            get_vec(pub_params.v_expansion_left.as_ref().unwrap()),
            get_vec(deserialized1.v_expansion_left.as_ref().unwrap())
        );
    }
    if pub_params.v_expansion_right.is_some() {
        assert_eq!(
            get_vec(pub_params.v_expansion_right.as_ref().unwrap()),
            get_vec(deserialized1.v_expansion_right.as_ref().unwrap())
        );
    }
}

fn keygen_randomness(params: &Params) -> KeygenRandomness {
    let mut rng = ChaCha20Rng::from_seed([13u8; 32]);
    let np = params.poly_len;
    let n = params.n;
    let mut uniform = |count: usize| -> Vec<Vec<u64>> {
        (0..count).map(|_| (0..np).map(|_| rng.next_u64() % params.modulus).collect()).collect()
    };
    let packing_a = (0..n).map(|_| uniform(params.t_conv)).collect();
    KeygenRandomness {
        packing_a,
        packing_e: vec![vec![vec![vec![1u64; np]; params.t_conv]; n]; n],
        left_a: Vec::new(),
        left_e: vec![vec![vec![1u64; np]; params.t_exp_left]; params.g()],
        right_a: Vec::new(),
        right_e: vec![vec![vec![1u64; np]; params.t_exp_right]; params.stop_round() + 1],
        conv_a: Vec::new(),
        conv_e: vec![vec![1u64; np]; 2 * params.t_conv],
    }
}

#[test]
fn public_parameters_serialization_is_correct() {
    let params = get_short_keygen_params();
    let mut client = keyed_client(&params);
    let mut rng = ChaCha20Rng::from_seed([17u8; 32]);
    let sk_gsw = small_key(&params, &mut rng, params.n);
    let sk_reg = small_key(&params, &mut rng, 1);
    let pub_params = client.generate_keys(sk_gsw, sk_reg, keygen_randomness(&params));

    let serialized1 = pub_params.serialize();
    assert_eq!(serialized1.len(), params.setup_bytes());
    let deserialized1 = PublicParameters::deserialize(&params, &serialized1).unwrap();
    let serialized2 = deserialized1.serialize();
    assert_eq!(serialized1, serialized2);
    assert_eq!(get_vec(&pub_params.v_packing), get_vec(&deserialized1.v_packing));
    assert_eq!(
        get_vec(pub_params.v_conversion.as_ref().unwrap()),
        get_vec(deserialized1.v_conversion.as_ref().unwrap())
    );
    assert_eq!(
        get_vec(pub_params.v_expansion_left.as_ref().unwrap()),
        get_vec(deserialized1.v_expansion_left.as_ref().unwrap())
    );
    assert_eq!(
        get_vec(pub_params.v_expansion_right.as_ref().unwrap()),
        get_vec(deserialized1.v_expansion_right.as_ref().unwrap())
    );
}

#[test]
fn real_public_parameters_serialization_is_correct() {
    let params =
        Params::init(2048, &MODULI.to_vec(), 2, 512, 21, 4, 16, 56, 10, true, 10, 6, 11, 100000)
            .unwrap();
    public_parameters_serialization_is_correct_for_params(params)
}

#[test]
fn real_public_parameters_2_serialization_is_correct() {
    let params =
        Params::init(2048, &MODULI.to_vec(), 4, 256, 20, 4, 8, 56, 8, true, 9, 5, 2, 65536)
            .unwrap();
    public_parameters_serialization_is_correct_for_params(params)
}

#[test]
fn no_expansion_public_parameters_serialization_is_correct() {
    public_parameters_serialization_is_correct_for_params(get_no_expansion_testing_params())
}

fn small_key(params: &Params, rng: &mut ChaCha20Rng, rows: usize) -> PolyMatrixRaw {
    let mut m = PolyMatrixRaw::zero(params, rows, 1);
    for r in 0..rows {
        for _ in 0..4 {
            let pos = (rng.next_u64() % params.poly_len as u64) as usize;
            let v = rng.next_u64() % 5;
            m.data[r * params.poly_len + pos] = if v >= 2 { params.modulus - (v - 1) } else { v };
        }
    }
    m
}

fn keyed_client(params: &Params) -> Client<'_> {
    let mut rng = ChaCha20Rng::from_seed([9u8; 32]);
    let mut client = Client::init(params, [3u8; 32]);
    let sk_gsw = small_key(params, &mut rng, params.n);
    let sk_reg = small_key(params, &mut rng, 1);
    client.set_keys(sk_gsw, sk_reg);
    client
}

fn query_noise(params: &Params, v: u64) -> Vec<Vec<u64>> {
    vec![vec![v; params.poly_len]; query_count_exec(params)]
}

fn query_serialization_is_correct_for_params(params: Params) {
    let mut client = keyed_client(&params);
    let query = client.generate_query(1, &query_noise(&params, 1));

    let serialized1 = query.serialize();
    assert_eq!(serialized1.len(), params.query_bytes());
    let deserialized1 = Query::deserialize(&params, &serialized1).unwrap();
    let serialized2 = deserialized1.serialize();

    assert_eq!(serialized1, serialized2);
}

#[test]
fn query_serialization_is_correct() {
    query_serialization_is_correct_for_params(get_short_keygen_params())
}

#[test]
fn no_expansion_query_serialization_is_correct() {
    query_serialization_is_correct_for_params(get_no_expansion_testing_params())
}

#[test]
fn init_is_correct() {
    let params = get_short_keygen_params();
    let client = Client::init(&params, [42u8; 32]);

    assert_eq!(client.params.poly_len, params.poly_len);
    assert_eq!(client.params.modulus, params.modulus);
    assert_eq!(client.params.moduli, params.moduli);
    assert_eq!(client.get_public_seed(), [42u8; 32]);
    assert!(client.sk_gsw.data.iter().all(|&x| x == 0));
    assert_eq!(client.sk_gsw_full.cols, params.n + 1);
}

#[test]
fn query_generation_is_deterministic() {
    let params = get_short_keygen_params();
    let noise = query_noise(&params, 2);
    let mut c1 = keyed_client(&params);
    let mut c2 = keyed_client(&params);
    let q1 = c1.generate_query(5, &noise).serialize();
    let q2 = c2.generate_query(5, &noise).serialize();
    assert_eq!(q1, q2);
    let q3 = c1.generate_query(5, &noise).serialize();
    assert_ne!(q1, q3);
}

#[test]
fn public_parameters_wrong_length_is_refused() {
    let params = get_short_keygen_params();
    let r = PublicParameters::deserialize(&params, &[0u8; 10]);
    assert_eq!(
        r.err(),
        Some(CodecError::LengthMismatch { expected: params.setup_bytes(), found: 10 })
    );
}

#[test]
fn query_wrong_length_is_refused() {
    let params = get_no_expansion_testing_params();
    let data = vec![0u8; params.query_bytes() + 8];
    let r = Query::deserialize(&params, &data);
    assert_eq!(
        r.err(),
        Some(CodecError::LengthMismatch { expected: params.query_bytes(), found: data.len() })
    );
}

#[test]
fn serialized_words_are_little_endian() {
    let params = get_short_keygen_params();
    let mut m = PolyMatrixRaw::zero(&params, 2, 1);
    m.data[0] = 0x0102030405060708;
    let q = Query { ct: Some(m), v_buf: None, v_ct: None };
    let bytes = q.serialize();
    assert_eq!(&bytes[0..8], &[8, 7, 6, 5, 4, 3, 2, 1]);
    assert_eq!(bytes.len(), 2 * 2048 * 8);
}

#[test]
fn empty_query_serializes_to_nothing() {
    assert!(Query::empty().serialize().is_empty());
}

#[test]
fn public_rng_follows_the_seed() {
    let params = get_short_keygen_params();
    let mut c1 = Client::init(&params, [21u8; 32]);
    let mut c2 = Client::init(&params, [21u8; 32]);
    let mut reference = ChaCha20Rng::from_seed([21u8; 32]);
    let w = reference.next_u64();
    assert_eq!(c1.get_public_rng().next_u64(), w);
    assert_eq!(c2.get_public_rng().next_u64(), w);
    assert!(c1.get_sk_reg().data.iter().all(|&x| x == 0));
}
