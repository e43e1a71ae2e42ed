use spiral_client::bits::pack_bits;
use spiral_client::client::Client;
use spiral_client::decode::DecodeError;
use spiral_client::params::Params;

const MODULI: [u64; 2] = [268369921, 249561089];

fn short_params() -> Params {
    Params::init(2048, &MODULI.to_vec(), 2, 256, 20, 4, 4, 4, 4, true, 9, 6, 1, 2048).unwrap()
}

#[test]
fn decode_recovers_plaintext_from_trivial_response() {
    let params = short_params();
    let client = Client::init(&params, [0u8; 32]);
    let n = params.n;
    let np = params.poly_len;
    let first = vec![0u64; n * np];
    let plain: Vec<u64> = (0..n * n * np).map(|i| (i % 128) as u64).collect();
    let rest: Vec<u64> = plain.iter().map(|v| 4 * v).collect();
    let mut data = pack_bits(&first, 20);
    data.extend(pack_bits(&rest, 10));
    let out = client.decode_response(&data).unwrap();
    assert_eq!(out, pack_bits(&plain, 8));
    assert_eq!(out[5], 5);
}

#[test]
fn decode_refuses_short_response() {
    let params = short_params();
    let client = Client::init(&params, [0u8; 32]);
    let needed = (2 * 2048 * 20 + 4 * 2048 * 10) / 8;
    let r = client.decode_response(&vec![0u8; 100]);
    assert_eq!(r, Err(DecodeError::ResponseTooShort { needed, found: 100 }));
}
