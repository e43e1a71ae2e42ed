//! The client: secret keys, the public randomness it shares with the server
//! through a seed, query construction and response decoding.

use vstd::prelude::*;
use crate::public_rng::{PublicRng, stream_lists, stream_poly, stream_polys};
use crate::keygen::{KeygenRandomness, keys_from, polys_ok, vv, vvv};
use crate::public_params::PublicParameters;
use crate::decode::{DecodeError, decode_fits, decode_with_key, decoded, packed, total_bits};
use crate::bits::bytes_for;
use crate::params::{Params, log2_ceil};
use crate::poly::PolyMatrixRaw;
use crate::query::Query;
use crate::query_build::{gsw_msgs, query_count, query_count_exec, query_in_range, query_sigma, sigma_spec, swap_pairs, unexpanded_query, v_buf_spec};
use crate::params::pow2;
use crate::public_params::opt_seq;
use crate::regev::{decrypt_reg_poly, encrypt_reg_poly, matrix_with_identity, phase, regev_ct, with_identity_coeff};
use crate::poly::{coeff_index, poly_at};
use crate::keygen::{is_reg_encryption, sk_row, take_range};

verus! {

/// A secret column of `rows` polynomials, each coefficient reduced mod `Q`.
pub open spec fn secret_ok(params: &Params, sk: &PolyMatrixRaw, rows: int) -> bool {
    &&& sk.wf()
    &&& sk.rows == rows
    &&& sk.cols == 1
    &&& sk.poly_len == params.poly_len
    &&& forall|i: int| 0 <= i < sk.data@.len() ==> sk.data@[i] < params.modulus
}

/// `full` is `[sk | I]`.
pub open spec fn is_full(sk: &PolyMatrixRaw, full: &PolyMatrixRaw) -> bool {
    &&& full.wf()
    &&& full.rows == sk.rows
    &&& full.cols == sk.rows + 1
    &&& full.poly_len == sk.poly_len
    &&& forall|i: int, c: int, z: int|
        0 <= i < full.rows && 0 <= c < full.cols && 0 <= z < full.poly_len ==> #[trigger] full.coeff(i, c, z) == with_identity_coeff(sk, i, c, z)
}

/// The query for record `idx` that the server expands: the query polynomial
/// encrypted under `sk_reg` with public randomness `a` and noise `e`.
pub open spec fn expanded_query(params: &Params, sk_reg: Seq<u64>, a: Seq<u64>, e: Seq<u64>, idx: int) -> Seq<u64> {
    regev_ct(sk_reg, a, e, sigma_spec(params, idx), params.modulus as int)
}

/// Builds the query for record `idx` that the server expands, from the
/// public randomness `a` and the noise `e`.
pub fn query_from_parts(params: &Params, sk_reg: &PolyMatrixRaw, a: &Vec<u64>, e: &Vec<u64>, idx: u64) -> (r: Query)
    requires
        params.wf(),
        params.expand_queries,
        query_in_range(params, idx as int),
        secret_ok(params, sk_reg, 1),
        a@.len() == params.poly_len,
        e@.len() == params.poly_len,
    ensures
        r.shaped(params),
        r.ct matches Some(ct) && ct.data@ == expanded_query(params, sk_reg.data@, a@, e@, idx as int),
{
    let sigma = query_sigma(params, idx);
    proof {
        params.lemma_poly_len_bound();
        assert(sk_reg.data@.len() == params.poly_len) by (nonlinear_arith)
            requires
                sk_reg.data@.len() == 1 * 1 * params.poly_len,
        ;
    }
    let ct = encrypt_reg_poly(&sk_reg.data, a, e, &sigma, params.modulus);
    Query { ct: Some(ct), v_buf: None, v_ct: None }
}

/// An expanded query decrypts, under the key it was made with, to its query
/// polynomial plus its noise: its phase is `sigma + e` mod `Q`.
pub proof fn lemma_expanded_query_decrypts(params: &Params, sk_reg: Seq<u64>, a: Seq<u64>, e: Seq<u64>, idx: int)
    requires
        params.wf(),
        sk_reg.len() == params.poly_len,
        a.len() == params.poly_len,
        e.len() == params.poly_len,
    ensures
        ({
            let np = params.poly_len as int;
            let ct = expanded_query(params, sk_reg, a, e, idx);
            let sigma = sigma_spec(params, idx);
            phase(sk_reg, ct.subrange(0, np), ct.subrange(np, 2 * np), params.modulus as int)
                == Seq::new(sk_reg.len(), |k: int| ((e[k] + sigma[k]) % (params.modulus as int)) as u64)
        }),
{
    params.lemma_poly_len_bound();
    crate::regev::lemma_regev_correct(sk_reg, a, e, sigma_spec(params, idx), params.modulus as int);
}

/// Words of the public stream that key generation draws: none for the
/// packing keys; a polynomial per column of each expansion and conversion
/// key, left keys first, then right keys, then the conversion key.
pub open spec fn keygen_draws(params: &Params) -> int {
    if params.expand_queries {
        (params.g_spec() * params.t_exp_left + (params.stop_round_spec() + 1) * params.t_exp_right
            + 2 * params.t_conv) * params.poly_len
    } else {
        0
    }
}

/// The public polynomials of `used` are the stream of `seed` from `pos` on,
/// in the order key generation draws them.
pub open spec fn drawn_from_stream(used: &KeygenRandomness, params: &Params, seed: Seq<u8>, pos: nat) -> bool {
    let np = params.poly_len as nat;
    let q = params.modulus as int;
    let (g, tl) = (params.g_spec(), params.t_exp_left as nat);
    let (sr, tr) = ((params.stop_round_spec() + 1) as nat, params.t_exp_right as nat);
    params.expand_queries ==> {
        &&& vvv(used.left_a@) == stream_lists(seed, pos, g, tl, np, q)
        &&& vvv(used.right_a@) == stream_lists(seed, pos + g * tl * np, sr, tr, np, q)
        &&& vv(used.conv_a@) == stream_polys(seed, pos + g * tl * np + sr * tr * np, (2 * params.t_conv) as nat, np, q)
    }
}

/// A client. Its keys are all zero until `set_keys` installs sampled ones;
/// `public_rng` is seeded with `public_seed`, which the server learns.
pub struct Client<'a> {
    pub params: &'a Params,
    pub sk_gsw: PolyMatrixRaw,
    pub sk_reg: PolyMatrixRaw,
    pub sk_gsw_full: PolyMatrixRaw,
    pub sk_reg_full: PolyMatrixRaw,
    pub public_rng: PublicRng,
    pub public_seed: [u8; 32],
}

impl<'a> Client<'a> {
    /// Keys of the shapes the parameters fix, reduced mod `Q`, with their
    /// augmented forms in step.
    pub open spec fn wf(&self) -> bool {
        &&& self.params.wf()
        &&& secret_ok(self.params, &self.sk_gsw, self.params.n as int)
        &&& secret_ok(self.params, &self.sk_reg, 1)
        &&& is_full(&self.sk_gsw, &self.sk_gsw_full)
        &&& is_full(&self.sk_reg, &self.sk_reg_full)
        &&& self.public_rng.seed() == self.public_seed@
    }

    /// `self` has the parameters, seed and keys of `other`; only the
    /// position in the public stream may differ.
    pub open spec fn same_keys(&self, other: &Client) -> bool {
        &&& self.params == other.params
        &&& self.public_seed == other.public_seed
        &&& self.sk_gsw@ == other.sk_gsw@
        &&& self.sk_reg@ == other.sk_reg@
        &&& self.sk_gsw_full@ == other.sk_gsw_full@
        &&& self.sk_reg_full@ == other.sk_reg_full@
    }

    /// A client with zero keys whose public randomness is seeded with
    /// `public_seed`.
    pub fn init(params: &'a Params, public_seed: [u8; 32]) -> (r: Client<'a>)
        requires
            params.wf(),
        ensures
            r.wf(),
            r.params == params,
            r.public_seed == public_seed,
            r.public_rng.seed() == public_seed@,
            r.public_rng.pos() == 0,
            forall|i: int| 0 <= i < r.sk_gsw.data@.len() ==> r.sk_gsw.data@[i] == 0,
            forall|i: int| 0 <= i < r.sk_reg.data@.len() ==> r.sk_reg.data@[i] == 0,
    {
        proof {
            params.lemma_poly_len_bound();
            assert(params.n * 1 * params.poly_len <= 16 * 16384) by (nonlinear_arith)
                requires
                    params.n <= 16,
                    params.poly_len <= 16384,
            ;
        }
        let sk_gsw = PolyMatrixRaw::zero(params, params.n, 1);
        let sk_reg = PolyMatrixRaw::zero(params, 1, 1);
        let sk_gsw_full = matrix_with_identity(&sk_gsw);
        let sk_reg_full = matrix_with_identity(&sk_reg);
        let public_rng = PublicRng::new(public_seed);
        Client { params, sk_gsw, sk_reg, sk_gsw_full, sk_reg_full, public_rng, public_seed }
    }

    /// The seed of the public randomness.
    pub fn get_public_seed(&self) -> (r: [u8; 32])
        ensures
            r == self.public_seed,
    {
        self.public_seed
    }

    /// The Regev secret.
    pub fn get_sk_reg(&self) -> (r: &PolyMatrixRaw)
        ensures
            r == &self.sk_reg,
    {
        &self.sk_reg
    }

    /// The generator of public randomness, to draw from in place.
    pub fn get_public_rng(&mut self) -> (r: &mut PublicRng)
        ensures
            *r == old(self).public_rng,
            final(self).public_rng == *final(r),
            final(self).params == old(self).params,
            final(self).public_seed == old(self).public_seed,
            final(self).sk_gsw == old(self).sk_gsw,
            final(self).sk_reg == old(self).sk_reg,
            final(self).sk_gsw_full == old(self).sk_gsw_full,
            final(self).sk_reg_full == old(self).sk_reg_full,
    {
        &mut self.public_rng
    }

    /// Installs sampled secret keys and their augmented forms.
    pub fn set_keys(&mut self, sk_gsw: PolyMatrixRaw, sk_reg: PolyMatrixRaw)
        requires
            old(self).wf(),
            secret_ok(old(self).params, &sk_gsw, old(self).params.n as int),
            secret_ok(old(self).params, &sk_reg, 1),
        ensures
            final(self).wf(),
            final(self).params == old(self).params,
            final(self).public_seed == old(self).public_seed,
            final(self).sk_gsw@ == sk_gsw@,
            final(self).sk_reg@ == sk_reg@,
            final(self).public_rng == old(self).public_rng,
    {
        proof {
            self.params.lemma_poly_len_bound();
        }
        self.sk_gsw_full = matrix_with_identity(&sk_gsw);
        self.sk_reg_full = matrix_with_identity(&sk_reg);
        self.sk_gsw = sk_gsw;
        self.sk_reg = sk_reg;
    }

    /// One polynomial of public randomness: the next `N` words of the public
    /// stream, each reduced mod `Q`.
    pub fn draw_public_poly(&mut self) -> (r: Vec<u64>)
        requires
            old(self).wf(),
        ensures
            final(self).wf(),
            final(self).same_keys(old(self)),
            r@ == stream_poly(old(self).public_seed@, old(self).public_rng.pos(), old(self).params.poly_len as nat, old(self).params.modulus as int),
            final(self).public_rng.pos() == old(self).public_rng.pos() + old(self).params.poly_len,
    {
        let q = self.params.modulus;
        let np = self.params.poly_len;
        self.public_rng.draw_poly(np, q)
    }

    /// `m` polynomials of public randomness, in the order drawn.
    pub fn draw_public_polys(&mut self, m: usize) -> (r: Vec<Vec<u64>>)
        requires
            old(self).wf(),
        ensures
            final(self).wf(),
            final(self).same_keys(old(self)),
            vv(r@) == stream_polys(old(self).public_seed@, old(self).public_rng.pos(), m as nat, old(self).params.poly_len as nat, old(self).params.modulus as int),
            final(self).public_rng.pos() == old(self).public_rng.pos() + m * old(self).params.poly_len,
            polys_ok(vv(r@), m as int, old(self).params.poly_len as int),
    {
        let q = self.params.modulus;
        let np = self.params.poly_len;
        let r = self.public_rng.draw_polys(m, np, q);
        proof {
            assert forall|k: int| 0 <= k < m implies (#[trigger] vv(r@)[k]).len() == np by {
                assert(vv(r@)[k] == stream_polys(old(self).public_seed@, old(self).public_rng.pos(), m as nat, np as nat, q as int)[k]);
            }
        }
        r
    }

    /// `count` lists of `m` polynomials of public randomness.
    pub fn draw_public_lists(&mut self, count: usize, m: usize) -> (r: Vec<Vec<Vec<u64>>>)
        requires
            old(self).wf(),
        ensures
            final(self).wf(),
            final(self).same_keys(old(self)),
            vvv(r@) == stream_lists(old(self).public_seed@, old(self).public_rng.pos(), count as nat, m as nat, old(self).params.poly_len as nat, old(self).params.modulus as int),
            final(self).public_rng.pos() == old(self).public_rng.pos() + count * m * old(self).params.poly_len,
            r@.len() == count,
            forall|i: int| 0 <= i < count ==> polys_ok(vv(#[trigger] r@[i]@), m as int, old(self).params.poly_len as int),
    {
        let q = self.params.modulus;
        let np = self.params.poly_len;
        let r = self.public_rng.draw_lists(count, m, np, q);
        proof {
            assert(vvv(r@).len() == r@.len());
            assert forall|i: int| 0 <= i < count implies polys_ok(vv(#[trigger] r@[i]@), m as int, np as int) by {
                assert(vvv(r@)[i] == vv(r@[i]@));
                assert forall|k: int| 0 <= k < m implies (#[trigger] vv(r@[i]@)[k]).len() == np by {
                    assert(vv(r@[i]@)[k] == stream_lists(old(self).public_seed@, old(self).public_rng.pos(), count as nat, m as nat, np as nat, q as int)[i][k]);
                }
            }
        }
        r
    }

    /// Installs the sampled secrets and builds the public parameters: packing
    /// keys from the private randomness and noise in `rnd`, then expansion
    /// and conversion keys whose randomness is drawn from the public stream
    /// (left, right, conversion, column by column) in place of what `rnd`
    /// holds there.
    pub fn generate_keys(&mut self, sk_gsw: PolyMatrixRaw, sk_reg: PolyMatrixRaw, rnd: KeygenRandomness) -> (r: PublicParameters)
        requires
            old(self).wf(),
            secret_ok(old(self).params, &sk_gsw, old(self).params.n as int),
            secret_ok(old(self).params, &sk_reg, 1),
            rnd.private_shaped(old(self).params),
        ensures
            final(self).wf(),
            final(self).params == old(self).params,
            final(self).public_seed == old(self).public_seed,
            final(self).sk_gsw@ == sk_gsw@,
            final(self).sk_reg@ == sk_reg@,
            final(self).public_rng.pos() == old(self).public_rng.pos() + keygen_draws(old(self).params),
            exists|used: KeygenRandomness|
                used.shaped(old(self).params)
                && used.packing_a == rnd.packing_a
                && used.packing_e == rnd.packing_e
                && used.left_e == rnd.left_e
                && used.right_e == rnd.right_e
                && used.conv_e == rnd.conv_e
                && drawn_from_stream(&used, old(self).params, old(self).public_seed@, old(self).public_rng.pos())
                && keys_from(&r, old(self).params, &final(self).sk_gsw, final(self).sk_reg.data@, &used),
    {
        let params = self.params;
        self.set_keys(sk_gsw, sk_reg);
        let mut used = rnd;
        if params.expand_queries {
            let g = params.g();
            let sr = params.stop_round();
            used.left_a = self.draw_public_lists(g, params.t_exp_left);
            used.right_a = self.draw_public_lists(sr + 1, params.t_exp_right);
            used.conv_a = self.draw_public_polys(2 * params.t_conv);
        }
        proof {
            assert(self.sk_reg.data@.len() == params.poly_len) by (nonlinear_arith)
                requires
                    self.sk_reg.data@.len() == 1 * 1 * params.poly_len,
            ;
        }
        proof {
            let np = params.poly_len as int;
            let (g, tl) = (params.g_spec() as int, params.t_exp_left as int);
            let (sr, tr) = (params.stop_round_spec() + 1, params.t_exp_right as int);
            let tc = params.t_conv as int;
            assert(g * tl * np + sr * tr * np + 2 * tc * np == (g * tl + sr * tr + 2 * tc) * np) by (nonlinear_arith);
        }
        let pp = crate::keygen::public_parameters_from(params, &self.sk_gsw, &self.sk_reg.data, &used);
        assert(used.shaped(params) && used.packing_a == rnd.packing_a && used.packing_e == rnd.packing_e
            && used.left_e == rnd.left_e && used.right_e == rnd.right_e && used.conv_e == rnd.conv_e
            && drawn_from_stream(&used, params, old(self).public_seed@, old(self).public_rng.pos())
            && keys_from(&pp, params, &self.sk_gsw, self.sk_reg.data@, &used));
        pp
    }

    /// The query for record `idx`. Its Regev encryptions take their public
    /// polynomials from the next words of the public stream and their noise
    /// from `noise`, both in the order the encryptions are made: the one
    /// packed ciphertext where the server expands queries; otherwise the
    /// first-dimension ciphertexts, then for each further bit and digit the
    /// odd column before the even one.
    pub fn generate_query(&mut self, idx: u64, noise: &Vec<Vec<u64>>) -> (r: Query)
        requires
            old(self).wf(),
            query_in_range(old(self).params, idx as int),
            polys_ok(vv(noise@), query_count(old(self).params), old(self).params.poly_len as int),
        ensures
            final(self).wf(),
            final(self).same_keys(old(self)),
            final(self).public_rng.pos() == old(self).public_rng.pos() + query_count(old(self).params) * old(self).params.poly_len,
            r.shaped(old(self).params),
            ({
                let params = old(self).params;
                let np = params.poly_len as nat;
                let draws = stream_polys(old(self).public_seed@, old(self).public_rng.pos(), query_count(params) as nat, np, params.modulus as int);
                let sk = old(self).sk_reg.data@;
                let num = pow2(params.db_dim_1 as nat) as int;
                let t = params.t_gsw as int;
                &&& params.expand_queries ==> (r.ct matches Some(ct) && ct.data@ == expanded_query(params, sk, draws[0], noise@[0]@, idx as int))
                &&& !params.expand_queries ==> {
                    &&& (r.v_buf matches Some(vb) && vb@ == v_buf_spec(params, sk, draws, vv(noise@), idx as int))
                    &&& forall|i: int| 0 <= i < params.db_dim_2 ==> is_reg_encryption(#[trigger] &opt_seq(r.v_ct)[i], sk,
                        swap_pairs(draws, num + i * 2 * t, 2 * t), swap_pairs(vv(noise@), num + i * 2 * t, 2 * t),
                        gsw_msgs(params, sk, idx as int, i), params.modulus as int)
                }
            }),
    {
        let params = self.params;
        let count = query_count_exec(params);
        let draws = self.draw_public_polys(count);
        proof {
            params.lemma_poly_len_bound();
            assert(self.sk_reg.data@.len() == params.poly_len) by (nonlinear_arith)
                requires
                    self.sk_reg.data@.len() == 1 * 1 * params.poly_len,
            ;
        }
        if params.expand_queries {
            proof {
                assert(vv(draws@)[0] == draws@[0]@);
                assert(vv(noise@)[0] == noise@[0]@);
            }
            query_from_parts(params, &self.sk_reg, &draws[0], &noise[0], idx)
        } else {
            unexpanded_query(params, &self.sk_reg.data, &draws, noise, idx)
        }
    }

    /// Encrypts each polynomial of `msg` under `sk_reg` as one column, with a
    /// fresh polynomial of public randomness per column and the noise `e`.
    pub fn encrypt_matrix_reg(&mut self, msg: &Vec<Vec<u64>>, e: &Vec<Vec<u64>>) -> (r: PolyMatrixRaw)
        requires
            old(self).wf(),
            msg@.len() <= 256,
            polys_ok(vv(msg@), msg@.len() as int, old(self).params.poly_len as int),
            polys_ok(vv(e@), msg@.len() as int, old(self).params.poly_len as int),
        ensures
            final(self).wf(),
            final(self).params == old(self).params,
            final(self).sk_reg@ == old(self).sk_reg@,
            final(self).sk_gsw@ == old(self).sk_gsw@,
            final(self).same_keys(old(self)),
            final(self).public_rng.pos() == old(self).public_rng.pos() + msg@.len() * old(self).params.poly_len,
            is_reg_encryption(&r, old(self).sk_reg.data@,
                stream_polys(old(self).public_seed@, old(self).public_rng.pos(), msg@.len() as nat, old(self).params.poly_len as nat, old(self).params.modulus as int),
                vv(e@), vv(msg@), old(self).params.modulus as int),
    {
        let a = self.draw_public_polys(msg.len());
        proof {
            self.params.lemma_poly_len_bound();
            assert(self.sk_reg.data@.len() == self.params.poly_len) by (nonlinear_arith)
                requires
                    self.sk_reg.data@.len() == 1 * 1 * self.params.poly_len,
            ;
            assert forall|j: int| 0 <= j < msg@.len() implies (#[trigger] msg@[j])@.len() == self.params.poly_len by {
                assert(vv(msg@)[j] == msg@[j]@);
            }
            assert forall|j: int| 0 <= j < msg@.len() implies (#[trigger] a@[j])@.len() == self.params.poly_len by {
                assert(vv(a@)[j] == a@[j]@);
            }
            assert forall|j: int| 0 <= j < msg@.len() implies (#[trigger] e@[j])@.len() == self.params.poly_len by {
                assert(vv(e@)[j] == e@[j]@);
            }
        }
        let r = crate::keygen::encrypt_matrix_reg(&self.sk_reg.data, &a, e, msg, self.params.modulus);
        r
    }

    /// The phase `sk_reg * c0 + c1` of each column of a 2 by `m` Regev
    /// ciphertext, as a 1 by `m` matrix.
    pub fn decrypt_matrix_reg(&self, ct: &PolyMatrixRaw) -> (r: PolyMatrixRaw)
        requires
            self.wf(),
            ct.wf(),
            ct.rows == 2,
            ct.cols <= 256,
            ct.poly_len == self.params.poly_len,
        ensures
            r.wf(),
            r.rows == 1,
            r.cols == ct.cols,
            r.poly_len == ct.poly_len,
            forall|j: int| 0 <= j < ct.cols ==> #[trigger] poly_at(&r, 0, j) == phase(self.sk_reg.data@, poly_at(ct, 0, j), poly_at(ct, 1, j), self.params.modulus as int),
    {
        let np = ct.poly_len;
        let m = ct.cols;
        let q = self.params.modulus;
        proof {
            self.params.lemma_poly_len_bound();
            assert(self.sk_reg.data@.len() == np) by (nonlinear_arith)
                requires
                    self.sk_reg.data@.len() == 1 * 1 * np,
            ;
            assert(1 * m * np <= 256 * 16384) by (nonlinear_arith)
                requires
                    m <= 256,
                    np <= 16384,
            ;
        }
        let mut r = PolyMatrixRaw::zero_of_len(np, 1, m);
        let mut j: usize = 0;
        while j < m
            invariant
                self.wf(),
                q == self.params.modulus,
                np == self.params.poly_len,
                2 <= np <= 16384,
                self.sk_reg.data@.len() == np,
                ct.wf(),
                ct.rows == 2,
                ct.cols == m,
                ct.poly_len == np,
                m <= 256,
                r.wf(),
                r.rows == 1,
                r.cols == m,
                r.poly_len == np,
                j <= m,
                forall|k: int| 0 <= k < j ==> #[trigger] poly_at(&r, 0, k) == phase(self.sk_reg.data@, poly_at(ct, 0, k), poly_at(ct, 1, k), q as int),
            decreases m - j,
        {
            proof {
                assert((0 * m + j) * np + np <= 2 * m * np) by (nonlinear_arith)
                    requires
                        j < m,
                ;
                assert((1 * m + j) * np + np <= 2 * m * np) by (nonlinear_arith)
                    requires
                        j < m,
                ;
                assert(2 * m * np <= 2 * 256 * 16384) by (nonlinear_arith)
                    requires
                        m <= 256,
                        np <= 16384,
                ;
            }
            let c0 = take_range(&ct.data, j * np, np);
            let c1 = take_range(&ct.data, (m + j) * np, np);
            proof {
                assert(j * np == (0 * m + j) * np) by (nonlinear_arith);
            }
            let ph = decrypt_reg_poly(&self.sk_reg.data, &c0, &c1, q);
            let ghost before = r;
            r.set_poly(0, j, &ph);
            proof {
                assert forall|k: int| 0 <= k < j + 1 implies #[trigger] poly_at(&r, 0, k) == phase(self.sk_reg.data@, poly_at(ct, 0, k), poly_at(ct, 1, k), q as int) by {
                    if k < j {
                        assert(poly_at(&r, 0, k) == poly_at(&before, 0, k));
                    }
                }
            }
            j = j + 1;
        }
        r
    }

    /// The phases `sk_gsw[r] * c0 + c_(r+1)` of each column of an `n + 1` by
    /// `m` GSW ciphertext, as an `n` by `m` matrix.
    pub fn decrypt_matrix_gsw(&self, ct: &PolyMatrixRaw) -> (r: PolyMatrixRaw)
        requires
            self.wf(),
            ct.wf(),
            ct.rows == self.params.n + 1,
            ct.cols <= 256,
            ct.poly_len == self.params.poly_len,
        ensures
            r.wf(),
            r.rows == self.params.n,
            r.cols == ct.cols,
            r.poly_len == ct.poly_len,
            forall|i: int, j: int| 0 <= i < self.params.n && 0 <= j < ct.cols ==> #[trigger] poly_at(&r, i, j) == phase(sk_row(&self.sk_gsw, i), poly_at(ct, 0, j), poly_at(ct, i + 1, j), self.params.modulus as int),
    {
        let np = ct.poly_len;
        let m = ct.cols;
        let n = self.params.n;
        let q = self.params.modulus;
        proof {
            self.params.lemma_poly_len_bound();
            assert(n * m * np <= 16 * 256 * 16384) by (nonlinear_arith)
                requires
                    n <= 16,
                    m <= 256,
                    np <= 16384,
            ;
            assert((n + 1) * m * np <= 17 * 256 * 16384) by (nonlinear_arith)
                requires
                    n <= 16,
                    m <= 256,
                    np <= 16384,
            ;
            assert(n * 1 * np <= 16 * 16384) by (nonlinear_arith)
                requires
                    n <= 16,
                    np <= 16384,
            ;
        }
        let mut r = PolyMatrixRaw::zero_of_len(np, n, m);
        let mut i: usize = 0;
        while i < n
            invariant
                self.wf(),
                q == self.params.modulus,
                np == self.params.poly_len,
                n == self.params.n,
                2 <= np <= 16384,
                n * 1 * np <= 16 * 16384,
                (n + 1) * m * np <= 17 * 256 * 16384,
                ct.wf(),
                ct.rows == n + 1,
                ct.cols == m,
                ct.poly_len == np,
                n <= 16,
                m <= 256,
                r.wf(),
                r.rows == n,
                r.cols == m,
                r.poly_len == np,
                i <= n,
                forall|i2: int, k: int| 0 <= i2 < i && 0 <= k < m ==> #[trigger] poly_at(&r, i2, k) == phase(sk_row(&self.sk_gsw, i2), poly_at(ct, 0, k), poly_at(ct, i2 + 1, k), q as int),
            decreases n - i,
        {
            proof {
                assert(i * np + np <= n * 1 * np) by (nonlinear_arith)
                    requires
                        i < n,
                ;
                assert(coeff_index(1, np as int, i as int, 0, 0) == i * np) by (nonlinear_arith);
            }
            let srow = take_range(&self.sk_gsw.data, i * np, np);
            let mut j: usize = 0;
            while j < m
                invariant
                    self.wf(),
                    q == self.params.modulus,
                    np == self.params.poly_len,
                    n == self.params.n,
                    2 <= np <= 16384,
                    (n + 1) * m * np <= 17 * 256 * 16384,
                    ct.wf(),
                    ct.rows == n + 1,
                    ct.cols == m,
                    ct.poly_len == np,
                    n <= 16,
                    m <= 256,
                    r.wf(),
                    r.rows == n,
                    r.cols == m,
                    r.poly_len == np,
                    i < n,
                    srow@ == sk_row(&self.sk_gsw, i as int),
                    srow@.len() == np,
                    j <= m,
                    forall|i2: int, k: int| 0 <= i2 < i && 0 <= k < m ==> #[trigger] poly_at(&r, i2, k) == phase(sk_row(&self.sk_gsw, i2), poly_at(ct, 0, k), poly_at(ct, i2 + 1, k), q as int),
                    forall|k: int| 0 <= k < j ==> #[trigger] poly_at(&r, i as int, k) == phase(sk_row(&self.sk_gsw, i as int), poly_at(ct, 0, k), poly_at(ct, i + 1, k), q as int),
                decreases m - j,
            {
                proof {
                    assert((0 * m + j) * np + np <= (n + 1) * m * np) by (nonlinear_arith)
                        requires
                            j < m,
                    ;
                    assert(((i + 1) * m + j) * np + np <= (n + 1) * m * np) by (nonlinear_arith)
                        requires
                            j < m,
                            i < n,
                    ;
                    assert(j * np == (0 * m + j) * np) by (nonlinear_arith);
                    assert((i + 1) * m + j <= 17 * 256) by (nonlinear_arith)
                        requires
                            i < n,
                            n <= 16,
                            j < m,
                            m <= 256,
                    ;
                }
                let c0 = take_range(&ct.data, j * np, np);
                let c1 = take_range(&ct.data, ((i + 1) * m + j) * np, np);
                let ph = decrypt_reg_poly(&srow, &c0, &c1, q);
                let ghost before = r;
                r.set_poly(i, j, &ph);
                proof {
                    assert forall|i2: int, k: int| 0 <= i2 < i && 0 <= k < m implies #[trigger] poly_at(&r, i2, k) == phase(sk_row(&self.sk_gsw, i2), poly_at(ct, 0, k), poly_at(ct, i2 + 1, k), q as int) by {
                        assert(poly_at(&r, i2, k) == poly_at(&before, i2, k));
                    }
                    assert forall|k: int| 0 <= k < j + 1 implies #[trigger] poly_at(&r, i as int, k) == phase(sk_row(&self.sk_gsw, i as int), poly_at(ct, 0, k), poly_at(ct, i + 1, k), q as int) by {
                        if k < j {
                            assert(poly_at(&r, i as int, k) == poly_at(&before, i as int, k));
                        }
                    }
                }
                j = j + 1;
            }
            i = i + 1;
        }
        r
    }

    /// Decodes a response to the plaintext bytes it carries.
    pub fn decode_response(&self, data: &[u8]) -> (r: Result<Vec<u8>, DecodeError>)
        requires
            self.wf(),
        ensures
            !decode_fits(self.params) <==> r == Err::<Vec<u8>, DecodeError>(DecodeError::TooLarge),
            decode_fits(self.params) ==> (r is Ok <==> total_bits(self.params) <= 8 * data@.len()),
            r matches Err(DecodeError::ResponseTooShort { needed, found }) ==> needed == bytes_for(total_bits(self.params)) && found == data@.len(),
            r matches Ok(bytes) ==> bytes@ == packed(decoded(self.params, self.sk_gsw.data@, data@), log2_ceil(self.params.pt_modulus as nat)),
    {
        proof {
            assert(self.sk_gsw.data@.len() == self.params.n * self.params.poly_len) by (nonlinear_arith)
                requires
                    self.sk_gsw.data@.len() == self.params.n * 1 * self.params.poly_len,
            ;
        }
        decode_with_key(self.params, &self.sk_gsw.data, data)
    }
}

} // verus!
