//! The plaintext of a query that the server expands: one polynomial that
//! selects a position in each database dimension.

use vstd::prelude::*;
use crate::arith::{inv_pow2, invert_pow2_mod, multiply_uint_mod};
use crate::params::{Params, log2_ceil, log2_ceil_exec, pow2, pow2_u64};
use crate::keygen::{is_reg_encryption, polys_ok, scaled, take_range, vv};
use crate::poly::PolyMatrixRaw;
use crate::public_params::opt_seq;
use crate::query::Query;
use crate::regev::{encrypt_reg_poly, regev_ct};

verus! {

/// Bits per gadget digit for a decomposition in `t` digits mod `Q`.
pub open spec fn bits_per_spec(params: &Params, t: int) -> int {
    let l = log2_ceil(params.modulus as nat) as int;
    if t == l {
        1
    } else {
        l / t + 1
    }
}

/// Bit `j` of `x`.
pub open spec fn bit_of(x: int, j: nat) -> int {
    (x / pow2(j) as int) % 2
}

/// What a query for `idx` may ask of the parameters: the index is in range,
/// and every position the query polynomial sets exists, as do its digits.
pub open spec fn query_in_range(params: &Params, idx: int) -> bool {
    let idx0 = idx / pow2(params.db_dim_2 as nat) as int;
    &&& 0 <= idx < pow2((params.db_dim_1 + params.db_dim_2) as nat)
    &&& params.expand_queries ==> if params.db_dim_2 == 0 {
        idx0 < params.poly_len
    } else {
        &&& 2 * idx0 < params.poly_len
        &&& 2 * params.db_dim_2 * params.t_gsw <= params.poly_len
    }
    &&& params.db_dim_2 > 0 ==> bits_per_spec(params, params.t_gsw as int) * (params.t_gsw - 1) < 64
}

/// Whether a query for `idx` is defined under `params`.
pub fn query_in_range_exec(params: &Params, idx: u64) -> (r: bool)
    requires
        params.ranges_ok(),
    ensures
        r == query_in_range(params, idx as int),
{
    let d1 = params.db_dim_1 as u64;
    let d2 = params.db_dim_2 as u64;
    let t = params.t_gsw as u64;
    let np = params.poly_len as u64;
    proof {
        vstd::arithmetic::power2::lemma2_to64();
        if d2 < 32 {
            vstd::arithmetic::power2::lemma_pow2_strictly_increases(d2 as nat, 32);
        }
    }
    if idx >= pow2_u64(d1 + d2) {
        return false;
    }
    let idx0 = idx / pow2_u64(d2);
    let shape_ok = if !params.expand_queries {
        true
    } else if d2 == 0 {
        idx0 < np
    } else {
        proof {
            assert(2 * d2 * t <= 4096) by (nonlinear_arith)
                requires
                    d2 <= 32,
                    t <= 64,
            ;
        }
        2 * (idx0 as u128) < np as u128 && 2 * d2 * t <= np
    };
    let bits_per = get_bits_per(params, params.t_gsw);
    proof {
        assert(bits_per <= 63) by {
            vstd::arithmetic::power2::lemma2_to64_rest();
            crate::params::lemma_log2_ceil_least(0x4000_0000_0000_0000, 62);
            crate::params::lemma_log2_ceil_mono(params.modulus as nat, 0x4000_0000_0000_0000);
        }
        assert(bits_per * (t - 1) <= 63 * 63) by (nonlinear_arith)
            requires
                bits_per <= 63,
                1 <= t <= 64,
        ;
    }
    let digits_ok = d2 == 0 || bits_per * (t - 1) < 64;
    shape_ok && digits_ok
}

/// Coefficient `i` of the query polynomial before scaling: `Q / p` at the
/// position of the first-dimension index (every second coefficient where
/// there are further dimensions), and at odd position `2 * (j * t_gsw + k) +
/// 1` digit `k` of bit `j` of the further index.
pub open spec fn sigma_raw(params: &Params, idx: int, i: int) -> int {
    let d2 = params.db_dim_2 as nat;
    let idx0 = idx / pow2(d2) as int;
    let idx_f = idx % pow2(d2) as int;
    let scale_k = params.modulus / params.pt_modulus;
    let t = params.t_gsw as int;
    if d2 == 0 {
        if i == idx0 { scale_k as int } else { 0 }
    } else if i % 2 == 0 {
        if i / 2 == idx0 { scale_k as int } else { 0 }
    } else {
        let s = (i - 1) / 2;
        let j = s / t;
        let k = s % t;
        if j < d2 {
            pow2((bits_per_spec(params, t) * k) as nat) * bit_of(idx_f, j as nat)
        } else {
            0
        }
    }
}

/// The query polynomial: the raw coefficients scaled by `(2^g)^-1` (even
/// positions, or all where there is no further dimension) and by
/// `(2^(stop_round + 1))^-1` (odd positions), mod `Q`.
pub open spec fn sigma_spec(params: &Params, idx: int) -> Seq<u64> {
    let q = params.modulus as int;
    Seq::new(params.poly_len as nat, |i: int| {
        let inv = if params.db_dim_2 == 0 || i % 2 == 0 {
            inv_pow2(params.g_spec(), q)
        } else {
            inv_pow2(params.stop_round_spec() + 1, q)
        };
        ((sigma_raw(params, idx, i) * inv) % q) as u64
    })
}

/// Bits per gadget digit for a decomposition in `t` digits mod `Q`.
pub fn get_bits_per(params: &Params, t: usize) -> (r: u64)
    requires
        params.ranges_ok(),
        t >= 1,
    ensures
        r == bits_per_spec(params, t as int),
{
    let l = log2_ceil_exec(params.modulus);
    if t as u64 == l {
        1
    } else {
        l / (t as u64) + 1
    }
}

/// The query polynomial for record `idx`.
pub fn query_sigma(params: &Params, idx: u64) -> (r: Vec<u64>)
    requires
        params.wf(),
        query_in_range(params, idx as int),
    ensures
        r@ == sigma_spec(params, idx as int),
{
    let np = params.poly_len;
    let q = params.modulus;
    let d2 = params.db_dim_2 as u64;
    let t = params.t_gsw;
    proof {
        vstd::arithmetic::power2::lemma2_to64();
        if d2 < 32 {
            vstd::arithmetic::power2::lemma_pow2_strictly_increases(d2 as nat, 32);
        }
    }
    let pd2 = pow2_u64(d2);
    let idx0 = idx / pd2;
    let idx_f = idx % pd2;
    let scale_k = q / params.pt_modulus;
    let bits_per = get_bits_per(params, t);
    let g = params.g() as u64;
    let sr = params.stop_round() as u64;
    let inv_first = invert_pow2_mod(g, q);
    let inv_rest = invert_pow2_mod(sr + 1, q);
    let ghost spec = sigma_spec(params, idx as int);
    let mut sigma: Vec<u64> = Vec::new();
    let mut i: usize = 0;
    while i < np
        invariant
            params.wf(),
            np == params.poly_len,
            q == params.modulus,
            d2 == params.db_dim_2,
            t == params.t_gsw,
            pd2 == pow2(d2 as nat),
            pd2 >= 1,
            idx0 == idx / pd2,
            idx_f == idx % pd2,
            scale_k == params.modulus / params.pt_modulus,
            bits_per == bits_per_spec(params, t as int),
            d2 > 0 ==> bits_per * (t - 1) < 64,
            inv_first == inv_pow2(params.g_spec(), q as int),
            inv_rest == inv_pow2(params.stop_round_spec() + 1, q as int),
            spec == sigma_spec(params, idx as int),
            i <= np,
            sigma@.len() == i,
            forall|k: int| 0 <= k < i ==> sigma@[k] == spec[k],
        decreases np - i,
    {
        let raw: u64 = if d2 == 0 {
            if i as u64 == idx0 { scale_k } else { 0 }
        } else if i % 2 == 0 {
            if (i / 2) as u64 == idx0 { scale_k } else { 0 }
        } else {
            let s = (i - 1) / 2;
            let j = s / t;
            let k = s % t;
            if (j as u64) < d2 {
                proof {
                    assert(bits_per * k <= bits_per * (t - 1)) by (nonlinear_arith)
                        requires
                            k <= t - 1,
                    ;
                }
                proof {
                    vstd::arithmetic::power2::lemma_pow2_pos(j as nat);
                }
                let b = (idx_f / pow2_u64(j as u64)) % 2;
                proof {
                    vstd::bits::lemma_u64_pow2_no_overflow((bits_per * k) as nat);
                    assert(pow2((bits_per * k) as nat) * b <= u64::MAX) by (nonlinear_arith)
                        requires
                            b <= 1,
                            pow2((bits_per * k) as nat) < u64::MAX,
                    ;
                }
                pow2_u64(bits_per * (k as u64)) * b
            } else {
                0
            }
        };
        let inv = if d2 == 0 || i % 2 == 0 { inv_first } else { inv_rest };
        let v = multiply_uint_mod(raw, inv, q);
        assert(raw == sigma_raw(params, idx as int, i as int));
        sigma.push(v);
        i = i + 1;
    }
    assert(sigma@ =~= spec);
    sigma
}

} // verus!

verus! {

/// The constant polynomial `v` of length `np`.
pub open spec fn single_value(np: nat, v: u64) -> Seq<u64> {
    Seq::new(np, |k: int| if k == 0 { v } else { 0u64 })
}

pub fn single_value_poly(np: usize, v: u64) -> (r: Vec<u64>)
    requires
        np >= 1,
    ensures
        r@ == single_value(np as nat, v),
{
    let mut out: Vec<u64> = Vec::new();
    out.push(v);
    while out.len() < np
        invariant
            1 <= out@.len() <= np,
            forall|k: int| 0 <= k < out@.len() ==> out@[k] == single_value(np as nat, v)[k],
        decreases np - out@.len(),
    {
        out.push(0);
    }
    assert(out@ =~= single_value(np as nat, v));
    out
}

/// The position in the first dimension and the index in the further ones.
pub open spec fn split_index(params: &Params, idx: int) -> (int, int) {
    (idx / pow2(params.db_dim_2 as nat) as int, idx % pow2(params.db_dim_2 as nat) as int)
}

/// The plaintext of first-dimension ciphertext `i`: `Q / p` at the selected
/// position, zero elsewhere.
pub open spec fn first_dim_msg(params: &Params, idx: int, i: int) -> Seq<u64> {
    let v = if i == split_index(params, idx).0 { (params.modulus / params.pt_modulus) as u64 } else { 0u64 };
    single_value(params.poly_len as nat, v)
}

/// First-dimension ciphertext `i`, as `2 * N` coefficients.
pub open spec fn first_dim_ct(params: &Params, sk: Seq<u64>, draws: Seq<Seq<u64>>, noise: Seq<Seq<u64>>, idx: int, i: int) -> Seq<u64> {
    regev_ct(sk, draws[i], noise[i], first_dim_msg(params, idx, i), params.modulus as int)
}

/// The first-dimension ciphertexts in the server's index order: word
/// `z * (2 * 2^db_dim_1) + 2 * i + r` is coefficient `z` of row `r` of
/// ciphertext `i`. The words are coefficient-form residues mod `Q`: the
/// server's own reordering takes NTT residues packed per modulus, a form
/// this library does not hold and whose packing it does not fix.
pub open spec fn v_buf_spec(params: &Params, sk: Seq<u64>, draws: Seq<Seq<u64>>, noise: Seq<Seq<u64>>, idx: int) -> Seq<u64> {
    let w2 = 2 * pow2(params.db_dim_1 as nat) as int;
    let np = params.poly_len as int;
    Seq::new((w2 * np) as nat, |w: int| {
        let z = w / w2;
        let rem = w % w2;
        first_dim_ct(params, sk, draws, noise, idx, rem / 2)[(rem % 2) * np + z]
    })
}

/// Digit `j` of bit `i` of the further index: `2^(bits_per * j)` times the bit.
pub open spec fn gsw_value(params: &Params, idx: int, i: int, j: int) -> u64 {
    (pow2((bits_per_spec(params, params.t_gsw as int) * j) as nat) * bit_of(split_index(params, idx).1, i as nat)) as u64
}

/// The plaintexts of GSW ciphertext `i`: column `2j + 1` holds digit `j`,
/// column `2j` the Regev secret times it.
pub open spec fn gsw_msgs(params: &Params, sk: Seq<u64>, idx: int, i: int) -> Seq<Seq<u64>> {
    Seq::new((2 * params.t_gsw) as nat, |c: int|
        if c % 2 == 1 {
            single_value(params.poly_len as nat, gsw_value(params, idx, i, c / 2))
        } else {
            scaled(sk, gsw_value(params, idx, i, c / 2), params.modulus as int)
        })
}

/// The `m` polynomials from `base` on with each pair swapped: column `2j`
/// takes the one drawn second, column `2j + 1` the one drawn first.
pub open spec fn swap_pairs(v: Seq<Seq<u64>>, base: int, m: int) -> Seq<Seq<u64>> {
    Seq::new(m as nat, |c: int| v[base + if c % 2 == 0 { c + 1 } else { c - 1 }])
}

/// The number of Regev encryptions a query makes, in the order made: one
/// where the server expands queries; otherwise one per first-dimension
/// position, then a column pair per digit of each further bit.
pub open spec fn query_count(params: &Params) -> int {
    if params.expand_queries {
        1
    } else {
        pow2(params.db_dim_1 as nat) + 2 * params.db_dim_2 * params.t_gsw
    }
}

pub fn query_count_exec(params: &Params) -> (r: usize)
    requires
        params.wf(),
    ensures
        r == query_count(params),
        r <= 0x10_0000 + 2 * 32 * 64,
{
    if params.expand_queries {
        1
    } else {
        proof {
            assert(2 * params.db_dim_2 * params.t_gsw <= 2 * 32 * 64) by (nonlinear_arith)
                requires
                    params.db_dim_2 <= 32,
                    params.t_gsw <= 64,
            ;
        }
        params.num_expanded() + 2 * params.db_dim_2 * params.t_gsw
    }
}

/// The `m` polynomials from `base` on with each pair swapped.
fn swap_pairs_exec(v: &Vec<Vec<u64>>, base: usize, m: usize) -> (r: Vec<Vec<u64>>)
    requires
        m % 2 == 0,
        base + m <= v@.len(),
    ensures
        vv(r@) == swap_pairs(vv(v@), base as int, m as int),
        r@.len() == m,
{
    let vl = v.len();
    let mut out: Vec<Vec<u64>> = Vec::new();
    let mut c: usize = 0;
    while c < m
        invariant
            m % 2 == 0,
            base + m <= v@.len(),
            vl == v@.len(),
            c <= m,
            out@.len() == c,
            forall|k: int| 0 <= k < c ==> (#[trigger] out@[k])@ == swap_pairs(vv(v@), base as int, m as int)[k],
        decreases m - c,
    {
        let src = if c % 2 == 0 { base + c + 1 } else { base + c - 1 };
        out.push(take_range(&v[src], 0, v[src].len()));
        proof {
            assert(v@[src as int]@.subrange(0, v@[src as int]@.len() as int) =~= v@[src as int]@);
        }
        c = c + 1;
    }
    assert(vv(out@) =~= swap_pairs(vv(v@), base as int, m as int));
    out
}

/// The query for record `idx` that the server does not expand, from the
/// public polynomials `draws` and the noise `noise`, both in the order the
/// encryptions are made.
pub fn unexpanded_query(params: &Params, sk: &Vec<u64>, draws: &Vec<Vec<u64>>, noise: &Vec<Vec<u64>>, idx: u64) -> (r: Query)
    requires
        params.wf(),
        !params.expand_queries,
        query_in_range(params, idx as int),
        sk@.len() == params.poly_len,
        polys_ok(vv(draws@), query_count(params), params.poly_len as int),
        polys_ok(vv(noise@), query_count(params), params.poly_len as int),
    ensures
        r.shaped(params),
        r.v_buf matches Some(vb) && vb@ == v_buf_spec(params, sk@, vv(draws@), vv(noise@), idx as int),
        forall|i: int| 0 <= i < params.db_dim_2 ==> is_reg_encryption(#[trigger] &opt_seq(r.v_ct)[i], sk@,
            swap_pairs(vv(draws@), pow2(params.db_dim_1 as nat) + i * 2 * params.t_gsw, 2 * params.t_gsw),
            swap_pairs(vv(noise@), pow2(params.db_dim_1 as nat) + i * 2 * params.t_gsw, 2 * params.t_gsw),
            gsw_msgs(params, sk@, idx as int, i), params.modulus as int),
{
    let np = params.poly_len;
    let q = params.modulus;
    let num = params.num_expanded();
    let d2 = params.db_dim_2;
    let t = params.t_gsw;
    proof {
        params.lemma_poly_len_bound();
        vstd::arithmetic::power2::lemma2_to64();
        if d2 < 32 {
            vstd::arithmetic::power2::lemma_pow2_strictly_increases(d2 as nat, 32);
        }
        assert forall|k: int| 0 <= k < query_count(params) implies (#[trigger] draws@[k])@.len() == np && noise@[k]@.len() == np by {
            assert(vv(draws@)[k] == draws@[k]@);
            assert(vv(noise@)[k] == noise@[k]@);
        }
    }
    let pd2 = pow2_u64(d2 as u64);
    let idx0 = idx / pd2;
    let idx_f = idx % pd2;
    let scale_k = q / params.pt_modulus;
    // first-dimension ciphertexts
    let ghost dv = vv(draws@);
    let ghost nv = vv(noise@);
    let mut cts: Vec<Vec<u64>> = Vec::new();
    let mut i: usize = 0;
    while i < num
        invariant
            params.wf(),
            !params.expand_queries,
            np == params.poly_len,
            2 <= np <= 16384,
            q == params.modulus,
            num == pow2(params.db_dim_1 as nat),
            num <= 0x10_0000,
            sk@.len() == np,
            draws@.len() == query_count(params),
            noise@.len() == query_count(params),
            forall|k: int| 0 <= k < query_count(params) ==> (#[trigger] draws@[k])@.len() == np && noise@[k]@.len() == np,
            dv == vv(draws@),
            nv == vv(noise@),
            idx0 == split_index(params, idx as int).0,
            scale_k == params.modulus / params.pt_modulus,
            i <= num,
            cts@.len() == i,
            forall|k: int| 0 <= k < i ==> (#[trigger] cts@[k])@ == first_dim_ct(params, sk@, dv, nv, idx as int, k),
        decreases num - i,
    {
        let v = if i as u64 == idx0 { scale_k } else { 0 };
        let msg = single_value_poly(np, v);
        let ct = encrypt_reg_poly(sk, &draws[i], &noise[i], &msg, q);
        proof {
            assert(dv[i as int] == draws@[i as int]@);
            assert(nv[i as int] == noise@[i as int]@);
        }
        cts.push(ct.data);
        i = i + 1;
    }
    // reorder into the server's index order
    let w2 = 2 * num;
    proof {
        assert(w2 * np <= 2 * 0x10_0000 * 16384) by (nonlinear_arith)
            requires
                w2 == 2 * num,
                num <= 0x10_0000,
                np <= 16384,
        ;
    }
    let total = w2 * np;
    let ghost spec_buf = v_buf_spec(params, sk@, dv, nv, idx as int);
    let mut v_buf: Vec<u64> = Vec::new();
    let mut w: usize = 0;
    while w < total
        invariant
            np == params.poly_len,
            2 <= np <= 16384,
            num == pow2(params.db_dim_1 as nat),
            w2 == 2 * num,
            w2 >= 2,
            total == w2 * np,
            cts@.len() == num,
            forall|k: int| 0 <= k < num ==> (#[trigger] cts@[k])@ == first_dim_ct(params, sk@, dv, nv, idx as int, k),
            forall|k: int| 0 <= k < num ==> (#[trigger] cts@[k])@.len() == 2 * np,
            spec_buf == v_buf_spec(params, sk@, dv, nv, idx as int),
            draws@.len() == query_count(params),
            noise@.len() == query_count(params),
            forall|k: int| 0 <= k < query_count(params) ==> (#[trigger] draws@[k])@.len() == np && noise@[k]@.len() == np,
            w <= total,
            v_buf@.len() == w,
            forall|k: int| 0 <= k < w ==> v_buf@[k] == spec_buf[k],
        decreases total - w,
    {
        let z = w / w2;
        let rem = w % w2;
        let ci = rem / 2;
        let r = rem % 2;
        proof {
            vstd::arithmetic::div_mod::lemma_fundamental_div_mod(w as int, w2 as int);
            assert(z < np) by (nonlinear_arith)
                requires
                    w == w2 * z + rem,
                    0 <= rem,
                    w < w2 * np,
                    w2 >= 1,
            ;
            assert(r * np + z < 2 * np) by (nonlinear_arith)
                requires
                    r <= 1,
                    z < np,
            ;
        }
        v_buf.push(cts[ci][r * np + z]);
        w = w + 1;
    }
    assert(v_buf@ =~= spec_buf);
    // GSW ciphertexts of the further dimensions
    let bits_per = get_bits_per(params, t);
    let ghost msgs_of = |i: int| gsw_msgs(params, sk@, idx as int, i);
    let mut v_ct: Vec<PolyMatrixRaw> = Vec::new();
    let mut i: usize = 0;
    proof {
        assert(num + 2 * d2 * t == query_count(params));
    }
    while i < d2
        invariant
            params.wf(),
            !params.expand_queries,
            query_in_range(params, idx as int),
            np == params.poly_len,
            2 <= np <= 16384,
            q == params.modulus,
            num == pow2(params.db_dim_1 as nat),
            d2 == params.db_dim_2,
            t == params.t_gsw,
            num + 2 * d2 * t == query_count(params),
            num <= 0x10_0000,
            d2 <= 32,
            1 <= t <= 64,
            sk@.len() == np,
            draws@.len() == query_count(params),
            noise@.len() == query_count(params),
            dv == vv(draws@),
            nv == vv(noise@),
            forall|k: int| 0 <= k < query_count(params) ==> (#[trigger] draws@[k])@.len() == np && noise@[k]@.len() == np,
            pd2 == pow2(d2 as nat),
            idx_f == split_index(params, idx as int).1,
            bits_per == bits_per_spec(params, t as int),
            i <= d2,
            v_ct@.len() == i,
            forall|k: int| 0 <= k < i ==> is_reg_encryption(#[trigger] &v_ct@[k], sk@,
                swap_pairs(dv, num + k * 2 * t, 2 * t), swap_pairs(nv, num + k * 2 * t, 2 * t),
                gsw_msgs(params, sk@, idx as int, k), q as int),
        decreases d2 - i,
    {
        proof {
            assert(num + i * 2 * t + 2 * t <= num + 2 * d2 * t) by (nonlinear_arith)
                requires
                    i < d2,
            ;
            assert(i * 2 * t <= 4096) by (nonlinear_arith)
                requires
                    i < d2,
                    d2 <= 32,
                    t <= 64,
            ;
            vstd::arithmetic::power2::lemma_pow2_pos(i as nat);
            vstd::arithmetic::power2::lemma2_to64();
        }
        let base = num + i * 2 * t;
        let a_cols = swap_pairs_exec(draws, base, 2 * t);
        let e_cols = swap_pairs_exec(noise, base, 2 * t);
        let bit = (idx_f / pow2_u64(i as u64)) % 2;
        let ghost want = gsw_msgs(params, sk@, idx as int, i as int);
        let mut msgs: Vec<Vec<u64>> = Vec::new();
        let mut c: usize = 0;
        while c < 2 * t
            invariant
                params.wf(),
                query_in_range(params, idx as int),
                np == params.poly_len,
                2 <= np <= 16384,
                q == params.modulus,
                t == params.t_gsw,
                d2 == params.db_dim_2,
                i < d2,
                sk@.len() == np,
                idx_f == split_index(params, idx as int).1,
                bits_per == bits_per_spec(params, t as int),
                bit == bit_of(idx_f as int, i as nat),
                want == gsw_msgs(params, sk@, idx as int, i as int),
                c <= 2 * t,
                msgs@.len() == c,
                forall|k: int| 0 <= k < c ==> (#[trigger] msgs@[k])@ == want[k],
            decreases 2 * t - c,
        {
            let j = c / 2;
            proof {
                assert(bits_per * j <= bits_per * (t - 1)) by (nonlinear_arith)
                    requires
                        j <= t - 1,
                ;
                vstd::bits::lemma_u64_pow2_no_overflow((bits_per * j) as nat);
                assert(pow2((bits_per * j) as nat) * bit <= u64::MAX) by (nonlinear_arith)
                    requires
                        bit <= 1,
                        pow2((bits_per * j) as nat) < u64::MAX,
                ;
            }
            let val = pow2_u64(bits_per * (j as u64)) * bit;
            if c % 2 == 1 {
                msgs.push(single_value_poly(np, val));
            } else {
                msgs.push(crate::keygen::scale_poly(sk, val, q));
            }
            c = c + 1;
        }
        assert(vv(msgs@) =~= want);
        proof {
            assert forall|k: int| 0 <= k < 2 * t implies (#[trigger] msgs@[k])@.len() == np by {}
            assert forall|k: int| 0 <= k < 2 * t implies (#[trigger] a_cols@[k])@.len() == np && e_cols@[k]@.len() == np by {
                assert(vv(a_cols@)[k] == a_cols@[k]@);
                assert(vv(e_cols@)[k] == e_cols@[k]@);
                let src = base + if k % 2 == 0 { k + 1 } else { k - 1 };
                assert(dv[src] == draws@[src]@);
                assert(nv[src] == noise@[src]@);
            }
            assert forall|k: int| 0 <= k < 2 * t implies (#[trigger] e_cols@[k])@.len() == np by {
                assert(a_cols@[k]@.len() == np);
            }
        }
        let m = crate::keygen::encrypt_matrix_reg(sk, &a_cols, &e_cols, &msgs, q);
        v_ct.push(m);
        proof {
            assert((i + 1) * 2 * t == i * 2 * t + 2 * t) by (nonlinear_arith);
        }
        i = i + 1;
    }
    Query { ct: None, v_buf: Some(v_buf), v_ct: Some(v_ct) }
}

} // verus!
