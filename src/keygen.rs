//! Key material: gadget values, automorphisms of the secret, and the
//! encryptions that make up the public parameters.

use vstd::prelude::*;
use crate::arith::{multiply_uint_mod, neg_uint_mod};
use crate::params::{Params, pow2, pow2_u64};
use crate::public_params::PublicParameters;
use crate::poly::{PolyMatrixRaw, coeff_index, poly_at};
use crate::query_build::{bits_per_spec, get_bits_per};
use crate::regev::{encrypt_reg_poly, lemma_regev_correct, phase, regev_ct};
use crate::ring::{nega_mul_poly, nega_product};

verus! {

/// Digit `j` of a gadget of `num_elems` digits: `2^(bits_per * j)`, or zero
/// where that passes the word.
pub open spec fn gadget_val(params: &Params, num_elems: int, j: int) -> u64 {
    let b = bits_per_spec(params, num_elems) * j;
    if b >= 64 {
        0
    } else {
        pow2(b as nat) as u64
    }
}

pub fn gadget_value(params: &Params, num_elems: usize, j: usize) -> (r: u64)
    requires
        params.ranges_ok(),
        1 <= num_elems <= 128,
        j < num_elems,
    ensures
        r == gadget_val(params, num_elems as int, j as int),
{
    let b = get_bits_per(params, num_elems);
    proof {
        assert(b <= 63) by {
            assert(crate::params::log2_ceil(params.modulus as nat) <= 62) by {
                vstd::arithmetic::power2::lemma2_to64_rest();
                crate::params::lemma_log2_ceil_least(0x4000_0000_0000_0000, 62);
                crate::params::lemma_log2_ceil_mono(params.modulus as nat, 0x4000_0000_0000_0000);
            }
        }
    }
    if j as u64 >= 64 {
        proof {
            assert(b * j >= 64) by (nonlinear_arith)
                requires
                    b >= 1,
                    j >= 64,
            ;
        }
        return 0;
    }
    proof {
        assert(b * j <= 63 * 63) by (nonlinear_arith)
            requires
                b <= 63,
                j <= 63,
        ;
    }
    let bj = b * (j as u64);
    if bj >= 64 {
        0
    } else {
        pow2_u64(bj)
    }
}

/// `p` times the constant `c`, mod `q`.
pub open spec fn scaled(p: Seq<u64>, c: u64, q: int) -> Seq<u64> {
    Seq::new(p.len(), |i: int| ((p[i] * c) % q) as u64)
}

pub fn scale_poly(p: &Vec<u64>, c: u64, q: u64) -> (r: Vec<u64>)
    requires
        q >= 1,
    ensures
        r@ == scaled(p@, c, q as int),
{
    let mut out: Vec<u64> = Vec::new();
    let mut i: usize = 0;
    while i < p.len()
        invariant
            q >= 1,
            i <= p@.len(),
            out@.len() == i,
            forall|k: int| 0 <= k < i ==> out@[k] == scaled(p@, c, q as int)[k],
        decreases p@.len() - i,
    {
        out.push(multiply_uint_mod(p[i], c, q));
        i = i + 1;
    }
    assert(out@ =~= scaled(p@, c, q as int));
    out
}

/// The image of `p` under `X -> X^t`, built coefficient by coefficient:
/// coefficient `i` goes to `i * t mod N`, negated where `i * t / N` is odd.
pub open spec fn automorph_prefix(p: Seq<u64>, t: int, q: int, i: int) -> Seq<u64>
    decreases i,
{
    let np = p.len() as int;
    if i <= 0 {
        Seq::new(p.len(), |k: int| 0u64)
    } else {
        let prev = automorph_prefix(p, t, q, i - 1);
        let num = ((i - 1) * t) / np;
        let rem = ((i - 1) * t) % np;
        let v = if num % 2 == 0 {
            ((p[i - 1] as int) % q) as u64
        } else {
            ((-((p[i - 1] as int) % q)) % q) as u64
        };
        prev.update(rem, v)
    }
}

pub open spec fn automorph_spec(p: Seq<u64>, t: int, q: int) -> Seq<u64> {
    automorph_prefix(p, t, q, p.len() as int)
}

pub proof fn lemma_automorph_prefix_len(p: Seq<u64>, t: int, q: int, i: int)
    requires
        p.len() >= 1,
        t >= 0,
    ensures
        automorph_prefix(p, t, q, i).len() == p.len(),
    decreases i,
{
    if i > 0 {
        lemma_automorph_prefix_len(p, t, q, i - 1);
        assert(0 <= ((i - 1) * t) % (p.len() as int) < p.len());
    }
}

/// `p(X^t)` in Z_q[X]/(X^N + 1).
pub fn automorph_poly(p: &Vec<u64>, t: usize, q: u64) -> (r: Vec<u64>)
    requires
        q >= 1,
        1 <= p@.len() <= 16384,
        t <= 16385,
    ensures
        r@ == automorph_spec(p@, t as int, q as int),
{
    let np = p.len();
    let mut out: Vec<u64> = Vec::new();
    while out.len() < np
        invariant
            out@.len() <= np,
            forall|k: int| 0 <= k < out@.len() ==> out@[k] == 0,
        decreases np - out@.len(),
    {
        out.push(0);
    }
    assert(out@ =~= automorph_prefix(p@, t as int, q as int, 0));
    let mut i: usize = 0;
    while i < np
        invariant
            q >= 1,
            np == p@.len(),
            1 <= np <= 16384,
            t <= 16385,
            i <= np,
            out@ == automorph_prefix(p@, t as int, q as int, i as int),
        decreases np - i,
    {
        proof {
            lemma_automorph_prefix_len(p@, t as int, q as int, i as int);
            assert(i * t <= 16384 * 16385) by (nonlinear_arith)
                requires
                    i <= 16384,
                    t <= 16385,
            ;
        }
        let num = (i * t) / np;
        let rem = (i * t) % np;
        let v = if num % 2 == 0 { p[i] % q } else { neg_uint_mod(p[i] % q, q) };
        out.set(rem, v);
        i = i + 1;
    }
    out
}

/// The first `len` coefficients from `start` on.
pub fn take_range(v: &Vec<u64>, start: usize, len: usize) -> (r: Vec<u64>)
    requires
        start + len <= v@.len(),
    ensures
        r@ == v@.subrange(start as int, start + len),
{
    let vl = v.len();
    let mut out: Vec<u64> = Vec::new();
    let mut i: usize = 0;
    while i < len
        invariant
            vl == v@.len(),
            start + len <= v@.len(),
            i <= len,
            out@ == v@.subrange(start as int, start + i),
        decreases len - i,
    {
        out.push(v[start + i]);
        assert(out@ =~= v@.subrange(start as int, start + i + 1));
        i = i + 1;
    }
    out
}

/// The views of a list of polynomials.
pub open spec fn vv(v: Seq<Vec<u64>>) -> Seq<Seq<u64>> {
    v.map_values(|x: Vec<u64>| x@)
}

/// Column `j` of a Regev encryption is the ciphertext of `msg[j]` with
/// randomness `a[j]` and noise `e[j]`.
pub open spec fn is_reg_encryption(r: &PolyMatrixRaw, s: Seq<u64>, a: Seq<Seq<u64>>, e: Seq<Seq<u64>>, msg: Seq<Seq<u64>>, q: int) -> bool {
    let np = s.len() as int;
    &&& r.wf()
    &&& r.rows == 2
    &&& r.cols == msg.len()
    &&& r.poly_len == np
    &&& forall|j: int|
        0 <= j < msg.len() ==> {
            &&& #[trigger] poly_at(r, 0, j) == regev_ct(s, a[j], e[j], msg[j], q).subrange(0, np)
            &&& poly_at(r, 1, j) == regev_ct(s, a[j], e[j], msg[j], q).subrange(np, 2 * np)
        }
}

/// Encrypts each polynomial of `msg` as one column of a 2 by `m` matrix.
pub fn encrypt_matrix_reg(s: &Vec<u64>, a: &Vec<Vec<u64>>, e: &Vec<Vec<u64>>, msg: &Vec<Vec<u64>>, q: u64) -> (r: PolyMatrixRaw)
    requires
        q >= 1,
        1 <= s@.len() <= 16384,
        msg@.len() <= 256,
        a@.len() == msg@.len(),
        e@.len() == msg@.len(),
        forall|j: int| 0 <= j < msg@.len() ==> (#[trigger] msg@[j])@.len() == s@.len(),
        forall|j: int| 0 <= j < msg@.len() ==> (#[trigger] a@[j])@.len() == s@.len(),
        forall|j: int| 0 <= j < msg@.len() ==> (#[trigger] e@[j])@.len() == s@.len(),
    ensures
        is_reg_encryption(&r, s@, vv(a@), vv(e@), vv(msg@), q as int),
{
    let np = s.len();
    let m = msg.len();
    proof {
        assert(2 * m * np <= 2 * 256 * 16384) by (nonlinear_arith)
            requires
                m <= 256,
                np <= 16384,
        ;
    }
    let mut r = PolyMatrixRaw::zero_of_len(np, 2, m);
    let mut j: usize = 0;
    while j < m
        invariant
            q >= 1,
            np == s@.len(),
            1 <= np <= 16384,
            m == msg@.len(),
            a@.len() == m,
            e@.len() == m,
            forall|k: int| 0 <= k < m ==> (#[trigger] msg@[k])@.len() == np,
            forall|k: int| 0 <= k < m ==> (#[trigger] a@[k])@.len() == np,
            forall|k: int| 0 <= k < m ==> (#[trigger] e@[k])@.len() == np,
            r.wf(),
            r.rows == 2,
            r.cols == m,
            r.poly_len == np,
            j <= m,
            forall|k: int|
                0 <= k < j ==> {
                    &&& #[trigger] poly_at(&r, 0, k) == regev_ct(s@, a@[k]@, e@[k]@, msg@[k]@, q as int).subrange(0, np as int)
                    &&& poly_at(&r, 1, k) == regev_ct(s@, a@[k]@, e@[k]@, msg@[k]@, q as int).subrange(np as int, 2 * np)
                },
        decreases m - j,
    {
        let ct = encrypt_reg_poly(s, &a[j], &e[j], &msg[j], q);
        let top = take_range(&ct.data, 0, np);
        let bottom = take_range(&ct.data, np, np);
        let ghost r0 = r;
        r.set_poly(0, j, &top);
        let ghost r1 = r;
        r.set_poly(1, j, &bottom);
        j = j + 1;
        proof {
            assert forall|k: int| 0 <= k < j implies {
                &&& #[trigger] poly_at(&r, 0, k) == regev_ct(s@, a@[k]@, e@[k]@, msg@[k]@, q as int).subrange(0, np as int)
                &&& poly_at(&r, 1, k) == regev_ct(s@, a@[k]@, e@[k]@, msg@[k]@, q as int).subrange(np as int, 2 * np)
            } by {
                if k < j - 1 {
                    assert(poly_at(&r1, 0, k) == poly_at(&r0, 0, k));
                    assert(poly_at(&r1, 1, k) == poly_at(&r0, 1, k));
                    assert(poly_at(&r, 0, k) == poly_at(&r1, 0, k));
                    assert(poly_at(&r, 1, k) == poly_at(&r1, 1, k));
                } else {
                    assert(k == j - 1);
                    assert(poly_at(&r1, 0, k) == top@);
                    assert(poly_at(&r, 1, k) == bottom@);
                    assert(poly_at(&r, 0, k) == poly_at(&r1, 0, k));
                    assert(ct.data@ == regev_ct(s@, a@[k]@, e@[k]@, msg@[k]@, q as int));
                }
            }
        }
    }
    assert forall|k: int| 0 <= k < m implies #[trigger] vv(a@)[k] == a@[k]@ && vv(e@)[k] == e@[k]@ && vv(msg@)[k] == msg@[k]@ by {}
    r
}

/// The plaintexts of expansion key `i`: the secret under `X -> X^t` with
/// `t = N / 2^i + 1`, times each digit of a gadget of `m_exp` digits.
pub open spec fn expansion_msgs(params: &Params, sk: Seq<u64>, i: int, m_exp: int) -> Seq<Seq<u64>> {
    let q = params.modulus as int;
    let t = (params.poly_len as int) / (pow2(i as nat) as int) + 1;
    Seq::new(m_exp as nat, |j: int| scaled(automorph_spec(sk, t, q), gadget_val(params, m_exp, j), q))
}

/// Expansion key `i`, with randomness `a` and noise `e`, one per column.
pub fn expansion_key(params: &Params, sk: &Vec<u64>, i: usize, m_exp: usize, a: &Vec<Vec<u64>>, e: &Vec<Vec<u64>>) -> (r: PolyMatrixRaw)
    requires
        params.ranges_ok(),
        sk@.len() == params.poly_len,
        i < 64,
        1 <= m_exp <= 128,
        a@.len() == m_exp,
        e@.len() == m_exp,
        forall|j: int| 0 <= j < m_exp ==> (#[trigger] a@[j])@.len() == params.poly_len,
        forall|j: int| 0 <= j < m_exp ==> (#[trigger] e@[j])@.len() == params.poly_len,
    ensures
        is_reg_encryption(&r, sk@, vv(a@), vv(e@), expansion_msgs(params, sk@, i as int, m_exp as int), params.modulus as int),
{
    let q = params.modulus;
    let np = params.poly_len;
    proof {
        params.lemma_poly_len_bound();
        vstd::arithmetic::power2::lemma_pow2_pos(i as nat);
    }
    let t = ((np as u64) / pow2_u64(i as u64) + 1) as usize;
    let tau = automorph_poly(sk, t, q);
    proof {
        lemma_automorph_prefix_len(sk@, t as int, q as int, np as int);
    }
    let ghost spec_msgs = expansion_msgs(params, sk@, i as int, m_exp as int);
    let mut msgs: Vec<Vec<u64>> = Vec::new();
    let mut j: usize = 0;
    while j < m_exp
        invariant
            params.ranges_ok(),
            q == params.modulus,
            tau@ == automorph_spec(sk@, t as int, q as int),
            tau@.len() == np,
            np == params.poly_len,
            t == (params.poly_len as int) / (pow2(i as nat) as int) + 1,
            spec_msgs == expansion_msgs(params, sk@, i as int, m_exp as int),
            1 <= m_exp <= 128,
            j <= m_exp,
            msgs@.len() == j,
            forall|k: int| 0 <= k < j ==> (#[trigger] msgs@[k])@ == spec_msgs[k],
        decreases m_exp - j,
    {
        let g = gadget_value(params, m_exp, j);
        msgs.push(scale_poly(&tau, g, q));
        j = j + 1;
    }
    assert(vv(msgs@) =~= spec_msgs);
    encrypt_matrix_reg(sk, a, e, &msgs, q)
}

/// `num_exp` expansion keys, key `i` with randomness `a[i]` and noise `e[i]`.
pub fn generate_expansion_params(params: &Params, sk: &Vec<u64>, num_exp: usize, m_exp: usize, a: &Vec<Vec<Vec<u64>>>, e: &Vec<Vec<Vec<u64>>>) -> (r: Vec<PolyMatrixRaw>)
    requires
        params.ranges_ok(),
        sk@.len() == params.poly_len,
        num_exp <= 64,
        1 <= m_exp <= 128,
        a@.len() == num_exp,
        e@.len() == num_exp,
        forall|i: int| 0 <= i < num_exp ==> (#[trigger] a@[i])@.len() == m_exp,
        forall|i: int| 0 <= i < num_exp ==> (#[trigger] e@[i])@.len() == m_exp,
        forall|i: int, j: int| 0 <= i < num_exp && 0 <= j < m_exp ==> (#[trigger] a@[i]@[j])@.len() == params.poly_len,
        forall|i: int, j: int| 0 <= i < num_exp && 0 <= j < m_exp ==> (#[trigger] e@[i]@[j])@.len() == params.poly_len,
    ensures
        r@.len() == num_exp,
        forall|i: int| 0 <= i < num_exp ==> is_reg_encryption(#[trigger] &r@[i], sk@, vv(a@[i]@), vv(e@[i]@), expansion_msgs(params, sk@, i, m_exp as int), params.modulus as int),
{
    let mut res: Vec<PolyMatrixRaw> = Vec::new();
    let mut i: usize = 0;
    while i < num_exp
        invariant
            params.ranges_ok(),
            sk@.len() == params.poly_len,
            num_exp <= 64,
            1 <= m_exp <= 128,
            a@.len() == num_exp,
            e@.len() == num_exp,
            forall|i: int| 0 <= i < num_exp ==> (#[trigger] a@[i])@.len() == m_exp,
            forall|i: int| 0 <= i < num_exp ==> (#[trigger] e@[i])@.len() == m_exp,
            forall|i: int, j: int| 0 <= i < num_exp && 0 <= j < m_exp ==> (#[trigger] a@[i]@[j])@.len() == params.poly_len,
            forall|i: int, j: int| 0 <= i < num_exp && 0 <= j < m_exp ==> (#[trigger] e@[i]@[j])@.len() == params.poly_len,
            i <= num_exp,
            res@.len() == i,
            forall|k: int| 0 <= k < i ==> is_reg_encryption(#[trigger] &res@[k], sk@, vv(a@[k]@), vv(e@[k]@), expansion_msgs(params, sk@, k, m_exp as int), params.modulus as int),
        decreases num_exp - i,
    {
        let w = expansion_key(params, sk, i, m_exp, &a[i], &e[i]);
        res.push(w);
        i = i + 1;
    }
    res
}

/// The plaintexts of the conversion key: column `j` is the square of the
/// secret (even `j`) or the secret (odd `j`), times digit `j / 2` of a
/// gadget of `t_conv` digits.
pub open spec fn conversion_msgs(params: &Params, sk: Seq<u64>) -> Seq<Seq<u64>> {
    let q = params.modulus as int;
    Seq::new((2 * params.t_conv) as nat, |j: int|
        if j % 2 == 0 {
            scaled(nega_product(sk, sk, q), gadget_val(params, params.t_conv as int, j / 2), q)
        } else {
            scaled(sk, gadget_val(params, params.t_conv as int, j / 2), q)
        })
}

/// The conversion key, with randomness `a` and noise `e`, one per column.
pub fn conversion_key(params: &Params, sk: &Vec<u64>, a: &Vec<Vec<u64>>, e: &Vec<Vec<u64>>) -> (r: PolyMatrixRaw)
    requires
        params.ranges_ok(),
        sk@.len() == params.poly_len,
        a@.len() == 2 * params.t_conv,
        e@.len() == 2 * params.t_conv,
        forall|j: int| 0 <= j < 2 * params.t_conv ==> (#[trigger] a@[j])@.len() == params.poly_len,
        forall|j: int| 0 <= j < 2 * params.t_conv ==> (#[trigger] e@[j])@.len() == params.poly_len,
    ensures
        is_reg_encryption(&r, sk@, vv(a@), vv(e@), conversion_msgs(params, sk@), params.modulus as int),
{
    let q = params.modulus;
    let tc = params.t_conv;
    proof {
        params.lemma_poly_len_bound();
    }
    let sq = nega_mul_poly(sk, sk, q);
    let ghost spec_msgs = conversion_msgs(params, sk@);
    let mut msgs: Vec<Vec<u64>> = Vec::new();
    let mut j: usize = 0;
    while j < 2 * tc
        invariant
            params.ranges_ok(),
            q == params.modulus,
            tc == params.t_conv,
            sq@ == nega_product(sk@, sk@, q as int),
            spec_msgs == conversion_msgs(params, sk@),
            j <= 2 * tc,
            msgs@.len() == j,
            forall|k: int| 0 <= k < j ==> (#[trigger] msgs@[k])@ == spec_msgs[k],
        decreases 2 * tc - j,
    {
        let g = gadget_value(params, tc, j / 2);
        if j % 2 == 0 {
            msgs.push(scale_poly(&sq, g, q));
        } else {
            msgs.push(scale_poly(sk, g, q));
        }
        j = j + 1;
    }
    assert(vv(msgs@) =~= spec_msgs);
    encrypt_matrix_reg(sk, a, e, &msgs, q)
}

/// Row `r` of a secret column.
pub open spec fn sk_row(sk: &PolyMatrixRaw, r: int) -> Seq<u64> {
    poly_at(sk, r, 0)
}

/// Entry `(rr, k)` of the GSW encryption of `msg` (`n` by `m` polynomials,
/// `msg[r][k]`) under the secret column `sk`, with randomness `a[k]` and
/// noise `e[r][k]`: row 0 holds `-a[k]`, row `r + 1` holds
/// `sk[r] * a[k] + e[r][k] + msg[r][k]`.
pub open spec fn gsw_entry(sk: &PolyMatrixRaw, a: Seq<Seq<u64>>, e: Seq<Seq<Seq<u64>>>, msg: Seq<Seq<Seq<u64>>>, q: int, rr: int, k: int) -> Seq<u64> {
    let np = sk.poly_len as int;
    if rr == 0 {
        regev_ct(sk_row(sk, 0), a[k], e[0][k], msg[0][k], q).subrange(0, np)
    } else {
        regev_ct(sk_row(sk, rr - 1), a[k], e[rr - 1][k], msg[rr - 1][k], q).subrange(np, 2 * np)
    }
}

/// The plaintext of packing key `i`: row `i` holds the Regev secret times
/// each digit of a gadget of `t_conv` digits; every other row is zero.
pub open spec fn packing_msgs(params: &Params, sk_reg: Seq<u64>, i: int) -> Seq<Seq<Seq<u64>>> {
    let q = params.modulus as int;
    let t = params.t_conv as int;
    Seq::new(params.n as nat, |r: int|
        Seq::new(t as nat, |j: int|
            if r == i {
                scaled(sk_reg, gadget_val(params, t, j), q)
            } else {
                Seq::new(params.poly_len as nat, |z: int| 0u64)
            }))
}

/// The `n + 1` by `m` matrix is the GSW encryption described by `gsw_entry`.
pub open spec fn is_gsw_encryption(r: &PolyMatrixRaw, sk: &PolyMatrixRaw, a: Seq<Seq<u64>>, e: Seq<Seq<Seq<u64>>>, msg: Seq<Seq<Seq<u64>>>, m: int, q: int) -> bool {
    &&& r.wf()
    &&& r.rows == sk.rows + 1
    &&& r.cols == m
    &&& r.poly_len == sk.poly_len
    &&& forall|rr: int, k: int| 0 <= rr <= sk.rows && 0 <= k < m ==> #[trigger] poly_at(r, rr, k) == gsw_entry(sk, a, e, msg, q, rr, k)
}

/// Decrypting a GSW encryption row by row gives each message plus its
/// noise: the phase of row `i + 1` of column `j` under `sk[i]` is
/// `e[i][j] + msg[i][j]` mod `q`.
pub proof fn lemma_gsw_correct(sk: &PolyMatrixRaw, ct: &PolyMatrixRaw, a: Seq<Seq<u64>>, e: Seq<Seq<Seq<u64>>>, msg: Seq<Seq<Seq<u64>>>, m: int, q: int, i: int, j: int)
    requires
        is_gsw_encryption(ct, sk, a, e, msg, m, q),
        sk.wf(),
        sk.cols == 1,
        sk.poly_len >= 1,
        1 <= q <= u64::MAX,
        0 <= i < sk.rows,
        0 <= j < m,
        a[j].len() == sk.poly_len,
        e[i][j].len() == sk.poly_len,
        msg[i][j].len() == sk.poly_len,
        e[0][j].len() == sk.poly_len,
        msg[0][j].len() == sk.poly_len,
    ensures
        phase(sk_row(sk, i), poly_at(ct, 0, j), poly_at(ct, i + 1, j), q)
            == Seq::new(sk.poly_len as nat, |k: int| ((e[i][j][k] + msg[i][j][k]) % q) as u64),
{
    let np = sk.poly_len as int;
    assert(i * np + np <= sk.rows * np) by (nonlinear_arith)
        requires
            i + 1 <= sk.rows,
            np >= 0,
    ;
    assert(coeff_index(1, np, i, 0, 0) == i * np) by (nonlinear_arith);
    assert(coeff_index(1, np, 0, 0, 0) == 0) by (nonlinear_arith);
    assert(0 <= i * np) by (nonlinear_arith)
        requires
            0 <= i,
            0 <= np,
    ;
    assert(sk.data@.len() == sk.rows * np) by (nonlinear_arith)
        requires
            sk.data@.len() == sk.rows * 1 * np,
    ;
    let s = sk_row(sk, i);
    assert(s.len() == np);
    let s0 = sk_row(sk, 0);
    assert(np <= sk.rows * np) by (nonlinear_arith)
        requires
            sk.rows >= 1,
            np >= 0,
    ;
    assert(s0.len() == np);
    let ct_i = regev_ct(s, a[j], e[i][j], msg[i][j], q);
    let ct_0 = regev_ct(s0, a[j], e[0][j], msg[0][j], q);
    assert(poly_at(ct, 0, j) == ct_0.subrange(0, np));
    assert(ct_0.subrange(0, np) =~= ct_i.subrange(0, np));
    assert(poly_at(ct, i + 1, j) == ct_i.subrange(np, 2 * np));
    lemma_regev_correct(s, a[j], e[i][j], msg[i][j], q);
}

/// The views of a list of lists of polynomials.
pub open spec fn vvv(v: Seq<Vec<Vec<u64>>>) -> Seq<Seq<Seq<u64>>> {
    v.map_values(|x: Vec<Vec<u64>>| vv(x@))
}

/// Packing key `i`: the GSW encryption of its plaintext under `sk_gsw`,
/// with randomness `a[k]` per column and noise `e[r][k]` per entry.
pub fn packing_key(params: &Params, sk_gsw: &PolyMatrixRaw, sk_reg: &Vec<u64>, i: usize, a: &Vec<Vec<u64>>, e: &Vec<Vec<Vec<u64>>>) -> (r: PolyMatrixRaw)
    requires
        params.ranges_ok(),
        sk_gsw.wf(),
        sk_gsw.rows == params.n,
        sk_gsw.cols == 1,
        sk_gsw.poly_len == params.poly_len,
        sk_reg@.len() == params.poly_len,
        i < params.n,
        a@.len() == params.t_conv,
        e@.len() == params.n,
        forall|k: int| 0 <= k < params.t_conv ==> (#[trigger] a@[k])@.len() == params.poly_len,
        forall|rr: int| 0 <= rr < params.n ==> (#[trigger] e@[rr])@.len() == params.t_conv,
        forall|rr: int, k: int| 0 <= rr < params.n && 0 <= k < params.t_conv ==> (#[trigger] e@[rr]@[k])@.len() == params.poly_len,
    ensures
        is_gsw_encryption(&r, sk_gsw, vv(a@), vvv(e@), packing_msgs(params, sk_reg@, i as int), params.t_conv as int, params.modulus as int),
{
    let q = params.modulus;
    let np = params.poly_len;
    let n = params.n;
    let m = params.t_conv;
    let ghost av = vv(a@);
    let ghost ev = vvv(e@);
    let ghost msg = packing_msgs(params, sk_reg@, i as int);
    proof {
        params.lemma_poly_len_bound();
        assert((n + 1) * m * np <= 17 * 64 * 16384) by (nonlinear_arith)
            requires
                n <= 16,
                m <= 64,
                np <= 16384,
        ;
        assert(n * 1 * np <= 16 * 16384) by (nonlinear_arith)
            requires
                n <= 16,
                np <= 16384,
        ;
    }
    let mut out = PolyMatrixRaw::zero(params, n + 1, m);
    let mut k: usize = 0;
    while k < m
        invariant
            params.ranges_ok(),
            q == params.modulus,
            np == params.poly_len,
            2 <= np <= 16384,
            n == params.n,
            m == params.t_conv,
            n * 1 * np <= 16 * 16384,
            sk_gsw.wf(),
            sk_gsw.rows == n,
            sk_gsw.cols == 1,
            sk_gsw.poly_len == np,
            sk_reg@.len() == np,
            i < n,
            a@.len() == m,
            e@.len() == n,
            forall|k: int| 0 <= k < m ==> (#[trigger] a@[k])@.len() == np,
            forall|rr: int| 0 <= rr < n ==> (#[trigger] e@[rr])@.len() == m,
            forall|rr: int, k: int| 0 <= rr < n && 0 <= k < m ==> (#[trigger] e@[rr]@[k])@.len() == np,
            av == vv(a@),
            ev == vvv(e@),
            msg == packing_msgs(params, sk_reg@, i as int),
            out.wf(),
            out.rows == n + 1,
            out.cols == m,
            out.poly_len == np,
            k <= m,
            forall|rr: int, kk: int| 0 <= rr <= n && 0 <= kk < k ==> #[trigger] poly_at(&out, rr, kk) == gsw_entry(sk_gsw, av, ev, msg, q as int, rr, kk),
        decreases m - k,
    {
        let g = gadget_value(params, m, k);
        let gm = scale_poly(sk_reg, g, q);
        let zero = PolyMatrixRaw::zero_of_len(np, 1, 1);
        let ghost start = out;
        let mut rr: usize = 0;
        while rr < n
            invariant
                params.ranges_ok(),
                q == params.modulus,
                np == params.poly_len,
                2 <= np <= 16384,
                n == params.n,
                m == params.t_conv,
                n * 1 * np <= 16 * 16384,
                sk_gsw.wf(),
                sk_gsw.rows == n,
                sk_gsw.cols == 1,
                sk_gsw.poly_len == np,
                sk_reg@.len() == np,
                i < n,
                k < m,
                a@.len() == m,
                e@.len() == n,
                forall|k: int| 0 <= k < m ==> (#[trigger] a@[k])@.len() == np,
                forall|rr: int| 0 <= rr < n ==> (#[trigger] e@[rr])@.len() == m,
                forall|rr: int, k: int| 0 <= rr < n && 0 <= k < m ==> (#[trigger] e@[rr]@[k])@.len() == np,
                av == vv(a@),
                ev == vvv(e@),
                msg == packing_msgs(params, sk_reg@, i as int),
                gm@ == scaled(sk_reg@, gadget_val(params, m as int, k as int), q as int),
                zero.data@.len() == np,
                forall|z: int| 0 <= z < np ==> zero.data@[z] == 0,
                out.wf(),
                out.rows == n + 1,
                out.cols == m,
                out.poly_len == np,
                rr <= n,
                forall|r2: int, kk: int| 0 <= r2 <= n && 0 <= kk < k ==> #[trigger] poly_at(&out, r2, kk) == gsw_entry(sk_gsw, av, ev, msg, q as int, r2, kk),
                forall|r2: int| 0 <= r2 <= rr && (r2 > 0 || rr > 0) ==> #[trigger] poly_at(&out, r2, k as int) == gsw_entry(sk_gsw, av, ev, msg, q as int, r2, k as int),
            decreases n - rr,
        {
            proof {
                assert(rr * np + np <= n * 1 * np) by (nonlinear_arith)
                    requires
                        rr < n,
                ;
            }
            let srow = take_range(&sk_gsw.data, rr * np, np);
            let msg_r = if rr == i { &gm } else { &zero.data };
            proof {
                assert(coeff_index(1, np as int, rr as int, 0, 0) == rr * np) by (nonlinear_arith);
                assert(srow@ == sk_row(sk_gsw, rr as int));
                assert(msg_r@ =~= msg[rr as int][k as int]);
                assert(av[k as int] == a@[k as int]@);
                assert(ev[rr as int][k as int] == e@[rr as int]@[k as int]@);
            }
            let ct = encrypt_reg_poly(&srow, &a[k], &e[rr][k], msg_r, q);
            let bottom = take_range(&ct.data, np, np);
            let ghost before = out;
            if rr == 0 {
                let top = take_range(&ct.data, 0, np);
                out.set_poly(0, k, &top);
            }
            let ghost mid = out;
            out.set_poly(rr + 1, k, &bottom);
            proof {
                assert forall|r2: int, kk: int| 0 <= r2 <= n && 0 <= kk < k implies #[trigger] poly_at(&out, r2, kk) == gsw_entry(sk_gsw, av, ev, msg, q as int, r2, kk) by {
                    assert(poly_at(&before, r2, kk) == gsw_entry(sk_gsw, av, ev, msg, q as int, r2, kk));
                    if rr == 0 {
                        assert(poly_at(&mid, r2, kk) == poly_at(&before, r2, kk));
                    }
                    assert(poly_at(&out, r2, kk) == poly_at(&mid, r2, kk));
                }
                assert forall|r2: int| 0 <= r2 <= rr + 1 implies #[trigger] poly_at(&out, r2, k as int) == gsw_entry(sk_gsw, av, ev, msg, q as int, r2, k as int) by {
                    if r2 == rr + 1 {
                    } else if r2 == 0 && rr == 0 {
                        assert(poly_at(&out, r2, k as int) == poly_at(&mid, r2, k as int));
                    } else {
                        assert(poly_at(&before, r2, k as int) == gsw_entry(sk_gsw, av, ev, msg, q as int, r2, k as int));
                        assert(poly_at(&out, r2, k as int) == poly_at(&mid, r2, k as int));
                    }
                }
            }
            rr = rr + 1;
        }
        k = k + 1;
    }
    out
}

/// `count` polynomials of `np` coefficients each.
pub open spec fn polys_ok(v: Seq<Seq<u64>>, count: int, np: int) -> bool {
    &&& v.len() == count
    &&& forall|k: int| 0 <= k < count ==> (#[trigger] v[k]).len() == np
}

/// The randomness and noise that key generation consumes: per packing key,
/// a private polynomial per column and a noise polynomial per entry; per
/// expansion and conversion key, a public and a noise polynomial per column.
pub struct KeygenRandomness {
    pub packing_a: Vec<Vec<Vec<u64>>>,
    pub packing_e: Vec<Vec<Vec<Vec<u64>>>>,
    pub left_a: Vec<Vec<Vec<u64>>>,
    pub left_e: Vec<Vec<Vec<u64>>>,
    pub right_a: Vec<Vec<Vec<u64>>>,
    pub right_e: Vec<Vec<Vec<u64>>>,
    pub conv_a: Vec<Vec<u64>>,
    pub conv_e: Vec<Vec<u64>>,
}

impl KeygenRandomness {
    /// Every list has the count and every polynomial the length that the
    /// parameters fix.
    pub open spec fn shaped(&self, params: &Params) -> bool {
        &&& self.private_shaped(params)
        &&& self.public_shaped(params)
    }

    /// The private randomness and the noise have the shapes the parameters
    /// fix.
    pub open spec fn private_shaped(&self, params: &Params) -> bool {
        let np = params.poly_len as int;
        let n = params.n as int;
        let tc = params.t_conv as int;
        &&& self.packing_a@.len() == n
        &&& forall|i: int| 0 <= i < n ==> polys_ok(vv(#[trigger] self.packing_a@[i]@), tc, np)
        &&& self.packing_e@.len() == n
        &&& forall|i: int| 0 <= i < n ==> (#[trigger] self.packing_e@[i])@.len() == n
        &&& forall|i: int, r: int| 0 <= i < n && 0 <= r < n ==> polys_ok(vv(#[trigger] self.packing_e@[i]@[r]@), tc, np)
        &&& params.expand_queries ==> {
            &&& self.left_e@.len() == params.g_spec()
            &&& forall|i: int| 0 <= i < params.g_spec() ==> polys_ok(vv(#[trigger] self.left_e@[i]@), params.t_exp_left as int, np)
            &&& self.right_e@.len() == params.stop_round_spec() + 1
            &&& forall|i: int| 0 <= i <= params.stop_round_spec() ==> polys_ok(vv(#[trigger] self.right_e@[i]@), params.t_exp_right as int, np)
            &&& polys_ok(vv(self.conv_e@), 2 * tc, np)
        }
    }

    /// The public randomness has the shape the parameters fix.
    pub open spec fn public_shaped(&self, params: &Params) -> bool {
        let np = params.poly_len as int;
        &&& params.expand_queries ==> {
            &&& self.left_a@.len() == params.g_spec()
            &&& forall|i: int| 0 <= i < params.g_spec() ==> polys_ok(vv(#[trigger] self.left_a@[i]@), params.t_exp_left as int, np)
            &&& self.right_a@.len() == params.stop_round_spec() + 1
            &&& forall|i: int| 0 <= i <= params.stop_round_spec() ==> polys_ok(vv(#[trigger] self.right_a@[i]@), params.t_exp_right as int, np)
            &&& polys_ok(vv(self.conv_a@), 2 * params.t_conv, np)
        }
    }
}

/// `pp` holds the keys that the secrets and the randomness determine.
pub open spec fn keys_from(pp: &PublicParameters, params: &Params, sk_gsw: &PolyMatrixRaw, sk_reg: Seq<u64>, rnd: &KeygenRandomness) -> bool {
    let q = params.modulus as int;
    &&& pp.shaped(params)
    &&& forall|i: int| 0 <= i < params.n ==> is_gsw_encryption(#[trigger] &pp.v_packing@[i], sk_gsw, vv(rnd.packing_a@[i]@), vvv(rnd.packing_e@[i]@), packing_msgs(params, sk_reg, i), params.t_conv as int, q)
    &&& params.expand_queries ==> {
        &&& forall|i: int| 0 <= i < params.g_spec() ==> is_reg_encryption(#[trigger] &pp.v_expansion_left->Some_0@[i], sk_reg, vv(rnd.left_a@[i]@), vv(rnd.left_e@[i]@), expansion_msgs(params, sk_reg, i, params.t_exp_left as int), q)
        &&& forall|i: int| 0 <= i <= params.stop_round_spec() ==> is_reg_encryption(#[trigger] &pp.v_expansion_right->Some_0@[i], sk_reg, vv(rnd.right_a@[i]@), vv(rnd.right_e@[i]@), expansion_msgs(params, sk_reg, i, params.t_exp_right as int), q)
        &&& is_reg_encryption(&pp.v_conversion->Some_0@[0], sk_reg, vv(rnd.conv_a@), vv(rnd.conv_e@), conversion_msgs(params, sk_reg), q)
    }
}

/// The public parameters for the given secrets and randomness.
pub fn public_parameters_from(params: &Params, sk_gsw: &PolyMatrixRaw, sk_reg: &Vec<u64>, rnd: &KeygenRandomness) -> (r: PublicParameters)
    requires
        params.wf(),
        sk_gsw.wf(),
        sk_gsw.rows == params.n,
        sk_gsw.cols == 1,
        sk_gsw.poly_len == params.poly_len,
        sk_reg@.len() == params.poly_len,
        rnd.shaped(params),
    ensures
        keys_from(&r, params, sk_gsw, sk_reg@, rnd),
{
    let n = params.n;
    let mut pp = PublicParameters::init(params);
    let mut i: usize = 0;
    while i < n
        invariant
            params.wf(),
            n == params.n,
            sk_gsw.wf(),
            sk_gsw.rows == params.n,
            sk_gsw.cols == 1,
            sk_gsw.poly_len == params.poly_len,
            sk_reg@.len() == params.poly_len,
            rnd.shaped(params),
            i <= n,
            pp.v_packing@.len() == i,
            params.expand_queries ==> pp.v_expansion_left is Some && pp.v_expansion_right is Some && pp.v_conversion is Some,
            !params.expand_queries ==> pp.v_expansion_left is None && pp.v_expansion_right is None && pp.v_conversion is None,
            forall|k: int| 0 <= k < i ==> is_gsw_encryption(#[trigger] &pp.v_packing@[k], sk_gsw, vv(rnd.packing_a@[k]@), vvv(rnd.packing_e@[k]@), packing_msgs(params, sk_reg@, k), params.t_conv as int, params.modulus as int),
        decreases n - i,
    {
        proof {
            assert(polys_ok(vv(rnd.packing_a@[i as int]@), params.t_conv as int, params.poly_len as int));
            assert forall|k: int| 0 <= k < params.t_conv implies (#[trigger] rnd.packing_a@[i as int]@[k])@.len() == params.poly_len by {
                assert(vv(rnd.packing_a@[i as int]@)[k] == rnd.packing_a@[i as int]@[k]@);
            }
            assert forall|r: int, k: int| 0 <= r < params.n && 0 <= k < params.t_conv implies (#[trigger] rnd.packing_e@[i as int]@[r]@[k])@.len() == params.poly_len by {
                assert(polys_ok(vv(rnd.packing_e@[i as int]@[r]@), params.t_conv as int, params.poly_len as int));
                assert(vv(rnd.packing_e@[i as int]@[r]@)[k] == rnd.packing_e@[i as int]@[r]@[k]@);
            }
        }
        let w = packing_key(params, sk_gsw, sk_reg, i, &rnd.packing_a[i], &rnd.packing_e[i]);
        pp.v_packing.push(w);
        i = i + 1;
    }
    if params.expand_queries {
        let g = params.g();
        let sr = params.stop_round();
        proof {
            assert forall|i: int, j: int| 0 <= i < g && 0 <= j < params.t_exp_left implies (#[trigger] rnd.left_a@[i]@[j])@.len() == params.poly_len by {
                assert(polys_ok(vv(rnd.left_a@[i]@), params.t_exp_left as int, params.poly_len as int));
                assert(vv(rnd.left_a@[i]@)[j] == rnd.left_a@[i]@[j]@);
            }
            assert forall|i: int, j: int| 0 <= i < g && 0 <= j < params.t_exp_left implies (#[trigger] rnd.left_e@[i]@[j])@.len() == params.poly_len by {
                assert(polys_ok(vv(rnd.left_e@[i]@), params.t_exp_left as int, params.poly_len as int));
                assert(vv(rnd.left_e@[i]@)[j] == rnd.left_e@[i]@[j]@);
            }
            assert forall|i: int, j: int| 0 <= i < sr + 1 && 0 <= j < params.t_exp_right implies (#[trigger] rnd.right_a@[i]@[j])@.len() == params.poly_len by {
                assert(polys_ok(vv(rnd.right_a@[i]@), params.t_exp_right as int, params.poly_len as int));
                assert(vv(rnd.right_a@[i]@)[j] == rnd.right_a@[i]@[j]@);
            }
            assert forall|i: int, j: int| 0 <= i < sr + 1 && 0 <= j < params.t_exp_right implies (#[trigger] rnd.right_e@[i]@[j])@.len() == params.poly_len by {
                assert(polys_ok(vv(rnd.right_e@[i]@), params.t_exp_right as int, params.poly_len as int));
                assert(vv(rnd.right_e@[i]@)[j] == rnd.right_e@[i]@[j]@);
            }
            assert forall|i: int| 0 <= i < g implies (#[trigger] rnd.left_a@[i])@.len() == params.t_exp_left by {
                assert(polys_ok(vv(rnd.left_a@[i]@), params.t_exp_left as int, params.poly_len as int));
            }
            assert forall|i: int| 0 <= i < g implies (#[trigger] rnd.left_e@[i])@.len() == params.t_exp_left by {
                assert(polys_ok(vv(rnd.left_e@[i]@), params.t_exp_left as int, params.poly_len as int));
            }
            assert forall|i: int| 0 <= i < sr + 1 implies (#[trigger] rnd.right_a@[i])@.len() == params.t_exp_right by {
                assert(polys_ok(vv(rnd.right_a@[i]@), params.t_exp_right as int, params.poly_len as int));
            }
            assert forall|i: int| 0 <= i < sr + 1 implies (#[trigger] rnd.right_e@[i])@.len() == params.t_exp_right by {
                assert(polys_ok(vv(rnd.right_e@[i]@), params.t_exp_right as int, params.poly_len as int));
            }
            assert forall|j: int| 0 <= j < 2 * params.t_conv implies (#[trigger] rnd.conv_a@[j])@.len() == params.poly_len by {
                assert(vv(rnd.conv_a@)[j] == rnd.conv_a@[j]@);
            }
            assert forall|j: int| 0 <= j < 2 * params.t_conv implies (#[trigger] rnd.conv_e@[j])@.len() == params.poly_len by {
                assert(vv(rnd.conv_e@)[j] == rnd.conv_e@[j]@);
            }
        }
        let left = generate_expansion_params(params, sk_reg, g, params.t_exp_left, &rnd.left_a, &rnd.left_e);
        let right = generate_expansion_params(params, sk_reg, sr + 1, params.t_exp_right, &rnd.right_a, &rnd.right_e);
        let conv = conversion_key(params, sk_reg, &rnd.conv_a, &rnd.conv_e);
        let mut convs: Vec<PolyMatrixRaw> = Vec::new();
        convs.push(conv);
        pp.v_expansion_left = Some(left);
        pp.v_expansion_right = Some(right);
        pp.v_conversion = Some(convs);
    }
    pp
}

} // verus!
