//! Response decoding: two-modulus rescaling of each coefficient to the
//! plaintext modulus.

use vstd::prelude::*;
use vstd::arithmetic::div_mod::{lemma_fundamental_div_mod, lemma_mod_multiples_vanish};
use crate::arith::{recenter, signed_rep};
use crate::bits::{bits_value, bytes_for, lemma_bits_value_bound, pack_bits, packed_byte, read_arbitrary_bits};
use crate::params::{Params, log2_ceil, log2_ceil_exec};
use crate::ring::{nega_coeff, nega_mul_coeff};

verus! {

/// `a / d` rounded toward zero.
pub open spec fn trunc_div(a: int, d: int) -> int {
    if a >= 0 {
        a / d
    } else {
        -((-a) / d)
    }
}

/// The plaintext coefficient that a first-row residue `first` (mod `q2`) and
/// a remaining residue `rest` (mod `q1`) stand for: both are taken as signed
/// representatives, combined over `q1 * q2`, divided by `q2 * (q1 / p)` with
/// halves rounded away from zero, and reduced mod `p`.
pub open spec fn rescale_spec(first: int, rest: int, q1: int, q2: int, p: int) -> int {
    let vf = signed_rep(first, q2);
    let vr = signed_rep(rest, q1);
    let r = vf * q1 + vr * q2;
    let denom = q2 * (q1 / p);
    let sign: int = if r >= 0 { 1 } else { -1 };
    let res = trunc_div(r + sign * (denom / 2), denom);
    (res + (denom / p) * p + 2 * p) % p
}

/// `x mod m`, the least non-negative residue.
fn euclid_mod(x: i128, m: u64) -> (r: u64)
    requires
        m >= 1,
        -0x1000_0000_0000_0000_0000_0000 <= x <= 0x1000_0000_0000_0000_0000_0000,
    ensures
        r == (x as int) % (m as int),
        r < m,
{
    if x >= 0 {
        ((x as u128) % (m as u128)) as u64
    } else {
        let d = (-x) as u128;
        let dm = d % (m as u128);
        let ghost k = d as int / m as int;
        proof {
            lemma_fundamental_div_mod(d as int, m as int);
        }
        if dm == 0 {
            proof {
                assert(x == m * (-k) + 0) by (nonlinear_arith)
                    requires
                        d == m * k + dm,
                        dm == 0,
                        x == -d,
                ;
                lemma_mod_multiples_vanish(-k, 0, m as int);
                vstd::arithmetic::div_mod::lemma_small_mod(0, m as nat);
            }
            0
        } else {
            proof {
                assert(x == m * (-k - 1) + (m - dm)) by (nonlinear_arith)
                    requires
                        d == m * k + dm,
                        x == -d,
                ;
                lemma_mod_multiples_vanish(-k - 1, (m - dm) as int, m as int);
                vstd::arithmetic::div_mod::lemma_small_mod((m - dm) as nat, m as nat);
            }
            (m as u128 - dm) as u64
        }
    }
}

/// Rescales one coefficient of a response to the plaintext modulus.
pub fn rescale(first: u64, rest: u64, q1: u64, q2: u64, p: u64) -> (r: u64)
    requires
        1 <= p <= q1 <= 0x100_0000,
        1 <= q2 <= 0x100_0000_0000,
        first <= 0x100_0000_0000,
        rest <= 0x100_0000,
    ensures
        r == rescale_spec(first as int, rest as int, q1 as int, q2 as int, p as int),
        r < p,
{
    let vf: i128 = if first > q2 / 2 { first as i128 - q2 as i128 } else { first as i128 };
    let vr: i128 = if rest > q1 / 2 { rest as i128 - q1 as i128 } else { rest as i128 };
    proof {
        assert(vf * q1 <= 0x100_0000_0000 * 0x100_0000) by (nonlinear_arith)
            requires
                -0x100_0000_0000 <= vf <= 0x100_0000_0000,
                1 <= q1 <= 0x100_0000,
        ;
        assert(-0x100_0000_0000 * 0x100_0000 <= vf * q1) by (nonlinear_arith)
            requires
                -0x100_0000_0000 <= vf <= 0x100_0000_0000,
                1 <= q1 <= 0x100_0000,
        ;
        assert(-0x100_0000 * 0x100_0000_0000 <= vr * q2 <= 0x100_0000 * 0x100_0000_0000) by (nonlinear_arith)
            requires
                -0x100_0000 <= vr <= 0x100_0000,
                1 <= q2 <= 0x100_0000_0000,
        ;
        vstd::arithmetic::div_mod::lemma_div_is_ordered(p as int, q1 as int, p as int);
        vstd::arithmetic::div_mod::lemma_div_by_self(p as int);
        vstd::arithmetic::div_mod::lemma_div_nonincreasing(q1 as int, p as int);
        assert(q2 * (q1 / p) <= 0x100_0000_0000 * 0x100_0000) by (nonlinear_arith)
            requires
                1 <= q1 / p <= 0x100_0000,
                1 <= q2 <= 0x100_0000_0000,
        ;
        assert(q2 * (q1 / p) >= 1) by (nonlinear_arith)
            requires
                1 <= q1 / p,
                1 <= q2,
        ;
    }
    let r: i128 = vf * (q1 as i128) + vr * (q2 as i128);
    let denom: u128 = (q2 as u128) * ((q1 / p) as u128);
    let half: u128 = denom / 2;
    let res: i128 = if r >= 0 {
        proof {
            vstd::arithmetic::div_mod::lemma_div_nonincreasing(r + half, denom as int);
        }
        (((r as u128) + half) / denom) as i128
    } else {
        proof {
            vstd::arithmetic::div_mod::lemma_div_nonincreasing(-r + half, denom as int);
        }
        -(((((-r) as u128) + half) / denom) as i128)
    };
    proof {
        assert(-0x10_0000_0000_0000_0000 <= res <= 0x10_0000_0000_0000_0000);
        assert((denom / (p as u128)) * (p as u128) <= denom) by (nonlinear_arith)
            requires
                p >= 1,
        ;
    }
    let x: i128 = res + ((denom / (p as u128)) * (p as u128)) as i128 + 2 * (p as i128);
    proof {
        let vfs = signed_rep(first as int, q2 as int);
        let vrs = signed_rep(rest as int, q1 as int);
        assert(vf == vfs);
        assert(vr == vrs);
        assert(r == vfs * q1 + vrs * q2);
        let sign: int = if r >= 0 { 1 } else { -1 };
        if r >= 0 {
            assert(sign * (denom / 2) == half);
        } else {
            assert(sign == -1);
            assert(sign * (denom / 2) == -half) by (nonlinear_arith)
                requires
                    sign == -1,
                    half == denom / 2,
            ;
        }
        assert(res == trunc_div(r + sign * (denom / 2), denom as int));
    }
    euclid_mod(x, p)
}

/// Why a response could not be decoded.
#[derive(Debug, PartialEq, Eq, Structural)]
pub enum DecodeError {
    /// The response holds fewer bytes than the parameters call for.
    ResponseTooShort { needed: usize, found: usize },
    /// The response or its plaintext would not fit in memory.
    TooLarge,
}

/// Each coefficient of `sk` moved from modulus `from` to modulus `to`
/// through its signed representative.
pub open spec fn recentered(sk: Seq<u64>, from: int, to: int) -> Seq<u64> {
    Seq::new(sk.len(), |i: int| (signed_rep(sk[i] as int, from) % to) as u64)
}

/// `count` values of `w` bits each, read from bit `base` on.
pub open spec fn read_run(data: Seq<u8>, base: int, count: int, w: nat) -> Seq<u64> {
    Seq::new(count as nat, |t: int| bits_value(data, base + t * w, w) as u64)
}

/// The plaintext coefficients of one response block: entry `(row, col)` of
/// the `n` by `n` result, coefficient `z`, combines coefficient `z` of
/// `skq[row] * first[col]` (mod `q2`) with the matching residue of `rest`.
pub open spec fn instance_coeffs(skq: Seq<u64>, first: Seq<u64>, rest: Seq<u64>, n: int, np: int, q1: int, q2: int, p: int) -> Seq<u64> {
    Seq::new((n * n * np) as nat, |k: int| {
        let pair = k / np;
        let z = k % np;
        let row = pair / n;
        let col = pair % n;
        rescale_spec(
            nega_coeff(skq.subrange(row * np, row * np + np), first.subrange(col * np, col * np + np), z, q2) as int,
            rest[k] as int,
            q1,
            q2,
            p,
        ) as u64
    })
}

/// The widths, in bits, of the two parts of a response block.
pub open spec fn q1_bits(params: &Params) -> nat {
    log2_ceil(4 * params.pt_modulus as nat)
}

pub open spec fn block_bits(params: &Params) -> int {
    let nn = params.n * params.poly_len;
    nn * params.q2_bits + params.n * nn * q1_bits(params)
}

pub open spec fn total_bits(params: &Params) -> int {
    params.instances * block_bits(params)
}

pub open spec fn coeff_count(params: &Params) -> int {
    params.instances * (params.n * params.n * params.poly_len)
}

/// The sizes a decode works with fit in memory.
pub open spec fn decode_fits(params: &Params) -> bool {
    &&& total_bits(params) <= usize::MAX
    &&& coeff_count(params) * log2_ceil(params.pt_modulus as nat) + 7 <= usize::MAX
}

/// All plaintext coefficients of a response, block after block.
pub open spec fn decoded(params: &Params, sk: Seq<u64>, data: Seq<u8>) -> Seq<u64> {
    let (n, np) = (params.n as int, params.poly_len as int);
    let m = n * n * np;
    let q2 = params.q2_spec() as int;
    let q1 = 4 * params.pt_modulus as int;
    Seq::new(coeff_count(params) as nat, |c: int| {
        let i = c / m;
        let base = i * block_bits(params);
        instance_coeffs(
            recentered(sk, params.modulus as int, q2),
            read_run(data, base, n * np, params.q2_bits as nat),
            read_run(data, base + n * np * params.q2_bits, m, q1_bits(params)),
            n,
            np,
            q1,
            q2,
            params.pt_modulus as int,
        )[c % m]
    })
}

/// The bytes that hold each value of `c` in `w` bits.
pub open spec fn packed(c: Seq<u64>, w: nat) -> Seq<u8> {
    Seq::new(bytes_for((c.len() * w) as int) as nat, |i: int| packed_byte(c, w, i) as u8)
}

/// Reads `count` values of `w` bits each from bit `base` on.
fn read_run_exec(data: &[u8], base: usize, count: usize, w: usize) -> (r: Vec<u64>)
    requires
        w <= 64,
        base + count * w <= 8 * data@.len(),
        base + count * w <= usize::MAX,
    ensures
        r@ == read_run(data@, base as int, count as int, w as nat),
{
    let mut out: Vec<u64> = Vec::new();
    let mut t: usize = 0;
    while t < count
        invariant
            w <= 64,
            base + count * w <= 8 * data@.len(),
            base + count * w <= usize::MAX,
            t <= count,
            out@.len() == t,
            forall|k: int| 0 <= k < t ==> out@[k] == bits_value(data@, base + k * w, w as nat) as u64,
        decreases count - t,
    {
        proof {
            assert(t * w + w <= count * w) by (nonlinear_arith)
                requires
                    t < count,
            ;
        }
        out.push(read_arbitrary_bits(data, base + t * w, w));
        t = t + 1;
    }
    assert(out@ =~= read_run(data@, base as int, count as int, w as nat));
    out
}

/// Decodes one response block.
fn decode_instance(skq: &Vec<u64>, first: &Vec<u64>, rest: &Vec<u64>, n: usize, np: usize, q1: u64, q2: u64, p: u64) -> (r: Vec<u64>)
    requires
        1 <= n <= 16,
        1 <= np <= 16384,
        skq@.len() == n * np,
        first@.len() == n * np,
        rest@.len() == n * n * np,
        1 <= p <= q1 <= 0x100_0000,
        1 <= q2 <= 0x100_0000_0000,
        forall|k: int| 0 <= k < rest@.len() ==> rest@[k] <= 0x100_0000,
    ensures
        r@ == instance_coeffs(skq@, first@, rest@, n as int, np as int, q1 as int, q2 as int, p as int),
{
    let ghost spec_out = instance_coeffs(skq@, first@, rest@, n as int, np as int, q1 as int, q2 as int, p as int);
    proof {
        assert(n * n * np <= 16 * 16 * 16384) by (nonlinear_arith)
            requires
                n <= 16,
                np <= 16384,
        ;
        assert(n * np <= 16 * 16384) by (nonlinear_arith)
            requires
                n <= 16,
                np <= 16384,
        ;
        assert(n * n <= 256) by (nonlinear_arith)
            requires
                n <= 16,
        ;
    }
    let mut out: Vec<u64> = Vec::new();
    let mut pair: usize = 0;
    while pair < n * n
        invariant
            1 <= n <= 16,
            1 <= np <= 16384,
            n * n <= 256,
            n * n * np <= 16 * 16 * 16384,
            n * np <= 16 * 16384,
            skq@.len() == n * np,
            first@.len() == n * np,
            rest@.len() == n * n * np,
            1 <= p <= q1 <= 0x100_0000,
            1 <= q2 <= 0x100_0000_0000,
            forall|k: int| 0 <= k < rest@.len() ==> rest@[k] <= 0x100_0000,
            spec_out == instance_coeffs(skq@, first@, rest@, n as int, np as int, q1 as int, q2 as int, p as int),
            pair <= n * n,
            out@.len() == pair * np,
            forall|k: int| 0 <= k < out@.len() ==> out@[k] == spec_out[k],
        decreases n * n - pair,
    {
        let row = pair / n;
        let col = pair % n;
        proof {
            vstd::arithmetic::div_mod::lemma_fundamental_div_mod(pair as int, n as int);
            assert(row < n) by (nonlinear_arith)
                requires
                    pair == n * row + col,
                    0 <= col,
                    pair < n * n,
                    n >= 1,
            ;
            assert(row * np + np <= n * np) by (nonlinear_arith)
                requires
                    row < n,
            ;
            assert(col * np + np <= n * np) by (nonlinear_arith)
                requires
                    col < n,
            ;
            assert(pair * np + np <= n * n * np) by (nonlinear_arith)
                requires
                    pair < n * n,
            ;
        }
        let mut z: usize = 0;
        while z < np
            invariant
                1 <= n <= 16,
                1 <= np <= 16384,
                n * n * np <= 16 * 16 * 16384,
                n * np <= 16 * 16384,
                skq@.len() == n * np,
                first@.len() == n * np,
                rest@.len() == n * n * np,
                1 <= p <= q1 <= 0x100_0000,
                1 <= q2 <= 0x100_0000_0000,
                forall|k: int| 0 <= k < rest@.len() ==> rest@[k] <= 0x100_0000,
                spec_out == instance_coeffs(skq@, first@, rest@, n as int, np as int, q1 as int, q2 as int, p as int),
                pair < n * n,
                row == pair / n,
                col == pair % n,
                row * np + np <= n * np,
                col * np + np <= n * np,
                pair * np + np <= n * n * np,
                z <= np,
                out@.len() == pair * np + z,
                forall|k: int| 0 <= k < out@.len() ==> out@[k] == spec_out[k],
            decreases np - z,
        {
            let k = pair * np + z;
            let prod = nega_mul_coeff(skq, row * np, first, col * np, np, z, q2);
            let v = rescale(prod, rest[k], q1, q2, p);
            proof {
                vstd::arithmetic::div_mod::lemma_fundamental_div_mod_converse(k as int, np as int, pair as int, z as int);
            }
            out.push(v);
            z = z + 1;
        }
        proof {
            assert((pair + 1) * np == pair * np + np) by (nonlinear_arith);
        }
        pair = pair + 1;
    }
    assert(out@ =~= spec_out);
    out
}

/// Decodes a response under the GSW secret `sk` (`n` polynomials, each
/// coefficient reduced mod `Q`): each block is read at `q2_bits` bits per
/// first-row coefficient and `q1_bits` per remaining one, rescaled to the
/// plaintext modulus, and the plaintext coefficients are packed at
/// `log2_ceil(p)` bits each, `modp_words_per_chunk()` (all `N`) of every
/// polynomial.
pub fn decode_with_key(params: &Params, sk: &Vec<u64>, data: &[u8]) -> (r: Result<Vec<u8>, DecodeError>)
    requires
        params.wf(),
        sk@.len() == params.n * params.poly_len,
        forall|i: int| 0 <= i < sk@.len() ==> sk@[i] < params.modulus,
    ensures
        !decode_fits(params) <==> r == Err::<Vec<u8>, DecodeError>(DecodeError::TooLarge),
        decode_fits(params) ==> (r is Ok <==> total_bits(params) <= 8 * data@.len()),
        r matches Err(DecodeError::ResponseTooShort { needed, found }) ==> needed == bytes_for(total_bits(params)) && found == data@.len(),
        r matches Ok(bytes) ==> bytes@ == packed(decoded(params, sk@, data@), log2_ceil(params.pt_modulus as nat)),
{
    let n = params.n;
    let np = params.poly_len;
    let q2 = params.q2();
    let w2 = params.q2_bits as usize;
    let p = params.pt_modulus;
    let q1 = 4 * p;
    let w1 = log2_ceil_exec(q1) as usize;
    let p_bits = log2_ceil_exec(p) as usize;
    proof {
        params.lemma_poly_len_bound();
        vstd::arithmetic::power2::lemma2_to64();
        crate::params::lemma_log2_ceil_least(0x100_0000, 24);
        crate::params::lemma_log2_ceil_mono(q1 as nat, 0x100_0000);
        crate::params::lemma_log2_ceil_least(0x10_0000, 20);
        crate::params::lemma_log2_ceil_mono(p as nat, 0x10_0000);
        crate::params::lemma_log2_ceil_least(2, 1);
        crate::params::lemma_log2_ceil_mono(2, p as nat);
        assert(n * np <= 16 * 16384) by (nonlinear_arith)
            requires
                n <= 16,
                np <= 16384,
        ;
        assert(n * (n * np) <= 16 * (16 * 16384)) by (nonlinear_arith)
            requires
                n <= 16,
                n * np <= 16 * 16384,
        ;
        assert((n * np) * w2 <= (16 * 16384) * 64) by (nonlinear_arith)
            requires
                n * np <= 16 * 16384,
                w2 <= 64,
        ;
        assert((n * (n * np)) * w1 <= (16 * (16 * 16384)) * 64) by (nonlinear_arith)
            requires
                n * (n * np) <= 16 * (16 * 16384),
                w1 <= 64,
        ;
    }
    let nn = (n * np) as u64;
    let m = (n * (n * np)) as u64;
    let block = nn * (w2 as u64) + m * (w1 as u64);
    proof {
        assert(m == n * n * np) by (nonlinear_arith)
            requires
                m == n * (n * np),
        ;
        assert(params.instances * block <= 64 * ((16 * 16384) * 64 + (16 * (16 * 16384)) * 64)) by (nonlinear_arith)
            requires
                params.instances <= 64,
                block <= (16 * 16384) * 64 + (16 * (16 * 16384)) * 64,
        ;
        assert((params.instances as int) * m * p_bits <= 64 * (16 * (16 * 16384)) * 64) by (nonlinear_arith)
            requires
                params.instances <= 64,
                m <= 16 * (16 * 16384),
                p_bits <= 64,
        ;
        assert((params.instances as int) * m * p_bits == params.instances * m * p_bits);
        assert(params.instances * m <= 64 * (16 * (16 * 16384))) by (nonlinear_arith)
            requires
                params.instances <= 64,
                m <= 16 * (16 * 16384),
        ;
        assert(m >= 1) by (nonlinear_arith)
            requires
                m == n * (n * np),
                n >= 1,
                np >= 1,
        ;
        assert(block <= params.instances * block) by (nonlinear_arith)
            requires
                params.instances >= 1,
        ;
    }
    let total = (params.instances as u64) * block;
    let ncoeffs = (params.instances as u64) * m;
    if total > usize::MAX as u64 || ncoeffs * (p_bits as u64) + 7 > usize::MAX as u64 {
        return Err(DecodeError::TooLarge);
    }
    let needed = ((total + 7) / 8) as usize;
    if data.len() < needed {
        return Err(DecodeError::ResponseTooShort { needed, found: data.len() });
    }
    let total = total as usize;
    let block = block as usize;
    let nn = nn as usize;
    let m = m as usize;
    let mut skq: Vec<u64> = Vec::new();
    let mut i: usize = 0;
    while i < nn
        invariant
            i <= nn,
            nn == sk@.len(),
            params.wf(),
            forall|j: int| 0 <= j < sk@.len() ==> sk@[j] < params.modulus,
            q2 == params.q2_spec(),
            2 <= q2,
            skq@.len() == i,
            forall|j: int| 0 <= j < i ==> skq@[j] == recentered(sk@, params.modulus as int, q2 as int)[j],
        decreases nn - i,
    {
        skq.push(recenter(sk[i], params.modulus, q2));
        i = i + 1;
    }
    assert(skq@ =~= recentered(sk@, params.modulus as int, q2 as int));
    let ghost spec_all = decoded(params, sk@, data@);
    let mut out: Vec<u64> = Vec::new();
    let mut inst: usize = 0;
    while inst < params.instances
        invariant
            params.wf(),
            1 <= n <= 16,
            1 <= np <= 16384,
            n == params.n,
            np == params.poly_len,
            nn == n * np,
            m == n * n * np,
            m >= 1,
            w2 == params.q2_bits,
            w2 <= 64,
            w1 == q1_bits(params),
            w1 <= 24,
            q1 == 4 * params.pt_modulus,
            p == params.pt_modulus,
            q2 == params.q2_spec(),
            2 <= q2 <= 0x100_0000_0000,
            1 <= p <= q1 <= 0x100_0000,
            block == block_bits(params),
            block == nn * w2 + m * w1,
            total == total_bits(params),
            total == params.instances * block,
            total <= 8 * data@.len(),
            skq@ == recentered(sk@, params.modulus as int, q2 as int),
            sk@.len() == nn,
            spec_all == decoded(params, sk@, data@),
            inst <= params.instances,
            out@.len() == inst * m,
            forall|k: int| 0 <= k < out@.len() ==> out@[k] == spec_all[k],
        decreases params.instances - inst,
    {
        proof {
            assert(inst * block + block <= params.instances * block) by (nonlinear_arith)
                requires
                    inst < params.instances,
            ;
            assert(nn * w2 + m * w1 == block);
            assert(inst * block + nn * w2 + m * w1 <= total);
        }
        let base = inst * block;
        let first = read_run_exec(data, base, nn, w2);
        let rest = read_run_exec(data, base + nn * w2, m, w1);
        proof {
            assert forall|k: int| 0 <= k < rest@.len() implies rest@[k] <= 0x100_0000 by {
                assert(base + nn * w2 + k * w1 + w1 <= total) by (nonlinear_arith)
                    requires
                        k < m,
                        base + nn * w2 + m * w1 <= total,
                ;
                lemma_bits_value_bound(data@, base + nn * w2 + k * w1, w1 as nat);
                vstd::arithmetic::power2::lemma2_to64();
                if w1 < 24 {
                    vstd::arithmetic::power2::lemma_pow2_strictly_increases(w1 as nat, 24);
                }
                assert(base + nn * w2 + k * w1 + w1 <= total) by (nonlinear_arith)
                    requires
                        k < m,
                        base + nn * w2 + m * w1 <= total,
                ;
            }
        }
        let vals = decode_instance(&skq, &first, &rest, n, np, q1, q2, p);
        let ghost prev = out@;
        let mut z: usize = 0;
        while z < m
            invariant
                m == vals@.len(),
                z <= m,
                out@.len() == inst * m + z,
                m >= 1,
                forall|k: int| 0 <= k < prev.len() ==> prev[k] == spec_all[k],
                prev.len() == inst * m,
                forall|k: int| 0 <= k < prev.len() ==> out@[k] == prev[k],
                forall|k: int| 0 <= k < z ==> out@[inst * m + k] == vals@[k],
            decreases m - z,
        {
            out.push(vals[z]);
            z = z + 1;
        }
        proof {
            assert forall|k: int| 0 <= k < out@.len() implies out@[k] == spec_all[k] by {
                if k >= prev.len() {
                    let z2 = k - inst * m;
                    vstd::arithmetic::div_mod::lemma_fundamental_div_mod_converse(k, m as int, inst as int, z2);
                    assert(out@[inst * m + z2] == vals@[z2]);
                    assert(k < coeff_count(params)) by (nonlinear_arith)
                        requires
                            k < inst * m + m,
                            inst < params.instances,
                            m == params.n * params.n * params.poly_len,
                            coeff_count(params) == params.instances * (params.n * params.n * params.poly_len),
                    ;
                    assert(k / (m as int) == inst);
                    assert(first@ == read_run(data@, (k / (m as int)) * block_bits(params), n * np, params.q2_bits as nat));
                    assert(spec_all[k] == instance_coeffs(skq@, first@, rest@, n as int, np as int, q1 as int, q2 as int, p as int)[k % m as int]);
                }
            }
            assert((inst + 1) * m == inst * m + m) by (nonlinear_arith);
        }
        inst = inst + 1;
    }
    assert(out@ =~= spec_all);
    Ok(pack_bits(&out, p_bits))
}

} // verus!
