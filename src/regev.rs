//! Regev encryption of one polynomial, and secret keys augmented with the
//! identity.

use vstd::prelude::*;
use vstd::arithmetic::div_mod::lemma_add_mod_noop;
use crate::arith::{add_uint_mod, neg_uint_mod};
use crate::poly::{PolyMatrixRaw, coeff_index};
use crate::ring::{nega_coeff, nega_mul_coeff};

verus! {

/// The Regev ciphertext `[-a ; s * a + e + m]` (mod `q`) of `m` under the
/// secret `s`, with public randomness `a` and noise `e`, as the `2 * N`
/// coefficients of a 2 by 1 matrix.
pub open spec fn regev_ct(s: Seq<u64>, a: Seq<u64>, e: Seq<u64>, m: Seq<u64>, q: int) -> Seq<u64> {
    let np = s.len() as int;
    Seq::new((2 * np) as nat, |k: int|
        if k < np {
            ((-((a[k] as int) % q)) % q) as u64
        } else {
            ((nega_coeff(s, a, k - np, q) + e[k - np] + m[k - np]) % q) as u64
        })
}

/// Encrypts the polynomial `m` under the secret `s`.
pub fn encrypt_reg_poly(s: &Vec<u64>, a: &Vec<u64>, e: &Vec<u64>, m: &Vec<u64>, q: u64) -> (r: PolyMatrixRaw)
    requires
        q >= 1,
        s@.len() >= 1,
        a@.len() == s@.len(),
        e@.len() == s@.len(),
        m@.len() == s@.len(),
        2 * s@.len() <= usize::MAX,
    ensures
        r.wf(),
        r.rows == 2,
        r.cols == 1,
        r.poly_len == s@.len(),
        r.data@ == regev_ct(s@, a@, e@, m@, q as int),
{
    let np = s.len();
    let ghost spec = regev_ct(s@, a@, e@, m@, q as int);
    let mut data: Vec<u64> = Vec::new();
    let mut k: usize = 0;
    while k < np
        invariant
            np == s@.len(),
            a@.len() == np,
            q >= 1,
            spec == regev_ct(s@, a@, e@, m@, q as int),
            2 * np <= usize::MAX,
            k <= np,
            data@.len() == k,
            forall|j: int| 0 <= j < k ==> data@[j] == spec[j],
        decreases np - k,
    {
        data.push(neg_uint_mod(a[k] % q, q));
        k = k + 1;
    }
    let mut k: usize = 0;
    while k < np
        invariant
            np == s@.len(),
            a@.len() == np,
            e@.len() == np,
            m@.len() == np,
            q >= 1,
            spec == regev_ct(s@, a@, e@, m@, q as int),
            2 * np <= usize::MAX,
            k <= np,
            data@.len() == np + k,
            forall|j: int| 0 <= j < np + k ==> data@[j] == spec[j],
        decreases np - k,
    {
        let prod = nega_mul_coeff(s, 0, a, 0, np, k, q);
        let t = add_uint_mod(prod, e[k] % q, q);
        let v = add_uint_mod(t, m[k] % q, q);
        proof {
            assert(s@.subrange(0, np as int) =~= s@);
            assert(a@.subrange(0, np as int) =~= a@);
            let x = nega_coeff(s@, a@, k as int, q as int);
            let (ek, mk) = (e@[k as int] as int, m@[k as int] as int);
            vstd::arithmetic::div_mod::lemma_small_mod(prod as nat, q as nat);
            lemma_add_mod_noop(x, ek, q as int);
            lemma_add_mod_noop(x + ek, mk, q as int);
            assert(x == nega_coeff(s@, a@, (np + k) - np, q as int));
            assert(v == spec[np + k]);
        }
        data.push(v);
        k = k + 1;
    }
    assert(data@ =~= spec);
    PolyMatrixRaw { rows: 2, cols: 1, poly_len: np, data }
}

/// The phase `s * c0 + c1` (mod `q`) of a ciphertext whose rows are `c0`
/// and `c1`.
pub open spec fn phase(s: Seq<u64>, c0: Seq<u64>, c1: Seq<u64>, q: int) -> Seq<u64> {
    Seq::new(s.len(), |k: int| ((nega_coeff(s, c0, k, q) + c1[k]) % q) as u64)
}

/// The phase of the ciphertext with rows `c0` and `c1`.
pub fn decrypt_reg_poly(s: &Vec<u64>, c0: &Vec<u64>, c1: &Vec<u64>, q: u64) -> (r: Vec<u64>)
    requires
        q >= 1,
        c0@.len() == s@.len(),
        c1@.len() == s@.len(),
    ensures
        r@ == phase(s@, c0@, c1@, q as int),
{
    let np = s.len();
    let mut out: Vec<u64> = Vec::new();
    let mut k: usize = 0;
    while k < np
        invariant
            q >= 1,
            np == s@.len(),
            c0@.len() == np,
            c1@.len() == np,
            k <= np,
            out@.len() == k,
            forall|j: int| 0 <= j < k ==> out@[j] == phase(s@, c0@, c1@, q as int)[j],
        decreases np - k,
    {
        let x = nega_mul_coeff(s, 0, c0, 0, np, k, q);
        proof {
            assert(s@.subrange(0, np as int) =~= s@);
            assert(c0@.subrange(0, np as int) =~= c0@);
            vstd::arithmetic::div_mod::lemma_small_mod(x as nat, q as nat);
            lemma_add_mod_noop(nega_coeff(s@, c0@, k as int, q as int), c1@[k as int] as int, q as int);
            vstd::arithmetic::div_mod::lemma_mod_twice(c1@[k as int] as int, q as int);
        }
        let v = add_uint_mod(x, c1[k] % q, q);
        out.push(v);
        k = k + 1;
    }
    assert(out@ =~= phase(s@, c0@, c1@, q as int));
    out
}

/// Decrypting a Regev encryption gives the message plus the noise: the
/// phase of `regev_ct(s, a, e, m, q)` is `e + m` mod `q`.
pub proof fn lemma_regev_correct(s: Seq<u64>, a: Seq<u64>, e: Seq<u64>, m: Seq<u64>, q: int)
    requires
        1 <= q <= u64::MAX,
        s.len() >= 1,
        a.len() == s.len(),
        e.len() == s.len(),
        m.len() == s.len(),
    ensures
        ({
            let np = s.len() as int;
            let ct = regev_ct(s, a, e, m, q);
            phase(s, ct.subrange(0, np), ct.subrange(np, 2 * np), q) == Seq::new(s.len(), |k: int| ((e[k] + m[k]) % q) as u64)
        }),
{
    let np = s.len() as int;
    let ct = regev_ct(s, a, e, m, q);
    let c0 = ct.subrange(0, np);
    let c1 = ct.subrange(np, 2 * np);
    assert forall|k: int| 0 <= k < np implies #[trigger] phase(s, c0, c1, q)[k] == ((e[k] + m[k]) % q) as u64 by {
        assert(crate::ring::is_neg(c0, a, q));
        crate::ring::lemma_nega_neg(s, a, c0, k, q);
        let x = nega_coeff(s, a, k, q);
        let y = nega_coeff(s, c0, k, q);
        let z = e[k] + m[k];
        assert(c1[k] == ((x + z) % q) as u64);
        lemma_add_mod_noop(y, x + z, q);
        lemma_add_mod_noop(y + x, z, q);
        vstd::arithmetic::div_mod::lemma_mod_twice(x + z, q);
        vstd::arithmetic::div_mod::lemma_small_mod(0, q as nat);
        assert((y + (x + z)) % q == (y + c1[k]) % q) by {
            vstd::arithmetic::div_mod::lemma_add_mod_noop_right(y, x + z, q);
        }
        lemma_add_mod_noop(0, z, q);
    }
    assert(phase(s, c0, c1, q) =~= Seq::new(s.len(), |k: int| ((e[k] + m[k]) % q) as u64));
}

/// `[p | I]`: the column `p` followed by the identity.
pub open spec fn with_identity_coeff(p: &PolyMatrixRaw, r: int, c: int, z: int) -> u64 {
    if c == 0 {
        p.coeff(r, 0, z)
    } else if c - 1 == r && z == 0 {
        1
    } else {
        0
    }
}

/// The matrix `[p | I]` for a column `p`.
pub fn matrix_with_identity(p: &PolyMatrixRaw) -> (r: PolyMatrixRaw)
    requires
        p.wf(),
        p.cols == 1,
        1 <= p.poly_len,
        p.rows <= 16,
        p.poly_len <= 16384,
    ensures
        r.wf(),
        r.rows == p.rows,
        r.cols == p.rows + 1,
        r.poly_len == p.poly_len,
        forall|i: int, c: int, z: int|
            0 <= i < r.rows && 0 <= c < r.cols && 0 <= z < r.poly_len ==> #[trigger] r.coeff(i, c, z) == with_identity_coeff(p, i, c, z),
{
    let rows = p.rows;
    let cols = rows + 1;
    let np = p.poly_len;
    proof {
        assert(rows * cols <= 16 * 17) by (nonlinear_arith)
            requires
                rows <= 16,
                cols == rows + 1,
        ;
        assert(rows * cols * np <= 16 * 17 * 16384) by (nonlinear_arith)
            requires
                rows * cols <= 16 * 17,
                np <= 16384,
        ;
    }
    let mut data: Vec<u64> = Vec::new();
    let mut ent: usize = 0;
    while ent < rows * cols
        invariant
            p.wf(),
            p.cols == 1,
            rows == p.rows,
            cols == rows + 1,
            np == p.poly_len,
            1 <= np <= 16384,
            rows <= 16,
            rows * cols <= 16 * 17,
            rows * cols * np <= 16 * 17 * 16384,
            ent <= rows * cols,
            data@.len() == ent * np,
            forall|k: int| 0 <= k < data@.len() ==> data@[k] == with_identity_coeff(p, (k / (np as int)) / (cols as int), (k / (np as int)) % (cols as int), k % (np as int)),
        decreases rows * cols - ent,
    {
        let i = ent / cols;
        let c = ent % cols;
        proof {
            vstd::arithmetic::div_mod::lemma_fundamental_div_mod(ent as int, cols as int);
            assert(i < rows) by (nonlinear_arith)
                requires
                    ent == cols * i + c,
                    0 <= c,
                    ent < rows * cols,
                    cols >= 1,
            ;
            assert(ent * np + np <= rows * cols * np) by (nonlinear_arith)
                requires
                    ent < rows * cols,
            ;
            assert(i * np + np <= rows * np) by (nonlinear_arith)
                requires
                    i < rows,
            ;
            assert(rows * np <= 16 * 16384) by (nonlinear_arith)
                requires
                    rows <= 16,
                    np <= 16384,
            ;
        }
        let mut z: usize = 0;
        while z < np
            invariant
                p.wf(),
                p.cols == 1,
                rows == p.rows,
                cols == rows + 1,
                np == p.poly_len,
                1 <= np <= 16384,
                ent < rows * cols,
                i == ent / cols,
                c == ent % cols,
                i < rows,
                i * np + np <= rows * np,
                rows * np <= 16 * 16384,
                ent * np + np <= rows * cols * np,
                rows * cols * np <= 16 * 17 * 16384,
                z <= np,
                data@.len() == ent * np + z,
                forall|k: int| 0 <= k < data@.len() ==> data@[k] == with_identity_coeff(p, (k / (np as int)) / (cols as int), (k / (np as int)) % (cols as int), k % (np as int)),
            decreases np - z,
        {
            let v: u64 = if c == 0 {
                proof {
                    assert(coeff_index(1, np as int, i as int, 0, z as int) == i * np + z) by (nonlinear_arith);
                }
                p.data[i * np + z]
            } else if c - 1 == i && z == 0 {
                1
            } else {
                0
            };
            proof {
                vstd::arithmetic::div_mod::lemma_fundamental_div_mod_converse((ent * np + z) as int, np as int, ent as int, z as int);
            }
            data.push(v);
            z = z + 1;
        }
        proof {
            assert((ent + 1) * np == ent * np + np) by (nonlinear_arith);
        }
        ent = ent + 1;
    }
    let r = PolyMatrixRaw { rows, cols, poly_len: np, data };
    proof {
        assert forall|i: int, c: int, z: int|
            0 <= i < r.rows && 0 <= c < r.cols && 0 <= z < r.poly_len implies #[trigger] r.coeff(i, c, z) == with_identity_coeff(p, i, c, z) by {
            let k = coeff_index(cols as int, np as int, i, c, z);
            assert(0 <= i * cols + c < rows * cols) by (nonlinear_arith)
                requires
                    0 <= i < rows,
                    0 <= c < cols,
            ;
            assert(k < rows * cols * np) by (nonlinear_arith)
                requires
                    k == (i * cols + c) * np + z,
                    0 <= i * cols + c < rows * cols,
                    0 <= z < np,
            ;
            assert(0 <= k) by (nonlinear_arith)
                requires
                    k == (i * cols + c) * np + z,
                    0 <= i * cols + c,
                    0 <= z,
            ;
            vstd::arithmetic::div_mod::lemma_fundamental_div_mod_converse(k, np as int, i * cols + c, z);
            vstd::arithmetic::div_mod::lemma_fundamental_div_mod_converse(i * cols + c, cols as int, i, c);
        }
    }
    r
}

} // verus!
