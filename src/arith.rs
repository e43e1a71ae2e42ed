//! Modular arithmetic on words.

use vstd::prelude::*;
use vstd::arithmetic::div_mod::{lemma_mod_multiples_vanish, lemma_fundamental_div_mod};
use crate::params::pow2;

verus! {

/// `a * b mod m`.
pub fn multiply_uint_mod(a: u64, b: u64, m: u64) -> (r: u64)
    requires
        m > 0,
    ensures
        r == (a * b) % (m as int),
        r < m,
{
    proof {
        assert(a * b <= u64::MAX * u64::MAX) by (nonlinear_arith)
            requires
                a <= u64::MAX,
                b <= u64::MAX,
        ;
    }
    (((a as u128) * (b as u128)) % (m as u128)) as u64
}

/// `a + b mod m`, for reduced operands.
pub fn add_uint_mod(a: u64, b: u64, m: u64) -> (r: u64)
    requires
        a < m,
        b < m,
    ensures
        r == (a + b) % (m as int),
        r < m,
{
    let s = (a as u128) + (b as u128);
    if s >= m as u128 {
        proof {
            lemma_mod_multiples_vanish(1, a + b - m, m as int);
            vstd::arithmetic::div_mod::lemma_small_mod((a + b - m) as nat, m as nat);
        }
        (s - m as u128) as u64
    } else {
        proof {
            vstd::arithmetic::div_mod::lemma_small_mod((a + b) as nat, m as nat);
        }
        s as u64
    }
}

/// `-a mod m`, for a reduced operand.
pub fn neg_uint_mod(a: u64, m: u64) -> (r: u64)
    requires
        a < m,
    ensures
        r == (-a) % (m as int),
        r < m,
{
    if a == 0 {
        0
    } else {
        proof {
            lemma_mod_multiples_vanish(-1, m - a, m as int);
            vstd::arithmetic::div_mod::lemma_small_mod((m - a) as nat, m as nat);
        }
        m - a
    }
}

/// Half of `r` mod an odd `q`.
pub open spec fn half_mod(r: int, q: int) -> int {
    if r % 2 == 0 {
        r / 2
    } else {
        (r + q) / 2
    }
}

/// `(2^k)^-1 mod q`, for an odd modulus, reached by halving `1` `k` times.
pub open spec fn inv_pow2(k: nat, q: int) -> int
    decreases k,
{
    if k == 0 {
        1
    } else {
        half_mod(inv_pow2((k - 1) as nat, q), q)
    }
}

/// `(2^k)^-1 mod q`, for an odd modulus.
pub fn invert_pow2_mod(k: u64, q: u64) -> (r: u64)
    requires
        q >= 3,
        q % 2 == 1,
        q <= 0x4000_0000_0000_0000,
    ensures
        r < q,
        (r * pow2(k as nat)) % (q as int) == 1,
        r == inv_pow2(k as nat, q as int),
{
    let mut r: u64 = 1;
    let mut i: u64 = 0;
    proof {
        vstd::arithmetic::power2::lemma2_to64();
        vstd::arithmetic::div_mod::lemma_small_mod(1, q as nat);
    }
    while i < k
        invariant
            i <= k,
            q >= 3,
            q % 2 == 1,
            q <= 0x4000_0000_0000_0000,
            r < q,
            (r * pow2(i as nat)) % (q as int) == 1,
            r == inv_pow2(i as nat, q as int),
        decreases k - i,
    {
        let ghost old_r = r;
        let ghost p = pow2(i as nat) as int;
        proof {
            vstd::arithmetic::power2::lemma_pow2_unfold((i + 1) as nat);
        }
        if r % 2 == 0 {
            r = r / 2;
            proof {
                assert(r * pow2((i + 1) as nat) == old_r * p) by (nonlinear_arith)
                    requires
                        2 * r == old_r,
                        pow2((i + 1) as nat) == 2 * p,
                ;
            }
        } else {
            r = (r + q) / 2;
            proof {
                assert(r * pow2((i + 1) as nat) == q * p + old_r * p) by (nonlinear_arith)
                    requires
                        2 * r == old_r + q,
                        pow2((i + 1) as nat) == 2 * p,
                ;
                lemma_mod_multiples_vanish(p, old_r * p, q as int);
            }
        }
        i = i + 1;
    }
    r
}

/// The signed representative of a residue, in `(-m/2, m/2]`: values above
/// half the modulus stand for negatives.
pub open spec fn signed_rep(v: int, m: int) -> int {
    if v > m / 2 {
        v - m
    } else {
        v
    }
}

/// The residue mod `to` of the signed representative of `v` mod `from`.
pub fn recenter(val: u64, from: u64, to: u64) -> (r: u64)
    requires
        to > 0,
        from <= 0x4000_0000_0000_0000,
        val < from,
    ensures
        r == signed_rep(val as int, from as int) % (to as int),
        r < to,
{
    if val > from / 2 {
        let d = from - val;
        let dm = d % to;
        let ghost k = d as int / to as int;
        proof {
            lemma_fundamental_div_mod(d as int, to as int);
            assert(signed_rep(val as int, from as int) == -(d as int));
        }
        if dm == 0 {
            proof {
                assert(-(d as int) == to * (-k) + 0) by (nonlinear_arith)
                    requires
                        d == to * k + dm,
                        dm == 0,
                ;
                lemma_mod_multiples_vanish(-k, 0, to as int);
                vstd::arithmetic::div_mod::lemma_small_mod(0, to as nat);
            }
            0
        } else {
            proof {
                assert(-(d as int) == to * (-k - 1) + (to - dm)) by (nonlinear_arith)
                    requires
                        d == to * k + dm,
                ;
                lemma_mod_multiples_vanish(-k - 1, (to - dm) as int, to as int);
                vstd::arithmetic::div_mod::lemma_small_mod((to - dm) as nat, to as nat);
            }
            to - dm
        }
    } else {
        val % to
    }
}

} // verus!
