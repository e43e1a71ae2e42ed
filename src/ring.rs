//! Arithmetic in the ring Z_q[X]/(X^N + 1), on coefficient vectors.

use vstd::prelude::*;
use vstd::arithmetic::div_mod::{lemma_add_mod_noop, lemma_sub_mod_noop, lemma_mod_twice};
use crate::arith::{add_uint_mod, multiply_uint_mod, neg_uint_mod};

verus! {

/// Contribution of `a[i]` to coefficient `k` of `a * b`, where `X^N = -1`.
pub open spec fn nega_term(a: Seq<u64>, b: Seq<u64>, k: int, i: int) -> int {
    let n = a.len() as int;
    if i <= k {
        a[i] * b[k - i]
    } else {
        -(a[i] * b[k - i + n])
    }
}

/// The sum of the first `i` contributions to coefficient `k`.
pub open spec fn nega_sum(a: Seq<u64>, b: Seq<u64>, k: int, i: int) -> int
    decreases i,
{
    if i <= 0 {
        0
    } else {
        nega_sum(a, b, k, i - 1) + nega_term(a, b, k, i - 1)
    }
}

/// Coefficient `k` of the product of `a` and `b` in Z_q[X]/(X^N + 1).
pub open spec fn nega_coeff(a: Seq<u64>, b: Seq<u64>, k: int, q: int) -> int {
    nega_sum(a, b, k, a.len() as int) % q
}

/// Coefficient `k` of the product of the length-`n` polynomials at `a_off`
/// in `a` and at `b_off` in `b`, mod `q`.
pub fn nega_mul_coeff(a: &Vec<u64>, a_off: usize, b: &Vec<u64>, b_off: usize, n: usize, k: usize, q: u64) -> (r: u64)
    requires
        q >= 1,
        k < n,
        a_off + n <= a@.len(),
        b_off + n <= b@.len(),
    ensures
        r == nega_coeff(a@.subrange(a_off as int, a_off + n), b@.subrange(b_off as int, b_off + n), k as int, q as int),
        r < q,
{
    let ghost sa = a@.subrange(a_off as int, a_off + n);
    let ghost sb = b@.subrange(b_off as int, b_off + n);
    let al = a.len();
    let bl = b.len();
    let mut acc: u64 = 0;
    let mut i: usize = 0;
    proof {
        vstd::arithmetic::div_mod::lemma_small_mod(0, q as nat);
    }
    while i < n
        invariant
            q >= 1,
            k < n,
            a_off + n <= a@.len(),
            b_off + n <= b@.len(),
            al == a@.len(),
            bl == b@.len(),
            sa == a@.subrange(a_off as int, a_off + n),
            sb == b@.subrange(b_off as int, b_off + n),
            i <= n,
            acc < q,
            acc == nega_sum(sa, sb, k as int, i as int) % (q as int),
        decreases n - i,
    {
        let ghost s = nega_sum(sa, sb, k as int, i as int);
        if a[a_off + i] == 0 {
            proof {
                assert(sa[i as int] == 0);
                assert(nega_term(sa, sb, k as int, i as int) == 0) by (nonlinear_arith)
                    requires
                        sa[i as int] == 0,
                        nega_term(sa, sb, k as int, i as int) == if i <= k { sa[i as int] * sb[k - i] } else { -(sa[i as int] * sb[k - i + sa.len()]) },
                ;
            }
        } else if i <= k {
            let t = multiply_uint_mod(a[a_off + i], b[b_off + k - i], q);
            proof {
                lemma_add_mod_noop(s, sa[i as int] * sb[k - i], q as int);
                lemma_mod_twice(s, q as int);
            }
            acc = add_uint_mod(acc, t, q);
        } else {
            let t = multiply_uint_mod(a[a_off + i], b[b_off + (n - i + k)], q);
            let nt = neg_uint_mod(t, q);
            proof {
                let x = sa[i as int] * sb[k - i + n];
                lemma_sub_mod_noop(s, x, q as int);
                lemma_sub_mod_noop(0, x, q as int);
                vstd::arithmetic::div_mod::lemma_small_mod(0, q as nat);
                lemma_add_mod_noop(s, -x, q as int);
                lemma_mod_twice(-x, q as int);
            }
            acc = add_uint_mod(acc, nt, q);
        }
        i = i + 1;
    }
    acc
}

/// `c` is `-a` mod `q`, coefficient by coefficient.
pub open spec fn is_neg(c: Seq<u64>, a: Seq<u64>, q: int) -> bool {
    &&& c.len() == a.len()
    &&& forall|j: int| 0 <= j < a.len() ==> #[trigger] c[j] == ((-((a[j] as int) % q)) % q) as u64
}

/// Multiplying by `-a` negates the product: `s * (-a) + s * a` is zero mod `q`.
pub proof fn lemma_nega_neg(s: Seq<u64>, a: Seq<u64>, c: Seq<u64>, k: int, q: int)
    requires
        1 <= q <= u64::MAX,
        s.len() == a.len(),
        is_neg(c, a, q),
        0 <= k < s.len(),
    ensures
        (nega_coeff(s, c, k, q) + nega_coeff(s, a, k, q)) % q == 0,
{
    lemma_nega_neg_sum(s, a, c, k, q, s.len() as int);
    let (x, y) = (nega_sum(s, c, k, s.len() as int), nega_sum(s, a, k, s.len() as int));
    lemma_add_mod_noop(x, y, q);
}

proof fn lemma_nega_neg_sum(s: Seq<u64>, a: Seq<u64>, c: Seq<u64>, k: int, q: int, i: int)
    requires
        1 <= q <= u64::MAX,
        s.len() == a.len(),
        is_neg(c, a, q),
        0 <= k < s.len(),
        0 <= i <= s.len(),
    ensures
        (nega_sum(s, c, k, i) + nega_sum(s, a, k, i)) % q == 0,
    decreases i,
{
    if i > 0 {
        lemma_nega_neg_sum(s, a, c, k, q, i - 1);
        let n = s.len() as int;
        let j = if i - 1 <= k { k - (i - 1) } else { k - (i - 1) + n };
        let av = a[j] as int;
        let cv = c[j] as int;
        let d = cv + av;
        assert(d % q == 0) by {
            let x = -(av % q);
            assert(cv == x % q);
            vstd::arithmetic::div_mod::lemma_add_mod_noop_right(cv, av, q);
            lemma_add_mod_noop(x, av, q);
            vstd::arithmetic::div_mod::lemma_mod_twice(x, q);
            vstd::arithmetic::div_mod::lemma_fundamental_div_mod(av, q);
            vstd::arithmetic::div_mod::lemma_mod_multiples_basic(av / q, q);
            assert(x + av == (av / q) * q) by (nonlinear_arith)
                requires
                    av == q * (av / q) + av % q,
                    x == -(av % q),
            ;
        }
        let sv = s[i - 1] as int;
        assert((sv * d) % q == 0) by {
            vstd::arithmetic::div_mod::lemma_mul_mod_noop_right(sv, d, q);
            assert(sv * (d % q) == 0);
            vstd::arithmetic::div_mod::lemma_small_mod(0, q as nat);
        }
        let t = nega_term(s, c, k, i - 1) + nega_term(s, a, k, i - 1);
        if i - 1 <= k {
            assert(t == sv * d) by (nonlinear_arith)
                requires
                    t == sv * cv + sv * av,
                    d == cv + av,
            ;
        } else {
            assert(t == -(sv * d)) by (nonlinear_arith)
                requires
                    t == -(sv * cv) + -(sv * av),
                    d == cv + av,
            ;
            vstd::arithmetic::div_mod::lemma_mod_multiples_vanish(0, 0, q);
            assert((-(sv * d)) % q == 0) by {
                vstd::arithmetic::div_mod::lemma_fundamental_div_mod(sv * d, q);
                let w = (sv * d) / q;
                assert(-(sv * d) == q * (-w)) by (nonlinear_arith)
                    requires
                        sv * d == q * w + (sv * d) % q,
                        (sv * d) % q == 0,
                ;
                vstd::arithmetic::div_mod::lemma_mod_multiples_basic(-w, q);
                assert(q * (-w) == (-w) * q) by (nonlinear_arith);
            }
        }
        let (p0, p1) = (nega_sum(s, c, k, i - 1), nega_sum(s, a, k, i - 1));
        assert(nega_sum(s, c, k, i) + nega_sum(s, a, k, i) == (p0 + p1) + t);
        assert(t % q == 0);
        lemma_add_mod_noop(p0 + p1, t, q);
        vstd::arithmetic::div_mod::lemma_small_mod(0, q as nat);
    } else {
        vstd::arithmetic::div_mod::lemma_small_mod(0, q as nat);
    }
}

/// The product of `a` and `b` in Z_q[X]/(X^N + 1).
pub open spec fn nega_product(a: Seq<u64>, b: Seq<u64>, q: int) -> Seq<u64> {
    Seq::new(a.len(), |k: int| nega_coeff(a, b, k, q) as u64)
}

pub fn nega_mul_poly(a: &Vec<u64>, b: &Vec<u64>, q: u64) -> (r: Vec<u64>)
    requires
        q >= 1,
        a@.len() == b@.len(),
    ensures
        r@ == nega_product(a@, b@, q as int),
{
    let n = a.len();
    let mut out: Vec<u64> = Vec::new();
    let mut k: usize = 0;
    while k < n
        invariant
            q >= 1,
            n == a@.len(),
            a@.len() == b@.len(),
            k <= n,
            out@.len() == k,
            forall|j: int| 0 <= j < k ==> out@[j] == nega_product(a@, b@, q as int)[j],
        decreases n - k,
    {
        let c = nega_mul_coeff(a, 0, b, 0, n, k, q);
        assert(a@.subrange(0, n as int) =~= a@);
        assert(b@.subrange(0, n as int) =~= b@);
        out.push(c);
        k = k + 1;
    }
    assert(out@ =~= nega_product(a@, b@, q as int));
    out
}

} // verus!
