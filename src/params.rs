//! The immutable parameter bundle shared by every client operation, with the
//! sizes it derives.

use vstd::prelude::*;

verus! {

/// Largest ring dimension, as a power of two.
pub const MAX_POLY_LEN_LOG2: usize = 14;
/// Largest secret dimension.
pub const MAX_N: usize = 16;
/// Largest gadget width.
pub const MAX_T: usize = 64;
/// Largest first database dimension (log2).
pub const MAX_DB_DIM_1: usize = 20;
/// Largest second database dimension (log2).
pub const MAX_DB_DIM_2: usize = 32;
/// Largest number of response instances.
pub const MAX_INSTANCES: usize = 64;
/// Largest ciphertext modulus.
pub const MAX_MODULUS: u64 = 0x4000_0000_0000_0000;
/// Largest first-row response modulus.
pub const MAX_Q2: u64 = 0x100_0000_0000;
/// Largest plaintext modulus.
pub const MAX_PT_MODULUS: u64 = 0x10_0000;

/// The moduli for the first response row, indexed by their bit width;
/// zero marks a width that has none.
pub const Q2_VALUES: [u64; 37] = [
    0, 0, 0, 0, 0, 0, 0, 0, 0, 0, 0, 0, 0, 0,
    12289, 12289, 61441, 65537, 65537, 520193, 786433, 786433, 3604481, 7340033, 16515073,
    33292289, 67043329, 132120577, 268369921, 469762049, 1073479681, 2013265921, 4293918721,
    8588886017, 17175674881, 34359214081, 68718428161,
];

pub open spec fn pow2(e: nat) -> nat {
    vstd::arithmetic::power2::pow2(e)
}

/// Least `k` with `2^k >= a`.
pub open spec fn log2_ceil(a: nat) -> nat
    decreases a,
{
    if a <= 1 {
        0
    } else {
        1 + log2_ceil(((a + 1) / 2) as nat)
    }
}

/// `2^k`, for an exponent that keeps it within a `u64`.
pub fn pow2_u64(k: u64) -> (r: u64)
    requires
        k < 64,
    ensures
        r == pow2(k as nat),
{
    let mut r: u64 = 1;
    let mut i: u64 = 0;
    proof {
        vstd::arithmetic::power2::lemma2_to64();
    }
    while i < k
        invariant
            i <= k < 64,
            r == pow2(i as nat),
        decreases k - i,
    {
        proof {
            vstd::arithmetic::power2::lemma_pow2_unfold((i + 1) as nat);
            vstd::bits::lemma_u64_pow2_no_overflow((i + 1) as nat);
        }
        r = r * 2;
        i = i + 1;
    }
    r
}

/// `log2_ceil(a)` is the least `k` with `2^k >= a`.
pub proof fn lemma_log2_ceil_least(a: nat, k: nat)
    requires
        pow2(k) >= a,
        k == 0 || pow2((k - 1) as nat) < a,
    ensures
        log2_ceil(a) == k,
    decreases k,
{
    vstd::arithmetic::power2::lemma_pow2_pos(k);
    if k == 0 {
        vstd::arithmetic::power2::lemma2_to64();
    } else {
        vstd::arithmetic::power2::lemma_pow2_unfold(k);
        let h = ((a + 1) / 2) as nat;
        if k >= 2 {
            vstd::arithmetic::power2::lemma_pow2_unfold((k - 1) as nat);
        } else {
            vstd::arithmetic::power2::lemma2_to64();
        }
        lemma_log2_ceil_least(h, (k - 1) as nat);
    }
}

/// Least `k` with `2^k >= a`.
pub fn log2_ceil_exec(a: u64) -> (r: u64)
    requires
        a <= 0x4000_0000_0000_0000,
    ensures
        r == log2_ceil(a as nat),
        r <= 62,
{
    let mut k: u64 = 0;
    let mut p: u64 = 1;
    proof {
        vstd::arithmetic::power2::lemma2_to64();
        vstd::arithmetic::power2::lemma2_to64_rest();
    }
    while p < a
        invariant
            k <= 62,
            p == pow2(k as nat),
            a <= 0x4000_0000_0000_0000,
            k == 0 || pow2((k - 1) as nat) < a,
        decreases 62 - k,
    {
        proof {
            vstd::arithmetic::power2::lemma_pow2_unfold((k + 1) as nat);
            if k == 62 {
                vstd::arithmetic::power2::lemma2_to64_rest();
                assert(p == 0x4000_0000_0000_0000);
            }
        }
        p = p * 2;
        k = k + 1;
    }
    proof {
        lemma_log2_ceil_least(a as nat, k as nat);
    }
    k
}

/// `log2_ceil` does not decrease.
pub proof fn lemma_log2_ceil_mono(a: nat, b: nat)
    requires
        a <= b,
    ensures
        log2_ceil(a) <= log2_ceil(b),
    decreases b,
{
    if a > 1 {
        lemma_log2_ceil_mono(((a + 1) / 2) as nat, ((b + 1) / 2) as nat);
    }
}

/// Which field of a parameter bundle is out of its range.
#[derive(Debug, PartialEq, Eq, Structural)]
pub enum ParamsError {
    /// The ring dimension is not a power of two in range.
    PolyLen,
    /// A modulus is below two, or their product is too large.
    Moduli,
    /// The ciphertext modulus is below three or even, so two has no inverse.
    Modulus,
    /// The secret dimension is out of range.
    N,
    /// The plaintext modulus is out of range or not below the modulus.
    PtModulus,
    /// No first-row response modulus has that width.
    Q2Bits,
    /// A gadget width is out of range.
    GadgetWidth,
    /// A database dimension is out of range.
    DbDims,
    /// The number of instances is out of range.
    Instances,
    /// The serialized sizes would not fit in memory.
    TooLarge,
}

pub struct Params {
    pub poly_len: usize,
    pub poly_len_log2: usize,
    pub moduli: Vec<u64>,
    pub modulus: u64,
    pub n: usize,
    pub pt_modulus: u64,
    pub q2_bits: u64,
    pub t_conv: usize,
    pub t_exp_left: usize,
    pub t_exp_right: usize,
    pub t_gsw: usize,
    pub expand_queries: bool,
    pub db_dim_1: usize,
    pub db_dim_2: usize,
    pub instances: usize,
    pub db_item_size: usize,
}

pub open spec fn product(s: Seq<u64>) -> int
    decreases s.len(),
{
    if s.len() == 0 {
        1
    } else {
        product(s.drop_last()) * s.last()
    }
}

/// Product of the moduli, or `None` where it passes `MAX_MODULUS` or a
/// modulus is below two.
pub fn moduli_product(moduli: &Vec<u64>) -> (r: Option<u64>)
    ensures
        match r {
            Some(q) => q == product(moduli@) && q <= MAX_MODULUS && forall|i: int|
                0 <= i < moduli@.len() ==> moduli@[i] >= 2,
            None => product(moduli@) > MAX_MODULUS || exists|i: int|
                0 <= i < moduli@.len() && moduli@[i] < 2,
        },
{
    let mut q: u64 = 1;
    let mut i: usize = 0;
    while i < moduli.len()
        invariant
            i <= moduli@.len(),
            q == product(moduli@.subrange(0, i as int)),
            1 <= q <= MAX_MODULUS,
            forall|j: int| 0 <= j < i ==> moduli@[j] >= 2,
        decreases moduli@.len() - i,
    {
        let m = moduli[i];
        assert(moduli@.subrange(0, i + 1).drop_last() == moduli@.subrange(0, i as int));
        if m < 2 {
            return None;
        }
        if q > MAX_MODULUS / m {
            proof {
                assert(q * m > MAX_MODULUS) by (nonlinear_arith)
                    requires
                        q > MAX_MODULUS / m,
                        m >= 2,
                ;
                if forall|j: int| 0 <= j < moduli@.len() ==> moduli@[j] >= 2 {
                    lemma_product_prefix_grows(moduli@, (i + 1) as int);
                }
            }
            return None;
        }
        proof {
            assert(q * m <= MAX_MODULUS) by (nonlinear_arith)
                requires
                    q <= MAX_MODULUS / m,
                    m >= 2,
            ;
            assert(q * m >= 1) by (nonlinear_arith)
                requires
                    q >= 1,
                    m >= 2,
            ;
        }
        q = q * m;
        i = i + 1;
    }
    assert(moduli@.subrange(0, moduli@.len() as int) == moduli@);
    Some(q)
}

/// With every modulus at least two, the product of a prefix bounds the
/// product from below.
pub proof fn lemma_product_prefix_grows(s: Seq<u64>, k: int)
    requires
        0 <= k <= s.len(),
        forall|j: int| 0 <= j < s.len() ==> s[j] >= 2,
    ensures
        product(s.subrange(0, k)) <= product(s),
        product(s.subrange(0, k)) >= 1,
    decreases s.len(),
{
    if k == s.len() {
        assert(s.subrange(0, k) == s);
        lemma_product_pos(s);
    } else {
        let t = s.drop_last();
        assert(t.subrange(0, k) == s.subrange(0, k));
        lemma_product_prefix_grows(t, k);
        lemma_product_pos(t);
        assert(product(t) <= product(t) * s.last()) by (nonlinear_arith)
            requires
                product(t) >= 1,
                s.last() >= 2,
        ;
    }
}

pub proof fn lemma_product_pos(s: Seq<u64>)
    requires
        forall|j: int| 0 <= j < s.len() ==> s[j] >= 2,
    ensures
        product(s) >= 1,
    decreases s.len(),
{
    if s.len() > 0 {
        lemma_product_pos(s.drop_last());
        assert(product(s.drop_last()) * s.last() >= 1) by (nonlinear_arith)
            requires
                product(s.drop_last()) >= 1,
                s.last() >= 2,
        ;
    }
}

impl Params {
    /// Builds a bundle, or names the first field found out of its range
    /// (`TooLarge` where the serialized sizes would not fit in memory).
    pub fn init(
        poly_len: usize,
        moduli: &Vec<u64>,
        n: usize,
        pt_modulus: u64,
        q2_bits: u64,
        t_conv: usize,
        t_exp_left: usize,
        t_exp_right: usize,
        t_gsw: usize,
        expand_queries: bool,
        db_dim_1: usize,
        db_dim_2: usize,
        instances: usize,
        db_item_size: usize,
    ) -> (r: Result<Params, ParamsError>)
        ensures
            match r {
                Ok(p) => {
                    &&& p.wf()
                    &&& p.poly_len == poly_len
                    &&& p.moduli@ == moduli@
                    &&& p.n == n
                    &&& p.pt_modulus == pt_modulus
                    &&& p.q2_bits == q2_bits
                    &&& p.t_conv == t_conv
                    &&& p.t_exp_left == t_exp_left
                    &&& p.t_exp_right == t_exp_right
                    &&& p.t_gsw == t_gsw
                    &&& p.expand_queries == expand_queries
                    &&& p.db_dim_1 == db_dim_1
                    &&& p.db_dim_2 == db_dim_2
                    &&& p.instances == instances
                    &&& p.db_item_size == db_item_size
                },
                Err(_) => !(exists|p: Params|
                    {
                        &&& #[trigger] p.wf()
                        &&& p.poly_len == poly_len
                        &&& p.moduli@ == moduli@
                        &&& p.n == n
                        &&& p.pt_modulus == pt_modulus
                        &&& p.q2_bits == q2_bits
                        &&& p.t_conv == t_conv
                        &&& p.t_exp_left == t_exp_left
                        &&& p.t_exp_right == t_exp_right
                        &&& p.t_gsw == t_gsw
                        &&& p.expand_queries == expand_queries
                        &&& p.db_dim_1 == db_dim_1
                        &&& p.db_dim_2 == db_dim_2
                        &&& p.instances == instances
                    }),
            },
            r == Err::<Params, ParamsError>(ParamsError::PolyLen) ==> forall|k: nat| 1 <= k <= MAX_POLY_LEN_LOG2 ==> pow2(k) != poly_len,
            r == Err::<Params, ParamsError>(ParamsError::Moduli) ==> product(moduli@) > MAX_MODULUS || exists|i: int| 0 <= i < moduli@.len() && moduli@[i] < 2,
            r == Err::<Params, ParamsError>(ParamsError::Modulus) ==> product(moduli@) < 3 || product(moduli@) % 2 == 0,
            r == Err::<Params, ParamsError>(ParamsError::N) ==> !(1 <= n <= MAX_N),
            r == Err::<Params, ParamsError>(ParamsError::PtModulus) ==> !(2 <= pt_modulus <= MAX_PT_MODULUS && pt_modulus < product(moduli@)),
            r == Err::<Params, ParamsError>(ParamsError::Q2Bits) ==> !(q2_bits < 37 && 2 <= Q2_VALUES@[q2_bits as int] <= MAX_Q2),
            r == Err::<Params, ParamsError>(ParamsError::GadgetWidth) ==> !(1 <= t_conv <= MAX_T && 1 <= t_exp_left <= MAX_T && 1 <= t_exp_right <= MAX_T && 1 <= t_gsw <= MAX_T),
            r == Err::<Params, ParamsError>(ParamsError::DbDims) ==> !(db_dim_1 <= MAX_DB_DIM_1 && db_dim_2 <= MAX_DB_DIM_2),
            r == Err::<Params, ParamsError>(ParamsError::Instances) ==> !(1 <= instances <= MAX_INSTANCES),
    {
        let mut poly_len_log2: usize = 0;
        let mut pw: usize = 1;
        proof {
            vstd::arithmetic::power2::lemma2_to64();
        }
        while pw < poly_len && poly_len_log2 < MAX_POLY_LEN_LOG2
            invariant
                poly_len_log2 <= MAX_POLY_LEN_LOG2,
                pw == pow2(poly_len_log2 as nat),
                forall|k: nat| k < poly_len_log2 ==> pow2(k) < poly_len,
            decreases MAX_POLY_LEN_LOG2 - poly_len_log2,
        {
            proof {
                vstd::arithmetic::power2::lemma_pow2_unfold((poly_len_log2 + 1) as nat);
                vstd::arithmetic::power2::lemma2_to64();
                if poly_len_log2 < 14 {
                    vstd::arithmetic::power2::lemma_pow2_strictly_increases(
                        poly_len_log2 as nat,
                        14,
                    );
                }
                assert forall|k: nat| k < poly_len_log2 + 1 implies pow2(k) < poly_len by {
                    if k < poly_len_log2 {
                    }
                }
            }
            pw = pw * 2;
            poly_len_log2 = poly_len_log2 + 1;
        }
        if pw != poly_len || poly_len_log2 < 1 {
            proof {
                assert forall|p: Params|
                    p.wf() && p.poly_len == poly_len implies false by {
                    let k = p.poly_len_log2 as nat;
                    if k < poly_len_log2 {
                    } else if k > poly_len_log2 {
                        vstd::arithmetic::power2::lemma_pow2_strictly_increases(
                            poly_len_log2 as nat,
                            k,
                        );
                    }
                }
                assert forall|k: nat| 1 <= k <= MAX_POLY_LEN_LOG2 implies pow2(k) != poly_len by {
                    if k < poly_len_log2 {
                    } else if k > poly_len_log2 {
                        vstd::arithmetic::power2::lemma_pow2_strictly_increases(poly_len_log2 as nat, k);
                    }
                }
            }
            return Err(ParamsError::PolyLen);
        }
        let modulus = match moduli_product(moduli) {
            Some(q) => q,
            None => {
                return Err(ParamsError::Moduli);
            },
        };
        if !(3 <= modulus && modulus % 2 == 1) {
            return Err(ParamsError::Modulus);
        }
        if !(1 <= n && n <= MAX_N) {
            return Err(ParamsError::N);
        }
        if !(2 <= pt_modulus && pt_modulus <= MAX_PT_MODULUS && pt_modulus < modulus) {
            return Err(ParamsError::PtModulus);
        }
        if !(q2_bits < 37 && 2 <= Q2_VALUES[q2_bits as usize] && Q2_VALUES[q2_bits as usize] <= MAX_Q2) {
            return Err(ParamsError::Q2Bits);
        }
        if !(1 <= t_conv && t_conv <= MAX_T && 1 <= t_exp_left && t_exp_left <= MAX_T && 1 <= t_exp_right
            && t_exp_right <= MAX_T && 1 <= t_gsw && t_gsw <= MAX_T) {
            return Err(ParamsError::GadgetWidth);
        }
        if !(db_dim_1 <= MAX_DB_DIM_1 && db_dim_2 <= MAX_DB_DIM_2) {
            return Err(ParamsError::DbDims);
        }
        if !(1 <= instances && instances <= MAX_INSTANCES) {
            return Err(ParamsError::Instances);
        }
        let p = Params {
            poly_len,
            poly_len_log2,
            moduli: moduli.clone(),
            modulus,
            n,
            pt_modulus,
            q2_bits,
            t_conv,
            t_exp_left,
            t_exp_right,
            t_gsw,
            expand_queries,
            db_dim_1,
            db_dim_2,
            instances,
            db_item_size,
        };
        assert(p.ranges_ok());
        let setup = p.setup_bytes_u64();
        let query = p.query_bytes_u64();
        if setup > usize::MAX as u64 || query > usize::MAX as u64 {
            proof {
                assert forall|p2: Params|
                    p2.wf() && p2.poly_len == poly_len && p2.n == n && p2.t_conv == t_conv
                        && p2.t_exp_left == t_exp_left && p2.t_exp_right == t_exp_right
                        && p2.t_gsw == t_gsw && p2.expand_queries == expand_queries
                        && p2.db_dim_1 == db_dim_1 && p2.db_dim_2 == db_dim_2 implies false by {
                    assert(p2.setup_bytes_spec() == p.setup_bytes_spec());
                    assert(p2.query_bytes_spec() == p.query_bytes_spec());
                }
            }
            return Err(ParamsError::TooLarge);
        }
        Ok(p)
    }

    /// Plaintext coefficients per polynomial that a response carries: every
    /// coefficient of each polynomial.
    pub fn modp_words_per_chunk(&self) -> (r: usize)
        ensures
            r == self.poly_len,
    {
        self.poly_len
    }

    /// The first-row modulus of responses.
    pub fn q2(&self) -> (r: u64)
        requires
            self.ranges_ok(),
        ensures
            r == Q2_VALUES@[self.q2_bits as int],
            2 <= r <= MAX_Q2,
    {
        Q2_VALUES[self.q2_bits as usize]
    }
    /// The ranges within which every operation of the library is defined.
    pub open spec fn wf(&self) -> bool {
        &&& self.ranges_ok()
        &&& self.setup_bytes_spec() <= usize::MAX
        &&& self.query_bytes_spec() <= usize::MAX
    }

    /// Each field within its range.
    pub open spec fn ranges_ok(&self) -> bool {
        &&& 1 <= self.poly_len_log2 <= MAX_POLY_LEN_LOG2
        &&& self.poly_len == pow2(self.poly_len_log2 as nat)
        &&& self.moduli@.len() >= 1
        &&& forall|i: int| 0 <= i < self.moduli@.len() ==> self.moduli@[i] >= 2
        &&& product(self.moduli@) == self.modulus
        &&& 3 <= self.modulus <= MAX_MODULUS
        &&& self.modulus % 2 == 1
        &&& 1 <= self.n <= MAX_N
        &&& 2 <= self.pt_modulus <= MAX_PT_MODULUS
        &&& self.pt_modulus < self.modulus
        &&& self.q2_bits < 37
        &&& 2 <= Q2_VALUES@[self.q2_bits as int] <= MAX_Q2
        &&& 1 <= self.t_conv <= MAX_T
        &&& 1 <= self.t_exp_left <= MAX_T
        &&& 1 <= self.t_exp_right <= MAX_T
        &&& 1 <= self.t_gsw <= MAX_T
        &&& self.db_dim_1 <= MAX_DB_DIM_1
        &&& self.db_dim_2 <= MAX_DB_DIM_2
        &&& 1 <= self.instances <= MAX_INSTANCES
    }

    /// The number of left-expansion rounds.
    pub fn g(&self) -> (r: usize)
        requires
            self.ranges_ok(),
        ensures
            r == self.g_spec(),
            r <= MAX_DB_DIM_1 + 1,
    {
        let extra: usize = if self.db_dim_2 > 0 { 1 } else { 0 };
        proof {
            let k = (self.db_dim_1 + extra) as nat;
            vstd::arithmetic::power2::lemma_pow2_adds(self.db_dim_1 as nat, extra as nat);
            vstd::arithmetic::power2::lemma2_to64();
            if k > 0 {
                vstd::arithmetic::power2::lemma_pow2_strictly_increases((k - 1) as nat, k);
            }
            lemma_log2_ceil_least(pow2(k), k);
        }
        self.db_dim_1 + extra
    }

    /// The number of right-expansion rounds, less one.
    pub fn stop_round(&self) -> (r: usize)
        requires
            self.ranges_ok(),
        ensures
            r == self.stop_round_spec(),
            r <= 11,
    {
        proof {
            assert(self.t_gsw * self.db_dim_2 <= 2048) by (nonlinear_arith)
                requires
                    self.t_gsw <= 64,
                    self.db_dim_2 <= 32,
            ;
        }
        let a = (self.t_gsw as u64) * (self.db_dim_2 as u64);
        let r = log2_ceil_exec(a);
        proof {
            vstd::arithmetic::power2::lemma2_to64();
            lemma_log2_ceil_least(2048, 11);
            lemma_log2_ceil_mono(a as nat, 2048);
        }
        r as usize
    }

    /// `2^db_dim_1`, the number of positions in the first dimension.
    pub fn num_expanded(&self) -> (r: usize)
        requires
            self.ranges_ok(),
        ensures
            r == pow2(self.db_dim_1 as nat),
            r <= 0x10_0000,
    {
        proof {
            vstd::arithmetic::power2::lemma2_to64();
            if self.db_dim_1 < 20 {
                vstd::arithmetic::power2::lemma_pow2_strictly_increases(self.db_dim_1 as nat, 20);
            }
        }
        pow2_u64(self.db_dim_1 as u64) as usize
    }

    /// Bytes of one matrix of `rows` by `cols` polynomials, for the sizes the
    /// bundle uses.
    pub fn mat_bytes_u64(&self, rows: usize, cols: usize) -> (r: u64)
        requires
            self.ranges_ok(),
            rows <= MAX_N + 1,
            cols <= 2 * MAX_T,
        ensures
            r == self.mat_bytes(rows as int, cols as int),
            r <= 0x2000_0000,
    {
        proof {
            self.lemma_poly_len_bound();
            assert(rows * cols * self.poly_len * 8 <= 0x2000_0000) by (nonlinear_arith)
                requires
                    rows <= 17,
                    cols <= 128,
                    self.poly_len <= 16384,
            ;
            assert(rows * cols <= 17 * 128) by (nonlinear_arith)
                requires
                    rows <= 17,
                    cols <= 128,
            ;
            assert(rows * cols * self.poly_len <= 17 * 128 * 16384) by (nonlinear_arith)
                requires
                    rows * cols <= 17 * 128,
                    self.poly_len <= 16384,
            ;
        }
        (rows as u64) * (cols as u64) * (self.poly_len as u64) * 8
    }

    pub proof fn lemma_poly_len_bound(&self)
        requires
            self.ranges_ok(),
        ensures
            2 <= self.poly_len <= 16384,
    {
        vstd::arithmetic::power2::lemma2_to64();
        if self.poly_len_log2 < 14 {
            vstd::arithmetic::power2::lemma_pow2_strictly_increases(self.poly_len_log2 as nat, 14);
        }
        if self.poly_len_log2 > 1 {
            vstd::arithmetic::power2::lemma_pow2_strictly_increases(1, self.poly_len_log2 as nat);
        }
    }

    /// Size of the serialized public parameters, in a `u64`.
    pub fn setup_bytes_u64(&self) -> (r: u64)
        requires
            self.ranges_ok(),
        ensures
            r == self.setup_bytes_spec(),
    {
        let packing = self.mat_bytes_u64(self.n + 1, self.t_conv);
        proof {
            assert(self.n * packing <= 16 * 0x2000_0000) by (nonlinear_arith)
                requires
                    self.n <= 16,
                    packing <= 0x2000_0000,
            ;
        }
        let mut total = (self.n as u64) * packing;
        if self.expand_queries {
            let g = self.g() as u64;
            let sr = self.stop_round() as u64;
            let left = self.mat_bytes_u64(2, self.t_exp_left);
            let right = self.mat_bytes_u64(2, self.t_exp_right);
            let conv = self.mat_bytes_u64(2, 2 * self.t_conv);
            proof {
                assert(g * left <= 21 * 0x2000_0000) by (nonlinear_arith)
                    requires
                        g <= 21,
                        left <= 0x2000_0000,
                ;
                assert((sr + 1) * right <= 12 * 0x2000_0000) by (nonlinear_arith)
                    requires
                        sr <= 11,
                        right <= 0x2000_0000,
                ;
            }
            total = total + g * left + (sr + 1) * right + conv;
        }
        total
    }

    /// Size of the serialized public parameters.
    pub fn setup_bytes(&self) -> (r: usize)
        requires
            self.wf(),
        ensures
            r == self.setup_bytes_spec(),
    {
        self.setup_bytes_u64() as usize
    }

    /// Size of the buffer of first-dimension ciphertexts in a query that is
    /// not expanded by the server, in a `u64`.
    pub fn query_v_buf_bytes_u64(&self) -> (r: u64)
        requires
            self.ranges_ok(),
        ensures
            r == self.query_v_buf_bytes_spec(),
            r <= 0x40_0000_0000,
    {
        let e = self.num_expanded() as u64;
        proof {
            self.lemma_poly_len_bound();
            assert(e * 2 * self.poly_len * 8 <= 0x40_0000_0000) by (nonlinear_arith)
                requires
                    e <= 0x10_0000,
                    self.poly_len <= 16384,
            ;
            assert(e * 2 * self.poly_len <= 0x10_0000 * 2 * 16384) by (nonlinear_arith)
                requires
                    e <= 0x10_0000,
                    self.poly_len <= 16384,
            ;
        }
        e * 2 * (self.poly_len as u64) * 8
    }

    /// Size of the serialized query, in a `u64`.
    pub fn query_bytes_u64(&self) -> (r: u64)
        requires
            self.ranges_ok(),
        ensures
            r == self.query_bytes_spec(),
    {
        if self.expand_queries {
            self.mat_bytes_u64(2, 1)
        } else {
            let v_buf = self.query_v_buf_bytes_u64();
            let ct = self.mat_bytes_u64(2, 2 * self.t_gsw);
            proof {
                assert(self.db_dim_2 * ct <= 32 * 0x2000_0000) by (nonlinear_arith)
                    requires
                        self.db_dim_2 <= 32,
                        ct <= 0x2000_0000,
                ;
            }
            v_buf + (self.db_dim_2 as u64) * ct
        }
    }

    /// Size of the buffer of first-dimension ciphertexts in a query that is
    /// not expanded by the server.
    pub fn query_v_buf_bytes(&self) -> (r: usize)
        requires
            self.wf(),
            !self.expand_queries,
        ensures
            r == self.query_v_buf_bytes_spec(),
    {
        self.query_v_buf_bytes_u64() as usize
    }

    /// Size of the serialized query.
    pub fn query_bytes(&self) -> (r: usize)
        requires
            self.wf(),
        ensures
            r == self.query_bytes_spec(),
    {
        self.query_bytes_u64() as usize
    }

    pub open spec fn q2_spec(&self) -> u64 {
        Q2_VALUES@[self.q2_bits as int]
    }

    pub open spec fn g_spec(&self) -> nat {
        log2_ceil(pow2(self.db_dim_1 as nat) * (if self.db_dim_2 > 0 { 2nat } else { 1nat }))
    }

    pub open spec fn stop_round_spec(&self) -> nat {
        log2_ceil((self.t_gsw * self.db_dim_2) as nat)
    }

    /// Bytes of one matrix of `rows` by `cols` polynomials.
    pub open spec fn mat_bytes(&self, rows: int, cols: int) -> int {
        rows * cols * self.poly_len * 8
    }

    pub open spec fn setup_bytes_spec(&self) -> int {
        self.n * self.mat_bytes(self.n + 1, self.t_conv as int) + if self.expand_queries {
            self.g_spec() * self.mat_bytes(2, self.t_exp_left as int) + (self.stop_round_spec()
                + 1) * self.mat_bytes(2, self.t_exp_right as int) + self.mat_bytes(
                2,
                2 * self.t_conv,
            )
        } else {
            0
        }
    }

    pub open spec fn query_v_buf_bytes_spec(&self) -> int {
        pow2(self.db_dim_1 as nat) * 2 * self.poly_len * 8
    }

    pub open spec fn query_bytes_spec(&self) -> int {
        if self.expand_queries {
            self.mat_bytes(2, 1)
        } else {
            self.query_v_buf_bytes_spec() + self.db_dim_2 * self.mat_bytes(2, 2 * self.t_gsw)
        }
    }
}

} // verus!

verus! {

/// The bundle `params` with `moduli` in place of its moduli, or the error
/// of the field that is then out of range.
pub fn params_with_moduli(params: &Params, moduli: &Vec<u64>) -> (r: Result<Params, ParamsError>)
    ensures
        r matches Ok(p) ==> {
            &&& p.wf()
            &&& p.moduli@ == moduli@
            &&& p.poly_len == params.poly_len
            &&& p.n == params.n
            &&& p.pt_modulus == params.pt_modulus
            &&& p.q2_bits == params.q2_bits
            &&& p.t_conv == params.t_conv
            &&& p.t_exp_left == params.t_exp_left
            &&& p.t_exp_right == params.t_exp_right
            &&& p.t_gsw == params.t_gsw
            &&& p.expand_queries == params.expand_queries
            &&& p.db_dim_1 == params.db_dim_1
            &&& p.db_dim_2 == params.db_dim_2
            &&& p.instances == params.instances
            &&& p.db_item_size == params.db_item_size
        },
        r is Err ==> !(exists|p: Params|
            {
                &&& #[trigger] p.wf()
                &&& p.poly_len == params.poly_len
                &&& p.moduli@ == moduli@
                &&& p.n == params.n
                &&& p.pt_modulus == params.pt_modulus
                &&& p.q2_bits == params.q2_bits
                &&& p.t_conv == params.t_conv
                &&& p.t_exp_left == params.t_exp_left
                &&& p.t_exp_right == params.t_exp_right
                &&& p.t_gsw == params.t_gsw
                &&& p.expand_queries == params.expand_queries
                &&& p.db_dim_1 == params.db_dim_1
                &&& p.db_dim_2 == params.db_dim_2
                &&& p.instances == params.instances
            }),
{
    Params::init(
        params.poly_len,
        moduli,
        params.n,
        params.pt_modulus,
        params.q2_bits,
        params.t_conv,
        params.t_exp_left,
        params.t_exp_right,
        params.t_gsw,
        params.expand_queries,
        params.db_dim_1,
        params.db_dim_2,
        params.instances,
        params.db_item_size,
    )
}

} // verus!
