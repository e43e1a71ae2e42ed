//! The public randomness a client shares with the server: the ChaCha20
//! stream that a 32-byte seed selects, with the seed and the position
//! reached kept alongside.

use vstd::prelude::*;
use rand_chacha::ChaCha20Rng;
use crate::keygen::{vv, vvv};

verus! {

#[verifier::external_type_specification]
#[verifier::external_body]
pub struct ExChaCha20Rng(ChaCha20Rng);

/// Word `pos` (from zero) of the ChaCha20 stream seeded with `seed`.
pub uninterp spec fn chacha20_word(seed: Seq<u8>, pos: nat) -> u64;

/// Relies on `SeedableRng::from_seed` of rand_chacha's `ChaCha20Rng`: a
/// generator at the start of the stream that `seed` selects.
#[verifier::external_body]
fn chacha_from_seed(seed: [u8; 32]) -> ChaCha20Rng {
    <ChaCha20Rng as rand::SeedableRng>::from_seed(seed)
}

/// A ChaCha20 generator with the seed it started from and the number of
/// words drawn so far.
pub struct PublicRng {
    rng: ChaCha20Rng,
    seed: Ghost<Seq<u8>>,
    pos: Ghost<nat>,
}

impl PublicRng {
    /// The seed the stream started from.
    pub closed spec fn seed(&self) -> Seq<u8> {
        self.seed@
    }

    /// The number of words drawn so far.
    pub closed spec fn pos(&self) -> nat {
        self.pos@
    }

    /// The generator at the start of the stream of `seed`.
    pub fn new(seed: [u8; 32]) -> (r: PublicRng)
        ensures
            r.seed() == seed@,
            r.pos() == 0,
    {
        PublicRng { rng: chacha_from_seed(seed), seed: Ghost(seed@), pos: Ghost(0) }
    }

    /// Relies on `RngCore::next_u64` of rand_chacha's `ChaCha20Rng`: the
    /// next word of the stream, which depends on the seed and the position
    /// alone, and which advances the position by one.
    #[verifier::external_body]
    pub fn next_u64(&mut self) -> (r: u64)
        ensures
            r == chacha20_word(old(self).seed(), old(self).pos()),
            final(self).seed() == old(self).seed(),
            final(self).pos() == old(self).pos() + 1,
    {
        rand::RngCore::next_u64(&mut self.rng)
    }
}

/// `np` words of the stream of `seed` from position `pos` on, each reduced
/// mod `q`.
pub open spec fn stream_poly(seed: Seq<u8>, pos: nat, np: nat, q: int) -> Seq<u64> {
    Seq::new(np, |i: int| (chacha20_word(seed, pos + i as nat) as int % q) as u64)
}

/// `m` consecutive polynomials of the stream from position `pos` on.
pub open spec fn stream_polys(seed: Seq<u8>, pos: nat, m: nat, np: nat, q: int) -> Seq<Seq<u64>> {
    Seq::new(m, |k: int| stream_poly(seed, pos + (k * np) as nat, np, q))
}

/// `count` consecutive lists of `m` polynomials from position `pos` on.
pub open spec fn stream_lists(seed: Seq<u8>, pos: nat, count: nat, m: nat, np: nat, q: int) -> Seq<Seq<Seq<u64>>> {
    Seq::new(count, |i: int| stream_polys(seed, pos + (i * m * np) as nat, m, np, q))
}

impl PublicRng {
    /// The next `np` words, each reduced mod `q`.
    pub fn draw_poly(&mut self, np: usize, q: u64) -> (r: Vec<u64>)
        requires
            q >= 1,
        ensures
            r@ == stream_poly(old(self).seed(), old(self).pos(), np as nat, q as int),
            final(self).seed() == old(self).seed(),
            final(self).pos() == old(self).pos() + np,
    {
        let mut out: Vec<u64> = Vec::new();
        let mut i: usize = 0;
        while i < np
            invariant
                q >= 1,
                i <= np,
                self.seed() == old(self).seed(),
                self.pos() == old(self).pos() + i,
                out@ == stream_poly(old(self).seed(), old(self).pos(), i as nat, q as int),
            decreases np - i,
        {
            let w = self.next_u64();
            out.push(w % q);
            assert(out@ =~= stream_poly(old(self).seed(), old(self).pos(), (i + 1) as nat, q as int));
            i = i + 1;
        }
        out
    }

    /// The next `m` polynomials of `np` words each.
    pub fn draw_polys(&mut self, m: usize, np: usize, q: u64) -> (r: Vec<Vec<u64>>)
        requires
            q >= 1,
        ensures
            vv(r@) == stream_polys(old(self).seed(), old(self).pos(), m as nat, np as nat, q as int),
            final(self).seed() == old(self).seed(),
            final(self).pos() == old(self).pos() + m * np,
    {
        let mut out: Vec<Vec<u64>> = Vec::new();
        let mut k: usize = 0;
        while k < m
            invariant
                q >= 1,
                k <= m,
                self.seed() == old(self).seed(),
                self.pos() == old(self).pos() + k * np,
                out@.len() == k,
                vv(out@) == stream_polys(old(self).seed(), old(self).pos(), k as nat, np as nat, q as int),
            decreases m - k,
        {
            let p = self.draw_poly(np, q);
            let ghost prev = out@;
            let ghost pv = p@;
            out.push(p);
            proof {
                assert(out@.len() == prev.len() + 1);
                assert(out@[k as int]@ == pv);
                assert((k + 1) * np == k * np + np) by (nonlinear_arith);
                let want = stream_polys(old(self).seed(), old(self).pos(), (k + 1) as nat, np as nat, q as int);
                let had = stream_polys(old(self).seed(), old(self).pos(), k as nat, np as nat, q as int);
                assert forall|j: int| 0 <= j < k + 1 implies #[trigger] vv(out@)[j] == want[j] by {
                    if j < k {
                        assert(vv(prev)[j] == had[j]);
                    }
                }
                assert(vv(out@) =~= stream_polys(old(self).seed(), old(self).pos(), (k + 1) as nat, np as nat, q as int));
            }
            k = k + 1;
        }
        out
    }

    /// The next `count` lists of `m` polynomials of `np` words each.
    pub fn draw_lists(&mut self, count: usize, m: usize, np: usize, q: u64) -> (r: Vec<Vec<Vec<u64>>>)
        requires
            q >= 1,
        ensures
            vvv(r@) == stream_lists(old(self).seed(), old(self).pos(), count as nat, m as nat, np as nat, q as int),
            final(self).seed() == old(self).seed(),
            final(self).pos() == old(self).pos() + count * m * np,
    {
        let mut out: Vec<Vec<Vec<u64>>> = Vec::new();
        let mut i: usize = 0;
        while i < count
            invariant
                q >= 1,
                i <= count,
                self.seed() == old(self).seed(),
                self.pos() == old(self).pos() + i * m * np,
                out@.len() == i,
                vvv(out@) == stream_lists(old(self).seed(), old(self).pos(), i as nat, m as nat, np as nat, q as int),
            decreases count - i,
        {
            let l = self.draw_polys(m, np, q);
            let ghost prev = out@;
            let ghost lv = vv(l@);
            out.push(l);
            proof {
                assert(out@.len() == prev.len() + 1);
                assert(vv(out@[i as int]@) == lv);
                assert((i + 1) * m * np == i * m * np + m * np) by (nonlinear_arith);
                let want = stream_lists(old(self).seed(), old(self).pos(), (i + 1) as nat, m as nat, np as nat, q as int);
                let had = stream_lists(old(self).seed(), old(self).pos(), i as nat, m as nat, np as nat, q as int);
                assert forall|j: int| 0 <= j < i + 1 implies #[trigger] vvv(out@)[j] == want[j] by {
                    if j < i {
                        assert(vvv(prev)[j] == had[j]);
                    }
                }
                assert(vvv(out@) =~= stream_lists(old(self).seed(), old(self).pos(), (i + 1) as nat, m as nat, np as nat, q as int));
            }
            i = i + 1;
        }
        out
    }
}

} // verus!
