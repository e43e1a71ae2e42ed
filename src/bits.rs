//! Bit streams: most significant bit first, within each byte and within
//! each value.

use vstd::prelude::*;
use crate::params::pow2;

verus! {

/// Bit `j` of the stream held by `data`.
pub open spec fn stream_bit(data: Seq<u8>, j: int) -> u8 {
    (data[j / 8] >> ((7 - j % 8) as u8)) & 1u8
}

/// The `w` bits from `off` on, read as a number, the first bit the most
/// significant.
pub open spec fn bits_value(data: Seq<u8>, off: int, w: nat) -> int
    decreases w,
{
    if w == 0 {
        0
    } else {
        2 * bits_value(data, off, (w - 1) as nat) + stream_bit(data, off + w - 1)
    }
}

pub proof fn lemma_bits_value_bound(data: Seq<u8>, off: int, w: nat)
    requires
        0 <= off,
        off + w <= 8 * data.len(),
    ensures
        0 <= bits_value(data, off, w) < pow2(w),
    decreases w,
{
    if w == 0 {
        vstd::arithmetic::power2::lemma2_to64();
    } else {
        lemma_bits_value_bound(data, off, (w - 1) as nat);
        vstd::arithmetic::power2::lemma_pow2_unfold(w);
        let b = data[(off + w - 1) / 8];
        let s = (7 - (off + w - 1) % 8) as u8;
        assert((b >> s) & 1u8 <= 1) by (bit_vector);
    }
}

/// Reads `num_bits` bits of `data` from bit `bit_offs` on.
pub fn read_arbitrary_bits(data: &[u8], bit_offs: usize, num_bits: usize) -> (r: u64)
    requires
        num_bits <= 64,
        bit_offs + num_bits <= 8 * data@.len(),
        bit_offs + num_bits <= usize::MAX,
    ensures
        r == bits_value(data@, bit_offs as int, num_bits as nat),
{
    let mut v: u64 = 0;
    let mut k: usize = 0;
    while k < num_bits
        invariant
            num_bits <= 64,
            bit_offs + num_bits <= 8 * data@.len(),
            bit_offs + num_bits <= usize::MAX,
            k <= num_bits,
            v == bits_value(data@, bit_offs as int, k as nat),
        decreases num_bits - k,
    {
        let j = bit_offs + k;
        let bit = (data[j / 8] >> ((7 - j % 8) as u8)) & 1u8;
        proof {
            lemma_bits_value_bound(data@, bit_offs as int, k as nat);
            vstd::arithmetic::power2::lemma2_to64();
            vstd::arithmetic::power2::lemma2_to64_rest();
            if k < 63 {
                vstd::arithmetic::power2::lemma_pow2_strictly_increases(k as nat, 63);
            }
            let b = data@[(j / 8) as int];
            let s = (7 - j % 8) as u8;
            assert((b >> s) & 1u8 <= 1) by (bit_vector);
        }
        v = 2 * v + bit as u64;
        k = k + 1;
    }
    v
}

/// Bit `t` of the stream that holds each value of `c` in `w` bits, most
/// significant first; zero past the end.
pub open spec fn packed_bit(c: Seq<u64>, w: nat, t: int) -> u64 {
    if 0 <= t < c.len() * w {
        (c[t / w as int] >> ((w - 1 - t % w as int) as u64)) & 1u64
    } else {
        0
    }
}

/// The first `j` bits of byte `i` of that stream, as a number.
pub open spec fn packed_prefix(c: Seq<u64>, w: nat, i: int, j: nat) -> int
    decreases j,
{
    if j == 0 {
        0
    } else {
        2 * packed_prefix(c, w, i, (j - 1) as nat) + packed_bit(c, w, 8 * i + j - 1)
    }
}

/// Byte `i` of that stream.
pub open spec fn packed_byte(c: Seq<u64>, w: nat, i: int) -> int {
    packed_prefix(c, w, i, 8)
}

/// Number of bytes that hold `bits` bits.
pub open spec fn bytes_for(bits: int) -> int {
    (bits + 7) / 8
}

/// Each value of `coeffs` written in `width` bits, most significant first,
/// one after another; the last byte is padded with zeros.
pub fn pack_bits(coeffs: &Vec<u64>, width: usize) -> (r: Vec<u8>)
    requires
        1 <= width <= 64,
        coeffs@.len() * width + 7 <= usize::MAX,
    ensures
        r@.len() == bytes_for(coeffs@.len() * width),
        forall|i: int| 0 <= i < r@.len() ==> r@[i] == packed_byte(coeffs@, width as nat, i),
{
    let total = coeffs.len() * width;
    let nbytes = (total + 7) / 8;
    let mut out: Vec<u8> = Vec::new();
    let mut i: usize = 0;
    while i < nbytes
        invariant
            1 <= width <= 64,
            total == coeffs@.len() * width,
            nbytes == bytes_for(total as int),
            total + 7 <= usize::MAX,
            i <= nbytes,
            out@.len() == i,
            forall|k: int| 0 <= k < i ==> out@[k] == packed_byte(coeffs@, width as nat, k),
        decreases nbytes - i,
    {
        let mut acc: u64 = 0;
        let mut j: usize = 0;
        proof {
            vstd::arithmetic::power2::lemma2_to64();
        }
        while j < 8
            invariant
                1 <= width <= 64,
                total == coeffs@.len() * width,
                i < nbytes,
                nbytes == bytes_for(total as int),
                total + 7 <= usize::MAX,
                j <= 8,
                acc == packed_prefix(coeffs@, width as nat, i as int, j as nat),
                acc < pow2(j as nat),
            decreases 8 - j,
        {
            proof {
                assert(8 * i + 8 <= total + 7 + 1);
            }
            let t = 8 * i + j;
            let bit: u64 = if t < total {
                proof {
                    assert(t / width < coeffs@.len()) by (nonlinear_arith)
                        requires
                            t < coeffs@.len() * width,
                            width >= 1,
                    ;
                }
                (coeffs[t / width] >> ((width - 1 - t % width) as u64)) & 1u64
            } else {
                0
            };
            proof {
                let x = coeffs@[(t / width) as int];
                let s = (width - 1 - t % width) as u64;
                assert((x >> s) & 1u64 <= 1) by (bit_vector);
                vstd::arithmetic::power2::lemma_pow2_unfold((j + 1) as nat);
                vstd::arithmetic::power2::lemma2_to64();
                if j < 8 {
                    vstd::arithmetic::power2::lemma_pow2_strictly_increases(j as nat, 8);
                }
            }
            acc = 2 * acc + bit;
            j = j + 1;
        }
        proof {
            vstd::arithmetic::power2::lemma2_to64();
        }
        out.push(acc as u8);
        i = i + 1;
    }
    out
}

/// A byte built from eight bits, most significant first, gives them back.
proof fn lemma_byte_bits(b0: u64, b1: u64, b2: u64, b3: u64, b4: u64, b5: u64, b6: u64, b7: u64)
    requires
        b0 <= 1, b1 <= 1, b2 <= 1, b3 <= 1, b4 <= 1, b5 <= 1, b6 <= 1, b7 <= 1,
    ensures
        ({
            let v = (((((((b0 * 2 + b1) * 2 + b2) * 2 + b3) * 2 + b4) * 2 + b5) * 2 + b6) * 2 + b7) as u8;
            &&& (v >> 7u8) & 1u8 == b0 as u8
            &&& (v >> 6u8) & 1u8 == b1 as u8
            &&& (v >> 5u8) & 1u8 == b2 as u8
            &&& (v >> 4u8) & 1u8 == b3 as u8
            &&& (v >> 3u8) & 1u8 == b4 as u8
            &&& (v >> 2u8) & 1u8 == b5 as u8
            &&& (v >> 1u8) & 1u8 == b6 as u8
            &&& (v >> 0u8) & 1u8 == b7 as u8
        }),
{
    assert({
        let v = (((((((b0 * 2 + b1) * 2 + b2) * 2 + b3) * 2 + b4) * 2 + b5) * 2 + b6) * 2 + b7) as u8;
        &&& (v >> 7u8) & 1u8 == b0 as u8
        &&& (v >> 6u8) & 1u8 == b1 as u8
        &&& (v >> 5u8) & 1u8 == b2 as u8
        &&& (v >> 4u8) & 1u8 == b3 as u8
        &&& (v >> 3u8) & 1u8 == b4 as u8
        &&& (v >> 2u8) & 1u8 == b5 as u8
        &&& (v >> 1u8) & 1u8 == b6 as u8
        &&& (v >> 0u8) & 1u8 == b7 as u8
    }) by (bit_vector)
        requires
            b0 <= 1, b1 <= 1, b2 <= 1, b3 <= 1, b4 <= 1, b5 <= 1, b6 <= 1, b7 <= 1,
    ;
}

/// Bit `t` of the packed bytes is bit `t` of the stream they hold.
pub proof fn lemma_packed_stream_bit(c: Seq<u64>, w: nat, t: int)
    requires
        w >= 1,
        0 <= t < 8 * bytes_for((c.len() * w) as int),
    ensures
        stream_bit(Seq::new(bytes_for((c.len() * w) as int) as nat, |i: int| packed_byte(c, w, i) as u8), t) == packed_bit(c, w, t) as u8,
{
    let i = t / 8;
    let j = t % 8;
    let bytes = Seq::new(bytes_for((c.len() * w) as int) as nat, |i: int| packed_byte(c, w, i) as u8);
    let bs = Seq::new(8, |j: int| packed_bit(c, w, 8 * i + j));
    assert forall|jj: int| 0 <= jj < 8 implies #[trigger] bs[jj] <= 1 by {
        let tt = 8 * i + jj;
        if 0 <= tt < c.len() * w {
            let x = c[tt / w as int];
            let sh = (w - 1 - tt % w as int) as u64;
            assert((x >> sh) & 1u64 <= 1) by (bit_vector);
        }
    }
    lemma_byte_bits(bs[0], bs[1], bs[2], bs[3], bs[4], bs[5], bs[6], bs[7]);
    assert(packed_prefix(c, w, i, 0) == 0);
    assert(packed_prefix(c, w, i, 1) == bs[0]);
    assert(packed_prefix(c, w, i, 2) == bs[0] * 2 + bs[1]);
    assert(packed_prefix(c, w, i, 3) == (bs[0] * 2 + bs[1]) * 2 + bs[2]);
    assert(packed_prefix(c, w, i, 4) == ((bs[0] * 2 + bs[1]) * 2 + bs[2]) * 2 + bs[3]);
    assert(packed_prefix(c, w, i, 5) == (((bs[0] * 2 + bs[1]) * 2 + bs[2]) * 2 + bs[3]) * 2 + bs[4]);
    assert(packed_prefix(c, w, i, 6) == ((((bs[0] * 2 + bs[1]) * 2 + bs[2]) * 2 + bs[3]) * 2 + bs[4]) * 2 + bs[5]);
    assert(packed_prefix(c, w, i, 7) == (((((bs[0] * 2 + bs[1]) * 2 + bs[2]) * 2 + bs[3]) * 2 + bs[4]) * 2 + bs[5]) * 2 + bs[6]);
    assert(packed_byte(c, w, i) == (((((((bs[0] * 2 + bs[1]) * 2 + bs[2]) * 2 + bs[3]) * 2 + bs[4]) * 2 + bs[5]) * 2 + bs[6]) * 2 + bs[7]));
    assert(bytes[i] == packed_byte(c, w, i) as u8);
    assert(t == 8 * i + j);
}

/// The first `m` bits of `x`'s `w`-bit form, most significant first, read
/// as a number: `x >> (w - m)`.
pub open spec fn top_bits(x: u64, w: nat, m: nat) -> int
    decreases m,
{
    if m == 0 {
        0
    } else {
        2 * top_bits(x, w, (m - 1) as nat) + ((x >> ((w - m) as u64)) & 1u64)
    }
}

proof fn lemma_top_bits(x: u64, w: nat, m: nat)
    requires
        1 <= w <= 64,
        m <= w,
        w == 64 || x < pow2(w),
    ensures
        top_bits(x, w, m) == (if m == 0 { 0 } else { (x >> ((w - m) as u64)) as int }),
    decreases m,
{
    if m > 0 {
        lemma_top_bits(x, w, (m - 1) as nat);
        let s = (w - m) as u64;
        if m == 1 {
            if w < 64 {
                vstd::bits::lemma_u64_shr_is_div(x, (w - 1) as u64);
                vstd::arithmetic::power2::lemma_pow2_unfold(w);
                vstd::arithmetic::power2::lemma_pow2_pos((w - 1) as nat);
                assert((x as int) / (pow2((w - 1) as nat) as int) < 2) by (nonlinear_arith)
                    requires
                        x < 2 * pow2((w - 1) as nat),
                        pow2((w - 1) as nat) > 0,
                ;
                assert((x >> s) < 2);
            } else {
                assert(s == 63);
                assert((x >> 63u64) < 2) by (bit_vector);
            }
            assert((x >> s) < 2 ==> (x >> s) & 1u64 == (x >> s)) by (bit_vector);
        } else {
            assert(s < 63);
            assert((x >> s) == 2 * (x >> ((s + 1) as u64)) + ((x >> s) & 1u64)) by (bit_vector)
                requires
                    s < 63,
            ;
        }
    }
}

/// Reading back the packed form of values that fit their width gives each
/// value: the `w` bits from `k * w` on hold `c[k]`.
pub proof fn lemma_pack_read_back(c: Seq<u64>, w: nat, k: int)
    requires
        1 <= w <= 64,
        0 <= k < c.len(),
        w == 64 || c[k] < pow2(w),
    ensures
        bits_value(Seq::new(bytes_for((c.len() * w) as int) as nat, |i: int| packed_byte(c, w, i) as u8), k * w, w) == c[k],
{
    let bytes = Seq::new(bytes_for((c.len() * w) as int) as nat, |i: int| packed_byte(c, w, i) as u8);
    lemma_read_back_prefix(c, w, k, w);
    lemma_top_bits(c[k], w, w);
    let x = c[k];
    assert(x >> 0u64 == x) by (bit_vector);
}

proof fn lemma_read_back_prefix(c: Seq<u64>, w: nat, k: int, m: nat)
    requires
        1 <= w <= 64,
        0 <= k < c.len(),
        m <= w,
    ensures
        bits_value(Seq::new(bytes_for((c.len() * w) as int) as nat, |i: int| packed_byte(c, w, i) as u8), k * w, m) == top_bits(c[k], w, m),
    decreases m,
{
    if m > 0 {
        lemma_read_back_prefix(c, w, k, (m - 1) as nat);
        let t = k * w + m - 1;
        assert(k * w + w <= c.len() * w) by (nonlinear_arith)
            requires
                k < c.len(),
        ;
        assert(0 <= k * w) by (nonlinear_arith)
            requires
                0 <= k,
        ;
        let total = (c.len() * w) as int;
        vstd::arithmetic::div_mod::lemma_fundamental_div_mod(total + 7, 8);
        assert(t < 8 * bytes_for(total));
        lemma_packed_stream_bit(c, w, t);
        vstd::arithmetic::div_mod::lemma_fundamental_div_mod_converse(t, w as int, k, m - 1);
        let x = c[k];
        let sh = (w - m) as u64;
        assert(packed_bit(c, w, t) == (x >> sh) & 1u64);
        assert((x >> sh) & 1u64 <= 1) by (bit_vector);
    }
}

} // verus!
