//! Word packing of polynomial matrices: each coefficient is one 64-bit
//! little-endian word, in the matrix's storage order.

use vstd::prelude::*;
use crate::params::Params;
use crate::poly::PolyMatrixRaw;

verus! {

/// The eight little-endian bytes of a word.
pub open spec fn le_bytes(w: u64) -> Seq<u8> {
    seq![
        w as u8,
        (w >> 8u64) as u8,
        (w >> 16u64) as u8,
        (w >> 24u64) as u8,
        (w >> 32u64) as u8,
        (w >> 40u64) as u8,
        (w >> 48u64) as u8,
        (w >> 56u64) as u8,
    ]
}

/// The word whose little-endian bytes are the first eight of `b`.
pub open spec fn le_word(b: Seq<u8>) -> u64 {
    (b[0] as u64) | ((b[1] as u64) << 8u64) | ((b[2] as u64) << 16u64) | ((b[3] as u64)
        << 24u64) | ((b[4] as u64) << 32u64) | ((b[5] as u64) << 40u64) | ((b[6] as u64)
        << 48u64) | ((b[7] as u64) << 56u64)
}

/// The words, eight bytes each, in order.
pub open spec fn words_bytes(s: Seq<u64>) -> Seq<u8> {
    Seq::new((8 * s.len()) as nat, |i: int| le_bytes(s[i / 8])[i % 8])
}

/// Every eight bytes read back as one word.
pub open spec fn bytes_words(b: Seq<u8>) -> Seq<u64> {
    Seq::new(b.len() / 8, |i: int| le_word(b.subrange(8 * i, 8 * i + 8)))
}

/// The serialized form of a list of matrices.
pub open spec fn mats_bytes(ms: Seq<PolyMatrixRaw>) -> Seq<u8>
    decreases ms.len(),
{
    if ms.len() == 0 {
        seq![]
    } else {
        mats_bytes(ms.drop_last()) + words_bytes(ms.last().data@)
    }
}

pub proof fn lemma_le_word_bytes(w: u64)
    ensures
        le_word(le_bytes(w)) == w,
{
    assert(((w as u8) as u64) | ((((w >> 8u64) as u8) as u64) << 8u64) | ((((w >> 16u64) as u8)
        as u64) << 16u64) | ((((w >> 24u64) as u8) as u64) << 24u64) | ((((w >> 32u64) as u8)
        as u64) << 32u64) | ((((w >> 40u64) as u8) as u64) << 40u64) | ((((w >> 48u64) as u8)
        as u64) << 48u64) | ((((w >> 56u64) as u8) as u64) << 56u64) == w) by (bit_vector);
}

pub proof fn lemma_le_bytes_word(b: Seq<u8>)
    requires
        b.len() == 8,
    ensures
        le_bytes(le_word(b)) == b,
{
    let (b0, b1, b2, b3, b4, b5, b6, b7) = (b[0], b[1], b[2], b[3], b[4], b[5], b[6], b[7]);
    let w = le_word(b);
    assert(w == (b0 as u64) | ((b1 as u64) << 8u64) | ((b2 as u64) << 16u64) | ((b3 as u64)
        << 24u64) | ((b4 as u64) << 32u64) | ((b5 as u64) << 40u64) | ((b6 as u64) << 48u64)
        | ((b7 as u64) << 56u64));
    assert({
        &&& w as u8 == b0
        &&& (w >> 8u64) as u8 == b1
        &&& (w >> 16u64) as u8 == b2
        &&& (w >> 24u64) as u8 == b3
        &&& (w >> 32u64) as u8 == b4
        &&& (w >> 40u64) as u8 == b5
        &&& (w >> 48u64) as u8 == b6
        &&& (w >> 56u64) as u8 == b7
    }) by (bit_vector)
        requires
            w == (b0 as u64) | ((b1 as u64) << 8u64) | ((b2 as u64) << 16u64) | ((b3 as u64)
                << 24u64) | ((b4 as u64) << 32u64) | ((b5 as u64) << 40u64) | ((b6 as u64)
                << 48u64) | ((b7 as u64) << 56u64),
    ;
    assert(le_bytes(w) =~= b);
}

/// Reading the words back from their bytes gives the words.
pub proof fn lemma_bytes_words_inverse(s: Seq<u64>)
    ensures
        bytes_words(words_bytes(s)) == s,
{
    let b = words_bytes(s);
    assert forall|i: int| 0 <= i < s.len() implies #[trigger] bytes_words(b)[i] == s[i] by {
        assert(b.subrange(8 * i, 8 * i + 8) =~= le_bytes(s[i]));
        lemma_le_word_bytes(s[i]);
    }
    assert(bytes_words(b) =~= s);
}

/// Bytes of a whole number of words are the bytes of the words they hold.
pub proof fn lemma_words_bytes_inverse(b: Seq<u8>)
    requires
        b.len() % 8 == 0,
    ensures
        words_bytes(bytes_words(b)) == b,
{
    let s = bytes_words(b);
    assert forall|i: int| 0 <= i < b.len() implies #[trigger] words_bytes(s)[i] == b[i] by {
        let k = i / 8;
        lemma_le_bytes_word(b.subrange(8 * k, 8 * k + 8));
    }
    assert(words_bytes(s) =~= b);
}

/// Two word sequences with the same bytes are equal.
pub proof fn lemma_words_bytes_injective(s: Seq<u64>, t: Seq<u64>)
    requires
        words_bytes(s) == words_bytes(t),
    ensures
        s == t,
{
    lemma_bytes_words_inverse(s);
    lemma_bytes_words_inverse(t);
}

/// Appends the eight little-endian bytes of `w`.
pub fn push_word(vec: &mut Vec<u8>, w: u64)
    ensures
        final(vec)@ == old(vec)@ + le_bytes(w),
{
    vec.push(w as u8);
    vec.push((w >> 8u64) as u8);
    vec.push((w >> 16u64) as u8);
    vec.push((w >> 24u64) as u8);
    vec.push((w >> 32u64) as u8);
    vec.push((w >> 40u64) as u8);
    vec.push((w >> 48u64) as u8);
    vec.push((w >> 56u64) as u8);
    assert(vec@ =~= old(vec)@ + le_bytes(w));
}

/// The word held by the eight bytes at `off`.
pub fn read_word(data: &[u8], off: usize) -> (r: u64)
    requires
        off + 8 <= data@.len(),
    ensures
        r == le_word(data@.subrange(off as int, off + 8)),
{
    (data[off] as u64) | ((data[off + 1] as u64) << 8u64) | ((data[off + 2] as u64) << 16u64)
        | ((data[off + 3] as u64) << 24u64) | ((data[off + 4] as u64) << 32u64) | ((data[off
        + 5] as u64) << 40u64) | ((data[off + 6] as u64) << 48u64) | ((data[off + 7] as u64)
        << 56u64)
}

/// Appends the words of `a`.
pub fn serialize_polymatrix(vec: &mut Vec<u8>, a: &PolyMatrixRaw)
    ensures
        final(vec)@ == old(vec)@ + words_bytes(a.data@),
{
    let mut i: usize = 0;
    while i < a.data.len()
        invariant
            i <= a.data@.len(),
            vec@ == old(vec)@ + words_bytes(a.data@.subrange(0, i as int)),
        decreases a.data@.len() - i,
    {
        let ghost before = vec@;
        push_word(vec, a.data[i]);
        assert(words_bytes(a.data@.subrange(0, i + 1)) =~= words_bytes(
            a.data@.subrange(0, i as int),
        ) + le_bytes(a.data@[i as int]));
        i = i + 1;
    }
    assert(a.data@.subrange(0, a.data@.len() as int) =~= a.data@);
}

/// Appends the words of each matrix, in order.
pub fn serialize_vec_polymatrix(vec: &mut Vec<u8>, a: &Vec<PolyMatrixRaw>)
    ensures
        final(vec)@ == old(vec)@ + mats_bytes(a@),
{
    let mut i: usize = 0;
    while i < a.len()
        invariant
            i <= a@.len(),
            vec@ == old(vec)@ + mats_bytes(a@.subrange(0, i as int)),
        decreases a@.len() - i,
    {
        serialize_polymatrix(vec, &a[i]);
        assert(a@.subrange(0, i + 1).drop_last() =~= a@.subrange(0, i as int));
        assert(vec@ =~= old(vec)@ + mats_bytes(a@.subrange(0, i + 1)));
        i = i + 1;
    }
    assert(a@.subrange(0, a@.len() as int) =~= a@);
}

/// Bytes of the serialized form of `a`.
pub fn mat_sz_bytes(a: &PolyMatrixRaw) -> (r: usize)
    requires
        a.wf(),
        8 * a.num_words() <= usize::MAX,
    ensures
        r == 8 * a.num_words(),
{
    8 * a.data.len()
}

/// The `count` words held by the bytes from `off` on.
pub fn read_words(data: &[u8], off: usize, count: usize) -> (r: Vec<u64>)
    requires
        off + 8 * count <= data@.len(),
    ensures
        r@.len() == count,
        words_bytes(r@) == data@.subrange(off as int, off + 8 * count),
{
    let dl = data.len();
    let ghost src = data@.subrange(off as int, off + 8 * count);
    let mut out: Vec<u64> = Vec::new();
    let mut i: usize = 0;
    while i < count
        invariant
            off + 8 * count <= data@.len(),
            dl == data@.len(),
            src == data@.subrange(off as int, off + 8 * count),
            i <= count,
            out@ == bytes_words(src.subrange(0, 8 * i as int)),
        decreases count - i,
    {
        let w = read_word(data, off + 8 * i);
        proof {
            let b = src.subrange(0, 8 * (i + 1) as int);
            assert(b.subrange(8 * i as int, 8 * i + 8) =~= data@.subrange(
                off + 8 * i,
                off + 8 * i + 8,
            ));
            let c = src.subrange(0, 8 * i as int);
            assert forall|k: int| 0 <= k < i implies #[trigger] bytes_words(b)[k] == bytes_words(
                c,
            )[k] by {
                assert(c.subrange(8 * k, 8 * k + 8) =~= b.subrange(8 * k, 8 * k + 8));
            }
        }
        out.push(w);
        assert(out@ =~= bytes_words(src.subrange(0, 8 * (i + 1) as int)));
        i = i + 1;
    }
    proof {
        assert(src.subrange(0, 8 * count as int) =~= src);
        lemma_words_bytes_inverse(src);
    }
    out
}

/// Fills `a` from the words at the front of `data`, returning how many bytes
/// it read. The shape of `a` is kept.
pub fn deserialize_polymatrix(a: &mut PolyMatrixRaw, data: &[u8]) -> (r: usize)
    requires
        8 * old(a).data@.len() <= data@.len(),
    ensures
        r == 8 * old(a).data@.len(),
        final(a).rows == old(a).rows,
        final(a).cols == old(a).cols,
        final(a).poly_len == old(a).poly_len,
        final(a).data@.len() == old(a).data@.len(),
        words_bytes(final(a).data@) == data@.subrange(0, r as int),
{
    let len = a.data.len();
    let dl = data.len();
    a.data = read_words(data, 0, len);
    8 * len
}

/// Each matrix keeps the shape of the one at the same place in `old`.
pub open spec fn same_shapes(new: Seq<PolyMatrixRaw>, old: Seq<PolyMatrixRaw>) -> bool {
    &&& new.len() == old.len()
    &&& forall|k: int|
        0 <= k < new.len() ==> {
            &&& (#[trigger] new[k]).rows == old[k].rows
            &&& new[k].cols == old[k].cols
            &&& new[k].poly_len == old[k].poly_len
            &&& new[k].data@.len() == old[k].data@.len()
        }
}

/// Fills each matrix of `a`, all of one size, from consecutive words of
/// `data` from `start` on, returning how many bytes it read.
pub fn deserialize_vec_polymatrix_at(a: &mut Vec<PolyMatrixRaw>, data: &[u8], start: usize) -> (r:
    usize)
    requires
        old(a)@.len() >= 1,
        forall|k: int|
            0 <= k < old(a)@.len() ==> (#[trigger] old(a)@[k]).data@.len() == old(a)@[0].data@.len(),
        start + old(a)@.len() * (8 * old(a)@[0].data@.len()) <= data@.len(),
    ensures
        r == old(a)@.len() * (8 * old(a)@[0].data@.len()),
        same_shapes(final(a)@, old(a)@),
        mats_bytes(final(a)@) == data@.subrange(start as int, start + r),
{
    let sz = a[0].data.len();
    let dl = data.len();
    let num = a.len();
    proof {
        assert(8 * sz <= num * (8 * sz)) by (nonlinear_arith)
            requires
                num >= 1,
        ;
    }
    let m = 8 * sz;
    let mut out: Vec<PolyMatrixRaw> = Vec::new();
    let mut off: usize = 0;
    let mut i: usize = 0;
    while i < num
        invariant
            num == a@.len(),
            a@ == old(a)@,
            dl == data@.len(),
            m == 8 * sz,
            sz == old(a)@[0].data@.len(),
            forall|k: int| 0 <= k < old(a)@.len() ==> (#[trigger] old(a)@[k]).data@.len() == sz,
            start + num * m <= data@.len(),
            i <= num,
            off == i * m,
            same_shapes(out@, old(a)@.subrange(0, i as int)),
            mats_bytes(out@) == data@.subrange(start as int, start + off),
        decreases num - i,
    {
        proof {
            assert(i * m + m <= num * m) by (nonlinear_arith)
                requires
                    i < num,
            ;
        }
        let words = read_words(data, start + off, sz);
        let mat = PolyMatrixRaw {
            rows: a[i].rows,
            cols: a[i].cols,
            poly_len: a[i].poly_len,
            data: words,
        };
        let ghost prev = out@;
        out.push(mat);
        proof {
            assert(out@.drop_last() =~= prev);
            assert(data@.subrange(start as int, start + off + m) =~= data@.subrange(
                start as int,
                start + off,
            ) + data@.subrange(start + off, start + off + m));
            assert(old(a)@.subrange(0, i + 1).drop_last() =~= old(a)@.subrange(0, i as int));
            assert((i + 1) * m == i * m + m) by (nonlinear_arith);
        }
        off = off + m;
        i = i + 1;
    }
    assert(old(a)@.subrange(0, num as int) =~= old(a)@);
    *a = out;
    off
}

/// Fills each matrix of `a`, all of one size, from consecutive words at the
/// front of `data`, returning how many bytes it read.
pub fn deserialize_vec_polymatrix(a: &mut Vec<PolyMatrixRaw>, data: &[u8]) -> (r: usize)
    requires
        old(a)@.len() >= 1,
        forall|k: int|
            0 <= k < old(a)@.len() ==> (#[trigger] old(a)@[k]).data@.len() == old(a)@[0].data@.len(),
        old(a)@.len() * (8 * old(a)@[0].data@.len()) <= data@.len(),
    ensures
        r == old(a)@.len() * (8 * old(a)@[0].data@.len()),
        same_shapes(final(a)@, old(a)@),
        mats_bytes(final(a)@) == data@.subrange(0, r as int),
{
    deserialize_vec_polymatrix_at(a, data, 0)
}

/// With every matrix holding `sz` words, the serialized list takes `8 * sz`
/// bytes per matrix.
pub proof fn lemma_mats_bytes_len(ms: Seq<PolyMatrixRaw>, sz: int)
    requires
        forall|k: int| 0 <= k < ms.len() ==> (#[trigger] ms[k]).data@.len() == sz,
    ensures
        mats_bytes(ms).len() == ms.len() * (8 * sz),
    decreases ms.len(),
{
    if ms.len() > 0 {
        let t = ms.drop_last();
        assert forall|k: int| 0 <= k < t.len() implies (#[trigger] t[k]).data@.len() == sz by {
            assert(t[k] == ms[k]);
        }
        lemma_mats_bytes_len(t, sz);
        assert(ms.len() * (8 * sz) == t.len() * (8 * sz) + 8 * sz) by (nonlinear_arith)
            requires
                ms.len() == t.len() + 1,
        ;
    }
}

/// Lists of matrices of one shape each and with the same bytes are equal.
pub proof fn lemma_mats_bytes_injective(ms: Seq<PolyMatrixRaw>, ns: Seq<PolyMatrixRaw>, sz: int)
    requires
        same_shapes(ms, ns),
        forall|k: int| 0 <= k < ms.len() ==> (#[trigger] ms[k]).data@.len() == sz,
        mats_bytes(ms) == mats_bytes(ns),
    ensures
        forall|k: int| 0 <= k < ms.len() ==> (#[trigger] ms[k]).data@ == ns[k].data@,
    decreases ms.len(),
{
    if ms.len() > 0 {
        let (mt, nt) = (ms.drop_last(), ns.drop_last());
        assert forall|k: int| 0 <= k < mt.len() implies (#[trigger] mt[k]).data@.len() == sz by {
            assert(mt[k] == ms[k]);
        }
        assert forall|k: int| 0 <= k < nt.len() implies (#[trigger] nt[k]).data@.len() == sz by {
            assert(nt[k] == ns[k]);
            assert(ms[k].data@.len() == sz);
        }
        lemma_mats_bytes_len(mt, sz);
        lemma_mats_bytes_len(nt, sz);
        let l = mats_bytes(mt).len();
        assert(mats_bytes(mt) =~= mats_bytes(ms).subrange(0, l as int));
        assert(mats_bytes(nt) =~= mats_bytes(ns).subrange(0, l as int));
        assert(words_bytes(ms.last().data@) =~= mats_bytes(ms).subrange(
            l as int,
            mats_bytes(ms).len() as int,
        ));
        assert(words_bytes(ns.last().data@) =~= mats_bytes(ns).subrange(
            l as int,
            mats_bytes(ns).len() as int,
        ));
        lemma_words_bytes_injective(ms.last().data@, ns.last().data@);
        assert(same_shapes(mt, nt));
        lemma_mats_bytes_injective(mt, nt, sz);
        assert forall|k: int| 0 <= k < ms.len() implies (#[trigger] ms[k]).data@ == ns[k].data@ by {
            if k < mt.len() {
                assert(mt[k] == ms[k]);
                assert(nt[k] == ns[k]);
            }
        }
    }
}

/// `num` zero matrices of one shape.
pub fn new_vec_raw(params: &Params, num: usize, rows: usize, cols: usize) -> (r: Vec<
    PolyMatrixRaw,
>)
    requires
        rows * cols * params.poly_len <= usize::MAX,
    ensures
        r@.len() == num,
        forall|i: int|
            0 <= i < num ==> {
                &&& (#[trigger] r@[i]).wf()
                &&& r@[i].rows == rows
                &&& r@[i].cols == cols
                &&& r@[i].poly_len == params.poly_len
                &&& forall|j: int| 0 <= j < r@[i].data@.len() ==> r@[i].data@[j] == 0
            },
{
    let mut v: Vec<PolyMatrixRaw> = Vec::new();
    let mut k: usize = 0;
    while k < num
        invariant
            k <= num,
            rows * cols * params.poly_len <= usize::MAX,
            v@.len() == k,
            forall|i: int|
                0 <= i < k ==> {
                    &&& (#[trigger] v@[i]).wf()
                    &&& v@[i].rows == rows
                    &&& v@[i].cols == cols
                    &&& v@[i].poly_len == params.poly_len
                    &&& forall|j: int| 0 <= j < v@[i].data@.len() ==> v@[i].data@[j] == 0
                },
        decreases num - k,
    {
        v.push(PolyMatrixRaw::zero(params, rows, cols));
        k = k + 1;
    }
    v
}

} // verus!
