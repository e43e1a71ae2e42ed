//! Matrices of polynomials in coefficient form.

use vstd::prelude::*;
use crate::params::Params;

verus! {

/// A `rows` by `cols` matrix of polynomials of `poly_len` coefficients each,
/// stored entry by entry in row-major order, the coefficients of an entry
/// contiguous.
pub struct PolyMatrixRaw {
    pub rows: usize,
    pub cols: usize,
    pub poly_len: usize,
    pub data: Vec<u64>,
}

/// Index of coefficient `z` of entry `(r, c)`.
pub open spec fn coeff_index(cols: int, poly_len: int, r: int, c: int, z: int) -> int {
    (r * cols + c) * poly_len + z
}

impl View for PolyMatrixRaw {
    /// Shape and coefficients.
    type V = (usize, usize, usize, Seq<u64>);

    open spec fn view(&self) -> (usize, usize, usize, Seq<u64>) {
        (self.rows, self.cols, self.poly_len, self.data@)
    }
}

/// The views of a list of matrices.
pub open spec fn mats_view(ms: Seq<PolyMatrixRaw>) -> Seq<(usize, usize, usize, Seq<u64>)> {
    ms.map_values(|m: PolyMatrixRaw| m@)
}

/// A copy of each matrix, in order.
pub fn copy_vec(v: &Vec<PolyMatrixRaw>) -> (r: Vec<PolyMatrixRaw>)
    ensures
        mats_view(r@) == mats_view(v@),
{
    let mut out: Vec<PolyMatrixRaw> = Vec::new();
    let mut i: usize = 0;
    while i < v.len()
        invariant
            i <= v@.len(),
            out@.len() == i,
            forall|k: int| 0 <= k < i ==> (#[trigger] out@[k])@ == v@[k]@,
        decreases v@.len() - i,
    {
        out.push(v[i].copy());
        i = i + 1;
    }
    assert(mats_view(out@) =~= mats_view(v@));
    out
}

/// The polynomial at entry `(r, c)`.
pub open spec fn poly_at(m: &PolyMatrixRaw, r: int, c: int) -> Seq<u64> {
    let base = coeff_index(m.cols as int, m.poly_len as int, r, c, 0);
    m.data@.subrange(base, base + m.poly_len)
}

/// Distinct entries occupy disjoint runs of coefficients.
pub proof fn lemma_entries_disjoint(cols: int, np: int, r: int, c: int, r2: int, c2: int)
    requires
        0 <= c < cols,
        0 <= c2 < cols,
        0 <= r,
        0 <= r2,
        np >= 0,
        r != r2 || c != c2,
    ensures
        coeff_index(cols, np, r, c, 0) + np <= coeff_index(cols, np, r2, c2, 0) || coeff_index(
            cols,
            np,
            r2,
            c2,
            0,
        ) + np <= coeff_index(cols, np, r, c, 0),
{
    let e = r * cols + c;
    let e2 = r2 * cols + c2;
    if r == r2 {
        assert(e != e2);
    } else if r < r2 {
        assert(e < e2) by (nonlinear_arith)
            requires
                r < r2,
                0 <= c < cols,
                0 <= c2,
                e == r * cols + c,
                e2 == r2 * cols + c2,
        ;
    } else {
        assert(e2 < e) by (nonlinear_arith)
            requires
                r2 < r,
                0 <= c2 < cols,
                0 <= c,
                e == r * cols + c,
                e2 == r2 * cols + c2,
        ;
    }
    if e < e2 {
        assert(e * np + np <= e2 * np) by (nonlinear_arith)
            requires
                e < e2,
                np >= 0,
        ;
    } else {
        assert(e2 * np + np <= e * np) by (nonlinear_arith)
            requires
                e2 < e,
                np >= 0,
        ;
    }
}

impl PolyMatrixRaw {
    /// Writes `p` at entry `(r, c)`, leaving every other entry as it was.
    pub fn set_poly(&mut self, r: usize, c: usize, p: &Vec<u64>)
        requires
            old(self).wf(),
            r < old(self).rows,
            c < old(self).cols,
            p@.len() == old(self).poly_len,
            old(self).poly_len >= 1,
        ensures
            final(self).wf(),
            final(self).rows == old(self).rows,
            final(self).cols == old(self).cols,
            final(self).poly_len == old(self).poly_len,
            poly_at(final(self), r as int, c as int) == p@,
            forall|r2: int, c2: int|
                0 <= r2 < old(self).rows && 0 <= c2 < old(self).cols && (r2 != r || c2 != c)
                    ==> #[trigger] poly_at(final(self), r2, c2) == poly_at(old(self), r2, c2),
    {
        let np = self.poly_len;
        let cols = self.cols;
        let dl = self.data.len();
        proof {
            assert(self.rows * cols <= self.rows * cols * np) by (nonlinear_arith)
                requires
                    np >= 1,
            ;
            assert(r * cols + c < self.rows * cols) by (nonlinear_arith)
                requires
                    r < self.rows,
                    c < cols,
            ;
            assert((r * cols + c) * np + np <= self.rows * cols * np) by (nonlinear_arith)
                requires
                    r * cols + c < self.rows * cols,
            ;
        }
        let base = (r * cols + c) * np;
        let ghost before = self.data@;
        let mut z: usize = 0;
        while z < np
            invariant
                self.rows == old(self).rows,
                self.cols == cols,
                cols == old(self).cols,
                self.poly_len == np,
                np == old(self).poly_len,
                before == old(self).data@,
                base == coeff_index(cols as int, np as int, r as int, c as int, 0),
                base + np <= self.data@.len(),
                dl == self.data@.len(),
                self.data@.len() == before.len(),
                p@.len() == np,
                z <= np,
                forall|k: int| 0 <= k < base ==> self.data@[k] == before[k],
                forall|k: int| base + np <= k < before.len() ==> self.data@[k] == before[k],
                forall|k: int| base <= k < base + z ==> self.data@[k] == p@[k - base],
            decreases np - z,
        {
            self.data.set(base + z, p[z]);
            z = z + 1;
        }
        proof {
            assert(poly_at(self, r as int, c as int) =~= p@);
            assert forall|r2: int, c2: int|
                0 <= r2 < old(self).rows && 0 <= c2 < old(self).cols && (r2 != r || c2 != c)
                    implies #[trigger] poly_at(self, r2, c2) == poly_at(old(self), r2, c2) by {
                lemma_entries_disjoint(cols as int, np as int, r as int, c as int, r2, c2);
                let b2 = coeff_index(cols as int, np as int, r2, c2, 0);
                assert(b2 + np <= self.data@.len()) by (nonlinear_arith)
                    requires
                        b2 == (r2 * cols + c2) * np,
                        0 <= r2 < self.rows,
                        0 <= c2 < cols,
                        self.data@.len() == self.rows * cols * np,
                ;
                assert(0 <= b2) by (nonlinear_arith)
                    requires
                        b2 == (r2 * cols + c2) * np,
                        0 <= r2,
                        0 <= c2,
                        np >= 0,
                ;
                assert(poly_at(self, r2, c2) =~= poly_at(old(self), r2, c2));
            }
        }
    }

    /// A matrix equal to this one.
    pub fn copy(&self) -> (r: PolyMatrixRaw)
        ensures
            r@ == self@,
    {
        let mut data: Vec<u64> = Vec::new();
        let mut i: usize = 0;
        while i < self.data.len()
            invariant
                i <= self.data@.len(),
                data@ == self.data@.subrange(0, i as int),
            decreases self.data@.len() - i,
        {
            data.push(self.data[i]);
            assert(data@ =~= self.data@.subrange(0, i + 1));
            i = i + 1;
        }
        assert(data@ =~= self.data@);
        PolyMatrixRaw { rows: self.rows, cols: self.cols, poly_len: self.poly_len, data }
    }

    /// The data holds exactly one word per coefficient.
    pub open spec fn wf(&self) -> bool {
        self.data@.len() == self.rows * self.cols * self.poly_len
    }

    pub open spec fn num_words(&self) -> int {
        self.rows * self.cols * self.poly_len
    }

    /// Coefficient `z` of entry `(r, c)`.
    pub open spec fn coeff(&self, r: int, c: int, z: int) -> u64 {
        self.data@[coeff_index(self.cols as int, self.poly_len as int, r, c, z)]
    }

    /// The all-zero matrix of the given shape.
    pub fn zero(params: &Params, rows: usize, cols: usize) -> (r: PolyMatrixRaw)
        requires
            rows * cols * params.poly_len <= usize::MAX,
        ensures
            r.wf(),
            r.rows == rows,
            r.cols == cols,
            r.poly_len == params.poly_len,
            forall|i: int| 0 <= i < r.data@.len() ==> r.data@[i] == 0,
    {
        Self::zero_of_len(params.poly_len, rows, cols)
    }

    /// The all-zero matrix of the given shape and polynomial length.
    pub fn zero_of_len(poly_len: usize, rows: usize, cols: usize) -> (r: PolyMatrixRaw)
        requires
            rows * cols * poly_len <= usize::MAX,
        ensures
            r.wf(),
            r.rows == rows,
            r.cols == cols,
            r.poly_len == poly_len,
            forall|i: int| 0 <= i < r.data@.len() ==> r.data@[i] == 0,
    {
        let len = if poly_len == 0 {
            0
        } else {
            proof {
                assert(rows * cols <= rows * cols * poly_len) by (nonlinear_arith)
                    requires
                        poly_len >= 1,
                ;
            }
            rows * cols * poly_len
        };
        let mut data: Vec<u64> = Vec::new();
        while data.len() < len
            invariant
                data@.len() <= len,
                forall|i: int| 0 <= i < data@.len() ==> data@[i] == 0,
            decreases len - data@.len(),
        {
            data.push(0);
        }
        proof {
            if poly_len == 0 {
                assert(rows * cols * poly_len == 0) by (nonlinear_arith)
                    requires
                        poly_len == 0,
                ;
            }
        }
        PolyMatrixRaw { rows, cols, poly_len, data }
    }
}

} // verus!
