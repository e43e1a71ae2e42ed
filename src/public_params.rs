//! The public key material a client hands to the server once, and its codec.

use vstd::prelude::*;
use crate::codec::{deserialize_vec_polymatrix_at, mats_bytes, new_vec_raw, serialize_vec_polymatrix, lemma_mats_bytes_len, lemma_mats_bytes_injective, same_shapes};
use crate::params::Params;
use crate::poly::{PolyMatrixRaw, copy_vec, mats_view};

verus! {

/// Why a serialized blob was refused.
#[derive(Debug, PartialEq, Eq, Structural)]
pub enum CodecError {
    /// The blob does not have the length the parameters fix.
    LengthMismatch { expected: usize, found: usize },
}

/// `count` matrices, each well formed and of the given shape.
pub open spec fn all_shaped(ms: Seq<PolyMatrixRaw>, count: int, rows: int, cols: int, poly_len: int) -> bool {
    &&& ms.len() == count
    &&& forall|k: int|
        0 <= k < ms.len() ==> {
            &&& (#[trigger] ms[k]).wf()
            &&& ms[k].rows == rows
            &&& ms[k].cols == cols
            &&& ms[k].poly_len == poly_len
        }
}

/// The serialized form of an optional list: nothing where it is absent.
pub open spec fn opt_bytes(o: Option<Vec<PolyMatrixRaw>>) -> Seq<u8> {
    match o {
        Some(v) => mats_bytes(v@),
        None => seq![],
    }
}

/// The matrices of an optional list, empty where it is absent.
pub open spec fn opt_seq(o: Option<Vec<PolyMatrixRaw>>) -> Seq<PolyMatrixRaw> {
    match o {
        Some(v) => v@,
        None => seq![],
    }
}

/// Key bundles, each matrix in coefficient form: packing keys, left and right
/// expansion keys, and conversion keys. The last three are present exactly
/// when the server expands queries.
pub struct PublicParameters {
    pub v_packing: Vec<PolyMatrixRaw>,
    pub v_expansion_left: Option<Vec<PolyMatrixRaw>>,
    pub v_expansion_right: Option<Vec<PolyMatrixRaw>>,
    pub v_conversion: Option<Vec<PolyMatrixRaw>>,
}

/// Reads `count` matrices of one shape from `data` at `off`, returning them
/// and the bytes read.
pub(crate) fn read_list(params: &Params, data: &[u8], off: usize, count: usize, rows: usize, cols: usize) -> (r: (Vec<PolyMatrixRaw>, usize))
    requires
        params.ranges_ok(),
        rows <= 17,
        cols <= 128,
        off + count * params.mat_bytes(rows as int, cols as int) <= data@.len(),
    ensures
        all_shaped(r.0@, count as int, rows as int, cols as int, params.poly_len as int),
        r.1 == count * params.mat_bytes(rows as int, cols as int),
        mats_bytes(r.0@) == data@.subrange(off as int, off + r.1),
{
    let mb = params.mat_bytes_u64(rows, cols);
    proof {
        params.lemma_poly_len_bound();
        assert(rows * cols * params.poly_len <= 17 * 128 * 16384) by (nonlinear_arith)
            requires
                rows <= 17,
                cols <= 128,
                params.poly_len <= 16384,
        ;
        assert(count * (8 * (rows * cols * params.poly_len)) == count * params.mat_bytes(rows as int, cols as int)) by (nonlinear_arith);
    }
    let mut v = new_vec_raw(params, count, rows, cols);
    if count == 0 {
        proof {
            assert(data@.subrange(off as int, off as int) =~= seq![]);
            assert(count * params.mat_bytes(rows as int, cols as int) == 0) by (nonlinear_arith)
                requires count == 0;
        }
        return (v, 0);
    }
    let ghost before = v@;
    let n = deserialize_vec_polymatrix_at(&mut v, data, off);
    proof {
        assert forall|k: int| 0 <= k < v@.len() implies {
            &&& (#[trigger] v@[k]).wf()
            &&& v@[k].rows == rows
            &&& v@[k].cols == cols
            &&& v@[k].poly_len == params.poly_len
        } by {
            assert(before[k].wf());
        }
        assert(before[0].wf());
    }
    (v, n)
}

impl PublicParameters {
    /// The serialized form: packing keys, then, where present, left and
    /// right expansion keys and conversion keys.
    pub open spec fn bytes(&self) -> Seq<u8> {
        mats_bytes(self.v_packing@) + opt_bytes(self.v_expansion_left) + opt_bytes(
            self.v_expansion_right,
        ) + opt_bytes(self.v_conversion)
    }

    /// Every bundle has the length and matrix shapes the parameters fix.
    pub open spec fn shaped(&self, params: &Params) -> bool {
        let np = params.poly_len as int;
        &&& all_shaped(self.v_packing@, params.n as int, params.n + 1, params.t_conv as int, np)
        &&& if params.expand_queries {
            &&& self.v_expansion_left is Some
            &&& self.v_expansion_right is Some
            &&& self.v_conversion is Some
            &&& all_shaped(opt_seq(self.v_expansion_left), params.g_spec() as int, 2, params.t_exp_left as int, np)
            &&& all_shaped(opt_seq(self.v_expansion_right), params.stop_round_spec() as int + 1, 2, params.t_exp_right as int, np)
            &&& all_shaped(opt_seq(self.v_conversion), 1, 2, 2 * params.t_conv, np)
        } else {
            &&& self.v_expansion_left is None
            &&& self.v_expansion_right is None
            &&& self.v_conversion is None
        }
    }

    /// Empty bundles; the expansion and conversion ones are present exactly
    /// when the server expands queries.
    pub fn init(params: &Params) -> (r: PublicParameters)
        ensures
            r.v_packing@.len() == 0,
            params.expand_queries ==> r.v_expansion_left is Some && opt_seq(r.v_expansion_left).len() == 0
                && r.v_expansion_right is Some && opt_seq(r.v_expansion_right).len() == 0
                && r.v_conversion is Some && opt_seq(r.v_conversion).len() == 0,
            !params.expand_queries ==> r.v_expansion_left is None && r.v_expansion_right is None
                && r.v_conversion is None,
    {
        if params.expand_queries {
            PublicParameters {
                v_packing: Vec::new(),
                v_expansion_left: Some(Vec::new()),
                v_expansion_right: Some(Vec::new()),
                v_conversion: Some(Vec::new()),
            }
        } else {
            PublicParameters {
                v_packing: Vec::new(),
                v_expansion_left: None,
                v_expansion_right: None,
                v_conversion: None,
            }
        }
    }

    /// Copies of the four bundles, in serialization order, the packing keys
    /// always present.
    pub fn to_raw(&self) -> (r: Vec<Option<Vec<PolyMatrixRaw>>>)
        ensures
            r@.len() == 4,
            r@[0] is Some && mats_view(opt_seq(r@[0])) == mats_view(self.v_packing@),
            r@[1] is Some == self.v_expansion_left is Some,
            r@[2] is Some == self.v_expansion_right is Some,
            r@[3] is Some == self.v_conversion is Some,
            mats_view(opt_seq(r@[1])) == mats_view(opt_seq(self.v_expansion_left)),
            mats_view(opt_seq(r@[2])) == mats_view(opt_seq(self.v_expansion_right)),
            mats_view(opt_seq(r@[3])) == mats_view(opt_seq(self.v_conversion)),
    {
        let mut r: Vec<Option<Vec<PolyMatrixRaw>>> = Vec::new();
        r.push(Some(copy_vec(&self.v_packing)));
        r.push(copy_opt(&self.v_expansion_left));
        r.push(copy_opt(&self.v_expansion_right));
        r.push(copy_opt(&self.v_conversion));
        r
    }

    /// Reads the bundles back from their serialized form, which must have
    /// exactly the length the parameters fix.
    pub fn deserialize(params: &Params, data: &[u8]) -> (r: Result<PublicParameters, CodecError>)
        requires
            params.wf(),
        ensures
            r is Ok <==> data@.len() == params.setup_bytes_spec(),
            r matches Ok(pp) ==> pp.shaped(params) && pp.bytes() == data@,
            r matches Err(e) ==> e == (CodecError::LengthMismatch {
                expected: params.setup_bytes_spec() as usize,
                found: data@.len() as usize,
            }),
    {
        let expected = params.setup_bytes();
        if data.len() != expected {
            return Err(CodecError::LengthMismatch { expected, found: data.len() });
        }
        let (v_packing, a) = read_list(params, data, 0, params.n, params.n + 1, params.t_conv);
        if params.expand_queries {
            let g = params.g();
            let (left, b) = read_list(params, data, a, g, 2, params.t_exp_left);
            let sr = params.stop_round();
            let (right, c) = read_list(params, data, a + b, sr + 1, 2, params.t_exp_right);
            let (conv, d) = read_list(params, data, a + b + c, 1, 2, 2 * params.t_conv);
            let pp = PublicParameters {
                v_packing,
                v_expansion_left: Some(left),
                v_expansion_right: Some(right),
                v_conversion: Some(conv),
            };
            proof {
                assert(data@ =~= data@.subrange(0, a as int) + data@.subrange(a as int, a + b)
                    + data@.subrange(a + b, a + b + c) + data@.subrange(a + b + c, a + b + c + d));
            }
            Ok(pp)
        } else {
            let pp = PublicParameters {
                v_packing,
                v_expansion_left: None,
                v_expansion_right: None,
                v_conversion: None,
            };
            proof {
                assert(data@ =~= data@.subrange(0, a as int));
                assert(pp.bytes() =~= mats_bytes(pp.v_packing@));
            }
            Ok(pp)
        }
    }

    /// The serialized form.
    pub fn serialize(&self) -> (r: Vec<u8>)
        ensures
            r@ == self.bytes(),
    {
        let mut data: Vec<u8> = Vec::new();
        serialize_vec_polymatrix(&mut data, &self.v_packing);
        serialize_opt(&mut data, &self.v_expansion_left);
        serialize_opt(&mut data, &self.v_expansion_right);
        serialize_opt(&mut data, &self.v_conversion);
        assert(data@ =~= self.bytes());
        data
    }
}

/// A list of `count` matrices of one shape serializes to `count` times the
/// bytes of one.
pub proof fn lemma_list_bytes_len(params: &Params, ms: Seq<PolyMatrixRaw>, count: int, rows: int, cols: int)
    requires
        all_shaped(ms, count, rows, cols, params.poly_len as int),
    ensures
        mats_bytes(ms).len() == count * params.mat_bytes(rows, cols),
{
    let sz = rows * cols * params.poly_len;
    assert forall|k: int| 0 <= k < ms.len() implies (#[trigger] ms[k]).data@.len() == sz by {
        assert(ms[k].wf());
    }
    lemma_mats_bytes_len(ms, sz);
    assert(count * (8 * sz) == count * (rows * cols * params.poly_len * 8)) by (nonlinear_arith)
        requires
            sz == rows * cols * params.poly_len,
    ;
}

/// Lists of one shape with the same bytes hold the same matrices.
pub proof fn lemma_list_bytes_injective(params: &Params, ms: Seq<PolyMatrixRaw>, ns: Seq<PolyMatrixRaw>, count: int, rows: int, cols: int)
    requires
        all_shaped(ms, count, rows, cols, params.poly_len as int),
        all_shaped(ns, count, rows, cols, params.poly_len as int),
        mats_bytes(ms) == mats_bytes(ns),
    ensures
        mats_view(ms) == mats_view(ns),
{
    let sz = rows * cols * params.poly_len;
    assert forall|k: int| 0 <= k < ms.len() implies (#[trigger] ms[k]).data@.len() == sz by {
        assert(ms[k].wf());
    }
    assert forall|k: int| 0 <= k < ns.len() implies (#[trigger] ns[k]).data@.len() == sz by {
        assert(ns[k].wf());
    }
    assert(same_shapes(ms, ns));
    lemma_mats_bytes_injective(ms, ns, sz);
    assert(mats_view(ms) =~= mats_view(ns));
}

/// Serialized public parameters of the shape the parameters fix take exactly
/// `setup_bytes` bytes.
pub proof fn lemma_public_parameters_size(params: &Params, pp: &PublicParameters)
    requires
        params.wf(),
        pp.shaped(params),
    ensures
        pp.bytes().len() == params.setup_bytes_spec(),
{
    let np = params.poly_len as int;
    lemma_list_bytes_len(params, pp.v_packing@, params.n as int, params.n + 1, params.t_conv as int);
    if params.expand_queries {
        lemma_list_bytes_len(params, opt_seq(pp.v_expansion_left), params.g_spec() as int, 2, params.t_exp_left as int);
        lemma_list_bytes_len(params, opt_seq(pp.v_expansion_right), params.stop_round_spec() as int + 1, 2, params.t_exp_right as int);
        lemma_list_bytes_len(params, opt_seq(pp.v_conversion), 1, 2, 2 * params.t_conv);
    }
}

/// Public parameters read back from the serialized form of well-shaped ones
/// hold the same matrices, bundle by bundle.
pub proof fn lemma_public_parameters_round_trip(params: &Params, pp: &PublicParameters, back: &PublicParameters)
    requires
        params.wf(),
        pp.shaped(params),
        back.shaped(params),
        back.bytes() == pp.bytes(),
    ensures
        mats_view(back.v_packing@) == mats_view(pp.v_packing@),
        mats_view(opt_seq(back.v_expansion_left)) == mats_view(opt_seq(pp.v_expansion_left)),
        mats_view(opt_seq(back.v_expansion_right)) == mats_view(opt_seq(pp.v_expansion_right)),
        mats_view(opt_seq(back.v_conversion)) == mats_view(opt_seq(pp.v_conversion)),
{
    let (n, tc) = (params.n as int, params.t_conv as int);
    let (g, sr) = (params.g_spec() as int, params.stop_round_spec() as int + 1);
    let (el, er) = (params.t_exp_left as int, params.t_exp_right as int);
    lemma_list_bytes_len(params, pp.v_packing@, n, n + 1, tc);
    lemma_list_bytes_len(params, back.v_packing@, n, n + 1, tc);
    let a = mats_bytes(pp.v_packing@).len() as int;
    assert(mats_bytes(pp.v_packing@) =~= pp.bytes().subrange(0, a));
    assert(mats_bytes(back.v_packing@) =~= back.bytes().subrange(0, a));
    lemma_list_bytes_injective(params, back.v_packing@, pp.v_packing@, n, n + 1, tc);
    if params.expand_queries {
        let (pl, pr, pc) = (opt_seq(pp.v_expansion_left), opt_seq(pp.v_expansion_right), opt_seq(pp.v_conversion));
        let (bl, br, bc) = (opt_seq(back.v_expansion_left), opt_seq(back.v_expansion_right), opt_seq(back.v_conversion));
        lemma_list_bytes_len(params, pl, g, 2, el);
        lemma_list_bytes_len(params, bl, g, 2, el);
        lemma_list_bytes_len(params, pr, sr, 2, er);
        lemma_list_bytes_len(params, br, sr, 2, er);
        lemma_list_bytes_len(params, pc, 1, 2, 2 * tc);
        lemma_list_bytes_len(params, bc, 1, 2, 2 * tc);
        let b = a + mats_bytes(pl).len();
        let c = b + mats_bytes(pr).len();
        let d = c + mats_bytes(pc).len();
        assert(mats_bytes(pl) =~= pp.bytes().subrange(a, b));
        assert(mats_bytes(bl) =~= back.bytes().subrange(a, b));
        assert(mats_bytes(pr) =~= pp.bytes().subrange(b, c));
        assert(mats_bytes(br) =~= back.bytes().subrange(b, c));
        assert(mats_bytes(pc) =~= pp.bytes().subrange(c, d));
        assert(mats_bytes(bc) =~= back.bytes().subrange(c, d));
        lemma_list_bytes_injective(params, bl, pl, g, 2, el);
        lemma_list_bytes_injective(params, br, pr, sr, 2, er);
        lemma_list_bytes_injective(params, bc, pc, 1, 2, 2 * tc);
    }
}

/// A copy of an optional list.
fn copy_opt(o: &Option<Vec<PolyMatrixRaw>>) -> (r: Option<Vec<PolyMatrixRaw>>)
    ensures
        r is Some == o is Some,
        mats_view(opt_seq(r)) == mats_view(opt_seq(*o)),
{
    match o {
        Some(v) => Some(copy_vec(v)),
        None => {
            assert(mats_view(seq![]) =~= mats_view(seq![]));
            None
        },
    }
}

/// Appends an optional list, nothing where it is absent.
fn serialize_opt(data: &mut Vec<u8>, o: &Option<Vec<PolyMatrixRaw>>)
    ensures
        final(data)@ == old(data)@ + opt_bytes(*o),
{
    match o {
        Some(v) => serialize_vec_polymatrix(data, v),
        None => {
            assert(old(data)@ + seq![] =~= old(data)@);
        },
    }
}

} // verus!
