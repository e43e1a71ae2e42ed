//! The encrypted query a client sends per request, and its codec.

use vstd::prelude::*;
use crate::codec::{mats_bytes, read_words, serialize_polymatrix, serialize_vec_polymatrix, words_bytes, lemma_words_bytes_injective};
use crate::params::Params;
use crate::poly::{PolyMatrixRaw, mats_view};
use crate::public_params::{CodecError, all_shaped, opt_bytes, opt_seq, read_list, lemma_list_bytes_len, lemma_list_bytes_injective};

verus! {

/// A query. Where the server expands queries, `ct` holds one packed Regev
/// ciphertext; otherwise `v_buf` holds the first-dimension ciphertexts in the
/// server's order and `v_ct` the GSW ciphertexts of the further dimensions.
pub struct Query {
    pub ct: Option<PolyMatrixRaw>,
    pub v_buf: Option<Vec<u64>>,
    pub v_ct: Option<Vec<PolyMatrixRaw>>,
}

impl Query {
    /// The serialized form: `ct`, then `v_buf`, then `v_ct`, each where present.
    pub open spec fn bytes(&self) -> Seq<u8> {
        (match self.ct {
            Some(m) => words_bytes(m.data@),
            None => seq![],
        }) + (match self.v_buf {
            Some(v) => words_bytes(v@),
            None => seq![],
        }) + opt_bytes(self.v_ct)
    }

    /// The fields present and of the sizes that the parameters fix.
    pub open spec fn shaped(&self, params: &Params) -> bool {
        let np = params.poly_len as int;
        if params.expand_queries {
            &&& self.ct matches Some(m) && m.wf() && m.rows == 2 && m.cols == 1 && m.poly_len == np
            &&& self.v_buf is None
            &&& self.v_ct is None
        } else {
            &&& self.ct is None
            &&& self.v_buf matches Some(v) && 8 * v@.len() == params.query_v_buf_bytes_spec()
            &&& self.v_ct is Some
            &&& all_shaped(opt_seq(self.v_ct), params.db_dim_2 as int, 2, 2 * params.t_gsw, np)
        }
    }

    /// The query with no field present.
    pub fn empty() -> (r: Query)
        ensures
            r.ct is None,
            r.v_buf is None,
            r.v_ct is None,
    {
        Query { ct: None, v_buf: None, v_ct: None }
    }

    /// The serialized form.
    pub fn serialize(&self) -> (r: Vec<u8>)
        ensures
            r@ == self.bytes(),
    {
        let mut data: Vec<u8> = Vec::new();
        let ghost mut ct_bytes: Seq<u8> = seq![];
        let ghost mut buf_bytes: Seq<u8> = seq![];
        if let Some(ct) = &self.ct {
            serialize_polymatrix(&mut data, ct);
            proof { ct_bytes = words_bytes(ct.data@); }
        }
        if let Some(v_buf) = &self.v_buf {
            let mut i: usize = 0;
            while i < v_buf.len()
                invariant
                    i <= v_buf@.len(),
                    data@ == ct_bytes + words_bytes(v_buf@.subrange(0, i as int)),
                decreases v_buf@.len() - i,
            {
                crate::codec::push_word(&mut data, v_buf[i]);
                assert(words_bytes(v_buf@.subrange(0, i + 1)) =~= words_bytes(
                    v_buf@.subrange(0, i as int),
                ) + crate::codec::le_bytes(v_buf@[i as int]));
                i = i + 1;
            }
            assert(v_buf@.subrange(0, v_buf@.len() as int) =~= v_buf@);
            proof { buf_bytes = words_bytes(v_buf@); }
        } else {
            assert(words_bytes(seq![]) =~= seq![]);
            assert(data@ =~= ct_bytes + buf_bytes);
        }
        if let Some(v_ct) = &self.v_ct {
            serialize_vec_polymatrix(&mut data, v_ct);
        }
        assert(data@ =~= self.bytes());
        data
    }

    /// Reads a query back from its serialized form, which must have exactly
    /// the length the parameters fix.
    pub fn deserialize(params: &Params, data: &[u8]) -> (r: Result<Query, CodecError>)
        requires
            params.wf(),
        ensures
            r is Ok <==> data@.len() == params.query_bytes_spec(),
            r matches Ok(q) ==> q.shaped(params) && q.bytes() == data@,
            r matches Err(e) ==> e == (CodecError::LengthMismatch {
                expected: params.query_bytes_spec() as usize,
                found: data@.len() as usize,
            }),
    {
        let expected = params.query_bytes();
        if data.len() != expected {
            return Err(CodecError::LengthMismatch { expected, found: data.len() });
        }
        let mut out = Query::empty();
        if params.expand_queries {
            proof {
                params.lemma_poly_len_bound();
            }
            let words = read_words(data, 0, 2 * params.poly_len);
            let ct = PolyMatrixRaw { rows: 2, cols: 1, poly_len: params.poly_len, data: words };
            out.ct = Some(ct);
            proof {
                assert(data@.subrange(0, data@.len() as int) =~= data@);
                assert(out.bytes() =~= words_bytes(words@));
            }
        } else {
            let v_buf_bytes = params.query_v_buf_bytes();
            let v_buf = read_words(data, 0, v_buf_bytes / 8);
            let (v_ct, b) = read_list(params, data, v_buf_bytes, params.db_dim_2, 2, 2 * params.t_gsw);
            proof {
                assert(data@ =~= data@.subrange(0, v_buf_bytes as int) + data@.subrange(
                    v_buf_bytes as int,
                    v_buf_bytes + b,
                ));
            }
            out.v_buf = Some(v_buf);
            out.v_ct = Some(v_ct);
            assert(out.bytes() =~= words_bytes(v_buf@) + mats_bytes(v_ct@));
        }
        Ok(out)
    }
}

/// Serialized queries of the shape the parameters fix take exactly
/// `query_bytes` bytes.
pub proof fn lemma_query_size(params: &Params, q: &Query)
    requires
        params.wf(),
        q.shaped(params),
    ensures
        q.bytes().len() == params.query_bytes_spec(),
{
    if !params.expand_queries {
        lemma_list_bytes_len(params, opt_seq(q.v_ct), params.db_dim_2 as int, 2, 2 * params.t_gsw);
    }
}

/// A query read back from the serialized form of a well-shaped one holds the
/// same ciphertexts.
pub proof fn lemma_query_round_trip(params: &Params, q: &Query, back: &Query)
    requires
        params.wf(),
        q.shaped(params),
        back.shaped(params),
        back.bytes() == q.bytes(),
    ensures
        back.ct matches Some(m) ==> q.ct matches Some(k) && m@ == k@,
        back.ct is None <==> q.ct is None,
        back.v_buf matches Some(v) ==> q.v_buf matches Some(w) && v@ == w@,
        back.v_buf is None <==> q.v_buf is None,
        mats_view(opt_seq(back.v_ct)) == mats_view(opt_seq(q.v_ct)),
{
    if params.expand_queries {
        let (m, k) = (back.ct.unwrap(), q.ct.unwrap());
        assert(back.bytes() =~= words_bytes(m.data@));
        assert(q.bytes() =~= words_bytes(k.data@));
        lemma_words_bytes_injective(m.data@, k.data@);
    } else {
        let (v, w) = (back.v_buf.unwrap(), q.v_buf.unwrap());
        let l = 8 * v@.len() as int;
        assert(words_bytes(v@) =~= back.bytes().subrange(0, l));
        assert(words_bytes(w@) =~= q.bytes().subrange(0, l));
        lemma_words_bytes_injective(v@, w@);
        let d = params.db_dim_2 as int;
        lemma_list_bytes_len(params, opt_seq(q.v_ct), d, 2, 2 * params.t_gsw);
        assert(mats_bytes(opt_seq(back.v_ct)) =~= back.bytes().subrange(l, back.bytes().len() as int));
        assert(mats_bytes(opt_seq(q.v_ct)) =~= q.bytes().subrange(l, q.bytes().len() as int));
        lemma_list_bytes_injective(params, opt_seq(back.v_ct), opt_seq(q.v_ct), d, 2, 2 * params.t_gsw);
    }
}

} // verus!
