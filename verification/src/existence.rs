//! What the operations of the model are owed: when each of them exists.

use crate::array::{
    Array, addressable, cat_result, count, dims_4, expand_result, expandable, join_fits, joinable,
    joint_dims, lead, matrix_row, scalar, storable, where_result, zeros_result,
};
use crate::attention::{AttentionView, repeat_result, scores_result, spread_result};
use crate::cache::{CacheView, Entry, gather_result, keys_of};
use crate::laws::lemma_lead_of_units;
use crate::masks::{NEG_INFINITY, attention_mask_result, chosen_result, squares_result};
use crate::mlp::{MlpView, mlp_result};
use crate::nn::{
    EmbeddingView, LinearView, NormView, embed_result, knows, linear_result, norm_outcome,
    norm_result,
};
use crate::retention::contents;
use crate::rotary::{RotaryView, rotate_result};
use crate::success::{
    a_block_takes_what_agrees, attention_over_what_agrees_succeeds, entry_agrees, lemma_fits_4,
    lemma_gather_owed, lemma_norm_owed, lemma_rotation_owed, lemma_spread_owed, positions,
};
use crate::tensor::cast_result;
use candle_core::DType;
use vstd::prelude::*;

verus! {

/// Attention over queries, keys and values of one type that go together exists: there is one
/// row for each query. Without a mask nothing else is needed; one mask for all heads of a
/// member of the batch may go with it.
pub proof fn attention_over_what_goes_together_exists(
    q: Array,
    k: Array,
    v: Array,
    mask: Option<Array>,
    head_dim: int,
    out: Option<Array>,
)
    requires
        scores_result(q, k, v, mask, head_dim, out),
        q.dtype == DType::F16 || q.dtype == DType::F32 || q.dtype == DType::F64,
        k.dtype == q.dtype && v.dtype == q.dtype,
        q.dims.len() == 4,
        q.dims[0] > 0 && q.dims[1] > 0 && q.dims[2] > 0 && q.dims[3] > 0,
        k.dims.len() == 4 && k.dims[2] > 0,
        k.dims == q.dims.update(2, k.dims[2]),
        v.dims == k.dims,
        ((q.dims[0] * q.dims[1]) * q.dims[2]) * q.dims[3] <= usize::MAX,
        ((q.dims[0] * q.dims[1]) * k.dims[2]) * q.dims[3] <= usize::MAX,
        ((q.dims[0] * q.dims[1]) * q.dims[2]) * k.dims[2] <= usize::MAX,
        mask matches Some(m) ==> m.dtype == q.dtype && m.dims == seq![
            q.dims[0],
            1usize,
            q.dims[2],
            k.dims[2],
        ],
    ensures
        out matches Some(o) && o.dtype == q.dtype && o.dims == q.dims,
{
    let (b, h, s, d, p) = (q.dims[0], q.dims[1], q.dims[2], q.dims[3], k.dims[2]);
    lemma_fits_4(b, h, s, d);
    lemma_fits_4(b, h, p, d);
    lemma_fits_4(b, h, s, p);
    assert(q.dims =~= dims_4(b, h, s, d));
    assert(k.dims =~= dims_4(b, h, p, d));
    assert(q.dims.update(3, p) =~= dims_4(b, h, s, p));
    assert(q.dims.update(3, d) =~= q.dims);
    if let Some(m) = mask {
        assert(((b * 1) * s) * p <= ((b * h) * s) * p) by (nonlinear_arith)
            requires
                h >= 1,
                b >= 0,
                s >= 0,
                p >= 0,
        ;
        lemma_fits_4(b, 1, s, p);
        assert(m.dims =~= dims_4(b, 1, s, p));
        assert(joint_dims(dims_4(b, h, s, p), m.dims) =~= dims_4(b, h, s, p));
    }
    attention_over_what_agrees_succeeds(q, k, v, mask, head_dim, out);
}

/// A matrix of whole numbers, one row for each member of a batch, stands for a mask: one
/// square for each member.
pub proof fn a_given_mask_exists(dtype: DType, a: Array, out: Option<Array>)
    requires
        attention_mask_result(dtype, a, out),
        dtype == DType::BF16 || dtype == DType::F16 || dtype == DType::F32 || dtype == DType::F64,
        a.dtype == DType::U8 || a.dtype == DType::U32 || a.dtype == DType::I64,
        a.dims.len() == 2,
        a.dims[0] > 0 && a.dims[1] > 0,
        (a.dims[0] * a.dims[1]) * a.dims[1] <= usize::MAX,
    ensures
        out matches Some(m) && m.dtype == dtype && m.dims == seq![
            a.dims[0],
            1usize,
            a.dims[1],
            a.dims[1],
        ],
{
    let (b, n) = (a.dims[0], a.dims[1]);
    assert((1 * 1) * n * n <= (b * n) * n && ((b * 1) * n) * n == (b * n) * n)
        by (nonlinear_arith)
        requires
            b >= 1,
            n >= 0,
    ;
    lemma_fits_4(1, 1, n, n);
    lemma_fits_4(b, 1, n, n);
    let rows = choose|rows: Option<Seq<Array>>| #[trigger]
        squares_result(a, rows) && match rows {
            None => out is None,
            Some(rows) => exists|m: Option<Array>| #[trigger]
                cat_result(rows, 0, m) && match m {
                    None => out is None,
                    Some(m) => chosen_result(dtype, m, out),
                },
        };
    let target = dims_4(1, 1, n, n);
    assert(expandable(seq![n], target));
    if rows is None {
        let r = choose|r: int|
            0 <= r < b && expand_result(#[trigger] matrix_row(a, r), target, None);
        assert(expandable(matrix_row(a, r).dims, target));
    }
    let rows = rows->Some_0;
    assert forall|r: int| 0 <= r < rows.len() implies (#[trigger] rows[r]).dims == target
        && rows[r].dtype == a.dtype by {
        assert(expand_result(matrix_row(a, r), target, Some(rows[r])));
    }
    lemma_lead_of_units(rows, rows.len() as int);
    assert(rows[0].dims.update(0, b) =~= dims_4(b, 1, n, n));
    let m = choose|m: Option<Array>| #[trigger]
        cat_result(rows, 0, m) && match m {
            None => out is None,
            Some(m) => chosen_result(dtype, m, out),
        };
    assert(joinable(rows, 0) && join_fits(rows, 0));
    let m = m->Some_0;
    assert(m.dims =~= dims_4(b, 1, n, n)) by {
        if rows.len() > 1 {
            assert(m.dims[1] == rows[0].dims[1] && m.dims[2] == rows[0].dims[2] && m.dims[3]
                == rows[0].dims[3]);
        }
    }
    lemma_choice_exists(dtype, m, out);
}

/// Choosing between zero and negative infinity.
proof fn lemma_choice_exists(dtype: DType, m: Array, out: Option<Array>)
    requires
        chosen_result(dtype, m, out),
        storable(dtype),
        m.dtype == DType::U8 || m.dtype == DType::U32 || m.dtype == DType::I64,
        addressable(m.dims),
    ensures
        out matches Some(t) && t.dtype == dtype && t.dims == m.dims,
{
    let single = scalar(DType::F32, NEG_INFINITY as u64);
    assert(expandable(single.dims, m.dims));
    let z = choose|z: Option<Array>| #[trigger]
        zeros_result(m.dims, m.dtype, z) && match z {
            None => out is None,
            Some(z) => exists|t: Option<Array>| #[trigger]
                cast_result(z, dtype, t) && match t {
                    None => out is None,
                    Some(t) => exists|e: Option<Array>| #[trigger]
                        expand_result(single, m.dims, e) && match e {
                            None => out is None,
                            Some(e) => exists|f: Option<Array>| #[trigger]
                                cast_result(e, dtype, f) && match f {
                                    None => out is None,
                                    Some(f) => where_result(m, t, f, out),
                                },
                        },
                },
        };
    let z = z->Some_0;
    let t = choose|t: Option<Array>| #[trigger]
        cast_result(z, dtype, t) && match t {
            None => out is None,
            Some(t) => exists|e: Option<Array>| #[trigger]
                expand_result(single, m.dims, e) && match e {
                    None => out is None,
                    Some(e) => exists|f: Option<Array>| #[trigger]
                        cast_result(e, dtype, f) && match f {
                            None => out is None,
                            Some(f) => where_result(m, t, f, out),
                        },
                },
        };
    let t = t->Some_0;
    let e = choose|e: Option<Array>| #[trigger]
        expand_result(single, m.dims, e) && match e {
            None => out is None,
            Some(e) => exists|f: Option<Array>| #[trigger]
                cast_result(e, dtype, f) && match f {
                    None => out is None,
                    Some(f) => where_result(m, t, f, out),
                },
        };
    let e = e->Some_0;
    let f = choose|f: Option<Array>| #[trigger]
        cast_result(e, dtype, f) && match f {
            None => out is None,
            Some(f) => where_result(m, t, f, out),
        };
    assert(f is Some);
}

/// A projection of rows of features exists where there are rows, in matrices or batches of
/// matrices, and the weights are of the same type and number.
pub proof fn a_projection_exists(l: LinearView, x: Array, out: Option<Array>)
    requires
        linear_result(l, x, out),
        x.dtype == DType::F16 || x.dtype == DType::F32 || x.dtype == DType::F64,
        2 <= x.dims.len() <= 4,
        count(x.dims.drop_last()) > 0,
        l.weight.dtype == x.dtype && l.weight.dims == seq![l.weight.dims[0], x.dims.last()],
        l.bias matches Some(b) ==> b.dtype == x.dtype,
        addressable(x.dims) && addressable(x.dims.drop_last().push(l.weight.dims[0])),
    ensures
        out matches Some(t) && t.dims == x.dims.drop_last().push(l.weight.dims[0]),
{
}

/// A normalisation exists where there is one weight of the same type for each feature.
pub proof fn a_normalisation_exists(n: NormView, x: Array, out: Option<Array>)
    requires
        norm_result(n, x, out),
        x.dtype == DType::BF16 || x.dtype == DType::F16 || x.dtype == DType::F32,
        x.dims.len() > 0 && x.dims.last() > 0,
        n.weight.dtype == x.dtype && n.weight.dims == seq![x.dims.last()],
        addressable(x.dims),
    ensures
        out matches Some(t) && t.dims == x.dims && norm_outcome(x, n.weight, n.eps, out),
{
    lemma_norm_owed(n, x, out);
}

/// Every list of known tokens has features.
pub proof fn the_features_of_tokens_exist(e: EmbeddingView, ids: Array, out: Option<Array>)
    requires
        embed_result(e, ids, out),
        ids.dtype == DType::U8 || ids.dtype == DType::U32 || ids.dtype == DType::I64,
        forall|t: int|
            0 <= t < ids.elems.len() ==> ((#[trigger] ids.elems[t]) as usize)
                < e.embeddings.dims[0],
        storable(e.embeddings.dtype) && e.ordered,
        addressable(ids.dims) && addressable(ids.dims.push(e.hidden_size as usize)),
    ensures
        out matches Some(x) && x.dims == ids.dims.push(e.hidden_size as usize),
{
    if out is None {
        let t = choose|t: int|
            0 <= t < ids.elems.len() && !(#[trigger] knows(e.embeddings, ids, t));
        assert((ids.elems[t] as usize) < e.embeddings.dims[0]);
    }
}

/// A block under an activation function without a gate of its own exists for rows of features,
/// in matrices or batches of matrices, and keeps their shape.
pub proof fn a_block_exists(m: MlpView, x: Array, out: Option<Array>)
    requires
        mlp_result(m, x, out),
        x.dtype == DType::F16 || x.dtype == DType::F32 || x.dtype == DType::F64,
        2 <= x.dims.len() <= 4,
        count(x.dims.drop_last()) > 0,
        !(m.act is Swiglu),
        m.gate.weight.dtype == x.dtype && m.up.weight.dtype == x.dtype,
        m.down.weight.dtype == x.dtype,
        m.gate.bias is None && m.up.bias is None && m.down.bias is None,
        m.gate.weight.dims == seq![m.gate.weight.dims[0], x.dims.last()],
        m.up.weight.dims == m.gate.weight.dims,
        m.down.weight.dims == seq![x.dims.last(), m.gate.weight.dims[0]],
        addressable(x.dims) && addressable(x.dims.drop_last().push(m.gate.weight.dims[0])),
    ensures
        out matches Some(t) && t.dtype == x.dtype && t.dims == x.dims,
{
    let inner = m.gate.weight.dims[0];
    assert(x.dims.drop_last().push(inner).drop_last() =~= x.dims.drop_last());
    a_block_takes_what_agrees(m, x, out);
}

/// Queries and keys that there are angles for can be rotated, and keep their shapes.
pub proof fn a_rotation_exists(
    r: RotaryView,
    q: Array,
    k: Array,
    offset: int,
    out: Option<(Array, Array)>,
)
    requires
        rotate_result(r, q, k, offset, out),
        q.dtype == DType::F16 || q.dtype == DType::F32 || q.dtype == DType::F64,
        k.dtype == q.dtype && r.cos.dtype == q.dtype && r.sin.dtype == q.dtype,
        q.dims.len() == 4 && k.dims.len() == 4,
        q.dims[2] > 0 && q.dims[3] > 0,
        k.dims[2] == q.dims[2] && k.dims[3] == q.dims[3],
        r.cos.dims.len() == 2 && r.sin.dims == r.cos.dims,
        2 * r.cos.dims[1] == q.dims[3],
        0 <= offset && offset + q.dims[2] <= r.cos.dims[0],
        addressable(q.dims) && addressable(k.dims),
        q.dims[2] * q.dims[3] <= usize::MAX,
    ensures
        out matches Some((qe, ke)) && qe.dtype == q.dtype && qe.dims == q.dims && ke.dtype
            == q.dtype && ke.dims == k.dims,
{
    lemma_rotation_owed(r, q, k, offset, out);
}

/// Heads can be repeated, as long as their number and the sizes fit in a machine word.
pub proof fn a_repetition_exists(x: Array, n: usize, out: Option<Array>)
    requires
        repeat_result(x, n, out),
        x.dims.len() == 4,
        x.dims[0] > 0 && x.dims[1] > 0 && x.dims[2] > 0 && x.dims[3] > 0 && n > 0,
        storable(x.dtype),
        x.dims[1] * n <= usize::MAX,
        ((x.dims[0] * (x.dims[1] * n)) * x.dims[2]) * x.dims[3] <= usize::MAX,
    ensures
        out is Some,
{
    if out is None {
        assert(spread_result(x, n, None));
        lemma_spread_owed(x, n, (x.dims[1] * n) as usize, None);
    }
}

/// Keys and values of one type, batch, heads and features can be read together.
pub proof fn what_goes_together_can_be_read(
    c: CacheView,
    dtype: DType,
    b: usize,
    g: usize,
    d: usize,
    out: Option<(Array, Array)>,
)
    requires
        gather_result(c, out),
        c.bounded(),
        c.recent.len() > 0,
        storable(dtype),
        b > 0 && g > 0 && d > 0,
        forall|p: int|
            0 <= p < c.heavy.len() ==> one_of(#[trigger] c.heavy[p], dtype, b, g, d),
        forall|p: int|
            0 <= p < c.recent.len() ==> one_of(#[trigger] c.recent[p], dtype, b, g, d),
        ((b * g) * lead(
            keys_of(c.heavy + c.recent),
            2,
            (c.heavy.len() + c.recent.len()) as int,
        )) * d <= usize::MAX,
    ensures
        out matches Some((ks, vs)) && ks.dtype == dtype && vs.dtype == dtype && vs.dims == ks.dims
            && ks.dims[0] == b && ks.dims[1] == g && ks.dims[3] == d && ks.dims[2] == lead(
            keys_of(c.heavy + c.recent),
            2,
            (c.heavy.len() + c.recent.len()) as int,
        ),
{
    let a = AttentionView { num_kv_heads: g, head_dim: d, ..arbitrary() };
    assert forall|p: int| 0 <= p < contents(c).len() implies entry_agrees(
        #[trigger] contents(c)[p],
        a,
        dtype,
        b,
    ) by {
        let h = c.heavy.len() as int;
        if p < h {
            assert(one_of(c.heavy[p], dtype, b, g, d));
        } else {
            assert(one_of(c.recent[p - h], dtype, b, g, d));
        }
    }
    assert(contents(c).len() == c.heavy.len() + c.recent.len());
    assert(positions(c) == lead(keys_of(c.heavy + c.recent), 2, contents(c).len() as int));
    lemma_gather_owed(c, a, dtype, b, out);
}

/// Whether a key and a value have this type, batch, number of heads and number of features.
pub open spec fn one_of(e: Entry, dtype: DType, b: usize, g: usize, d: usize) -> bool {
    &&& e.k.dtype == dtype && e.v.dtype == dtype
    &&& e.k.dims.len() == 4 && e.k.dims[2] > 0
    &&& e.k.dims == seq![b, g, e.k.dims[2], d]
    &&& e.v.dims == e.k.dims
}

} // verus!
