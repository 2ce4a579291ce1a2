//! When the parts of the model are bound to succeed.

use crate::array::{
    Array, addressable, aligned, alike, arange, batch, bulk, cat_result, contiguous_result, count,
    dims_2, dims_3, dims_4, expand_result, expandable, join_fits, joinable, joint, joint_dims, lead,
    multiplies, narrow_result, normalises, reshape_result, scalar, storable, swapped,
    transpose_result, zeros_result,
};
use crate::attention::{
    AttentionView, attend_result, attention_built, copies, heads_result, joined_result,
    masked_result, products_result, read_result, repeat_result, scores_result, spread_result,
    states_result, stored_result, usable,
};
use crate::cache::{
    CacheView, DECAY, Entry, admitted, averaged_result, empty_cache, gather_result, insert_result,
    keys_of, least, raised_result, ready, refreshed, rescored, score_result, scores_of,
    share_result, update_result, values_of,
};
use crate::config::Config;
use crate::decoder::{LayerView, fed_result, layer_built, layer_result};
use crate::language::{LanguageView, head_built, language_built, logits_result};
use crate::laws::{
    lemma_count_2, lemma_count_3, lemma_count_4, lemma_lead_of_copies,
    the_first_entry_is_read_as_it_is,
};
use crate::existence::a_given_mask_exists;
use crate::masks::{attention_mask_result, causal, causal_mask_result, shifted_result};
use crate::mlp::{MlpView, activated_result, mlp_built, mlp_result};
use crate::model::{
    Masks, ModelView, Run, caches_of, decode_result, layers_built, mask_result, model_built, passed,
    stack_result, took,
};
use crate::nn::{
    LinearView, NormView, embed_result, indexes, knows, linear_result, norm_result, with_last,
};
use crate::number::{inverse_root_result, number_result};
use crate::retention::{
    a_least_score_exists, contents, full, nothing_is_lost_while_there_is_room,
    recording_attention_keeps_the_entries, taking_in_keeps_the_bounds,
};
use crate::rotary::{
    RotaryView, angles_result, frequencies_result, rotary_result, rotate_result, row_of,
    slice_result, turned_result,
};
use crate::tensor::{
    add_result, cast_result, cos_result, div_result, lemma_count_positive, lemma_lead_nonnegative,
    lemma_one_size_fits, matmul_result, mul_result, scale_result, sin_result, softmax_last_result,
    softmax_result, sum_result,
};
use crate::weights::{WeightsView, decimal};
use candle_core::DType;
use vstd::prelude::*;

verus! {

/// Whether adding a mask to an array with these dimensions is bound to succeed, and to
/// keep them.
pub open spec fn mask_owed(w: Array, mask: Option<Array>) -> bool {
    mask matches Some(m) ==> {
        &&& m.dtype == w.dtype
        &&& addressable(m.dims)
        &&& joint(w.dims, m.dims)
        &&& joint_dims(w.dims, m.dims) == w.dims
    }
}

/// Whether queries, keys and values agree in what attention needs: the element type, the
/// batch and the heads, the features of queries and keys, and the positions of keys and
/// values. Sizes have to fit in a machine word.
pub open spec fn scores_agree(q: Array, k: Array, v: Array) -> bool {
    &&& q.dims.len() == 4 && k.dims.len() == 4 && v.dims.len() == 4
    &&& multiplies(q.dtype) && k.dtype == q.dtype && v.dtype == q.dtype
    &&& k.dims[0] == q.dims[0] && v.dims[0] == q.dims[0]
    &&& k.dims[1] == q.dims[1] && v.dims[1] == q.dims[1]
    &&& k.dims[3] == q.dims[3]
    &&& v.dims[2] == k.dims[2]
    &&& k.dims[2] > 0
    &&& addressable(q.dims) && addressable(k.dims) && addressable(v.dims)
    &&& addressable(q.dims.update(3, k.dims[2]))
    &&& addressable(q.dims.update(3, v.dims[3]))
}

/// Whether attention over these is bound to succeed.
pub open spec fn scores_owed(q: Array, k: Array, v: Array, mask: Option<Array>) -> bool {
    &&& scores_agree(q, k, v)
    &&& mask_owed(Array { dims: q.dims.update(3, k.dims[2]), ..q }, mask)
}

/// Exchanging the last two of four axes leaves the sizes within bounds.
proof fn lemma_turned_fits(dims: Seq<usize>)
    requires
        dims.len() == 4,
        addressable(dims),
    ensures
        addressable(swapped(dims, 2, 3)),
{
    let t = swapped(dims, 2, 3);
    reveal_with_fuel(bulk, 3);
    assert(t.drop_last().drop_last() =~= dims.drop_last().drop_last());
    let (x, c, d) = (bulk(dims.drop_last().drop_last()), dims[2] as nat, dims[3] as nat);
    assert((x * c) * d == (x * d) * c) by (nonlinear_arith);
}

/// Two arrays of rank four with the same batch and heads have as many matrices.
proof fn lemma_same_batch(a: Seq<usize>, b: Seq<usize>)
    requires
        a.len() == 4,
        b.len() == 4,
        a[0] == b[0],
        a[1] == b[1],
    ensures
        batch(a) == batch(b),
{
    assert(a.take(2) =~= b.take(2));
}

/// The products of queries and keys that agree exist.
proof fn lemma_products_owed(q: Array, k: Array, head_dim: int, out: Option<Array>)
    requires
        products_result(q, k, head_dim, out),
        q.dims.len() == 4 && k.dims.len() == 4,
        multiplies(q.dtype) && k.dtype == q.dtype,
        k.dims[0] == q.dims[0] && k.dims[1] == q.dims[1] && k.dims[3] == q.dims[3],
        addressable(q.dims) && addressable(k.dims),
        addressable(q.dims.update(3, k.dims[2])),
    ensures
        out matches Some(w) && w.dtype == q.dtype && w.dims == q.dims.update(3, k.dims[2]),
{
    let f = choose|f: Array| #[trigger]
        inverse_root_result(head_dim, Some(f)) && exists|t: Option<Array>| #[trigger]
            transpose_result(k, 2, 3, t) && match t {
                None => out is None,
                Some(t) => exists|w: Option<Array>| #[trigger]
                    matmul_result(q, t, w) && match w {
                        None => out is None,
                        Some(w) => scale_result(w, f.elems[0], out),
                    },
            };
    let t = choose|t: Array| #[trigger]
        transpose_result(k, 2, 3, Some(t)) && exists|w: Option<Array>| #[trigger]
            matmul_result(q, t, w) && match w {
                None => out is None,
                Some(w) => scale_result(w, f.elems[0], out),
            };
    lemma_turned_fits(k.dims);
    lemma_same_batch(q.dims, t.dims);
    assert(q.dims.update(3, t.dims[3]) =~= q.dims.update(3, k.dims[2]));
    let w = choose|w: Array| #[trigger]
        matmul_result(q, t, Some(w)) && scale_result(w, f.elems[0], out);
    assert(w.dims == q.dims.update(3, k.dims[2]));
}

/// Attention succeeds where queries, keys and values agree and the mask, if there is one,
/// fits the products: there is one row for each query, with the features of the values.
pub proof fn attention_over_what_agrees_succeeds(
    q: Array,
    k: Array,
    v: Array,
    mask: Option<Array>,
    head_dim: int,
    out: Option<Array>,
)
    requires
        scores_result(q, k, v, mask, head_dim, out),
        scores_owed(q, k, v, mask),
    ensures
        out matches Some(o) && o.dtype == q.dtype && o.dims == q.dims.update(3, v.dims[3]),
{
    let w = choose|w: Option<Array>| #[trigger]
        products_result(q, k, head_dim, w) && match w {
            None => out is None,
            Some(w) => exists|m: Option<Array>| #[trigger]
                masked_result(w, mask, m) && match m {
                    None => out is None,
                    Some(m) => if m.dims.last() == 0 {
                        out is None
                    } else {
                        exists|p: Option<Array>| #[trigger]
                            softmax_last_result(m, p) && match p {
                                None => out is None,
                                Some(p) => matmul_result(p, v, out),
                            }
                    },
                },
        };
    lemma_products_owed(q, k, head_dim, w);
    let w = w->Some_0;
    let m = choose|m: Array| #[trigger]
        masked_result(w, mask, Some(m)) && m.dims == w.dims && exists|p: Option<Array>| #[trigger]
            softmax_last_result(m, p) && match p {
                None => out is None,
                Some(p) => matmul_result(p, v, out),
            };
    let p = choose|p: Array| #[trigger]
        softmax_last_result(m, Some(p)) && matmul_result(p, v, out);
    lemma_same_batch(p.dims, v.dims);
    assert(p.dims.update(3, v.dims[3]) =~= q.dims.update(3, v.dims[3]));
}

/// Whether recording the attention that a query gives a key is bound to succeed: both are
/// single-precision arrays that agree in batch, heads and features, with something in
/// them, and sizes fit in a machine word.
pub open spec fn share_owed(query: Array, key: Array) -> bool {
    &&& query.dims.len() == 4 && key.dims.len() == 4
    &&& query.dtype == DType::F32 && key.dtype == DType::F32
    &&& key.dims[0] == query.dims[0] && key.dims[1] == query.dims[1]
    &&& key.dims[3] == query.dims[3]
    &&& query.dims[0] > 0 && query.dims[1] > 0 && query.dims[2] > 0 && key.dims[2] > 0
    &&& addressable(query.dims) && addressable(key.dims)
    &&& addressable(query.dims.update(3, key.dims[2]))
}

/// Whether recording the attention of a query is bound to succeed for every key that a
/// cache holds.
pub open spec fn recording_owed(c: CacheView, query: Array) -> bool {
    forall|p: int|
        0 <= p < contents(c).len() ==> share_owed(query, (#[trigger] contents(c)[p]).k)
}

/// The share of attention between a query and a key that agree exists.
proof fn lemma_share_owed(query: Array, key: Array, factor: u64, heads: u64, out: Option<Array>)
    requires
        share_result(query, key, factor, heads, out),
        share_owed(query, key),
    ensures
        out matches Some(a) && a.dtype == DType::F64 && a.dims == Seq::<usize>::empty(),
{
    let t = choose|t: Array| #[trigger]
        transpose_result(key, 2, 3, Some(t)) && exists|w: Option<Array>| #[trigger]
            matmul_result(query, t, w) && match w {
                None => out is None,
                Some(w) => exists|s: Option<Array>| #[trigger]
                    scale_result(w, factor, s) && match s {
                        None => out is None,
                        Some(s) => exists|p: Option<Array>| #[trigger]
                            softmax_result(s, 1, p) && match p {
                                None => out is None,
                                Some(p) => averaged_result(p, heads, out),
                            },
                    },
            };
    lemma_turned_fits(key.dims);
    lemma_same_batch(query.dims, t.dims);
    assert(query.dims.update(3, t.dims[3]) =~= query.dims.update(3, key.dims[2]));
    let w = choose|w: Array| #[trigger]
        matmul_result(query, t, Some(w)) && exists|s: Option<Array>| #[trigger]
            scale_result(w, factor, s) && match s {
                None => out is None,
                Some(s) => exists|p: Option<Array>| #[trigger]
                    softmax_result(s, 1, p) && match p {
                        None => out is None,
                        Some(p) => averaged_result(p, heads, out),
                    },
            };
    lemma_count_positive(w.dims);
    let s = choose|s: Array| #[trigger]
        scale_result(w, factor, Some(s)) && exists|p: Option<Array>| #[trigger]
            softmax_result(s, 1, p) && match p {
                None => out is None,
                Some(p) => averaged_result(p, heads, out),
            };
    let p = choose|p: Array| #[trigger]
        softmax_result(s, 1, Some(p)) && averaged_result(p, heads, out);
    let total = choose|total: Array| #[trigger]
        sum_result(p, Some(total)) && exists|d: Option<Array>| #[trigger]
            cast_result(total, DType::F64, d) && match d {
                None => out is None,
                Some(d) => div_result(d, scalar(DType::F64, heads), out),
            };
    let d = choose|d: Array| #[trigger]
        cast_result(total, DType::F64, Some(d)) && div_result(d, scalar(DType::F64, heads), out);
    assert(d.dims == Seq::<usize>::empty());
}

/// A score between a query and a key that agree has a next value.
pub(crate) proof fn lemma_score_owed(
    decays: bool,
    query: Array,
    key: Array,
    factor: u64,
    heads: u64,
    score: u64,
    out: Option<u64>,
)
    requires
        score_result(decays, query, key, factor, heads, score, out),
        share_owed(query, key),
    ensures
        out is Some,
{
    let held = scalar(DType::F64, score);
    let fade = scalar(DType::F64, DECAY);
    let a = choose|a: Option<Array>| #[trigger]
        share_result(query, key, factor, heads, a) && match a {
            None => out is None,
            Some(a) => if decays {
                exists|m: Option<Array>| #[trigger]
                    mul_result(held, fade, m) && match m {
                        None => out is None,
                        Some(m) => raised_result(m, a, out),
                    }
            } else {
                raised_result(held, a, out)
            },
        };
    lemma_share_owed(query, key, factor, heads, a);
    let a = a->Some_0;
    if decays {
        let m = choose|m: Array| #[trigger]
            mul_result(held, fade, Some(m)) && raised_result(m, a, out);
        assert(add_result(m, a, None) ==> false);
    } else {
        assert(add_result(held, a, None) ==> false);
    }
}

/// Recording attention succeeds where the query agrees with every key that is held.
pub proof fn attention_between_what_agrees_is_recorded(
    c: CacheView,
    query: Array,
    n: CacheView,
    ok: bool,
)
    requires
        update_result(c, query, n, ok),
        recording_owed(c, query),
    ensures
        ok,
{
    assert(!inverse_root_result(c.head_dim as int, None));
    assert(!number_result(c.num_heads as int, None));
    let (f, h): (u64, u64) = choose|f: u64, h: u64| #[trigger] rescored(c, query, f, h, n, ok);
    let (hk, hs, ht) = (keys_of(c.heavy), scores_of(c.heavy), scores_of(n.heavy));
    let (rk, rs, rt) = (keys_of(c.recent), scores_of(c.recent), scores_of(n.recent));
    let i = choose|i: int| #[trigger]
        refreshed(true, query, f, h, hk, hs, ht, i) && if i == c.heavy.len() {
            exists|j: int| #[trigger]
                refreshed(false, query, f, h, rk, rs, rt, j) && ok == (j == c.recent.len())
        } else {
            n.recent == c.recent && !ok
        };
    if i < c.heavy.len() {
        assert(contents(c)[i].k == hk[i]);
        lemma_score_owed(true, query, hk[i], f, h, hs[i], None);
    }
    let j = choose|j: int| #[trigger]
        refreshed(false, query, f, h, rk, rs, rt, j) && ok == (j == c.recent.len());
    if j < c.recent.len() {
        assert(contents(c)[c.heavy.len() + j].k == rk[j]);
        lemma_score_owed(false, query, rk[j], f, h, rs[j], None);
    }
}

/// Four sizes are in bounds where larger ones are.
proof fn lemma_smaller_4(a: int, b: int, c: int, d: int, w: int, x: int, y: int, z: int)
    requires
        0 <= a <= w,
        0 <= b <= x,
        0 <= c <= y,
        0 <= d <= z,
    ensures
        ((a * b) * c) * d <= ((w * x) * y) * z,
{
    assert(0 <= a * b <= w * x) by (nonlinear_arith)
        requires
            0 <= a <= w,
            0 <= b <= x,
    ;
    assert(0 <= (a * b) * c <= (w * x) * y) by (nonlinear_arith)
        requires
            0 <= a * b <= w * x,
            0 <= c <= y,
    ;
    assert(((a * b) * c) * d <= ((w * x) * y) * z) by (nonlinear_arith)
        requires
            0 <= (a * b) * c <= (w * x) * y,
            0 <= d <= z,
    ;
}

/// Without an axis of size zero, all sizes count.
proof fn lemma_bulk_is_count(dims: Seq<usize>)
    requires
        forall|k: int| 0 <= k < dims.len() ==> #[trigger] dims[k] > 0,
    ensures
        bulk(dims) == count(dims),
    decreases dims.len(),
{
    if dims.len() > 0 {
        let front = dims.drop_last();
        assert forall|k: int| 0 <= k < front.len() implies #[trigger] front[k] > 0 by {
            assert(dims[k] > 0);
        }
        lemma_bulk_is_count(front);
        assert(dims[dims.len() - 1] > 0);
    }
}

/// Four sizes whose product fits in a machine word.
pub(crate) proof fn lemma_fits_4(a: usize, b: usize, c: usize, d: usize)
    requires
        a > 0 && b > 0 && c > 0 && d > 0,
        ((a * b) * c) * d <= usize::MAX,
    ensures
        addressable(dims_4(a, b, c, d)),
{
    lemma_count_4(a, b, c, d);
    lemma_bulk_is_count(dims_4(a, b, c, d));
}

/// Three sizes whose product fits in a machine word.
proof fn lemma_fits_3(a: usize, b: usize, c: usize)
    requires
        a > 0 && b > 0 && c > 0,
        (a * b) * c <= usize::MAX,
    ensures
        addressable(dims_3(a, b, c)),
{
    lemma_count_3(a, b, c);
    lemma_bulk_is_count(dims_3(a, b, c));
}

/// Two sizes whose product fits in a machine word.
pub(crate) proof fn lemma_fits_2(a: usize, b: usize)
    requires
        a > 0 && b > 0,
        a * b <= usize::MAX,
    ensures
        addressable(dims_2(a, b)),
{
    lemma_count_2(a, b);
    lemma_bulk_is_count(dims_2(a, b));
}

/// Whether a linear layer takes so many features of one element type to so many.
pub open spec fn projects(l: LinearView, dtype: DType, input: int, output: int) -> bool {
    &&& l.weight.dims.len() == 2
    &&& l.weight.dims[0] == output
    &&& l.weight.dims[1] == input
    &&& l.weight.dtype == dtype
    &&& l.bias matches Some(b) ==> b.dtype == dtype
}

/// A linear layer that takes the features of its input yields features for each position.
proof fn lemma_projection_owed(l: LinearView, x: Array, output: usize, out: Option<Array>)
    requires
        linear_result(l, x, out),
        x.dims.len() == 3,
        x.dims[0] > 0 && x.dims[1] > 0 && x.dims[2] > 0 && output > 0,
        multiplies(x.dtype),
        projects(l, x.dtype, x.dims[2] as int, output as int),
        (x.dims[0] * x.dims[1]) * x.dims[2] <= usize::MAX,
        (x.dims[0] * x.dims[1]) * output <= usize::MAX,
    ensures
        out matches Some(t) && t.dtype == x.dtype && t.dims == dims_3(x.dims[0], x.dims[1], output),
{
    assert(x.dims =~= dims_3(x.dims[0], x.dims[1], x.dims[2]));
    assert(with_last(x.dims, output) =~= dims_3(x.dims[0], x.dims[1], output));
    lemma_fits_3(x.dims[0], x.dims[1], x.dims[2]);
    lemma_fits_3(x.dims[0], x.dims[1], output);
    lemma_count_positive(x.dims.drop_last());
    assert(x.dims.last() == x.dims[2]);
}

/// Heads made from a projection of as many features.
proof fn lemma_heads_owed(l: LinearView, x: Array, heads: usize, d: usize, out: Option<Array>)
    requires
        heads_result(l, x, heads, d, out),
        x.dims.len() == 3,
        x.dims[0] > 0 && x.dims[1] > 0 && x.dims[2] > 0 && heads > 0 && d > 0,
        multiplies(x.dtype),
        projects(l, x.dtype, x.dims[2] as int, heads * d),
        (x.dims[0] * x.dims[1]) * x.dims[2] <= usize::MAX,
        ((x.dims[0] * x.dims[1]) * heads) * d <= usize::MAX,
    ensures
        out matches Some(t) && t.dtype == x.dtype && t.dims == dims_4(
            x.dims[0],
            heads,
            x.dims[1],
            d,
        ),
{
    let (b, s) = (x.dims[0], x.dims[1]);
    let width = l.weight.dims[0];
    assert((b * s) * width == ((b * s) * heads) * d) by (nonlinear_arith)
        requires
            width == heads * d,
    ;
    assert(width > 0) by (nonlinear_arith)
        requires
            width == heads * d,
            heads > 0,
            d > 0,
    ;
    let p = choose|p: Option<Array>| #[trigger]
        linear_result(l, x, p) && match p {
            None => out is None,
            Some(p) => exists|r: Option<Array>| #[trigger]
                reshape_result(p, dims_4(b, s, heads, d), r) && match r {
                    None => out is None,
                    Some(r) => transpose_result(r, 1, 2, out),
                },
        };
    lemma_projection_owed(l, x, width, p);
    let p = p->Some_0;
    lemma_fits_3(b, s, width);
    lemma_fits_4(b, s, heads, d);
    lemma_count_3(b, s, width);
    lemma_count_4(b, s, heads, d);
    let r = choose|r: Array| #[trigger]
        reshape_result(p, dims_4(b, s, heads, d), Some(r)) && transpose_result(r, 1, 2, out);
    assert(swapped(r.dims, 1, 2) =~= dims_4(b, heads, s, d));
}

/// Whether there are angles of one element type for heads of `d` features.
pub open spec fn turns_heads(r: RotaryView, dtype: DType, d: int) -> bool {
    &&& r.cos.dtype == dtype && r.sin.dtype == dtype
    &&& r.cos.dims.len() == 2
    &&& r.sin.dims == r.cos.dims
    &&& 2 * r.cos.dims[1] == d
}

/// Taking angles that exist.
proof fn lemma_slice_owed(a: Array, offset: int, len: usize, out: Option<Array>)
    requires
        slice_result(a, offset, len, out),
        a.dims.len() == 2,
        storable(a.dtype),
        0 <= offset && offset + len <= a.dims[0],
        len > 0 && a.dims[1] > 0,
        len * a.dims[1] <= usize::MAX,
    ensures
        out matches Some(t) && t.dtype == a.dtype && t.dims == dims_2(len, a.dims[1]),
{
    let n = choose|n: Array| #[trigger]
        narrow_result(a, 0, offset, len, Some(n)) && contiguous_result(n, out);
    assert(n.dims =~= dims_2(len, a.dims[1]));
    lemma_fits_2(len, a.dims[1]);
}

/// Turning heads that there are angles for.
proof fn lemma_turned_owed(x: Array, cos: Array, sin: Array, out: Option<Array>)
    requires
        turned_result(x, cos, sin, out),
        x.dims.len() == 4,
        x.dims[2] > 0 && x.dims[3] > 0,
        multiplies(x.dtype) && cos.dtype == x.dtype && sin.dtype == x.dtype,
        cos.dims.len() == 2,
        sin.dims == cos.dims,
        2 * cos.dims[1] == x.dims[3],
        x.dims[2] <= cos.dims[0],
        addressable(x.dims),
    ensures
        out matches Some(t) && t.dtype == x.dtype && t.dims == x.dims,
{
    assert(!contiguous_result(x, None));
}

/// Rotating queries and keys that there are angles for.
pub(crate) proof fn lemma_rotation_owed(
    r: RotaryView,
    q: Array,
    k: Array,
    offset: int,
    out: Option<(Array, Array)>,
)
    requires
        rotate_result(r, q, k, offset, out),
        q.dims.len() == 4 && k.dims.len() == 4,
        q.dims[2] > 0 && q.dims[3] > 0,
        k.dims[2] == q.dims[2] && k.dims[3] == q.dims[3],
        multiplies(q.dtype) && k.dtype == q.dtype,
        turns_heads(r, q.dtype, q.dims[3] as int),
        0 <= offset && offset + q.dims[2] <= r.cos.dims[0],
        addressable(q.dims) && addressable(k.dims),
        q.dims[2] * q.dims[3] <= usize::MAX,
    ensures
        out matches Some((qe, ke)) && qe.dtype == q.dtype && qe.dims == q.dims && ke.dtype
            == q.dtype && ke.dims == k.dims,
{
    let (len, half) = (q.dims[2], r.cos.dims[1]);
    assert(len * half <= len * q.dims[3]) by (nonlinear_arith)
        requires
            half <= q.dims[3],
    ;
    let c = choose|c: Option<Array>| #[trigger]
        slice_result(r.cos, offset, len, c) && match c {
            None => out is None,
            Some(c) => exists|s: Option<Array>| #[trigger]
                slice_result(r.sin, offset, len, s) && match s {
                    None => out is None,
                    Some(s) => exists|qe: Option<Array>| #[trigger]
                        turned_result(q, c, s, qe) && match qe {
                            None => out is None,
                            Some(qe) => exists|ke: Option<Array>| #[trigger]
                                turned_result(k, c, s, ke) && out == match ke {
                                    None => None,
                                    Some(ke) => Some((qe, ke)),
                                },
                        },
                },
        };
    lemma_slice_owed(r.cos, offset, len, c);
    let c = c->Some_0;
    let s = choose|s: Option<Array>| #[trigger]
        slice_result(r.sin, offset, len, s) && match s {
            None => out is None,
            Some(s) => exists|qe: Option<Array>| #[trigger]
                turned_result(q, c, s, qe) && match qe {
                    None => out is None,
                    Some(qe) => exists|ke: Option<Array>| #[trigger]
                        turned_result(k, c, s, ke) && out == match ke {
                            None => None,
                            Some(ke) => Some((qe, ke)),
                        },
                },
        };
    lemma_slice_owed(r.sin, offset, len, s);
    let s = s->Some_0;
    let qe = choose|qe: Option<Array>| #[trigger]
        turned_result(q, c, s, qe) && match qe {
            None => out is None,
            Some(qe) => exists|ke: Option<Array>| #[trigger]
                turned_result(k, c, s, ke) && out == match ke {
                    None => None,
                    Some(ke) => Some((qe, ke)),
                },
        };
    lemma_turned_owed(q, c, s, qe);
    let qe = qe->Some_0;
    let ke = choose|ke: Option<Array>| #[trigger]
        turned_result(k, c, s, ke) && out == match ke {
            None => None,
            Some(ke) => Some((qe, ke)),
        };
    lemma_turned_owed(k, c, s, ke);
}

/// Whether the parts of an attention layer agree with one another and with inputs of this
/// element type.
pub open spec fn attention_agrees(a: AttentionView, dtype: DType) -> bool {
    &&& multiplies(dtype)
    &&& a.num_heads > 0 && a.head_dim > 0
    &&& a.num_heads == a.num_kv_heads * a.num_kv_groups
    &&& a.hidden_size == a.num_heads * a.head_dim
    &&& projects(a.q, dtype, a.hidden_size as int, a.hidden_size as int)
    &&& projects(a.k, dtype, a.hidden_size as int, a.num_kv_heads * a.head_dim)
    &&& projects(a.v, dtype, a.hidden_size as int, a.num_kv_heads * a.head_dim)
    &&& projects(a.o, dtype, a.hidden_size as int, a.hidden_size as int)
    &&& turns_heads(a.rotary, dtype, a.head_dim as int)
}

/// Whether there is room for what a layer computes from `s` positions for each member of
/// a batch, of which it reads `p` with those before them: sizes fit in a machine word.
pub open spec fn room(a: AttentionView, b: int, s: int, p: int) -> bool {
    &&& ((b * a.num_heads) * p) * a.head_dim <= usize::MAX
    &&& ((b * a.num_heads) * s) * p <= usize::MAX
}

/// There are key heads, and no more than query heads.
proof fn lemma_head_counts(a: AttentionView)
    requires
        a.num_heads > 0,
        a.num_heads == a.num_kv_heads * a.num_kv_groups,
    ensures
        0 < a.num_kv_heads <= a.num_heads,
        0 < a.num_kv_groups,
{
    let (h, g, n) = (a.num_heads as int, a.num_kv_heads as int, a.num_kv_groups as int);
    assert(0 < g <= h && 0 < n) by (nonlinear_arith)
        requires
            h > 0,
            h == g * n,
            g >= 0,
            n >= 0,
    ;
}

/// The heads of queries, keys and values that a layer makes.
proof fn lemma_states_owed(
    a: AttentionView,
    x: Array,
    offset: int,
    out: Option<(Array, Array, Array)>,
)
    requires
        states_result(a, x, offset, out),
        attention_agrees(a, x.dtype),
        x.dims.len() == 3,
        x.dims[0] > 0 && x.dims[1] > 0,
        x.dims[2] == a.hidden_size,
        0 <= offset && offset + x.dims[1] <= a.rotary.cos.dims[0],
        ((x.dims[0] * a.num_heads) * x.dims[1]) * a.head_dim <= usize::MAX,
    ensures
        out matches Some((q, k, v)) && {
            &&& q.dtype == x.dtype && k.dtype == x.dtype && v.dtype == x.dtype
            &&& q.dims == dims_4(x.dims[0], a.num_heads, x.dims[1], a.head_dim)
            &&& k.dims == dims_4(x.dims[0], a.num_kv_heads, x.dims[1], a.head_dim)
            &&& v.dims == k.dims
        },
{
    let (b, s, h, g, d) = (x.dims[0], x.dims[1], a.num_heads, a.num_kv_heads, a.head_dim);
    lemma_head_counts(a);
    lemma_smaller_4(b as int, g as int, s as int, d as int, b as int, h as int, s as int, d as int);
    lemma_smaller_4(1, 1, s as int, d as int, b as int, h as int, s as int, d as int);
    assert((1 * 1) * s == s);
    assert(((b * s) * h) * d == ((b * h) * s) * d) by (nonlinear_arith);
    assert(((b * s) * g) * d == ((b * g) * s) * d) by (nonlinear_arith);
    assert((b * s) * a.hidden_size == ((b * s) * h) * d) by (nonlinear_arith)
        requires
            a.hidden_size == h * d,
    ;
    assert(a.hidden_size > 0) by (nonlinear_arith)
        requires
            a.hidden_size == h * d,
            h > 0,
            d > 0,
    ;
    lemma_fits_4(b, h, s, d);
    lemma_fits_4(b, g, s, d);
    let q = choose|q: Option<Array>| #[trigger]
        heads_result(a.q, x, h, d, q) && match q {
            None => out is None,
            Some(q) => exists|k: Option<Array>| #[trigger]
                heads_result(a.k, x, g, d, k) && match k {
                    None => out is None,
                    Some(k) => exists|v: Option<Array>| #[trigger]
                        heads_result(a.v, x, g, d, v) && match v {
                            None => out is None,
                            Some(v) => exists|r: Option<(Array, Array)>| #[trigger]
                                rotate_result(a.rotary, q, k, offset, r) && out == match r {
                                    None => None,
                                    Some((qe, ke)) => Some((qe, ke, v)),
                                },
                        },
                },
        };
    lemma_heads_owed(a.q, x, h, d, q);
    let q = q->Some_0;
    let k = choose|k: Option<Array>| #[trigger]
        heads_result(a.k, x, g, d, k) && match k {
            None => out is None,
            Some(k) => exists|v: Option<Array>| #[trigger]
                heads_result(a.v, x, g, d, v) && match v {
                    None => out is None,
                    Some(v) => exists|r: Option<(Array, Array)>| #[trigger]
                        rotate_result(a.rotary, q, k, offset, r) && out == match r {
                            None => None,
                            Some((qe, ke)) => Some((qe, ke, v)),
                        },
                },
        };
    lemma_heads_owed(a.k, x, g, d, k);
    let k = k->Some_0;
    let v = choose|v: Option<Array>| #[trigger]
        heads_result(a.v, x, g, d, v) && match v {
            None => out is None,
            Some(v) => exists|r: Option<(Array, Array)>| #[trigger]
                rotate_result(a.rotary, q, k, offset, r) && out == match r {
                    None => None,
                    Some((qe, ke)) => Some((qe, ke, v)),
                },
        };
    lemma_heads_owed(a.v, x, g, d, v);
    let v = v->Some_0;
    let r = choose|r: Option<(Array, Array)>| #[trigger]
        rotate_result(a.rotary, q, k, offset, r) && out == match r {
            None => None,
            Some((qe, ke)) => Some((qe, ke, v)),
        };
    lemma_rotation_owed(a.rotary, q, k, offset, r);
}

/// Whether a cached key and value agree with a layer, for inputs of this element type and
/// batch.
pub open spec fn entry_agrees(e: Entry, a: AttentionView, dtype: DType, b: usize) -> bool {
    &&& e.k.dtype == dtype && e.v.dtype == dtype
    &&& e.k.dims.len() == 4
    &&& e.k.dims[0] == b
    &&& e.k.dims[1] == a.num_kv_heads
    &&& e.k.dims[2] > 0
    &&& e.k.dims[3] == a.head_dim
    &&& e.v.dims == e.k.dims
}

/// Whether all that a cache holds agrees with a layer, for inputs of this element type and
/// batch.
pub open spec fn cache_agrees(c: CacheView, a: AttentionView, dtype: DType, b: usize) -> bool {
    &&& c.bounded()
    &&& c.recent_capacity > 0
    &&& forall|p: int|
        0 <= p < contents(c).len() ==> entry_agrees(#[trigger] contents(c)[p], a, dtype, b)
}

/// The number of positions that keys hold together.
pub open spec fn spans(es: Seq<Entry>) -> int {
    lead(keys_of(es), 2, es.len() as int)
}

/// The number of positions that a cache holds.
pub open spec fn positions(c: CacheView) -> int {
    spans(contents(c))
}

/// The total size of arrays depends on those that are counted alone.
proof fn lemma_lead_of_prefix(a: Seq<Array>, b: Seq<Array>, dim: int, n: int)
    requires
        0 <= n <= a.len(),
        n <= b.len(),
        forall|k: int| 0 <= k < n ==> (#[trigger] a[k]).dims == b[k].dims,
    ensures
        lead(a, dim, n) == lead(b, dim, n),
    decreases n,
{
    if n > 0 {
        assert(a[n - 1].dims == b[n - 1].dims);
        lemma_lead_of_prefix(a, b, dim, n - 1);
    }
}

/// One more key adds its positions.
proof fn lemma_spans_push(es: Seq<Entry>, e: Entry)
    ensures
        spans(es.push(e)) == spans(es) + e.k.dims[2],
{
    let n = es.len() as int;
    assert forall|k: int| 0 <= k < n implies (#[trigger] keys_of(es)[k]).dims == keys_of(
        es.push(e),
    )[k].dims by {
        assert(es.push(e)[k] == es[k]);
    }
    lemma_lead_of_prefix(keys_of(es), keys_of(es.push(e)), 2, n);
    assert(keys_of(es.push(e))[n] == e.k);
}

/// The positions of two lists of keys.
proof fn lemma_spans_add(a: Seq<Entry>, b: Seq<Entry>)
    ensures
        spans(a + b) == spans(a) + spans(b),
    decreases b.len(),
{
    if b.len() == 0 {
        assert(a + b =~= a);
    } else {
        let front = b.drop_last();
        lemma_spans_add(a, front);
        lemma_spans_push(a + front, b.last());
        lemma_spans_push(front, b.last());
        assert((a + front).push(b.last()) =~= a + b);
        assert(front.push(b.last()) =~= b);
    }
}

/// Putting one key in place of another exchanges their positions.
proof fn lemma_spans_update(es: Seq<Entry>, i: int, e: Entry)
    requires
        0 <= i < es.len(),
    ensures
        spans(es.update(i, e)) == spans(es) - es[i].k.dims[2] + e.k.dims[2],
    decreases es.len(),
{
    let (front, last) = (es.drop_last(), es.last());
    assert(front.push(last) =~= es);
    lemma_spans_push(front, last);
    if i == es.len() - 1 {
        lemma_spans_push(front, e);
        assert(front.push(e) =~= es.update(i, e));
    } else {
        lemma_spans_update(front, i, e);
        lemma_spans_push(front.update(i, e), last);
        assert(front.update(i, e).push(last) =~= es.update(i, e));
    }
}

/// Leaving out the first key leaves out its positions.
proof fn lemma_spans_drop_first(es: Seq<Entry>)
    requires
        es.len() > 0,
    ensures
        spans(es.drop_first()) == spans(es) - es[0].k.dims[2],
{
    let first = seq![es[0]];
    lemma_spans_add(first, es.drop_first());
    assert(first + es.drop_first() =~= es);
    assert(Seq::<Entry>::empty().push(es[0]) =~= first);
    lemma_spans_push(Seq::empty(), es[0]);
}

/// What a cache holds after an entry that agrees has joined it.
proof fn lemma_taken_in_agrees(
    c: CacheView,
    e: Entry,
    a: AttentionView,
    dtype: DType,
    b: usize,
)
    requires
        cache_agrees(c, a, dtype, b),
        entry_agrees(e, a, dtype, b),
    ensures
        cache_agrees(admitted(c, e), a, dtype, b),
        contents(admitted(c, e)).len() > 0,
        positions(admitted(c, e)) <= positions(c) + e.k.dims[2],
{
    let n = admitted(c, e);
    let h = c.heavy.len() as int;
    taking_in_keeps_the_bounds(c, e);
    if h > 0 {
        a_least_score_exists(scores_of(c.heavy));
    }
    let i = least(scores_of(c.heavy));
    assert forall|p: int| 0 <= p < h implies entry_agrees(#[trigger] c.heavy[p], a, dtype, b) by {
        assert(contents(c)[p] == c.heavy[p]);
    }
    assert forall|p: int| 0 <= p < c.recent.len() implies entry_agrees(
        #[trigger] c.recent[p],
        a,
        dtype,
        b,
    ) by {
        assert(contents(c)[h + p] == c.recent[p]);
    }
    assert forall|p: int| 0 <= p < contents(n).len() implies entry_agrees(
        #[trigger] contents(n)[p],
        a,
        dtype,
        b,
    ) by {
        if p < n.heavy.len() {
            assert(contents(n)[p] == n.heavy[p]);
        } else {
            assert(contents(n)[p] == n.recent[p - n.heavy.len()]);
        }
    }
    lemma_spans_add(c.heavy, c.recent);
    lemma_spans_add(n.heavy, n.recent);
    if c.recent.len() < c.recent_capacity {
        lemma_spans_push(c.recent, e);
    } else {
        let oldest = c.recent.first();
        lemma_spans_drop_first(c.recent);
        lemma_spans_push(c.recent.drop_first(), e);
        lemma_spans_push(c.heavy, oldest);
        if h > 0 {
            lemma_spans_update(c.heavy, i, oldest);
        }
    }
}

/// No array is larger than all together.
proof fn lemma_lead_covers(parts: Seq<Array>, dim: int, n: int, p: int)
    requires
        0 <= p < n,
    ensures
        parts[p].dims[dim] <= lead(parts, dim, n),
    decreases n,
{
    if p < n - 1 {
        lemma_lead_covers(parts, dim, n - 1, p);
    } else {
        lemma_lead_nonnegative(parts, dim, n - 1);
    }
}

/// Joining arrays of heads that agree.
proof fn lemma_join_owed(
    parts: Seq<Array>,
    dtype: DType,
    b: usize,
    g: usize,
    d: usize,
    out: Option<Array>,
)
    requires
        cat_result(parts, 2, out),
        parts.len() > 0,
        storable(dtype),
        b > 0 && g > 0 && d > 0,
        forall|p: int|
            0 <= p < parts.len() ==> {
                &&& (#[trigger] parts[p]).dtype == dtype
                &&& parts[p].dims.len() == 4
                &&& parts[p].dims[0] == b
                &&& parts[p].dims[1] == g
                &&& parts[p].dims[2] > 0
                &&& parts[p].dims[3] == d
            },
        ((b * g) * lead(parts, 2, parts.len() as int)) * d <= usize::MAX,
    ensures
        0 < lead(parts, 2, parts.len() as int) <= usize::MAX,
        out matches Some(t) && t.dtype == dtype && t.dims == dims_4(
            b,
            g,
            lead(parts, 2, parts.len() as int) as usize,
            d,
        ),
{
    let n = parts.len() as int;
    let all = lead(parts, 2, n);
    assert(parts[0].dims[2] > 0);
    lemma_lead_covers(parts, 2, n, 0);
    lemma_smaller_4(1, 1, all, 1, b as int, g as int, all, d as int);
    assert(((1 * 1) * all) * 1 == all);
    assert forall|p: int| 0 <= p < n implies addressable((#[trigger] parts[p]).dims) by {
        let s = parts[p].dims[2];
        lemma_lead_covers(parts, 2, n, p);
        lemma_smaller_4(b as int, g as int, s as int, d as int, b as int, g as int, all, d as int);
        lemma_fits_4(b, g, s, d);
        assert(parts[p].dims =~= dims_4(b, g, s, d));
    }
    lemma_fits_4(b, g, all as usize, d);
    assert(parts[0].dims.update(2, all as usize) =~= dims_4(b, g, all as usize, d));
    assert(joinable(parts, 2));
    assert(out is Some);
    if n == 1 {
        assert(lead(parts, 2, 0) == 0);
        assert(all == parts[0].dims[2]);
    }
    assert(out->Some_0.dims =~= dims_4(b, g, all as usize, d));
}

/// Reading all keys and values of a cache that agrees with a layer.
pub(crate) proof fn lemma_gather_owed(
    c: CacheView,
    a: AttentionView,
    dtype: DType,
    b: usize,
    out: Option<(Array, Array)>,
)
    requires
        gather_result(c, out),
        cache_agrees(c, a, dtype, b),
        contents(c).len() > 0,
        storable(dtype),
        b > 0 && a.num_kv_heads > 0 && a.head_dim > 0,
        ((b * a.num_kv_heads) * positions(c)) * a.head_dim <= usize::MAX,
    ensures
        0 < positions(c) <= usize::MAX,
        out matches Some((ks, vs)) && {
            &&& ks.dtype == dtype && vs.dtype == dtype
            &&& ks.dims == dims_4(b, a.num_kv_heads, positions(c) as usize, a.head_dim)
            &&& vs.dims == ks.dims
        },
{
    let all = contents(c);
    let (ks, vs) = (keys_of(all), values_of(all));
    assert forall|p: int| 0 <= p < all.len() implies entry_agrees(all[p], a, dtype, b) && (
    #[trigger] ks[p]) == all[p].k && vs[p] == all[p].v by {
        assert(entry_agrees(all[p], a, dtype, b));
    }
    assert forall|p: int| 0 <= p < all.len() implies (#[trigger] vs[p]).dims == ks[p].dims by {
        assert(ks[p] == all[p].k);
    }
    lemma_lead_of_prefix(vs, ks, 2, all.len() as int);
    let k = choose|k: Option<Array>| #[trigger]
        cat_result(ks, 2, k) && match k {
            None => out is None,
            Some(k) => exists|v: Option<Array>| #[trigger]
                cat_result(vs, 2, v) && out == match v {
                    None => None,
                    Some(v) => Some((k, v)),
                },
        };
    lemma_join_owed(ks, dtype, b, a.num_kv_heads, a.head_dim, k);
    let k = k->Some_0;
    let v = choose|v: Option<Array>| #[trigger]
        cat_result(vs, 2, v) && out == match v {
            None => None,
            Some(v) => Some((k, v)),
        };
    assert forall|p: int| 0 <= p < vs.len() implies {
        &&& (#[trigger] vs[p]).dtype == dtype
        &&& vs[p].dims.len() == 4
        &&& vs[p].dims[0] == b
        &&& vs[p].dims[1] == a.num_kv_heads
        &&& vs[p].dims[2] > 0
        &&& vs[p].dims[3] == a.head_dim
    } by {
        assert(ks[p] == all[p].k);
    }
    lemma_join_owed(vs, dtype, b, a.num_kv_heads, a.head_dim, v);
}

/// Whether what a layer may have cached agrees with it. A layer without a cache needs a
/// capacity that can be used.
pub open spec fn held_agrees(
    a: AttentionView,
    dtype: DType,
    b: usize,
    total_capacity: usize,
) -> bool {
    match a.cache {
        None => usable(total_capacity),
        Some(c) => cache_agrees(c, a, dtype, b),
    }
}

/// The number of positions that a layer may have cached.
pub open spec fn held(cache: Option<CacheView>) -> int {
    match cache {
        None => 0,
        Some(c) => positions(c),
    }
}

/// Whether a key and a value can be stored without letting go of others.
pub open spec fn has_room(cache: Option<CacheView>) -> bool {
    cache matches Some(c) ==> !full(c)
}

/// Recording attention leaves what is held in agreement with a layer.
proof fn lemma_recorded_agrees(
    c: CacheView,
    q: Array,
    u: CacheView,
    done: bool,
    a: AttentionView,
    dtype: DType,
    b: usize,
)
    requires
        update_result(c, q, u, done),
        cache_agrees(c, a, dtype, b),
    ensures
        cache_agrees(u, a, dtype, b),
        positions(u) == positions(c),
{
    recording_attention_keeps_the_entries(c, q, u, done);
    let (x, y) = (contents(c), contents(u));
    assert(keys_of(x) =~= keys_of(c.heavy) + keys_of(c.recent));
    assert(keys_of(y) =~= keys_of(u.heavy) + keys_of(u.recent));
    assert(values_of(x) =~= values_of(c.heavy) + values_of(c.recent));
    assert(values_of(y) =~= values_of(u.heavy) + values_of(u.recent));
    assert forall|p: int| 0 <= p < y.len() implies entry_agrees(#[trigger] y[p], a, dtype, b) by {
        assert(entry_agrees(x[p], a, dtype, b));
        assert(keys_of(x)[p] == x[p].k && keys_of(y)[p] == y[p].k);
        assert(values_of(x)[p] == x[p].v && values_of(y)[p] == y[p].v);
    }
}

/// Storing a key and a value that agree with a layer.
proof fn lemma_stored_owed(
    a: AttentionView,
    total_capacity: usize,
    q: Array,
    k: Array,
    v: Array,
    n: Option<CacheView>,
    out: Option<(Array, Array)>,
)
    requires
        stored_result(
            a.cache,
            empty_cache(total_capacity as nat, a.num_heads as nat, a.head_dim as nat),
            q,
            k,
            v,
            n,
            out,
        ),
        entry_agrees(Entry { k, v, score: 0 }, a, k.dtype, k.dims[0]),
        held_agrees(a, k.dtype, k.dims[0], total_capacity),
        storable(k.dtype),
        k.dims[0] > 0 && a.num_kv_heads > 0 && a.head_dim > 0,
        ((k.dims[0] * a.num_kv_heads) * (held(a.cache) + k.dims[2])) * a.head_dim <= usize::MAX,
    ensures
        n matches Some(m) && {
            &&& cache_agrees(m, a, k.dtype, k.dims[0])
            &&& positions(m) <= held(a.cache) + k.dims[2]
            &&& match out {
                Some((ks, vs)) => {
                    &&& ks.dtype == k.dtype && vs.dtype == k.dtype
                    &&& 0 < positions(m) <= usize::MAX
                    &&& ks.dims == dims_4(
                        k.dims[0],
                        a.num_kv_heads,
                        positions(m) as usize,
                        a.head_dim,
                    )
                    &&& vs.dims == ks.dims
                },
                None => !has_room(a.cache) && !ready(m),
            }
            &&& has_room(a.cache) ==> positions(m) == held(a.cache) + k.dims[2]
        },
{
    let e = Entry { k, v, score: 0 };
    let (b, g, d) = (k.dims[0], a.num_kv_heads, a.head_dim);
    match a.cache {
        None => {
            the_first_entry_is_read_as_it_is(
                total_capacity,
                a.num_heads as nat,
                a.head_dim as nat,
                q,
                k,
                v,
                n,
                out,
            );
            let m = n->Some_0;
            assert(contents(m) =~= Seq::<Entry>::empty().push(e));
            lemma_spans_push(Seq::empty(), e);
            assert(k.dims =~= dims_4(b, g, k.dims[2], d));
        },
        Some(c) => {
            let (m, ok): (CacheView, bool) = choose|m: CacheView, ok: bool| #[trigger]
                insert_result(c, q, k, v, m, ok) && n == Some(m) && if ok {
                    gather_result(m, out)
                } else {
                    out is None
                };
            let (u, done): (CacheView, bool) = choose|u: CacheView, done: bool| #[trigger]
                update_result(c, q, u, done) && if ready(u) {
                    ok && m == admitted(u, e)
                } else {
                    !ok && m == u
                };
            lemma_recorded_agrees(c, q, u, done, a, k.dtype, b);
            recording_attention_keeps_the_entries(c, q, u, done);
            if !full(c) {
                nothing_is_lost_while_there_is_room(u, e);
                lemma_spans_push(contents(u), e);
            }
            if ready(u) {
                lemma_taken_in_agrees(u, e, a, k.dtype, b);
                lemma_lead_nonnegative(
                    keys_of(contents(m)),
                    2,
                    contents(m).len() as int,
                );
                lemma_smaller_4(
                    b as int,
                    g as int,
                    positions(m),
                    d as int,
                    b as int,
                    g as int,
                    positions(c) + k.dims[2],
                    d as int,
                );
                lemma_gather_owed(m, a, k.dtype, b, out);
            }
        },
    }
}

/// Repeating heads.
pub(crate) proof fn lemma_spread_owed(
    x: Array,
    groups: usize,
    heads: usize,
    out: Option<Array>,
)
    requires
        spread_result(x, groups, out),
        x.dims.len() == 4,
        x.dims[0] > 0 && x.dims[1] > 0 && x.dims[2] > 0 && x.dims[3] > 0 && groups > 0,
        storable(x.dtype),
        heads == x.dims[1] * groups,
        ((x.dims[0] * heads) * x.dims[2]) * x.dims[3] <= usize::MAX,
    ensures
        out matches Some(t) && t.dtype == x.dtype && t.dims == dims_4(
            x.dims[0],
            heads,
            x.dims[2],
            x.dims[3],
        ),
{
    let (b, g, p, d) = (x.dims[0], x.dims[1], x.dims[2], x.dims[3]);
    let target = dims_4(b, heads, p, d);
    assert(heads > 0) by (nonlinear_arith)
        requires
            heads == g * groups,
            g > 0,
            groups > 0,
    ;
    lemma_fits_4(b, heads, p, d);
    let r = choose|r: Option<Array>| #[trigger]
        repeat_result(x, groups, r) && match r {
            None => out is None,
            Some(r) => contiguous_result(r, out),
        };
    if groups == 1 {
        assert(heads == g) by (nonlinear_arith)
            requires
                heads == g * groups,
                groups == 1,
        ;
        assert(x.dims =~= target);
    } else {
        let parts = copies(x, groups as nat);
        let c = choose|c: Option<Array>| #[trigger]
            cat_result(parts, 2, c) && match c {
                None => r is None,
                Some(c) => reshape_result(c, target, r),
            };
        lemma_lead_of_copies(x, groups as nat, 2, groups as int);
        let all = groups * p;
        assert(((b * g) * all) * d == ((b * heads) * p) * d) by (nonlinear_arith)
            requires
                all == groups * p,
                heads == g * groups,
        ;
        lemma_join_owed(parts, x.dtype, b, g, d, c);
        let c = c->Some_0;
        lemma_count_4(b, g, all as usize, d);
        lemma_count_4(b, heads, p, d);
        lemma_fits_4(b, g, all as usize, d);
        assert(r is Some);
    }
}

/// Heads side by side, projected.
proof fn lemma_joined_owed(a: AttentionView, x: Array, heads: Array, out: Option<Array>)
    requires
        joined_result(a.o, a.hidden_size, x, heads, out),
        attention_agrees(a, x.dtype),
        x.dims.len() == 3,
        x.dims[0] > 0 && x.dims[1] > 0,
        heads.dtype == x.dtype,
        heads.dims == dims_4(x.dims[0], a.num_heads, x.dims[1], a.head_dim),
        ((x.dims[0] * a.num_heads) * x.dims[1]) * a.head_dim <= usize::MAX,
    ensures
        out matches Some(t) && t.dtype == x.dtype && t.dims == dims_3(
            x.dims[0],
            x.dims[1],
            a.hidden_size,
        ),
{
    let (b, s, h, d) = (x.dims[0], x.dims[1], a.num_heads, a.head_dim);
    let target = dims_3(b, s, a.hidden_size);
    assert(((b * s) * h) * d == ((b * h) * s) * d) by (nonlinear_arith);
    assert((b * s) * a.hidden_size == ((b * s) * h) * d) by (nonlinear_arith)
        requires
            a.hidden_size == h * d,
    ;
    assert(a.hidden_size > 0) by (nonlinear_arith)
        requires
            a.hidden_size == h * d,
            h > 0,
            d > 0,
    ;
    lemma_fits_4(b, s, h, d);
    lemma_fits_3(b, s, a.hidden_size);
    lemma_count_4(b, s, h, d);
    lemma_count_3(b, s, a.hidden_size);
    let t = choose|t: Array| #[trigger]
        transpose_result(heads, 1, 2, Some(t)) && exists|r: Option<Array>| #[trigger]
            reshape_result(t, target, r) && match r {
                None => out is None,
                Some(r) => linear_result(a.o, r, out),
            };
    assert(t.dims =~= dims_4(b, s, h, d));
    let r = choose|r: Array| #[trigger]
        reshape_result(t, target, Some(r)) && linear_result(a.o, r, out);
    lemma_projection_owed(a.o, r, a.hidden_size, out);
}

/// Reading keys and values that agree with a layer.
proof fn lemma_read_owed(
    a: AttentionView,
    x: Array,
    mask: Option<Array>,
    q: Array,
    ks: Array,
    vs: Array,
    p: usize,
    out: Option<Array>,
)
    requires
        read_result(a.num_kv_groups, a.head_dim, q, ks, vs, mask, out),
        attention_agrees(a, x.dtype),
        x.dims.len() == 3,
        x.dims[0] > 0 && x.dims[1] > 0,
        q.dtype == x.dtype && ks.dtype == x.dtype && vs.dtype == x.dtype,
        q.dims == dims_4(x.dims[0], a.num_heads, x.dims[1], a.head_dim),
        0 < p <= held(a.cache) + x.dims[1],
        ks.dims == dims_4(x.dims[0], a.num_kv_heads, p, a.head_dim),
        vs.dims == ks.dims,
        0 <= held(a.cache),
        room(a, x.dims[0] as int, x.dims[1] as int, held(a.cache) + x.dims[1]),
        mask_owed(Array { dims: dims_4(x.dims[0], a.num_heads, x.dims[1], p), ..x }, mask),
    ensures
        out matches Some(o) && o.dtype == x.dtype && o.dims == dims_4(
            x.dims[0],
            a.num_heads,
            x.dims[1],
            a.head_dim,
        ),
{
    let (b, s, h, d) = (x.dims[0], x.dims[1], a.num_heads, a.head_dim);
    let most = held(a.cache) + s;
    lemma_head_counts(a);
    lemma_smaller_4(b as int, h as int, p as int, d as int, b as int, h as int, most, d as int);
    lemma_smaller_4(b as int, h as int, s as int, d as int, b as int, h as int, most, d as int);
    lemma_smaller_4(b as int, h as int, s as int, p as int, b as int, h as int, s as int, most);
    let kr = choose|kr: Option<Array>| #[trigger]
        spread_result(ks, a.num_kv_groups, kr) && match kr {
            None => out is None,
            Some(kr) => exists|vr: Option<Array>| #[trigger]
                spread_result(vs, a.num_kv_groups, vr) && match vr {
                    None => out is None,
                    Some(vr) => scores_result(q, kr, vr, mask, d as int, out),
                },
        };
    lemma_spread_owed(ks, a.num_kv_groups, h, kr);
    let kr = kr->Some_0;
    let vr = choose|vr: Option<Array>| #[trigger]
        spread_result(vs, a.num_kv_groups, vr) && match vr {
            None => out is None,
            Some(vr) => scores_result(q, kr, vr, mask, d as int, out),
        };
    lemma_spread_owed(vs, a.num_kv_groups, h, vr);
    let vr = vr->Some_0;
    lemma_fits_4(b, h, s, d);
    lemma_fits_4(b, h, p, d);
    lemma_fits_4(b, h, s, p);
    assert(q.dims.update(3, p) =~= dims_4(b, h, s, p));
    assert(q.dims.update(3, d) =~= dims_4(b, h, s, d));
    attention_over_what_agrees_succeeds(q, kr, vr, mask, d as int, out);
}

/// Whether an attention layer is bound to work on `x` at these positions: its parts agree
/// with one another, with the input and with what it has cached, there are angles for the
/// positions, and sizes fit in a machine word.
pub open spec fn attention_owed(
    a: AttentionView,
    x: Array,
    offset: int,
    total_capacity: usize,
) -> bool {
    &&& attention_agrees(a, x.dtype)
    &&& x.dims.len() == 3
    &&& x.dims[0] > 0 && x.dims[1] > 0
    &&& x.dims[2] == a.hidden_size
    &&& 0 <= offset && offset + x.dims[1] <= a.rotary.cos.dims[0]
    &&& held_agrees(a, x.dtype, x.dims[0], total_capacity)
    &&& room(a, x.dims[0] as int, x.dims[1] as int, held(a.cache) + x.dims[1])
}

/// Whether a mask fits the products of `x` with all keys that a cache holds.
pub open spec fn mask_fits(a: AttentionView, x: Array, n: CacheView, mask: Option<Array>) -> bool {
    mask_owed(
        Array {
            dims: dims_4(x.dims[0], a.num_heads, x.dims[1], positions(n) as usize),
            ..x
        },
        mask,
    )
}

/// An attention layer that is bound to work has a cache afterwards that agrees with it.
/// With a mask that fits the cached keys, it has a result with the shape of its input,
/// unless the cache was full and the scores of its heavy hitters cannot be compared.
pub proof fn a_layer_attends_to_what_agrees(
    a: AttentionView,
    x: Array,
    mask: Option<Array>,
    offset: int,
    total_capacity: usize,
    n: Option<CacheView>,
    out: Option<Array>,
)
    requires
        attend_result(a, x, mask, offset, total_capacity, n, out),
        attention_owed(a, x, offset, total_capacity),
    ensures
        n matches Some(m) && {
            &&& cache_agrees(m, a, x.dtype, x.dims[0])
            &&& positions(m) <= held(a.cache) + x.dims[1]
            &&& has_room(a.cache) ==> positions(m) == held(a.cache) + x.dims[1]
            &&& mask_fits(a, x, m, mask) ==> match out {
                Some(t) => t.dtype == x.dtype && t.dims == x.dims,
                None => !has_room(a.cache) && !ready(m),
            }
        },
{
    let (b, s, h, g, d) = (x.dims[0], x.dims[1], a.num_heads, a.num_kv_heads, a.head_dim);
    let most = held(a.cache) + s;
    if let Some(c) = a.cache {
        lemma_lead_nonnegative(keys_of(contents(c)), 2, contents(c).len() as int);
    }
    lemma_head_counts(a);
    lemma_smaller_4(b as int, h as int, s as int, d as int, b as int, h as int, most, d as int);
    lemma_smaller_4(b as int, g as int, most, d as int, b as int, h as int, most, d as int);
    let fresh = empty_cache(total_capacity as nat, h as nat, d as nat);
    let st = choose|st: Option<(Array, Array, Array)>| #[trigger]
        states_result(a, x, offset, st) && match st {
            None => n == a.cache && out is None,
            Some((q, k, v)) => exists|kv: Option<(Array, Array)>| #[trigger]
                stored_result(a.cache, fresh, q, k, v, n, kv) && match kv {
                    None => out is None,
                    Some((ks, vs)) => exists|o: Option<Array>| #[trigger]
                        read_result(a.num_kv_groups, d, q, ks, vs, mask, o) && match o {
                            None => out is None,
                            Some(o) => joined_result(a.o, a.hidden_size, x, o, out),
                        },
                },
        };
    lemma_states_owed(a, x, offset, st);
    let (q, k, v) = st->Some_0;
    let kv = choose|kv: Option<(Array, Array)>| #[trigger]
        stored_result(a.cache, fresh, q, k, v, n, kv) && match kv {
            None => out is None,
            Some((ks, vs)) => exists|o: Option<Array>| #[trigger]
                read_result(a.num_kv_groups, d, q, ks, vs, mask, o) && match o {
                    None => out is None,
                    Some(o) => joined_result(a.o, a.hidden_size, x, o, out),
                },
        };
    lemma_stored_owed(a, total_capacity, q, k, v, n, kv);
    let m = n->Some_0;
    if mask_fits(a, x, m, mask) && kv is Some {
        let (ks, vs) = kv->Some_0;
        let o = choose|o: Option<Array>| #[trigger]
            read_result(a.num_kv_groups, d, q, ks, vs, mask, o) && match o {
                None => out is None,
                Some(o) => joined_result(a.o, a.hidden_size, x, o, out),
            };
        lemma_read_owed(a, x, mask, q, ks, vs, positions(m) as usize, o);
        lemma_joined_owed(a, x, o->Some_0, out);
        assert(x.dims =~= dims_3(b, s, a.hidden_size));
    }
}

/// Whether the parts of a feed-forward block agree with one another and with inputs of this
/// element type and number of features, under an activation function without a gate of its
/// own.
pub open spec fn mlp_agrees(m: MlpView, dtype: DType, features: int) -> bool {
    &&& m.gate.width() > 0
    &&& projects(m.gate, dtype, features, m.gate.width() as int)
    &&& projects(m.up, dtype, features, m.gate.width() as int)
    &&& projects(m.down, dtype, m.gate.width() as int, features)
    &&& !(m.act is Swiglu)
}

/// A feed-forward block that is bound to succeed does, and keeps the shape.
pub proof fn a_block_takes_what_agrees(m: MlpView, x: Array, out: Option<Array>)
    requires
        mlp_result(m, x, out),
        m.owed(x),
    ensures
        out matches Some(t) && t.dtype == x.dtype && t.dims == x.dims,
{
    let g = choose|g: Array| #[trigger]
        linear_result(m.gate, x, Some(g)) && exists|a: Option<Array>| #[trigger]
            activated_result(m.act, g, a) && match a {
                None => out is None,
                Some(a) => exists|u: Option<Array>| #[trigger]
                    linear_result(m.up, x, u) && match u {
                        None => out is None,
                        Some(u) => exists|p: Option<Array>| #[trigger]
                            mul_result(a, u, p) && match p {
                                None => out is None,
                                Some(p) => linear_result(m.down, p, out),
                            },
                    },
            };
    let a = choose|a: Array| #[trigger]
        activated_result(m.act, g, Some(a)) && exists|u: Option<Array>| #[trigger]
            linear_result(m.up, x, u) && match u {
                None => out is None,
                Some(u) => exists|p: Option<Array>| #[trigger]
                    mul_result(a, u, p) && match p {
                        None => out is None,
                        Some(p) => linear_result(m.down, p, out),
                    },
            };
    assert(m.up.owed(x));
    let u = choose|u: Array| #[trigger]
        linear_result(m.up, x, Some(u)) && exists|p: Option<Array>| #[trigger]
            mul_result(a, u, p) && match p {
                None => out is None,
                Some(p) => linear_result(m.down, p, out),
            };
    let p = choose|p: Array| #[trigger]
        mul_result(a, u, Some(p)) && linear_result(m.down, p, out);
    assert(with_last(p.dims, m.down.width()) =~= x.dims);
    assert(m.down.owed(p));
}

/// Whether the parts of a decoder layer agree with one another and with inputs of this
/// element type.
pub open spec fn layer_agrees(l: LayerView, dtype: DType) -> bool {
    &&& normalises(dtype)
    &&& attention_agrees(l.attn, dtype)
    &&& mlp_agrees(l.mlp, dtype, l.attn.hidden_size as int)
    &&& l.input_norm.weight.dtype == dtype
    &&& l.input_norm.weight.dims == seq![l.attn.hidden_size]
    &&& l.post_norm.weight.dtype == dtype
    &&& l.post_norm.weight.dims == seq![l.attn.hidden_size]
}

/// Whether a decoder layer is bound to work on `x` at these positions.
pub open spec fn layer_owed(l: LayerView, x: Array, offset: int, total_capacity: usize) -> bool {
    &&& layer_agrees(l, x.dtype)
    &&& attention_owed(l.attn, x, offset, total_capacity)
    &&& (x.dims[0] * x.dims[1]) * l.mlp.gate.width() <= usize::MAX
}

/// A normalisation with one weight for each feature exists.
pub(crate) proof fn lemma_norm_owed(n: NormView, x: Array, out: Option<Array>)
    requires
        norm_result(n, x, out),
        n.agrees(x),
        x.dims.last() > 0,
        addressable(x.dims),
    ensures
        out matches Some(t) && alike(x, t),
{
    let h = x.dims.last();
    lemma_one_size_fits(h);
    assert(joint_dims(x.dims, seq![h]) =~= x.dims);
}

/// The sizes of what a decoder layer works on.
proof fn lemma_features_fit(a: AttentionView, x: Array, offset: int, total_capacity: usize)
    requires
        attention_owed(a, x, offset, total_capacity),
    ensures
        a.hidden_size > 0,
        (x.dims[0] * x.dims[1]) * x.dims[2] <= usize::MAX,
        addressable(x.dims),
{
    let (b, s, h, d) = (x.dims[0], x.dims[1], a.num_heads, a.head_dim);
    if let Some(c) = a.cache {
        lemma_lead_nonnegative(keys_of(contents(c)), 2, contents(c).len() as int);
    }
    let most = held(a.cache) + s;
    lemma_smaller_4(b as int, h as int, s as int, d as int, b as int, h as int, most, d as int);
    assert((b * s) * a.hidden_size == ((b * h) * s) * d) by (nonlinear_arith)
        requires
            a.hidden_size == h * d,
    ;
    assert(a.hidden_size > 0) by (nonlinear_arith)
        requires
            a.hidden_size == h * d,
            h > 0,
            d > 0,
    ;
    lemma_fits_3(b, s, a.hidden_size);
    assert(x.dims =~= dims_3(b, s, a.hidden_size));
}

/// A feed-forward block that agrees is bound to succeed where sizes fit.
proof fn lemma_block_owed(m: MlpView, x: Array)
    requires
        mlp_agrees(m, x.dtype, x.dims[2] as int),
        multiplies(x.dtype),
        x.dims.len() == 3,
        x.dims[0] > 0 && x.dims[1] > 0 && x.dims[2] > 0,
        (x.dims[0] * x.dims[1]) * x.dims[2] <= usize::MAX,
        (x.dims[0] * x.dims[1]) * m.gate.width() <= usize::MAX,
    ensures
        m.owed(x),
{
    let (b, s, f, i) = (x.dims[0], x.dims[1], x.dims[2], m.gate.width());
    lemma_fits_3(b, s, f);
    lemma_fits_3(b, s, i);
    assert(x.dims =~= dims_3(b, s, f));
    assert(with_last(x.dims, i) =~= dims_3(b, s, i));
    lemma_count_positive(x.dims.drop_last());
    assert(with_last(x.dims, i).drop_last() =~= x.dims.drop_last());
}

/// A decoder layer that is bound to work has a cache afterwards that agrees with it. With
/// a mask that fits the cached keys, it has a result with the shape of its input, unless
/// the cache was full and the scores of its heavy hitters cannot be compared.
pub proof fn a_layer_takes_what_agrees(
    l: LayerView,
    x: Array,
    mask: Option<Array>,
    offset: int,
    total_capacity: usize,
    n: Option<CacheView>,
    out: Option<Array>,
)
    requires
        layer_result(l, x, mask, offset, total_capacity, n, out),
        layer_owed(l, x, offset, total_capacity),
    ensures
        n matches Some(m) && {
            &&& cache_agrees(m, l.attn, x.dtype, x.dims[0])
            &&& positions(m) <= held(l.attn.cache) + x.dims[1]
            &&& has_room(l.attn.cache) ==> positions(m) == held(l.attn.cache) + x.dims[1]
            &&& mask_fits(l.attn, x, m, mask) ==> match out {
                Some(t) => t.dtype == x.dtype && t.dims == x.dims,
                None => !has_room(l.attn.cache) && !ready(m),
            }
        },
{
    lemma_features_fit(l.attn, x, offset, total_capacity);
    assert(x.dims.last() == x.dims[2]);
    let i = choose|i: Option<Array>| #[trigger]
        norm_result(l.input_norm, x, i) && match i {
            None => n == l.attn.cache && out is None,
            Some(i) => exists|a: Option<Array>| #[trigger]
                attend_result(l.attn, i, mask, offset, total_capacity, n, a) && match a {
                    None => out is None,
                    Some(a) => exists|s: Option<Array>| #[trigger]
                        add_result(a, x, s) && match s {
                            None => out is None,
                            Some(s) => fed_result(l.post_norm, l.mlp, s, out),
                        },
                },
        };
    lemma_norm_owed(l.input_norm, x, i);
    let i = i->Some_0;
    let a = choose|a: Option<Array>| #[trigger]
        attend_result(l.attn, i, mask, offset, total_capacity, n, a) && match a {
            None => out is None,
            Some(a) => exists|s: Option<Array>| #[trigger]
                add_result(a, x, s) && match s {
                    None => out is None,
                    Some(s) => fed_result(l.post_norm, l.mlp, s, out),
                },
        };
    a_layer_attends_to_what_agrees(l.attn, i, mask, offset, total_capacity, n, a);
    let m = n->Some_0;
    if mask_fits(l.attn, x, m, mask) && a is Some {
        assert(mask_fits(l.attn, i, m, mask));
        let a = a->Some_0;
        let s = choose|s: Option<Array>| #[trigger]
            add_result(a, x, s) && match s {
                None => out is None,
                Some(s) => fed_result(l.post_norm, l.mlp, s, out),
            };
        let s = s->Some_0;
        let p = choose|p: Option<Array>| #[trigger]
            norm_result(l.post_norm, s, p) && match p {
                None => out is None,
                Some(p) => exists|f: Option<Array>| #[trigger]
                    mlp_result(l.mlp, p, f) && match f {
                        None => out is None,
                        Some(f) => add_result(s, f, out),
                    },
            };
        lemma_norm_owed(l.post_norm, s, p);
        let p = p->Some_0;
        let f = choose|f: Option<Array>| #[trigger]
            mlp_result(l.mlp, p, f) && match f {
                None => out is None,
                Some(f) => add_result(s, f, out),
            };
        lemma_block_owed(l.mlp, p);
        a_block_takes_what_agrees(l.mlp, p, f);
    }
}

/// Whether a causal mask is bound to exist: sizes fit in a machine word, and earlier
/// positions come only with single precision, in which the mask is made.
pub open spec fn causal_mask_owed(dtype: DType, b: int, s: int, offset: int) -> bool {
    &&& storable(dtype)
    &&& dtype == DType::F32 || offset == 0
    &&& (b * s) * (s + offset) <= usize::MAX
}

/// Columns for earlier positions in front of a mask.
proof fn lemma_shift_owed(
    dtype: DType,
    mask: Array,
    s: usize,
    offset: usize,
    out: Option<Array>,
)
    requires
        shifted_result(dtype, mask, offset, out),
        mask.dtype == DType::F32,
        mask.dims == dims_2(s, s),
        s > 0,
        offset > 0 ==> dtype == DType::F32,
        s * (s + offset) <= usize::MAX,
        s + offset <= usize::MAX,
    ensures
        out matches Some(t) && t.dtype == DType::F32 && t.dims == dims_2(s, (s + offset) as usize),
{
    if offset > 0 {
        let all = (s + offset) as usize;
        assert(s * offset <= s * all && s * s <= s * all) by (nonlinear_arith)
            requires
                offset <= all,
                s <= all,
        ;
        lemma_fits_2(s, offset);
        lemma_fits_2(s, s);
        lemma_fits_2(s, all);
        let z = choose|z: Array| #[trigger]
            zeros_result(dims_2(s, offset), dtype, Some(z)) && cat_result(seq![z, mask], 1, out);
        let parts = seq![z, mask];
        assert(parts[0] == z && parts[1] == mask);
        reveal_with_fuel(lead, 3);
        assert(lead(parts, 1, 2) == all);
        assert(z.dims.update(1, all) =~= dims_2(s, all));
        assert(joinable(parts, 1));
        assert(join_fits(parts, 1));
        assert(out is Some);
        assert(out->Some_0.dims =~= dims_2(s, all));
    }
}

/// A causal mask whose sizes fit exists, with one matrix for each member of a batch.
pub proof fn a_causal_mask_exists(
    dtype: DType,
    window: usize,
    b: usize,
    s: usize,
    offset: usize,
    out: Option<Array>,
)
    requires
        causal_mask_result(dtype, window, b, s, offset, out),
        causal_mask_owed(dtype, b as int, s as int, offset as int),
        b > 0 && s > 0,
    ensures
        s + offset <= usize::MAX,
        out matches Some(t) && t.dtype == dtype && t.dims == dims_4(
            b,
            1,
            s,
            (s + offset) as usize,
        ),
{
    let all = s + offset;
    assert(all <= usize::MAX && s * all <= usize::MAX && s * s <= s * all) by (nonlinear_arith)
        requires
            (b * s) * all <= usize::MAX,
            b > 0,
            s > 0,
            s <= all,
    ;
    assert(((b * 1) * s) * all == (b * s) * all);
    lemma_fits_4(b, 1, s, all as usize);
    let dims = dims_4(b, 1, s, all as usize);
    let m = choose|m: Option<Array>| #[trigger]
        shifted_result(dtype, causal(s, window), offset, m) && match m {
            None => out is None,
            Some(m) => exists|e: Option<Array>| #[trigger]
                expand_result(m, dims, e) && match e {
                    None => out is None,
                    Some(e) => cast_result(e, dtype, out),
                },
        };
    lemma_shift_owed(dtype, causal(s, window), s, offset, m);
    let m = m->Some_0;
    assert(expandable(m.dims, dims));
    let e = choose|e: Array| #[trigger]
        expand_result(m, dims, Some(e)) && cast_result(e, dtype, out);
    assert(out is Some);
}

/// A causal mask fits as many cached positions as it has columns.
proof fn lemma_causal_mask_fits(a: AttentionView, x: Array, n: CacheView, mask: Array)
    requires
        x.dims.len() == 3,
        x.dims[0] > 0 && x.dims[1] > 0,
        0 < positions(n) <= usize::MAX,
        mask.dtype == x.dtype,
        mask.dims == dims_4(x.dims[0], 1, x.dims[1], positions(n) as usize),
        addressable(mask.dims),
    ensures
        mask_fits(a, x, n, Some(mask)),
{
    let w = dims_4(x.dims[0], a.num_heads, x.dims[1], positions(n) as usize);
    assert forall|k: int| 0 <= k < 4 implies ({
        let (l, r) = (#[trigger] aligned(w, 4, k), aligned(mask.dims, 4, k));
        l == r || l == 1 || r == 1
    }) by {}
    assert(joint(w, mask.dims));
    assert(joint_dims(w, mask.dims) =~= w);
}

/// An array of this element type and shape, whatever its elements.
pub open spec fn outline(dtype: DType, dims: Seq<usize>) -> Array {
    Array { dtype, dims, elems: Seq::empty() }
}

/// Whether the parts of a decoder agree with one another.
pub open spec fn model_agrees(m: ModelView) -> bool {
    let (dtype, h) = (m.dtype, m.features());
    &&& normalises(dtype) && multiplies(dtype)
    &&& m.embed.wf() && m.embed.ordered
    &&& m.embed.embeddings.dtype == dtype
    &&& h > 0
    &&& forall|i: int|
        0 <= i < m.layers.len() ==> layer_agrees(#[trigger] m.layers[i], dtype)
            && m.layers[i].attn.hidden_size == h
    &&& m.norm.weight.dtype == dtype
    &&& m.norm.weight.dims == seq![h]
}

/// Whether ids can be looked up: there are some, and each is known.
pub open spec fn ids_agree(m: ModelView, ids: Array) -> bool {
    &&& ids.dims.len() == 2
    &&& ids.dims[0] > 0 && ids.dims[1] > 0
    &&& indexes(ids.dtype)
    &&& forall|i: int| 0 <= i < ids.elems.len() ==> #[trigger] knows(m.embed.embeddings, ids, i)
    &&& (ids.dims[0] * ids.dims[1]) * m.features() <= usize::MAX
}

/// Whether a decoder is bound to work on these tokens: its parts agree with one another
/// and with what they have cached, the tokens are known, there are angles for their
/// positions, and sizes fit in a machine word. For several tokens at once every layer also
/// needs room in its cache, and has to have cached all earlier positions.
pub open spec fn model_owed(
    m: ModelView,
    ids: Array,
    offset: usize,
    total_capacity: usize,
) -> bool {
    let (b, s) = (ids.dims[0], ids.dims[1]);
    &&& model_agrees(m)
    &&& ids_agree(m, ids)
    &&& forall|i: int|
        0 <= i < m.layers.len() ==> {
            &&& layer_owed(
                #[trigger] m.layers[i],
                outline(m.dtype, dims_3(b, s, m.features())),
                offset as int,
                total_capacity,
            )
            &&& m.layers[i].attn.cache matches Some(c) ==> ready(c)
            &&& s > 1 ==> has_room(m.layers[i].attn.cache) && held(m.layers[i].attn.cache)
                == offset
        }
    &&& s > 1 ==> causal_mask_owed(m.dtype, b as int, s as int, offset as int)
}

/// Whether a layer has cached `len` more positions, as far as it had room, and all that it
/// holds agrees with it.
pub open spec fn grown(
    cache: Option<CacheView>,
    a: AttentionView,
    dtype: DType,
    b: usize,
    len: int,
) -> bool {
    cache matches Some(c) && {
        &&& cache_agrees(c, a, dtype, b)
        &&& positions(c) <= held(a.cache) + len
        &&& has_room(a.cache) ==> positions(c) == held(a.cache) + len
    }
}

/// Features of known tokens.
proof fn lemma_embed_owed(m: ModelView, ids: Array, out: Option<Array>)
    requires
        embed_result(m.embed, ids, out),
        model_agrees(m),
        ids_agree(m, ids),
    ensures
        out matches Some(t) && t.dtype == m.dtype && t.dims == dims_3(
            ids.dims[0],
            ids.dims[1],
            m.features(),
        ),
{
    let (b, s, h) = (ids.dims[0], ids.dims[1], m.features());
    assert(b * s <= usize::MAX) by (nonlinear_arith)
        requires
            (b * s) * h <= usize::MAX,
            h > 0,
    ;
    lemma_fits_2(b, s);
    lemma_fits_3(b, s, h);
    assert(ids.dims =~= dims_2(b, s));
    assert(ids.dims.push(h) =~= dims_3(b, s, h));
}

/// Whether masks suit a run of a decoder: none for a single position, else causal ones.
spec fn masks_suit(m: ModelView, ids: Array, offset: usize, masks: Masks) -> bool {
    let suits = |k: Option<Array>| k matches Some(k) && k.dtype == m.dtype && k.dims == dims_4(
        ids.dims[0],
        1,
        ids.dims[1],
        (ids.dims[1] + offset) as usize,
    );
    if ids.dims[1] == 1 {
        masks.near is None && masks.far is None
    } else {
        suits(masks.near) && suits(masks.far)
    }
}

/// The masks of a run that is bound to work.
proof fn lemma_masks_owed(
    m: ModelView,
    ids: Array,
    offset: usize,
    total_capacity: usize,
    out: Option<Masks>,
)
    requires
        mask_result(m.dtype, m.windows, ids, offset, None, out),
        model_owed(m, ids, offset, total_capacity),
    ensures
        out matches Some(k) && masks_suit(m, ids, offset, k),
{
    let (b, s) = (ids.dims[0], ids.dims[1]);
    if s > 1 {
        let near = choose|k: Option<Array>| #[trigger]
            causal_mask_result(m.dtype, m.windows.near(), b, s, offset, k) && match k {
                None => out is None,
                Some(k) => if m.windows.enabled {
                    exists|f: Option<Array>| #[trigger]
                        causal_mask_result(m.dtype, usize::MAX, b, s, offset, f) && out == match f {
                            None => None,
                            Some(f) => Some(Masks { near: Some(k), far: Some(f) }),
                        }
                } else {
                    out == Some(Masks { near: Some(k), far: Some(k) })
                },
            };
        a_causal_mask_exists(m.dtype, m.windows.near(), b, s, offset, near);
        let k = near->Some_0;
        if m.windows.enabled {
            let far = choose|f: Option<Array>| #[trigger]
                causal_mask_result(m.dtype, usize::MAX, b, s, offset, f) && out == match f {
                    None => None,
                    Some(f) => Some(Masks { near: Some(k), far: Some(f) }),
                };
            a_causal_mask_exists(m.dtype, usize::MAX, b, s, offset, far);
        }
    }
}

/// One layer of a run that is bound to work: it yields features of the same shape, unless
/// the scores of its heavy hitters cannot be compared.
proof fn lemma_step_owed(
    m: ModelView,
    ids: Array,
    offset: usize,
    total_capacity: usize,
    masks: Masks,
    i: int,
    x: Array,
    n: Option<CacheView>,
    out: Option<Array>,
)
    requires
        model_owed(m, ids, offset, total_capacity),
        masks_suit(m, ids, offset, masks),
        0 <= i < m.layers.len(),
        x.dtype == m.dtype,
        x.dims == dims_3(ids.dims[0], ids.dims[1], m.features()),
        layer_result(
            m.layers[i],
            x,
            masks.of_layer(m.windows.layers as int, i),
            offset as int,
            total_capacity,
            n,
            out,
        ),
    ensures
        n matches Some(c) && match out {
            Some(t) => t.dtype == m.dtype && t.dims == x.dims,
            None => ids.dims[1] == 1 && !has_room(m.layers[i].attn.cache) && !ready(c),
        },
        grown(n, m.layers[i].attn, m.dtype, ids.dims[0], ids.dims[1] as int),
{
    let l = m.layers[i];
    let mask = masks.of_layer(m.windows.layers as int, i);
    let (b, s) = (ids.dims[0], ids.dims[1]);
    assert(layer_owed(l, outline(m.dtype, x.dims), offset as int, total_capacity));
    assert(layer_owed(l, x, offset as int, total_capacity));
    a_layer_takes_what_agrees(l, x, mask, offset as int, total_capacity, n, out);
    let c = n->Some_0;
    if s > 1 {
        let all = s + offset;
        assert(all <= usize::MAX) by (nonlinear_arith)
            requires
                (b * s) * all <= usize::MAX,
                b > 0,
                s > 0,
        ;
        assert(((b * 1) * s) * all == (b * s) * all);
        lemma_fits_4(b, 1, s, all as usize);
        lemma_causal_mask_fits(l.attn, x, c, mask->Some_0);
    }
}

/// The features between the layers of a run that is bound to work all have one shape.
proof fn lemma_hidden_shape(
    m: ModelView,
    ids: Array,
    offset: usize,
    total_capacity: usize,
    run: Run,
    caches: Seq<Option<CacheView>>,
    hidden: Seq<Array>,
    done: int,
    i: int,
)
    requires
        model_owed(m, ids, offset, total_capacity),
        masks_suit(m, ids, offset, run.masks),
        run.windowed == m.windows.layers,
        run.offset == offset,
        run.total_capacity == total_capacity,
        passed(m.layers, run, caches, hidden, done),
        hidden[0].dtype == m.dtype,
        hidden[0].dims == dims_3(ids.dims[0], ids.dims[1], m.features()),
        0 <= i <= done,
    ensures
        hidden[i].dtype == m.dtype,
        hidden[i].dims == dims_3(ids.dims[0], ids.dims[1], m.features()),
    decreases i,
{
    if i > 0 {
        lemma_hidden_shape(m, ids, offset, total_capacity, run, caches, hidden, done, i - 1);
        assert(took(m.layers, run, caches, hidden, i - 1));
        lemma_step_owed(
            m,
            ids,
            offset,
            total_capacity,
            run.masks,
            i - 1,
            hidden[i - 1],
            caches[i - 1],
            Some(hidden[i]),
        );
    }
}

/// Whether there is a cache whose heavy hitters cannot be compared, though one of them may
/// have to go.
pub open spec fn unready(cache: Option<CacheView>) -> bool {
    cache matches Some(c) && !ready(c)
}

/// Whether a run got stuck in some layer: its cache was full, and the scores of its heavy
/// hitters cannot be compared.
pub open spec fn stuck(layers: Seq<LayerView>, caches: Seq<Option<CacheView>>) -> bool {
    exists|i: int|
        0 <= i < layers.len() && !has_room(layers[i].attn.cache) && #[trigger] unready(caches[i])
}

/// A decoder that is bound to work on tokens does, with masks that suit them.
proof fn lemma_decoder_owed(
    m: ModelView,
    ids: Array,
    offset: usize,
    given: Option<Array>,
    total_capacity: usize,
    caches: Seq<Option<CacheView>>,
    out: Option<Array>,
)
    requires
        decode_result(m, ids, offset, given, total_capacity, caches, out),
        model_owed(m, ids, offset, total_capacity),
        forall|k: Option<Masks>| #[trigger]
            mask_result(m.dtype, m.windows, ids, offset, given, k) ==> k is Some && masks_suit(
                m,
                ids,
                offset,
                k->Some_0,
            ),
    ensures
        match out {
            Some(t) => {
                &&& t.dtype == m.dtype
                &&& t.dims == dims_3(ids.dims[0], ids.dims[1], m.features())
                &&& forall|i: int|
                    0 <= i < m.layers.len() ==> grown(
                        #[trigger] caches[i],
                        m.layers[i].attn,
                        m.dtype,
                        ids.dims[0],
                        ids.dims[1] as int,
                    )
            },
            None => ids.dims[1] == 1 && stuck(m.layers, caches),
        },
{
    let (b, s, h) = (ids.dims[0], ids.dims[1], m.features());
    let k = choose|k: Option<Masks>| #[trigger]
        mask_result(m.dtype, m.windows, ids, offset, given, k) && match k {
            None => caches == caches_of(m.layers) && out is None,
            Some(k) => exists|e: Option<Array>| #[trigger]
                embed_result(m.embed, ids, e) && match e {
                    None => caches == caches_of(m.layers) && out is None,
                    Some(e) => exists|f: Option<Array>| #[trigger]
                        stack_result(
                            m.layers,
                            e,
                            Run {
                                masks: k,
                                windowed: m.windows.layers as int,
                                offset: offset as int,
                                total_capacity,
                            },
                            caches,
                            f,
                        ) && match f {
                            None => out is None,
                            Some(f) => norm_result(m.norm, f, out),
                        },
                },
        };
    let k = k->Some_0;
    let run = Run {
        masks: k,
        windowed: m.windows.layers as int,
        offset: offset as int,
        total_capacity,
    };
    let e = choose|e: Option<Array>| #[trigger]
        embed_result(m.embed, ids, e) && match e {
            None => caches == caches_of(m.layers) && out is None,
            Some(e) => exists|f: Option<Array>| #[trigger]
                stack_result(m.layers, e, run, caches, f) && match f {
                    None => out is None,
                    Some(f) => norm_result(m.norm, f, out),
                },
        };
    lemma_embed_owed(m, ids, e);
    let e = e->Some_0;
    let f = choose|f: Option<Array>| #[trigger]
        stack_result(m.layers, e, run, caches, f) && match f {
            None => out is None,
            Some(f) => norm_result(m.norm, f, out),
        };
    let (hidden, done): (Seq<Array>, int) = choose|hidden: Seq<Array>, done: int| #[trigger]
        passed(m.layers, run, caches, hidden, done) && hidden[0] == e && f == if done
            == m.layers.len() {
            Some(hidden[done])
        } else {
            None
        };
    lemma_hidden_shape(m, ids, offset, total_capacity, run, caches, hidden, done, done);
    if done < m.layers.len() {
        lemma_step_owed(
            m,
            ids,
            offset,
            total_capacity,
            k,
            done,
            hidden[done],
            caches[done],
            None,
        );
        assert(unready(caches[done]));
    } else {
        lemma_fits_3(b, s, h);
        lemma_norm_owed(m.norm, hidden[done], out);
        assert forall|i: int| 0 <= i < m.layers.len() implies grown(
            #[trigger] caches[i],
            m.layers[i].attn,
            m.dtype,
            b,
            s as int,
        ) by {
            lemma_hidden_shape(m, ids, offset, total_capacity, run, caches, hidden, done, i);
            assert(took(m.layers, run, caches, hidden, i));
            lemma_step_owed(
                m,
                ids,
                offset,
                total_capacity,
                k,
                i,
                hidden[i],
                caches[i],
                Some(hidden[i + 1]),
            );
        }
    }
}

/// A decoder that is bound to work on tokens yields features for each of them, and its
/// caches agree with it afterwards. Only a single token may find the scores of a full cache
/// beyond comparison.
pub proof fn a_decoder_takes_what_agrees(
    m: ModelView,
    ids: Array,
    offset: usize,
    total_capacity: usize,
    caches: Seq<Option<CacheView>>,
    out: Option<Array>,
)
    requires
        decode_result(m, ids, offset, None, total_capacity, caches, out),
        model_owed(m, ids, offset, total_capacity),
    ensures
        match out {
            Some(t) => {
                &&& t.dtype == m.dtype
                &&& t.dims == dims_3(ids.dims[0], ids.dims[1], m.features())
                &&& forall|i: int|
                    0 <= i < m.layers.len() ==> grown(
                        #[trigger] caches[i],
                        m.layers[i].attn,
                        m.dtype,
                        ids.dims[0],
                        ids.dims[1] as int,
                    )
            },
            None => ids.dims[1] == 1 && stuck(m.layers, caches),
        },
{
    assert forall|k: Option<Masks>| #[trigger]
        mask_result(m.dtype, m.windows, ids, offset, None, k) implies k is Some && masks_suit(
        m,
        ids,
        offset,
        k->Some_0,
    ) by {
        lemma_masks_owed(m, ids, offset, total_capacity, k);
    }
    lemma_decoder_owed(m, ids, offset, None, total_capacity, caches, out);
}

/// A decoder that is bound to work on several first tokens does so under a mask that is given
/// as a matrix of whole numbers.
pub proof fn a_decoder_takes_a_given_mask(
    m: ModelView,
    ids: Array,
    a: Array,
    total_capacity: usize,
    caches: Seq<Option<CacheView>>,
    out: Option<Array>,
)
    requires
        decode_result(m, ids, 0, Some(a), total_capacity, caches, out),
        model_owed(m, ids, 0, total_capacity),
        ids.dims[1] > 1,
        a.dtype == DType::U8 || a.dtype == DType::U32 || a.dtype == DType::I64,
        a.dims == ids.dims,
    ensures
        out matches Some(t) && t.dtype == m.dtype && t.dims == dims_3(
            ids.dims[0],
            ids.dims[1],
            m.features(),
        ),
{
    let (b, s) = (ids.dims[0], ids.dims[1]);
    assert forall|k: Option<Masks>| #[trigger]
        mask_result(m.dtype, m.windows, ids, 0, Some(a), k) implies k is Some && masks_suit(
        m,
        ids,
        0,
        k->Some_0,
    ) by {
        let mask = choose|x: Option<Array>| #[trigger]
            attention_mask_result(m.dtype, a, x) && k == match x {
                None => None,
                Some(x) => Some(Masks { near: Some(x), far: Some(x) }),
            };
        a_given_mask_exists(m.dtype, a, mask);
        assert(mask->Some_0.dims =~= dims_4(b, 1, s, s));
    }
    lemma_decoder_owed(m, ids, 0, Some(a), total_capacity, caches, out);
}

/// Whether a language model is bound to work on these tokens.
pub open spec fn language_owed(
    m: LanguageView,
    ids: Array,
    offset: usize,
    total_capacity: usize,
) -> bool {
    &&& model_owed(m.base, ids, offset, total_capacity)
    &&& m.head.width() > 0
    &&& projects(m.head, m.base.dtype, m.base.features() as int, m.head.width() as int)
    &&& ids.dims[0] * m.head.width() <= usize::MAX
}

/// A language model whose decoder is bound to work on tokens, and whose projection takes
/// its features, yields logits for each member of the batch. Only a single token may find
/// the scores of a full cache beyond comparison.
pub proof fn a_language_model_takes_what_agrees(
    m: LanguageView,
    ids: Array,
    offset: usize,
    total_capacity: usize,
    caches: Seq<Option<CacheView>>,
    out: Option<Array>,
)
    requires
        logits_result(m, ids, offset, total_capacity, caches, out),
        language_owed(m, ids, offset, total_capacity),
    ensures
        match out {
            Some(t) => t.dtype == m.base.dtype && t.dims == dims_3(
                ids.dims[0],
                1,
                m.head.width(),
            ),
            None => ids.dims[1] == 1 && stuck(m.base.layers, caches),
        },
{
    let (b, s, h) = (ids.dims[0], ids.dims[1], m.base.features());
    let f = choose|f: Option<Array>| #[trigger]
        decode_result(m.base, ids, offset, None, total_capacity, caches, f) && match f {
            None => out is None,
            Some(f) => exists|l: Option<Array>| #[trigger]
                narrow_result(f, 1, s - 1, 1, l) && match l {
                    None => out is None,
                    Some(l) => linear_result(m.head, l, out),
                },
        };
    a_decoder_takes_what_agrees(m.base, ids, offset, total_capacity, caches, f);
    if let Some(f) = f {
        let l = choose|l: Array| #[trigger]
            narrow_result(f, 1, s - 1, 1, Some(l)) && linear_result(m.head, l, out);
        assert(l.dims =~= dims_3(b, 1, h));
        assert((b * 1) * h <= (b * s) * h) by (nonlinear_arith)
            requires
                s >= 1,
                b >= 0,
                h >= 0,
        ;
        assert((b * 1) * m.head.width() == b * m.head.width());
        lemma_projection_owed(m.head, l, m.head.width(), out);
    }
}

/// Whether a configuration divides evenly: the features among the heads, the heads among
/// the key heads, and the features of a head into pairs. The activation function has no
/// gate of its own.
pub open spec fn divides(cfg: Config) -> bool {
    &&& cfg.valid()
    &&& cfg.hidden_size > 0 && cfg.intermediate_size > 0
    &&& cfg.hidden_size % cfg.num_attention_heads == 0
    &&& cfg.num_attention_heads % cfg.num_key_value_heads == 0
    &&& cfg.head_dim() % 2 == 0
    &&& !(cfg.hidden_act is Swiglu)
}

/// What follows from dividing evenly.
proof fn lemma_divided(cfg: Config)
    requires
        divides(cfg),
    ensures
        cfg.head_dim() > 0,
        cfg.hidden_size == cfg.num_attention_heads * cfg.head_dim(),
        cfg.num_attention_heads == cfg.num_key_value_heads * (cfg.num_attention_heads
            / cfg.num_key_value_heads),
{
    let (h, n, g) = (
        cfg.hidden_size as int,
        cfg.num_attention_heads as int,
        cfg.num_key_value_heads as int,
    );
    vstd::arithmetic::div_mod::lemma_fundamental_div_mod(h, n);
    vstd::arithmetic::div_mod::lemma_fundamental_div_mod(n, g);
    assert(h / n > 0) by (nonlinear_arith)
        requires
            h == n * (h / n),
            h > 0,
            n > 0,
    ;
}

/// The angles that a rotary embedding is made with.
proof fn lemma_angles_agree(
    dtype: DType,
    theta: u64,
    dim: usize,
    positions: usize,
    r: RotaryView,
)
    requires
        rotary_result(dtype, theta, dim as int, positions, Some(r)),
        dim % 2 == 0,
    ensures
        turns_heads(r, dtype, dim as int),
        r.cos.dims[0] == positions,
{
    let fs = choose|fs: Seq<u32>| #[trigger]
        frequencies_result(theta, dim as int, Some(fs)) && exists|a: Option<Array>| #[trigger]
            angles_result(dtype, fs, positions, a) && match a {
                None => false,
                Some(a) => exists|s: Option<Array>| #[trigger]
                    sin_result(a, s) && match s {
                        None => false,
                        Some(s) => exists|c: Option<Array>| #[trigger]
                            cos_result(a, c) && match c {
                                None => false,
                                Some(c) => r == (RotaryView { sin: s, cos: c }),
                            },
                    },
            };
    let a = choose|a: Array| #[trigger]
        angles_result(dtype, fs, positions, Some(a)) && r.sin.dtype == a.dtype && r.cos.dtype
            == a.dtype && r.sin.dims == a.dims && r.cos.dims == a.dims;
    let f = choose|f: Array| #[trigger]
        cast_result(row_of(fs), dtype, Some(f)) && exists|t: Option<Array>| #[trigger]
            cast_result(arange(positions as u32), dtype, t) && match t {
                None => false,
                Some(t) => exists|c: Option<Array>| #[trigger]
                    reshape_result(t, dims_2(positions, 1), c) && match c {
                        None => false,
                        Some(c) => matmul_result(c, f, Some(a)),
                    },
            };
    let t = choose|t: Array| #[trigger]
        cast_result(arange(positions as u32), dtype, Some(t)) && exists|c: Option<Array>|
            #[trigger]
            reshape_result(t, dims_2(positions, 1), c) && match c {
                None => false,
                Some(c) => matmul_result(c, f, Some(a)),
            };
    let c = choose|c: Array| #[trigger]
        reshape_result(t, dims_2(positions, 1), Some(c)) && matmul_result(c, f, Some(a));
    assert(a.dims =~= dims_2(positions, (dim / 2) as usize));
}

/// A model that was built from a configuration that divides evenly, in an element type
/// that all parts work in, agrees in all its parts.
pub proof fn a_built_model_agrees(cfg: Config, w: WeightsView, m: LanguageView)
    requires
        language_built(cfg, w, Some(m)),
        divides(cfg),
        normalises(w.dtype) && multiplies(w.dtype),
        addressable(seq![cfg.vocab_size, cfg.hidden_size]),
    ensures
        model_agrees(m.base),
        m.base.dtype == w.dtype,
        m.base.features() == cfg.hidden_size,
        projects(m.head, w.dtype, cfg.hidden_size as int, cfg.vocab_size as int),
        forall|i: int|
            0 <= i < m.base.layers.len() ==> {
                &&& (#[trigger] m.base.layers[i]).attn.cache is None
                &&& m.base.layers[i].attn.rotary.cos.dims[0] == cfg.max_position_embeddings
                &&& m.base.layers[i].mlp.gate.width() == cfg.intermediate_size
            },
{
    lemma_divided(cfg);
    let (dtype, h, d) = (w.dtype, cfg.hidden_size, cfg.head_dim() as usize);
    assert(model_built(cfg, w, Some(m.base)));
    assert(head_built(cfg, w, m.base, Some(m.head)));
    assert(m.base.embed.embeddings.dims == seq![cfg.vocab_size, h]);
    let r = choose|r: RotaryView| #[trigger]
        rotary_result(
            dtype,
            cfg.rope_theta,
            cfg.head_dim() as int,
            cfg.max_position_embeddings,
            Some(r),
        ) && layers_built(r, cfg, w.under("model"@).under("layers"@), Some(m.base.layers));
    lemma_angles_agree(dtype, cfg.rope_theta, d, cfg.max_position_embeddings, r);
    assert forall|i: int| 0 <= i < m.base.layers.len() implies {
        &&& layer_agrees(#[trigger] m.base.layers[i], dtype)
        &&& m.base.layers[i].attn.hidden_size == h
        &&& m.base.layers[i].attn.cache is None
        &&& m.base.layers[i].attn.rotary.cos.dims[0] == cfg.max_position_embeddings
        &&& m.base.layers[i].mlp.gate.width() == cfg.intermediate_size
    } by {
        let l = m.base.layers[i];
        let place = w.under("model"@).under("layers"@).under(decimal(i as nat));
        assert(layer_built(r, cfg, place, Some(l)));
        let a = l.attn;
        assert(attention_built(r, cfg, place.under("self_attn"@), Some(a)));
        assert(mlp_built(place.under("mlp"@), cfg, Some(l.mlp)));
        let (n, g) = (cfg.num_attention_heads, cfg.num_key_value_heads);
        assert(n * d <= usize::MAX && g * d <= usize::MAX);
        assert(attention_agrees(a, dtype));
        assert(mlp_agrees(l.mlp, dtype, h as int));
    }
}

/// Whether the sizes of a first prompt fit in a machine word.
pub open spec fn prompt_fits(cfg: Config, b: int, s: int) -> bool {
    &&& (b * s) * cfg.hidden_size <= usize::MAX
    &&& (b * s) * cfg.intermediate_size <= usize::MAX
    &&& ((b * cfg.num_attention_heads) * s) * s <= usize::MAX
    &&& b * cfg.vocab_size <= usize::MAX
}

/// A model that has just been built is bound to work on a first prompt of known tokens that
/// is no longer than it has positions for.
pub proof fn a_new_model_takes_a_prompt(
    cfg: Config,
    w: WeightsView,
    m: LanguageView,
    ids: Array,
    total_capacity: usize,
)
    requires
        language_built(cfg, w, Some(m)),
        divides(cfg),
        cfg.vocab_size > 0,
        normalises(w.dtype) && multiplies(w.dtype),
        addressable(seq![cfg.vocab_size, cfg.hidden_size]),
        usable(total_capacity),
        ids.dims.len() == 2,
        ids.dims[0] > 0,
        0 < ids.dims[1] <= cfg.max_position_embeddings,
        indexes(ids.dtype),
        forall|i: int|
            0 <= i < ids.elems.len() ==> #[trigger] knows(m.base.embed.embeddings, ids, i),
        prompt_fits(cfg, ids.dims[0] as int, ids.dims[1] as int),
    ensures
        language_owed(m, ids, 0, total_capacity),
{
    a_built_model_agrees(cfg, w, m);
    lemma_divided(cfg);
    let (b, s, h) = (ids.dims[0], ids.dims[1], cfg.hidden_size);
    let (n, d) = (cfg.num_attention_heads as int, cfg.head_dim() as int);
    assert(((b * n) * s) * d == (b * s) * h) by (nonlinear_arith)
        requires
            h == n * d,
    ;
    assert((b * s) * s <= ((b * n) * s) * s) by (nonlinear_arith)
        requires
            n >= 1,
            b >= 0,
            s >= 0,
    ;
    assert(model_built(cfg, w, Some(m.base)));
    let x = outline(w.dtype, dims_3(b, s, h));
    assert forall|i: int| 0 <= i < m.base.layers.len() implies {
        &&& layer_owed(#[trigger] m.base.layers[i], x, 0, total_capacity)
        &&& m.base.layers[i].attn.cache is None
    } by {
        let l = m.base.layers[i];
        assert(layer_agrees(l, w.dtype));
        lemma_heads_of_layer(cfg, w, m.base, i);
        assert(attention_owed(l.attn, x, 0, total_capacity));
    }
    assert(model_owed(m.base, ids, 0, total_capacity));
}

/// The heads of a layer are those of the configuration.
proof fn lemma_heads_of_layer(cfg: Config, w: WeightsView, m: ModelView, i: int)
    requires
        model_built(cfg, w, Some(m)),
        0 <= i < m.layers.len(),
    ensures
        m.layers[i].attn.num_heads == cfg.num_attention_heads,
        m.layers[i].attn.head_dim == cfg.head_dim(),
{
    let r = choose|r: RotaryView| #[trigger]
        layers_built(r, cfg, w.under("model"@).under("layers"@), Some(m.layers));
    assert(layer_built(
        r,
        cfg,
        w.under("model"@).under("layers"@).under(decimal(i as nat)),
        Some(m.layers[i]),
    ));
}

} // verus!
