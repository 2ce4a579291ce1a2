//! What the layers of the model compute, written out.

use crate::array::{
    Array, at, column_of_matrix, count, dims_3, dims_4, in_bounds, joint_dims, narrow_result,
    reshape_result, row_of_matrix, swapped, transpose_result,
};
use crate::attention::{
    AttentionView, attend_result, heads_result, joined_result, read_result, repeat_result,
    scores_result, spread_result, states_result, stored_result,
};
use crate::cache::{CacheView, empty_cache, gather_result, insert_result};
use crate::decoder::{LayerView, fed_result, layer_result};
use crate::language::{LanguageView, logits_result};
use crate::laws::{
    a_layer_keeps_the_shape, a_repeated_head_serves_its_group, lemma_count_3, lemma_count_4,
    lemma_position_3, lemma_position_4, lemma_spread_dims,
};
use crate::masks::{attention_mask_result, causal_mask_result};
use crate::mlp::mlp_result;
use crate::model::{
    Masks, ModelView, Run, caches_of, decode_result, mask_result, passed, stack_result, took,
};
use crate::nn::{
    LinearView, embed_result, feature, linear_outcome, linear_result, norm_outcome, norm_result,
    row_at,
};
use crate::rotary::rotate_result;
use crate::rows::{
    attended_row, columns_of_matrix, each_query_is_attended_alone, mask_row, rows_of_matrix,
};
use crate::tensor::{add_outcome, add_result, cast_outcome, recip_outcome, sqrt_outcome};
use candle_core::DType;
use vstd::prelude::*;

verus! {

/// The features of position `i` of member `b` of a batch.
pub open spec fn features_at(x: Array, b: int, i: int) -> Seq<u64> {
    Seq::new(x.dims[2] as nat, |p: int| at(x, seq![b, i, p]))
}

/// The weights that feature `j` of a projection is made with.
pub open spec fn weights_of(l: LinearView, j: int) -> Seq<u64> {
    Seq::new(l.weight.dims[1] as nat, |p: int| at(l.weight, seq![j, p]))
}

/// What is added to feature `j` of a projection.
pub open spec fn bias_of(l: LinearView, j: int) -> Option<u64> {
    match l.bias {
        None => None,
        Some(b) => Some(b.elems[j]),
    }
}

/// One feature of a projection of the features of a position.
pub proof fn a_projection_takes_each_position_alone(
    l: LinearView,
    x: Array,
    out: Array,
    b: int,
    i: int,
    j: int,
)
    requires
        linear_result(l, x, Some(out)),
        x.dims.len() == 3,
        0 <= b < x.dims[0] && 0 <= i < x.dims[1] && 0 <= j < l.weight.dims[0],
    ensures
        out.dtype == x.dtype,
        out.dims == seq![x.dims[0], x.dims[1], l.weight.dims[0]],
        linear_outcome(
            x.dtype,
            features_at(x, b, i),
            weights_of(l, j),
            bias_of(l, j),
            at(out, seq![b, i, j]),
        ),
{
    let idx = seq![b, i, j];
    assert(out.dims =~= seq![x.dims[0], x.dims[1], l.weight.dims[0]]);
    assert(in_bounds(out.dims, idx));
    assert(row_at(x, idx) =~= features_at(x, b, i)) by {
        assert forall|p: int| 0 <= p < x.dims[2] implies row_at(x, idx)[p] == features_at(
            x,
            b,
            i,
        )[p] by {
            assert(idx.update(2, p) =~= seq![b, i, p]);
        }
    }
    assert(l.weights(j) =~= weights_of(l, j));
    assert(idx.last() == j);
}

/// A head is a slice of the features of a projection: feature `f` of head `h` is feature
/// `h * d + f` of the projected position.
pub proof fn a_head_is_a_slice_of_its_projection(
    l: LinearView,
    x: Array,
    heads: usize,
    d: usize,
    out: Array,
    b: int,
    h: int,
    i: int,
    f: int,
)
    requires
        heads_result(l, x, heads, d, Some(out)),
        x.dims.len() == 3,
        0 <= b < x.dims[0] && 0 <= h < heads && 0 <= i < x.dims[1] && 0 <= f < d,
    ensures
        out.dtype == x.dtype,
        out.dims == seq![x.dims[0], heads, x.dims[1], d],
        linear_outcome(
            x.dtype,
            features_at(x, b, i),
            weights_of(l, h * d + f),
            bias_of(l, h * d + f),
            at(out, seq![b, h, i, f]),
        ),
{
    let (n, s, w) = (x.dims[0], x.dims[1], l.weight.dims[0]);
    let p = choose|p: Array| #[trigger]
        linear_result(l, x, Some(p)) && exists|r: Option<Array>| #[trigger]
            reshape_result(p, dims_4(n, s, heads, d), r) && match r {
                None => false,
                Some(r) => transpose_result(r, 1, 2, Some(out)),
            };
    let r = choose|r: Array| #[trigger]
        reshape_result(p, dims_4(n, s, heads, d), Some(r)) && transpose_result(r, 1, 2, Some(out));
    assert(p.dims =~= dims_3(n, s, w));
    lemma_count_3(n, s, w);
    lemma_count_4(n, s, heads, d);
    assert(w == heads * d) by (nonlinear_arith)
        requires
            (n * s) * w == ((n * s) * heads) * d,
            n > 0,
            s > 0,
    ;
    let j = h * d + f;
    assert(0 <= j < heads * d) by (nonlinear_arith)
        requires
            j == h * d + f,
            0 <= h < heads,
            0 <= f < d,
    ;
    a_projection_takes_each_position_alone(l, x, p, b, i, j);
    lemma_position_3(p.dims, seq![b, i, j]);
    lemma_position_4(r.dims, seq![b, i, h, f]);
    assert((b * s + i) * (heads * d) + (h * d + f) == ((b * s + i) * heads + h) * d + f)
        by (nonlinear_arith);
    assert(at(r, seq![b, i, h, f]) == at(p, seq![b, i, j]));
    let idx = seq![b, i, h, f];
    assert(in_bounds(r.dims, idx));
    assert(swapped(idx, 1, 2) =~= seq![b, h, i, f]);
    assert(at(out, swapped(idx, 1, 2)) == at(r, idx));
    assert(out.dims =~= seq![n, heads, s, d]);
}

/// The heads of a position side by side.
pub open spec fn side_by_side_at(heads: Array, b: int, i: int) -> Seq<u64> {
    let d = heads.dims[3] as int;
    Seq::new(
        (heads.dims[1] * heads.dims[3]) as nat,
        |p: int| at(heads, seq![b, p / d, i, p % d]),
    )
}

/// The heads of a position are put side by side, in their order, and projected.
pub proof fn heads_are_projected_side_by_side(
    o: LinearView,
    hidden_size: usize,
    x: Array,
    heads: Array,
    out: Array,
    b: int,
    i: int,
    j: int,
)
    requires
        joined_result(o, hidden_size, x, heads, Some(out)),
        x.dims.len() == 3 && heads.dims.len() == 4,
        heads.dims[0] == x.dims[0] && heads.dims[2] == x.dims[1],
        0 <= b < x.dims[0] && 0 <= i < x.dims[1] && 0 <= j < o.weight.dims[0],
    ensures
        hidden_size == heads.dims[1] * heads.dims[3],
        out.dims == seq![x.dims[0], x.dims[1], o.weight.dims[0]],
        linear_outcome(
            heads.dtype,
            side_by_side_at(heads, b, i),
            weights_of(o, j),
            bias_of(o, j),
            at(out, seq![b, i, j]),
        ),
{
    let (n, s, h, d) = (x.dims[0], x.dims[1], heads.dims[1], heads.dims[3]);
    let target = dims_3(n, s, hidden_size);
    let t = choose|t: Array| #[trigger]
        transpose_result(heads, 1, 2, Some(t)) && exists|r: Option<Array>| #[trigger]
            reshape_result(t, target, r) && match r {
                None => false,
                Some(r) => linear_result(o, r, Some(out)),
            };
    let r = choose|r: Array| #[trigger]
        reshape_result(t, target, Some(r)) && linear_result(o, r, Some(out));
    assert(t.dims =~= dims_4(n, s, h, d));
    lemma_count_3(n, s, hidden_size);
    lemma_count_4(n, s, h, d);
    assert(hidden_size == h * d) by (nonlinear_arith)
        requires
            (n * s) * hidden_size == ((n * s) * h) * d,
            n > 0,
            s > 0,
    ;
    a_projection_takes_each_position_alone(o, r, out, b, i, j);
    let (row, side) = (features_at(r, b, i), side_by_side_at(heads, b, i));
    assert forall|p: int| 0 <= p < row.len() implies row[p] == side[p] by {
        let (e, f) = (p / d as int, p % d as int);
        assert(d > 0) by (nonlinear_arith)
            requires
                0 <= p < h * d,
                h >= 0,
                d >= 0,
        ;
        vstd::arithmetic::div_mod::lemma_fundamental_div_mod(p, d as int);
        assert(d * e == e * d) by (nonlinear_arith);
        assert(0 <= e < h && 0 <= f < d) by (nonlinear_arith)
            requires
                p == e * d + f,
                f == p % d as int,
                d > 0,
                0 <= p < h * d,
        ;
        lemma_position_3(r.dims, seq![b, i, p]);
        lemma_position_4(t.dims, seq![b, i, e, f]);
        assert((b * s + i) * (h * d) + (e * d + f) == ((b * s + i) * h + e) * d + f)
            by (nonlinear_arith);
        let idx = seq![b, e, i, f];
        assert(in_bounds(heads.dims, idx));
        assert(swapped(idx, 1, 2) =~= seq![b, i, e, f]);
        assert(at(t, swapped(idx, 1, 2)) == at(heads, idx));
    }
    assert(row =~= side);
}

/// The queries, keys and values of a layer come each from its own projection, the keys and
/// values in their own number of heads. Queries and keys are rotated, values are not.
pub proof fn queries_keys_and_values_have_their_own_projections(
    a: AttentionView,
    x: Array,
    offset: int,
    q: Array,
    k: Array,
    v: Array,
) -> (found: (Array, Array))
    requires
        states_result(a, x, offset, Some((q, k, v))),
    ensures
        heads_result(a.q, x, a.num_heads, a.head_dim, Some(found.0)),
        heads_result(a.k, x, a.num_kv_heads, a.head_dim, Some(found.1)),
        heads_result(a.v, x, a.num_kv_heads, a.head_dim, Some(v)),
        rotate_result(a.rotary, found.0, found.1, offset, Some((q, k))),
{
    let q0 = choose|q0: Array| #[trigger]
        heads_result(a.q, x, a.num_heads, a.head_dim, Some(q0)) && exists|k0: Option<Array>|
            #[trigger]
            heads_result(a.k, x, a.num_kv_heads, a.head_dim, k0) && match k0 {
                None => false,
                Some(k0) => heads_result(a.v, x, a.num_kv_heads, a.head_dim, Some(v))
                    && rotate_result(a.rotary, q0, k0, offset, Some((q, k))),
            };
    let k0 = choose|k0: Array| #[trigger]
        heads_result(a.k, x, a.num_kv_heads, a.head_dim, Some(k0)) && heads_result(
            a.v,
            x,
            a.num_kv_heads,
            a.head_dim,
            Some(v),
        ) && rotate_result(a.rotary, q0, k0, offset, Some((q, k)));
    (q0, k0)
}

/// A layer reads what its cache holds once the new key and value have joined it. A layer
/// without a cache reads the new key and value alone, and makes one from them.
pub proof fn a_layer_reads_what_its_cache_holds(
    a: AttentionView,
    x: Array,
    mask: Option<Array>,
    offset: int,
    total_capacity: usize,
    n: Option<CacheView>,
    out: Array,
) -> (found: (Array, Array, Array, Array, Array, Array))
    requires
        attend_result(a, x, mask, offset, total_capacity, n, Some(out)),
    ensures
        x.dims.len() == 3,
        states_result(a, x, offset, Some((found.0, found.1, found.2))),
        a.cache is None ==> found.3 == found.1 && found.4 == found.2 && n is Some && insert_result(
            CacheView {
                heavy: Seq::empty(),
                recent: Seq::empty(),
                heavy_capacity: total_capacity as nat / 7,
                recent_capacity: 6 * total_capacity as nat / 7,
                num_heads: a.num_heads as nat,
                head_dim: a.head_dim as nat,
            },
            found.0,
            found.1,
            found.2,
            n->Some_0,
            true,
        ),
        a.cache matches Some(c) ==> n is Some && insert_result(
            c,
            found.0,
            found.1,
            found.2,
            n->Some_0,
            true,
        ) && gather_result(n->Some_0, Some((found.3, found.4))),
        read_result(
            a.num_kv_groups,
            a.head_dim,
            found.0,
            found.3,
            found.4,
            mask,
            Some(found.5),
        ),
        joined_result(a.o, a.hidden_size, x, found.5, Some(out)),
{
    let fresh = empty_cache(total_capacity as nat, a.num_heads as nat, a.head_dim as nat);
    let (q, k, v): (Array, Array, Array) = choose|q: Array, k: Array, v: Array| #[trigger]
        states_result(a, x, offset, Some((q, k, v))) && exists|kv: Option<(Array, Array)>|
            #[trigger]
            stored_result(a.cache, fresh, q, k, v, n, kv) && match kv {
                None => false,
                Some((ks, vs)) => exists|o: Option<Array>| #[trigger]
                    read_result(a.num_kv_groups, a.head_dim, q, ks, vs, mask, o) && match o {
                        None => false,
                        Some(o) => joined_result(a.o, a.hidden_size, x, o, Some(out)),
                    },
            };
    let (ks, vs): (Array, Array) = choose|ks: Array, vs: Array| #[trigger]
        stored_result(a.cache, fresh, q, k, v, n, Some((ks, vs))) && exists|o: Option<Array>|
            #[trigger]
            read_result(a.num_kv_groups, a.head_dim, q, ks, vs, mask, o) && match o {
                None => false,
                Some(o) => joined_result(a.o, a.hidden_size, x, o, Some(out)),
            };
    let o = choose|o: Array| #[trigger]
        read_result(a.num_kv_groups, a.head_dim, q, ks, vs, mask, Some(o)) && joined_result(
            a.o,
            a.hidden_size,
            x,
            o,
            Some(out),
        );
    (q, k, v, ks, vs, o)
}

/// Each query head reads the key and value head of its own group: heads that stand next to
/// each other, as many as there are in a group, share one. It attends to them with its own
/// features and its own row of the mask, and products scaled by one over the root of the
/// head size.
pub proof fn a_query_head_reads_the_head_of_its_group(
    groups: usize,
    head_dim: usize,
    q: Array,
    k: Array,
    v: Array,
    mask: Option<Array>,
    out: Array,
    b: int,
    h: int,
    i: int,
) -> (found: (u64, u64, u64))
    requires
        read_result(groups, head_dim, q, k, v, mask, Some(out)),
        q.dims.len() == 4 && k.dims.len() == 4 && v.dims.len() == 4,
        groups > 0,
        k.dims[0] == q.dims[0] && v.dims[0] == q.dims[0],
        k.dims[1] * groups == q.dims[1] && v.dims[1] == k.dims[1],
        k.dims[3] == q.dims[3] && v.dims[2] == k.dims[2],
        k.elems.len() == count(k.dims),
        mask matches Some(m) ==> joint_dims(q.dims.update(3, k.dims[2]), m.dims) == q.dims.update(
            3,
            k.dims[2],
        ),
        0 <= b < q.dims[0] && 0 <= h < q.dims[1] && 0 <= i < q.dims[2],
    ensures
        cast_outcome(DType::I64, DType::F64, head_dim as u64, found.0),
        sqrt_outcome(DType::F64, found.0, found.1),
        recip_outcome(DType::F64, found.1, found.2),
        attended_row(
            q.dtype,
            row_of_matrix(q, b * q.dims[1] + h, i),
            rows_of_matrix(k, b * k.dims[1] + h / groups as int),
            columns_of_matrix(v, b * v.dims[1] + h / groups as int),
            mask_row(mask, b, h, i, k.dims[2] as nat),
            found.2,
            row_of_matrix(out, b * q.dims[1] + h, i),
        ),
{
    let kr = choose|kr: Array| #[trigger]
        spread_result(k, groups, Some(kr)) && exists|vr: Option<Array>| #[trigger]
            spread_result(v, groups, vr) && match vr {
                None => false,
                Some(vr) => scores_result(q, kr, vr, mask, head_dim as int, Some(out)),
            };
    let vr = choose|vr: Array| #[trigger]
        spread_result(v, groups, Some(vr)) && scores_result(
            q,
            kr,
            vr,
            mask,
            head_dim as int,
            Some(out),
        );
    lemma_spread_dims(k, groups, kr);
    lemma_spread_dims(v, groups, vr);
    lemma_group_of_rows(k, groups, kr, b, h);
    lemma_group_of_columns(v, groups, vr, b, h);
    assert(kr.dims[1] == q.dims[1] && vr.dims[1] == q.dims[1]);
    each_query_is_attended_alone(q, kr, vr, mask, head_dim as int, out, b, h, i)
}

/// The rows of a repeated head.
proof fn lemma_group_of_rows(k: Array, groups: usize, kr: Array, b: int, h: int)
    requires
        spread_result(k, groups, Some(kr)),
        k.dims.len() == 4,
        groups > 0,
        kr.dims == dims_4(k.dims[0], (k.dims[1] * groups) as usize, k.dims[2], k.dims[3]),
        k.dims[1] * groups <= usize::MAX,
        0 <= b < k.dims[0],
        0 <= h < k.dims[1] * groups,
    ensures
        rows_of_matrix(kr, b * kr.dims[1] + h) == rows_of_matrix(
            k,
            b * k.dims[1] + h / groups as int,
        ),
{
    let (p, g) = (b * kr.dims[1] + h, h / groups as int);
    lemma_group(k.dims[1] as int, groups as int, h);
    let (rows, from) = (rows_of_matrix(kr, p), rows_of_matrix(k, b * k.dims[1] + g));
    assert forall|j: int| 0 <= j < rows.len() implies rows[j] == from[j] by {
        let (x, y) = (row_of_matrix(kr, p, j), row_of_matrix(k, b * k.dims[1] + g, j));
        assert forall|l: int| 0 <= l < x.len() implies x[l] == y[l] by {
            lemma_repeated_element(k, groups, kr, b, h, j, l);
        }
        assert(x =~= y);
    }
    assert(rows =~= from);
}

/// The columns of a repeated head.
proof fn lemma_group_of_columns(k: Array, groups: usize, kr: Array, b: int, h: int)
    requires
        spread_result(k, groups, Some(kr)),
        k.dims.len() == 4,
        groups > 0,
        kr.dims == dims_4(k.dims[0], (k.dims[1] * groups) as usize, k.dims[2], k.dims[3]),
        k.dims[1] * groups <= usize::MAX,
        0 <= b < k.dims[0],
        0 <= h < k.dims[1] * groups,
    ensures
        columns_of_matrix(kr, b * kr.dims[1] + h) == columns_of_matrix(
            k,
            b * k.dims[1] + h / groups as int,
        ),
{
    let (p, g) = (b * kr.dims[1] + h, h / groups as int);
    lemma_group(k.dims[1] as int, groups as int, h);
    let (columns, from) = (columns_of_matrix(kr, p), columns_of_matrix(k, b * k.dims[1] + g));
    assert forall|l: int| 0 <= l < columns.len() implies columns[l] == from[l] by {
        let (x, y) = (column_of_matrix(kr, p, l), column_of_matrix(k, b * k.dims[1] + g, l));
        assert forall|j: int| 0 <= j < x.len() implies x[j] == y[j] by {
            lemma_repeated_element(k, groups, kr, b, h, j, l);
        }
        assert(x =~= y);
    }
    assert(columns =~= from);
}

/// The group of a head is one of the groups.
proof fn lemma_group(heads: int, groups: int, h: int)
    requires
        groups > 0,
        0 <= h < heads * groups,
    ensures
        0 <= h / groups < heads,
{
    vstd::arithmetic::div_mod::lemma_fundamental_div_mod(h, groups);
    assert(0 <= h / groups < heads) by (nonlinear_arith)
        requires
            h == groups * (h / groups) + h % groups,
            0 <= h % groups < groups,
            0 <= h < heads * groups,
            groups > 0,
    ;
}

/// One element of a repeated head.
proof fn lemma_repeated_element(
    k: Array,
    groups: usize,
    kr: Array,
    b: int,
    h: int,
    j: int,
    l: int,
)
    requires
        spread_result(k, groups, Some(kr)),
        k.dims.len() == 4,
        groups > 0,
        kr.dims == dims_4(k.dims[0], (k.dims[1] * groups) as usize, k.dims[2], k.dims[3]),
        k.dims[1] * groups <= usize::MAX,
        0 <= b < k.dims[0] && 0 <= h < k.dims[1] * groups,
        0 <= j < k.dims[2] && 0 <= l < k.dims[3],
    ensures
        kr.elems[((b * kr.dims[1] + h) * k.dims[2] + j) * k.dims[3] + l] == k.elems[((b * k.dims[1]
            + h / groups as int) * k.dims[2] + j) * k.dims[3] + l],
{
    let idx = seq![b, h, j, l];
    assert(in_bounds(kr.dims, idx));
    assert(repeat_result(k, groups, Some(kr)));
    a_repeated_head_serves_its_group(k, groups, kr, idx);
    lemma_position_4(kr.dims, idx);
    let from = idx.update(1, h / groups as int);
    lemma_position_4(k.dims, from);
}

/// A layer adds to its input what its attention makes of the normalised input, and to that
/// what its block makes of it once it is normalised again.
pub proof fn a_layer_adds_its_attention_and_then_its_block(
    l: LayerView,
    x: Array,
    mask: Option<Array>,
    offset: int,
    total_capacity: usize,
    n: Option<CacheView>,
    out: Array,
) -> (found: (Array, Array, Array, Array, Array))
    requires
        layer_result(l, x, mask, offset, total_capacity, n, Some(out)),
    ensures
        norm_outcome(x, l.input_norm.weight, l.input_norm.eps, Some(found.0)),
        attend_result(l.attn, found.0, mask, offset, total_capacity, n, Some(found.1)),
        found.1.dims == x.dims && found.2.dims == x.dims,
        forall|e: int|
            0 <= e < found.2.elems.len() ==> add_outcome(
                found.2.dtype,
                found.1.elems[e],
                x.elems[e],
                #[trigger] found.2.elems[e],
            ),
        norm_outcome(found.2, l.post_norm.weight, l.post_norm.eps, Some(found.3)),
        mlp_result(l.mlp, found.3, Some(found.4)),
        found.4.dims == x.dims && out.dims == x.dims,
        found.2.elems.len() == found.1.elems.len() && out.elems.len() == found.2.elems.len(),
        forall|e: int|
            0 <= e < out.elems.len() ==> add_outcome(
                out.dtype,
                found.2.elems[e],
                found.4.elems[e],
                #[trigger] out.elems[e],
            ),
{
    let i = choose|i: Array| #[trigger]
        norm_result(l.input_norm, x, Some(i)) && exists|a: Option<Array>| #[trigger]
            attend_result(l.attn, i, mask, offset, total_capacity, n, a) && match a {
                None => false,
                Some(a) => exists|s: Option<Array>| #[trigger]
                    add_result(a, x, s) && match s {
                        None => false,
                        Some(s) => fed_result(l.post_norm, l.mlp, s, Some(out)),
                    },
            };
    let a = choose|a: Array| #[trigger]
        attend_result(l.attn, i, mask, offset, total_capacity, n, Some(a)) && exists|
            s: Option<Array>,
        | #[trigger]
            add_result(a, x, s) && match s {
                None => false,
                Some(s) => fed_result(l.post_norm, l.mlp, s, Some(out)),
            };
    let s = choose|s: Array| #[trigger]
        add_result(a, x, Some(s)) && fed_result(l.post_norm, l.mlp, s, Some(out));
    let j = choose|j: Array| #[trigger]
        norm_result(l.post_norm, s, Some(j)) && exists|f: Option<Array>| #[trigger]
            mlp_result(l.mlp, j, f) && match f {
                None => false,
                Some(f) => add_result(s, f, Some(out)),
            };
    let f = choose|f: Array| #[trigger]
        mlp_result(l.mlp, j, Some(f)) && add_result(s, f, Some(out));
    (i, a, s, j, f)
}

/// Each token has the features of the row of the table that it names. The largest number of
/// an element type names no row, and has no features but zeros.
pub open spec fn embedded(m: ModelView, ids: Array, x: Array) -> bool {
    let table = m.embed.embeddings;
    forall|t: int, j: int|
        0 <= t < ids.elems.len() && 0 <= j < table.dims[1] ==> #[trigger] x.elems[t * table.dims[1]
            + j] == if ids.dtype == DType::U32 && ids.elems[t] == 0xFFFF_FFFF || ids.dtype
            == DType::U8 && ids.elems[t] == 0xFF || ids.dtype == DType::I64 && ids.elems[t]
            == 0x7FFF_FFFF_FFFF_FFFF {
            0
        } else {
            table.elems[(ids.elems[t] as usize) * table.dims[1] + j]
        }
}

/// Layer `i` is given the mask that the caller gave. Where none was given, it needs none for
/// a single token, and else sees the past, as far as the window reaches where it is one of
/// the first layers and windows are enabled.
pub open spec fn masked(
    m: ModelView,
    ids: Array,
    offset: usize,
    given: Option<Array>,
    i: int,
    mask: Option<Array>,
) -> bool {
    if let Some(a) = given {
        mask is Some && attention_mask_result(m.dtype, a, mask)
    } else if ids.dims[1] <= 1 {
        mask is None
    } else {
        let reach = if m.windows.enabled && i < m.windows.layers {
            m.windows.reach
        } else {
            usize::MAX
        };
        mask is Some && causal_mask_result(
            m.dtype,
            reach,
            ids.dims[0],
            ids.dims[1],
            offset,
            mask,
        )
    }
}

/// A decoder begins with the rows of its table that the tokens name, and takes them through
/// its layers one after the other, each with its own mask. What the last layer yields is
/// normalised.
pub proof fn a_decoder_passes_its_tokens_through_its_layers(
    m: ModelView,
    ids: Array,
    offset: usize,
    given: Option<Array>,
    total_capacity: usize,
    caches: Seq<Option<CacheView>>,
    out: Array,
) -> (found: (Seq<Array>, Seq<Option<Array>>))
    requires
        decode_result(m, ids, offset, given, total_capacity, caches, Some(out)),
        m.wf(),
    ensures
        ids.dims.len() == 2,
        found.0.len() == m.layers.len() + 1 && found.1.len() == m.layers.len(),
        forall|i: int|
            0 <= i <= m.layers.len() ==> (#[trigger] found.0[i]).dims == seq![
                ids.dims[0],
                ids.dims[1],
                m.embed.embeddings.dims[1],
            ],
        embedded(m, ids, found.0[0]),
        forall|i: int|
            0 <= i < m.layers.len() ==> layer_result(
                m.layers[i],
                #[trigger] found.0[i],
                found.1[i],
                offset as int,
                total_capacity,
                caches[i],
                Some(found.0[i + 1]),
            ),
        forall|i: int|
            0 <= i < m.layers.len() ==> masked(m, ids, offset, given, i, #[trigger] found.1[i]),
        norm_outcome(
            found.0[m.layers.len() as int],
            m.norm.weight,
            m.norm.eps,
            Some(out),
        ),
        out.dims == found.0[0].dims,
{
    let (k, hidden) = lemma_run(m, ids, offset, given, total_capacity, caches, out);
    let masks = Seq::new(m.layers.len(), |i: int| k.of_layer(m.windows.layers as int, i));
    assert forall|i: int| 0 <= i < m.layers.len() implies layer_result(
        m.layers[i],
        #[trigger] hidden[i],
        masks[i],
        offset as int,
        total_capacity,
        caches[i],
        Some(hidden[i + 1]),
    ) by {
        assert(took(
            m.layers,
            run_of(m, k, offset, total_capacity),
            caches,
            hidden,
            i,
        ));
    }
    assert forall|i: int| 0 <= i <= m.layers.len() implies (#[trigger] hidden[i]).dims
        == hidden[0].dims by {
        lemma_same_shape(
            m.layers,
            run_of(m, k, offset, total_capacity),
            caches,
            hidden,
            m.layers.len() as int,
            i,
        );
    }
    lemma_tokens(m, ids, hidden[0]);
    assert(hidden[0].dims.last() == m.embed.embeddings.dims[1]);
    assert forall|i: int| 0 <= i < m.layers.len() implies masked(
        m,
        ids,
        offset,
        given,
        i,
        #[trigger] masks[i],
    ) by {
        lemma_masked(m, ids, offset, given, k, i);
    }
    (hidden, masks)
}

/// A run through a decoder with these masks.
spec fn run_of(m: ModelView, k: Masks, offset: usize, total_capacity: usize) -> Run {
    Run { masks: k, windowed: m.windows.layers as int, offset: offset as int, total_capacity }
}

/// What a successful run through a decoder went through.
proof fn lemma_run(
    m: ModelView,
    ids: Array,
    offset: usize,
    given: Option<Array>,
    total_capacity: usize,
    caches: Seq<Option<CacheView>>,
    out: Array,
) -> (found: (Masks, Seq<Array>))
    requires
        decode_result(m, ids, offset, given, total_capacity, caches, Some(out)),
    ensures
        ids.dims.len() == 2,
        mask_result(m.dtype, m.windows, ids, offset, given, Some(found.0)),
        passed(
            m.layers,
            run_of(m, found.0, offset, total_capacity),
            caches,
            found.1,
            m.layers.len() as int,
        ),
        embed_result(m.embed, ids, Some(found.1[0])),
        norm_result(m.norm, found.1[m.layers.len() as int], Some(out)),
{
    let k = choose|k: Masks| #[trigger]
        mask_result(m.dtype, m.windows, ids, offset, given, Some(k)) && exists|e: Option<Array>|
            #[trigger]
            embed_result(m.embed, ids, e) && match e {
                None => false,
                Some(e) => exists|h: Option<Array>| #[trigger]
                    stack_result(m.layers, e, run_of(m, k, offset, total_capacity), caches, h)
                        && match h {
                        None => false,
                        Some(h) => norm_result(m.norm, h, Some(out)),
                    },
            };
    let run = run_of(m, k, offset, total_capacity);
    let e = choose|e: Array| #[trigger]
        embed_result(m.embed, ids, Some(e)) && exists|h: Option<Array>| #[trigger]
            stack_result(m.layers, e, run, caches, h) && match h {
                None => false,
                Some(h) => norm_result(m.norm, h, Some(out)),
            };
    let h = choose|h: Array| #[trigger]
        stack_result(m.layers, e, run, caches, Some(h)) && norm_result(m.norm, h, Some(out));
    let (hidden, done): (Seq<Array>, int) = choose|hidden: Seq<Array>, done: int| #[trigger]
        passed(m.layers, run, caches, hidden, done) && hidden[0] == e && Some(h) == if done
            == m.layers.len() {
            Some(hidden[done])
        } else {
            None
        };
    (k, hidden)
}

/// The rows of the table that tokens name.
proof fn lemma_tokens(m: ModelView, ids: Array, e: Array)
    requires
        embed_result(m.embed, ids, Some(e)),
        m.wf(),
        ids.dims.len() == 2,
    ensures
        e.dims == seq![ids.dims[0], ids.dims[1], m.embed.embeddings.dims[1]],
        embedded(m, ids, e),
{
    let d = m.embed.embeddings.dims[1];
    assert(e.dims =~= seq![ids.dims[0], ids.dims[1], d]);
    assert forall|t: int, j: int|
        0 <= t < ids.elems.len() && 0 <= j < d implies #[trigger] e.elems[t * d + j]
        == if ids.dtype == DType::U32 && ids.elems[t] == 0xFFFF_FFFF || ids.dtype == DType::U8
        && ids.elems[t] == 0xFF || ids.dtype == DType::I64 && ids.elems[t]
        == 0x7FFF_FFFF_FFFF_FFFF {
        0
    } else {
        m.embed.embeddings.elems[(ids.elems[t] as usize) * d + j]
    } by {
        assert(e.elems[t * m.embed.hidden_size + j] == feature(m.embed.embeddings, ids, t, j));
    }
}

/// The mask of one layer.
proof fn lemma_masked(
    m: ModelView,
    ids: Array,
    offset: usize,
    given: Option<Array>,
    k: Masks,
    i: int,
)
    requires
        mask_result(m.dtype, m.windows, ids, offset, given, Some(k)),
    ensures
        masked(m, ids, offset, given, i, k.of_layer(m.windows.layers as int, i)),
{
    if given is None && ids.dims[1] > 1 {
        let near = choose|near: Array| #[trigger]
            causal_mask_result(
                m.dtype,
                m.windows.near(),
                ids.dims[0],
                ids.dims[1],
                offset,
                Some(near),
            ) && k.near == Some(near) && (!m.windows.enabled ==> k.far == k.near);
        assert(k.near == Some(near));
    }
}

/// The features between layers all have one shape.
proof fn lemma_same_shape(
    layers: Seq<LayerView>,
    run: Run,
    caches: Seq<Option<CacheView>>,
    hidden: Seq<Array>,
    done: int,
    i: int,
)
    requires
        passed(layers, run, caches, hidden, done),
        0 <= i <= done,
    ensures
        hidden[i].dims == hidden[0].dims,
    decreases i,
{
    if i > 0 {
        lemma_same_shape(layers, run, caches, hidden, done, i - 1);
        assert(took(layers, run, caches, hidden, i - 1));
        a_layer_keeps_the_shape(
            layers[i - 1],
            hidden[i - 1],
            run.masks.of_layer(run.windowed, i - 1),
            run.offset,
            run.total_capacity,
            caches[i - 1],
            hidden[i],
        );
    }
}

/// What a language model takes from its decoder.
pub(crate) proof fn lemma_last(
    m: LanguageView,
    ids: Array,
    offset: usize,
    total_capacity: usize,
    caches: Seq<Option<CacheView>>,
    out: Array,
) -> (found: (Array, Array))
    requires
        logits_result(m, ids, offset, total_capacity, caches, Some(out)),
    ensures
        ids.dims[1] > 0,
        decode_result(m.base, ids, offset, None, total_capacity, caches, Some(found.0)),
        narrow_result(found.0, 1, ids.dims[1] - 1, 1, Some(found.1)),
        linear_result(m.head, found.1, Some(out)),
{
    let h = choose|h: Array| #[trigger]
        decode_result(m.base, ids, offset, None, total_capacity, caches, Some(h)) && if ids.dims[1]
            == 0 {
            false
        } else {
            exists|l: Option<Array>| #[trigger]
                narrow_result(h, 1, ids.dims[1] - 1, 1, l) && match l {
                    None => false,
                    Some(l) => linear_result(m.head, l, Some(out)),
                }
        };
    let l = choose|l: Array| #[trigger]
        narrow_result(h, 1, ids.dims[1] - 1, 1, Some(l)) && linear_result(m.head, l, Some(out));
    (h, l)
}

/// A language model projects the features of the last position to the vocabulary. It gives
/// its decoder no mask.
pub proof fn a_language_model_projects_the_last_position(
    m: LanguageView,
    ids: Array,
    offset: usize,
    total_capacity: usize,
    caches: Seq<Option<CacheView>>,
    out: Array,
    b: int,
    j: int,
) -> (h: Array)
    requires
        logits_result(m, ids, offset, total_capacity, caches, Some(out)),
        m.base.wf(),
        0 <= b < ids.dims[0] && 0 <= j < m.head.weight.dims[0],
    ensures
        ids.dims.len() == 2,
        ids.dims[1] > 0,
        decode_result(m.base, ids, offset, None, total_capacity, caches, Some(h)),
        h.dims == seq![ids.dims[0], ids.dims[1], m.base.embed.embeddings.dims[1]],
        out.dims == seq![ids.dims[0], 1, m.head.weight.dims[0]],
        linear_outcome(
            h.dtype,
            features_at(h, b, ids.dims[1] - 1),
            weights_of(m.head, j),
            bias_of(m.head, j),
            at(out, seq![b, 0, j]),
        ),
{
    let (h, l) = lemma_last(m, ids, offset, total_capacity, caches, out);
    assert(ids.dims.len() == 2 && h.dims == seq![
        ids.dims[0],
        ids.dims[1],
        m.base.embed.embeddings.dims[1],
    ]) by {
        let (hidden, masks) = a_decoder_passes_its_tokens_through_its_layers(
            m.base,
            ids,
            offset,
            None,
            total_capacity,
            caches,
            h,
        );
        assert(hidden[0].dims == h.dims);
    }
    let d = m.base.embed.embeddings.dims[1];
    assert(l.dims =~= seq![ids.dims[0], 1, d]);
    assert(out.dims =~= seq![ids.dims[0], 1, m.head.weight.dims[0]]);
    a_projection_takes_each_position_alone(m.head, l, out, b, 0, j);
    let (row, last) = (features_at(l, b, 0), features_at(h, b, ids.dims[1] - 1));
    assert forall|p: int| 0 <= p < row.len() implies row[p] == last[p] by {
        let idx = seq![b, 0int, p];
        assert(in_bounds(l.dims, idx));
        assert(idx.update(1, idx[1] + (ids.dims[1] - 1)) =~= seq![b, ids.dims[1] - 1, p]);
    }
    assert(row =~= last);
    h
}

/// A call that fails before it has a key and a value leaves the cache as it was. One that
/// fails later leaves what storing them has made of it; only an entry that was refused is
/// left out.
pub proof fn a_failed_call_keeps_what_it_stored(
    a: AttentionView,
    x: Array,
    mask: Option<Array>,
    offset: int,
    total_capacity: usize,
    n: Option<CacheView>,
) -> (found: (Array, Array, Array))
    requires
        attend_result(a, x, mask, offset, total_capacity, n, None),
        n != a.cache,
    ensures
        x.dims.len() == 3,
        states_result(a, x, offset, Some((found.0, found.1, found.2))),
        a.cache matches Some(c) ==> n is Some && (insert_result(
            c,
            found.0,
            found.1,
            found.2,
            n->Some_0,
            true,
        ) || insert_result(c, found.0, found.1, found.2, n->Some_0, false)),
        a.cache is None ==> n is Some && insert_result(
            CacheView {
                heavy: Seq::empty(),
                recent: Seq::empty(),
                heavy_capacity: total_capacity as nat / 7,
                recent_capacity: 6 * total_capacity as nat / 7,
                num_heads: a.num_heads as nat,
                head_dim: a.head_dim as nat,
            },
            found.0,
            found.1,
            found.2,
            n->Some_0,
            true,
        ),
{
    let fresh = empty_cache(total_capacity as nat, a.num_heads as nat, a.head_dim as nat);
    let (q, k, v): (Array, Array, Array) = choose|q: Array, k: Array, v: Array| #[trigger]
        states_result(a, x, offset, Some((q, k, v))) && exists|kv: Option<(Array, Array)>|
            #[trigger]
            stored_result(a.cache, fresh, q, k, v, n, kv);
    let kv = choose|kv: Option<(Array, Array)>| #[trigger]
        stored_result(a.cache, fresh, q, k, v, n, kv);
    (q, k, v)
}

/// A run changes nothing of a language model but the caches of its layers, and clearing
/// leaves none of them.
pub proof fn only_the_caches_of_a_model_change(
    m: LanguageView,
    caches: Seq<Option<CacheView>>,
    i: int,
)
    requires
        caches.len() == m.base.layers.len(),
        0 <= i < m.base.layers.len(),
    ensures
        ({
            let (n, e) = (m.with_caches(caches), m.cleared());
            let (l, d) = (m.base.layers[i], n.base.layers[i]);
            &&& n.head == m.head && e.head == m.head
            &&& n.base.embed == m.base.embed && e.base.embed == m.base.embed
            &&& n.base.norm == m.base.norm && e.base.norm == m.base.norm
            &&& n.base.windows == m.base.windows && e.base.windows == m.base.windows
            &&& n.base.dtype == m.base.dtype && e.base.dtype == m.base.dtype
            &&& n.base.layers.len() == m.base.layers.len()
            &&& e.base.layers.len() == m.base.layers.len()
            &&& d.mlp == l.mlp && d.input_norm == l.input_norm && d.post_norm == l.post_norm
            &&& d.attn == (AttentionView { cache: caches[i], ..l.attn })
            &&& e.base.layers[i].mlp == l.mlp
            &&& e.base.layers[i].input_norm == l.input_norm
            &&& e.base.layers[i].post_norm == l.post_norm
            &&& e.base.layers[i].attn == (AttentionView { cache: None, ..l.attn })
        }),
{
}

/// A layer that fails has done no more to its cache than its attention has, which was given
/// the normalised input.
pub proof fn a_failed_layer_keeps_what_its_attention_stored(
    l: LayerView,
    x: Array,
    mask: Option<Array>,
    offset: int,
    total_capacity: usize,
    n: Option<CacheView>,
) -> (found: (Array, Option<Array>))
    requires
        layer_result(l, x, mask, offset, total_capacity, n, None),
        n != l.attn.cache,
    ensures
        norm_outcome(x, l.input_norm.weight, l.input_norm.eps, Some(found.0)),
        attend_result(l.attn, found.0, mask, offset, total_capacity, n, found.1),
{
    let i = choose|i: Array| #[trigger]
        norm_result(l.input_norm, x, Some(i)) && exists|a: Option<Array>| #[trigger]
            attend_result(l.attn, i, mask, offset, total_capacity, n, a);
    let a = choose|a: Option<Array>| #[trigger]
        attend_result(l.attn, i, mask, offset, total_capacity, n, a);
    (i, a)
}

/// A run that fails stops at the layer that fails: those before it have passed on what they
/// were given, and those after it have kept their caches. Without a layer that fails, the last
/// normalisation did.
pub proof fn a_failed_run_stops_where_it_fails(
    m: ModelView,
    ids: Array,
    offset: usize,
    given: Option<Array>,
    total_capacity: usize,
    caches: Seq<Option<CacheView>>,
) -> (found: (Seq<Array>, Seq<Option<Array>>, int))
    requires
        decode_result(m, ids, offset, given, total_capacity, caches, None),
        caches != caches_of(m.layers),
        m.wf(),
    ensures
        ids.dims.len() == 2,
        caches.len() == m.layers.len(),
        0 <= found.2 <= m.layers.len(),
        embedded(m, ids, found.0[0]),
        forall|i: int|
            0 <= i < m.layers.len() ==> masked(m, ids, offset, given, i, #[trigger] found.1[i]),
        forall|i: int|
            0 <= i < found.2 ==> layer_result(
                m.layers[i],
                #[trigger] found.0[i],
                found.1[i],
                offset as int,
                total_capacity,
                caches[i],
                Some(found.0[i + 1]),
            ),
        found.2 < m.layers.len() ==> layer_result(
            m.layers[found.2],
            found.0[found.2],
            found.1[found.2],
            offset as int,
            total_capacity,
            caches[found.2],
            None,
        ),
        found.2 == m.layers.len() ==> norm_result(m.norm, found.0[found.2], None),
        forall|i: int|
            found.2 < i < m.layers.len() ==> #[trigger] caches[i] == m.layers[i].attn.cache,
{
    let (k, hidden, done) = lemma_failed_run(m, ids, offset, given, total_capacity, caches);
    let run = run_of(m, k, offset, total_capacity);
    let masks = Seq::new(m.layers.len(), |i: int| k.of_layer(m.windows.layers as int, i));
    assert forall|i: int| 0 <= i < done implies layer_result(
        m.layers[i],
        #[trigger] hidden[i],
        masks[i],
        offset as int,
        total_capacity,
        caches[i],
        Some(hidden[i + 1]),
    ) by {
        assert(took(m.layers, run, caches, hidden, i));
    }
    lemma_tokens(m, ids, hidden[0]);
    assert forall|i: int| 0 <= i < m.layers.len() implies masked(
        m,
        ids,
        offset,
        given,
        i,
        #[trigger] masks[i],
    ) by {
        lemma_masked(m, ids, offset, given, k, i);
    }
    (hidden, masks, done)
}

/// What a failed run through a decoder went through.
proof fn lemma_failed_run(
    m: ModelView,
    ids: Array,
    offset: usize,
    given: Option<Array>,
    total_capacity: usize,
    caches: Seq<Option<CacheView>>,
) -> (found: (Masks, Seq<Array>, int))
    requires
        decode_result(m, ids, offset, given, total_capacity, caches, None),
        caches != caches_of(m.layers),
    ensures
        ids.dims.len() == 2,
        mask_result(m.dtype, m.windows, ids, offset, given, Some(found.0)),
        embed_result(m.embed, ids, Some(found.1[0])),
        passed(
            m.layers,
            run_of(m, found.0, offset, total_capacity),
            caches,
            found.1,
            found.2,
        ),
        found.2 == m.layers.len() ==> norm_result(m.norm, found.1[found.2], None),
{
    let k = choose|k: Masks| #[trigger]
        mask_result(m.dtype, m.windows, ids, offset, given, Some(k)) && exists|e: Option<Array>|
            #[trigger]
            embed_result(m.embed, ids, e) && match e {
                None => false,
                Some(e) => exists|h: Option<Array>| #[trigger]
                    stack_result(m.layers, e, run_of(m, k, offset, total_capacity), caches, h)
                        && match h {
                        None => true,
                        Some(h) => norm_result(m.norm, h, None),
                    },
            };
    let run = run_of(m, k, offset, total_capacity);
    let e = choose|e: Array| #[trigger]
        embed_result(m.embed, ids, Some(e)) && exists|h: Option<Array>| #[trigger]
            stack_result(m.layers, e, run, caches, h) && match h {
                None => true,
                Some(h) => norm_result(m.norm, h, None),
            };
    let h = choose|h: Option<Array>| #[trigger]
        stack_result(m.layers, e, run, caches, h) && match h {
            None => true,
            Some(h) => norm_result(m.norm, h, None),
        };
    let (hidden, done): (Seq<Array>, int) = choose|hidden: Seq<Array>, done: int| #[trigger]
        passed(m.layers, run, caches, hidden, done) && hidden[0] == e && h == if done
            == m.layers.len() {
            Some(hidden[done])
        } else {
            None
        };
    (k, hidden, done)
}

/// A language model that yields nothing has run its decoder all the same, and keeps what that
/// has left in the caches.
pub proof fn a_language_model_runs_its_decoder(
    m: LanguageView,
    ids: Array,
    offset: usize,
    total_capacity: usize,
    caches: Seq<Option<CacheView>>,
    out: Option<Array>,
) -> (h: Option<Array>)
    requires
        logits_result(m, ids, offset, total_capacity, caches, out),
    ensures
        decode_result(m.base, ids, offset, None, total_capacity, caches, h),
        h is None ==> out is None,
{
    choose|h: Option<Array>| #[trigger]
        decode_result(m.base, ids, offset, None, total_capacity, caches, h) && (h is None
            ==> out is None)
}

} // verus!
