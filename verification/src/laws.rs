//! Facts that relate the parts of the model to one another.

use crate::array::{
    Array, aligned, at, batch, cat_result, count, dims_2, dims_3, dims_4, expand_result, folded,
    in_bounds, joint_dim, lead, matrix_row, narrow_result, negative_infinity, position,
    reshape_result, scalar, standard, transpose_result, where_result, zeros_result,
};
use crate::attention::{
    AttentionView, attend_result, copies, first_stored, heads_result, joined_result, masked_result,
    next_stored, products_result, read_result, repeat_result, scores_result, spread_result,
    states_result, stored_result, usable,
};
use crate::cache::{
    CacheView, Entry, admitted, empty_cache, gather_result, insert_result, keys_of, ready,
    refreshed, rescored, score_result, scores_of, share_result, update_result, values_of,
};
use crate::config::Config;
use crate::decoder::{LayerView, layer_result};
use crate::language::{LanguageView, head_built, language_built};
use crate::masks::{
    NEG_INFINITY, attention_mask_result, causal, causal_mask_result, chosen_result, penalties,
    penalty, shifted_result, squares_result,
};
use crate::model::{
    Masks, Run, Windows, mask_result, model_built, passed, stack_result, took, with_caches,
};
use crate::nn::{LinearView, linear_result, norm_result};
use crate::retention::{
    contents, full, lemma_insertion_slides_the_window, nothing_is_lost_while_there_is_room,
    recording_attention_keeps_the_entries, taking_in_keeps_the_bounds,
};
use crate::rotary::{RotaryView, rotate_result, slice_result, turned_result};
use crate::tensor::{
    cast_outcome, cast_result, lemma_count_positive, lemma_lead_nonnegative, matmul_result,
    rope_outcome, rope_result, softmax_last_result, turns,
};
use crate::weights::WeightsView;
use candle_core::DType;
use vstd::prelude::*;

verus! {

/// An index within bounds names one of the elements.
pub proof fn an_index_names_an_element(dims: Seq<usize>, idx: Seq<int>)
    requires
        in_bounds(dims, idx),
    ensures
        0 <= position(dims, idx) < count(dims),
    decreases dims.len(),
{
    if dims.len() > 0 {
        let (d, i) = (dims.drop_last(), idx.drop_last());
        assert forall|k: int| 0 <= k < d.len() implies 0 <= #[trigger] i[k] < d[k] by {
            assert(i[k] == idx[k]);
        }
        an_index_names_an_element(d, i);
        let (p, c, n, j) = (position(d, i), count(d) as int, dims.last() as int, idx.last());
        assert(idx[dims.len() - 1] == j);
        assert(0 <= p * n + j < c * n) by (nonlinear_arith)
            requires
                0 <= p < c,
                0 <= j < n,
        ;
    }
}

/// The place of an element of a matrix.
pub(crate) proof fn lemma_position_2(dims: Seq<usize>, idx: Seq<int>)
    requires
        dims.len() == 2,
        idx.len() == 2,
    ensures
        position(dims, idx) == idx[0] * dims[1] + idx[1],
{
    reveal_with_fuel(position, 3);
    assert(dims.drop_last().drop_last().len() == 0);
    assert(position(dims.drop_last(), idx.drop_last()) == 0 * dims[0] + idx[0]);
}

/// The place of an element of an array of rank three.
pub(crate) proof fn lemma_position_3(dims: Seq<usize>, idx: Seq<int>)
    requires
        dims.len() == 3,
        idx.len() == 3,
    ensures
        position(dims, idx) == (idx[0] * dims[1] + idx[1]) * dims[2] + idx[2],
{
    reveal_with_fuel(position, 2);
    lemma_position_2(dims.drop_last(), idx.drop_last());
}

/// The place of an element of an array of rank four.
pub(crate) proof fn lemma_position_4(dims: Seq<usize>, idx: Seq<int>)
    requires
        dims.len() == 4,
        idx.len() == 4,
    ensures
        position(dims, idx) == ((idx[0] * dims[1] + idx[1]) * dims[2] + idx[2]) * dims[3] + idx[3],
{
    reveal_with_fuel(position, 2);
    let (d, i) = (dims.drop_last().drop_last(), idx.drop_last().drop_last());
    lemma_position_2(d, i);
    assert(position(dims.drop_last(), idx.drop_last()) == position(d, i) * dims[2] + idx[2]);
}

/// Reading a mask that was repeated for each member of a batch.
proof fn lemma_reading_a_repeated_matrix(
    m: Array,
    batch: usize,
    rows: usize,
    columns: usize,
    e: Array,
    b: int,
    i: int,
    c: int,
)
    requires
        m.dims == dims_2(rows, columns),
        expand_result(m, dims_4(batch, 1, rows, columns), Some(e)),
        0 <= b < batch,
        0 <= i < rows,
        0 <= c < columns,
    ensures
        at(e, seq![b, 0, i, c]) == at(m, seq![i, c]),
{
    let idx = seq![b, 0, i, c];
    assert(in_bounds(dims_4(batch, 1, rows, columns), idx));
    assert(folded(m.dims, idx) =~= seq![i, c]);
}

/// Whether `out` is what a single-precision number becomes in another element type.
/// Zero becomes zero, and negative infinity stays what it is in the standard types.
pub open spec fn becomes(dtype: DType, bits: u32, out: u64) -> bool {
    if dtype == DType::F32 {
        out == bits
    } else {
        &&& cast_outcome(DType::F32, dtype, bits as u64, out)
        &&& bits == 0 ==> out == 0
        &&& bits == NEG_INFINITY && standard(dtype) ==> out == negative_infinity(dtype)
    }
}

/// Whether a mask closes a position: in a standard element type it adds negative infinity to
/// its weight, and in any other what single-precision negative infinity becomes there.
pub open spec fn closed(dtype: DType, added: u64) -> bool {
    if dtype == DType::F32 {
        added == 0xFF80_0000
    } else {
        &&& cast_outcome(DType::F32, dtype, 0xFF80_0000, added)
        &&& standard(dtype) ==> added == negative_infinity(dtype)
    }
}

/// Under a causal mask a new position sees every earlier position of the sequence,
/// itself, and of the new positions before it those that lie no further back than the
/// window, and nothing else: what lies ahead is closed, and so is what lies further back.
pub proof fn a_position_sees_what_the_window_reaches(
    dtype: DType,
    window: usize,
    batch: usize,
    n: usize,
    offset: usize,
    mask: Array,
    b: int,
    i: int,
    j: int,
)
    requires
        causal_mask_result(dtype, window, batch, n, offset, Some(mask)),
        0 <= b < batch,
        0 <= i < n,
        0 <= j < n + offset,
    ensures
        mask.dtype == dtype,
        mask.dims == seq![batch, 1, n, (n + offset) as usize],
        j < offset ==> at(mask, seq![b, 0, i, j]) == 0,
        j - offset > i ==> closed(dtype, at(mask, seq![b, 0, i, j])),
        j >= offset && 0 <= i - (j - offset) <= window ==> at(mask, seq![b, 0, i, j]) == 0,
        j >= offset && i - (j - offset) > window ==> closed(dtype, at(mask, seq![b, 0, i, j])),
        becomes(
            dtype,
            if j < offset {
                0
            } else {
                penalty(i, j - offset, window as int)
            },
            at(mask, seq![b, 0, i, j]),
        ),
{
    let c = causal(n, window);
    let dims = dims_4(batch, 1, n, (n + offset) as usize);
    let m = choose|m: Array| #[trigger]
        shifted_result(dtype, c, offset, Some(m)) && exists|e: Option<Array>| #[trigger]
            expand_result(m, dims, e) && match e {
                None => false,
                Some(e) => cast_result(e, dtype, Some(mask)),
            };
    let e = choose|e: Array| #[trigger]
        expand_result(m, dims, Some(e)) && cast_result(e, dtype, Some(mask));
    lemma_shifted_mask(dtype, c, n, offset, m);
    lemma_reading_a_repeated_matrix(m, batch, n, (n + offset) as usize, e, b, i, j);
    if j >= offset {
        let q = j - offset;
        lemma_shifted_new_column(dtype, c, n, offset, m, i, q);
        lemma_causal_element(n, window, i, q);
    } else {
        lemma_shifted_old_column(dtype, c, n, offset, m, i, j);
    }
    let idx = seq![b, 0, i, j];
    assert(in_bounds(dims, idx));
    an_index_names_an_element(dims, idx);
    assert(mask.elems[position(dims, idx)] == at(mask, idx));
}

/// The element of a causal mask for two positions.
proof fn lemma_causal_element(n: usize, window: usize, i: int, j: int)
    requires
        0 <= i < n,
        0 <= j < n,
    ensures
        at(causal(n, window), seq![i, j]) == penalty(i, j, window as int),
{
    let idx = seq![i, j];
    lemma_position_2(dims_2(n, n), idx);
    vstd::arithmetic::div_mod::lemma_fundamental_div_mod_converse(i * n + j, n as int, i, j);
    assert(0 <= i * n + j < n * n) by (nonlinear_arith)
        requires
            0 <= i < n,
            0 <= j < n,
    ;
    assert(penalties(n as int, window as int)[i * n + j] == penalty(i, j, window as int));
}

/// The shape of a mask with columns for earlier positions.
proof fn lemma_shifted_mask(dtype: DType, c: Array, n: usize, offset: usize, m: Array)
    requires
        c.dims == dims_2(n, n),
        c.dtype == DType::F32,
        n + offset <= usize::MAX,
        shifted_result(dtype, c, offset, Some(m)),
    ensures
        m.dims == dims_2(n, (n + offset) as usize),
        m.dtype == DType::F32,
{
    if offset > 0 {
        let z = choose|z: Array| #[trigger]
            zeros_result(dims_2(c.dims[0], offset), dtype, Some(z)) && cat_result(
                seq![z, c],
                1,
                Some(m),
            );
        reveal_with_fuel(lead, 3);
        assert(seq![z, c][0] == z && seq![z, c][1] == c);
        assert(m.dims =~= dims_2(n, (n + offset) as usize));
    } else {
        assert(m.dims =~= dims_2(n, (n + offset) as usize));
    }
}

/// A column of a mask for a new position.
proof fn lemma_shifted_new_column(
    dtype: DType,
    c: Array,
    n: usize,
    offset: usize,
    m: Array,
    i: int,
    j: int,
)
    requires
        c.dims == dims_2(n, n),
        c.dtype == DType::F32,
        shifted_result(dtype, c, offset, Some(m)),
        0 <= i < n,
        0 <= j < n,
    ensures
        at(m, seq![i, offset + j]) == at(c, seq![i, j]),
{
    if offset > 0 {
        let z = choose|z: Array| #[trigger]
            zeros_result(dims_2(c.dims[0], offset), dtype, Some(z)) && cat_result(
                seq![z, c],
                1,
                Some(m),
            );
        let parts = seq![z, c];
        reveal_with_fuel(lead, 3);
        assert(parts[0] == z && parts[1] == c);
        assert(in_bounds(parts[1].dims, seq![i, j]));
        assert(at(parts[1], seq![i, j]) == at(m, seq![i, j].update(1, j + lead(parts, 1, 1))));
        assert(seq![i, j].update(1, j + offset) =~= seq![i, offset + j]);
    } else {
        assert(seq![i, offset + j] =~= seq![i, j]);
    }
}

/// A column of a mask for an earlier position.
proof fn lemma_shifted_old_column(
    dtype: DType,
    c: Array,
    n: usize,
    offset: usize,
    m: Array,
    i: int,
    j: int,
)
    requires
        c.dims == dims_2(n, n),
        c.dtype == DType::F32,
        shifted_result(dtype, c, offset, Some(m)),
        0 <= i < n,
        0 <= j < offset,
    ensures
        at(m, seq![i, j]) == 0,
{
    let z = choose|z: Array| #[trigger]
        zeros_result(dims_2(c.dims[0], offset), dtype, Some(z)) && cat_result(
            seq![z, c],
            1,
            Some(m),
        );
    let parts = seq![z, c];
    let idx = seq![i, j];
    reveal_with_fuel(lead, 2);
    assert(parts[0] == z);
    assert(in_bounds(parts[0].dims, idx));
    an_index_names_an_element(parts[0].dims, idx);
    assert(at(parts[0], idx) == at(m, idx.update(1, idx[1] + lead(parts, 1, 0))));
    assert(idx.update(1, j) =~= idx);
}

/// Under a mask that was given, every position of a member of the batch sees
/// exactly the positions whose number in that member's row is not zero.
pub proof fn a_given_mask_shows_what_it_marks(
    dtype: DType,
    a: Array,
    batch: usize,
    n: usize,
    mask: Array,
    b: int,
    i: int,
    j: int,
)
    requires
        attention_mask_result(dtype, a, Some(mask)),
        a.dims == dims_2(batch, n),
        a.elems.len() == count(a.dims),
        0 <= b < batch,
        0 <= i < n,
        0 <= j < n,
    ensures
        at(a, seq![b, j]) != 0 ==> at(mask, seq![b, 0, i, j]) == 0,
        at(a, seq![b, j]) == 0 ==> closed(dtype, at(mask, seq![b, 0, i, j])),
        at(a, seq![b, j]) == 0 ==> becomes(dtype, NEG_INFINITY, at(mask, seq![b, 0, i, j])),
{
    let rows = choose|rows: Seq<Array>| #[trigger]
        squares_result(a, Some(rows)) && exists|m: Option<Array>| #[trigger]
            cat_result(rows, 0, m) && match m {
                None => false,
                Some(m) => chosen_result(dtype, m, Some(mask)),
            };
    let m = choose|m: Array| #[trigger]
        cat_result(rows, 0, Some(m)) && chosen_result(dtype, m, Some(mask));
    lemma_stacked_rows(a, batch, n, rows, m, b, i, j);
    lemma_chosen_element(dtype, m, mask, seq![b, 0, i, j]);
}

/// The rows of a matrix, each repeated to a square, one upon the other.
proof fn lemma_stacked_rows(
    a: Array,
    batch: usize,
    n: usize,
    rows: Seq<Array>,
    m: Array,
    b: int,
    i: int,
    j: int,
)
    requires
        a.dims == dims_2(batch, n),
        a.elems.len() == count(a.dims),
        squares_result(a, Some(rows)),
        cat_result(rows, 0, Some(m)),
        0 <= b < batch,
        0 <= i < n,
        0 <= j < n,
    ensures
        m.elems.len() == count(m.dims),
        in_bounds(m.dims, seq![b, 0, i, j]),
        at(m, seq![b, 0, i, j]) == at(a, seq![b, j]),
{
    let one = matrix_row(a, b);
    let idx = seq![0int, 0, i, j];
    assert(expand_result(one, dims_4(1, 1, n, n), Some(rows[b])));
    assert(in_bounds(dims_4(1, 1, n, n), idx));
    assert(at(rows[b], idx) == at(one, folded(one.dims, idx)));
    assert(folded(one.dims, idx) =~= seq![j]);
    reveal_with_fuel(position, 3);
    assert(seq![n].drop_last().len() == 0);
    assert(position(seq![n], seq![j]) == 0 * n + j);
    lemma_position_2(a.dims, seq![b, j]);
    an_index_names_an_element(a.dims, seq![b, j]);
    lemma_count_2(batch, n);
    assert((b + 1) * n <= batch * n && b * n + n == (b + 1) * n && b * n >= 0) by (nonlinear_arith)
        requires
            0 <= b < batch,
            n >= 0,
    ;
    assert(one.elems[j] == a.elems[b * n + j]);
    assert forall|p: int| 0 <= p < rows.len() implies (#[trigger] rows[p]).dims == dims_4(
        1,
        1,
        n,
        n,
    ) by {
        assert(expand_result(matrix_row(a, p), dims_4(1, 1, n, n), Some(rows[p])));
    }
    lemma_lead_of_units(rows, b);
    lemma_lead_of_units(rows, rows.len() as int);
    if rows.len() > 1 {
        assert(in_bounds(rows[b].dims, idx));
        assert(at(rows[b], idx) == at(m, idx.update(0, idx[0] + lead(rows, 0, b))));
        assert(idx.update(0, b) =~= seq![b, 0, i, j]);
        assert(m.dims[1] == rows[0].dims[1] && m.dims[2] == rows[0].dims[2] && m.dims[3]
            == rows[0].dims[3]);
    } else {
        assert(b == 0);
        assert(rows[0].dims == dims_4(1, 1, n, n));
        assert(idx =~= seq![b, 0, i, j]);
    }
}

/// The number of elements of a matrix.
pub(crate) proof fn lemma_count_2(a: usize, b: usize)
    ensures
        count(dims_2(a, b)) == a * b,
{
    reveal_with_fuel(count, 3);
    assert(dims_2(a, b).drop_last() =~= seq![a]);
    assert(seq![a].drop_last() =~= Seq::<usize>::empty());
    let c = count(seq![a]);
    assert(c == 1 * a as nat);
    assert(c * b as nat == a * b) by (nonlinear_arith)
        requires
            c == 1 * a as nat,
    ;
}

/// The total size on the first axis of arrays that each have size one there.
pub(crate) proof fn lemma_lead_of_units(parts: Seq<Array>, n: int)
    requires
        0 <= n <= parts.len(),
        forall|p: int| 0 <= p < parts.len() ==> (#[trigger] parts[p]).dims[0] == 1,
    ensures
        lead(parts, 0, n) == n,
    decreases n,
{
    if n > 0 {
        lemma_lead_of_units(parts, n - 1);
        assert(parts[n - 1].dims[0] == 1);
    }
}

/// What a mask becomes at one place.
proof fn lemma_chosen_element(dtype: DType, m: Array, mask: Array, idx: Seq<int>)
    requires
        chosen_result(dtype, m, Some(mask)),
        m.elems.len() == count(m.dims),
        in_bounds(m.dims, idx),
    ensures
        at(m, idx) != 0 ==> at(mask, idx) == 0,
        at(m, idx) == 0 ==> closed(dtype, at(mask, idx)),
        at(m, idx) == 0 ==> becomes(dtype, NEG_INFINITY, at(mask, idx)),
{
    let negative = scalar(DType::F32, NEG_INFINITY as u64);
    let z = choose|z: Array| #[trigger]
        zeros_result(m.dims, m.dtype, Some(z)) && exists|t: Option<Array>| #[trigger]
            cast_result(z, dtype, t) && match t {
                None => false,
                Some(t) => exists|e: Option<Array>| #[trigger]
                    expand_result(negative, m.dims, e) && match e {
                        None => false,
                        Some(e) => exists|f: Option<Array>| #[trigger]
                            cast_result(e, dtype, f) && match f {
                                None => false,
                                Some(f) => where_result(m, t, f, Some(mask)),
                            },
                    },
            };
    let t = choose|t: Array| #[trigger]
        cast_result(z, dtype, Some(t)) && exists|e: Option<Array>| #[trigger]
            expand_result(negative, m.dims, e) && match e {
                None => false,
                Some(e) => exists|f: Option<Array>| #[trigger]
                    cast_result(e, dtype, f) && match f {
                        None => false,
                        Some(f) => where_result(m, t, f, Some(mask)),
                    },
            };
    let e = choose|e: Array| #[trigger]
        expand_result(negative, m.dims, Some(e)) && exists|f: Option<Array>| #[trigger]
            cast_result(e, dtype, f) && match f {
                None => false,
                Some(f) => where_result(m, t, f, Some(mask)),
            };
    an_index_names_an_element(m.dims, idx);
    let p = position(m.dims, idx);
    assert(z.elems[p] == 0);
    assert(t.elems[p] == 0);
    assert(at(e, idx) == at(negative, folded(negative.dims, idx)));
}

/// Without windows, and in the layers past the windowed ones, a position sees the
/// whole past and nothing of what lies ahead.
pub proof fn a_layer_without_a_window_sees_the_whole_past(
    dtype: DType,
    windows: Windows,
    ids: Array,
    offset: usize,
    masks: Masks,
    layer: int,
    b: int,
    i: int,
    j: int,
)
    requires
        mask_result(dtype, windows, ids, offset, None, Some(masks)),
        ids.dims.len() == 2,
        ids.dims[1] > 1,
        !windows.enabled || layer >= windows.layers,
        0 <= b < ids.dims[0],
        0 <= i < ids.dims[1],
        0 <= j < ids.dims[1] + offset,
    ensures
        masks.of_layer(windows.layers as int, layer) matches Some(mask) && {
            &&& j - offset <= i ==> at(mask, seq![b, 0, i, j]) == 0
            &&& j - offset > i ==> closed(dtype, at(mask, seq![b, 0, i, j]))
            &&& becomes(
                dtype,
                if j - offset <= i {
                    0
                } else {
                    NEG_INFINITY
                },
                at(mask, seq![b, 0, i, j]),
            )
        },
{
    let (batch, n) = (ids.dims[0], ids.dims[1]);
    let mask = masks.of_layer(windows.layers as int, layer)->0;
    assert(causal_mask_result(dtype, usize::MAX, batch, n, offset, Some(mask)));
    a_position_sees_what_the_window_reaches(
        dtype,
        usize::MAX,
        batch,
        n,
        offset,
        mask,
        b,
        i,
        j,
    );
}

/// A windowed layer sees no further back than the window reaches.
pub proof fn a_windowed_layer_sees_through_its_window(
    dtype: DType,
    windows: Windows,
    ids: Array,
    offset: usize,
    masks: Masks,
    layer: int,
    b: int,
    i: int,
    j: int,
)
    requires
        mask_result(dtype, windows, ids, offset, None, Some(masks)),
        ids.dims.len() == 2,
        ids.dims[1] > 1,
        windows.enabled && layer < windows.layers,
        0 <= b < ids.dims[0],
        0 <= i < ids.dims[1],
        0 <= j < ids.dims[1] + offset,
    ensures
        masks.of_layer(windows.layers as int, layer) matches Some(mask) && {
            &&& j < offset ==> at(mask, seq![b, 0, i, j]) == 0
            &&& j - offset > i ==> closed(dtype, at(mask, seq![b, 0, i, j]))
            &&& j >= offset && 0 <= i - (j - offset) <= windows.reach ==> at(
                mask,
                seq![b, 0, i, j],
            ) == 0
            &&& j >= offset && i - (j - offset) > windows.reach ==> closed(
                dtype,
                at(mask, seq![b, 0, i, j]),
            )
            &&& becomes(
                dtype,
                if j < offset {
                    0
                } else {
                    penalty(i, j - offset, windows.reach as int)
                },
                at(mask, seq![b, 0, i, j]),
            )
        },
{
    let (batch, n) = (ids.dims[0], ids.dims[1]);
    let mask = masks.near->0;
    assert(causal_mask_result(dtype, windows.reach, batch, n, offset, Some(mask)));
    a_position_sees_what_the_window_reaches(
        dtype,
        windows.reach,
        batch,
        n,
        offset,
        mask,
        b,
        i,
        j,
    );
}

/// Whether `out` is what the feature that `idx` names may become in a pass that begins
/// at position `offset`: its pair is turned by the angle of the position where it
/// stands in the whole sequence.
pub open spec fn turned_in_place(
    r: RotaryView,
    x: Array,
    offset: int,
    idx: Seq<int>,
    out: u64,
) -> bool {
    let half = x.dims[3] / 2;
    let f = idx[3] % half as int;
    rope_outcome(
        x.dtype,
        at(x, idx.update(3, f)),
        at(x, idx.update(3, f + half)),
        at(r.cos, seq![offset + idx[2], f]),
        at(r.sin, seq![offset + idx[2], f]),
        idx[3] >= half,
        out,
    )
}

/// Reading a slice of the angles.
proof fn lemma_sliced_angle(a: Array, offset: int, len: usize, c: Array, p: int, f: int)
    requires
        slice_result(a, offset, len, Some(c)),
        a.dims.len() == 2,
        0 <= p < len,
        0 <= f < a.dims[1],
    ensures
        c.dims == a.dims.update(0, len),
        at(c, seq![p, f]) == at(a, seq![offset + p, f]),
{
    let idx = seq![p, f];
    assert(narrow_result(a, 0, offset, len, Some(c)));
    assert(in_bounds(c.dims, idx));
    assert(at(c, idx) == at(a, idx.update(0, idx[0] + offset)));
    assert(idx.update(0, p + offset) =~= seq![offset + p, f]);
}

/// One array of heads is rotated in place.
proof fn lemma_turned_in_place(
    r: RotaryView,
    x: Array,
    offset: int,
    len: usize,
    c: Array,
    s: Array,
    y: Array,
    idx: Seq<int>,
)
    requires
        slice_result(r.cos, offset, len, Some(c)),
        slice_result(r.sin, offset, len, Some(s)),
        turned_result(x, c, s, Some(y)),
        in_bounds(x.dims, idx),
    ensures
        x.dims.len() == 4,
        y.dims == x.dims,
        y.dtype == x.dtype,
        x.dims[2] > 0 && x.dims[3] > 0,
        2 * r.cos.dims[1] == x.dims[3],
        turned_in_place(r, x, offset, idx, at(y, idx)),
{
    assert(rope_result(x, c, s, Some(y)));
    assert(narrow_result(r.cos, 0, offset, len, Some(c)));
    assert(narrow_result(r.sin, 0, offset, len, Some(s)));
    let half = x.dims[3] / 2;
    let f = idx[3] % half as int;
    assert(idx[2] < x.dims[2] && idx[3] < x.dims[3]);
    lemma_sliced_angle(r.cos, offset, len, c, idx[2], f);
    lemma_sliced_angle(r.sin, offset, len, s, idx[2], f);
    assert(turns(x, c, s, idx, at(y, idx)));
}

/// Each row of queries and keys is rotated by its own absolute position, and by
/// nothing else.
pub proof fn a_row_is_rotated_by_its_own_position(
    r: RotaryView,
    q: Array,
    k: Array,
    offset: int,
    qe: Array,
    ke: Array,
    idx: Seq<int>,
)
    requires
        rotate_result(r, q, k, offset, Some((qe, ke))),
    ensures
        in_bounds(q.dims, idx) ==> qe.dims == q.dims && turned_in_place(
            r,
            q,
            offset,
            idx,
            at(qe, idx),
        ),
        in_bounds(k.dims, idx) ==> ke.dims == k.dims && turned_in_place(
            r,
            k,
            offset,
            idx,
            at(ke, idx),
        ),
{
    let len = q.dims[2];
    let c = choose|c: Array| #[trigger]
        slice_result(r.cos, offset, len, Some(c)) && exists|s: Option<Array>| #[trigger]
            slice_result(r.sin, offset, len, s) && match s {
                None => false,
                Some(s) => turned_result(q, c, s, Some(qe)) && turned_result(k, c, s, Some(ke)),
            };
    let s = choose|s: Array| #[trigger]
        slice_result(r.sin, offset, len, Some(s)) && turned_result(q, c, s, Some(qe))
            && turned_result(k, c, s, Some(ke));
    if in_bounds(q.dims, idx) {
        lemma_turned_in_place(r, q, offset, len, c, s, qe, idx);
    }
    if in_bounds(k.dims, idx) {
        lemma_turned_in_place(r, k, offset, len, c, s, ke, idx);
    }
}

/// A token is rotated alike in a pass over the whole prompt and in one that begins
/// later: what its features may become does not depend on where the pass begins.
pub proof fn a_rotation_does_not_depend_on_where_a_pass_begins(
    r: RotaryView,
    x: Array,
    later: Array,
    start: int,
    len: usize,
    offset: int,
    idx: Seq<int>,
    out: u64,
)
    requires
        x.dims.len() == 4,
        x.dims[3] >= 2,
        x.dims[3] % 2 == 0,
        narrow_result(x, 2, start, len, Some(later)),
        start >= 0,
        in_bounds(later.dims, idx),
    ensures
        turned_in_place(r, later, offset + start, idx, out) == turned_in_place(
            r,
            x,
            offset,
            idx.update(2, idx[2] + start),
            out,
        ),
{
    let half = x.dims[3] / 2;
    let f = idx[3] % half as int;
    assert(later.dims[3] == x.dims[3]);
    let moved = idx.update(2, idx[2] + start);
    let (lo, hi) = (idx.update(3, f), idx.update(3, f + half));
    assert(in_bounds(later.dims, lo));
    assert(in_bounds(later.dims, hi));
    assert(at(later, lo) == at(x, lo.update(2, lo[2] + start)));
    assert(at(later, hi) == at(x, hi.update(2, hi[2] + start)));
    assert(lo.update(2, lo[2] + start) =~= moved.update(3, f));
    assert(hi.update(2, hi[2] + start) =~= moved.update(3, f + half));
    assert(offset + start + idx[2] == offset + moved[2]);
}

/// Attention is only recorded between a query and keys with as many heads.
pub proof fn recorded_keys_have_the_heads_of_the_query(
    query: Array,
    key: Array,
    factor: u64,
    heads: u64,
    share: Array,
)
    requires
        share_result(query, key, factor, heads, Some(share)),
        query.dims.len() == 4,
        query.dims[0] > 0,
        query.dims[3] > 0,
        key.dims[0] == query.dims[0],
    ensures
        key.dims.len() == 4,
        key.dims[1] == query.dims[1],
        key.dims[3] == query.dims[3],
{
    let t = choose|t: Array| #[trigger]
        transpose_result(key, 2, 3, Some(t)) && exists|w: Option<Array>| #[trigger]
            matmul_result(query, t, w) && match w {
                None => false,
                Some(w) => w.elems.len() > 0,
            };
    let w = choose|w: Array| #[trigger] matmul_result(query, t, Some(w)) && w.elems.len() > 0;
    lemma_batch_4(query.dims);
    lemma_batch_4(t.dims);
    let (b, h, g) = (query.dims[0] as int, query.dims[1] as int, t.dims[1] as int);
    assert(h == g) by (nonlinear_arith)
        requires
            b * h == b * g,
            b > 0,
    ;
}

/// The number of matrices in an array of rank four.
pub(crate) proof fn lemma_batch_4(dims: Seq<usize>)
    requires
        dims.len() == 4,
    ensures
        batch(dims) == dims[0] * dims[1],
{
    assert(dims.take(2) =~= dims_2(dims[0], dims[1]));
    lemma_count_2(dims[0], dims[1]);
}

/// The total size of copies of one array.
pub(crate) proof fn lemma_lead_of_copies(x: Array, n: nat, dim: int, r: int)
    requires
        0 <= r <= n,
    ensures
        lead(copies(x, n), dim, r) == r * x.dims[dim],
    decreases r,
{
    let d = x.dims[dim] as int;
    if r > 0 {
        lemma_lead_of_copies(x, n, dim, r - 1);
        assert(copies(x, n)[r - 1] == x);
        assert((r - 1) * d + d == r * d) by (nonlinear_arith);
    } else {
        assert(0 * d == 0) by (nonlinear_arith);
    }
}

/// Repeating heads puts the copies of one head next to each other: each key and
/// value head serves that many query heads in a row.
#[verifier::spinoff_prover]
pub proof fn a_repeated_head_serves_its_group(x: Array, n: usize, t: Array, idx: Seq<int>)
    requires
        repeat_result(x, n, Some(t)),
        n > 0,
        x.dims.len() == 4,
        in_bounds(t.dims, idx),
    ensures
        t.dims == dims_4(x.dims[0], (x.dims[1] * n) as usize, x.dims[2], x.dims[3]),
        at(t, idx) == at(x, idx.update(1, idx[1] / n as int)),
{
    if n == 1 {
        assert(x.dims =~= dims_4(x.dims[0], (x.dims[1] * n) as usize, x.dims[2], x.dims[3]));
        assert(idx.update(1, idx[1] / n as int) =~= idx);
    } else {
        let parts = copies(x, n as nat);
        let c = choose|c: Array| #[trigger]
            cat_result(parts, 2, Some(c)) && reshape_result(
                c,
                dims_4(x.dims[0], (x.dims[1] * n) as usize, x.dims[2], x.dims[3]),
                Some(t),
            );
        let (d0, d1, d2, d3) = (
            x.dims[0] as int,
            x.dims[1] as int,
            x.dims[2] as int,
            x.dims[3] as int,
        );
        let (b, h, s, f) = (idx[0], idx[1], idx[2], idx[3]);
        let (kv, r) = (h / n as int, h % n as int);
        vstd::arithmetic::div_mod::lemma_fundamental_div_mod(h, n as int);
        assert(0 <= kv < d1 && 0 <= r < n) by (nonlinear_arith)
            requires
                h == n * kv + r,
                r == h % n as int,
                n > 0,
                0 <= h < d1 * n,
        ;
        let source = idx.update(1, kv);
        assert(parts[r] == x && parts[0] == x);
        assert(in_bounds(parts[r].dims, source));
        lemma_lead_of_copies(x, n as nat, 2, r);
        lemma_lead_of_copies(x, n as nat, 2, n as int);
        let target = source.update(2, s + r * d2);
        assert(at(parts[r], source) == at(c, source.update(2, source[2] + lead(parts, 2, r))));
        lemma_position_4(c.dims, target);
        lemma_position_4(t.dims, idx);
        assert(c.dims[1] == d1 && c.dims[2] == n * d2 && c.dims[3] == d3);
        lemma_regrouped(b, d1, n as int, d2, kv, r);
        assert(h == n * kv + r);
        let row = (b * (d1 * n) + h) * d2 + s;
        assert(row == (b * d1 + kv) * (n * d2) + (s + r * d2));
        assert(at(t, idx) == t.elems[row * d3 + f]);
        assert(at(c, target) == c.elems[row * d3 + f]);
    }
}

/// The place of a head that is repeated next to itself.
proof fn lemma_regrouped(b: int, heads: int, n: int, size: int, kv: int, r: int)
    ensures
        (b * (heads * n) + (n * kv + r)) * size == (b * heads + kv) * (n * size) + r * size,
{
    let x = b * heads + kv;
    assert(b * (heads * n) == (b * heads) * n) by (nonlinear_arith);
    assert((b * heads) * n + n * kv == x * n) by (nonlinear_arith)
        requires
            x == b * heads + kv,
    ;
    assert((x * n + r) * size == (x * n) * size + r * size) by (nonlinear_arith);
    assert((x * n) * size == x * (n * size)) by (nonlinear_arith);
}

/// Where all attention could be recorded, every key that was held has the heads of
/// the query, given that it has its batch.
pub proof fn a_complete_recording_needs_as_many_heads(
    c: CacheView,
    query: Array,
    n: CacheView,
    p: int,
)
    requires
        update_result(c, query, n, true),
        query.dims.len() == 4,
        query.dims[0] > 0,
        query.dims[3] > 0,
        0 <= p < contents(c).len(),
        contents(c)[p].k.dims[0] == query.dims[0],
    ensures
        contents(c)[p].k.dims.len() == 4,
        contents(c)[p].k.dims[1] == query.dims[1],
{
    let (f, h): (u64, u64) = choose|f: u64, h: u64| #[trigger]
        rescored(c, query, f, h, n, true);
    let key = contents(c)[p].k;
    let (hk, hs, ht) = (keys_of(c.heavy), scores_of(c.heavy), scores_of(n.heavy));
    let (rk, rs, rt) = (keys_of(c.recent), scores_of(c.recent), scores_of(n.recent));
    assert(refreshed(true, query, f, h, hk, hs, ht, c.heavy.len() as int));
    assert(refreshed(false, query, f, h, rk, rs, rt, c.recent.len() as int));
    let (decays, score, out) = if p < c.heavy.len() {
        (true, hs[p], ht[p])
    } else {
        (false, rs[p - c.heavy.len()], rt[p - c.heavy.len()])
    };
    assert(score_result(decays, query, key, f, h, score, Some(out))) by {
        if p < c.heavy.len() {
            assert(hk[p] == key);
        } else {
            assert(rk[p - c.heavy.len()] == key);
        }
    }
    let share = choose|share: Array| #[trigger] share_result(query, key, f, h, Some(share));
    recorded_keys_have_the_heads_of_the_query(query, key, f, h, share);
}

/// Splitting features into heads.
proof fn lemma_split_dims(l: LinearView, x: Array, heads: usize, head_dim: usize, out: Array)
    requires
        x.dims.len() == 3,
        heads_result(l, x, heads, head_dim, Some(out)),
    ensures
        out.dims == dims_4(x.dims[0], heads, x.dims[1], head_dim),
{
    let d = dims_4(x.dims[0], x.dims[1], heads, head_dim);
    let p = choose|p: Array| #[trigger]
        linear_result(l, x, Some(p)) && exists|r: Option<Array>| #[trigger]
            reshape_result(p, d, r) && match r {
                None => false,
                Some(r) => transpose_result(r, 1, 2, Some(out)),
            };
    let r = choose|r: Array| #[trigger]
        reshape_result(p, d, Some(r)) && transpose_result(r, 1, 2, Some(out));
    assert(out.dims =~= dims_4(x.dims[0], heads, x.dims[1], head_dim));
}

/// The shapes of queries, keys and values, and what the rotation asks of heads.
proof fn lemma_state_dims(
    a: AttentionView,
    x: Array,
    offset: int,
    q: Array,
    k: Array,
    v: Array,
)
    requires
        x.dims.len() == 3,
        x.dims[0] > 0,
        a.num_heads > 0,
        states_result(a, x, offset, Some((q, k, v))),
    ensures
        q.dims == dims_4(x.dims[0], a.num_heads, x.dims[1], a.head_dim),
        k.dims == dims_4(x.dims[0], a.num_kv_heads, x.dims[1], a.head_dim),
        v.dims == k.dims,
        x.dims[1] > 0,
        a.head_dim > 0,
        a.head_dim % 2 == 0,
{
    let q0 = choose|q0: Array| #[trigger]
        heads_result(a.q, x, a.num_heads, a.head_dim, Some(q0)) && exists|k0: Option<Array>|
            #[trigger]
            heads_result(a.k, x, a.num_kv_heads, a.head_dim, k0) && match k0 {
                None => false,
                Some(k0) => rotate_result(a.rotary, q0, k0, offset, Some((q, k))),
            };
    let k0 = choose|k0: Array| #[trigger]
        heads_result(a.k, x, a.num_kv_heads, a.head_dim, Some(k0)) && rotate_result(
            a.rotary,
            q0,
            k0,
            offset,
            Some((q, k)),
        );
    lemma_split_dims(a.q, x, a.num_heads, a.head_dim, q0);
    lemma_split_dims(a.k, x, a.num_kv_heads, a.head_dim, k0);
    lemma_split_dims(a.v, x, a.num_kv_heads, a.head_dim, v);
    let len = q0.dims[2];
    let c = choose|c: Array| #[trigger]
        slice_result(a.rotary.cos, offset, len, Some(c)) && exists|s: Option<Array>| #[trigger]
            slice_result(a.rotary.sin, offset, len, s) && match s {
                None => false,
                Some(s) => turned_result(q0, c, s, Some(q)) && turned_result(k0, c, s, Some(k)),
            };
    let s = choose|s: Array| #[trigger]
        slice_result(a.rotary.sin, offset, len, Some(s)) && turned_result(q0, c, s, Some(q))
            && turned_result(k0, c, s, Some(k));
    assert(rope_result(q0, c, s, Some(q)));
    assert(rope_result(k0, c, s, Some(k)));
}

/// The shape of the keys or values that are read: as many positions as are held, and
/// the heads and features of the newest.
proof fn lemma_joined_dims(parts: Seq<Array>, t: Array, newest_dims: Seq<usize>)
    requires
        cat_result(parts, 2, Some(t)),
        parts.len() > 0,
        parts.last().dims == newest_dims,
        newest_dims.len() == 4,
        newest_dims[2] > 0,
    ensures
        t.dims.len() == 4,
        t.dims[0] == newest_dims[0],
        t.dims[1] == newest_dims[1],
        t.dims[3] == newest_dims[3],
        t.dims[2] > 0,
{
    let n = parts.len() - 1;
    if n > 0 {
        assert(parts[n].dims.len() == parts[0].dims.len());
        assert(parts[n].dims[0] == parts[0].dims[0]);
        assert(parts[n].dims[1] == parts[0].dims[1]);
        assert(parts[n].dims[3] == parts[0].dims[3]);
        lemma_lead_nonnegative(parts, 2, n);
        assert(t.dims[2] == lead(parts, 2, n) + parts[n].dims[2]);
    }
}

/// What is read after a key and a value have been stored.
proof fn lemma_read_dims(
    cache: Option<CacheView>,
    fresh: CacheView,
    q: Array,
    k: Array,
    v: Array,
    n: Option<CacheView>,
    ks: Array,
    vs: Array,
)
    requires
        stored_result(cache, fresh, q, k, v, n, Some((ks, vs))),
        k.dims.len() == 4,
        k.dims[2] > 0,
        v.dims == k.dims,
    ensures
        ks.dims.len() == 4,
        ks.dims[0] == k.dims[0],
        ks.dims[1] == k.dims[1],
        ks.dims[3] == k.dims[3],
        ks.dims[2] > 0,
        vs.dims.len() == 4,
        vs.dims[0] == v.dims[0],
        vs.dims[1] == v.dims[1],
        vs.dims[3] == v.dims[3],
{
    if let Some(c) = cache {
        let m = choose|m: CacheView| #[trigger]
            insert_result(c, q, k, v, m, true) && gather_result(m, Some((ks, vs)));
        let (u, done): (CacheView, bool) = choose|u: CacheView, done: bool| #[trigger]
            update_result(c, q, u, done) && m == admitted(u, Entry { k, v, score: 0 });
        let e = Entry { k, v, score: 0 };
        assert(m.recent.last() == e && m.recent.len() > 0);
        let all = m.heavy + m.recent;
        assert(all.last() == e);
        assert(keys_of(all).last() == k);
        assert(values_of(all).last() == v);
        assert(cat_result(keys_of(all), 2, Some(ks)));
        assert(cat_result(values_of(all), 2, Some(vs)));
        lemma_joined_dims(keys_of(all), ks, k.dims);
        lemma_joined_dims(values_of(all), vs, v.dims);
    }
}

/// Repeating heads.
pub(crate) proof fn lemma_spread_dims(x: Array, n: usize, out: Array)
    requires
        spread_result(x, n, Some(out)),
        x.dims.len() == 4,
    ensures
        x.dims[1] * n <= usize::MAX,
        out.dims == dims_4(x.dims[0], (x.dims[1] * n) as usize, x.dims[2], x.dims[3]),
        x.elems.len() == count(x.dims) ==> out.elems.len() == count(out.dims),
{
    let r = choose|r: Array| #[trigger] repeat_result(x, n, Some(r)) && out == r;
    if n == 1 {
        assert(x.dims =~= dims_4(x.dims[0], (x.dims[1] * n) as usize, x.dims[2], x.dims[3]));
    }
}

/// Attention over heads that differ in number from the query's has no result.
proof fn lemma_products_need_as_many_heads(q: Array, k: Array, head_dim: int, w: Array)
    requires
        products_result(q, k, head_dim, Some(w)),
        q.dims.len() == 4,
        k.dims.len() == 4,
        k.dims[0] == q.dims[0],
        q.dims[0] > 0 && q.dims[1] > 0 && q.dims[2] > 0 && q.dims[3] > 0,
        k.dims[2] > 0,
    ensures
        k.dims[1] == q.dims[1],
        w.dims == dims_4(q.dims[0], q.dims[1], q.dims[2], k.dims[2]),
{
    let t = choose|t: Array| #[trigger]
        transpose_result(k, 2, 3, Some(t)) && exists|p: Option<Array>| #[trigger]
            matmul_result(q, t, p) && match p {
                None => false,
                Some(p) => p.dims == w.dims,
            };
    let p = choose|p: Array| #[trigger] matmul_result(q, t, Some(p)) && p.dims == w.dims;
    assert(p.dims =~= dims_4(q.dims[0], q.dims[1], q.dims[2], k.dims[2]));
    lemma_count_positive(p.dims);
    lemma_batch_4(q.dims);
    lemma_batch_4(t.dims);
    let (b, h, g) = (q.dims[0] as int, q.dims[1] as int, t.dims[1] as int);
    assert(h == g) by (nonlinear_arith)
        requires
            b * h == b * g,
            b > 0,
    ;
}

/// A layer works only with heads that fit together: their size is even, the key
/// heads, repeated, are as many as the query heads, and where the features were
/// divided among the heads, none is left over.
pub proof fn attention_needs_heads_that_fit_together(
    a: AttentionView,
    x: Array,
    mask: Option<Array>,
    offset: int,
    total_capacity: usize,
    n: Option<CacheView>,
    out: Array,
)
    requires
        attend_result(a, x, mask, offset, total_capacity, n, Some(out)),
        x.dims[0] > 0,
        a.num_heads > 0,
    ensures
        a.fits(),
{
    let fresh = empty_cache(total_capacity as nat, a.num_heads as nat, a.head_dim as nat);
    let (q, k, v): (Array, Array, Array) = choose|q: Array, k: Array, v: Array| #[trigger]
        states_result(a, x, offset, Some((q, k, v))) && exists|kv: Option<(Array, Array)>|
            #[trigger]
            stored_result(a.cache, fresh, q, k, v, n, kv) && match kv {
                None => false,
                Some((ks, vs)) => exists|o: Option<Array>| #[trigger]
                    read_result(a.num_kv_groups, a.head_dim, q, ks, vs, mask, o) && match o {
                        None => false,
                        Some(o) => joined_result(a.o, a.hidden_size, x, o, Some(out)),
                    },
            };
    let (ks, vs): (Array, Array) = choose|ks: Array, vs: Array| #[trigger]
        stored_result(a.cache, fresh, q, k, v, n, Some((ks, vs))) && exists|o: Option<Array>|
            #[trigger]
            read_result(a.num_kv_groups, a.head_dim, q, ks, vs, mask, o) && match o {
                None => false,
                Some(o) => joined_result(a.o, a.hidden_size, x, o, Some(out)),
            };
    let o = choose|o: Array| #[trigger]
        read_result(a.num_kv_groups, a.head_dim, q, ks, vs, mask, Some(o)) && joined_result(
            a.o,
            a.hidden_size,
            x,
            o,
            Some(out),
        );
    lemma_state_dims(a, x, offset, q, k, v);
    lemma_read_dims(a.cache, fresh, q, k, v, n, ks, vs);
    lemma_read_needs_heads(a, x, mask, q, ks, vs, o);
    if a.head_dim == a.hidden_size / a.num_heads {
        lemma_joined_heads(a, x, o, out);
    }
}

/// Whether what was read stands for the heads of all positions. A mask may repeat the
/// only position of a query.
spec fn all_heads(a: AttentionView, x: Array, o: Array) -> bool {
    &&& o.dims.len() == 4
    &&& o.dims[3] == a.head_dim
    &&& o.elems.len() == count(o.dims)
    &&& count(o.dims) > 0 ==> o.dims[0] * o.dims[1] == x.dims[0] * a.num_heads
    &&& o.dims[2] == x.dims[1] || x.dims[1] == 1
}

/// Reading with heads that fit together.
proof fn lemma_read_needs_heads(
    a: AttentionView,
    x: Array,
    mask: Option<Array>,
    q: Array,
    ks: Array,
    vs: Array,
    o: Array,
)
    requires
        read_result(a.num_kv_groups, a.head_dim, q, ks, vs, mask, Some(o)),
        q.dims == dims_4(x.dims[0], a.num_heads, x.dims[1], a.head_dim),
        x.dims[0] > 0 && a.num_heads > 0 && x.dims[1] > 0 && a.head_dim > 0,
        ks.dims.len() == 4,
        ks.dims[0] == x.dims[0],
        ks.dims[1] == a.num_kv_heads,
        ks.dims[2] > 0,
        vs.dims.len() == 4,
        vs.dims[0] == x.dims[0],
        vs.dims[1] == a.num_kv_heads,
        vs.dims[3] == a.head_dim,
    ensures
        a.num_heads == a.num_kv_heads * a.num_kv_groups,
        all_heads(a, x, o),
{
    let hd = a.head_dim as int;
    let kr = choose|kr: Array| #[trigger]
        spread_result(ks, a.num_kv_groups, Some(kr)) && exists|vr: Option<Array>| #[trigger]
            spread_result(vs, a.num_kv_groups, vr) && match vr {
                None => false,
                Some(vr) => scores_result(q, kr, vr, mask, hd, Some(o)),
            };
    let vr = choose|vr: Array| #[trigger]
        spread_result(vs, a.num_kv_groups, Some(vr)) && scores_result(
            q,
            kr,
            vr,
            mask,
            hd,
            Some(o),
        );
    lemma_spread_dims(ks, a.num_kv_groups, kr);
    lemma_spread_dims(vs, a.num_kv_groups, vr);
    let w = choose|w: Array| #[trigger]
        products_result(q, kr, hd, Some(w)) && exists|m: Option<Array>| #[trigger]
            masked_result(w, mask, m) && match m {
                None => false,
                Some(m) => exists|p: Option<Array>| #[trigger]
                    softmax_last_result(m, p) && match p {
                        None => false,
                        Some(p) => matmul_result(p, vr, Some(o)),
                    },
            };
    lemma_products_need_as_many_heads(q, kr, hd, w);
    let m = choose|m: Array| #[trigger]
        masked_result(w, mask, Some(m)) && m.dims.last() != 0 && exists|p: Option<Array>|
            #[trigger]
            softmax_last_result(m, p) && match p {
                None => false,
                Some(p) => matmul_result(p, vr, Some(o)),
            };
    let p = choose|p: Array| #[trigger]
        softmax_last_result(m, Some(p)) && matmul_result(p, vr, Some(o));
    assert(p.dims == m.dims && p.dims.len() == 4);
    if let Some(mask) = mask {
        assert(m.dims[2] == joint_dim(aligned(w.dims, 4, 2), aligned(mask.dims, 4, 2)));
    }
    lemma_batch_4(p.dims);
    lemma_batch_4(vr.dims);
}

/// Heads side by side make up the features.
proof fn lemma_joined_heads(a: AttentionView, x: Array, o: Array, out: Array)
    requires
        joined_result(a.o, a.hidden_size, x, o, Some(out)),
        all_heads(a, x, o),
        x.dims[0] > 0 && x.dims[1] > 0 && a.num_heads > 0 && a.head_dim > 0,
        a.head_dim == a.hidden_size / a.num_heads,
    ensures
        a.hidden_size == a.num_heads * a.head_dim,
{
    let d = dims_3(x.dims[0], x.dims[1], a.hidden_size);
    let t = choose|t: Array| #[trigger]
        transpose_result(o, 1, 2, Some(t)) && exists|r: Option<Array>| #[trigger]
            reshape_result(t, d, r) && r is Some;
    let (b, q, s) = (x.dims[0] as int, x.dims[1] as int, a.hidden_size as int);
    let (h, e) = (a.num_heads as int, a.head_dim as int);
    let (ob, oh, oq) = (o.dims[0] as int, o.dims[1] as int, o.dims[2] as int);
    assert(t.dims =~= dims_4(o.dims[0], o.dims[2], o.dims[1], o.dims[3]));
    assert(o.dims =~= dims_4(o.dims[0], o.dims[1], o.dims[2], o.dims[3]));
    lemma_count_3(x.dims[0], x.dims[1], a.hidden_size);
    lemma_count_4(o.dims[0], o.dims[2], o.dims[1], o.dims[3]);
    lemma_count_4(o.dims[0], o.dims[1], o.dims[2], o.dims[3]);
    assert(((ob * oq) * oh) * e == (b * q) * s);
    assert(h * e <= s < h * (e + 1)) by (nonlinear_arith)
        requires
            h > 0,
            s >= 0,
            e == s / h,
    ;
    assert(s > 0) by (nonlinear_arith)
        requires
            h * e <= s,
            h > 0,
            e > 0,
    ;
    assert((b * q) * s > 0) by (nonlinear_arith)
        requires
            b > 0,
            q > 0,
            s > 0,
    ;
    assert(((ob * oh) * oq) * e == ((ob * oq) * oh) * e) by (nonlinear_arith);
    assert(ob * oh == b * h);
    let m: int = if oq == q {
        1
    } else {
        oq
    };
    assert(oq == q * m) by (nonlinear_arith)
        requires
            (oq == q && m == 1) || (q == 1 && m == oq),
    ;
    assert(s == (h * e) * m) by (nonlinear_arith)
        requires
            ((b * h) * (q * m)) * e == (b * q) * s,
            b > 0,
            q > 0,
    ;
    assert(m == 1) by (nonlinear_arith)
        requires
            s == (h * e) * m,
            s > 0,
            h * e <= s,
            s < h * (e + 1),
            h > 0,
            e > 0,
    ;
}

/// The number of elements of an array of rank three.
pub(crate) proof fn lemma_count_3(a: usize, b: usize, c: usize)
    ensures
        count(dims_3(a, b, c)) == (a * b) * c,
{
    lemma_count_2(a, b);
    assert(dims_3(a, b, c).drop_last() =~= dims_2(a, b));
}

/// The number of elements of an array of rank four.
pub(crate) proof fn lemma_count_4(a: usize, b: usize, c: usize, d: usize)
    ensures
        count(dims_4(a, b, c, d)) == ((a * b) * c) * d,
{
    lemma_count_3(a, b, c);
    assert(dims_4(a, b, c, d).drop_last() =~= dims_3(a, b, c));
}

/// The first key and value of a cache are read as they are, and become its only
/// entry, with score zero.
pub proof fn the_first_entry_is_read_as_it_is(
    total_capacity: usize,
    num_heads: nat,
    head_dim: nat,
    q: Array,
    k: Array,
    v: Array,
    n: Option<CacheView>,
    out: Option<(Array, Array)>,
)
    requires
        usable(total_capacity),
        first_stored(empty_cache(total_capacity as nat, num_heads, head_dim), q, k, v, n, out),
    ensures
        out == Some((k, v)),
        n == Some(
            CacheView {
                recent: seq![Entry { k, v, score: 0 }],
                ..empty_cache(total_capacity as nat, num_heads, head_dim)
            },
        ),
{
    let c = empty_cache(total_capacity as nat, num_heads, head_dim);
    let (m, ok): (CacheView, bool) = choose|m: CacheView, ok: bool| #[trigger]
        insert_result(c, q, k, v, m, ok) && if ok {
            n == Some(m) && out == Some((k, v))
        } else {
            n is None && out is None
        };
    let (u, done): (CacheView, bool) = choose|u: CacheView, done: bool| #[trigger]
        update_result(c, q, u, done) && if ready(u) {
            ok && m == admitted(u, Entry { k, v, score: 0 })
        } else {
            !ok && m == u
        };
    recording_attention_keeps_the_entries(c, q, u, done);
    assert(u.heavy =~= c.heavy && u.recent =~= c.recent);
    assert(m.recent =~= seq![Entry { k, v, score: 0 }]);
}

/// Keys and values, each joined along the axis of positions. A single key and value
/// are taken as they are.
pub open spec fn past_result(
    ks: Seq<Array>,
    vs: Seq<Array>,
    out: Option<(Array, Array)>,
) -> bool {
    if ks.len() == 1 {
        out == Some((ks[0], vs[0]))
    } else {
        exists|k: Option<Array>| #[trigger]
            cat_result(ks, 2, k) && match k {
                None => out is None,
                Some(k) => exists|v: Option<Array>| #[trigger]
                    cat_result(vs, 2, v) && out == match v {
                        None => None,
                        Some(v) => Some((k, v)),
                    },
            }
    }
}

/// Applying an attention layer that forgets nothing: the states of `x` are read
/// together with all keys and values before them. `k` and `v` are those of `x`.
pub open spec fn unbounded_result(
    a: AttentionView,
    past_k: Seq<Array>,
    past_v: Seq<Array>,
    x: Array,
    mask: Option<Array>,
    offset: int,
    k: Array,
    v: Array,
    out: Option<Array>,
) -> bool {
    exists|q: Array| #[trigger]
        states_result(a, x, offset, Some((q, k, v))) && exists|kv: Option<(Array, Array)>|
            #[trigger]
            past_result(past_k.push(k), past_v.push(v), kv) && match kv {
                None => out is None,
                Some((ks, vs)) => exists|o: Option<Array>| #[trigger]
                    read_result(a.num_kv_groups, a.head_dim, q, ks, vs, mask, o) && match o {
                        None => out is None,
                        Some(o) => joined_result(a.o, a.hidden_size, x, o, out),
                    },
            }
}

/// Whether a cache made with this capacity holds just these keys and values, in
/// this order.
pub open spec fn remembers(
    cache: Option<CacheView>,
    total_capacity: usize,
    ks: Seq<Array>,
    vs: Seq<Array>,
) -> bool {
    match cache {
        None => ks.len() == 0 && vs.len() == 0,
        Some(c) => {
            &&& c.bounded()
            &&& c.heavy_capacity == total_capacity as nat / 7
            &&& c.recent_capacity == 6 * total_capacity as nat / 7
            &&& keys_of(contents(c)) == ks
            &&& values_of(contents(c)) == vs
            &&& ks.len() > 0
        },
    }
}

/// The places of a cache made with this capacity.
pub open spec fn places(total_capacity: usize) -> int {
    total_capacity as int / 7 + 6 * total_capacity as int / 7
}

/// As long as there is room, a call reads what a layer that forgets nothing would
/// read, and its key and value join those that the cache holds. The capacity that
/// the call names counts only where there is no cache yet.
pub proof fn with_room_a_call_reads_the_whole_past(
    a: AttentionView,
    capacity: usize,
    past_k: Seq<Array>,
    past_v: Seq<Array>,
    x: Array,
    mask: Option<Array>,
    offset: int,
    named: usize,
    n: Option<CacheView>,
    out: Array,
) -> (kv: (Array, Array))
    requires
        usable(capacity),
        a.cache is None ==> named == capacity,
        remembers(a.cache, capacity, past_k, past_v),
        past_k.len() < places(capacity),
        attend_result(a, x, mask, offset, named, n, Some(out)),
    ensures
        unbounded_result(a, past_k, past_v, x, mask, offset, kv.0, kv.1, Some(out)),
        remembers(n, capacity, past_k.push(kv.0), past_v.push(kv.1)),
{
    let fresh = empty_cache(named as nat, a.num_heads as nat, a.head_dim as nat);
    let (q, k, v): (Array, Array, Array) = choose|q: Array, k: Array, v: Array| #[trigger]
        states_result(a, x, offset, Some((q, k, v))) && exists|kv: Option<(Array, Array)>|
            #[trigger]
            stored_result(a.cache, fresh, q, k, v, n, kv) && match kv {
                None => false,
                Some((ks, vs)) => exists|o: Option<Array>| #[trigger]
                    read_result(a.num_kv_groups, a.head_dim, q, ks, vs, mask, o) && match o {
                        None => false,
                        Some(o) => joined_result(a.o, a.hidden_size, x, o, Some(out)),
                    },
            };
    let (ks, vs): (Array, Array) = choose|ks: Array, vs: Array| #[trigger]
        stored_result(a.cache, fresh, q, k, v, n, Some((ks, vs))) && exists|o: Option<Array>|
            #[trigger]
            read_result(a.num_kv_groups, a.head_dim, q, ks, vs, mask, o) && match o {
                None => false,
                Some(o) => joined_result(a.o, a.hidden_size, x, o, Some(out)),
            };
    match a.cache {
        None => {
            the_first_entry_is_read_as_it_is(
                named,
                a.num_heads as nat,
                a.head_dim as nat,
                q,
                k,
                v,
                n,
                Some((ks, vs)),
            );
            assert(keys_of(contents(n->Some_0)) =~= past_k.push(k));
            assert(values_of(contents(n->Some_0)) =~= past_v.push(v));
        },
        Some(c) => {
            lemma_room_is_used(c, past_k, past_v, q, k, v, n, ks, vs);
        },
    }
    assert(past_result(past_k.push(k), past_v.push(v), Some((ks, vs))));
    (k, v)
}

/// What a cache with room holds after a key and a value have joined it, and what is
/// read of it.
proof fn lemma_room_is_used(
    c: CacheView,
    past_k: Seq<Array>,
    past_v: Seq<Array>,
    q: Array,
    k: Array,
    v: Array,
    n: Option<CacheView>,
    ks: Array,
    vs: Array,
)
    requires
        c.bounded(),
        c.recent_capacity > 0,
        keys_of(contents(c)) == past_k,
        values_of(contents(c)) == past_v,
        past_k.len() < c.heavy_capacity + c.recent_capacity,
        next_stored(c, q, k, v, n, Some((ks, vs))),
    ensures
        n matches Some(m) && {
            &&& m.bounded()
            &&& m.heavy_capacity == c.heavy_capacity
            &&& m.recent_capacity == c.recent_capacity
            &&& keys_of(contents(m)) == past_k.push(k)
            &&& values_of(contents(m)) == past_v.push(v)
        },
        cat_result(past_k.push(k), 2, Some(ks)),
        cat_result(past_v.push(v), 2, Some(vs)),
{
    let e = Entry { k, v, score: 0 };
    let m = choose|m: CacheView| #[trigger]
        insert_result(c, q, k, v, m, true) && n == Some(m) && gather_result(m, Some((ks, vs)));
    let (u, done): (CacheView, bool) = choose|u: CacheView, done: bool| #[trigger]
        update_result(c, q, u, done) && ready(u) && m == admitted(u, e);
    recording_attention_keeps_the_entries(c, q, u, done);
    assert(keys_of(contents(c)).len() == contents(c).len());
    nothing_is_lost_while_there_is_room(u, e);
    taking_in_keeps_the_bounds(u, e);
    assert(keys_of(contents(u)) =~= keys_of(u.heavy) + keys_of(u.recent));
    assert(keys_of(contents(c)) =~= keys_of(c.heavy) + keys_of(c.recent));
    assert(values_of(contents(u)) =~= values_of(u.heavy) + values_of(u.recent));
    assert(values_of(contents(c)) =~= values_of(c.heavy) + values_of(c.recent));
    assert(keys_of(contents(m)) =~= keys_of(contents(u)).push(k));
    assert(values_of(contents(m)) =~= values_of(contents(u)).push(v));
}

/// Whether call `i` of a history of calls of one attention layer gives its output,
/// and leaves the cache that the next one finds.
pub open spec fn called(
    a: AttentionView,
    caches: Seq<Option<CacheView>>,
    xs: Seq<Array>,
    masks: Seq<Option<Array>>,
    offsets: Seq<int>,
    capacities: Seq<usize>,
    outs: Seq<Array>,
    i: int,
) -> bool {
    attend_result(
        AttentionView { cache: caches[i], ..a },
        xs[i],
        masks[i],
        offsets[i],
        capacities[i],
        caches[i + 1],
        Some(outs[i]),
    )
}

/// Whether call `i` of a history gives what a layer that forgets nothing gives.
pub open spec fn forgot_nothing(
    a: AttentionView,
    ks: Seq<Array>,
    vs: Seq<Array>,
    xs: Seq<Array>,
    masks: Seq<Option<Array>>,
    offsets: Seq<int>,
    outs: Seq<Array>,
    i: int,
) -> bool {
    unbounded_result(
        a,
        ks.take(i),
        vs.take(i),
        xs[i],
        masks[i],
        offsets[i],
        ks[i],
        vs[i],
        Some(outs[i]),
    )
}

/// From the first call on, and until the places of its cache are used up, an
/// attention layer gives what one that forgets nothing gives: it reads the join of
/// all keys and values so far. Only the capacity that the first call names counts.
pub proof fn until_its_places_are_used_up_a_layer_forgets_nothing(
    a: AttentionView,
    caches: Seq<Option<CacheView>>,
    xs: Seq<Array>,
    masks: Seq<Option<Array>>,
    offsets: Seq<int>,
    capacities: Seq<usize>,
    outs: Seq<Array>,
) -> (kv: (Seq<Array>, Seq<Array>))
    requires
        caches.len() == xs.len() + 1,
        caches[0] is None,
        xs.len() > 0 ==> usable(capacities[0]) && xs.len() <= places(capacities[0]),
        forall|i: int|
            0 <= i < xs.len() ==> #[trigger] called(
                a,
                caches,
                xs,
                masks,
                offsets,
                capacities,
                outs,
                i,
            ),
    ensures
        kv.0.len() == xs.len(),
        kv.1.len() == xs.len(),
        remembers(caches.last(), capacities[0], kv.0, kv.1),
        forall|i: int|
            0 <= i < xs.len() ==> #[trigger] forgot_nothing(
                a,
                kv.0,
                kv.1,
                xs,
                masks,
                offsets,
                outs,
                i,
            ),
    decreases xs.len(),
{
    let n = xs.len() as int;
    if n == 0 {
        (Seq::empty(), Seq::empty())
    } else {
        let before = caches.drop_last();
        let xs0 = xs.drop_last();
        assert forall|i: int| 0 <= i < n - 1 implies #[trigger] called(
            a,
            before,
            xs0,
            masks,
            offsets,
            capacities,
            outs,
            i,
        ) by {
            assert(called(a, caches, xs, masks, offsets, capacities, outs, i));
        }
        let (ks0, vs0) = until_its_places_are_used_up_a_layer_forgets_nothing(
            a,
            before,
            xs0,
            masks,
            offsets,
            capacities,
            outs,
        );
        assert(called(a, caches, xs, masks, offsets, capacities, outs, n - 1));
        let here = AttentionView { cache: caches[n - 1], ..a };
        let (k, v) = with_room_a_call_reads_the_whole_past(
            here,
            capacities[0],
            ks0,
            vs0,
            xs[n - 1],
            masks[n - 1],
            offsets[n - 1],
            capacities[n - 1],
            caches[n],
            outs[n - 1],
        );
        let (ks, vs) = (ks0.push(k), vs0.push(v));
        assert forall|i: int| 0 <= i < n implies #[trigger] forgot_nothing(
            a,
            ks,
            vs,
            xs,
            masks,
            offsets,
            outs,
            i,
        ) by {
            if i < n - 1 {
                assert(forgot_nothing(a, ks0, vs0, xs0, masks, offsets, outs, i));
                assert(ks.take(i) =~= ks0.take(i));
                assert(vs.take(i) =~= vs0.take(i));
            } else {
                assert(ks.take(i) =~= ks0);
                assert(vs.take(i) =~= vs0);
                lemma_forgetting_ignores_the_cache(
                    here,
                    a,
                    ks0,
                    vs0,
                    xs[i],
                    masks[i],
                    offsets[i],
                    k,
                    v,
                    Some(outs[i]),
                );
            }
        }
        (ks, vs)
    }
}

/// What a layer that forgets nothing gives does not depend on a cache.
proof fn lemma_forgetting_ignores_the_cache(
    a: AttentionView,
    b: AttentionView,
    past_k: Seq<Array>,
    past_v: Seq<Array>,
    x: Array,
    mask: Option<Array>,
    offset: int,
    k: Array,
    v: Array,
    out: Option<Array>,
)
    requires
        b == (AttentionView { cache: b.cache, ..a }),
        unbounded_result(a, past_k, past_v, x, mask, offset, k, v, out),
    ensures
        unbounded_result(b, past_k, past_v, x, mask, offset, k, v, out),
{
    assert(b.q == a.q && b.k == a.k && b.v == a.v && b.o == a.o && b.rotary == a.rotary);
    assert(b.num_heads == a.num_heads && b.num_kv_heads == a.num_kv_heads);
    assert(b.num_kv_groups == a.num_kv_groups && b.head_dim == a.head_dim);
    assert(b.hidden_size == a.hidden_size);
    assert forall|q: Array| #[trigger]
        states_result(a, x, offset, Some((q, k, v))) implies states_result(
        b,
        x,
        offset,
        Some((q, k, v)),
    ) by {}
}

/// Once a layer has a cache, the capacity that later calls name changes nothing: the
/// same outcomes are possible, and the same caches afterwards.
pub proof fn the_capacity_is_fixed_by_the_first_call(
    a: AttentionView,
    x: Array,
    mask: Option<Array>,
    offset: int,
    one: usize,
    other: usize,
    n: Option<CacheView>,
    out: Option<Array>,
)
    requires
        a.cache is Some,
    ensures
        attend_result(a, x, mask, offset, one, n, out) == attend_result(
            a,
            x,
            mask,
            offset,
            other,
            n,
            out,
        ),
{
    if attend_result(a, x, mask, offset, one, n, out) {
        lemma_another_capacity(a, x, mask, offset, one, other, n, out);
    }
    if attend_result(a, x, mask, offset, other, n, out) {
        lemma_another_capacity(a, x, mask, offset, other, one, n, out);
    }
}

/// An outcome under one capacity is an outcome under another.
proof fn lemma_another_capacity(
    a: AttentionView,
    x: Array,
    mask: Option<Array>,
    offset: int,
    one: usize,
    other: usize,
    n: Option<CacheView>,
    out: Option<Array>,
)
    requires
        a.cache is Some,
        attend_result(a, x, mask, offset, one, n, out),
    ensures
        attend_result(a, x, mask, offset, other, n, out),
{
    if x.dims.len() == 3 {
        let s = choose|s: Option<(Array, Array, Array)>| #[trigger]
            states_result(a, x, offset, s) && match s {
                None => n == a.cache && out is None,
                Some((q, k, v)) => exists|kv: Option<(Array, Array)>| #[trigger]
                    stored_result(
                        a.cache,
                        empty_cache(one as nat, a.num_heads as nat, a.head_dim as nat),
                        q,
                        k,
                        v,
                        n,
                        kv,
                    ) && match kv {
                        None => out is None,
                        Some((ks, vs)) => exists|o: Option<Array>| #[trigger]
                            read_result(a.num_kv_groups, a.head_dim, q, ks, vs, mask, o)
                                && match o {
                                None => out is None,
                                Some(o) => joined_result(
                                    a.o,
                                    a.hidden_size,
                                    x,
                                    o,
                                    out,
                                ),
                            },
                    },
            };
        if let Some((q, k, v)) = s {
            let first = empty_cache(one as nat, a.num_heads as nat, a.head_dim as nat);
            let second = empty_cache(other as nat, a.num_heads as nat, a.head_dim as nat);
            assert forall|kv: Option<(Array, Array)>| #[trigger]
                stored_result(a.cache, first, q, k, v, n, kv) implies stored_result(
                a.cache,
                second,
                q,
                k,
                v,
                n,
                kv,
            ) by {}
        }
    }
}

/// A layer that has been passed has a cache afterwards.
pub proof fn a_passed_layer_has_a_cache(
    l: LayerView,
    x: Array,
    mask: Option<Array>,
    offset: int,
    total_capacity: usize,
    n: Option<CacheView>,
    out: Array,
)
    requires
        layer_result(l, x, mask, offset, total_capacity, n, Some(out)),
    ensures
        n is Some,
{
}

/// Each call stores one entry in a layer's cache: it grows by one until it is full,
/// and stays full then.
pub proof fn a_call_stores_one_entry(
    l: LayerView,
    c: CacheView,
    x: Array,
    mask: Option<Array>,
    offset: int,
    total_capacity: usize,
    n: Option<CacheView>,
    out: Array,
)
    requires
        layer_result(l, x, mask, offset, total_capacity, n, Some(out)),
        l.attn.cache == Some(c),
        c.bounded(),
        c.recent_capacity > 0,
    ensures
        n matches Some(m) && m.bounded() && contents(m).len() == if full(c) {
            contents(c).len()
        } else {
            contents(c).len() + 1
        },
{
    let i = choose|i: Array| #[trigger]
        norm_result(l.input_norm, x, Some(i)) && exists|a: Option<Array>| #[trigger]
            attend_result(l.attn, i, mask, offset, total_capacity, n, a) && a is Some;
    let a = choose|a: Array| #[trigger]
        attend_result(l.attn, i, mask, offset, total_capacity, n, Some(a));
    let fresh = empty_cache(
        total_capacity as nat,
        l.attn.num_heads as nat,
        l.attn.head_dim as nat,
    );
    let (q, k, v): (Array, Array, Array) = choose|q: Array, k: Array, v: Array| #[trigger]
        states_result(l.attn, i, offset, Some((q, k, v))) && exists|kv: Option<(Array, Array)>|
            #[trigger]
            stored_result(l.attn.cache, fresh, q, k, v, n, kv) && kv is Some;
    assert(exists|m: CacheView| #[trigger] insert_result(c, q, k, v, m, true) && n == Some(m));
    let m = choose|m: CacheView| #[trigger] insert_result(c, q, k, v, m, true) && n == Some(m);
    lemma_insertion_slides_the_window(c, q, k, v, m);
    assert(keys_of(c.recent).len() == c.recent.len());
    assert(keys_of(m.recent).len() == m.recent.len());
}

/// A layer yields as many features for as many positions as it was given.
pub proof fn a_layer_keeps_the_shape(
    l: LayerView,
    x: Array,
    mask: Option<Array>,
    offset: int,
    total_capacity: usize,
    n: Option<CacheView>,
    out: Array,
)
    requires
        layer_result(l, x, mask, offset, total_capacity, n, Some(out)),
    ensures
        out.dims == x.dims,
{
}

/// A run through all layers leaves every one of them with a cache.
pub proof fn a_run_leaves_a_cache_in_every_layer(
    layers: Seq<LayerView>,
    x: Array,
    run: Run,
    caches: Seq<Option<CacheView>>,
    out: Array,
)
    requires
        stack_result(layers, x, run, caches, Some(out)),
    ensures
        caches.len() == layers.len(),
        forall|i: int| 0 <= i < layers.len() ==> #[trigger] caches[i] is Some,
{
    let (hidden, done): (Seq<Array>, int) = choose|hidden: Seq<Array>, done: int| #[trigger]
        passed(layers, run, caches, hidden, done) && hidden[0] == x && Some(out) == if done
            == layers.len() {
            Some(hidden[done])
        } else {
            None
        };
    assert forall|i: int| 0 <= i < layers.len() implies #[trigger] caches[i] is Some by {
        assert(took(layers, run, caches, hidden, i));
        a_passed_layer_has_a_cache(
            layers[i],
            hidden[i],
            run.masks.of_layer(run.windowed, i),
            run.offset,
            run.total_capacity,
            caches[i],
            hidden[i + 1],
        );
    }
}

/// Clearing undoes what runs have done: whatever caches they left, a cleared model
/// is what clearing would have made of it before.
pub proof fn clearing_undoes_every_run(m: LanguageView, caches: Seq<Option<CacheView>>)
    ensures
        m.with_caches(caches).cleared() == m.cleared(),
        m.cleared().cleared() == m.cleared(),
{
    assert(m.base.with_caches(caches).cleared().layers =~= m.base.cleared().layers);
    assert(m.base.cleared().cleared().layers =~= m.base.cleared().layers);
}

/// A model that has just been made has nothing to clear.
pub proof fn a_new_model_is_clear(cfg: Config, w: WeightsView, m: LanguageView)
    requires
        language_built(cfg, w, Some(m)),
    ensures
        m.cleared() == m,
{
    assert(model_built(cfg, w, Some(m.base)));
    assert(forall|i: int|
        0 <= i < m.base.layers.len() ==> (#[trigger] m.base.layers[i]).attn.cache is None);
    assert(m.base.cleared().layers =~= m.base.layers);
}

/// Where the embeddings are tied, or there is no other weight, the projection to the
/// vocabulary is the embedding table; else it has the shape of the table.
pub proof fn the_head_is_tied_or_has_its_own_weight(cfg: Config, w: WeightsView, m: LanguageView)
    requires
        language_built(cfg, w, Some(m)),
    ensures
        cfg.tie_word_embeddings || !w.has("lm_head.weight"@) ==> m.head.weight
            == m.base.embed.embeddings,
        m.head.weight.dims == m.base.embed.embeddings.dims,
        m.head.bias is None,
{
    assert(model_built(cfg, w, Some(m.base)));
    assert(head_built(cfg, w, m.base, Some(m.head)));
    assert(m.base.embed.embeddings.dims == seq![cfg.vocab_size, cfg.hidden_size]);
}

} // verus!
