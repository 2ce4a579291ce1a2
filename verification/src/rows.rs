//! What the attention of one query depends on.

use crate::array::{
    Array, at, batch, chunk, column_of_matrix, count, dims_3, folded, in_bounds,
    joint_dims, row_of_matrix, scalar, swapped, transpose_result,
};
use crate::attention::{masked_result, products_result, scores_result};
use crate::formulas::one_over_a_root;
use crate::laws::{
    an_index_names_an_element, lemma_batch_4, lemma_count_3, lemma_position_4,
};
use crate::number::inverse_root_result;
use crate::tensor::{
    add_outcome, cast_outcome, matmul_outcome, matmul_result, recip_outcome, scale_outcome,
    scale_result, softmax_last_outcome, softmax_last_result, sqrt_outcome, summed,
};
use candle_core::DType;
use vstd::prelude::*;

verus! {

/// Products of a row with other rows, one by one.
pub open spec fn products_row(
    dtype: DType,
    row: Seq<u64>,
    others: Seq<Seq<u64>>,
    out: Seq<u64>,
) -> bool {
    &&& out.len() == others.len()
    &&& forall|j: int|
        0 <= j < out.len() ==> matmul_outcome(dtype, row, others[j], #[trigger] out[j])
}

/// A row multiplied by a number.
pub open spec fn scaled_row(dtype: DType, row: Seq<u64>, factor: u64, out: Seq<u64>) -> bool {
    &&& out.len() == row.len()
    &&& forall|j: int|
        0 <= j < out.len() ==> scale_outcome(dtype, row[j], factor, #[trigger] out[j])
}

/// A row with the row of a mask added, where there is one.
pub open spec fn masked_row(
    dtype: DType,
    row: Seq<u64>,
    mask: Option<Seq<u64>>,
    out: Seq<u64>,
) -> bool {
    match mask {
        None => out == row,
        Some(mask) => {
            &&& out.len() == row.len()
            &&& forall|j: int|
                0 <= j < out.len() ==> add_outcome(dtype, row[j], mask[j], #[trigger] out[j])
        },
    }
}

/// The attention of one query over keys and values: the values, given by the column of
/// each feature, weighted by a softmax over its scaled and masked products with the keys.
pub open spec fn attended_row(
    dtype: DType,
    query: Seq<u64>,
    keys: Seq<Seq<u64>>,
    columns: Seq<Seq<u64>>,
    mask: Option<Seq<u64>>,
    factor: u64,
    out: Seq<u64>,
) -> bool {
    exists|w: Seq<u64>, s: Seq<u64>, m: Seq<u64>, p: Seq<u64>|
        {
            &&& #[trigger] products_row(dtype, query, keys, w)
            &&& #[trigger] scaled_row(dtype, w, factor, s)
            &&& #[trigger] masked_row(dtype, s, mask, m)
            &&& #[trigger] softmax_last_outcome(dtype, m, p)
            &&& products_row(dtype, p, columns, out)
        }
}

/// The rows of matrix `p`.
pub open spec fn rows_of_matrix(a: Array, p: int) -> Seq<Seq<u64>> {
    Seq::new(a.dims[a.dims.len() - 2] as nat, |j: int| row_of_matrix(a, p, j))
}

/// The columns of matrix `p`.
pub open spec fn columns_of_matrix(a: Array, p: int) -> Seq<Seq<u64>> {
    Seq::new(a.dims.last() as nat, |j: int| column_of_matrix(a, p, j))
}

/// What a mask adds to the products of query `i` of head `h` of member `b`, over `n` keys.
pub open spec fn mask_row(mask: Option<Array>, b: int, h: int, i: int, n: nat) -> Option<
    Seq<u64>,
> {
    match mask {
        None => None,
        Some(mask) => Some(
            Seq::new(n, |j: int| at(mask, folded(mask.dims, seq![b, h, i, j]))),
        ),
    }
}

/// Whether queries, keys and values have the same batch and heads, and a mask, if there is
/// one, does not widen their products.
pub open spec fn side_by_side(q: Array, k: Array, v: Array, mask: Option<Array>) -> bool {
    &&& q.dims.len() == 4 && k.dims.len() == 4 && v.dims.len() == 4
    &&& k.dims[0] == q.dims[0] && v.dims[0] == q.dims[0]
    &&& k.dims[1] == q.dims[1] && v.dims[1] == q.dims[1]
    &&& k.dims[3] == q.dims[3]
    &&& v.dims[2] == k.dims[2]
    &&& k.elems.len() == count(k.dims)
    &&& mask matches Some(m) ==> joint_dims(q.dims.update(3, k.dims[2]), m.dims) == q.dims.update(
        3,
        k.dims[2],
    )
}

/// The place of an element of an array of rank four, by the number of its matrix.
proof fn lemma_place(a: Array, b: int, h: int, i: int, j: int)
    requires
        a.dims.len() == 4,
        0 <= b < a.dims[0] && 0 <= h < a.dims[1] && 0 <= i < a.dims[2] && 0 <= j < a.dims[3],
    ensures
        in_bounds(a.dims, seq![b, h, i, j]),
        at(a, seq![b, h, i, j]) == a.elems[((b * a.dims[1] + h) * a.dims[2] + i) * a.dims[3] + j],
        0 <= ((b * a.dims[1] + h) * a.dims[2] + i) * a.dims[3] + j < count(a.dims),
{
    let idx = seq![b, h, i, j];
    assert(in_bounds(a.dims, idx));
    lemma_position_4(a.dims, idx);
    an_index_names_an_element(a.dims, idx);
}

/// The number of a matrix is within bounds.
proof fn lemma_matrix_number(dims: Seq<usize>, b: int, h: int)
    requires
        dims.len() == 4,
        0 <= b < dims[0],
        0 <= h < dims[1],
    ensures
        0 <= b * dims[1] + h < batch(dims),
{
    lemma_batch_4(dims);
    let (m, n) = (dims[0] as int, dims[1] as int);
    assert(0 <= b * n + h < m * n) by (nonlinear_arith)
        requires
            0 <= b < m,
            0 <= h < n,
    ;
}

/// The columns of turned matrices are the rows that they had.
proof fn lemma_turned_columns(k: Array, t: Array, b: int, h: int, j: int)
    requires
        transpose_result(k, 2, 3, Some(t)),
        k.dims.len() == 4,
        0 <= b < k.dims[0] && 0 <= h < k.dims[1] && 0 <= j < k.dims[2],
    ensures
        column_of_matrix(t, b * k.dims[1] + h, j) == row_of_matrix(k, b * k.dims[1] + h, j),
{
    let p = b * k.dims[1] + h;
    let (column, row) = (column_of_matrix(t, p, j), row_of_matrix(k, p, j));
    assert forall|l: int| 0 <= l < column.len() implies column[l] == row[l] by {
        lemma_place(k, b, h, j, l);
        lemma_place(t, b, h, l, j);
        let idx = seq![b, h, j, l];
        assert(swapped(idx, 2, 3) =~= seq![b, h, l, j]);
        assert(at(t, swapped(idx, 2, 3)) == at(k, idx));
    }
    assert(column =~= row);
}

/// A column of a turned matrix is the row that it was.
pub(crate) proof fn lemma_turned_column(k: Array, t: Array, p: int, j: int)
    requires
        transpose_result(k, 2, 3, Some(t)),
        k.dims.len() == 4,
        0 <= p < batch(k.dims),
        0 <= j < k.dims[2],
    ensures
        column_of_matrix(t, p, j) == row_of_matrix(k, p, j),
{
    lemma_batch_4(k.dims);
    let (m, n) = (k.dims[0] as int, k.dims[1] as int);
    assert(n > 0) by (nonlinear_arith)
        requires
            0 <= p < m * n,
            m >= 0,
            n >= 0,
    ;
    let (b, h) = (p / n, p % n);
    vstd::arithmetic::div_mod::lemma_fundamental_div_mod(p, n);
    assert(n * b == b * n) by (nonlinear_arith);
    assert(0 <= b < m && 0 <= h < n) by (nonlinear_arith)
        requires
            p == b * n + h,
            h == p % n,
            n > 0,
            0 <= p < m * n,
    ;
    lemma_turned_columns(k, t, b, h, j);
}

/// One row of the scaled products of queries and keys.
proof fn lemma_products_by_rows(
    q: Array,
    k: Array,
    head_dim: int,
    out: Array,
    b: int,
    h: int,
    i: int,
) -> (found: (u64, Seq<u64>))
    requires
        products_result(q, k, head_dim, Some(out)),
        q.dims.len() == 4 && k.dims.len() == 4,
        k.dims[0] == q.dims[0] && k.dims[1] == q.dims[1],
        0 <= b < q.dims[0] && 0 <= h < q.dims[1] && 0 <= i < q.dims[2],
    ensures
        out.dtype == q.dtype,
        out.dims == q.dims.update(3, k.dims[2]),
        out.elems.len() == count(out.dims),
        inverse_root_result(head_dim, Some(scalar(DType::F64, found.0))),
        products_row(
            q.dtype,
            row_of_matrix(q, b * q.dims[1] + h, i),
            rows_of_matrix(k, b * q.dims[1] + h),
            found.1,
        ),
        scaled_row(q.dtype, found.1, found.0, row_of_matrix(out, b * q.dims[1] + h, i)),
{
    let f = choose|f: Array| #[trigger]
        inverse_root_result(head_dim, Some(f)) && exists|t: Option<Array>| #[trigger]
            transpose_result(k, 2, 3, t) && match t {
                None => false,
                Some(t) => exists|w: Option<Array>| #[trigger]
                    matmul_result(q, t, w) && match w {
                        None => false,
                        Some(w) => scale_result(w, f.elems[0], Some(out)),
                    },
            };
    let t = choose|t: Array| #[trigger]
        transpose_result(k, 2, 3, Some(t)) && exists|w: Option<Array>| #[trigger]
            matmul_result(q, t, w) && match w {
                None => false,
                Some(w) => scale_result(w, f.elems[0], Some(out)),
            };
    let w = choose|w: Array| #[trigger]
        matmul_result(q, t, Some(w)) && scale_result(w, f.elems[0], Some(out));
    let p = b * q.dims[1] + h;
    lemma_matrix_number(q.dims, b, h);
    lemma_matrix_number(k.dims, b, h);
    assert(w.dims =~= q.dims.update(3, k.dims[2]));
    let row = row_of_matrix(w, p, i);
    let (query, keys) = (row_of_matrix(q, p, i), rows_of_matrix(k, p));
    assert forall|j: int| 0 <= j < row.len() implies matmul_outcome(
        q.dtype,
        query,
        keys[j],
        #[trigger] row[j],
    ) by {
        assert(summed(q, t, w, p, i, j));
        lemma_turned_column(k, t, p, j);
    }
    let scaled = row_of_matrix(out, p, i);
    assert forall|j: int| 0 <= j < scaled.len() implies scale_outcome(
        q.dtype,
        row[j],
        f.elems[0],
        #[trigger] scaled[j],
    ) by {
        lemma_place(w, b, h, i, j);
        let x = (p * q.dims[2] + i) * k.dims[2] + j;
        assert(out.elems[x] == scaled[j]);
    }
    lemma_root_is_a_number(head_dim, f);
    (f.elems[0], row)
}

/// One over a root is a single number.
proof fn lemma_root_is_a_number(n: int, f: Array)
    requires
        inverse_root_result(n, Some(f)),
    ensures
        f == scalar(DType::F64, f.elems[0]),
{
    assert(f.elems =~= seq![f.elems[0]]);
    assert(f.dims =~= Seq::<usize>::empty());
}

/// One row of products with a mask added.
proof fn lemma_masked_by_rows(
    w: Array,
    mask: Option<Array>,
    m: Array,
    b: int,
    h: int,
    i: int,
)
    requires
        masked_result(w, mask, Some(m)),
        w.dims.len() == 4,
        mask matches Some(k) ==> joint_dims(w.dims, k.dims) == w.dims,
        0 <= b < w.dims[0] && 0 <= h < w.dims[1] && 0 <= i < w.dims[2],
    ensures
        m.dims == w.dims,
        m.dtype == w.dtype,
        masked_row(
            w.dtype,
            row_of_matrix(w, b * w.dims[1] + h, i),
            mask_row(mask, b, h, i, w.dims[3] as nat),
            row_of_matrix(m, b * w.dims[1] + h, i),
        ),
{
    if let Some(k) = mask {
        let p = b * w.dims[1] + h;
        let (row, added, out) = (
            row_of_matrix(w, p, i),
            mask_row(mask, b, h, i, w.dims[3] as nat)->Some_0,
            row_of_matrix(m, p, i),
        );
        assert forall|j: int| 0 <= j < out.len() implies add_outcome(
            w.dtype,
            row[j],
            added[j],
            #[trigger] out[j],
        ) by {
            let idx = seq![b, h, i, j];
            lemma_place(w, b, h, i, j);
            lemma_place(m, b, h, i, j);
            assert(at(m, idx) == out[j]);
            lemma_folded_in_place(w.dims, idx);
            assert(at(w, folded(w.dims, idx)) == row[j]);
        }
    }
}

/// An index into an array itself is not folded.
proof fn lemma_folded_in_place(dims: Seq<usize>, idx: Seq<int>)
    requires
        in_bounds(dims, idx),
    ensures
        folded(dims, idx) == idx,
{
    assert forall|k: int| 0 <= k < dims.len() implies #[trigger] folded(dims, idx)[k]
        == idx[k] by {
        assert(0 <= idx[k] < dims[k]);
    }
    assert(folded(dims, idx) =~= idx);
}

/// Each query is attended to alone: its row of the result comes from its own features, the
/// keys and values of its own head and member of the batch, and its own row of the mask. The
/// products are scaled by one over the root of the head size.
pub proof fn each_query_is_attended_alone(
    q: Array,
    k: Array,
    v: Array,
    mask: Option<Array>,
    head_dim: int,
    out: Array,
    b: int,
    h: int,
    i: int,
) -> (found: (u64, u64, u64))
    requires
        scores_result(q, k, v, mask, head_dim, Some(out)),
        side_by_side(q, k, v, mask),
        0 <= b < q.dims[0] && 0 <= h < q.dims[1] && 0 <= i < q.dims[2],
    ensures
        cast_outcome(DType::I64, DType::F64, head_dim as u64, found.0),
        sqrt_outcome(DType::F64, found.0, found.1),
        recip_outcome(DType::F64, found.1, found.2),
        inverse_root_result(head_dim, Some(scalar(DType::F64, found.2))),
        attended_row(
            q.dtype,
            row_of_matrix(q, b * q.dims[1] + h, i),
            rows_of_matrix(k, b * q.dims[1] + h),
            columns_of_matrix(v, b * q.dims[1] + h),
            mask_row(mask, b, h, i, k.dims[2] as nat),
            found.2,
            row_of_matrix(out, b * q.dims[1] + h, i),
        ),
{
    let w = choose|w: Array| #[trigger]
        products_result(q, k, head_dim, Some(w)) && exists|m: Option<Array>| #[trigger]
            masked_result(w, mask, m) && match m {
                None => false,
                Some(m) => exists|p: Option<Array>| #[trigger]
                    softmax_last_result(m, p) && match p {
                        None => false,
                        Some(p) => matmul_result(p, v, Some(out)),
                    },
            };
    let m = choose|m: Array| #[trigger]
        masked_result(w, mask, Some(m)) && exists|p: Option<Array>| #[trigger]
            softmax_last_result(m, p) && match p {
                None => false,
                Some(p) => matmul_result(p, v, Some(out)),
            };
    let p = choose|p: Array| #[trigger]
        softmax_last_result(m, Some(p)) && matmul_result(p, v, Some(out));
    let (factor, products) = lemma_products_by_rows(q, k, head_dim, w, b, h, i);
    lemma_masked_by_rows(w, mask, m, b, h, i);
    let number = b * q.dims[1] + h;
    let (masked, weights, row) = (
        row_of_matrix(m, number, i),
        row_of_matrix(p, number, i),
        row_of_matrix(out, number, i),
    );
    lemma_row_number(m.dims, b, h, i);
    let r = number * m.dims[2] + i;
    assert(chunk(m, r) =~= masked);
    assert(chunk(p, r) =~= weights);
    assert(softmax_last_outcome(q.dtype, masked, weights));
    lemma_matrix_number(p.dims, b, h);
    let columns = columns_of_matrix(v, number);
    assert forall|c: int| 0 <= c < row.len() implies matmul_outcome(
        q.dtype,
        weights,
        columns[c],
        #[trigger] row[c],
    ) by {
        assert(summed(p, v, out, number, i, c));
    }
    assert(products_row(q.dtype, weights, columns, row));
    assert(scaled_row(q.dtype, products, factor, row_of_matrix(w, number, i)));
    let (x, root, inverse) = one_over_a_root(head_dim, Some(scalar(DType::F64, factor)));
    assert(seq![inverse][0] == scalar(DType::F64, factor).elems[0]);
    (x, root, inverse)
}

/// The number of a row is within bounds.
proof fn lemma_row_number(dims: Seq<usize>, b: int, h: int, i: int)
    requires
        dims.len() == 4,
        0 <= b < dims[0],
        0 <= h < dims[1],
        0 <= i < dims[2],
    ensures
        0 <= (b * dims[1] + h) * dims[2] + i < count(dims.drop_last()),
{
    assert(dims.drop_last() =~= dims_3(dims[0], dims[1], dims[2]));
    lemma_count_3(dims[0], dims[1], dims[2]);
    lemma_matrix_number(dims, b, h);
    lemma_batch_4(dims);
    let (x, n, s) = (b * dims[1] + h, dims[0] * dims[1], dims[2] as int);
    assert(0 <= x * s + i < n * s) by (nonlinear_arith)
        requires
            0 <= x < n,
            0 <= i < s,
    ;
}

} // verus!
