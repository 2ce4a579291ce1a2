//! Which positions a position may attend to.

use crate::array::{
    Array, cat_result, count, dims_2, dims_4, expand_result, matrix_row, scalar, where_result,
    zeros_result,
};
use crate::error::ModelError;
use crate::tensor::{
    array, arrays, cast_result, cat, dims, dims2, dtype as element_type, expand, from_single_bits,
    lemma_matrix_fits, outcome, row, to_dtype, where_cond, zeros,
};
use candle_core::{DType, Device, Tensor};
use vstd::prelude::*;

verus! {

/// The bits of negative infinity in single precision: what a mask adds to the
/// weight of a position that may not be attended to.
pub const NEG_INFINITY: u32 = 0xFF80_0000;

/// Whether position `i` may not attend to position `j`: it lies ahead, or further
/// back than the window reaches.
pub open spec fn blocked(i: int, j: int, window: int) -> bool {
    i < j || j + window < i
}

/// What a mask adds to the weight that position `i` gives position `j`.
pub open spec fn penalty(i: int, j: int, window: int) -> u32 {
    if blocked(i, j, window) {
        NEG_INFINITY
    } else {
        0
    }
}

/// The penalties between `n` positions, in row-major order.
pub open spec fn penalties(n: int, window: int) -> Seq<u32> {
    Seq::new((n * n) as nat, |p: int| penalty(p / n, p % n, window))
}

/// The penalties between `n` positions.
pub open spec fn causal(n: usize, window: usize) -> Array {
    Array {
        dtype: DType::F32,
        dims: dims_2(n, n),
        elems: penalties(n as int, window as int).map_values(|b: u32| b as u64),
    }
}

/// Putting columns for earlier positions, all visible, in front of a mask.
pub open spec fn shifted_result(
    dtype: DType,
    mask: Array,
    offset: usize,
    out: Option<Array>,
) -> bool {
    if offset == 0 {
        out == Some(mask)
    } else {
        exists|z: Option<Array>| #[trigger]
            zeros_result(dims_2(mask.dims[0], offset), dtype, z) && match z {
                None => out is None,
                Some(z) => cat_result(seq![z, mask], 1, out),
            }
    }
}

/// The mask of `n` new positions that follow `offset` earlier ones, for each member
/// of a batch.
pub open spec fn causal_mask_result(
    dtype: DType,
    window: usize,
    batch: usize,
    n: usize,
    offset: usize,
    out: Option<Array>,
) -> bool {
    if n * n > usize::MAX || n + offset > usize::MAX {
        out is None
    } else {
        exists|m: Option<Array>| #[trigger]
            shifted_result(dtype, causal(n, window), offset, m) && match m {
                None => out is None,
                Some(m) => exists|e: Option<Array>| #[trigger]
                    expand_result(m, dims_4(batch, 1, n, (n + offset) as usize), e) && match e {
                        None => out is None,
                        Some(e) => cast_result(e, dtype, out),
                    },
            }
    }
}

/// Each row of a matrix, repeated to a square.
pub open spec fn squares_result(a: Array, out: Option<Seq<Array>>) -> bool {
    let n = a.dims[1];
    match out {
        Some(rows) => {
            &&& rows.len() == a.dims[0]
            &&& forall|b: int|
                0 <= b < rows.len() ==> expand_result(
                    matrix_row(a, b),
                    dims_4(1, 1, n, n),
                    Some(#[trigger] rows[b]),
                )
        },
        None => exists|b: int|
            0 <= b < a.dims[0] && expand_result(
                #[trigger] matrix_row(a, b),
                dims_4(1, 1, n, n),
                None,
            ),
    }
}

/// Choosing zero where a mask has a number other than zero, else negative infinity.
pub open spec fn chosen_result(dtype: DType, m: Array, out: Option<Array>) -> bool {
    exists|z: Option<Array>| #[trigger]
        zeros_result(m.dims, m.dtype, z) && match z {
            None => out is None,
            Some(z) => exists|t: Option<Array>| #[trigger]
                cast_result(z, dtype, t) && match t {
                    None => out is None,
                    Some(t) => exists|e: Option<Array>| #[trigger]
                        expand_result(scalar(DType::F32, NEG_INFINITY as u64), m.dims, e)
                            && match e {
                            None => out is None,
                            Some(e) => exists|f: Option<Array>| #[trigger]
                                cast_result(e, dtype, f) && match f {
                                    None => out is None,
                                    Some(f) => where_result(m, t, f, out),
                                },
                        },
                },
        }
}

/// The mask that a matrix with one row for each member of a batch stands for: a
/// position is visible to all where its number is not zero.
pub open spec fn attention_mask_result(dtype: DType, a: Array, out: Option<Array>) -> bool {
    if a.dims.len() != 2 {
        out is None
    } else {
        exists|rows: Option<Seq<Array>>| #[trigger]
            squares_result(a, rows) && match rows {
                None => out is None,
                Some(rows) => exists|m: Option<Array>| #[trigger]
                    cat_result(rows, 0, m) && match m {
                        None => out is None,
                        Some(m) => chosen_result(dtype, m, out),
                    },
            }
    }
}

/// The place of row `i`, column `j` in a square.
proof fn lemma_place_in_square(n: int, i: int, j: int)
    requires
        0 <= i < n,
        0 <= j < n,
    ensures
        0 <= i * n + j < n * n,
        (i * n + j) / n == i,
        (i * n + j) % n == j,
{
    vstd::arithmetic::div_mod::lemma_fundamental_div_mod_converse(i * n + j, n, i, j);
    assert(0 <= i * n + j < n * n) by (nonlinear_arith)
        requires
            0 <= i < n,
            0 <= j < n,
    ;
}

/// The number of elements of a square.
proof fn lemma_count_of_square(n: usize)
    ensures
        count(dims_2(n, n)) == n * n,
{
    reveal_with_fuel(count, 3);
    assert(dims_2(n, n).drop_last() =~= seq![n]);
    let c = count(seq![n]);
    assert(seq![n].drop_last() =~= Seq::<usize>::empty());
    assert(c == 1 * n as nat);
    assert(c * n as nat == n * n) by (nonlinear_arith)
        requires
            c == 1 * n as nat,
    ;
}

/// The penalties between `n` positions.
fn square(n: usize, window: usize) -> (r: Vec<u32>)
    requires
        n * n <= usize::MAX,
    ensures
        r@ == penalties(n as int, window as int),
{
    let mut out: Vec<u32> = Vec::new();
    let mut i: usize = 0;
    while i < n
        invariant
            i <= n,
            n * n <= usize::MAX,
            out@.len() == i * n,
            forall|p: int|
                0 <= p < i * n ==> #[trigger] out@[p] == penalty(
                    p / n as int,
                    p % n as int,
                    window as int,
                ),
        decreases n - i,
    {
        let mut j: usize = 0;
        while j < n
            invariant
                i < n,
                j <= n,
                n * n <= usize::MAX,
                out@.len() == i * n + j,
                forall|p: int|
                    0 <= p < i * n + j ==> #[trigger] out@[p] == penalty(
                        p / n as int,
                        p % n as int,
                        window as int,
                    ),
            decreases n - j,
        {
            let cell = if i < j || i - j > window {
                NEG_INFINITY
            } else {
                0
            };
            out.push(cell);
            proof {
                lemma_place_in_square(n as int, i as int, j as int);
            }
            j += 1;
        }
        assert((i + 1) * n == i * n + n) by (nonlinear_arith);
        i += 1;
    }
    assert(out@ =~= penalties(n as int, window as int));
    out
}

/// Puts columns for earlier positions, all visible, in front of a mask.
fn shifted(dtype: DType, mask: Tensor, n: usize, offset: usize, device: &Device) -> (r: Result<
    Tensor,
    ModelError,
>)
    requires
        array(mask).dims.len() == 2,
        array(mask).dims[0] == n,
    ensures
        shifted_result(dtype, array(mask), offset, outcome(r)),
{
    if offset == 0 {
        return Ok(mask);
    }
    let ghost m = array(mask);
    let shape = vec![n, offset];
    assert(shape@ =~= dims_2(m.dims[0], offset));
    let z = zeros(&shape, dtype, device)?;
    let parts = vec![z, mask];
    assert(arrays(parts@) =~= seq![array(z), m]);
    let t = cat(&parts, 1)?;
    Ok(t)
}

/// The mask of `n` new positions that follow `offset` earlier ones.
pub(crate) fn causal_mask(
    dtype: DType,
    window: usize,
    batch: usize,
    n: usize,
    offset: usize,
    device: &Device,
) -> (r: Result<Tensor, ModelError>)
    ensures
        causal_mask_result(dtype, window, batch, n, offset, outcome(r)),
{
    if n.checked_mul(n).is_none() {
        return Err(ModelError::TooLarge);
    }
    let width = match n.checked_add(offset) {
        Some(width) => width,
        None => {
            return Err(ModelError::TooLarge);
        },
    };
    let cells = square(n, window);
    let side = vec![n, n];
    proof {
        lemma_count_of_square(n);
        lemma_matrix_fits(n, n);
        assert(side@ =~= dims_2(n, n));
    }
    let c = from_single_bits(&cells, &side, device)?;
    assert(array(c) == causal(n, window));
    let m = shifted(dtype, c, n, offset, device)?;
    let shape = vec![batch, 1usize, n, width];
    assert(shape@ =~= dims_4(batch, 1, n, (n + offset) as usize));
    let e = expand(&m, &shape)?;
    let t = to_dtype(&e, dtype)?;
    Ok(t)
}

/// Each row of a matrix, repeated to a square.
fn squares(a: &Tensor, batch: usize, n: usize) -> (r: Result<Vec<Tensor>, ModelError>)
    requires
        array(*a).dims == seq![batch, n],
    ensures
        squares_result(
            array(*a),
            match r {
                Ok(rows) => Some(arrays(rows@)),
                Err(_) => None,
            },
        ),
{
    let mut rows: Vec<Tensor> = Vec::new();
    let shape = vec![1usize, 1, n, n];
    assert(shape@ =~= dims_4(1, 1, n, n));
    let mut b: usize = 0;
    while b < batch
        invariant
            b <= batch,
            array(*a).dims == seq![batch, n],
            shape@ == dims_4(1, 1, n, n),
            rows@.len() == b,
            forall|i: int|
                0 <= i < b ==> expand_result(
                    matrix_row(array(*a), i),
                    dims_4(1, 1, n, n),
                    Some(array(#[trigger] rows@[i])),
                ),
        decreases batch - b,
    {
        let one = row(a, b)?;
        let wide = expand(&one, &shape)?;
        rows.push(wide);
        b += 1;
    }
    Ok(rows)
}

/// Chooses zero where a mask has a number other than zero, else negative infinity.
fn chosen(dtype: DType, mask: &Tensor, device: &Device) -> (r: Result<Tensor, ModelError>)
    ensures
        chosen_result(dtype, array(*mask), outcome(r)),
{
    let shape = dims(mask);
    let ghost m = array(*mask);
    assert(shape@ == m.dims);
    let z = zeros(&shape, element_type(mask), device)?;
    let on_true = to_dtype(&z, dtype)?;
    let bits = vec![NEG_INFINITY];
    let no_axes: Vec<usize> = Vec::new();
    let one = from_single_bits(&bits, &no_axes, device)?;
    assert(array(one).elems =~= seq![NEG_INFINITY as u64]);
    assert(array(one) == scalar(DType::F32, NEG_INFINITY as u64));
    let wide = expand(&one, &shape)?;
    let on_false = to_dtype(&wide, dtype)?;
    let t = where_cond(mask, &on_true, &on_false)?;
    Ok(t)
}

/// The mask that a matrix with one row for each member of a batch stands for.
pub(crate) fn attention_mask(dtype: DType, a: &Tensor, device: &Device) -> (r: Result<
    Tensor,
    ModelError,
>)
    ensures
        attention_mask_result(dtype, array(*a), outcome(r)),
{
    let (batch, n) = dims2(a)?;
    let rows = squares(a, batch, n)?;
    let m = cat(&rows, 0)?;
    chosen(dtype, &m, device)
}

} // verus!
