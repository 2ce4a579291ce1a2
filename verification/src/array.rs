//! The mathematical model of a tensor: a dense array of bit patterns.
//!
//! A spec function whose name ends in `_result` relates the arguments of one
//! tensor operation to its outcome: `Some` array on success, `None` on failure.

use candle_core::DType;
use vstd::prelude::*;

verus! {

/// A dense array: its element type, its size on each axis, and its elements in
/// row-major order. An element is held as its bit pattern, zero-extended.
pub struct Array {
    pub dtype: DType,
    pub dims: Seq<usize>,
    pub elems: Seq<u64>,
}

/// The dimensions of a matrix.
pub open spec fn dims_2(a: usize, b: usize) -> Seq<usize> {
    seq![a, b]
}

/// The dimensions of an array of rank three.
pub open spec fn dims_3(a: usize, b: usize, c: usize) -> Seq<usize> {
    seq![a, b, c]
}

/// The dimensions of an array of rank four.
pub open spec fn dims_4(a: usize, b: usize, c: usize, d: usize) -> Seq<usize> {
    seq![a, b, c, d]
}

/// The number of elements of an array with these dimensions.
pub open spec fn count(dims: Seq<usize>) -> nat
    decreases dims.len(),
{
    if dims.len() == 0 {
        1
    } else {
        count(dims.drop_last()) * dims.last() as nat
    }
}

/// The product of the dimensions, those of size zero left out.
pub open spec fn bulk(dims: Seq<usize>) -> nat
    decreases dims.len(),
{
    if dims.len() == 0 {
        1
    } else if dims.last() == 0 {
        bulk(dims.drop_last())
    } else {
        bulk(dims.drop_last()) * dims.last() as nat
    }
}

/// Whether every product of dimensions fits in a machine word.
pub open spec fn addressable(dims: Seq<usize>) -> bool {
    bulk(dims) <= usize::MAX
}

/// Whether `idx` names an element of an array with these dimensions.
pub open spec fn in_bounds(dims: Seq<usize>, idx: Seq<int>) -> bool {
    &&& idx.len() == dims.len()
    &&& forall|k: int| 0 <= k < dims.len() ==> 0 <= #[trigger] idx[k] < dims[k]
}

/// The row-major position of the element that `idx` names.
pub open spec fn position(dims: Seq<usize>, idx: Seq<int>) -> int
    decreases dims.len(),
{
    if dims.len() == 0 {
        0
    } else {
        position(dims.drop_last(), idx.drop_last()) * dims.last() + idx.last()
    }
}

/// The element that `idx` names.
pub open spec fn at(a: Array, idx: Seq<int>) -> u64 {
    a.elems[position(a.dims, idx)]
}

/// The element types that the CPU backend can store: all but the placeholders.
pub open spec fn storable(dtype: DType) -> bool {
    match dtype {
        DType::F6E2M3 | DType::F6E3M2 | DType::F4 | DType::F8E8M0 => false,
        _ => true,
    }
}

/// The element types that hold fractions.
pub open spec fn floating(dtype: DType) -> bool {
    match dtype {
        DType::U8 | DType::U32 | DType::I16 | DType::I32 | DType::I64 => false,
        _ => true,
    }
}

/// Two arrays of one shape and element type.
pub open spec fn alike(a: Array, b: Array) -> bool {
    &&& a.dtype == b.dtype
    &&& a.dims == b.dims
    &&& a.elems.len() == b.elems.len()
}

/// The array without axes that holds one element.
pub open spec fn scalar(dtype: DType, bits: u64) -> Array {
    Array { dtype, dims: Seq::empty(), elems: seq![bits] }
}

/// The numbers below `end`, in order.
pub open spec fn arange(end: u32) -> Array {
    Array {
        dtype: DType::U32,
        dims: seq![end as usize],
        elems: Seq::new(end as nat, |i: int| i as u64),
    }
}

/// A sequence with two places exchanged.
pub open spec fn swapped<T>(s: Seq<T>, i: int, j: int) -> Seq<T> {
    s.update(i, s[j]).update(j, s[i])
}

/// Exchanging axes `i` and `j`.
pub open spec fn transpose_result(a: Array, i: int, j: int, out: Option<Array>) -> bool {
    if 0 <= i < a.dims.len() && 0 <= j < a.dims.len() {
        &&& out matches Some(t)
        &&& t.dtype == a.dtype
        &&& t.dims == swapped(a.dims, i, j)
        &&& t.elems.len() == a.elems.len()
        &&& forall|idx: Seq<int>|
            in_bounds(a.dims, idx) ==> at(t, swapped(idx, i, j)) == #[trigger] at(a, idx)
    } else {
        out is None
    }
}

/// Keeping the positions `start .. start + len` of axis `dim`.
pub open spec fn narrow_result(
    a: Array,
    dim: int,
    start: int,
    len: usize,
    out: Option<Array>,
) -> bool {
    if 0 <= dim < a.dims.len() && start + len <= a.dims[dim] {
        &&& out matches Some(t)
        &&& t.dtype == a.dtype
        &&& t.dims == a.dims.update(dim, len)
        &&& t.elems.len() == count(t.dims)
        &&& forall|idx: Seq<int>|
            in_bounds(t.dims, idx) ==> #[trigger] at(t, idx) == at(
                a,
                idx.update(dim, idx[dim] + start),
            )
    } else {
        out is None
    }
}

/// Whether an array with dimensions `dims` can be repeated to fill `target`.
pub open spec fn expandable(dims: Seq<usize>, target: Seq<usize>) -> bool {
    &&& dims.len() <= target.len()
    &&& forall|k: int|
        0 <= k < dims.len() ==> #[trigger] dims[k] == 1 || dims[k] == target[target.len()
            - dims.len() + k]
}

/// The element of the smaller array that stands at `idx` of the repeated one.
pub open spec fn folded(dims: Seq<usize>, idx: Seq<int>) -> Seq<int> {
    Seq::new(
        dims.len(),
        |k: int|
            if dims[k] == 1 {
                0
            } else {
                idx[idx.len() - dims.len() + k]
            },
    )
}

/// Repeating an array along its axes of size one, and along new leading axes.
pub open spec fn expand_result(a: Array, dims: Seq<usize>, out: Option<Array>) -> bool {
    if expandable(a.dims, dims) && addressable(dims) {
        &&& out matches Some(t)
        &&& t.dtype == a.dtype
        &&& t.dims == dims
        &&& t.elems.len() == count(dims)
        &&& forall|idx: Seq<int>|
            in_bounds(dims, idx) ==> #[trigger] at(t, idx) == at(a, folded(a.dims, idx))
    } else {
        out is None
    }
}

/// Row `b` of a matrix.
pub open spec fn matrix_row(a: Array, b: int) -> Array {
    Array {
        dtype: a.dtype,
        dims: seq![a.dims[1]],
        elems: a.elems.subrange(b * a.dims[1], (b + 1) * a.dims[1]),
    }
}

/// Taking row `b` of a matrix.
pub open spec fn row_result(a: Array, b: int, out: Option<Array>) -> bool {
    if 0 <= b < a.dims[0] {
        out == Some(matrix_row(a, b))
    } else {
        out is None
    }
}

/// The same elements in the same order under other dimensions.
pub open spec fn reshape_result(a: Array, dims: Seq<usize>, out: Option<Array>) -> bool {
    match out {
        Some(t) => {
            &&& count(dims) == count(a.dims)
            &&& addressable(dims)
            &&& t == (Array { dims, ..a })
        },
        None => {
            ||| count(dims) != count(a.dims)
            ||| !storable(a.dtype)
            ||| !addressable(a.dims)
            ||| !addressable(dims)
        },
    }
}

/// The same array, laid out in row-major order. Sizes that do not fit in a machine
/// word are refused.
pub open spec fn contiguous_result(a: Array, out: Option<Array>) -> bool {
    match out {
        Some(t) => t == a && addressable(a.dims),
        None => !storable(a.dtype) || !addressable(a.dims),
    }
}

/// The total size on axis `dim` of the first `n` arrays.
pub open spec fn lead(parts: Seq<Array>, dim: int, n: int) -> int
    decreases n,
{
    if n <= 0 {
        0
    } else {
        lead(parts, dim, n - 1) + parts[n - 1].dims[dim]
    }
}

/// Whether the arrays can be joined along axis `dim`.
pub open spec fn joinable(parts: Seq<Array>, dim: int) -> bool {
    &&& parts.len() > 0
    &&& parts.len() > 1 ==> 0 <= dim < parts[0].dims.len()
    &&& parts.len() > 1 ==> forall|p: int|
        0 <= p < parts.len() ==> {
            &&& (#[trigger] parts[p]).dtype == parts[0].dtype
            &&& parts[p].dims.len() == parts[0].dims.len()
            &&& forall|k: int|
                0 <= k < parts[0].dims.len() && k != dim ==> #[trigger] parts[p].dims[k]
                    == parts[0].dims[k]
        }
}

/// Whether the sizes of joined arrays fit in a machine word.
pub open spec fn join_fits(parts: Seq<Array>, dim: int) -> bool {
    parts.len() > 1 && 0 <= dim < parts[0].dims.len() ==> {
        &&& forall|p: int| 0 <= p < parts.len() ==> addressable((#[trigger] parts[p]).dims)
        &&& lead(parts, dim, parts.len() as int) <= usize::MAX
        &&& addressable(
            parts[0].dims.update(dim, lead(parts, dim, parts.len() as int) as usize),
        )
    }
}

/// Joining arrays along axis `dim`, in order. Sizes that do not fit in a machine
/// word are refused.
pub open spec fn cat_result(parts: Seq<Array>, dim: int, out: Option<Array>) -> bool {
    match out {
        Some(t) => {
            &&& joinable(parts, dim)
            &&& parts.len() == 1 ==> t == parts[0]
            &&& parts.len() > 1 ==> {
                &&& t.dtype == parts[0].dtype
                &&& t.dims.len() == parts[0].dims.len()
                &&& t.dims[dim] == lead(parts, dim, parts.len() as int)
                &&& forall|k: int|
                    0 <= k < t.dims.len() && k != dim ==> #[trigger] t.dims[k] == parts[0].dims[k]
                &&& t.elems.len() == count(t.dims)
                &&& forall|p: int, idx: Seq<int>|
                    0 <= p < parts.len() && in_bounds(parts[p].dims, idx) ==> #[trigger] at(
                        parts[p],
                        idx,
                    ) == at(t, idx.update(dim, idx[dim] + lead(parts, dim, p)))
            }
        },
        None => !joinable(parts, dim) || !join_fits(parts, dim) || !storable(parts[0].dtype),
    }
}

/// An array of zeros.
pub open spec fn zeros_result(dims: Seq<usize>, dtype: DType, out: Option<Array>) -> bool {
    if storable(dtype) && addressable(dims) {
        out == Some(Array { dtype, dims, elems: Seq::new(count(dims), |i: int| 0u64) })
    } else {
        out is None
    }
}

/// Choosing each element from `x` where the condition is not zero, else from `y`.
pub open spec fn where_result(c: Array, x: Array, y: Array, out: Option<Array>) -> bool {
    if c.dims == x.dims && c.dims == y.dims && x.dtype == y.dtype && storable(x.dtype)
        && !floating(c.dtype) {
        out == Some(
            Array {
                dtype: x.dtype,
                dims: c.dims,
                elems: Seq::new(
                    c.elems.len(),
                    |i: int|
                        if c.elems[i] != 0 {
                            x.elems[i]
                        } else {
                            y.elems[i]
                        },
                ),
            },
        )
    } else {
        out is None
    }
}

/// The size on one axis of two arrays that are combined with repetition.
pub open spec fn joint_dim(l: usize, r: usize) -> usize {
    if l == 1 {
        r
    } else {
        l
    }
}

/// Size `k` out of `n` of dimensions that are aligned at their ends, with ones in
/// front.
pub open spec fn aligned(dims: Seq<usize>, n: int, k: int) -> usize {
    if k >= n - dims.len() {
        dims[k - (n - dims.len())]
    } else {
        1
    }
}

/// The number of axes of two arrays that are combined with repetition.
pub open spec fn joint_rank(a: Seq<usize>, b: Seq<usize>) -> nat {
    if a.len() >= b.len() {
        a.len()
    } else {
        b.len()
    }
}

/// The dimensions of two arrays that are combined with repetition.
pub open spec fn joint_dims(a: Seq<usize>, b: Seq<usize>) -> Seq<usize> {
    let n = joint_rank(a, b);
    Seq::new(n, |k: int| joint_dim(aligned(a, n as int, k), aligned(b, n as int, k)))
}

/// Whether two arrays can be combined with repetition.
pub open spec fn joint(a: Seq<usize>, b: Seq<usize>) -> bool {
    let n = joint_rank(a, b) as int;
    forall|k: int|
        0 <= k < n ==> {
            let (l, r) = (#[trigger] aligned(a, n, k), aligned(b, n, k));
            l == r || l == 1 || r == 1
        }
}

/// Whether the sizes of two arrays that are combined with repetition fit in a
/// machine word.
pub open spec fn joint_fits(a: Seq<usize>, b: Seq<usize>) -> bool {
    addressable(a) && addressable(b) && addressable(joint_dims(a, b))
}

/// Whether the sizes of two arrays that are multiplied, and of their product, fit
/// in a machine word.
pub open spec fn product_fits(a: Seq<usize>, b: Seq<usize>) -> bool {
    &&& addressable(a)
    &&& addressable(b)
    &&& a.len() >= 2 && b.len() == a.len() ==> addressable(a.update(a.len() - 1, b.last()))
}

/// The element types that matrices can be multiplied in.
pub open spec fn multiplies(dtype: DType) -> bool {
    match dtype {
        DType::F16 | DType::F32 | DType::F64 => true,
        _ => false,
    }
}

/// The element types that every activation and the rotation of heads work in.
pub open spec fn standard(dtype: DType) -> bool {
    match dtype {
        DType::BF16 | DType::F16 | DType::F32 | DType::F64 => true,
        _ => false,
    }
}

/// The element types that a normalisation works in for every layout.
pub open spec fn normalises(dtype: DType) -> bool {
    match dtype {
        DType::BF16 | DType::F16 | DType::F32 => true,
        _ => false,
    }
}

/// The bits of negative infinity in a standard element type.
pub open spec fn negative_infinity(dtype: DType) -> u64 {
    match dtype {
        DType::BF16 => 0xFF80,
        DType::F16 => 0xFC00,
        DType::F32 => 0xFF80_0000,
        _ => 0xFFF0_0000_0000_0000,
    }
}

/// The number of matrices in an array of rank two or more.
pub open spec fn batch(dims: Seq<usize>) -> nat {
    count(dims.take(dims.len() - 2))
}

/// Whether two arrays of one rank agree in what a product needs: the element type,
/// the number of matrices, and the size that is summed over.
pub open spec fn product_agrees(a: Array, b: Array) -> bool {
    let n = a.dims.len() as int;
    &&& multiplies(a.dtype)
    &&& b.dtype == a.dtype
    &&& batch(a.dims) == batch(b.dims)
    &&& b.dims[n - 2] == a.dims[n - 1]
}

/// The product of the last two axes, batch by batch: the shape of a product. One
/// with elements has come from arrays that agree, unless nothing was summed.
pub open spec fn product_shape(a: Array, b: Array, t: Array) -> bool {
    let n = a.dims.len() as int;
    &&& n >= 2
    &&& b.dims.len() == n
    &&& t.dtype == a.dtype
    &&& t.dims == a.dims.update(n - 1, b.dims[n - 1])
    &&& t.elems.len() == count(t.dims)
    &&& a.dims[n - 1] > 0 && t.elems.len() > 0 ==> product_agrees(a, b)
}

/// Row `i` of matrix `p`.
pub open spec fn row_of_matrix(a: Array, p: int, i: int) -> Seq<u64> {
    let n = a.dims.len() as int;
    let (rows, columns) = (a.dims[n - 2] as int, a.dims[n - 1] as int);
    Seq::new(columns as nat, |l: int| a.elems[(p * rows + i) * columns + l])
}

/// Column `j` of matrix `p`.
pub open spec fn column_of_matrix(a: Array, p: int, j: int) -> Seq<u64> {
    let n = a.dims.len() as int;
    let (rows, columns) = (a.dims[n - 2] as int, a.dims[n - 1] as int);
    Seq::new(rows as nat, |l: int| a.elems[(p * rows + l) * columns + j])
}

/// Whether a product is bound to succeed: it does up to rank four.
pub open spec fn product_owed(a: Array, b: Array) -> bool {
    &&& 2 <= a.dims.len() <= 4
    &&& b.dims.len() == a.dims.len()
    &&& product_agrees(a, b)
}

/// The elements along the last axis, `r` rows down.
pub open spec fn chunk(a: Array, r: int) -> Seq<u64> {
    let n = a.dims.last() as int;
    Seq::new(n as nat, |l: int| a.elems[r * n + l])
}

} // verus!
