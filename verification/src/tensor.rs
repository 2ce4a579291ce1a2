//! Tensors, and the operations on them that the model is built from.
//!
//! The operations are candle's. Each is reached through one small function whose
//! contract is believed, not proved. A contract states the outcome exactly where
//! the operation only moves elements about. Where it computes with fractions the
//! last bits of the result depend on the machine, so there the contract states
//! the shape and ties the outcome to the arguments through a relation that is
//! left open (its name ends in `_outcome`): two calls on the same arguments may
//! round differently, but neither may use anything else.
//!
//! An operation works with numbers of elements, so dimensions whose product does not
//! fit in a machine word are kept away from it, by its contract or by a test.
//!
//! No accelerator backend is compiled in, so every tensor is the CPU's. The model
//! of a tensor speaks of its elements as fixed: it holds as long as nothing
//! writes into the storage that tensors share, which no function here does. As
//! with `Vec`, running out of memory is not modelled.

use crate::array::{
    Array, addressable, aligned, alike, arange, at, batch, bulk, cat_result, chunk,
    column_of_matrix, contiguous_result, count, expand_result, floating, folded, in_bounds,
    join_fits, joinable, joint, joint_dim, joint_dims, joint_fits, lead, narrow_result,
    negative_infinity, product_fits, product_owed, product_shape, reshape_result, row_of_matrix,
    row_result, scalar, standard, storable, transpose_result, where_result, zeros_result,
};
use crate::error::ModelError;
use candle_core::{DType, Device, IndexOp, Module, Tensor};
use candle_nn::Activation;
use vstd::prelude::*;

verus! {

#[verifier::external_type_specification]
#[verifier::external_body]
pub struct ExTensor(candle_core::Tensor);

#[verifier::external_type_specification]
#[verifier::external_body]
pub struct ExDevice(candle_core::Device);

#[verifier::external_type_specification]
pub struct ExDType(candle_core::DType);

#[verifier::external_type_specification]
pub struct ExActivation(candle_nn::Activation);

/// The element type of a tensor.
pub uninterp spec fn tensor_dtype(t: candle_core::Tensor) -> DType;

/// The size of a tensor on each axis.
pub uninterp spec fn tensor_dims(t: candle_core::Tensor) -> Seq<usize>;

/// The elements of a tensor in row-major order, as zero-extended bit patterns.
pub uninterp spec fn tensor_elems(t: candle_core::Tensor) -> Seq<u64>;

/// Whether the part of its storage that a tensor shows begins within it. A tensor
/// with elements always does; an empty one may have been narrowed past the end.
pub uninterp spec fn tensor_within(t: candle_core::Tensor) -> bool;

/// Whether the elements of a tensor lie in row-major order in its storage.
pub uninterp spec fn tensor_ordered(t: candle_core::Tensor) -> bool;

/// Whether the strides of a tensor are exactly those of its dimensions. One whose
/// elements lie in order may still have others on axes of size one.
pub uninterp spec fn tensor_plain(t: candle_core::Tensor) -> bool;

/// Whether an operation may look at the storage of a tensor. The placeholder types
/// are turned away before that.
pub open spec fn sound(t: Tensor) -> bool {
    tensor_within(t) || !storable(tensor_dtype(t))
}

/// The array that a tensor holds.
pub open spec fn array(t: Tensor) -> Array {
    Array { dtype: tensor_dtype(t), dims: tensor_dims(t), elems: tensor_elems(t) }
}

/// The array that a tensor holds, where there is one.
pub open spec fn optional_array(t: Option<&Tensor>) -> Option<Array> {
    match t {
        Some(t) => Some(array(*t)),
        None => None,
    }
}

/// The array of a tensor that is held, where there is one.
pub open spec fn held_array(t: Option<Tensor>) -> Option<Array> {
    match t {
        Some(t) => Some(array(t)),
        None => None,
    }
}

/// The arrays that the tensors of a list hold.
pub open spec fn arrays(ts: Seq<Tensor>) -> Seq<Array> {
    Seq::new(ts.len(), |i: int| array(ts[i]))
}

/// The array that an operation produced, `None` where it failed.
pub open spec fn outcome<E>(r: Result<Tensor, E>) -> Option<Array> {
    match r {
        Ok(t) => Some(array(t)),
        Err(_) => None,
    }
}

/// The arrays of a pair of tensors, `None` where the operation failed.
pub open spec fn pair_outcome(r: Result<(Tensor, Tensor), ModelError>) -> Option<(Array, Array)> {
    match r {
        Ok(p) => Some((array(p.0), array(p.1))),
        Err(_) => None,
    }
}

/// `Clone::clone` of a tensor: it hands out another handle to the same tensor.
pub assume_specification[ <Tensor as Clone>::clone ](t: &Tensor) -> (r: Tensor)
    ensures
        r == *t,
;

/// `Clone::clone` of a device: it hands out another handle to the same device.
pub assume_specification[ <Device as Clone>::clone ](d: &Device) -> (r: Device)
    ensures
        r == *d,
;

/// `Tensor::dims`: the dimensions, whose product is the number of elements. Where
/// there are any they lie in the storage.
#[verifier::external_body]
pub(crate) fn dims(t: &Tensor) -> (r: Vec<usize>)
    ensures
        r@ == tensor_dims(*t),
        tensor_elems(*t).len() == count(r@),
        count(r@) > 0 ==> tensor_within(*t),
{
    t.dims().to_vec()
}

/// `Tensor::dims2`: the dimensions of a matrix, an error for any other rank.
#[verifier::external_body]
pub(crate) fn dims2(t: &Tensor) -> (r: Result<(usize, usize), candle_core::Error>)
    ensures
        match r {
            Ok(d) => tensor_dims(*t) == seq![d.0, d.1],
            Err(_) => tensor_dims(*t).len() != 2,
        },
{
    t.dims2()
}

/// `Tensor::dims3`: the dimensions of an array of rank three, an error for any
/// other rank.
#[verifier::external_body]
pub(crate) fn dims3(t: &Tensor) -> (r: Result<(usize, usize, usize), candle_core::Error>)
    ensures
        match r {
            Ok(d) => tensor_dims(*t) == seq![d.0, d.1, d.2],
            Err(_) => tensor_dims(*t).len() != 3,
        },
{
    t.dims3()
}

/// `Tensor::dims4`: the dimensions of an array of rank four, an error for any
/// other rank.
#[verifier::external_body]
pub(crate) fn dims4(t: &Tensor) -> (r: Result<
    (usize, usize, usize, usize),
    candle_core::Error,
>)
    ensures
        match r {
            Ok(d) => tensor_dims(*t) == seq![d.0, d.1, d.2, d.3],
            Err(_) => tensor_dims(*t).len() != 4,
        },
{
    t.dims4()
}

/// `Tensor::dtype`: the element type.
#[verifier::external_body]
pub(crate) fn dtype(t: &Tensor) -> (r: DType)
    ensures
        r == tensor_dtype(*t),
{
    t.dtype()
}

/// `Tensor::device`: where the tensor is. Nothing is said of it: what an operation
/// yields does not depend on the device.
#[verifier::external_body]
fn device(t: &Tensor) -> (r: Device) {
    t.device().clone()
}

/// `Tensor::transpose`: exchanges two axes, and fails where one does not exist.
#[verifier::external_body]
pub(crate) fn transpose(t: &Tensor, i: usize, j: usize) -> (r: Result<Tensor, candle_core::Error>)
    ensures
        transpose_result(array(*t), i as int, j as int, outcome(r)),
{
    t.transpose(i, j)
}

/// `Tensor::narrow`: keeps a range of one axis, and fails where the range runs
/// past the axis or the axis does not exist.
#[verifier::external_body]
pub(crate) fn narrow(t: &Tensor, dim: usize, start: usize, len: usize) -> (r: Result<
    Tensor,
    candle_core::Error,
>)
    ensures
        narrow_result(array(*t), dim as int, start as int, len, outcome(r)),
{
    t.narrow(dim, start, len)
}

/// `IndexOp::i` with a row number and a full range: one row of a matrix, an error
/// where there is no such row.
#[verifier::external_body]
pub(crate) fn row(t: &Tensor, b: usize) -> (r: Result<Tensor, candle_core::Error>)
    requires
        tensor_dims(*t).len() == 2,
    ensures
        row_result(array(*t), b as int, outcome(r)),
{
    t.i((b, ..))
}

/// `Tensor::contiguous`: the same array in row-major layout.
#[verifier::external_body]
fn raw_contiguous(t: &Tensor) -> (r: Result<Tensor, candle_core::Error>)
    requires
        addressable(tensor_dims(*t)),
    ensures
        contiguous_result(array(*t), outcome(r)),
        r matches Ok(u) ==> tensor_ordered(u),
{
    t.contiguous()
}

/// `Tensor::cat`: joins tensors along one axis, and fails where the list is empty
/// or the tensors do not fit together.
#[verifier::external_body]
fn raw_cat(parts: &Vec<Tensor>, dim: usize) -> (r: Result<Tensor, candle_core::Error>)
    requires
        join_fits(arrays(parts@), dim as int),
        parts@.len() > 1 ==> forall|i: int| 0 <= i < parts@.len() ==> sound(#[trigger] parts@[i]),
    ensures
        cat_result(arrays(parts@), dim as int, outcome(r)),
{
    Tensor::cat(parts.as_slice(), dim)
}

/// `Tensor::where_cond`: chooses each element by whether the condition is zero,
/// and fails where the shapes or element types do not fit together.
#[verifier::external_body]
fn raw_where_cond(cond: &Tensor, on_true: &Tensor, on_false: &Tensor) -> (r: Result<
    Tensor,
    candle_core::Error,
>)
    requires
        addressable(tensor_dims(*cond)),
        sound(*cond),
        sound(*on_true),
        sound(*on_false),
    ensures
        where_result(array(*cond), array(*on_true), array(*on_false), outcome(r)),
{
    cond.where_cond(on_true, on_false)
}

/// `Tensor::reshape`: the same elements under other dimensions, an error where
/// the number of elements differs.
#[verifier::external_body]
fn raw_reshape(t: &Tensor, dims: &Vec<usize>) -> (r: Result<Tensor, candle_core::Error>)
    requires
        addressable(tensor_dims(*t)),
        addressable(dims@),
    ensures
        reshape_result(array(*t), dims@, outcome(r)),
{
    t.reshape(dims.as_slice())
}

/// `Tensor::broadcast_as`: repeats a tensor to fill the dimensions, and fails
/// where they are not a repetition of its own.
#[verifier::external_body]
fn raw_expand(t: &Tensor, dims: &Vec<usize>) -> (r: Result<Tensor, candle_core::Error>)
    requires
        addressable(dims@),
    ensures
        expand_result(array(*t), dims@, outcome(r)),
{
    t.broadcast_as(dims.as_slice())
}

/// `Tensor::zeros`: an array of zeros in a storage of its own, an error for an
/// element type that the backend cannot store.
#[verifier::external_body]
fn raw_zeros(dims: &Vec<usize>, dtype: DType, device: &Device) -> (r: Result<
    Tensor,
    candle_core::Error,
>)
    requires
        addressable(dims@),
    ensures
        zeros_result(dims@, dtype, outcome(r)),
        r matches Ok(t) ==> tensor_within(t) && tensor_ordered(t),
{
    Tensor::zeros(dims.as_slice(), dtype, device)
}

/// `Tensor::arange` over 32-bit numbers from zero: the numbers below `end`.
#[verifier::external_body]
pub(crate) fn count_up(end: u32, device: &Device) -> (r: Result<Tensor, candle_core::Error>)
    ensures
        outcome(r) == Some(arange(end)),
{
    Tensor::arange(0u32, end, device)
}

/// `Tensor::from_raw_buffer` for single-precision elements: the array whose
/// elements have these bit patterns.
#[verifier::external_body]
pub(crate) fn from_single_bits(bits: &Vec<u32>, dims: &Vec<usize>, device: &Device) -> (r: Result<
    Tensor,
    candle_core::Error,
>)
    requires
        addressable(dims@),
        count(dims@) == bits@.len(),
    ensures
        outcome(r) == Some(
            Array { dtype: DType::F32, dims: dims@, elems: bits@.map_values(|b: u32| b as u64) },
        ),
{
    let bytes: Vec<u8> = bits.iter().flat_map(|b| b.to_ne_bytes()).collect();
    Tensor::from_raw_buffer(&bytes, DType::F32, dims, device)
}

/// `Tensor::from_raw_buffer` for one double-precision number, given by its bits.
#[verifier::external_body]
pub(crate) fn double(bits: u64) -> (r: Result<Tensor, candle_core::Error>)
    ensures
        outcome(r) == Some(scalar(DType::F64, bits)),
{
    Tensor::from_raw_buffer(&bits.to_ne_bytes(), DType::F64, &[], &Device::Cpu)
}

/// `Tensor::new` for one whole number.
#[verifier::external_body]
pub(crate) fn whole(n: usize) -> (r: Result<Tensor, candle_core::Error>)
    requires
        n <= i64::MAX,
    ensures
        outcome(r) == Some(scalar(DType::I64, n as u64)),
{
    Tensor::new(n as i64, &Device::Cpu)
}

/// `Tensor::write_bytes`: the bit pattern of the only element of a scalar.
#[verifier::external_body]
pub(crate) fn scalar_bits(t: &Tensor) -> (r: Result<u64, candle_core::Error>)
    requires
        tensor_dims(*t).len() == 0,
    ensures
        match r {
            Ok(bits) => bits == tensor_elems(*t)[0],
            Err(_) => !storable(tensor_dtype(*t)),
        },
{
    let mut bytes: Vec<u8> = Vec::new();
    t.write_bytes(&mut bytes)?;
    bytes.resize(8, 0);
    Ok(u64::from_le_bytes(bytes.try_into().unwrap_or_default()))
}

/// Whether `out` is what an element with these bits may become when its type
/// changes.
pub uninterp spec fn cast_outcome(from: DType, to: DType, bits: u64, out: u64) -> bool;

/// Changing the element type: nothing changes where it is the same already, zero
/// stays zero, and negative infinity stays what it is in the standard types.
pub open spec fn cast_result(a: Array, dtype: DType, out: Option<Array>) -> bool {
    match out {
        Some(t) => {
            &&& t.dtype == dtype
            &&& t.dims == a.dims
            &&& t.elems.len() == a.elems.len()
            &&& a.dtype == dtype ==> t == a
            &&& a.dtype != dtype ==> forall|i: int|
                0 <= i < a.elems.len() ==> cast_outcome(
                    a.dtype,
                    dtype,
                    a.elems[i],
                    #[trigger] t.elems[i],
                ) && (a.elems[i] == 0 ==> t.elems[i] == 0) && (a.dtype == DType::F32 && standard(
                    dtype,
                ) && a.elems[i] == negative_infinity(DType::F32) ==> t.elems[i]
                    == negative_infinity(dtype))
        },
        None => a.dtype != dtype && !(storable(a.dtype) && storable(dtype)),
    }
}

/// `Tensor::to_dtype`: converts each element to another type. Zero stays zero, and
/// single-precision negative infinity stays negative infinity.
#[verifier::external_body]
fn raw_to_dtype(t: &Tensor, dtype: DType) -> (r: Result<Tensor, candle_core::Error>)
    requires
        addressable(tensor_dims(*t)),
        sound(*t),
    ensures
        cast_result(array(*t), dtype, outcome(r)),
        r matches Ok(c) ==> (tensor_dtype(*t) != dtype ==> forall|i: int|
            0 <= i < tensor_elems(*t).len() ==> cast_outcome(
                tensor_dtype(*t),
                dtype,
                tensor_elems(*t)[i],
                #[trigger] tensor_elems(c)[i],
            )),
{
    t.to_dtype(dtype)
}

/// Whether `out` is what the sum of the products of a row and a column may come to.
pub uninterp spec fn matmul_outcome(
    dtype: DType,
    row: Seq<u64>,
    column: Seq<u64>,
    out: u64,
) -> bool;

/// Whether row `i`, column `j` of product `p` comes from that row and that column.
pub open spec fn summed(a: Array, b: Array, t: Array, p: int, i: int, j: int) -> bool {
    let n = a.dims.len() as int;
    matmul_outcome(
        a.dtype,
        row_of_matrix(a, p, i),
        column_of_matrix(b, p, j),
        t.elems[(p * a.dims[n - 2] + i) * b.dims[n - 1] + j],
    )
}

/// A matrix product over the last two axes. Sizes that do not fit in a machine word
/// are refused.
pub open spec fn matmul_result(a: Array, b: Array, out: Option<Array>) -> bool {
    let n = a.dims.len() as int;
    if !product_fits(a.dims, b.dims) {
        out is None
    } else {
        match out {
            Some(t) => {
                &&& product_shape(a, b, t)
                &&& forall|p: int, i: int, j: int|
                    0 <= p < batch(a.dims) && 0 <= i < a.dims[n - 2] && 0 <= j < b.dims[n - 1]
                        ==> #[trigger] summed(a, b, t, p, i, j)
            },
            None => !product_owed(a, b),
        }
    }
}

/// `Tensor::matmul`: multiplies matrices batch by batch, and fails where they do not
/// fit together, in other element types, and beyond rank four. Matrices in another
/// layout than one after the other may be taken for each other, so these are kept
/// away.
#[verifier::external_body]
fn raw_matmul(a: &Tensor, b: &Tensor) -> (r: Result<Tensor, candle_core::Error>)
    requires
        product_fits(tensor_dims(*a), tensor_dims(*b)),
        storable(tensor_dtype(*a)) ==> tensor_ordered(*a),
        storable(tensor_dtype(*b)) ==> tensor_ordered(*b),
    ensures
        matmul_result(array(*a), array(*b), outcome(r)),
        r matches Ok(t) ==> forall|p: int, i: int, j: int|
            0 <= p < batch(tensor_dims(*a)) && 0 <= i < tensor_dims(*a)[tensor_dims(*a).len() - 2]
                && 0 <= j < tensor_dims(*b)[tensor_dims(*a).len() - 1] ==> {
                let n = tensor_dims(*a).len() as int;
                let (rows, columns) = (tensor_dims(*a)[n - 2], tensor_dims(*b)[n - 1]);
                &&& #[trigger] summed(array(*a), array(*b), array(t), p, i, j)
                &&& matmul_outcome(
                    tensor_dtype(*a),
                    row_of_matrix(array(*a), p, i),
                    column_of_matrix(array(*b), p, j),
                    tensor_elems(t)[(p * rows + i) * columns + j],
                )
            },
{
    a.matmul(b)
}

/// Whether `out` is what multiplying an element by a double-precision number may
/// come to.
pub uninterp spec fn scale_outcome(dtype: DType, bits: u64, factor: u64, out: u64) -> bool;

/// Multiplying each element by a double-precision number.
pub open spec fn scale_result(a: Array, factor: u64, out: Option<Array>) -> bool {
    match out {
        Some(t) => {
            &&& alike(a, t)
            &&& forall|i: int|
                0 <= i < a.elems.len() ==> scale_outcome(
                    a.dtype,
                    a.elems[i],
                    factor,
                    #[trigger] t.elems[i],
                )
        },
        None => !storable(a.dtype),
    }
}

/// `Tensor::affine` with nothing added: multiplies each element by the number
/// that a double-precision scalar holds. Elements that it yields lie in a new
/// storage.
#[verifier::external_body]
pub(crate) fn scale(t: &Tensor, factor: &Tensor) -> (r: Result<Tensor, candle_core::Error>)
    requires
        addressable(tensor_dims(*t)),
        floating(tensor_dtype(*t)),
        array(*factor) == scalar(DType::F64, tensor_elems(*factor)[0]),
    ensures
        scale_result(array(*t), tensor_elems(*factor)[0], outcome(r)),
        r matches Ok(u) ==> forall|i: int|
            0 <= i < tensor_elems(*t).len() ==> scale_outcome(
                tensor_dtype(*t),
                tensor_elems(*t)[i],
                tensor_elems(*factor)[0],
                #[trigger] tensor_elems(u)[i],
            ),
        r matches Ok(u) ==> (tensor_elems(*t).len() > 0 ==> tensor_plain(u)),
{
    t.affine(factor.to_scalar()?, Default::default())
}

/// Whether `out` is what a softmax along axis `dim` may come to.
pub uninterp spec fn softmax_outcome(a: Array, dim: int, out: Option<Array>) -> bool;

/// Rescaling the elements along one axis so that they sum to one.
pub open spec fn softmax_result(a: Array, dim: int, out: Option<Array>) -> bool {
    &&& softmax_outcome(a, dim, out)
    &&& match out {
        Some(t) => alike(a, t) && a.elems.len() > 0,
        None => dim >= a.dims.len() || !storable(a.dtype) || a.elems.len() == 0,
    }
}

/// `candle_nn::ops::softmax`: rescales along one axis, and fails where the axis
/// does not exist or there are no elements.
#[verifier::external_body]
pub(crate) fn softmax(t: &Tensor, dim: usize) -> (r: Result<Tensor, candle_core::Error>)
    requires
        addressable(tensor_dims(*t)),
        floating(tensor_dtype(*t)),
        tensor_elems(*t).len() > 0 ==> tensor_plain(*t),
    ensures
        softmax_outcome(array(*t), dim as int, outcome(r)),
        softmax_result(array(*t), dim as int, outcome(r)),
{
    candle_nn::ops::softmax(t, dim)
}

/// Whether `out` is what a softmax of one row may come to.
pub uninterp spec fn softmax_last_outcome(dtype: DType, row: Seq<u64>, out: Seq<u64>) -> bool;

/// Rescaling the elements along the last axis so that they sum to one, each row by
/// itself.
pub open spec fn softmax_last_result(a: Array, out: Option<Array>) -> bool {
    match out {
        Some(t) => {
            &&& standard(a.dtype)
            &&& alike(a, t)
            &&& forall|r: int|
                0 <= r < count(a.dims.drop_last()) ==> softmax_last_outcome(
                    a.dtype,
                    #[trigger] chunk(a, r),
                    chunk(t, r),
                )
        },
        None => !standard(a.dtype),
    }
}

/// `candle_nn::ops::softmax_last_dim`: rescales along the last axis, row by row, and
/// fails for element types other than the standard ones.
#[verifier::external_body]
fn raw_softmax_last(t: &Tensor) -> (r: Result<Tensor, candle_core::Error>)
    requires
        sound(*t),
        tensor_ordered(*t),
        addressable(tensor_dims(*t)),
        tensor_dims(*t).len() > 0,
        tensor_dims(*t).last() > 0,
    ensures
        softmax_last_result(array(*t), outcome(r)),
        r matches Ok(u) ==> forall|i: int|
            0 <= i < count(tensor_dims(*t).drop_last()) ==> softmax_last_outcome(
                tensor_dtype(*t),
                #[trigger] chunk(array(*t), i),
                chunk(array(u), i),
            ),
{
    candle_nn::ops::softmax_last_dim(t)
}

/// Whether `out` is what summing all elements may come to.
pub uninterp spec fn sum_outcome(a: Array, out: Option<Array>) -> bool;

/// The sum of all elements, as a scalar of the same type.
pub open spec fn sum_result(a: Array, out: Option<Array>) -> bool {
    &&& sum_outcome(a, out)
    &&& match out {
        Some(t) => t == scalar(a.dtype, t.elems[0]),
        None => !storable(a.dtype),
    }
}

/// `Tensor::sum_all`: sums all elements.
#[verifier::external_body]
fn raw_sum_all(t: &Tensor) -> (r: Result<Tensor, candle_core::Error>)
    requires
        sound(*t),
        addressable(tensor_dims(*t)),
        floating(tensor_dtype(*t)),
    ensures
        sum_outcome(array(*t), outcome(r)),
        sum_result(array(*t), outcome(r)),
{
    t.sum_all()
}

/// Whether `out` is what the sum of two elements may come to.
pub uninterp spec fn add_outcome(dtype: DType, x: u64, y: u64, out: u64) -> bool;

/// Adding two arrays of one shape.
pub open spec fn add_result(a: Array, b: Array, out: Option<Array>) -> bool {
    match out {
        Some(t) => {
            &&& a.dims == b.dims
            &&& a.elems.len() > 0 ==> a.dtype == b.dtype
            &&& alike(a, t)
            &&& forall|i: int|
                0 <= i < a.elems.len() ==> add_outcome(
                    a.dtype,
                    a.elems[i],
                    b.elems[i],
                    #[trigger] t.elems[i],
                )
        },
        None => a.dims != b.dims || a.dtype != b.dtype || !storable(a.dtype),
    }
}

/// `Tensor::add`: adds element by element, and fails where the shapes differ.
#[verifier::external_body]
pub(crate) fn plus(a: &Tensor, b: &Tensor) -> (r: Result<Tensor, candle_core::Error>)
    requires
        addressable(tensor_dims(*a)),
        addressable(tensor_dims(*b)),
        floating(tensor_dtype(*a)) || floating(tensor_dtype(*b)),
    ensures
        add_result(array(*a), array(*b), outcome(r)),
        r matches Ok(u) ==> forall|i: int|
            0 <= i < tensor_elems(*a).len() ==> add_outcome(
                tensor_dtype(*a),
                tensor_elems(*a)[i],
                tensor_elems(*b)[i],
                #[trigger] tensor_elems(u)[i],
            ),
{
    a.add(b)
}

/// Whether `out` is what the product of two elements may come to.
pub uninterp spec fn mul_outcome(dtype: DType, x: u64, y: u64, out: u64) -> bool;

/// Multiplying two arrays of one shape element by element.
pub open spec fn mul_result(a: Array, b: Array, out: Option<Array>) -> bool {
    match out {
        Some(t) => {
            &&& a.dims == b.dims
            &&& a.elems.len() > 0 ==> a.dtype == b.dtype
            &&& alike(a, t)
            &&& forall|i: int|
                0 <= i < a.elems.len() ==> mul_outcome(
                    a.dtype,
                    a.elems[i],
                    b.elems[i],
                    #[trigger] t.elems[i],
                )
        },
        None => a.dims != b.dims || a.dtype != b.dtype || !storable(a.dtype),
    }
}

/// `Tensor::mul`: multiplies element by element, and fails where the shapes
/// differ.
#[verifier::external_body]
pub(crate) fn times(a: &Tensor, b: &Tensor) -> (r: Result<Tensor, candle_core::Error>)
    requires
        addressable(tensor_dims(*a)),
        addressable(tensor_dims(*b)),
        floating(tensor_dtype(*a)) || floating(tensor_dtype(*b)),
    ensures
        mul_result(array(*a), array(*b), outcome(r)),
        r matches Ok(u) ==> forall|i: int|
            0 <= i < tensor_elems(*a).len() ==> mul_outcome(
                tensor_dtype(*a),
                tensor_elems(*a)[i],
                tensor_elems(*b)[i],
                #[trigger] tensor_elems(u)[i],
            ),
{
    a.mul(b)
}

/// Whether `out` is what the quotient of two elements may come to.
pub uninterp spec fn div_outcome(dtype: DType, x: u64, y: u64, out: u64) -> bool;

/// Dividing two arrays of one shape element by element.
pub open spec fn div_result(a: Array, b: Array, out: Option<Array>) -> bool {
    match out {
        Some(t) => {
            &&& a.dims == b.dims
            &&& a.elems.len() > 0 ==> a.dtype == b.dtype
            &&& alike(a, t)
            &&& forall|i: int|
                0 <= i < a.elems.len() ==> div_outcome(
                    a.dtype,
                    a.elems[i],
                    b.elems[i],
                    #[trigger] t.elems[i],
                )
        },
        None => a.dims != b.dims || a.dtype != b.dtype || !storable(a.dtype),
    }
}

/// `Tensor::div`: divides element by element, and fails where the shapes differ.
#[verifier::external_body]
pub(crate) fn over(a: &Tensor, b: &Tensor) -> (r: Result<Tensor, candle_core::Error>)
    requires
        addressable(tensor_dims(*a)),
        addressable(tensor_dims(*b)),
        floating(tensor_dtype(*a)) || floating(tensor_dtype(*b)),
    ensures
        div_result(array(*a), array(*b), outcome(r)),
        r matches Ok(u) ==> forall|i: int|
            0 <= i < tensor_elems(*a).len() ==> div_outcome(
                tensor_dtype(*a),
                tensor_elems(*a)[i],
                tensor_elems(*b)[i],
                #[trigger] tensor_elems(u)[i],
            ),
{
    a.div(b)
}

/// Adding two arrays, each repeated along its axes of size one. Sizes that do not
/// fit in a machine word are refused.
pub open spec fn broadcast_add_result(a: Array, b: Array, out: Option<Array>) -> bool {
    if !joint_fits(a.dims, b.dims) {
        out is None
    } else {
        match out {
            Some(t) => {
                &&& joint(a.dims, b.dims)
                &&& t.dtype == a.dtype
                &&& t.dims == joint_dims(a.dims, b.dims)
                &&& t.elems.len() == count(t.dims)
                &&& forall|idx: Seq<int>|
                    in_bounds(t.dims, idx) ==> add_outcome(
                        a.dtype,
                        at(a, folded(a.dims, idx)),
                        at(b, folded(b.dims, idx)),
                        #[trigger] at(t, idx),
                    )
            },
            None => a.dtype != b.dtype || !storable(a.dtype) || !joint(a.dims, b.dims),
        }
    }
}

/// `Tensor::broadcast_add`: adds with repetition, and fails where the shapes do
/// not fit together.
#[verifier::external_body]
fn raw_broadcast_add(a: &Tensor, b: &Tensor) -> (r: Result<Tensor, candle_core::Error>)
    requires
        floating(tensor_dtype(*a)) || floating(tensor_dtype(*b)),
        joint_fits(tensor_dims(*a), tensor_dims(*b)),
    ensures
        broadcast_add_result(array(*a), array(*b), outcome(r)),
{
    a.broadcast_add(b)
}

/// Whether `out` is what the sine of an element may come to.
pub uninterp spec fn sin_outcome(dtype: DType, bits: u64, out: u64) -> bool;

/// The sine of each element.
pub open spec fn sin_result(a: Array, out: Option<Array>) -> bool {
    match out {
        Some(t) => {
            &&& alike(a, t)
            &&& forall|i: int|
                0 <= i < a.elems.len() ==> sin_outcome(a.dtype, a.elems[i], #[trigger] t.elems[i])
        },
        None => !storable(a.dtype),
    }
}

/// `Tensor::sin`: the sine of each element.
#[verifier::external_body]
pub(crate) fn sin(t: &Tensor) -> (r: Result<Tensor, candle_core::Error>)
    requires
        addressable(tensor_dims(*t)),
        tensor_elems(*t).len() > 0 ==> floating(tensor_dtype(*t)),
    ensures
        sin_result(array(*t), outcome(r)),
        r matches Ok(u) ==> forall|i: int|
            0 <= i < tensor_elems(*t).len() ==> sin_outcome(
                tensor_dtype(*t),
                tensor_elems(*t)[i],
                #[trigger] tensor_elems(u)[i],
            ),
{
    t.sin()
}

/// Whether `out` is what the cosine of an element may come to.
pub uninterp spec fn cos_outcome(dtype: DType, bits: u64, out: u64) -> bool;

/// The cosine of each element.
pub open spec fn cos_result(a: Array, out: Option<Array>) -> bool {
    match out {
        Some(t) => {
            &&& alike(a, t)
            &&& forall|i: int|
                0 <= i < a.elems.len() ==> cos_outcome(a.dtype, a.elems[i], #[trigger] t.elems[i])
        },
        None => !storable(a.dtype),
    }
}

/// `Tensor::cos`: the cosine of each element.
#[verifier::external_body]
pub(crate) fn cos(t: &Tensor) -> (r: Result<Tensor, candle_core::Error>)
    requires
        addressable(tensor_dims(*t)),
        tensor_elems(*t).len() > 0 ==> floating(tensor_dtype(*t)),
    ensures
        cos_result(array(*t), outcome(r)),
        r matches Ok(u) ==> forall|i: int|
            0 <= i < tensor_elems(*t).len() ==> cos_outcome(
                tensor_dtype(*t),
                tensor_elems(*t)[i],
                #[trigger] tensor_elems(u)[i],
            ),
{
    t.cos()
}

/// Whether `out` is what the square root of an element may come to.
pub uninterp spec fn sqrt_outcome(dtype: DType, bits: u64, out: u64) -> bool;

/// The square root of each element.
pub open spec fn sqrt_result(a: Array, out: Option<Array>) -> bool {
    match out {
        Some(t) => {
            &&& alike(a, t)
            &&& forall|i: int|
                0 <= i < a.elems.len() ==> sqrt_outcome(a.dtype, a.elems[i], #[trigger] t.elems[i])
        },
        None => !storable(a.dtype),
    }
}

/// `Tensor::sqrt`: the square root of each element.
#[verifier::external_body]
pub(crate) fn sqrt(t: &Tensor) -> (r: Result<Tensor, candle_core::Error>)
    requires
        addressable(tensor_dims(*t)),
        floating(tensor_dtype(*t)),
    ensures
        sqrt_result(array(*t), outcome(r)),
        r matches Ok(u) ==> forall|i: int|
            0 <= i < tensor_elems(*t).len() ==> sqrt_outcome(
                tensor_dtype(*t),
                tensor_elems(*t)[i],
                #[trigger] tensor_elems(u)[i],
            ),
{
    t.sqrt()
}

/// Whether `out` is what the reciprocal of an element may come to.
pub uninterp spec fn recip_outcome(dtype: DType, bits: u64, out: u64) -> bool;

/// The reciprocal of each element.
pub open spec fn recip_result(a: Array, out: Option<Array>) -> bool {
    match out {
        Some(t) => {
            &&& alike(a, t)
            &&& forall|i: int|
                0 <= i < a.elems.len() ==> recip_outcome(a.dtype, a.elems[i], #[trigger] t.elems[i])
        },
        None => !storable(a.dtype),
    }
}

/// `Tensor::recip`: the reciprocal of each element.
#[verifier::external_body]
pub(crate) fn recip(t: &Tensor) -> (r: Result<Tensor, candle_core::Error>)
    requires
        addressable(tensor_dims(*t)),
        floating(tensor_dtype(*t)),
    ensures
        recip_result(array(*t), outcome(r)),
        r matches Ok(u) ==> forall|i: int|
            0 <= i < tensor_elems(*t).len() ==> recip_outcome(
                tensor_dtype(*t),
                tensor_elems(*t)[i],
                #[trigger] tensor_elems(u)[i],
            ),
{
    t.recip()
}

/// Whether `out` is what raising an element to a double-precision power may come to.
pub uninterp spec fn power_outcome(dtype: DType, bits: u64, exponent: u64, out: u64) -> bool;

/// Raising each element to a double-precision power.
pub open spec fn power_result(a: Array, exponent: u64, out: Option<Array>) -> bool {
    match out {
        Some(t) => {
            &&& alike(a, t)
            &&& forall|i: int|
                0 <= i < a.elems.len() ==> power_outcome(
                    a.dtype,
                    a.elems[i],
                    exponent,
                    #[trigger] t.elems[i],
                )
        },
        None => !storable(a.dtype) || !floating(a.dtype),
    }
}

/// `Tensor::powf`: raises each element to the power that a double-precision
/// scalar holds.
#[verifier::external_body]
pub(crate) fn power(t: &Tensor, exponent: &Tensor) -> (r: Result<Tensor, candle_core::Error>)
    requires
        addressable(tensor_dims(*t)),
        array(*exponent) == scalar(DType::F64, tensor_elems(*exponent)[0]),
    ensures
        power_result(array(*t), tensor_elems(*exponent)[0], outcome(r)),
        r matches Ok(u) ==> forall|i: int|
            0 <= i < tensor_elems(*t).len() ==> power_outcome(
                tensor_dtype(*t),
                tensor_elems(*t)[i],
                tensor_elems(*exponent)[0],
                #[trigger] tensor_elems(u)[i],
            ),
{
    t.powf(exponent.to_scalar()?)
}

/// Whether `out` is what turning a pair of features by an angle may come to: the
/// first feature of the pair, or the second one.
pub uninterp spec fn rope_outcome(
    dtype: DType,
    first: u64,
    second: u64,
    cos: u64,
    sin: u64,
    is_second: bool,
    out: u64,
) -> bool;

/// Whether heads and angles agree in what a rotation needs: half as many angles as
/// features, for at least as many positions.
pub open spec fn rope_agrees(x: Array, cos: Array, sin: Array) -> bool {
    &&& x.dims.len() == 4
    &&& cos.dims.len() == 2
    &&& sin.dims.len() == 2
    &&& 2 * cos.dims[1] == x.dims[3]
    &&& 2 * sin.dims[1] == x.dims[3]
    &&& x.dims[2] <= cos.dims[0]
    &&& x.dims[2] <= sin.dims[0]
}

/// Whether `out` is what the feature that `idx` names may become: each pair of
/// features, half the features apart, is turned by the angle of its position.
pub open spec fn turns(x: Array, cos: Array, sin: Array, idx: Seq<int>, out: u64) -> bool {
    let half = x.dims[3] / 2;
    let f = idx[3] % half as int;
    rope_outcome(
        x.dtype,
        at(x, idx.update(3, f)),
        at(x, idx.update(3, f + half)),
        at(cos, seq![idx[2], f]),
        at(sin, seq![idx[2], f]),
        idx[3] >= half,
        out,
    )
}

/// Rotating pairs of features by the angles of their positions.
pub open spec fn rope_result(x: Array, cos: Array, sin: Array, out: Option<Array>) -> bool {
    if !rope_agrees(x, cos, sin) || !standard(x.dtype) || cos.dtype != x.dtype || sin.dtype
        != x.dtype {
        out is None
    } else {
        &&& out matches Some(t)
        &&& alike(x, t)
        &&& forall|idx: Seq<int>|
            in_bounds(x.dims, idx) ==> turns(x, cos, sin, idx, #[trigger] at(t, idx))
    }
}

/// `candle_nn::rotary_emb::rope`: rotates the features of each position, and fails
/// where the element types differ or are not standard ones.
#[verifier::external_body]
fn raw_rope(x: &Tensor, cos: &Tensor, sin: &Tensor) -> (r: Result<Tensor, candle_core::Error>)
    requires
        addressable(tensor_dims(*x)),
        rope_agrees(array(*x), array(*cos), array(*sin)),
        tensor_dims(*x)[2] > 0 && tensor_dims(*x)[3] > 0,
        tensor_ordered(*x) && tensor_ordered(*cos) && tensor_ordered(*sin),
        sound(*x) && sound(*cos) && sound(*sin),
    ensures
        rope_result(array(*x), array(*cos), array(*sin), outcome(r)),
        r matches Ok(t) ==> forall|idx: Seq<int>|
            in_bounds(tensor_dims(*x), idx) ==> {
                let half = tensor_dims(*x)[3] / 2;
                let f = idx[3] % half as int;
                rope_outcome(
                    tensor_dtype(*x),
                    at(array(*x), idx.update(3, f)),
                    at(array(*x), idx.update(3, f + half)),
                    at(array(*cos), seq![idx[2], f]),
                    at(array(*sin), seq![idx[2], f]),
                    idx[3] >= half,
                    #[trigger] at(array(t), idx),
                )
            },
{
    candle_nn::rotary_emb::rope(x, cos, sin)
}

/// Whether `out` is what an activation function may make of an element. For the
/// gated one `gate` is the element of the second half that stands beside it, else it
/// is the element itself.
pub uninterp spec fn activation_outcome(
    act: Activation,
    dtype: DType,
    bits: u64,
    gate: u64,
    out: u64,
) -> bool;

/// Applying an activation function to each element. The gated one is the only one
/// to change the shape: it multiplies the two halves of the last axis.
pub open spec fn activation_result(act: Activation, x: Array, out: Option<Array>) -> bool {
    let n = x.dims.len() as int;
    match out {
        Some(t) => if act is Swiglu {
            &&& n > 0
            &&& x.dims.last() % 2 == 0
            &&& t.dtype == x.dtype
            &&& t.dims == x.dims.update(n - 1, x.dims.last() / 2)
            &&& t.elems.len() == count(t.dims)
            &&& forall|idx: Seq<int>|
                in_bounds(t.dims, idx) ==> activation_outcome(
                    act,
                    x.dtype,
                    at(x, idx),
                    at(x, idx.update(n - 1, idx[n - 1] + x.dims.last() / 2)),
                    #[trigger] at(t, idx),
                )
        } else {
            &&& alike(x, t)
            &&& forall|i: int|
                0 <= i < x.elems.len() ==> activation_outcome(
                    act,
                    x.dtype,
                    x.elems[i],
                    x.elems[i],
                    #[trigger] t.elems[i],
                )
        },
        None => !standard(x.dtype) || (act is Swiglu && (n == 0 || x.dims.last() % 2 != 0)),
    }
}

/// `Activation::forward`: applies an activation function. It succeeds in the
/// standard element types; in which others it does is left unsaid.
#[verifier::external_body]
fn raw_activate(act: &Activation, x: &Tensor) -> (r: Result<Tensor, candle_core::Error>)
    requires
        addressable(tensor_dims(*x)),
        floating(tensor_dtype(*x)),
        act is Swiglu && tensor_dims(*x).len() > 0 ==> tensor_dims(*x).last() >= 2,
        sound(*x),
    ensures
        activation_result(*act, array(*x), outcome(r)),
        r matches Ok(t) ==> (!(act is Swiglu) ==> forall|i: int|
            0 <= i < tensor_elems(*x).len() ==> activation_outcome(
                *act,
                tensor_dtype(*x),
                tensor_elems(*x)[i],
                tensor_elems(*x)[i],
                #[trigger] tensor_elems(t)[i],
            )),
{
    act.forward(x)
}

/// Whether the product of the dimensions fits in a machine word.
pub(crate) fn fits(dims: &Vec<usize>) -> (r: bool)
    ensures
        r == addressable(dims@),
{
    let mut total: usize = 1;
    let mut i: usize = 0;
    assert(dims@.take(0) =~= Seq::<usize>::empty());
    while i < dims.len()
        invariant
            i <= dims@.len(),
            total == bulk(dims@.take(i as int)),
            total >= 1,
        decreases dims@.len() - i,
    {
        let d = dims[i];
        let ghost next = dims@.take(i + 1);
        assert(next.drop_last() =~= dims@.take(i as int));
        if d > 0 {
            match total.checked_mul(d) {
                Some(t) => {
                    assert(t >= 1) by (nonlinear_arith)
                        requires
                            t == total * d,
                            total >= 1,
                            d > 0,
                    ;
                    total = t;
                },
                None => {
                    proof {
                        lemma_bulk_grows(dims@, i + 1);
                    }
                    return false;
                },
            }
        }
        i += 1;
    }
    assert(dims@.take(dims@.len() as int) =~= dims@);
    true
}

/// More dimensions never make the product smaller.
proof fn lemma_bulk_grows(dims: Seq<usize>, n: int)
    requires
        0 <= n <= dims.len(),
    ensures
        1 <= bulk(dims.take(n)) <= bulk(dims),
    decreases dims.len() - n, n,
{
    if n == dims.len() {
        assert(dims.take(n) =~= dims);
        if n > 0 {
            let front = dims.drop_last();
            lemma_bulk_grows(front, n - 1);
            assert(front.take(n - 1) =~= front);
            if dims.last() != 0 {
                assert(bulk(front) * dims.last() as nat >= 1) by (nonlinear_arith)
                    requires
                        bulk(front) >= 1,
                        dims.last() >= 1,
                ;
            }
        }
    } else {
        lemma_bulk_grows(dims, n + 1);
        let next = dims.take(n + 1);
        assert(next.drop_last() =~= dims.take(n));
        lemma_bulk_grows(dims.take(n), n);
        assert(dims.take(n).take(n) =~= dims.take(n));
        if next.last() != 0 {
            assert(bulk(dims.take(n)) * next.last() as nat >= bulk(dims.take(n)))
                by (nonlinear_arith)
                requires
                    next.last() >= 1,
            ;
        }
    }
}

/// Shrinking the last axis leaves the sizes within bounds.
pub(crate) proof fn lemma_shrinking_fits(dims: Seq<usize>, last: usize)
    requires
        addressable(dims),
        dims.len() > 0,
        last <= dims.last(),
    ensures
        addressable(dims.update(dims.len() - 1, last)),
{
    let small = dims.update(dims.len() - 1, last);
    assert(small.drop_last() =~= dims.drop_last());
    let front = bulk(dims.drop_last());
    lemma_bulk_grows(dims, dims.len() - 1);
    assert(dims.take(dims.len() - 1) =~= dims.drop_last());
    if last != 0 {
        assert(front * last as nat <= front * dims.last() as nat) by (nonlinear_arith)
            requires
                last <= dims.last(),
        ;
    }
}

/// A matrix fits in a machine word if its elements can be counted in one.
pub(crate) proof fn lemma_matrix_fits(a: usize, b: usize)
    requires
        a * b <= usize::MAX,
    ensures
        addressable(seq![a, b]),
{
    reveal_with_fuel(bulk, 3);
    assert(seq![a, b].drop_last() =~= seq![a]);
    assert(seq![a].drop_last() =~= Seq::<usize>::empty());
    let c = bulk(seq![a]);
    if a == 0 {
        assert(c == 1);
    } else {
        assert(c == 1 * a as nat);
    }
    if b != 0 {
        assert(c * b as nat <= usize::MAX) by (nonlinear_arith)
            requires
                c == 1 * a as nat || (c == 1 && a == 0),
                a * b <= usize::MAX,
                b <= usize::MAX,
        ;
    }
}

/// One size fits in a machine word, also with another axis of size one.
pub(crate) proof fn lemma_one_size_fits(n: usize)
    ensures
        addressable(seq![n]),
        addressable(seq![1usize, n]),
{
    reveal_with_fuel(bulk, 3);
    assert(seq![n].drop_last() =~= Seq::<usize>::empty());
    assert(seq![1usize, n].drop_last() =~= seq![1usize]);
    assert(seq![1usize].drop_last() =~= Seq::<usize>::empty());
    assert(bulk(seq![1usize]) == 1);
    let b = bulk(seq![1usize]);
    assert(b * n as nat == n) by (nonlinear_arith)
        requires
            b == 1,
    ;
}

/// The same elements under other dimensions.
pub(crate) fn reshape(t: &Tensor, shape: &Vec<usize>) -> (r: Result<Tensor, ModelError>)
    ensures
        reshape_result(array(*t), shape@, outcome(r)),
{
    if !fits(&dims(t)) || !fits(shape) {
        return Err(ModelError::TooLarge);
    }
    let out = raw_reshape(t, shape)?;
    Ok(out)
}

/// Dimensions without a zero have elements.
pub(crate) proof fn lemma_count_positive(dims: Seq<usize>)
    requires
        forall|k: int| 0 <= k < dims.len() ==> #[trigger] dims[k] > 0,
    ensures
        count(dims) > 0,
    decreases dims.len(),
{
    if dims.len() > 0 {
        let front = dims.drop_last();
        assert forall|k: int| 0 <= k < front.len() implies #[trigger] front[k] > 0 by {
            assert(dims[k] > 0);
        }
        lemma_count_positive(front);
        assert(dims[dims.len() - 1] > 0);
        assert(count(front) * dims.last() as nat > 0) by (nonlinear_arith)
            requires
                count(front) > 0,
                dims.last() > 0,
        ;
    }
}

/// Dimensions with a zero have no elements.
pub(crate) proof fn lemma_count_zero(dims: Seq<usize>, k: int)
    requires
        0 <= k < dims.len(),
        dims[k] == 0,
    ensures
        count(dims) == 0,
    decreases dims.len(),
{
    let front = dims.drop_last();
    let (c, d) = (count(front), dims.last() as nat);
    if k < dims.len() - 1 {
        assert(front[k] == 0);
        lemma_count_zero(front, k);
        assert(c * d == 0) by (nonlinear_arith)
            requires
                c == 0,
        ;
    } else {
        assert(c * d == 0) by (nonlinear_arith)
            requires
                d == 0,
        ;
    }
}

/// Empty arrays of rank two or less fit in a machine word.
pub(crate) proof fn lemma_zero_or_fits(dims: Seq<usize>)
    requires
        dims.len() <= 2,
    ensures
        count(dims) == 0 ==> addressable(dims),
{
    if count(dims) == 0 {
        if forall|k: int| 0 <= k < dims.len() ==> #[trigger] dims[k] > 0 {
            lemma_count_positive(dims);
        }
        if dims.len() == 1 {
            assert(dims =~= seq![dims[0]]);
            lemma_one_size_fits(dims[0]);
        } else if dims.len() == 2 {
            let (a, b) = (dims[0], dims[1]);
            assert(dims =~= seq![a, b]);
            assert(a * b == 0) by (nonlinear_arith)
                requires
                    a == 0 || b == 0,
            ;
            lemma_matrix_fits(a, b);
        }
    }
}

/// Whether dimensions have no elements.
fn is_empty(dims: &Vec<usize>) -> (r: bool)
    ensures
        r == (count(dims@) == 0),
{
    let mut i: usize = 0;
    while i < dims.len()
        invariant
            i <= dims@.len(),
            forall|k: int| 0 <= k < i ==> #[trigger] dims@[k] > 0,
        decreases dims@.len() - i,
    {
        if dims[i] == 0 {
            proof {
                lemma_count_zero(dims@, i as int);
            }
            return true;
        }
        i += 1;
    }
    proof {
        lemma_count_positive(dims@);
    }
    false
}

/// Whether the backend can store the element type.
fn is_storable(dtype: DType) -> (r: bool)
    ensures
        r == storable(dtype),
{
    match dtype {
        DType::F6E2M3 | DType::F6E3M2 | DType::F4 | DType::F8E8M0 => false,
        _ => true,
    }
}

/// The same tensor, with a storage of its own where it is empty.
pub(crate) fn settle(t: &Tensor) -> (r: Result<Tensor, ModelError>)
    ensures
        match r {
            Ok(u) => array(u) == array(*t) && sound(u) && (tensor_ordered(*t) ==> tensor_ordered(
                u,
            )),
            Err(_) => count(tensor_dims(*t)) == 0 && !addressable(tensor_dims(*t)),
        },
{
    let shape = dims(t);
    if !is_empty(&shape) || !is_storable(dtype(t)) {
        return Ok(t.clone());
    }
    let u = zeros(&shape, dtype(t), &device(t))?;
    assert(array(u).elems =~= array(*t).elems);
    Ok(u)
}

/// Tensors with elements of another type.
pub(crate) fn to_dtype(t: &Tensor, dtype: DType) -> (r: Result<Tensor, ModelError>)
    requires
        addressable(tensor_dims(*t)),
    ensures
        cast_result(array(*t), dtype, outcome(r)),
{
    let u = settle(t)?;
    let out = raw_to_dtype(&u, dtype)?;
    Ok(out)
}

/// Elements chosen by whether a condition is zero.
pub(crate) fn where_cond(cond: &Tensor, on_true: &Tensor, on_false: &Tensor) -> (r: Result<
    Tensor,
    ModelError,
>)
    requires
        addressable(tensor_dims(*cond)),
        addressable(tensor_dims(*on_true)),
        addressable(tensor_dims(*on_false)),
    ensures
        where_result(array(*cond), array(*on_true), array(*on_false), outcome(r)),
{
    let c = settle(cond)?;
    let x = settle(on_true)?;
    let y = settle(on_false)?;
    let out = raw_where_cond(&c, &x, &y)?;
    Ok(out)
}

/// A softmax along the last axis.
pub(crate) fn softmax_last(t: &Tensor) -> (r: Result<Tensor, ModelError>)
    requires
        addressable(tensor_dims(*t)),
        tensor_dims(*t).len() > 0,
        tensor_dims(*t).last() > 0,
    ensures
        softmax_last_result(array(*t), outcome(r)),
{
    let t = contiguous(t)?;
    let u = settle(&t)?;
    let out = raw_softmax_last(&u)?;
    Ok(out)
}

/// The sum of all elements.
pub(crate) fn sum_all(t: &Tensor) -> (r: Result<Tensor, ModelError>)
    requires
        addressable(tensor_dims(*t)),
        floating(tensor_dtype(*t)),
    ensures
        sum_result(array(*t), outcome(r)),
{
    let u = settle(t)?;
    let out = raw_sum_all(&u)?;
    Ok(out)
}

/// An activation function applied to each element.
pub(crate) fn activate(act: &Activation, x: &Tensor) -> (r: Result<Tensor, ModelError>)
    requires
        addressable(tensor_dims(*x)),
        floating(tensor_dtype(*x)),
        act is Swiglu && tensor_dims(*x).len() > 0 ==> tensor_dims(*x).last() >= 2,
    ensures
        activation_result(*act, array(*x), outcome(r)),
{
    let u = settle(x)?;
    let out = raw_activate(act, &u)?;
    Ok(out)
}

/// Heads rotated by the angles of their positions.
pub(crate) fn rope(x: &Tensor, cos: &Tensor, sin: &Tensor) -> (r: Result<Tensor, ModelError>)
    requires
        addressable(tensor_dims(*x)),
        tensor_dims(*x).len() == 4 ==> tensor_dims(*x)[2] > 0 && tensor_dims(*x)[3] > 0,
        tensor_ordered(*x) && tensor_ordered(*cos) && tensor_ordered(*sin),
    ensures
        rope_result(array(*x), array(*cos), array(*sin), outcome(r)),
{
    let shape = dims(x);
    let c = dims(cos);
    let s = dims(sin);
    if shape.len() != 4 || c.len() != 2 || s.len() != 2 {
        return Err(ModelError::HeadSize);
    }
    if shape[3] % 2 != 0 || c[1] != shape[3] / 2 || s[1] != shape[3] / 2 || shape[2] > c[0]
        || shape[2] > s[0] {
        return Err(ModelError::HeadSize);
    }
    let u = settle(x)?;
    proof {
        lemma_matrix_has_elements(c@);
        lemma_matrix_has_elements(s@);
    }
    let out = raw_rope(&u, cos, sin)?;
    Ok(out)
}

/// A matrix with rows and columns has elements.
proof fn lemma_matrix_has_elements(dims: Seq<usize>)
    requires
        dims.len() == 2,
        dims[0] > 0,
        dims[1] > 0,
    ensures
        count(dims) > 0,
{
    lemma_count_positive(dims);
}

/// The same tensor in row-major layout.
pub(crate) fn contiguous(t: &Tensor) -> (r: Result<Tensor, ModelError>)
    ensures
        contiguous_result(array(*t), outcome(r)),
        r matches Ok(u) ==> tensor_ordered(u),
{
    if !fits(&dims(t)) {
        return Err(ModelError::TooLarge);
    }
    let out = raw_contiguous(t)?;
    Ok(out)
}

/// The same tensor, in row-major layout where its elements can be stored.
pub(crate) fn laid_out(t: &Tensor) -> (r: Result<Tensor, ModelError>)
    requires
        addressable(tensor_dims(*t)),
    ensures
        r matches Ok(u) && array(u) == array(*t) && (storable(tensor_dtype(*t)) ==> tensor_ordered(
            u,
        )),
{
    if is_storable(dtype(t)) {
        contiguous(t)
    } else {
        Ok(t.clone())
    }
}

/// Tensors joined along one axis.
pub(crate) fn cat(parts: &Vec<Tensor>, dim: usize) -> (r: Result<Tensor, ModelError>)
    ensures
        cat_result(arrays(parts@), dim as int, outcome(r)),
{
    let ghost all = arrays(parts@);
    if parts.len() > 1 {
        let mut shape = dims(&parts[0]);
        if dim < shape.len() {
            let mut total: usize = 0;
            let mut i: usize = 0;
            while i < parts.len()
                invariant
                    i <= parts@.len(),
                    all == arrays(parts@),
                    total == lead(all, dim as int, i as int),
                    dim < all[0].dims.len(),
                    parts@.len() > 1,
                decreases parts@.len() - i,
            {
                let part = dims(&parts[i]);
                assert(all[i as int].dims == part@);
                proof {
                    lemma_lead_grows(all, dim as int, i + 1);
                }
                if dim >= part.len() {
                    assert(!joinable(all, dim as int)) by {
                        assert(all[i as int].dims.len() != all[0].dims.len());
                    }
                    return Err(ModelError::ShortAxis);
                }
                total = match total.checked_add(part[dim]) {
                    Some(total) => total,
                    None => {
                        return Err(ModelError::TooLarge);
                    },
                };
                i += 1;
            }
            shape.set(dim, total);
            if !fits(&shape) {
                return Err(ModelError::TooLarge);
            }
        }
    }
    if parts.len() <= 1 {
        let t = raw_cat(parts, dim)?;
        return Ok(t);
    }
    let mut settled: Vec<Tensor> = Vec::new();
    let mut i: usize = 0;
    while i < parts.len()
        invariant
            i <= parts@.len(),
            all == arrays(parts@),
            parts@.len() > 1,
            0 <= dim < all[0].dims.len() ==> {
                &&& lead(all, dim as int, all.len() as int) <= usize::MAX
                &&& addressable(
                    all[0].dims.update(dim as int, lead(all, dim as int, all.len() as int) as usize),
                )
            },
            settled@.len() == i,
            forall|k: int|
                0 <= k < i ==> array(#[trigger] settled@[k]) == all[k] && sound(settled@[k])
                    && addressable(all[k].dims),
        decreases parts@.len() - i,
    {
        if !fits(&dims(&parts[i])) {
            assert(!addressable(all[i as int].dims));
            return Err(ModelError::TooLarge);
        }
        let u = settle(&parts[i])?;
        settled.push(u);
        i += 1;
    }
    assert(arrays(settled@) =~= all);
    let t = raw_cat(&settled, dim)?;
    Ok(t)
}

/// The total size of arrays never shrinks.
proof fn lemma_lead_grows(parts: Seq<Array>, dim: int, n: int)
    requires
        0 <= n <= parts.len(),
    ensures
        0 <= lead(parts, dim, n) <= lead(parts, dim, parts.len() as int),
    decreases parts.len() - n, n,
{
    if n < parts.len() {
        lemma_lead_grows(parts, dim, n + 1);
    }
    lemma_lead_nonnegative(parts, dim, n);
}

/// The total size of arrays is not negative.
pub(crate) proof fn lemma_lead_nonnegative(parts: Seq<Array>, dim: int, n: int)
    ensures
        0 <= lead(parts, dim, n),
    decreases n,
{
    if n > 0 {
        lemma_lead_nonnegative(parts, dim, n - 1);
    }
}

/// A tensor repeated to fill the dimensions.
pub(crate) fn expand(t: &Tensor, shape: &Vec<usize>) -> (r: Result<Tensor, ModelError>)
    ensures
        expand_result(array(*t), shape@, outcome(r)),
{
    if !fits(shape) {
        return Err(ModelError::TooLarge);
    }
    let out = raw_expand(t, shape)?;
    Ok(out)
}

/// An array of zeros.
pub(crate) fn zeros(shape: &Vec<usize>, dtype: DType, device: &Device) -> (r: Result<
    Tensor,
    ModelError,
>)
    ensures
        zeros_result(shape@, dtype, outcome(r)),
        r matches Ok(t) ==> tensor_within(t) && tensor_ordered(t),
{
    if !fits(shape) {
        return Err(ModelError::TooLarge);
    }
    let out = raw_zeros(shape, dtype, device)?;
    Ok(out)
}

/// A matrix product over the last two axes.
pub(crate) fn matmul(a: &Tensor, b: &Tensor) -> (r: Result<Tensor, ModelError>)
    ensures
        matmul_result(array(*a), array(*b), outcome(r)),
        r is Ok ==> product_fits(tensor_dims(*a), tensor_dims(*b)),
{
    let mut shape = dims(a);
    let other = dims(b);
    if !fits(&shape) || !fits(&other) {
        return Err(ModelError::TooLarge);
    }
    let n = shape.len();
    if n >= 2 && other.len() == n {
        shape.set(n - 1, other[n - 1]);
        if !fits(&shape) {
            return Err(ModelError::TooLarge);
        }
    }
    let a = laid_out(a)?;
    let b = laid_out(b)?;
    let t = raw_matmul(&a, &b)?;
    Ok(t)
}

/// Size `k` out of `n` of dimensions that are aligned at their ends.
fn aligned_dim(dims: &Vec<usize>, n: usize, k: usize) -> (r: usize)
    requires
        dims@.len() <= n,
        k < n,
    ensures
        r == aligned(dims@, n as int, k as int),
{
    if k >= n - dims.len() {
        dims[k - (n - dims.len())]
    } else {
        1
    }
}

/// The dimensions of two tensors that are combined with repetition.
pub(crate) fn joint_shape(left: &Vec<usize>, right: &Vec<usize>) -> (r: Vec<usize>)
    ensures
        r@ == joint_dims(left@, right@),
{
    let n = if left.len() >= right.len() {
        left.len()
    } else {
        right.len()
    };
    let mut shape: Vec<usize> = Vec::new();
    let mut k: usize = 0;
    while k < n
        invariant
            k <= n,
            left@.len() <= n,
            right@.len() <= n,
            shape@.len() == k,
            forall|i: int|
                0 <= i < k ==> #[trigger] shape@[i] == joint_dim(
                    aligned(left@, n as int, i),
                    aligned(right@, n as int, i),
                ),
        decreases n - k,
    {
        let l = aligned_dim(left, n, k);
        let r = aligned_dim(right, n, k);
        shape.push(
            if l == 1 {
                r
            } else {
                l
            },
        );
        k += 1;
    }
    assert(shape@ =~= joint_dims(left@, right@));
    shape
}

/// The sum of two tensors, each repeated along its axes of size one.
pub(crate) fn broadcast_add(a: &Tensor, b: &Tensor) -> (r: Result<Tensor, ModelError>)
    requires
        floating(tensor_dtype(*a)) || floating(tensor_dtype(*b)),
    ensures
        broadcast_add_result(array(*a), array(*b), outcome(r)),
        r is Ok ==> joint_fits(tensor_dims(*a), tensor_dims(*b)),
{
    let left = dims(a);
    let right = dims(b);
    if !fits(&left) || !fits(&right) || !fits(&joint_shape(&left, &right)) {
        return Err(ModelError::TooLarge);
    }
    let t = raw_broadcast_add(a, b)?;
    Ok(t)
}

/// Whether the last axis of a tensor has no elements.
pub(crate) fn ends_empty(t: &Tensor) -> (r: bool)
    ensures
        r == (tensor_dims(*t).len() > 0 && tensor_dims(*t).last() == 0),
{
    let shape = dims(t);
    shape.len() > 0 && shape[shape.len() - 1] == 0
}

/// Whether the elements of a tensor are fractions.
pub(crate) fn is_floating(t: &Tensor) -> (r: bool)
    ensures
        r == floating(tensor_dtype(*t)),
{
    match dtype(t) {
        DType::U8 | DType::U32 | DType::I16 | DType::I32 | DType::I64 => false,
        _ => true,
    }
}

} // verus!
