//! Double-precision numbers, held as bit patterns or as tensors without axes.

use crate::array::{Array, scalar};
use crate::error::ModelError;
use crate::tensor::{
    array, cast_result, outcome, recip, recip_result, sqrt, sqrt_result, to_dtype, whole,
};
use candle_core::{DType, Tensor};
use vstd::prelude::*;

verus! {

/// The bit of a double that holds its sign.
pub const SIGN: u64 = 0x8000_0000_0000_0000;

/// The bits of positive infinity.
pub const INFINITY: u64 = 0x7FF0_0000_0000_0000;

/// The bits of a double without its sign.
pub open spec fn magnitude(bits: u64) -> int {
    if bits >= SIGN {
        bits - SIGN
    } else {
        bits as int
    }
}

/// Whether a double is not a number.
pub open spec fn is_nan(bits: u64) -> bool {
    magnitude(bits) > INFINITY
}

/// The place of a double in the order of the numbers. Two doubles that are numbers
/// compare as their ranks do: the bits after the sign grow with the size of the
/// number, and both zeros have rank zero.
pub open spec fn rank(bits: u64) -> int {
    if bits >= SIGN {
        -magnitude(bits)
    } else {
        magnitude(bits)
    }
}

/// Whether one double is greater than another. Nothing is greater than a double
/// that is not a number, nor is that greater than anything.
pub open spec fn exceeds(a: u64, b: u64) -> bool {
    !is_nan(a) && !is_nan(b) && rank(a) > rank(b)
}

/// The bits of a double without its sign.
fn unsigned(bits: u64) -> (r: u64)
    ensures
        r == magnitude(bits),
{
    if bits >= SIGN {
        bits - SIGN
    } else {
        bits
    }
}

/// Whether a double is not a number.
pub fn not_a_number(bits: u64) -> (r: bool)
    ensures
        r == is_nan(bits),
{
    unsigned(bits) > INFINITY
}

/// Whether one double is greater than another.
pub fn greater(a: u64, b: u64) -> (r: bool)
    ensures
        r == exceeds(a, b),
{
    if not_a_number(a) || not_a_number(b) {
        false
    } else if a >= SIGN {
        b >= SIGN && unsigned(a) < unsigned(b)
    } else if b >= SIGN {
        unsigned(a) > 0 || unsigned(b) > 0
    } else {
        a > b
    }
}

/// The double nearest to a whole number.
pub open spec fn number_result(n: int, out: Option<Array>) -> bool {
    cast_result(scalar(DType::I64, n as u64), DType::F64, out)
}

/// The double nearest to a whole number.
pub(crate) fn number(n: usize) -> (r: Result<Tensor, ModelError>)
    requires
        n <= i64::MAX,
    ensures
        number_result(n as int, outcome(r)),
        r matches Ok(t) && array(t) == scalar(DType::F64, array(t).elems[0]),
{
    let w = whole(n)?;
    let t = to_dtype(&w, DType::F64)?;
    assert(array(t).elems =~= seq![array(t).elems[0]]);
    assert(array(t).dims =~= Seq::<usize>::empty());
    Ok(t)
}

/// One over the square root of a whole number.
pub open spec fn inverse_root_result(n: int, out: Option<Array>) -> bool {
    exists|x: Option<Array>| #[trigger]
        number_result(n, x) && match x {
            None => out is None,
            Some(x) => exists|s: Option<Array>| #[trigger]
                sqrt_result(x, s) && match s {
                    None => out is None,
                    Some(s) => recip_result(s, out),
                },
        }
}

/// One over the square root of a whole number.
pub(crate) fn inverse_root(n: usize) -> (r: Result<Tensor, ModelError>)
    requires
        n <= i64::MAX,
    ensures
        inverse_root_result(n as int, outcome(r)),
        r matches Ok(t) && array(t) == scalar(DType::F64, array(t).elems[0]),
{
    let x = number(n)?;
    let s = sqrt(&x)?;
    let t = recip(&s)?;
    assert(array(t).elems =~= seq![array(t).elems[0]]);
    Ok(t)
}

} // verus!
