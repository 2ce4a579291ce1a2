//! Rotary position embeddings.

use crate::array::{
    Array, addressable, arange, contiguous_result, count, dims_2, floating, multiplies,
    narrow_result, reshape_result, scalar,
};
use crate::config::Config;
use crate::error::ModelError;
use crate::number::{number, number_result};
use crate::tensor::{
    array, cast_result, contiguous, cos, cos_result, count_up, dims, dims4, div_result, double,
    from_single_bits, lemma_matrix_fits, lemma_one_size_fits, matmul, matmul_result, narrow,
    outcome, over, pair_outcome, power, power_result, recip, recip_result, reshape, rope,
    rope_result, scalar_bits, sin, sin_result, tensor_dims, tensor_dtype, tensor_elems,
    tensor_ordered, to_dtype,
};
use crate::weights::view_of;
use candle_core::{DType, Device, Tensor};
use vstd::prelude::*;

verus! {

/// The sine and the cosine of each position's angle with each frequency.
#[derive(Debug)]
pub struct RotaryEmbedding {
    pub sin: Tensor,
    pub cos: Tensor,
}

impl Clone for RotaryEmbedding {
    fn clone(&self) -> (r: Self)
        ensures
            r == *self,
    {
        RotaryEmbedding { sin: self.sin.clone(), cos: self.cos.clone() }
    }
}

/// What a rotary embedding holds.
pub struct RotaryView {
    pub sin: Array,
    pub cos: Array,
}

impl View for RotaryEmbedding {
    type V = RotaryView;

    open spec fn view(&self) -> RotaryView {
        RotaryView { sin: array(self.sin), cos: array(self.cos) }
    }
}

impl RotaryView {
    /// There is a sine and a cosine for each position and each frequency.
    pub open spec fn wf(self) -> bool {
        self.cos.dims.len() == 2 && self.sin.dims == self.cos.dims
    }

    /// Whether there are angles for heads that start at position `offset`: half as many
    /// as they have features, for each of their positions.
    pub open spec fn covers(self, x: Array, offset: int) -> bool {
        &&& x.dims.len() == 4
        &&& 2 * self.cos.dims[1] == x.dims[3]
        &&& 2 * self.sin.dims[1] == x.dims[3]
        &&& offset + x.dims[2] <= self.cos.dims[0]
        &&& offset + x.dims[2] <= self.sin.dims[0]
    }
}

/// The frequency of feature `i` out of `dim`: one over the base raised to the power
/// of `i / dim`. The power is taken in double precision and inverted in single
/// precision.
pub open spec fn frequency_result(theta: u64, i: int, dim: int, out: Option<u32>) -> bool {
    exists|n: Option<Array>| #[trigger]
        number_result(i, n) && match n {
            None => out is None,
            Some(n) => exists|d: Option<Array>| #[trigger]
                number_result(dim, d) && match d {
                    None => out is None,
                    Some(d) => exists|e: Option<Array>| #[trigger]
                        div_result(n, d, e) && match e {
                            None => out is None,
                            Some(e) => inverse_power_result(theta, e.elems[0], out),
                        },
                },
        }
}

/// One over a power of the base, in single precision.
pub open spec fn inverse_power_result(theta: u64, exponent: u64, out: Option<u32>) -> bool {
    exists|p: Option<Array>| #[trigger]
        power_result(scalar(DType::F64, theta), exponent, p) && match p {
            None => out is None,
            Some(p) => exists|s: Option<Array>| #[trigger]
                cast_result(p, DType::F32, s) && match s {
                    None => out is None,
                    Some(s) => exists|f: Option<Array>| #[trigger]
                        recip_result(s, f) && out == match f {
                            None => None,
                            Some(f) => Some(f.elems[0] as u32),
                        },
                },
        }
}

/// The frequencies of every second feature.
pub open spec fn frequencies_result(theta: u64, dim: int, out: Option<Seq<u32>>) -> bool {
    match out {
        Some(fs) => {
            &&& fs.len() == (dim + 1) / 2
            &&& forall|j: int|
                0 <= j < fs.len() ==> frequency_result(theta, 2 * j, dim, Some(#[trigger] fs[j]))
        },
        None => exists|i: int|
            0 <= i < dim && i % 2 == 0 && #[trigger] frequency_result(theta, i, dim, None),
    }
}

/// The matrix with one row that holds these single-precision numbers.
pub open spec fn row_of(fs: Seq<u32>) -> Array {
    Array {
        dtype: DType::F32,
        dims: dims_2(1, fs.len() as usize),
        elems: fs.map_values(|b: u32| b as u64),
    }
}

/// The angles of the first `positions` positions: each position times each
/// frequency.
pub open spec fn angles_result(
    dtype: DType,
    fs: Seq<u32>,
    positions: usize,
    out: Option<Array>,
) -> bool {
    exists|f: Option<Array>| #[trigger]
        cast_result(row_of(fs), dtype, f) && match f {
            None => out is None,
            Some(f) => exists|t: Option<Array>| #[trigger]
                cast_result(arange(positions as u32), dtype, t) && match t {
                    None => out is None,
                    Some(t) => exists|c: Option<Array>| #[trigger]
                        reshape_result(t, dims_2(positions, 1), c) && match c {
                            None => out is None,
                            Some(c) => matmul_result(c, f, out),
                        },
                },
        }
}

/// A rotary embedding for heads of `dim` features over the first `positions`
/// positions.
pub open spec fn rotary_result(
    dtype: DType,
    theta: u64,
    dim: int,
    positions: usize,
    out: Option<RotaryView>,
) -> bool {
    exists|fs: Option<Seq<u32>>| #[trigger]
        frequencies_result(theta, dim, fs) && match fs {
            None => out is None,
            Some(fs) => exists|a: Option<Array>| #[trigger]
                angles_result(dtype, fs, positions, a) && match a {
                    None => out is None,
                    Some(a) => exists|s: Option<Array>| #[trigger]
                        sin_result(a, s) && match s {
                            None => out is None,
                            Some(s) => exists|c: Option<Array>| #[trigger]
                                cos_result(a, c) && out == match c {
                                    None => None,
                                    Some(c) => Some(RotaryView { sin: s, cos: c }),
                                },
                        },
                },
        }
}

/// Rotating one array of heads by these cosines and sines. An array without
/// positions or without features is refused.
pub open spec fn turned_result(x: Array, cos: Array, sin: Array, out: Option<Array>) -> bool {
    exists|c: Option<Array>| #[trigger]
        contiguous_result(x, c) && match c {
            None => out is None,
            Some(c) => if c.dims.len() == 4 && (c.dims[2] == 0 || c.dims[3] == 0) {
                out is None
            } else {
                rope_result(c, cos, sin, out)
            },
        }
}

/// Taking the angles of `len` positions from position `offset` on.
pub open spec fn slice_result(a: Array, offset: int, len: usize, out: Option<Array>) -> bool {
    exists|n: Option<Array>| #[trigger]
        narrow_result(a, 0, offset, len, n) && match n {
            None => out is None,
            Some(n) => contiguous_result(n, out),
        }
}

/// Rotating queries and keys that start at position `offset`.
pub open spec fn rotate_result(
    r: RotaryView,
    q: Array,
    k: Array,
    offset: int,
    out: Option<(Array, Array)>,
) -> bool {
    if q.dims.len() != 4 {
        out is None
    } else {
        exists|c: Option<Array>| #[trigger]
            slice_result(r.cos, offset, q.dims[2], c) && match c {
                None => out is None,
                Some(c) => exists|s: Option<Array>| #[trigger]
                    slice_result(r.sin, offset, q.dims[2], s) && match s {
                        None => out is None,
                        Some(s) => exists|qe: Option<Array>| #[trigger]
                            turned_result(q, c, s, qe) && match qe {
                                None => out is None,
                                Some(qe) => exists|ke: Option<Array>| #[trigger]
                                    turned_result(k, c, s, ke) && out == match ke {
                                        None => None,
                                        Some(ke) => Some((qe, ke)),
                                    },
                            },
                    },
            }
    }
}

/// The single-precision result of an operation, `None` where it failed.
pub open spec fn bits_of(r: Result<u32, ModelError>) -> Option<u32> {
    match r {
        Ok(x) => Some(x),
        Err(_) => None,
    }
}

/// The frequency of feature `i` out of `dim`.
fn frequency(theta: u64, i: usize, dim: usize) -> (r: Result<u32, ModelError>)
    requires
        i <= i64::MAX,
        dim <= i64::MAX,
    ensures
        frequency_result(theta, i as int, dim as int, bits_of(r)),
        r is Ok,
{
    let n = number(i)?;
    let d = number(dim)?;
    let e = over(&n, &d)?;
    assert(array(e).elems =~= seq![array(e).elems[0]]);
    let base = double(theta)?;
    let p = power(&base, &e)?;
    let s = to_dtype(&p, DType::F32)?;
    let f = recip(&s)?;
    let bits = scalar_bits(&f)?;
    Ok(bits as u32)
}

/// The frequencies of every second feature.
fn frequencies(theta: u64, dim: usize) -> (r: Result<Vec<u32>, ModelError>)
    requires
        dim <= i64::MAX,
    ensures
        frequencies_result(theta, dim as int, view_of(r)),
        r is Ok,
{
    let mut fs: Vec<u32> = Vec::new();
    let half = dim / 2 + dim % 2;
    let mut j: usize = 0;
    while j < half
        invariant
            dim <= i64::MAX,
            half == (dim + 1) / 2,
            j == fs@.len(),
            j <= half,
            forall|i: int|
                0 <= i < fs@.len() ==> frequency_result(
                    theta,
                    2 * i,
                    dim as int,
                    Some(#[trigger] fs@[i]),
                ),
        decreases half - j,
    {
        let f = frequency(theta, 2 * j, dim)?;
        fs.push(f);
        j += 1;
    }
    Ok(fs)
}

/// The number of elements of a matrix with one row.
proof fn lemma_count_of_row(n: usize)
    ensures
        count(dims_2(1, n)) == n,
{
    reveal_with_fuel(count, 3);
    assert(dims_2(1, n).drop_last() =~= seq![1usize]);
    let c = count(seq![1usize]);
    assert(c == 1) by {
        assert(seq![1usize].drop_last() =~= Seq::<usize>::empty());
    }
    assert(c * n as nat == n) by (nonlinear_arith)
        requires
            c == 1,
    ;
}

/// The angles of the first `positions` positions.
fn angles(dtype: DType, fs: &Vec<u32>, positions: usize, dev: &Device) -> (r: Result<
    Tensor,
    ModelError,
>)
    ensures
        angles_result(dtype, fs@, positions, outcome(r)),
        r matches Ok(t) ==> (tensor_elems(t).len() > 0 ==> floating(tensor_dtype(t))),
        r matches Ok(t) ==> tensor_dims(t) == dims_2(positions, fs@.len() as usize),
        r matches Ok(t) ==> addressable(tensor_dims(t)),
        multiplies(dtype) && positions <= u32::MAX && addressable(
            dims_2(positions, fs@.len() as usize),
        ) ==> r is Ok,
{
    let n = fs.len();
    let shape = vec![1usize, n];
    proof {
        lemma_count_of_row(n);
        lemma_one_size_fits(n);
        assert(shape@ =~= dims_2(1, n));
    }
    let row = from_single_bits(fs, &shape, dev)?;
    assert(array(row) == row_of(fs@));
    let f = to_dtype(&row, dtype)?;
    let t = count_up(#[verifier::truncate] (positions as u32), dev)?;
    proof {
        lemma_one_size_fits(tensor_dims(t)[0]);
        assert(tensor_dims(t) =~= seq![tensor_dims(t)[0]]);
    }
    let t = to_dtype(&t, dtype)?;
    let column = vec![positions, 1usize];
    proof {
        assert(column@ =~= dims_2(positions, 1));
        lemma_counts_of_column(positions);
        assert(positions <= u32::MAX ==> tensor_dims(t) =~= seq![positions]);
        assert(dims_2(positions, 1).update(1, n) =~= dims_2(positions, n));
        assert(dims_2(positions, 1).take(0) =~= dims_2(1, n).take(0));
        lemma_matrix_fits(positions, 1);
    }
    let c = reshape(&t, &column)?;
    let out = matmul(&c, &f)?;
    Ok(out)
}

/// The number of elements of a list, and of a matrix with one column.
pub(crate) proof fn lemma_counts_of_column(n: usize)
    ensures
        count(seq![n]) == n,
        count(dims_2(n, 1)) == n,
{
    reveal_with_fuel(count, 3);
    let c = count(seq![n]);
    assert(c == 1 * n as nat) by {
        assert(seq![n].drop_last() =~= Seq::<usize>::empty());
    }
    assert(dims_2(n, 1).drop_last() =~= seq![n]);
    assert(c * 1nat == n) by (nonlinear_arith)
        requires
            c == 1 * n as nat,
    ;
}

/// Takes the angles of `len` positions from position `offset` on.
fn slice(t: &Tensor, offset: usize, len: usize) -> (r: Result<Tensor, ModelError>)
    ensures
        slice_result(array(*t), offset as int, len, outcome(r)),
        r matches Ok(u) ==> tensor_ordered(u),
{
    let n = narrow(t, 0, offset, len)?;
    contiguous(&n)
}

/// Rotates one array of heads.
fn turned(x: &Tensor, cos: &Tensor, sin: &Tensor) -> (r: Result<Tensor, ModelError>)
    requires
        tensor_ordered(*cos),
        tensor_ordered(*sin),
    ensures
        turned_result(array(*x), array(*cos), array(*sin), outcome(r)),
{
    let c = contiguous(x)?;
    let shape = dims(&c);
    if shape.len() == 4 && (shape[2] == 0 || shape[3] == 0) {
        return Err(ModelError::ShortAxis);
    }
    let t = rope(&c, cos, sin)?;
    Ok(t)
}

impl RotaryEmbedding {
    /// The angles of all positions that a model can see.
    pub fn new(dtype: DType, cfg: &Config, dev: &Device) -> (r: Result<Self, ModelError>)
        requires
            cfg.num_attention_heads > 0,
            cfg.hidden_size <= i64::MAX,
        ensures
            rotary_result(
                dtype,
                cfg.rope_theta,
                cfg.head_dim() as int,
                cfg.max_position_embeddings,
                view_of(r),
            ),
            r matches Ok(e) ==> e@.wf() && e@.cos.dims == dims_2(
                cfg.max_position_embeddings,
                ((cfg.head_dim() + 1) / 2) as usize,
            ),
            multiplies(dtype) && cfg.max_position_embeddings <= u32::MAX && addressable(
                dims_2(cfg.max_position_embeddings, ((cfg.head_dim() + 1) / 2) as usize),
            ) ==> r is Ok,
    {
        let dim = cfg.hidden_size / cfg.num_attention_heads;
        let fs = frequencies(cfg.rope_theta, dim)?;
        let angles = angles(dtype, &fs, cfg.max_position_embeddings, dev)?;
        let s = sin(&angles)?;
        let c = cos(&angles)?;
        Ok(RotaryEmbedding { sin: s, cos: c })
    }

    /// Rotates queries and keys that start at position `seqlen_offset`.
    pub fn apply_rotary_emb_qkv(&self, q: &Tensor, k: &Tensor, seqlen_offset: usize) -> (r: Result<
        (Tensor, Tensor),
        ModelError,
    >)
        ensures
            rotate_result(self@, array(*q), array(*k), seqlen_offset as int, pair_outcome(r)),
            r is Ok ==> self@.covers(array(*q), seqlen_offset as int) && self@.covers(
                array(*k),
                seqlen_offset as int,
            ),
    {
        let (_, _, seq_len, _) = dims4(q)?;
        let c = slice(&self.cos, seqlen_offset, seq_len)?;
        let s = slice(&self.sin, seqlen_offset, seq_len)?;
        let q_embed = turned(q, &c, &s)?;
        let k_embed = turned(k, &c, &s)?;
        Ok((q_embed, k_embed))
    }
}

} // verus!
