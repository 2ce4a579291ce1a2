//! The feed-forward part of a layer.

use crate::array::{Array, addressable, at, count, floating, in_bounds, position};
use crate::config::Config;
use crate::error::ModelError;
use crate::laws::an_index_names_an_element;
use crate::nn::{Linear, LinearView, linear_outcome, linear_result, row_at, with_last};
use crate::tensor::{
    activate, activation_outcome, activation_result, array, dims, is_floating, lemma_shrinking_fits,
    mul_outcome, mul_result, outcome, tensor_dims, tensor_dtype, times,
};
use crate::weights::{Weights, WeightsView, view_of};
use candle_core::{DType, Tensor};
use candle_nn::Activation;
use vstd::prelude::*;

verus! {

/// A gated feed-forward block.
#[derive(Debug)]
pub struct MLP {
    pub gate_proj: Linear,
    pub up_proj: Linear,
    pub down_proj: Linear,
    pub act_fn: Activation,
}

impl Clone for MLP {
    fn clone(&self) -> (r: Self)
        ensures
            r == *self,
    {
        MLP {
            gate_proj: self.gate_proj.clone(),
            up_proj: self.up_proj.clone(),
            down_proj: self.down_proj.clone(),
            act_fn: self.act_fn,
        }
    }
}

/// What a feed-forward block holds.
pub struct MlpView {
    pub gate: LinearView,
    pub up: LinearView,
    pub down: LinearView,
    pub act: Activation,
}

impl View for MLP {
    type V = MlpView;

    open spec fn view(&self) -> MlpView {
        MlpView {
            gate: self.gate_proj@,
            up: self.up_proj@,
            down: self.down_proj@,
            act: self.act_fn,
        }
    }
}

impl MlpView {
    /// The three layers are well formed.
    pub open spec fn wf(self) -> bool {
        self.gate.wf() && self.up.wf() && self.down.wf()
    }

    /// Whether the block is bound to succeed, and to keep the shape: it does for rows of
    /// features that agree with it, one after the other or in a batch, under an
    /// activation function without a gate of its own.
    pub open spec fn owed(self, x: Array) -> bool {
        let inner = self.gate.width();
        &&& self.gate.owed(x)
        &&& self.up.agrees(x)
        &&& self.up.width() == inner
        &&& self.down.owed(Array { dims: with_last(x.dims, inner), ..x })
        &&& self.down.width() == x.dims.last()
        &&& !(self.act is Swiglu)
        &&& addressable(x.dims)
        &&& addressable(with_last(x.dims, inner))
    }
}

/// Looking up a feed-forward block.
pub open spec fn mlp_built(w: WeightsView, cfg: Config, out: Option<MlpView>) -> bool {
    let (h, i) = (cfg.hidden_size, cfg.intermediate_size);
    match out {
        Some(m) => {
            &&& w.under("gate_proj"@).linear_no_bias_result(h, i, Some(m.gate))
            &&& w.under("up_proj"@).linear_no_bias_result(h, i, Some(m.up))
            &&& w.under("down_proj"@).linear_no_bias_result(i, h, Some(m.down))
            &&& m.act == cfg.hidden_act
        },
        None => {
            ||| w.under("gate_proj"@).linear_no_bias_result(h, i, None)
            ||| w.under("up_proj"@).linear_no_bias_result(h, i, None)
            ||| w.under("down_proj"@).linear_no_bias_result(i, h, None)
        },
    }
}

/// Applying the activation function. Integers are refused, and so is an axis that
/// is too short to be halved by the gated function.
pub open spec fn activated_result(act: Activation, x: Array, out: Option<Array>) -> bool {
    if !floating(x.dtype) || (act is Swiglu && x.dims.len() > 0 && x.dims.last() < 2) {
        out is None
    } else {
        activation_result(act, x, out)
    }
}

/// The feed-forward block: the activated gate times the upward projection,
/// projected down again.
pub open spec fn mlp_result(m: MlpView, x: Array, out: Option<Array>) -> bool {
    exists|g: Option<Array>| #[trigger]
        linear_result(m.gate, x, g) && match g {
            None => out is None,
            Some(g) => exists|a: Option<Array>| #[trigger]
                activated_result(m.act, g, a) && match a {
                    None => out is None,
                    Some(a) => exists|u: Option<Array>| #[trigger]
                        linear_result(m.up, x, u) && match u {
                            None => out is None,
                            Some(u) => exists|p: Option<Array>| #[trigger]
                                mul_result(a, u, p) && match p {
                                    None => out is None,
                                    Some(p) => linear_result(m.down, p, out),
                                },
                        },
                },
        }
}

/// Applies the activation function.
fn activated(act: &Activation, x: &Tensor) -> (r: Result<Tensor, ModelError>)
    requires
        addressable(tensor_dims(*x)),
    ensures
        activated_result(*act, array(*x), outcome(r)),
        r is Ok ==> floating(tensor_dtype(*x)),
        r matches Ok(t) ==> addressable(tensor_dims(t)),
{
    if !is_floating(x) {
        return Err(ModelError::ElementType);
    }
    match act {
        Activation::Swiglu => {
            let shape = dims(x);
            if shape.len() > 0 && shape[shape.len() - 1] < 2 {
                return Err(ModelError::ShortAxis);
            }
        },
        _ => {},
    }
    let t = activate(act, x)?;
    proof {
        if *act is Swiglu {
            lemma_shrinking_fits(tensor_dims(*x), (tensor_dims(*x).last() / 2) as usize);
        }
    }
    Ok(t)
}

impl MLP {
    /// The block whose weights stand at this place.
    pub fn new(cfg: &Config, vb: &Weights) -> (r: Result<Self, ModelError>)
        ensures
            mlp_built(vb@, *cfg, view_of(r)),
            r matches Ok(m) ==> m@.wf(),
    {
        let hidden_sz = cfg.hidden_size;
        let intermediate_sz = cfg.intermediate_size;
        let gate_proj = vb.pp("gate_proj").linear_no_bias(hidden_sz, intermediate_sz)?;
        let up_proj = vb.pp("up_proj").linear_no_bias(hidden_sz, intermediate_sz)?;
        let down_proj = vb.pp("down_proj").linear_no_bias(intermediate_sz, hidden_sz)?;
        Ok(MLP { gate_proj, up_proj, down_proj, act_fn: cfg.hidden_act })
    }

    /// Applies the block.
    pub fn forward(&self, xs: &Tensor) -> (r: Result<Tensor, ModelError>)
        requires
            self@.wf(),
        ensures
            mlp_result(self@, array(*xs), outcome(r)),
            self@.owed(array(*xs)) ==> r is Ok,
            self@.owed(array(*xs)) ==> tensor_dims(r->Ok_0) == tensor_dims(*xs),
    {
        let gate = self.gate_proj.forward(xs)?;
        let lhs = activated(&self.act_fn, &gate)?;
        let rhs = self.up_proj.forward(xs)?;
        let product = times(&lhs, &rhs)?;
        let r = self.down_proj.forward(&product);
        assert(self@.owed(array(*xs)) ==> with_last(tensor_dims(product), self@.down.width())
            =~= tensor_dims(*xs));
        r
    }
}

/// A linear layer on one row of features.
pub open spec fn linear_row(l: LinearView, dtype: DType, row: Seq<u64>, out: Seq<u64>) -> bool {
    &&& out.len() == l.width()
    &&& forall|j: int|
        0 <= j < out.len() ==> linear_outcome(
            dtype,
            row,
            l.weights(j),
            l.offset(j),
            #[trigger] out[j],
        )
}

/// The activation function on one row of features.
pub open spec fn activated_row(
    act: Activation,
    dtype: DType,
    row: Seq<u64>,
    out: Seq<u64>,
) -> bool {
    let half = row.len() as int / 2;
    &&& out.len() == if act is Swiglu {
        half
    } else {
        row.len() as int
    }
    &&& forall|j: int|
        0 <= j < out.len() ==> activation_outcome(
            act,
            dtype,
            row[j],
            row[if act is Swiglu {
                j + half
            } else {
                j
            }],
            #[trigger] out[j],
        )
}

/// The products of two rows, feature by feature.
pub open spec fn multiplied_row(
    dtype: DType,
    a: Seq<u64>,
    b: Seq<u64>,
    out: Seq<u64>,
) -> bool {
    &&& a.len() == out.len()
    &&& b.len() == out.len()
    &&& forall|j: int|
        0 <= j < out.len() ==> mul_outcome(dtype, a[j], b[j], #[trigger] out[j])
}

/// The feed-forward block on one row of features.
pub open spec fn mlp_row(m: MlpView, dtype: DType, row: Seq<u64>, out: Seq<u64>) -> bool {
    exists|g: Seq<u64>, a: Seq<u64>, u: Seq<u64>, p: Seq<u64>|
        {
            &&& #[trigger] linear_row(m.gate, dtype, row, g)
            &&& #[trigger] activated_row(m.act, dtype, g, a)
            &&& #[trigger] linear_row(m.up, dtype, row, u)
            &&& #[trigger] multiplied_row(dtype, a, u, p)
            &&& linear_row(m.down, dtype, p, out)
        }
}

/// Whether `idx` names a row of an array with these dimensions. Its last component
/// is free.
pub open spec fn names_a_row(dims: Seq<usize>, idx: Seq<int>) -> bool {
    &&& dims.len() > 0
    &&& idx.len() == dims.len()
    &&& forall|k: int| 0 <= k < dims.len() - 1 ==> 0 <= #[trigger] idx[k] < dims[k]
}

/// One element of the row that `idx` names.
proof fn lemma_element_of_row(x: Array, idx: Seq<int>, j: int)
    requires
        names_a_row(x.dims, idx),
        0 <= j < x.dims.last(),
    ensures
        in_bounds(x.dims, idx.update(idx.len() - 1, j)),
        row_at(x, idx)[j] == at(x, idx.update(idx.len() - 1, j)),
        row_at(x, idx)[j] == x.elems[position(x.dims, idx.update(idx.len() - 1, j))],
        0 <= position(x.dims, idx.update(idx.len() - 1, j)) < count(x.dims),
{
    let i = idx.update(idx.len() - 1, j);
    assert forall|k: int| 0 <= k < x.dims.len() implies 0 <= #[trigger] i[k] < x.dims[k] by {
        if k < x.dims.len() - 1 {
            assert(i[k] == idx[k]);
        }
    }
    an_index_names_an_element(x.dims, i);
}

/// A linear layer works row by row.
proof fn lemma_linear_by_rows(l: LinearView, x: Array, t: Array, idx: Seq<int>)
    requires
        linear_result(l, x, Some(t)),
        names_a_row(x.dims, idx),
    ensures
        names_a_row(t.dims, idx),
        linear_row(l, x.dtype, row_at(x, idx), row_at(t, idx)),
{
    let n = x.dims.len() as int;
    assert forall|k: int| 0 <= k < n - 1 implies 0 <= #[trigger] idx[k] < t.dims[k] by {
        assert(t.dims[k] == x.dims[k]);
    }
    let row = row_at(x, idx);
    let out = row_at(t, idx);
    assert forall|j: int| 0 <= j < out.len() implies linear_outcome(
        x.dtype,
        row,
        l.weights(j),
        l.offset(j),
        #[trigger] out[j],
    ) by {
        lemma_element_of_row(t, idx, j);
        let i = idx.update(n - 1, j);
        assert(row_at(x, i) =~= row) by {
            assert forall|p: int| 0 <= p < row.len() implies row_at(x, i)[p] == row[p] by {
                assert(i.update(n - 1, p) =~= idx.update(n - 1, p));
            }
        }
        assert(i.last() == j);
        assert(at(t, i) == out[j]);
    }
}

/// The activation function works row by row.
proof fn lemma_activated_by_rows(act: Activation, x: Array, t: Array, idx: Seq<int>)
    requires
        activated_result(act, x, Some(t)),
        names_a_row(x.dims, idx),
        x.elems.len() == count(x.dims),
    ensures
        names_a_row(t.dims, idx),
        activated_row(act, x.dtype, row_at(x, idx), row_at(t, idx)),
{
    let n = x.dims.len() as int;
    assert forall|k: int| 0 <= k < n - 1 implies 0 <= #[trigger] idx[k] < t.dims[k] by {
        assert(t.dims[k] == x.dims[k]);
    }
    let row = row_at(x, idx);
    let out = row_at(t, idx);
    let half = row.len() as int / 2;
    assert forall|j: int| 0 <= j < out.len() implies activation_outcome(
        act,
        x.dtype,
        row[j],
        row[if act is Swiglu {
            j + half
        } else {
            j
        }],
        #[trigger] out[j],
    ) by {
        lemma_element_of_row(t, idx, j);
        lemma_element_of_row(x, idx, j);
        let i = idx.update(n - 1, j);
        if act is Swiglu {
            lemma_element_of_row(x, idx, j + half);
            assert(i.update(n - 1, i[n - 1] + x.dims.last() / 2) =~= idx.update(n - 1, j + half));
            assert(at(t, i) == out[j]);
        } else {
            assert(t.elems[position(t.dims, i)] == out[j]);
        }
    }
}

/// Each position passes through the block alone: a row of the result comes from the
/// row in its own place, and from nothing else.
pub proof fn each_position_passes_alone(m: MlpView, x: Array, y: Array, idx: Seq<int>)
    requires
        mlp_result(m, x, Some(y)),
        names_a_row(x.dims, idx),
    ensures
        mlp_row(m, x.dtype, row_at(x, idx), row_at(y, idx)),
{
    let g = choose|g: Array| #[trigger]
        linear_result(m.gate, x, Some(g)) && exists|a: Option<Array>| #[trigger]
            activated_result(m.act, g, a) && match a {
                None => false,
                Some(a) => exists|u: Option<Array>| #[trigger]
                    linear_result(m.up, x, u) && match u {
                        None => false,
                        Some(u) => exists|p: Option<Array>| #[trigger]
                            mul_result(a, u, p) && match p {
                                None => false,
                                Some(p) => linear_result(m.down, p, Some(y)),
                            },
                    },
            };
    let a = choose|a: Array| #[trigger]
        activated_result(m.act, g, Some(a)) && exists|u: Option<Array>| #[trigger]
            linear_result(m.up, x, u) && match u {
                None => false,
                Some(u) => exists|p: Option<Array>| #[trigger]
                    mul_result(a, u, p) && match p {
                        None => false,
                        Some(p) => linear_result(m.down, p, Some(y)),
                    },
            };
    let u = choose|u: Array| #[trigger]
        linear_result(m.up, x, Some(u)) && exists|p: Option<Array>| #[trigger]
            mul_result(a, u, p) && match p {
                None => false,
                Some(p) => linear_result(m.down, p, Some(y)),
            };
    let p = choose|p: Array| #[trigger]
        mul_result(a, u, Some(p)) && linear_result(m.down, p, Some(y));
    lemma_linear_by_rows(m.gate, x, g, idx);
    lemma_activated_by_rows(m.act, g, a, idx);
    lemma_linear_by_rows(m.up, x, u, idx);
    lemma_linear_by_rows(m.down, p, y, idx);
    let (ar, ur, pr) = (row_at(a, idx), row_at(u, idx), row_at(p, idx));
    assert forall|j: int| 0 <= j < pr.len() implies mul_outcome(
        x.dtype,
        ar[j],
        ur[j],
        #[trigger] pr[j],
    ) by {
        lemma_element_of_row(a, idx, j);
        lemma_element_of_row(u, idx, j);
        lemma_element_of_row(p, idx, j);
    }
    assert(multiplied_row(x.dtype, ar, ur, pr));
    assert(linear_row(m.gate, x.dtype, row_at(x, idx), row_at(g, idx)));
    assert(activated_row(m.act, x.dtype, row_at(g, idx), ar));
}

} // verus!
