//! The layers that hold weights.

use crate::array::{
    Array, addressable, alike, at, chunk, count, floating, in_bounds, joint_fits, multiplies,
    normalises, storable,
};
use crate::error::ModelError;
use crate::tensor::{
    array, contiguous, dims, dtype, ends_empty, fits, is_floating, joint_shape, lemma_zero_or_fits,
    outcome, settle, sound, tensor_dims, tensor_dtype, tensor_ordered,
};
use candle_core::{DType, Device, Module, Tensor};
use vstd::prelude::*;

verus! {

/// A linear layer: a product with the transposed weight, and a bias added to it.
#[derive(Debug)]
pub struct Linear {
    pub weight: Tensor,
    pub bias: Option<Tensor>,
}

impl Clone for Linear {
    fn clone(&self) -> (r: Self)
        ensures
            r == *self,
    {
        Linear {
            weight: self.weight.clone(),
            bias: match &self.bias {
                Some(b) => Some(b.clone()),
                None => None,
            },
        }
    }
}

/// What a linear layer holds.
pub struct LinearView {
    pub weight: Array,
    pub bias: Option<Array>,
}

impl View for Linear {
    type V = LinearView;

    open spec fn view(&self) -> LinearView {
        LinearView {
            weight: array(self.weight),
            bias: match self.bias {
                Some(b) => Some(array(b)),
                None => None,
            },
        }
    }
}

impl LinearView {
    /// The weight is a matrix, and a bias has one element for each of its rows.
    pub open spec fn wf(self) -> bool {
        &&& self.weight.dims.len() == 2
        &&& self.bias matches Some(b) ==> b.dims == seq![self.weight.dims[0]]
    }

    /// The number of features that the layer yields.
    pub open spec fn width(self) -> usize {
        self.weight.dims[0]
    }
}

/// Dimensions with another size on the last axis.
pub open spec fn with_last(dims: Seq<usize>, last: usize) -> Seq<usize> {
    if dims.len() == 0 {
        dims
    } else {
        dims.drop_last().push(last)
    }
}

/// Whether `out` is what the product of one row of features and one row of weights,
/// with a bias added to it, may come to.
pub uninterp spec fn linear_outcome(
    dtype: DType,
    row: Seq<u64>,
    weights: Seq<u64>,
    bias: Option<u64>,
    out: u64,
) -> bool;

/// The elements along the last axis beside the one that `idx` names.
pub open spec fn row_at(x: Array, idx: Seq<int>) -> Seq<u64> {
    Seq::new(x.dims.last() as nat, |p: int| at(x, idx.update(idx.len() - 1, p)))
}

impl LinearView {
    /// The weights of feature `j`.
    pub open spec fn weights(self, j: int) -> Seq<u64> {
        Seq::new(self.weight.dims[1] as nat, |p: int| at(self.weight, seq![j, p]))
    }

    /// What is added to feature `j`.
    pub open spec fn offset(self, j: int) -> Option<u64> {
        match self.bias {
            Some(b) => Some(b.elems[j]),
            None => None,
        }
    }

    /// Whether the layer and its input agree in the element type and in the number of
    /// features.
    pub open spec fn agrees(self, x: Array) -> bool {
        &&& multiplies(x.dtype)
        &&& self.weight.dtype == x.dtype
        &&& self.bias matches Some(b) ==> b.dtype == x.dtype
        &&& self.weight.dims[1] == x.dims.last()
    }

    /// Whether the layer is bound to succeed: it does for rows of features that agree
    /// with it, one after the other or in a batch.
    pub open spec fn owed(self, x: Array) -> bool {
        &&& 2 <= x.dims.len() <= 4
        &&& count(x.dims.drop_last()) > 0
        &&& self.agrees(x)
    }
}

/// Applying a linear layer: each feature of the result comes from the row of features
/// in its own place. Sizes that do not fit in a machine word are refused.
pub open spec fn linear_result(l: LinearView, x: Array, out: Option<Array>) -> bool {
    if !addressable(x.dims) || !addressable(with_last(x.dims, l.width())) {
        out is None
    } else {
        match out {
            Some(t) => {
                &&& x.dims.len() >= 2
                &&& t.dtype == x.dtype
                &&& t.dims == with_last(x.dims, l.width())
                &&& t.elems.len() == count(t.dims)
                &&& x.dims.last() > 0 && t.elems.len() > 0 ==> l.agrees(x)
                &&& forall|idx: Seq<int>|
                    in_bounds(t.dims, idx) ==> linear_outcome(
                        x.dtype,
                        row_at(x, idx),
                        l.weights(idx.last()),
                        l.offset(idx.last()),
                        #[trigger] at(t, idx),
                    )
            },
            None => !l.owed(x),
        }
    }
}

/// `candle_nn::Linear::forward`: the product with the transposed weight, and the
/// bias added to it. It also fails beyond rank four, and for some inputs without
/// rows; which ones is left unsaid. Rows in another layout than one after the other
/// may be taken for each other, so these are kept away.
#[verifier::external_body]
fn raw_linear(layer: &Linear, x: &Tensor) -> (r: Result<Tensor, candle_core::Error>)
    requires
        layer@.wf(),
        addressable(tensor_dims(*x)),
        addressable(with_last(tensor_dims(*x), layer@.width())),
        tensor_ordered(*x),
    ensures
        linear_result(layer@, array(*x), outcome(r)),
        r matches Ok(t) ==> forall|idx: Seq<int>|
            in_bounds(tensor_dims(t), idx) ==> linear_outcome(
                tensor_dtype(*x),
                row_at(array(*x), idx),
                layer@.weights(idx.last()),
                layer@.offset(idx.last()),
                #[trigger] at(array(t), idx),
            ),
{
    candle_nn::Linear::new(layer.weight.clone(), layer.bias.clone()).forward(x)
}

impl Linear {
    /// Applies the layer to rows of features, which are first laid out in order.
    pub fn forward(&self, x: &Tensor) -> (r: Result<Tensor, ModelError>)
        requires
            self@.wf(),
        ensures
            linear_result(self@, array(*x), outcome(r)),
    {
        let shape = dims(x);
        if !fits(&shape) {
            return Err(ModelError::TooLarge);
        }
        let mut target = shape;
        if target.len() > 0 {
            let _ = target.pop();
            target.push(dims(&self.weight)[0]);
        }
        assert(target@ == with_last(tensor_dims(*x), self@.width()));
        if !fits(&target) {
            return Err(ModelError::TooLarge);
        }
        let rows = contiguous(x)?;
        let out = raw_linear(self, &rows)?;
        Ok(out)
    }
}

/// A layer that divides the features by their root mean square and multiplies
/// each by its own weight. `eps` holds the bits of a double that is added to the
/// mean square.
#[derive(Debug)]
pub struct RmsNorm {
    pub weight: Tensor,
    pub eps: u64,
}

impl Clone for RmsNorm {
    fn clone(&self) -> (r: Self)
        ensures
            r == *self,
    {
        RmsNorm { weight: self.weight.clone(), eps: self.eps }
    }
}

/// What a normalisation layer holds.
pub struct NormView {
    pub weight: Array,
    pub eps: u64,
}

impl View for RmsNorm {
    type V = NormView;

    open spec fn view(&self) -> NormView {
        NormView { weight: array(self.weight), eps: self.eps }
    }
}

impl NormView {
    /// Whether the layer is bound to work on this input: the types are the same and
    /// among those that any layout is normalised in, and there is one weight for each
    /// feature.
    pub open spec fn agrees(self, x: Array) -> bool {
        &&& normalises(x.dtype)
        &&& self.weight.dtype == x.dtype
        &&& x.dims.len() > 0
        &&& self.weight.dims == seq![x.dims.last()]
    }
}

/// Whether `out` is what a normalisation may come to.
pub uninterp spec fn norm_outcome(x: Array, weight: Array, eps: u64, out: Option<Array>) -> bool;

/// The elements along the last axis, `r` rows down, as an array of their own.
pub open spec fn row_alone(a: Array, r: int) -> Array {
    Array { dtype: a.dtype, dims: seq![a.dims.last()], elems: chunk(a, r) }
}

/// Whether each row of features was normalised as it may be alone.
pub open spec fn normed_by_rows(n: NormView, x: Array, t: Array) -> bool {
    forall|r: int|
        0 <= r < count(x.dims.drop_last()) ==> norm_outcome(
            #[trigger] row_alone(x, r),
            n.weight,
            n.eps,
            Some(row_alone(t, r)),
        )
}

/// Applying a normalisation layer, which takes each row by itself where it agrees with
/// its input. Integers are refused, and so are an axis without features and sizes that do
/// not fit in a machine word.
pub open spec fn norm_result(n: NormView, x: Array, out: Option<Array>) -> bool {
    if !floating(x.dtype) || !joint_fits(x.dims, n.weight.dims) || (x.dims.len() > 0
        && x.dims.last() == 0) {
        out is None
    } else {
        &&& norm_outcome(x, n.weight, n.eps, out)
        &&& match out {
            Some(t) => {
                &&& x.dims.len() > 0 && n.weight.dims == seq![x.dims.last()] ==> alike(x, t)
                &&& n.agrees(x) ==> normed_by_rows(n, x, t)
            },
            None => !n.agrees(x),
        }
    }
}

/// `candle_nn::RmsNorm::forward`: normalises the features on the last axis. Where the
/// layer agrees with an input and both lie in order it succeeds, row by row. When else it
/// fails is left unsaid: it supports other element types for some layouts than for
/// others.
#[verifier::external_body]
fn raw_norm(layer: &RmsNorm, x: &Tensor) -> (r: Result<Tensor, candle_core::Error>)
    requires
        floating(tensor_dtype(*x)),
        joint_fits(tensor_dims(*x), layer@.weight.dims),
        tensor_dims(*x).len() > 0 ==> tensor_dims(*x).last() > 0,
        sound(*x),
    ensures
        norm_outcome(array(*x), layer@.weight, layer@.eps, outcome(r)),
        r matches Ok(t) ==> (tensor_dims(*x).len() > 0 && layer@.weight.dims == seq![
            tensor_dims(*x).last(),
        ] ==> alike(array(*x), array(t))),
        layer@.agrees(array(*x)) && tensor_ordered(*x) && tensor_ordered(layer.weight) ==> r is Ok
            && normed_by_rows(layer@, array(*x), array(r->Ok_0)),
{
    let bytes = layer.eps.to_ne_bytes();
    let eps = Tensor::from_raw_buffer(&bytes, DType::F64, &[], &Device::Cpu)?;
    candle_nn::RmsNorm::new(layer.weight.clone(), eps.to_scalar()?).forward(x)
}

impl RmsNorm {
    /// Whether the layer is bound to work on this input.
    fn suits(&self, x: &Tensor) -> (r: bool)
        ensures
            r == self@.agrees(array(*x)),
    {
        let known = match (dtype(x), dtype(&self.weight)) {
            (DType::BF16, DType::BF16) => true,
            (DType::F16, DType::F16) => true,
            (DType::F32, DType::F32) => true,
            _ => false,
        };
        let shape = dims(x);
        let size = dims(&self.weight);
        let r = known && shape.len() > 0 && size.len() == 1 && size[0] == shape[shape.len() - 1];
        proof {
            if size@.len() == 1 {
                assert(size@ =~= seq![size@[0]]);
            }
        }
        r
    }

    /// Applies the layer. Where it suits the input, both are first laid out in order.
    pub fn forward(&self, x: &Tensor) -> (r: Result<Tensor, ModelError>)
        ensures
            norm_result(self@, array(*x), outcome(r)),
    {
        if !is_floating(x) {
            return Err(ModelError::ElementType);
        }
        let shape = dims(x);
        let size = dims(&self.weight);
        if !fits(&shape) || !fits(&size) || !fits(&joint_shape(&shape, &size)) {
            return Err(ModelError::TooLarge);
        }
        if ends_empty(x) {
            return Err(ModelError::ShortAxis);
        }
        if self.suits(x) {
            let weight = contiguous(&self.weight)?;
            let rows = settle(&contiguous(x)?)?;
            let laid_out = RmsNorm { weight, eps: self.eps };
            let out = raw_norm(&laid_out, &rows)?;
            return Ok(out);
        }
        let u = settle(x)?;
        let out = raw_norm(self, &u)?;
        Ok(out)
    }
}

/// A table with one row of features for each token.
#[derive(Debug)]
pub struct Embedding {
    pub embeddings: Tensor,
    pub hidden_size: usize,
}

impl Clone for Embedding {
    fn clone(&self) -> (r: Self)
        ensures
            r == *self,
    {
        Embedding { embeddings: self.embeddings.clone(), hidden_size: self.hidden_size }
    }
}

/// What an embedding table holds, and whether it lies row by row in its storage.
pub struct EmbeddingView {
    pub embeddings: Array,
    pub hidden_size: nat,
    pub ordered: bool,
}

impl View for Embedding {
    type V = EmbeddingView;

    open spec fn view(&self) -> EmbeddingView {
        EmbeddingView {
            embeddings: array(self.embeddings),
            hidden_size: self.hidden_size as nat,
            ordered: tensor_ordered(self.embeddings),
        }
    }
}

impl EmbeddingView {
    /// The table is a matrix with one column for each feature.
    pub open spec fn wf(self) -> bool {
        &&& self.embeddings.dims.len() == 2
        &&& self.embeddings.dims[1] == self.hidden_size
    }
}

/// Whether id `i` names a row of a table, or stands for no token.
pub open spec fn knows(table: Array, ids: Array, i: int) -> bool {
    ids.elems[i] == no_token(ids.dtype) || (ids.elems[i] as usize) < table.dims[0]
}

/// Feature `j` of the token that id `i` names.
pub open spec fn feature(table: Array, ids: Array, i: int, j: int) -> u64 {
    if ids.elems[i] == no_token(ids.dtype) {
        0
    } else {
        table.elems[(ids.elems[i] as usize) * table.dims[1] + j]
    }
}

/// The element types that ids can have.
pub open spec fn indexes(dtype: DType) -> bool {
    match dtype {
        DType::U8 | DType::U32 | DType::I64 => true,
        _ => false,
    }
}

/// The largest number of an element type of token ids. It stands for no token: its
/// features are all zero.
pub open spec fn no_token(dtype: DType) -> u64 {
    match dtype {
        DType::U8 => 0xFF,
        DType::U32 => 0xFFFF_FFFF,
        _ => 0x7FFF_FFFF_FFFF_FFFF,
    }
}

/// Looking up the features of tokens. It succeeds where every id is known and the
/// table lies row by row. Sizes that do not fit in a machine word are refused.
pub open spec fn embed_result(e: EmbeddingView, ids: Array, out: Option<Array>) -> bool {
    if !addressable(ids.dims) || !addressable(ids.dims.push(e.hidden_size as usize)) {
        out is None
    } else {
        match out {
            Some(t) => {
                &&& indexes(ids.dtype)
                &&& forall|i: int|
                    0 <= i < ids.elems.len() ==> #[trigger] knows(e.embeddings, ids, i)
                &&& t.dtype == e.embeddings.dtype
                &&& t.dims == ids.dims.push(e.hidden_size as usize)
                &&& t.elems.len() == ids.elems.len() * e.hidden_size
                &&& forall|i: int, j: int|
                    0 <= i < ids.elems.len() && 0 <= j < e.hidden_size ==> #[trigger] t.elems[i
                        * e.hidden_size + j] == feature(e.embeddings, ids, i, j)
            },
            None => {
                ||| !indexes(ids.dtype)
                ||| !storable(e.embeddings.dtype)
                ||| !e.ordered
                ||| exists|i: int| 0 <= i < ids.elems.len() && !(#[trigger] knows(
                    e.embeddings,
                    ids,
                    i,
                ))
            },
        }
    }
}

/// `candle_nn::Embedding::forward`: looks up one row for each id, and fails for an id
/// that names no row, for ids that are no integers, and for a table that is not laid
/// out row by row.
#[verifier::external_body]
fn raw_embed(layer: &Embedding, ids: &Tensor) -> (r: Result<Tensor, candle_core::Error>)
    requires
        layer@.wf(),
        addressable(tensor_dims(*ids)),
        addressable(tensor_dims(*ids).push(layer.hidden_size)),
        sound(*ids),
        sound(layer.embeddings),
    ensures
        embed_result(layer@, array(*ids), outcome(r)),
{
    candle_nn::Embedding::new(layer.embeddings.clone(), layer.hidden_size).forward(ids)
}

impl Embedding {
    /// Looks up the features of tokens.
    pub fn forward(&self, ids: &Tensor) -> (r: Result<Tensor, ModelError>)
        requires
            self@.wf(),
        ensures
            embed_result(self@, array(*ids), outcome(r)),
    {
        let mut target = dims(ids);
        if !fits(&target) {
            return Err(ModelError::TooLarge);
        }
        target.push(self.hidden_size);
        if !fits(&target) {
            return Err(ModelError::TooLarge);
        }
        let shape = dims(&self.embeddings);
        proof {
            lemma_zero_or_fits(shape@);
        }
        let embeddings = settle(&self.embeddings)?;
        let ids = settle(ids)?;
        let settled = Embedding { embeddings, hidden_size: self.hidden_size };
        assert(settled@.embeddings == self@.embeddings);
        let out = raw_embed(&settled, &ids)?;
        Ok(out)
    }
}

} // verus!
