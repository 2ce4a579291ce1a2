//! Named weights, and the layers that are made from them.

use crate::array::{Array, addressable, storable};
use crate::error::ModelError;
use crate::nn::{Embedding, EmbeddingView, Linear, LinearView, NormView, RmsNorm};
use crate::tensor::{
    array, cast_result, dims, fits, laid_out, lemma_zero_or_fits, settle, sound, tensor_dims,
};
use candle_core::{DType, Device, Tensor};
use candle_nn::VarBuilder;
use std::collections::HashMap;
use vstd::prelude::*;

verus! {

/// A table of named tensors, seen from a place in the hierarchy of their names.
#[verifier::external_body]
pub struct Weights {
    builder: VarBuilder<'static>,
}

/// The arrays of the table, by their full names.
pub uninterp spec fn weights_table(w: Weights) -> Map<Seq<char>, Array>;

/// What stands in front of a name when it is looked up.
pub uninterp spec fn weights_prefix(w: Weights) -> Seq<char>;

/// The element type that weights are converted to when they are looked up.
pub uninterp spec fn weights_dtype(w: Weights) -> DType;

/// What a table of weights holds, and from where it is seen.
pub struct WeightsView {
    pub table: Map<Seq<char>, Array>,
    pub prefix: Seq<char>,
    pub dtype: DType,
}

impl View for Weights {
    type V = WeightsView;

    open spec fn view(&self) -> WeightsView {
        WeightsView {
            table: weights_table(*self),
            prefix: weights_prefix(*self),
            dtype: weights_dtype(*self),
        }
    }
}

/// The table that a list of names and tensors makes. Of two tensors with one name
/// the later one counts.
pub open spec fn table_of(tensors: Seq<(String, Tensor)>) -> Map<Seq<char>, Array>
    decreases tensors.len(),
{
    if tensors.len() == 0 {
        Map::empty()
    } else {
        table_of(tensors.drop_last()).insert(tensors.last().0@, array(tensors.last().1))
    }
}

/// A number written in decimal.
pub open spec fn decimal(n: nat) -> Seq<char>
    decreases n,
{
    let digit = (('0' as nat) + n % 10) as char;
    if n < 10 {
        seq![digit]
    } else {
        decimal(n / 10).push(digit)
    }
}

impl WeightsView {
    /// The same table, seen from one level further down.
    pub open spec fn under(self, name: Seq<char>) -> WeightsView {
        WeightsView { prefix: self.prefix + name + seq!['.'], ..self }
    }

    /// Whether the table holds an array under this name.
    pub open spec fn has(self, name: Seq<char>) -> bool {
        self.table.contains_key(self.prefix + name)
    }

    /// Looking up an array that must have these dimensions: it is converted to the
    /// element type of the weights.
    pub open spec fn fetch_result(
        self,
        name: Seq<char>,
        dims: Seq<usize>,
        out: Option<Array>,
    ) -> bool {
        let found = self.table[self.prefix + name];
        if self.has(name) && found.dims == dims {
            cast_result(found, self.dtype, out)
        } else {
            out is None
        }
    }

    /// Looking up a linear layer with a bias.
    pub open spec fn linear_result(
        self,
        input: usize,
        output: usize,
        out: Option<LinearView>,
    ) -> bool {
        match out {
            Some(l) => {
                &&& self.fetch_result("weight"@, seq![output, input], Some(l.weight))
                &&& l.bias is Some
                &&& self.fetch_result("bias"@, seq![output], l.bias)
            },
            None => {
                ||| self.fetch_result("weight"@, seq![output, input], None)
                ||| self.fetch_result("bias"@, seq![output], None)
            },
        }
    }

    /// Looking up a linear layer without a bias.
    pub open spec fn linear_no_bias_result(
        self,
        input: usize,
        output: usize,
        out: Option<LinearView>,
    ) -> bool {
        match out {
            Some(l) => {
                &&& self.fetch_result("weight"@, seq![output, input], Some(l.weight))
                &&& l.bias is None
            },
            None => self.fetch_result("weight"@, seq![output, input], None),
        }
    }

    /// Looking up an embedding table, whose rows are laid out one after the other.
    pub open spec fn embedding_result(
        self,
        rows: usize,
        columns: usize,
        out: Option<EmbeddingView>,
    ) -> bool {
        match out {
            Some(e) => {
                &&& self.fetch_result("weight"@, seq![rows, columns], Some(e.embeddings))
                &&& e.hidden_size == columns
                &&& storable(self.dtype) && addressable(seq![rows, columns]) ==> e.ordered
            },
            None => self.fetch_result("weight"@, seq![rows, columns], None),
        }
    }

    /// Looking up a normalisation layer.
    pub open spec fn rms_norm_result(self, size: usize, eps: u64, out: Option<NormView>) -> bool {
        match out {
            Some(n) => self.fetch_result("weight"@, seq![size], Some(n.weight)) && n.eps == eps,
            None => self.fetch_result("weight"@, seq![size], None),
        }
    }
}

/// The view of what an operation produced, `None` where it failed.
pub open spec fn view_of<T: View, E>(r: Result<T, E>) -> Option<T::V> {
    match r {
        Ok(t) => Some(t@),
        Err(_) => None,
    }
}

/// Lists of the same names and arrays make the same table.
proof fn lemma_same_table(a: Seq<(String, Tensor)>, b: Seq<(String, Tensor)>)
    requires
        a.len() == b.len(),
        forall|j: int|
            0 <= j < a.len() ==> (#[trigger] a[j]).0 == b[j].0 && array(a[j].1) == array(b[j].1),
    ensures
        table_of(a) == table_of(b),
    decreases a.len(),
{
    if a.len() > 0 {
        let n = a.len() - 1;
        assert(a[n].0 == b[n].0);
        assert forall|j: int| 0 <= j < n implies (#[trigger] a.drop_last()[j]).0
            == b.drop_last()[j].0 && array(a.drop_last()[j].1) == array(b.drop_last()[j].1) by {
            assert(a[j].0 == b[j].0);
        }
        lemma_same_table(a.drop_last(), b.drop_last());
    }
}

impl Weights {
    /// `VarBuilder::from_tensors` on the collected pairs: a table that is seen from
    /// its root. The layers look up arrays of rank one and two, and convert them, so
    /// those must not have been narrowed past their storage.
    #[verifier::external_body]
    fn collect(tensors: Vec<(String, Tensor)>, dtype: DType, device: &Device) -> (r: Self)
        requires
            forall|i: int|
                0 <= i < tensors@.len() ==> sound((#[trigger] tensors@[i]).1) || tensor_dims(
                    tensors@[i].1,
                ).len() > 2,
        ensures
            weights_table(r) == table_of(tensors@),
            weights_prefix(r) == Seq::<char>::empty(),
            weights_dtype(r) == dtype,
    {
        let table: HashMap<String, Tensor> = tensors.into_iter().collect();
        Weights { builder: VarBuilder::from_tensors(table, dtype, device) }
    }

    /// `VarBuilder::pp` with a name: one level further down.
    #[verifier::external_body]
    pub(crate) fn pp(&self, name: &str) -> (r: Self)
        ensures
            r@ == self@.under(name@),
    {
        Weights { builder: self.builder.pp(name) }
    }

    /// `VarBuilder::pp` with a number, which is written in decimal.
    #[verifier::external_body]
    pub(crate) fn pp_index(&self, index: usize) -> (r: Self)
        ensures
            r@ == self@.under(decimal(index as nat)),
    {
        Weights { builder: self.builder.pp(index) }
    }

    /// `VarBuilder::dtype`: the element type that weights are converted to.
    #[verifier::external_body]
    pub(crate) fn dtype(&self) -> (r: DType)
        ensures
            r == weights_dtype(*self),
    {
        self.builder.dtype()
    }

    /// `VarBuilder::device`: where the weights are put. Nothing is said of it: what
    /// an operation yields does not depend on the device.
    #[verifier::external_body]
    pub(crate) fn device(&self) -> (r: Device) {
        self.builder.device().clone()
    }

    /// `VarBuilder::contains_tensor`: whether there is a tensor of this name.
    #[verifier::external_body]
    pub(crate) fn contains_tensor(&self, name: &str) -> (r: bool)
        ensures
            r == self@.has(name@),
    {
        self.builder.contains_tensor(name)
    }

    /// `candle_nn::linear`: looks up a weight and a bias.
    #[verifier::external_body]
    pub(crate) fn linear(self, in_dim: usize, out_dim: usize) -> (r: Result<
        Linear,
        candle_core::Error,
    >)
        ensures
            self@.linear_result(in_dim, out_dim, view_of(r)),
    {
        let layer = candle_nn::linear(in_dim, out_dim, self.builder)?;
        Ok(Linear { weight: layer.weight().clone(), bias: layer.bias().cloned() })
    }

    /// `candle_nn::linear_no_bias`: looks up a weight.
    #[verifier::external_body]
    pub(crate) fn linear_no_bias(self, in_dim: usize, out_dim: usize) -> (r: Result<
        Linear,
        candle_core::Error,
    >)
        ensures
            self@.linear_no_bias_result(in_dim, out_dim, view_of(r)),
    {
        let layer = candle_nn::linear_no_bias(in_dim, out_dim, self.builder)?;
        Ok(Linear { weight: layer.weight().clone(), bias: layer.bias().cloned() })
    }

    /// `candle_nn::embedding`: looks up a table of rows.
    #[verifier::external_body]
    fn rows(self, in_size: usize, out_size: usize) -> (r: Result<Embedding, candle_core::Error>)
        ensures
            match r {
                Ok(e) => self@.fetch_result(
                    "weight"@,
                    seq![in_size, out_size],
                    Some(array(e.embeddings)),
                ) && e.hidden_size == out_size,
                Err(_) => self@.fetch_result("weight"@, seq![in_size, out_size], None),
            },
    {
        let layer = candle_nn::embedding(in_size, out_size, self.builder)?;
        Ok(Embedding { embeddings: layer.embeddings().clone(), hidden_size: layer.hidden_size() })
    }

    /// Looks up a table of rows, and lays them out one after the other.
    pub(crate) fn embedding(self, in_size: usize, out_size: usize) -> (r: Result<
        Embedding,
        ModelError,
    >)
        ensures
            self@.embedding_result(in_size, out_size, view_of(r)),
    {
        let ghost w = self@;
        let found = self.rows(in_size, out_size)?;
        assert(tensor_dims(found.embeddings) == seq![in_size, out_size]);
        if fits(&dims(&found.embeddings)) {
            let embeddings = laid_out(&found.embeddings)?;
            let laid = Embedding { embeddings, hidden_size: found.hidden_size };
            assert(laid@.embeddings == found@.embeddings);
            Ok(laid)
        } else {
            Ok(found)
        }
    }

    /// `candle_nn::rms_norm`: looks up one weight for each feature. The double that
    /// `eps` holds the bits of is kept as it is.
    #[verifier::external_body]
    pub(crate) fn rms_norm(self, size: usize, eps: u64) -> (r: Result<RmsNorm, candle_core::Error>)
        ensures
            self@.rms_norm_result(size, eps, view_of(r)),
    {
        let bytes = eps.to_ne_bytes();
        let least = Tensor::from_raw_buffer(&bytes, DType::F64, &[], &Device::Cpu)?;
        let layer = candle_nn::rms_norm(size, least.to_scalar()?, self.builder)?;
        Ok(RmsNorm { weight: layer.into_inner().weight().clone(), eps })
    }

    /// A table of weights, seen from its root.
    pub fn from_tensors(tensors: Vec<(String, Tensor)>, dtype: DType, device: &Device) -> (r: Self)
        ensures
            r@ == (WeightsView { table: table_of(tensors@), prefix: Seq::empty(), dtype }),
    {
        let mut settled = tensors;
        let mut i: usize = 0;
        while i < settled.len()
            invariant
                i <= settled@.len(),
                settled@.len() == tensors@.len(),
                forall|j: int|
                    0 <= j < settled@.len() ==> (#[trigger] settled@[j]).0 == tensors@[j].0 && array(
                        settled@[j].1,
                    ) == array(tensors@[j].1),
                forall|j: int|
                    0 <= j < i ==> sound((#[trigger] settled@[j]).1) || tensor_dims(
                        settled@[j].1,
                    ).len() > 2,
            decreases settled@.len() - i,
        {
            let shape = dims(&settled[i].1);
            if shape.len() <= 2 {
                proof {
                    lemma_zero_or_fits(shape@);
                }
                if let Ok(t) = settle(&settled[i].1) {
                    let entry = &mut settled[i];
                    entry.1 = t;
                }
            }
            i += 1;
        }
        proof {
            lemma_same_table(settled@, tensors@);
        }
        Weights::collect(settled, dtype, device)
    }
}

} // verus!
