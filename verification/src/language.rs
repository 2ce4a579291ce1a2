//! The language model: a decoder and a projection to the vocabulary.

use crate::array::{Array, narrow_result};
use crate::attention::usable;
use crate::cache::CacheView;
use crate::config::Config;
use crate::error::ModelError;
use crate::model::{Model, ModelView, caches_of, decode_result, model_built};
use crate::nn::{Linear, LinearView, linear_result};
use crate::success::{a_language_model_takes_what_agrees, language_owed, stuck};
use crate::tensor::{array, dims2, narrow, outcome, tensor_dims};
use crate::weights::{Weights, WeightsView, view_of};
use candle_core::Tensor;
use vstd::prelude::*;

verus! {

/// A decoder with a projection to the vocabulary.
#[derive(Debug)]
pub struct ModelForCausalLM {
    pub base_model: Model,
    pub lm_head: Linear,
}

impl Clone for ModelForCausalLM {
    fn clone(&self) -> (r: Self)
        ensures
            r@ == self@,
            self.wf() ==> r.wf(),
    {
        ModelForCausalLM { base_model: self.base_model.clone(), lm_head: self.lm_head.clone() }
    }
}

/// What a language model holds.
pub struct LanguageView {
    pub base: ModelView,
    pub head: LinearView,
}

impl View for ModelForCausalLM {
    type V = LanguageView;

    open spec fn view(&self) -> LanguageView {
        LanguageView { base: self.base_model@, head: self.lm_head@ }
    }
}

impl LanguageView {
    /// The same model with other caches.
    pub open spec fn with_caches(self, caches: Seq<Option<CacheView>>) -> LanguageView {
        LanguageView { base: self.base.with_caches(caches), ..self }
    }

    /// The same model without caches.
    pub open spec fn cleared(self) -> LanguageView {
        LanguageView { base: self.base.cleared(), ..self }
    }
}

/// The projection to the vocabulary: the embedding table where the two are tied or
/// where there is no other weight, else its own weight.
pub open spec fn head_built(
    cfg: Config,
    w: WeightsView,
    base: ModelView,
    out: Option<LinearView>,
) -> bool {
    if !cfg.tie_word_embeddings && w.has("lm_head.weight"@) {
        w.under("lm_head"@).linear_no_bias_result(cfg.hidden_size, cfg.vocab_size, out)
    } else {
        out == Some(LinearView { weight: base.embed.embeddings, bias: None })
    }
}

/// Looking up a language model.
pub open spec fn language_built(cfg: Config, w: WeightsView, out: Option<LanguageView>) -> bool {
    exists|m: Option<ModelView>| #[trigger]
        model_built(cfg, w, m) && match m {
            None => out is None,
            Some(m) => exists|h: Option<LinearView>| #[trigger]
                head_built(cfg, w, m, h) && out == match h {
                    None => None,
                    Some(h) => Some(LanguageView { base: m, head: h }),
                },
        }
}

/// Running a language model on tokens that start at position `offset`: the last
/// position's features, projected to the vocabulary. `caches` are the caches of its
/// layers afterwards.
pub open spec fn logits_result(
    m: LanguageView,
    ids: Array,
    offset: usize,
    total_capacity: usize,
    caches: Seq<Option<CacheView>>,
    out: Option<Array>,
) -> bool {
    exists|h: Option<Array>| #[trigger]
        decode_result(m.base, ids, offset, None, total_capacity, caches, h) && match h {
            None => out is None,
            Some(h) => if ids.dims[1] == 0 {
                out is None
            } else {
                exists|l: Option<Array>| #[trigger]
                    narrow_result(h, 1, ids.dims[1] - 1, 1, l) && match l {
                        None => out is None,
                        Some(l) => linear_result(m.head, l, out),
                    }
            },
        }
}

impl ModelForCausalLM {
    /// The parts are well formed.
    pub open spec fn wf(&self) -> bool {
        self.base_model.wf() && self.lm_head@.wf()
    }

    /// Whether the model can work with this capacity: it matters only as long as a
    /// layer has no cache.
    pub open spec fn accepts(&self, total_capacity: usize) -> bool {
        self.base_model.accepts(total_capacity)
    }

    /// The model with these weights. Where the embeddings are tied, or there is no
    /// weight of its own for the projection to the vocabulary, it uses the embedding
    /// table.
    pub fn new(cfg: &Config, vb: &Weights) -> (r: Result<Self, ModelError>)
        requires
            cfg.valid(),
        ensures
            language_built(*cfg, vb@, view_of(r)),
            r matches Ok(m) ==> m.wf() && m@.head.width() == cfg.vocab_size,
            r matches Ok(m) ==> forall|c: usize| usable(c) ==> #[trigger] m.accepts(c),
    {
        let base_model = Model::new(cfg, vb)?;
        let lm_head = ModelForCausalLM::build_head(cfg, vb, &base_model)?;
        Ok(ModelForCausalLM { base_model, lm_head })
    }

    /// The projection to the vocabulary.
    fn build_head(cfg: &Config, vb: &Weights, base_model: &Model) -> (r: Result<
        Linear,
        ModelError,
    >)
        requires
            base_model@.embed.wf(),
        ensures
            head_built(*cfg, vb@, base_model@, view_of(r)),
            r matches Ok(l) ==> l@.wf(),
    {
        if !cfg.tie_word_embeddings && vb.contains_tensor("lm_head.weight") {
            let head = vb.pp("lm_head").linear_no_bias(cfg.hidden_size, cfg.vocab_size)?;
            Ok(head)
        } else {
            Ok(Linear { weight: base_model.embed_tokens.embeddings.clone(), bias: None })
        }
    }

    /// The logits of the token that follows tokens which start at position
    /// `seqlen_offset`. Tokens that the model is bound to work on give logits, unless the
    /// scores of a full cache cannot be compared.
    pub fn forward(
        &mut self,
        input_ids: &Tensor,
        seqlen_offset: usize,
        total_capacity: usize,
    ) -> (r: Result<Tensor, ModelError>)
        requires
            old(self).wf(),
            old(self).accepts(total_capacity),
        ensures
            final(self).wf(),
            final(self)@ == old(self)@.with_caches(caches_of(final(self)@.base.layers)),
            logits_result(
                old(self)@,
                array(*input_ids),
                seqlen_offset,
                total_capacity,
                caches_of(final(self)@.base.layers),
                outcome(r),
            ),
            r matches Ok(t) ==> tensor_dims(*input_ids).len() == 2 && tensor_dims(t) == seq![
                tensor_dims(*input_ids)[0],
                1,
                old(self)@.head.width(),
            ],
            language_owed(old(self)@, array(*input_ids), seqlen_offset, total_capacity) ==> r is Ok
                || (tensor_dims(*input_ids)[1] == 1 && stuck(
                old(self)@.base.layers,
                caches_of(final(self)@.base.layers),
            )),
    {
        let ghost m = self@;
        let r = self.predict(input_ids, seqlen_offset, total_capacity);
        proof {
            let ids = array(*input_ids);
            if language_owed(m, ids, seqlen_offset, total_capacity) {
                a_language_model_takes_what_agrees(
                    m,
                    ids,
                    seqlen_offset,
                    total_capacity,
                    caches_of(self@.base.layers),
                    outcome(r),
                );
            }
        }
        r
    }

    /// The logits of the token that follows tokens which start at position
    /// `seqlen_offset`.
    fn predict(
        &mut self,
        input_ids: &Tensor,
        seqlen_offset: usize,
        total_capacity: usize,
    ) -> (r: Result<Tensor, ModelError>)
        requires
            old(self).wf(),
            old(self).accepts(total_capacity),
        ensures
            final(self).wf(),
            final(self)@ == old(self)@.with_caches(caches_of(final(self)@.base.layers)),
            logits_result(
                old(self)@,
                array(*input_ids),
                seqlen_offset,
                total_capacity,
                caches_of(final(self)@.base.layers),
                outcome(r),
            ),
            r matches Ok(t) ==> tensor_dims(*input_ids).len() == 2 && tensor_dims(t) == seq![
                tensor_dims(*input_ids)[0],
                1,
                old(self)@.head.width(),
            ],
    {
        let ghost m = self@;
        assert(m.base == self.base_model@ && m.head == self.lm_head@);
        let h = self.base_model.forward(input_ids, seqlen_offset, None, total_capacity)?;
        let (_, seq_len) = dims2(input_ids)?;
        let ghost ids = array(*input_ids);
        assert(ids.dims[1] == seq_len);
        if seq_len == 0 {
            return Err(ModelError::ShortAxis);
        }
        let l = narrow(&h, 1, seq_len - 1, 1)?;
        self.lm_head.forward(&l)
    }

    /// Drops the caches of all layers.
    pub fn clear_kv_cache(&mut self)
        requires
            old(self).wf(),
        ensures
            final(self).wf(),
            final(self)@ == old(self)@.cleared(),
            forall|c: usize| usable(c) ==> #[trigger] final(self).accepts(c),
    {
        self.base_model.clear_kv_cache()
    }
}

} // verus!
