//! A decoder layer: attention and a feed-forward block, each behind a
//! normalisation and with a residual connection.

use crate::array::{Array, floating};
use crate::attention::{Attention, AttentionView, attend_result, attention_built};
use crate::cache::{CacheView, ready};
use crate::config::Config;
use crate::error::ModelError;
use crate::mlp::{MLP, MlpView, mlp_built, mlp_result};
use crate::nn::{NormView, RmsNorm, norm_result};
use crate::rotary::{RotaryEmbedding, RotaryView};
use crate::success::{
    a_layer_takes_what_agrees, cache_agrees, has_room, layer_owed, mask_fits,
};
use crate::tensor::{add_result, array, optional_array, outcome, plus, tensor_dims, tensor_dtype};
use crate::weights::{Weights, WeightsView, view_of};
use candle_core::Tensor;
use vstd::prelude::*;

verus! {

/// A decoder layer.
#[derive(Debug)]
pub struct DecoderLayer {
    pub self_attn: Attention,
    pub mlp: MLP,
    pub input_layernorm: RmsNorm,
    pub post_attention_layernorm: RmsNorm,
}

impl Clone for DecoderLayer {
    fn clone(&self) -> (r: Self)
        ensures
            r@ == self@,
            self.wf() ==> r.wf(),
    {
        DecoderLayer {
            self_attn: self.self_attn.clone(),
            mlp: self.mlp.clone(),
            input_layernorm: self.input_layernorm.clone(),
            post_attention_layernorm: self.post_attention_layernorm.clone(),
        }
    }
}

/// What a decoder layer holds.
pub struct LayerView {
    pub attn: AttentionView,
    pub mlp: MlpView,
    pub input_norm: NormView,
    pub post_norm: NormView,
}

impl View for DecoderLayer {
    type V = LayerView;

    open spec fn view(&self) -> LayerView {
        LayerView {
            attn: self.self_attn@,
            mlp: self.mlp@,
            input_norm: self.input_layernorm@,
            post_norm: self.post_attention_layernorm@,
        }
    }
}

impl LayerView {
    /// The same layer with another cache.
    pub open spec fn with_cache(self, cache: Option<CacheView>) -> LayerView {
        LayerView { attn: AttentionView { cache, ..self.attn }, ..self }
    }
}

/// Looking up a decoder layer.
pub open spec fn layer_built(
    rotary: RotaryView,
    cfg: Config,
    w: WeightsView,
    out: Option<LayerView>,
) -> bool {
    let (h, eps) = (cfg.hidden_size, cfg.rms_norm_eps);
    match out {
        Some(l) => {
            &&& attention_built(rotary, cfg, w.under("self_attn"@), Some(l.attn))
            &&& mlp_built(w.under("mlp"@), cfg, Some(l.mlp))
            &&& w.under("input_layernorm"@).rms_norm_result(h, eps, Some(l.input_norm))
            &&& w.under("post_attention_layernorm"@).rms_norm_result(h, eps, Some(l.post_norm))
        },
        None => {
            ||| attention_built(rotary, cfg, w.under("self_attn"@), None)
            ||| mlp_built(w.under("mlp"@), cfg, None)
            ||| w.under("input_layernorm"@).rms_norm_result(h, eps, None)
            ||| w.under("post_attention_layernorm"@).rms_norm_result(h, eps, None)
        },
    }
}

/// The second half of a layer: the normalised features through the feed-forward
/// block, added to what they were. Integers are refused.
pub open spec fn fed_result(
    post_norm: NormView,
    mlp: MlpView,
    x: Array,
    out: Option<Array>,
) -> bool {
    exists|n: Option<Array>| #[trigger]
        norm_result(post_norm, x, n) && match n {
            None => out is None,
            Some(n) => exists|m: Option<Array>| #[trigger]
                mlp_result(mlp, n, m) && match m {
                    None => out is None,
                    Some(m) => add_result(x, m, out),
                },
        }
}

/// Applying a decoder layer. `n` is its cache afterwards.
pub open spec fn layer_result(
    l: LayerView,
    x: Array,
    mask: Option<Array>,
    offset: int,
    total_capacity: usize,
    n: Option<CacheView>,
    out: Option<Array>,
) -> bool {
    exists|i: Option<Array>| #[trigger]
        norm_result(l.input_norm, x, i) && match i {
            None => n == l.attn.cache && out is None,
            Some(i) => exists|a: Option<Array>| #[trigger]
                attend_result(l.attn, i, mask, offset, total_capacity, n, a) && match a {
                    None => out is None,
                    Some(a) => exists|s: Option<Array>| #[trigger]
                        add_result(a, x, s) && match s {
                            None => out is None,
                            Some(s) => fed_result(l.post_norm, l.mlp, s, out),
                        },
                },
        }
}

impl DecoderLayer {
    /// The parts are well formed.
    pub open spec fn wf(&self) -> bool {
        self.self_attn.wf() && self.mlp@.wf()
    }

    /// The layer whose weights stand at this place.
    pub fn new(rotary_emb: &RotaryEmbedding, cfg: &Config, vb: &Weights) -> (r: Result<
        Self,
        ModelError,
    >)
        requires
            cfg.valid(),
        ensures
            layer_built(rotary_emb@, *cfg, vb@, view_of(r)),
            r matches Ok(l) ==> l.wf() && l.self_attn.kv_cache is None,
    {
        let self_attn = Attention::new(rotary_emb, cfg, &vb.pp("self_attn"))?;
        let mlp = MLP::new(cfg, &vb.pp("mlp"))?;
        let input_layernorm = vb.pp("input_layernorm").rms_norm(cfg.hidden_size, cfg.rms_norm_eps)?;
        let post_attention_layernorm = vb.pp("post_attention_layernorm").rms_norm(
            cfg.hidden_size,
            cfg.rms_norm_eps,
        )?;
        Ok(DecoderLayer { self_attn, mlp, input_layernorm, post_attention_layernorm })
    }

    /// The second half of the layer.
    fn feed(&self, xs: &Tensor) -> (r: Result<Tensor, ModelError>)
        requires
            self.wf(),
        ensures
            fed_result(self.post_attention_layernorm@, self.mlp@, array(*xs), outcome(r)),
    {
        let n = self.post_attention_layernorm.forward(xs)?;
        let m = self.mlp.forward(&n)?;
        let t = plus(xs, &m)?;
        Ok(t)
    }

    /// Applies the layer to positions that start at `seqlen_offset`. What it is bound to
    /// work on gives a result, unless the scores of a full cache cannot be compared.
    pub fn forward(
        &mut self,
        xs: &Tensor,
        attention_mask: Option<&Tensor>,
        seqlen_offset: usize,
        total_capacity: usize,
    ) -> (r: Result<Tensor, ModelError>)
        requires
            old(self).wf(),
            old(self).self_attn.accepts(total_capacity),
        ensures
            final(self).wf(),
            final(self)@ == old(self)@.with_cache(final(self)@.attn.cache),
            layer_result(
                old(self)@,
                array(*xs),
                optional_array(attention_mask),
                seqlen_offset as int,
                total_capacity,
                final(self)@.attn.cache,
                outcome(r),
            ),
            r matches Ok(t) ==> tensor_dims(t) == tensor_dims(*xs) && floating(tensor_dtype(*xs)),
            layer_owed(old(self)@, array(*xs), seqlen_offset as int, total_capacity) ==> (
            final(self)@.attn.cache matches Some(c) && cache_agrees(
                c,
                old(self)@.attn,
                tensor_dtype(*xs),
                tensor_dims(*xs)[0],
            ) && (mask_fits(old(self)@.attn, array(*xs), c, optional_array(attention_mask)) ==> r
                is Ok || (!has_room(old(self)@.attn.cache) && !ready(c)))),
    {
        let ghost l = self@;
        let r = self.pass(xs, attention_mask, seqlen_offset, total_capacity);
        proof {
            if layer_owed(l, array(*xs), seqlen_offset as int, total_capacity) {
                a_layer_takes_what_agrees(
                    l,
                    array(*xs),
                    optional_array(attention_mask),
                    seqlen_offset as int,
                    total_capacity,
                    self@.attn.cache,
                    outcome(r),
                );
            }
        }
        r
    }

    /// Applies the layer to positions that start at `seqlen_offset`.
    fn pass(
        &mut self,
        xs: &Tensor,
        attention_mask: Option<&Tensor>,
        seqlen_offset: usize,
        total_capacity: usize,
    ) -> (r: Result<Tensor, ModelError>)
        requires
            old(self).wf(),
            old(self).self_attn.accepts(total_capacity),
        ensures
            final(self).wf(),
            final(self)@ == old(self)@.with_cache(final(self)@.attn.cache),
            layer_result(
                old(self)@,
                array(*xs),
                optional_array(attention_mask),
                seqlen_offset as int,
                total_capacity,
                final(self)@.attn.cache,
                outcome(r),
            ),
            r matches Ok(t) ==> tensor_dims(t) == tensor_dims(*xs) && floating(tensor_dtype(*xs)),
    {
        let ghost l = self@;
        assert(l.input_norm == self.input_layernorm@ && l.post_norm
            == self.post_attention_layernorm@ && l.mlp == self.mlp@ && l.attn == self.self_attn@);
        let i = self.input_layernorm.forward(xs)?;
        let a = self.self_attn.forward(&i, attention_mask, seqlen_offset, total_capacity)?;
        let s = plus(&a, xs)?;
        self.feed(&s)
    }

    /// Drops the cache.
    pub fn clear_kv_cache(&mut self)
        requires
            old(self).wf(),
        ensures
            final(self).wf(),
            final(self).self_attn.kv_cache is None,
            final(self)@ == old(self)@.with_cache(None),
    {
        self.self_attn.clear_kv_cache()
    }
}

} // verus!
