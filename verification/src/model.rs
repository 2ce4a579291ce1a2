//! The decoder: an embedding table, decoder layers and a final normalisation.

use crate::array::Array;
use crate::attention::usable;
use crate::cache::CacheView;
use crate::config::Config;
use crate::decoder::{DecoderLayer, LayerView, layer_built, layer_result};
use crate::error::ModelError;
use crate::masks::{attention_mask, attention_mask_result, causal_mask, causal_mask_result};
use crate::nn::{Embedding, EmbeddingView, NormView, RmsNorm, embed_result, knows, norm_result};
use crate::rotary::{RotaryEmbedding, RotaryView, rotary_result};
use crate::success::{a_decoder_takes_what_agrees, model_owed, stuck};
use crate::tensor::{array, dims2, held_array, optional_array, outcome, tensor_dims, tensor_elems};
use crate::weights::{Weights, WeightsView, decimal, view_of};
use candle_core::{DType, Device, Tensor};
use vstd::prelude::*;

verus! {

/// The decoder.
#[derive(Debug)]
pub struct Model {
    pub embed_tokens: Embedding,
    pub layers: Vec<DecoderLayer>,
    pub norm: RmsNorm,
    pub use_sliding_window: bool,
    pub sliding_window: usize,
    pub max_window_layers: usize,
    pub device: Device,
    pub dtype: DType,
}

impl Clone for Model {
    fn clone(&self) -> (r: Self)
        ensures
            r@ == self@,
            self.wf() ==> r.wf(),
    {
        let mut layers: Vec<DecoderLayer> = Vec::new();
        let mut i: usize = 0;
        while i < self.layers.len()
            invariant
                i <= self.layers@.len(),
                layers@.len() == i,
                forall|j: int| 0 <= j < i ==> (#[trigger] layers@[j])@ == self.layers@[j]@,
                forall|j: int|
                    0 <= j < i && self.layers@[j].wf() ==> (#[trigger] layers@[j]).wf(),
            decreases self.layers@.len() - i,
        {
            layers.push(self.layers[i].clone());
            i += 1;
        }
        assert(layer_views(layers@) =~= layer_views(self.layers@));
        Model {
            embed_tokens: self.embed_tokens.clone(),
            layers,
            norm: self.norm.clone(),
            use_sliding_window: self.use_sliding_window,
            sliding_window: self.sliding_window,
            max_window_layers: self.max_window_layers,
            device: self.device.clone(),
            dtype: self.dtype,
        }
    }
}

/// What a decoder holds.
pub struct ModelView {
    pub embed: EmbeddingView,
    pub layers: Seq<LayerView>,
    pub norm: NormView,
    pub windows: Windows,
    pub dtype: DType,
}

/// Which layers see through a window, and how far back it reaches.
pub struct Windows {
    pub enabled: bool,
    pub reach: usize,
    pub layers: usize,
}

impl Windows {
    /// How far back a windowed layer sees. Without windows that is further than any
    /// position.
    pub open spec fn near(self) -> usize {
        if self.enabled {
            self.reach
        } else {
            usize::MAX
        }
    }
}

/// What layers hold.
pub open spec fn layer_views(layers: Seq<DecoderLayer>) -> Seq<LayerView> {
    Seq::new(layers.len(), |i: int| layers[i]@)
}

/// The caches of layers.
pub open spec fn caches_of(layers: Seq<LayerView>) -> Seq<Option<CacheView>> {
    Seq::new(layers.len(), |i: int| layers[i].attn.cache)
}

/// The same layers with other caches.
pub open spec fn with_caches(layers: Seq<LayerView>, caches: Seq<Option<CacheView>>) -> Seq<
    LayerView,
> {
    Seq::new(layers.len(), |i: int| layers[i].with_cache(caches[i]))
}

impl View for Model {
    type V = ModelView;

    open spec fn view(&self) -> ModelView {
        ModelView {
            embed: self.embed_tokens@,
            layers: layer_views(self.layers@),
            norm: self.norm@,
            windows: Windows {
                enabled: self.use_sliding_window,
                reach: self.sliding_window,
                layers: self.max_window_layers,
            },
            dtype: self.dtype,
        }
    }
}

impl ModelView {
    /// The same decoder with other caches.
    pub open spec fn with_caches(self, caches: Seq<Option<CacheView>>) -> ModelView {
        ModelView { layers: with_caches(self.layers, caches), ..self }
    }

    /// The same decoder without caches.
    pub open spec fn cleared(self) -> ModelView {
        self.with_caches(Seq::new(self.layers.len(), |i: int| None))
    }

    /// The table and the final normalisation have the same number of features.
    pub open spec fn wf(self) -> bool {
        &&& self.embed.wf()
        &&& self.norm.weight.dims == seq![self.embed.embeddings.dims[1]]
    }

    /// The number of features of each position.
    pub open spec fn features(self) -> usize {
        self.embed.embeddings.dims[1]
    }
}

/// Looking up the layers of a decoder.
pub open spec fn layers_built(
    rotary: RotaryView,
    cfg: Config,
    w: WeightsView,
    out: Option<Seq<LayerView>>,
) -> bool {
    match out {
        Some(layers) => {
            &&& layers.len() == cfg.num_hidden_layers
            &&& forall|i: int|
                0 <= i < layers.len() ==> layer_built(
                    rotary,
                    cfg,
                    w.under(decimal(i as nat)),
                    Some(#[trigger] layers[i]),
                )
        },
        None => exists|i: nat|
            i < cfg.num_hidden_layers && layer_built(
                rotary,
                cfg,
                #[trigger] w.under(decimal(i)),
                None,
            ),
    }
}

/// Looking up a decoder.
pub open spec fn model_built(cfg: Config, w: WeightsView, out: Option<ModelView>) -> bool {
    let m = w.under("model"@);
    exists|e: Option<EmbeddingView>| #[trigger]
        m.under("embed_tokens"@).embedding_result(cfg.vocab_size, cfg.hidden_size, e) && match e {
            None => out is None,
            Some(e) => exists|r: Option<RotaryView>| #[trigger]
                rotary_result(
                    w.dtype,
                    cfg.rope_theta,
                    cfg.head_dim() as int,
                    cfg.max_position_embeddings,
                    r,
                ) && match r {
                    None => out is None,
                    Some(r) => exists|l: Option<Seq<LayerView>>| #[trigger]
                        layers_built(r, cfg, m.under("layers"@), l) && match l {
                            None => out is None,
                            Some(l) => exists|n: Option<NormView>| #[trigger]
                                m.under("norm"@).rms_norm_result(
                                    cfg.hidden_size,
                                    cfg.rms_norm_eps,
                                    n,
                                ) && out == match n {
                                    None => None,
                                    Some(n) => Some(
                                        ModelView {
                                            embed: e,
                                            layers: l,
                                            norm: n,
                                            windows: Windows {
                                                enabled: cfg.use_sliding_window,
                                                reach: cfg.sliding_window,
                                                layers: cfg.max_window_layers,
                                            },
                                            dtype: w.dtype,
                                        },
                                    ),
                                },
                        },
                },
        }
}

/// The masks of the windowed layers and of the others.
pub struct Masks {
    pub near: Option<Array>,
    pub far: Option<Array>,
}

impl Masks {
    /// The mask of layer `i` where the first `windowed` layers see through a window.
    pub open spec fn of_layer(self, windowed: int, i: int) -> Option<Array> {
        if i < windowed {
            self.near
        } else {
            self.far
        }
    }
}

/// The masks for these tokens: the one that was given, or else causal ones, which a
/// single position does not need. `None` stands for failure.
pub open spec fn mask_result(
    dtype: DType,
    windows: Windows,
    ids: Array,
    offset: usize,
    given: Option<Array>,
    out: Option<Masks>,
) -> bool {
    match given {
        Some(a) => exists|m: Option<Array>| #[trigger]
            attention_mask_result(dtype, a, m) && out == match m {
                None => None,
                Some(m) => Some(Masks { near: Some(m), far: Some(m) }),
            },
        None => if ids.dims[1] <= 1 {
            out == Some(Masks { near: None, far: None })
        } else {
            exists|m: Option<Array>| #[trigger]
                causal_mask_result(dtype, windows.near(), ids.dims[0], ids.dims[1], offset, m)
                    && match m {
                    None => out is None,
                    Some(m) => if windows.enabled {
                        exists|f: Option<Array>| #[trigger]
                            causal_mask_result(
                                dtype,
                                usize::MAX,
                                ids.dims[0],
                                ids.dims[1],
                                offset,
                                f,
                            ) && out == match f {
                                None => None,
                                Some(f) => Some(Masks { near: Some(m), far: Some(f) }),
                            }
                    } else {
                        out == Some(Masks { near: Some(m), far: Some(m) })
                    },
                }
        },
    }
}

/// A run through layers, of which the first `windowed` see through a window.
pub struct Run {
    pub masks: Masks,
    pub windowed: int,
    pub offset: int,
    pub total_capacity: usize,
}

/// Whether layer `i` took `hidden[i]` to `hidden[i + 1]`.
pub open spec fn took(
    layers: Seq<LayerView>,
    run: Run,
    caches: Seq<Option<CacheView>>,
    hidden: Seq<Array>,
    i: int,
) -> bool {
    layer_result(
        layers[i],
        hidden[i],
        run.masks.of_layer(run.windowed, i),
        run.offset,
        run.total_capacity,
        caches[i],
        Some(hidden[i + 1]),
    )
}

/// A run through the layers: `done` of them have been passed, each taking what the
/// one before yielded. Those after the one that failed have kept their caches.
pub open spec fn passed(
    layers: Seq<LayerView>,
    run: Run,
    caches: Seq<Option<CacheView>>,
    hidden: Seq<Array>,
    done: int,
) -> bool {
    &&& 0 <= done <= layers.len()
    &&& caches.len() == layers.len()
    &&& hidden.len() == done + 1
    &&& forall|i: int| 0 <= i < done ==> #[trigger] took(layers, run, caches, hidden, i)
    &&& done < layers.len() ==> layer_result(
        layers[done],
        hidden[done],
        run.masks.of_layer(run.windowed, done),
        run.offset,
        run.total_capacity,
        caches[done],
        None,
    )
    &&& forall|i: int|
        done < i < layers.len() ==> #[trigger] caches[i] == layers[i].attn.cache
}

/// Running through all layers. `caches` are their caches afterwards.
pub open spec fn stack_result(
    layers: Seq<LayerView>,
    x: Array,
    run: Run,
    caches: Seq<Option<CacheView>>,
    out: Option<Array>,
) -> bool {
    exists|hidden: Seq<Array>, done: int| #[trigger]
        passed(layers, run, caches, hidden, done) && hidden[0] == x && out == if done
            == layers.len() {
            Some(hidden[done])
        } else {
            None
        }
}

/// Running a decoder on tokens that start at position `offset`. `caches` are the
/// caches of its layers afterwards.
pub open spec fn decode_result(
    m: ModelView,
    ids: Array,
    offset: usize,
    given: Option<Array>,
    total_capacity: usize,
    caches: Seq<Option<CacheView>>,
    out: Option<Array>,
) -> bool {
    if ids.dims.len() != 2 {
        caches == caches_of(m.layers) && out is None
    } else {
        exists|k: Option<Masks>| #[trigger]
            mask_result(m.dtype, m.windows, ids, offset, given, k) && match k {
                None => caches == caches_of(m.layers) && out is None,
                Some(k) => exists|e: Option<Array>| #[trigger]
                    embed_result(m.embed, ids, e) && match e {
                        None => caches == caches_of(m.layers) && out is None,
                        Some(e) => exists|h: Option<Array>| #[trigger]
                            stack_result(
                                m.layers,
                                e,
                                Run {
                                    masks: k,
                                    windowed: m.windows.layers as int,
                                    offset: offset as int,
                                    total_capacity,
                                },
                                caches,
                                h,
                            ) && match h {
                                None => out is None,
                                Some(h) => norm_result(m.norm, h, out),
                            },
                    },
            }
    }
}

impl Model {
    /// The parts are well formed and fit together.
    pub open spec fn wf(&self) -> bool {
        &&& self@.wf()
        &&& forall|i: int| 0 <= i < self.layers@.len() ==> (#[trigger] self.layers@[i]).wf()
    }

    /// Whether the decoder can work with this capacity: it matters only as long as
    /// a layer has no cache.
    pub open spec fn accepts(&self, total_capacity: usize) -> bool {
        forall|i: int|
            0 <= i < self.layers@.len() ==> (#[trigger] self.layers@[i]).self_attn.accepts(
                total_capacity,
            )
    }

    /// The decoder with these weights.
    pub fn new(cfg: &Config, vb: &Weights) -> (r: Result<Self, ModelError>)
        requires
            cfg.valid(),
        ensures
            model_built(*cfg, vb@, view_of(r)),
            r matches Ok(m) ==> m.wf() && m@.embed.embeddings.dims == seq![
                cfg.vocab_size,
                cfg.hidden_size,
            ],
            r matches Ok(m) ==> forall|c: usize| usable(c) ==> #[trigger] m.accepts(c),
    {
        let vb_m = vb.pp("model");
        let embed_tokens = vb_m.pp("embed_tokens").embedding(cfg.vocab_size, cfg.hidden_size)?;
        let rotary_emb = RotaryEmbedding::new(vb.dtype(), cfg, &vb_m.device())?;
        let layers = Model::build_layers(&rotary_emb, cfg, &vb_m.pp("layers"))?;
        let norm = vb_m.pp("norm").rms_norm(cfg.hidden_size, cfg.rms_norm_eps)?;
        Ok(
            Model {
                embed_tokens,
                layers,
                norm,
                use_sliding_window: cfg.use_sliding_window,
                sliding_window: cfg.sliding_window,
                max_window_layers: cfg.max_window_layers,
                device: vb.device(),
                dtype: vb.dtype(),
            },
        )
    }

    /// The layers whose weights stand at this place.
    fn build_layers(rotary_emb: &RotaryEmbedding, cfg: &Config, vb: &Weights) -> (r: Result<
        Vec<DecoderLayer>,
        ModelError,
    >)
        requires
            cfg.valid(),
        ensures
            layers_built(
                rotary_emb@,
                *cfg,
                vb@,
                match r {
                    Ok(layers) => Some(layer_views(layers@)),
                    Err(_) => None,
                },
            ),
            r matches Ok(layers) ==> forall|i: int|
                0 <= i < layers@.len() ==> (#[trigger] layers@[i]).wf()
                    && layers@[i].self_attn.kv_cache is None,
    {
        let mut layers: Vec<DecoderLayer> = Vec::new();
        let mut i: usize = 0;
        while i < cfg.num_hidden_layers
            invariant
                cfg.valid(),
                i <= cfg.num_hidden_layers,
                layers@.len() == i,
                forall|j: int|
                    0 <= j < i ==> (#[trigger] layers@[j]).wf()
                        && layers@[j].self_attn.kv_cache is None,
                forall|j: int|
                    0 <= j < i ==> layer_built(
                        rotary_emb@,
                        *cfg,
                        vb@.under(decimal(j as nat)),
                        Some((#[trigger] layers@[j])@),
                    ),
            decreases cfg.num_hidden_layers - i,
        {
            let layer = DecoderLayer::new(rotary_emb, cfg, &vb.pp_index(i))?;
            layers.push(layer);
            i += 1;
        }
        Ok(layers)
    }

    /// The mask of `tgt_len` new positions that follow `seqlen_offset` earlier ones, for
    /// the layers that see through a window. Without windows no past position is
    /// closed.
    pub fn prepare_causal_attention_mask(
        &self,
        b_size: usize,
        tgt_len: usize,
        seqlen_offset: usize,
    ) -> (r: Result<Tensor, ModelError>)
        ensures
            causal_mask_result(
                self@.dtype,
                self@.windows.near(),
                b_size,
                tgt_len,
                seqlen_offset,
                outcome(r),
            ),
            causal_mask_result(
                self.dtype,
                if self.use_sliding_window {
                    self.sliding_window
                } else {
                    usize::MAX
                },
                b_size,
                tgt_len,
                seqlen_offset,
                outcome(r),
            ),
    {
        let reach = if self.use_sliding_window {
            self.sliding_window
        } else {
            usize::MAX
        };
        causal_mask(self.dtype, reach, b_size, tgt_len, seqlen_offset, &self.device)
    }

    /// The mask that a matrix with one row for each member of a batch stands for.
    pub fn prepare_attention_mask(&self, attn_mask: &Tensor) -> (r: Result<Tensor, ModelError>)
        ensures
            attention_mask_result(self@.dtype, array(*attn_mask), outcome(r)),
    {
        attention_mask(self.dtype, attn_mask, &self.device)
    }

    /// The masks of the windowed layers and of the others.
    fn choose_masks(
        &self,
        b_size: usize,
        seq_len: usize,
        seqlen_offset: usize,
        attn_mask: Option<&Tensor>,
        ids: &Tensor,
    ) -> (r: Result<(Option<Tensor>, Option<Tensor>), ModelError>)
        requires
            tensor_dims(*ids) == seq![b_size, seq_len],
        ensures
            mask_result(
                self@.dtype,
                self@.windows,
                array(*ids),
                seqlen_offset,
                optional_array(attn_mask),
                match r {
                    Ok(m) => Some(
                        Masks { near: held_array(m.0), far: held_array(m.1) },
                    ),
                    Err(_) => None,
                },
            ),
    {
        let ghost i = array(*ids);
        let ghost w = self@.windows;
        assert(i.dims[0] == b_size && i.dims[1] == seq_len && w.enabled == self.use_sliding_window);
        match attn_mask {
            Some(mask) => {
                let m = self.prepare_attention_mask(mask)?;
                Ok((Some(m.clone()), Some(m)))
            },
            None => {
                if seq_len <= 1 {
                    return Ok((None, None));
                }
                let near = self.prepare_causal_attention_mask(b_size, seq_len, seqlen_offset)?;
                if !self.use_sliding_window {
                    return Ok((Some(near.clone()), Some(near)));
                }
                let far = causal_mask(
                    self.dtype,
                    usize::MAX,
                    b_size,
                    seq_len,
                    seqlen_offset,
                    &self.device,
                )?;
                Ok((Some(near), Some(far)))
            },
        }
    }

    /// Runs through all layers.
    fn run_layers(
        &mut self,
        x: Tensor,
        near: Option<&Tensor>,
        far: Option<&Tensor>,
        seqlen_offset: usize,
        total_capacity: usize,
    ) -> (r: Result<Tensor, ModelError>)
        requires
            old(self).wf(),
            old(self).accepts(total_capacity),
        ensures
            final(self).wf(),
            final(self)@ == old(self)@.with_caches(caches_of(final(self)@.layers)),
            stack_result(
                old(self)@.layers,
                array(x),
                Run {
                    masks: Masks { near: optional_array(near), far: optional_array(far) },
                    windowed: old(self)@.windows.layers as int,
                    offset: seqlen_offset as int,
                    total_capacity,
                },
                caches_of(final(self)@.layers),
                outcome(r),
            ),
            r matches Ok(t) ==> tensor_dims(t) == tensor_dims(x),
    {
        let ghost before = self@.layers;
        let ghost run = Run {
            masks: Masks { near: optional_array(near), far: optional_array(far) },
            windowed: self.max_window_layers as int,
            offset: seqlen_offset as int,
            total_capacity,
        };
        let mut xs = x;
        let ghost mut hidden: Seq<Array> = seq![array(x)];
        let mut i: usize = 0;
        let n = self.layers.len();
        while i < n
            invariant
                i <= n,
                n == self.layers@.len(),
                n == before.len(),
                run == (Run {
                    masks: Masks { near: optional_array(near), far: optional_array(far) },
                    windowed: self.max_window_layers as int,
                    offset: seqlen_offset as int,
                    total_capacity,
                }),
                self.embed_tokens == old(self).embed_tokens,
                self.norm == old(self).norm,
                self.use_sliding_window == old(self).use_sliding_window,
                self.sliding_window == old(self).sliding_window,
                self.max_window_layers == old(self).max_window_layers,
                self.dtype == old(self).dtype,
                before == old(self)@.layers,
                old(self)@.wf(),
                hidden.len() == i + 1,
                hidden[0] == array(x),
                hidden[i as int] == array(xs),
                tensor_dims(xs) == tensor_dims(x),
                forall|j: int| 0 <= j < n ==> (#[trigger] self.layers@[j]).wf(),
                forall|j: int|
                    i <= j < n ==> (#[trigger] self.layers@[j]).self_attn.accepts(total_capacity),
                forall|j: int| i <= j < n ==> (#[trigger] self.layers@[j])@ == before[j],
                forall|j: int|
                    0 <= j < i ==> (#[trigger] self.layers@[j])@ == before[j].with_cache(
                        self.layers@[j]@.attn.cache,
                    ),
                forall|j: int|
                    0 <= j < i ==> #[trigger] took(
                        before,
                        run,
                        caches_of(layer_views(self.layers@)),
                        hidden,
                        j,
                    ),
            decreases n - i,
        {
            let ghost prior = self.layers@;
            let mask = if i < self.max_window_layers {
                near
            } else {
                far
            };
            let layer = &mut self.layers[i];
            let res = layer.forward(&xs, mask, seqlen_offset, total_capacity);
            assert(forall|j: int|
                0 <= j < n && j != i ==> #[trigger] self.layers@[j] == prior[j]);
            let ghost caches = caches_of(layer_views(self.layers@));
            assert forall|j: int| 0 <= j < i implies #[trigger] took(
                before,
                run,
                caches,
                hidden,
                j,
            ) by {
                assert(took(before, run, caches_of(layer_views(prior)), hidden, j));
            }
            match res {
                Ok(t) => {
                    xs = t;
                    proof {
                        let so_far = hidden;
                        hidden = hidden.push(array(t));
                        assert forall|j: int| 0 <= j <= i implies #[trigger] took(
                            before,
                            run,
                            caches,
                            hidden,
                            j,
                        ) by {
                            if j < i {
                                assert(took(before, run, caches, so_far, j));
                            }
                        }
                    }
                },
                Err(e) => {
                    proof {
                        self.lemma_frame(*old(self));
                        assert(passed(before, run, caches_of(self@.layers), hidden, i as int));
                    }
                    return Err(e);
                },
            }
            i += 1;
        }
        proof {
            self.lemma_frame(*old(self));
            assert(passed(before, run, caches_of(self@.layers), hidden, i as int));
        }
        Ok(xs)
    }

    /// A decoder in which only caches have changed.
    proof fn lemma_frame(&self, old_self: Model)
        requires
            self.embed_tokens == old_self.embed_tokens,
            self.norm == old_self.norm,
            self.use_sliding_window == old_self.use_sliding_window,
            self.sliding_window == old_self.sliding_window,
            self.max_window_layers == old_self.max_window_layers,
            self.dtype == old_self.dtype,
            self.layers@.len() == old_self.layers@.len(),
            forall|j: int|
                0 <= j < self.layers@.len() ==> (#[trigger] self.layers@[j])@
                    == old_self@.layers[j].with_cache(self.layers@[j]@.attn.cache),
        ensures
            self@ == old_self@.with_caches(caches_of(self@.layers)),
    {
        assert(self@.layers =~= with_caches(old_self@.layers, caches_of(self@.layers)));
    }

    /// Runs the decoder on tokens that start at position `seqlen_offset`. Where no
    /// mask is given, several tokens are masked causally. Tokens that the decoder is bound
    /// to work on give a result, unless the scores of a full cache cannot be compared.
    pub fn forward(
        &mut self,
        input_ids: &Tensor,
        seqlen_offset: usize,
        attn_mask: Option<&Tensor>,
        total_capacity: usize,
    ) -> (r: Result<Tensor, ModelError>)
        requires
            old(self).wf(),
            old(self).accepts(total_capacity),
        ensures
            final(self).wf(),
            final(self)@ == old(self)@.with_caches(caches_of(final(self)@.layers)),
            decode_result(
                old(self)@,
                array(*input_ids),
                seqlen_offset,
                optional_array(attn_mask),
                total_capacity,
                caches_of(final(self)@.layers),
                outcome(r),
            ),
            r matches Ok(t) ==> tensor_dims(t) == tensor_dims(*input_ids).push(
                old(self)@.features(),
            ),
            r is Ok ==> forall|i: int|
                0 <= i < tensor_elems(*input_ids).len() ==> #[trigger] knows(
                    old(self)@.embed.embeddings,
                    array(*input_ids),
                    i,
                ),
            attn_mask is None && model_owed(
                old(self)@,
                array(*input_ids),
                seqlen_offset,
                total_capacity,
            ) ==> r is Ok || (tensor_dims(*input_ids)[1] == 1 && stuck(
                old(self)@.layers,
                caches_of(final(self)@.layers),
            )),
    {
        let ghost m = self@;
        let r = self.decode(input_ids, seqlen_offset, attn_mask, total_capacity);
        proof {
            let ids = array(*input_ids);
            if attn_mask is None && model_owed(m, ids, seqlen_offset, total_capacity) {
                a_decoder_takes_what_agrees(
                    m,
                    ids,
                    seqlen_offset,
                    total_capacity,
                    caches_of(self@.layers),
                    outcome(r),
                );
            }
        }
        r
    }

    /// Runs the decoder on tokens that start at position `seqlen_offset`.
    fn decode(
        &mut self,
        input_ids: &Tensor,
        seqlen_offset: usize,
        attn_mask: Option<&Tensor>,
        total_capacity: usize,
    ) -> (r: Result<Tensor, ModelError>)
        requires
            old(self).wf(),
            old(self).accepts(total_capacity),
        ensures
            final(self).wf(),
            final(self)@ == old(self)@.with_caches(caches_of(final(self)@.layers)),
            decode_result(
                old(self)@,
                array(*input_ids),
                seqlen_offset,
                optional_array(attn_mask),
                total_capacity,
                caches_of(final(self)@.layers),
                outcome(r),
            ),
            r matches Ok(t) ==> tensor_dims(t) == tensor_dims(*input_ids).push(
                old(self)@.features(),
            ),
            r is Ok ==> forall|i: int|
                0 <= i < tensor_elems(*input_ids).len() ==> #[trigger] knows(
                    old(self)@.embed.embeddings,
                    array(*input_ids),
                    i,
                ),
    {
        let ghost m = self@;
        assert(m.dtype == self.dtype && m.windows == self@.windows && m.embed
            == self.embed_tokens@ && m.norm == self.norm@);
        proof {
            assert(m.layers =~= with_caches(m.layers, caches_of(m.layers)));
        }
        let (b_size, seq_len) = dims2(input_ids)?;
        let (near, far) = self.choose_masks(
            b_size,
            seq_len,
            seqlen_offset,
            attn_mask,
            input_ids,
        )?;
        let x = self.embed_tokens.forward(input_ids)?;
        let h = self.run_layers(x, near.as_ref(), far.as_ref(), seqlen_offset, total_capacity)?;
        self.norm.forward(&h)
    }

    /// Drops the caches of all layers.
    pub fn clear_kv_cache(&mut self)
        requires
            old(self).wf(),
        ensures
            final(self).wf(),
            final(self)@ == old(self)@.cleared(),
            forall|c: usize| usable(c) ==> #[trigger] final(self).accepts(c),
    {
        let mut i: usize = 0;
        let n = self.layers.len();
        while i < n
            invariant
                i <= n,
                n == self.layers@.len(),
                n == old(self).layers@.len(),
                self.embed_tokens == old(self).embed_tokens,
                self.norm == old(self).norm,
                self.use_sliding_window == old(self).use_sliding_window,
                self.sliding_window == old(self).sliding_window,
                self.max_window_layers == old(self).max_window_layers,
                self.dtype == old(self).dtype,
                old(self)@.wf(),
                forall|j: int| 0 <= j < n ==> (#[trigger] self.layers@[j]).wf(),
                forall|j: int|
                    0 <= j < i ==> (#[trigger] self.layers@[j]).self_attn.kv_cache is None,
                forall|j: int|
                    0 <= j < i ==> (#[trigger] self.layers@[j])@
                        == old(self).layers@[j]@.with_cache(None),
                forall|j: int| i <= j < n ==> #[trigger] self.layers@[j] == old(self).layers@[j],
            decreases n - i,
        {
            let ghost prior = self.layers@;
            let layer = &mut self.layers[i];
            layer.clear_kv_cache();
            assert(forall|j: int|
                0 <= j < n && j != i ==> #[trigger] self.layers@[j] == prior[j]);
            i += 1;
        }
        assert(self@.layers =~= old(self)@.cleared().layers);
    }
}

} // verus!
