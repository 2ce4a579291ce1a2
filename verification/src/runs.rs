//! What a whole generation is owed: a model that was just made serves a prompt, and then one
//! token after the other.

use crate::array::{Array, dims_3};
use crate::attention::AttentionView;
use crate::cache::{CacheView, keys_of, ready, scores_of};
use crate::config::Config;
use crate::language::{LanguageView, language_built, logits_result};
use crate::layers::lemma_last;
use crate::model::{caches_of, decode_result};
use crate::nn::knows;
use crate::number::is_nan;
use crate::retention::contents;
use crate::success::{
    a_built_model_agrees, a_decoder_takes_a_given_mask, a_decoder_takes_what_agrees,
    a_language_model_takes_what_agrees, a_new_model_takes_a_prompt, attention_agrees,
    attention_owed, cache_agrees, divides, entry_agrees, grown, language_owed, layer_agrees,
    layer_owed, model_agrees, model_owed, outline, positions, stuck, unready,
};
use crate::tensor::{lemma_lead_nonnegative, lemma_matrix_fits};
use crate::weights::WeightsView;
use candle_core::DType;
use vstd::prelude::*;

verus! {

/// A generation: the tokens of each step, what came out of it, and the model before the
/// first step and after each.
pub struct History {
    pub ids: Seq<Array>,
    pub logits: Seq<Option<Array>>,
    pub states: Seq<LanguageView>,
}

impl History {
    /// The position at which step `t` begins. The prompt comes first, then single tokens.
    pub open spec fn start(self, t: int) -> int {
        if t == 0 {
            0
        } else {
            self.ids[0].dims[1] + t - 1
        }
    }

    /// The number of positions that there are in the end.
    pub open spec fn length(self) -> int {
        self.ids[0].dims[1] + self.ids.len() - 1
    }
}

/// Whether step `t` of a generation ran the model on its tokens.
pub open spec fn ran(h: History, total_capacity: usize, t: int) -> bool {
    &&& logits_result(
        h.states[t],
        h.ids[t],
        h.start(t) as usize,
        total_capacity,
        caches_of(h.states[t + 1].base.layers),
        h.logits[t],
    )
    &&& h.states[t + 1] == h.states[t].with_caches(caches_of(h.states[t + 1].base.layers))
}

/// Whether there are two or more heavy hitters, and the score of one is no number.
pub open spec fn confused(cache: Option<CacheView>) -> bool {
    cache matches Some(c) && c.heavy.len() >= 2 && exists|j: int|
        0 <= j < c.heavy.len() && is_nan(#[trigger] c.heavy[j].score)
}

/// Whether the heavy hitters of some layer cannot be compared with one another.
pub open spec fn unordered(m: LanguageView) -> bool {
    exists|i: int|
        0 <= i < m.base.layers.len() && confused((#[trigger] m.base.layers[i]).attn.cache)
}

/// Whether the sizes of a configuration go together: heads share the features evenly, key
/// heads serve as many query heads each, and the features of a head come in pairs.
pub open spec fn fits_together(cfg: Config) -> bool {
    &&& 0 < cfg.num_attention_heads <= i64::MAX
    &&& 0 < cfg.hidden_size <= i64::MAX
    &&& cfg.num_key_value_heads > 0
    &&& cfg.intermediate_size > 0
    &&& cfg.vocab_size > 0
    &&& cfg.hidden_size % cfg.num_attention_heads == 0
    &&& cfg.num_attention_heads % cfg.num_key_value_heads == 0
    &&& (cfg.hidden_size / cfg.num_attention_heads) % 2 == 0
    &&& !(cfg.hidden_act is Swiglu)
    &&& cfg.vocab_size * cfg.hidden_size <= usize::MAX
}

/// Whether a generation gives a model nothing but known tokens, first a prompt and then single
/// tokens for each member of a batch, at positions that the model has, and with sizes that
/// fit in a machine word.
pub open spec fn within_bounds(cfg: Config, h: History) -> bool {
    let (b, n) = (h.ids[0].dims[0], h.length());
    &&& h.ids.len() > 0
    &&& h.ids[0].dims.len() == 2
    &&& b > 0 && h.ids[0].dims[1] > 0
    &&& forall|t: int|
        0 < t < h.ids.len() ==> (#[trigger] h.ids[t]).dims == seq![h.ids[0].dims[0], 1usize]
    &&& forall|t: int| 0 <= t < h.ids.len() ==> (#[trigger] h.ids[t]).dtype == DType::U32
    &&& forall|t: int, e: int|
        0 <= t < h.ids.len() && 0 <= e < h.ids[t].elems.len() ==> #[trigger] h.ids[t].elems[e]
            < cfg.vocab_size
    &&& n <= cfg.max_position_embeddings
    &&& (b * n) * cfg.hidden_size <= usize::MAX
    &&& (b * n) * cfg.intermediate_size <= usize::MAX
    &&& ((b * cfg.num_attention_heads) * n) * n <= usize::MAX
    &&& b * cfg.vocab_size <= usize::MAX
}

/// What follows from sizes that go together.
proof fn lemma_goes_together(cfg: Config)
    requires
        fits_together(cfg),
    ensures
        divides(cfg),
        cfg.hidden_size == cfg.num_attention_heads * cfg.head_dim(),
{
    let (h, n, g) = (
        cfg.hidden_size as int,
        cfg.num_attention_heads as int,
        cfg.num_key_value_heads as int,
    );
    vstd::arithmetic::div_mod::lemma_fundamental_div_mod(h, n);
    vstd::arithmetic::div_mod::lemma_fundamental_div_mod(n, g);
    assert(g <= n) by (nonlinear_arith)
        requires
            n == g * (n / g),
            n > 0,
            g > 0,
    ;
    assert(g * (h / n) <= h) by (nonlinear_arith)
        requires
            h == n * (h / n),
            0 < g <= n,
            h > 0,
            n > 0,
    ;
}

/// Sizes for fewer positions fit where those for more do.
proof fn lemma_fewer(b: int, p: int, n: int, heads: int, d: int, hidden: int, wide: int)
    requires
        b >= 0 && heads >= 0 && d >= 0 && wide >= 0,
        1 <= p <= n,
        hidden == heads * d,
        (b * n) * hidden <= usize::MAX,
        (b * n) * wide <= usize::MAX,
        ((b * heads) * n) * n <= usize::MAX,
    ensures
        ((b * heads) * p) * d <= usize::MAX,
        ((b * heads) * 1) * p <= usize::MAX,
        (b * 1) * hidden <= usize::MAX,
        (b * 1) * wide <= usize::MAX,
        (b * p) * hidden <= usize::MAX,
        (b * p) * wide <= usize::MAX,
        ((b * heads) * p) * p <= usize::MAX,
{
    assert(((b * heads) * p) * d == (b * p) * (heads * d)) by (nonlinear_arith);
    assert(b * p <= b * n && b * 1 <= b * n) by (nonlinear_arith)
        requires
            1 <= p <= n,
            b >= 0,
    ;
    assert(hidden >= 0) by (nonlinear_arith)
        requires
            hidden == heads * d,
            heads >= 0,
            d >= 0,
    ;
    lemma_times(b * p, b * n, hidden);
    lemma_times(b * 1, b * n, hidden);
    lemma_times(b * p, b * n, wide);
    lemma_times(b * 1, b * n, wide);
    let c = b * heads;
    assert(c >= 0) by (nonlinear_arith)
        requires
            c == b * heads,
            b >= 0,
            heads >= 0,
    ;
    assert((c * p) * p <= (c * n) * n && (c * 1) * p <= (c * n) * n) by (nonlinear_arith)
        requires
            1 <= p <= n,
            c >= 0,
    ;
}

/// A product grows with a factor.
proof fn lemma_times(x: int, y: int, z: int)
    requires
        x <= y,
        z >= 0,
    ensures
        x * z <= y * z,
{
    assert(x * z <= y * z) by (nonlinear_arith)
        requires
            x <= y,
            z >= 0,
    ;
}

/// Whether the model after `t` steps of a generation is the one it began with, but for caches
/// that agree with it and hold no more than the positions so far.
spec fn kept(m: LanguageView, n: LanguageView, b: usize, held: int) -> bool {
    &&& n == m.with_caches(caches_of(n.base.layers))
    &&& forall|i: int|
        0 <= i < m.base.layers.len() ==> {
            &&& (#[trigger] n.base.layers[i]).attn.cache is Some
            &&& cache_agrees(
                n.base.layers[i].attn.cache->Some_0,
                m.base.layers[i].attn,
                m.base.dtype,
                b,
            )
            &&& positions(n.base.layers[i].attn.cache->Some_0) <= held
        }
}

/// Whether the least heavy hitter can be told in every layer that has no room left.
pub open spec fn ordered(m: LanguageView) -> bool {
    forall|i: int|
        0 <= i < m.base.layers.len() ==> {
            let cache = (#[trigger] m.base.layers[i]).attn.cache;
            cache matches Some(c) ==> c.recent.len() < c.recent_capacity || c.heavy.len()
                < c.heavy_capacity || c.heavy.len() < 2 || forall|j: int|
                0 <= j < c.heavy.len() ==> !is_nan(#[trigger] c.heavy[j].score)
        }
}

/// A later step of a generation is owed a result.
proof fn lemma_step_is_owed(
    cfg: Config,
    w: WeightsView,
    h: History,
    total_capacity: usize,
    t: int,
)
    requires
        language_built(cfg, w, Some(h.states[0])),
        fits_together(cfg),
        w.dtype == DType::F16 || w.dtype == DType::F32,
        within_bounds(cfg, h),
        0 < t < h.ids.len(),
        kept(h.states[0], h.states[t], h.ids[0].dims[0], h.start(t)),
        ordered(h.states[t]),
    ensures
        language_owed(h.states[t], h.ids[t], h.start(t) as usize, total_capacity),
{
    let (m, n, ids) = (h.states[0], h.states[t], h.ids[t]);
    let (b, hidden) = (h.ids[0].dims[0], cfg.hidden_size);
    lemma_goes_together(cfg);
    lemma_matrix_fits(cfg.vocab_size, hidden);
    a_built_model_agrees(cfg, w, m);
    let x = outline(m.base.dtype, dims_3(b, 1, hidden));
    assert(n.base.embed == m.base.embed && n.base.dtype == m.base.dtype);
    assert forall|i: int| 0 <= i < n.base.layers.len() implies {
        &&& layer_agrees(#[trigger] n.base.layers[i], w.dtype)
        &&& n.base.layers[i].attn.hidden_size == hidden
        &&& layer_owed(n.base.layers[i], x, h.start(t), total_capacity)
        &&& n.base.layers[i].attn.cache matches Some(c) ==> ready(c)
    } by {
        let (l, k) = (m.base.layers[i], n.base.layers[i]);
        assert(k == l.with_cache(k.attn.cache));
        assert(layer_agrees(l, w.dtype));
        assert(attention_agrees(k.attn, w.dtype));
        let c = k.attn.cache->Some_0;
        lemma_still_agrees(c, l.attn, k.attn, w.dtype, b);
        lemma_lead_nonnegative(keys_of(contents(c)), 2, contents(c).len() as int);
        lemma_fewer(
            b as int,
            positions(c) + 1,
            h.length(),
            k.attn.num_heads as int,
            k.attn.head_dim as int,
            hidden as int,
            cfg.intermediate_size as int,
        );
        assert(attention_owed(k.attn, x, h.start(t), total_capacity));
        let scores = scores_of(c.heavy);
        assert(forall|j: int| 0 <= j < c.heavy.len() ==> scores[j] == #[trigger] c.heavy[j].score);
    }
    assert(model_agrees(n.base));
    assert forall|e: int| 0 <= e < ids.elems.len() implies #[trigger] knows(
        n.base.embed.embeddings,
        ids,
        e,
    ) by {
        assert(h.ids[t].elems[e] < cfg.vocab_size);
    }
    lemma_fewer(
        b as int,
        1,
        h.length(),
        cfg.num_attention_heads as int,
        cfg.head_dim() as int,
        hidden as int,
        cfg.intermediate_size as int,
    );
    assert(model_owed(n.base, ids, h.start(t) as usize, total_capacity));
}

/// The first step of a generation is owed a result.
proof fn lemma_prompt_is_owed(cfg: Config, w: WeightsView, h: History, total_capacity: usize)
    requires
        language_built(cfg, w, Some(h.states[0])),
        fits_together(cfg),
        w.dtype == DType::F16 || w.dtype == DType::F32,
        2 <= total_capacity && 6 * total_capacity <= usize::MAX,
        within_bounds(cfg, h),
    ensures
        language_owed(h.states[0], h.ids[0], 0, total_capacity),
{
    let (m, ids) = (h.states[0], h.ids[0]);
    let (b, s, hidden) = (ids.dims[0], ids.dims[1], cfg.hidden_size);
    lemma_goes_together(cfg);
    lemma_matrix_fits(cfg.vocab_size, hidden);
    a_built_model_agrees(cfg, w, m);
    lemma_fewer(
        b as int,
        s as int,
        h.length(),
        cfg.num_attention_heads as int,
        cfg.head_dim() as int,
        hidden as int,
        cfg.intermediate_size as int,
    );
    assert(m.base.embed.embeddings.dims[0] == cfg.vocab_size);
    assert forall|e: int| 0 <= e < ids.elems.len() implies #[trigger] knows(
        m.base.embed.embeddings,
        ids,
        e,
    ) by {
        assert(h.ids[0].elems[e] < cfg.vocab_size);
    }
    a_new_model_takes_a_prompt(cfg, w, m, ids, total_capacity);
}

/// The model after each step of a generation that has gone well so far.
proof fn lemma_kept(cfg: Config, w: WeightsView, h: History, total_capacity: usize, t: int)
    requires
        language_built(cfg, w, Some(h.states[0])),
        fits_together(cfg),
        w.dtype == DType::F16 || w.dtype == DType::F32,
        2 <= total_capacity && 6 * total_capacity <= usize::MAX,
        within_bounds(cfg, h),
        0 < t <= h.ids.len(),
        forall|u: int| 0 <= u < t ==> #[trigger] ran(h, total_capacity, u),
        forall|u: int| 0 <= u < t ==> (#[trigger] h.logits[u]) is Some,
        forall|u: int| 0 <= u < t ==> ordered(#[trigger] h.states[u]),
    ensures
        kept(h.states[0], h.states[t], h.ids[0].dims[0], h.ids[0].dims[1] + t - 1),
    decreases t,
{
    let (m, b) = (h.states[0], h.ids[0].dims[0]);
    let u = t - 1;
    let (before, after, ids) = (h.states[u], h.states[t], h.ids[u]);
    assert(ran(h, total_capacity, u));
    assert(h.logits[u] is Some && ordered(h.states[u]));
    if u == 0 {
        lemma_prompt_is_owed(cfg, w, h, total_capacity);
    } else {
        lemma_kept(cfg, w, h, total_capacity, u);
        lemma_step_is_owed(cfg, w, h, total_capacity, u);
    }
    let caches = caches_of(after.base.layers);
    lemma_run_grows(
        before,
        ids,
        h.start(u) as usize,
        total_capacity,
        caches,
        h.logits[u]->Some_0,
    );
    lemma_goes_together(cfg);
    lemma_matrix_fits(cfg.vocab_size, cfg.hidden_size);
    a_built_model_agrees(cfg, w, m);
    assert(after.base.layers =~= m.with_caches(caches).base.layers);
    assert(after == m.with_caches(caches));
    assert forall|i: int| 0 <= i < m.base.layers.len() implies {
        &&& (#[trigger] after.base.layers[i]).attn.cache is Some
        &&& cache_agrees(
            after.base.layers[i].attn.cache->Some_0,
            m.base.layers[i].attn,
            m.base.dtype,
            b,
        )
        &&& positions(after.base.layers[i].attn.cache->Some_0) <= h.ids[0].dims[1] + t - 1
    } by {
        let (l, k) = (m.base.layers[i], before.base.layers[i]);
        assert(l.attn.cache is None);
        assert(u > 0 ==> k.attn.cache is Some);
        assert(grown(caches[i], k.attn, before.base.dtype, b, ids.dims[1] as int));
        lemma_still_agrees(caches[i]->Some_0, k.attn, l.attn, m.base.dtype, b);
    }
}

/// What a cache agrees with depends on the heads alone.
proof fn lemma_still_agrees(
    c: CacheView,
    a: AttentionView,
    n: AttentionView,
    dtype: DType,
    b: usize,
)
    requires
        cache_agrees(c, a, dtype, b),
        n.num_kv_heads == a.num_kv_heads,
        n.head_dim == a.head_dim,
    ensures
        cache_agrees(c, n, dtype, b),
{
    assert forall|p: int| 0 <= p < contents(c).len() implies entry_agrees(
        #[trigger] contents(c)[p],
        n,
        dtype,
        b,
    ) by {
        assert(entry_agrees(contents(c)[p], a, dtype, b));
    }
}

/// What a run leaves in the caches.
proof fn lemma_run_grows(
    m: LanguageView,
    ids: Array,
    offset: usize,
    total_capacity: usize,
    caches: Seq<Option<CacheView>>,
    out: Array,
)
    requires
        logits_result(m, ids, offset, total_capacity, caches, Some(out)),
        language_owed(m, ids, offset, total_capacity),
    ensures
        forall|i: int|
            0 <= i < m.base.layers.len() ==> grown(
                #[trigger] caches[i],
                m.base.layers[i].attn,
                m.base.dtype,
                ids.dims[0],
                ids.dims[1] as int,
            ),
{
    let (f, _) = lemma_last(m, ids, offset, total_capacity, caches, out);
    a_decoder_takes_what_agrees(m.base, ids, offset, total_capacity, caches, Some(f));
}

/// A model that was made from its weights serves a whole generation. The prompt gives
/// logits over the vocabulary for each member of the batch, and so does each token after it,
/// as long as the model has positions left and the scores of its heavy hitters are numbers.
pub proof fn a_generation_is_served(
    cfg: Config,
    w: WeightsView,
    h: History,
    total_capacity: usize,
    t: int,
)
    requires
        language_built(cfg, w, Some(h.states[0])),
        fits_together(cfg),
        w.dtype == DType::F16 || w.dtype == DType::F32,
        2 <= total_capacity && 6 * total_capacity <= usize::MAX,
        within_bounds(cfg, h),
        0 <= t < h.ids.len(),
        forall|u: int| 0 <= u <= t ==> #[trigger] ran(h, total_capacity, u),
        forall|u: int| 0 <= u < t ==> (#[trigger] h.logits[u]) is Some,
        forall|u: int| 0 <= u <= t ==> ordered(#[trigger] h.states[u]),
    ensures
        match h.logits[t] {
            Some(a) => a.dtype == w.dtype && a.dims == seq![
                h.ids[0].dims[0],
                1usize,
                cfg.vocab_size,
            ],
            None => t > 0 && unordered(h.states[t + 1]),
        },
{
    let (m, n, ids) = (h.states[0], h.states[t], h.ids[t]);
    if t == 0 {
        lemma_prompt_is_owed(cfg, w, h, total_capacity);
    } else {
        lemma_kept(cfg, w, h, total_capacity, t);
        assert(ordered(h.states[t]));
        lemma_step_is_owed(cfg, w, h, total_capacity, t);
    }
    assert(ran(h, total_capacity, t));
    let after = h.states[t + 1];
    let caches = caches_of(after.base.layers);
    a_language_model_takes_what_agrees(
        n,
        ids,
        h.start(t) as usize,
        total_capacity,
        caches,
        h.logits[t],
    );
    lemma_goes_together(cfg);
    lemma_matrix_fits(cfg.vocab_size, cfg.hidden_size);
    a_built_model_agrees(cfg, w, m);
    assert(n.head == m.head && n.base.dtype == m.base.dtype);
    assert(m.head.width() == cfg.vocab_size);
    if h.logits[t] is None {
        let i = choose|i: int|
            0 <= i < n.base.layers.len() && #[trigger] unready(caches[i]);
        let c = caches[i]->Some_0;
        let scores = scores_of(c.heavy);
        let j = choose|j: int| 0 <= j < scores.len() && is_nan(#[trigger] scores[j]);
        assert(after.base.layers[i].attn.cache == caches[i]);
        assert(is_nan(c.heavy[j].score));
        assert(confused(after.base.layers[i].attn.cache));
        if t == 0 {
            assert(m.base.layers[i].attn.cache is None);
            assert(stuck(m.base.layers, caches));
        }
    } else {
        assert(h.logits[t]->Some_0.dims =~= seq![h.ids[0].dims[0], 1usize, cfg.vocab_size]);
    }
}

/// A model that was made from its weights takes a prompt of several tokens under a mask that
/// marks the positions to be seen, one row for each member of the batch.
pub proof fn a_prompt_is_decoded_under_a_given_mask(
    cfg: Config,
    w: WeightsView,
    m: LanguageView,
    ids: Array,
    a: Array,
    total_capacity: usize,
    caches: Seq<Option<CacheView>>,
    out: Option<Array>,
)
    requires
        language_built(cfg, w, Some(m)),
        decode_result(m.base, ids, 0, Some(a), total_capacity, caches, out),
        fits_together(cfg),
        w.dtype == DType::F16 || w.dtype == DType::F32,
        2 <= total_capacity && 6 * total_capacity <= usize::MAX,
        within_bounds(
            cfg,
            History { ids: seq![ids], logits: seq![None], states: seq![m, m] },
        ),
        ids.dims[1] > 1,
        a.dtype == DType::U8 || a.dtype == DType::U32 || a.dtype == DType::I64,
        a.dims == ids.dims,
    ensures
        out matches Some(t) && t.dtype == w.dtype && t.dims == seq![
            ids.dims[0],
            ids.dims[1],
            cfg.hidden_size,
        ],
{
    let h = History { ids: seq![ids], logits: seq![None], states: seq![m, m] };
    assert(h.states[0] == m && h.ids[0] == ids);
    lemma_prompt_is_owed(cfg, w, h, total_capacity);
    a_decoder_takes_a_given_mask(m.base, ids, a, total_capacity, caches, out);
    lemma_goes_together(cfg);
    lemma_matrix_fits(cfg.vocab_size, cfg.hidden_size);
    a_built_model_agrees(cfg, w, m);
    assert(out->Some_0.dims =~= seq![ids.dims[0], ids.dims[1], cfg.hidden_size]);
}

} // verus!
