//! Which weights a model is made of, by their full names.

use crate::array::{
    Array, addressable, arange, dims_2, multiplies, product_fits, product_owed, reshape_result,
    scalar, storable,
};
use crate::attention::attention_built;
use crate::config::Config;
use crate::decoder::{LayerView, layer_built};
use crate::language::{LanguageView, head_built, language_built};
use crate::mlp::mlp_built;
use crate::model::{ModelView, layers_built, model_built};
use crate::nn::{EmbeddingView, NormView};
use crate::number::number_result;
use crate::rotary::{
    RotaryView, angles_result, frequencies_result, frequency_result, inverse_power_result,
    lemma_counts_of_column, rotary_result, row_of,
};
use crate::tensor::{
    array, cast_outcome, cast_result, cos_result, div_result, lemma_matrix_fits,
    lemma_one_size_fits, matmul_result, power_result, recip_result, sin_result,
};
use crate::weights::{WeightsView, decimal, table_of};
use candle_core::{DType, Tensor};
use vstd::prelude::*;

verus! {

/// Whether `a` is the array under this name, in the element type of the weights. It has
/// these dimensions.
pub open spec fn held(w: WeightsView, name: Seq<char>, dims: Seq<usize>, a: Array) -> bool {
    let found = w.table[w.prefix + name];
    &&& w.table.contains_key(w.prefix + name)
    &&& found.dims == dims && a.dims == dims
    &&& a.dtype == w.dtype
    &&& a.elems.len() == found.elems.len()
    &&& found.dtype == w.dtype ==> a == found
    &&& found.dtype != w.dtype ==> forall|i: int|
        0 <= i < a.elems.len() ==> cast_outcome(
            found.dtype,
            w.dtype,
            found.elems[i],
            #[trigger] a.elems[i],
        )
}

/// Whether the attention of a layer is the one under this name. Its queries have the heads of
/// the configuration, and its keys and values have their own number of them. All heads have
/// as many features as there are to each head of the queries.
pub open spec fn attention_held(
    cfg: Config,
    w: WeightsView,
    place: Seq<char>,
    l: LayerView,
) -> bool {
    let (a, h) = (l.attn, cfg.hidden_size);
    let d = cfg.hidden_size / cfg.num_attention_heads;
    let q = (cfg.num_attention_heads * d) as usize;
    let kv = (cfg.num_key_value_heads * d) as usize;
    &&& held(w, place + ".self_attn.q_proj.weight"@, seq![q, h], a.q.weight)
    &&& held(w, place + ".self_attn.k_proj.weight"@, seq![kv, h], a.k.weight)
    &&& held(w, place + ".self_attn.v_proj.weight"@, seq![kv, h], a.v.weight)
    &&& held(w, place + ".self_attn.o_proj.weight"@, seq![h, q], a.o.weight)
    &&& a.q.bias is Some && held(w, place + ".self_attn.q_proj.bias"@, seq![q], a.q.bias->Some_0)
    &&& a.k.bias is Some && held(w, place + ".self_attn.k_proj.bias"@, seq![kv], a.k.bias->Some_0)
    &&& a.v.bias is Some && held(w, place + ".self_attn.v_proj.bias"@, seq![kv], a.v.bias->Some_0)
    &&& a.o.bias is None
    &&& a.num_heads == cfg.num_attention_heads
    &&& a.num_kv_heads == cfg.num_key_value_heads
    &&& a.num_kv_groups == cfg.num_attention_heads / cfg.num_key_value_heads
    &&& a.head_dim == d
    &&& a.hidden_size == h
    &&& a.cache is None
}

/// Whether the block and the normalisations of a layer are those under this name.
pub open spec fn block_held(cfg: Config, w: WeightsView, place: Seq<char>, l: LayerView) -> bool {
    let (h, i) = (cfg.hidden_size, cfg.intermediate_size);
    &&& held(w, place + ".mlp.gate_proj.weight"@, seq![i, h], l.mlp.gate.weight)
    &&& held(w, place + ".mlp.up_proj.weight"@, seq![i, h], l.mlp.up.weight)
    &&& held(w, place + ".mlp.down_proj.weight"@, seq![h, i], l.mlp.down.weight)
    &&& l.mlp.gate.bias is None && l.mlp.up.bias is None && l.mlp.down.bias is None
    &&& l.mlp.act == cfg.hidden_act
    &&& held(w, place + ".input_layernorm.weight"@, seq![h], l.input_norm.weight)
    &&& held(w, place + ".post_attention_layernorm.weight"@, seq![h], l.post_norm.weight)
    &&& l.input_norm.eps == cfg.rms_norm_eps
    &&& l.post_norm.eps == cfg.rms_norm_eps
}

/// A name below two others.
proof fn lemma_below(
    p: Seq<char>,
    place: Seq<char>,
    a: Seq<char>,
    b: Seq<char>,
    c: Seq<char>,
    name: Seq<char>,
)
    requires
        name =~= seq!['.'] + a + seq!['.'] + b + seq!['.'] + c,
    ensures
        ((p + place + seq!['.']) + a + seq!['.']) + b + seq!['.'] + c == p + (place + name),
{
    assert(((p + place + seq!['.']) + a + seq!['.']) + b + seq!['.'] + c =~= p + (place + name));
}

/// A name below one other.
proof fn lemma_just_below(
    p: Seq<char>,
    place: Seq<char>,
    a: Seq<char>,
    b: Seq<char>,
    name: Seq<char>,
)
    requires
        name =~= seq!['.'] + a + seq!['.'] + b,
    ensures
        (p + place + seq!['.']) + a + seq!['.'] + b == p + (place + name),
{
    assert((p + place + seq!['.']) + a + seq!['.'] + b =~= p + (place + name));
}

/// Two names in one.
proof fn lemma_joined_names(p: Seq<char>, a: Seq<char>, b: Seq<char>, name: Seq<char>)
    requires
        name =~= a + seq!['.'] + b,
    ensures
        p + a + seq!['.'] + b == p + name,
{
    assert(p + a + seq!['.'] + b =~= p + name);
}

/// The names of the attention of a layer.
proof fn lemma_attention_names(p: Seq<char>, place: Seq<char>)
    ensures
        ({
            let at = (p + place + seq!['.']) + "self_attn"@ + seq!['.'];
            let dot = seq!['.'];
            &&& at + "q_proj"@ + dot + "weight"@ == p + (place + ".self_attn.q_proj.weight"@)
            &&& at + "k_proj"@ + dot + "weight"@ == p + (place + ".self_attn.k_proj.weight"@)
            &&& at + "v_proj"@ + dot + "weight"@ == p + (place + ".self_attn.v_proj.weight"@)
            &&& at + "o_proj"@ + dot + "weight"@ == p + (place + ".self_attn.o_proj.weight"@)
            &&& at + "q_proj"@ + dot + "bias"@ == p + (place + ".self_attn.q_proj.bias"@)
            &&& at + "k_proj"@ + dot + "bias"@ == p + (place + ".self_attn.k_proj.bias"@)
            &&& at + "v_proj"@ + dot + "bias"@ == p + (place + ".self_attn.v_proj.bias"@)
        }),
{
    reveal_strlit("self_attn");
    reveal_strlit("q_proj");
    reveal_strlit("k_proj");
    reveal_strlit("v_proj");
    reveal_strlit("o_proj");
    reveal_strlit("weight");
    reveal_strlit("bias");
    reveal_strlit(".self_attn.q_proj.weight");
    reveal_strlit(".self_attn.k_proj.weight");
    reveal_strlit(".self_attn.v_proj.weight");
    reveal_strlit(".self_attn.o_proj.weight");
    reveal_strlit(".self_attn.q_proj.bias");
    reveal_strlit(".self_attn.k_proj.bias");
    reveal_strlit(".self_attn.v_proj.bias");
    let s = "self_attn"@;
    lemma_below(p, place, s, "q_proj"@, "weight"@, ".self_attn.q_proj.weight"@);
    lemma_below(p, place, s, "k_proj"@, "weight"@, ".self_attn.k_proj.weight"@);
    lemma_below(p, place, s, "v_proj"@, "weight"@, ".self_attn.v_proj.weight"@);
    lemma_below(p, place, s, "o_proj"@, "weight"@, ".self_attn.o_proj.weight"@);
    lemma_below(p, place, s, "q_proj"@, "bias"@, ".self_attn.q_proj.bias"@);
    lemma_below(p, place, s, "k_proj"@, "bias"@, ".self_attn.k_proj.bias"@);
    lemma_below(p, place, s, "v_proj"@, "bias"@, ".self_attn.v_proj.bias"@);
}

/// The names of the block and the normalisations of a layer.
proof fn lemma_block_names(p: Seq<char>, place: Seq<char>)
    ensures
        ({
            let (at, dot) = (p + place + seq!['.'], seq!['.']);
            let (mlp, weight) = (at + "mlp"@ + dot, "weight"@);
            &&& mlp + "gate_proj"@ + dot + weight == p + (place + ".mlp.gate_proj.weight"@)
            &&& mlp + "up_proj"@ + dot + weight == p + (place + ".mlp.up_proj.weight"@)
            &&& mlp + "down_proj"@ + dot + weight == p + (place + ".mlp.down_proj.weight"@)
            &&& at + "input_layernorm"@ + dot + weight == p + (place + ".input_layernorm.weight"@)
            &&& at + "post_attention_layernorm"@ + dot + weight == p + (place
                + ".post_attention_layernorm.weight"@)
        }),
{
    reveal_strlit("mlp");
    reveal_strlit("gate_proj");
    reveal_strlit("up_proj");
    reveal_strlit("down_proj");
    reveal_strlit("weight");
    reveal_strlit("input_layernorm");
    reveal_strlit("post_attention_layernorm");
    reveal_strlit(".mlp.gate_proj.weight");
    reveal_strlit(".mlp.up_proj.weight");
    reveal_strlit(".mlp.down_proj.weight");
    reveal_strlit(".input_layernorm.weight");
    reveal_strlit(".post_attention_layernorm.weight");
    let weight = "weight"@;
    lemma_below(p, place, "mlp"@, "gate_proj"@, weight, ".mlp.gate_proj.weight"@);
    lemma_below(p, place, "mlp"@, "up_proj"@, weight, ".mlp.up_proj.weight"@);
    lemma_below(p, place, "mlp"@, "down_proj"@, weight, ".mlp.down_proj.weight"@);
    lemma_just_below(p, place, "input_layernorm"@, weight, ".input_layernorm.weight"@);
    lemma_just_below(
        p,
        place,
        "post_attention_layernorm"@,
        weight,
        ".post_attention_layernorm.weight"@,
    );
}

/// The names of a decoder and of its projection.
proof fn lemma_model_names(p: Seq<char>, number: Seq<char>)
    ensures
        ({
            let dot = seq!['.'];
            let model = p + "model"@ + dot;
            &&& model + "embed_tokens"@ + dot + "weight"@ == p + "model.embed_tokens.weight"@
            &&& model + "norm"@ + dot + "weight"@ == p + "model.norm.weight"@
            &&& p + "lm_head"@ + dot + "weight"@ == p + "lm_head.weight"@
            &&& model + "layers"@ + dot + number == p + ("model.layers."@ + number)
        }),
{
    reveal_strlit("model");
    reveal_strlit("embed_tokens");
    reveal_strlit("norm");
    reveal_strlit("lm_head");
    reveal_strlit("layers");
    reveal_strlit("weight");
    reveal_strlit("model.embed_tokens.weight");
    reveal_strlit("model.norm.weight");
    reveal_strlit("lm_head.weight");
    reveal_strlit("model.layers.");
    let (model, dot) = ("model"@, seq!['.']);
    let place = p + model + dot;
    assert("model.embed_tokens.weight"@ =~= model + dot + "embed_tokens"@ + dot + "weight"@);
    assert("model.norm.weight"@ =~= model + dot + "norm"@ + dot + "weight"@);
    assert("lm_head.weight"@ =~= "lm_head"@ + dot + "weight"@);
    assert("model.layers."@ =~= model + dot + "layers"@ + dot);
    assert(place + "embed_tokens"@ + dot + "weight"@ =~= p + (model + dot + "embed_tokens"@ + dot
        + "weight"@));
    assert(place + "norm"@ + dot + "weight"@ =~= p + (model + dot + "norm"@ + dot + "weight"@));
    lemma_joined_names(p, "lm_head"@, "weight"@, "lm_head.weight"@);
    assert(place + "layers"@ + dot + number =~= p + ((model + dot + "layers"@ + dot) + number));
}

/// A decoder is made of the weights under its names, and each layer of those under its own
/// number. All layers share the angles of one rotary embedding, whose heads have as many
/// features as there are to each head of the queries.
pub proof fn a_decoder_is_made_of_the_weights_of_its_names(
    cfg: Config,
    w: WeightsView,
    m: ModelView,
    i: int,
)
    requires
        model_built(cfg, w, Some(m)),
        cfg.num_attention_heads > 0,
        0 <= i < cfg.num_hidden_layers,
    ensures
        held(
            w,
            "model.embed_tokens.weight"@,
            seq![cfg.vocab_size, cfg.hidden_size],
            m.embed.embeddings,
        ),
        m.embed.hidden_size == cfg.hidden_size,
        held(w, "model.norm.weight"@, seq![cfg.hidden_size], m.norm.weight),
        m.norm.eps == cfg.rms_norm_eps,
        m.windows.enabled == cfg.use_sliding_window,
        m.windows.reach == cfg.sliding_window,
        m.windows.layers == cfg.max_window_layers,
        m.dtype == w.dtype,
        m.layers.len() == cfg.num_hidden_layers,
        attention_held(cfg, w, "model.layers."@ + decimal(i as nat), m.layers[i]),
        block_held(cfg, w, "model.layers."@ + decimal(i as nat), m.layers[i]),
        rotary_result(
            w.dtype,
            cfg.rope_theta,
            (cfg.hidden_size / cfg.num_attention_heads) as int,
            cfg.max_position_embeddings,
            Some(m.layers[i].attn.rotary),
        ),
{
    let below = w.under("model"@);
    let e = choose|e: EmbeddingView| #[trigger]
        below.under("embed_tokens"@).embedding_result(cfg.vocab_size, cfg.hidden_size, Some(e))
            && m.embed == e;
    let n = choose|n: NormView| #[trigger]
        below.under("norm"@).rms_norm_result(cfg.hidden_size, cfg.rms_norm_eps, Some(n)) && m.norm
            == n;
    let r = choose|r: RotaryView| #[trigger]
        rotary_result(
            w.dtype,
            cfg.rope_theta,
            cfg.head_dim() as int,
            cfg.max_position_embeddings,
            Some(r),
        ) && layers_built(r, cfg, below.under("layers"@), Some(m.layers));
    let l = m.layers[i];
    let number = decimal(i as nat);
    let place = "model.layers."@ + number;
    let at = below.under("layers"@).under(number);
    assert(layer_built(r, cfg, at, Some(l)));
    assert(attention_built(r, cfg, at.under("self_attn"@), Some(l.attn)));
    lemma_model_names(w.prefix, number);
    assert(at.prefix =~= w.prefix + place + seq!['.']);
    lemma_attention_names(w.prefix, place);
    assert(attention_held(cfg, w, place, l));
    lemma_block_names(w.prefix, place);
    assert(mlp_built(at.under("mlp"@), cfg, Some(l.mlp)));
    assert(block_held(cfg, w, place, l));
}

/// The projection to the vocabulary has the weight under its own name, unless it is tied to
/// the embedding table or there is none: it is the table then.
pub proof fn a_projection_has_its_own_weight_or_the_table(
    cfg: Config,
    w: WeightsView,
    m: LanguageView,
)
    requires
        language_built(cfg, w, Some(m)),
    ensures
        model_built(cfg, w, Some(m.base)),
        cfg.tie_word_embeddings || !w.table.contains_key(w.prefix + "lm_head.weight"@)
            ==> m.head.weight == m.base.embed.embeddings,
        !cfg.tie_word_embeddings && w.table.contains_key(w.prefix + "lm_head.weight"@) ==> held(
            w,
            "lm_head.weight"@,
            seq![cfg.vocab_size, cfg.hidden_size],
            m.head.weight,
        ),
        m.head.bias is None,
{
    assert(model_built(cfg, w, Some(m.base)));
    assert(head_built(cfg, w, m.base, Some(m.head)));
    lemma_model_names(w.prefix, Seq::empty());
}

/// Whether there is an array of these dimensions under this name that can be converted.
pub open spec fn listed(w: WeightsView, name: Seq<char>, dims: Seq<usize>) -> bool {
    let found = w.table[w.prefix + name];
    &&& w.table.contains_key(w.prefix + name)
    &&& found.dims == dims
    &&& storable(found.dtype) && storable(w.dtype)
}

/// Whether all the weights of a layer are there under this name.
pub open spec fn layer_listed(cfg: Config, w: WeightsView, place: Seq<char>) -> bool {
    let (h, i) = (cfg.hidden_size, cfg.intermediate_size);
    let d = cfg.hidden_size / cfg.num_attention_heads;
    let q = (cfg.num_attention_heads * d) as usize;
    let kv = (cfg.num_key_value_heads * d) as usize;
    &&& listed(w, place + ".self_attn.q_proj.weight"@, seq![q, h])
    &&& listed(w, place + ".self_attn.k_proj.weight"@, seq![kv, h])
    &&& listed(w, place + ".self_attn.v_proj.weight"@, seq![kv, h])
    &&& listed(w, place + ".self_attn.o_proj.weight"@, seq![h, q])
    &&& listed(w, place + ".self_attn.q_proj.bias"@, seq![q])
    &&& listed(w, place + ".self_attn.k_proj.bias"@, seq![kv])
    &&& listed(w, place + ".self_attn.v_proj.bias"@, seq![kv])
    &&& listed(w, place + ".mlp.gate_proj.weight"@, seq![i, h])
    &&& listed(w, place + ".mlp.up_proj.weight"@, seq![i, h])
    &&& listed(w, place + ".mlp.down_proj.weight"@, seq![h, i])
    &&& listed(w, place + ".input_layernorm.weight"@, seq![h])
    &&& listed(w, place + ".post_attention_layernorm.weight"@, seq![h])
}

/// A frequency exists.
proof fn lemma_frequency_exists(theta: u64, i: int, dim: int)
    ensures
        !frequency_result(theta, i, dim, None),
{
    if frequency_result(theta, i, dim, None) {
        let n = choose|n: Option<Array>| #[trigger]
            number_result(i, n) && match n {
                None => true,
                Some(n) => exists|d: Option<Array>| #[trigger]
                    number_result(dim, d) && match d {
                        None => true,
                        Some(d) => exists|e: Option<Array>| #[trigger]
                            div_result(n, d, e) && match e {
                                None => true,
                                Some(e) => inverse_power_result(theta, e.elems[0], None),
                            },
                    },
            };
        let n = n->Some_0;
        let d = choose|d: Option<Array>| #[trigger]
            number_result(dim, d) && match d {
                None => true,
                Some(d) => exists|e: Option<Array>| #[trigger]
                    div_result(n, d, e) && match e {
                        None => true,
                        Some(e) => inverse_power_result(theta, e.elems[0], None),
                    },
            };
        let d = d->Some_0;
        let e = choose|e: Option<Array>| #[trigger]
            div_result(n, d, e) && match e {
                None => true,
                Some(e) => inverse_power_result(theta, e.elems[0], None),
            };
        assert(e is Some);
        let p = choose|p: Option<Array>| #[trigger]
            power_result(scalar(DType::F64, theta), e->Some_0.elems[0], p) && match p {
                None => true,
                Some(p) => exists|s: Option<Array>| #[trigger]
                    cast_result(p, DType::F32, s) && match s {
                        None => true,
                        Some(s) => recip_result(s, None),
                    },
            };
        let s = choose|s: Option<Array>| #[trigger]
            cast_result(p->Some_0, DType::F32, s) && match s {
                None => true,
                Some(s) => recip_result(s, None),
            };
        assert(s is Some);
    }
}

/// The angles of as many positions as there is room for exist.
proof fn lemma_angles_exist(
    dtype: DType,
    theta: u64,
    dim: int,
    positions: usize,
    out: Option<RotaryView>,
)
    requires
        rotary_result(dtype, theta, dim, positions, out),
        0 <= dim <= usize::MAX,
        multiplies(dtype),
        positions <= u32::MAX,
        addressable(dims_2(positions, ((dim + 1) / 2) as usize)),
    ensures
        out is Some,
{
    let fs = choose|fs: Option<Seq<u32>>| #[trigger]
        frequencies_result(theta, dim, fs) && match fs {
            None => out is None,
            Some(fs) => exists|a: Option<Array>| #[trigger]
                angles_result(dtype, fs, positions, a) && match a {
                    None => out is None,
                    Some(a) => exists|s: Option<Array>| #[trigger]
                        sin_result(a, s) && match s {
                            None => out is None,
                            Some(s) => exists|c: Option<Array>| #[trigger]
                                cos_result(a, c) && (c is None ==> out is None) && (c is Some
                                    ==> out is Some),
                        },
                },
        };
    if fs is None {
        let i = choose|i: int|
            0 <= i < dim && i % 2 == 0 && #[trigger] frequency_result(theta, i, dim, None);
        lemma_frequency_exists(theta, i, dim);
    }
    let fs = fs->Some_0;
    let a = choose|a: Option<Array>| #[trigger]
        angles_result(dtype, fs, positions, a) && match a {
            None => out is None,
            Some(a) => exists|s: Option<Array>| #[trigger]
                sin_result(a, s) && match s {
                    None => out is None,
                    Some(s) => exists|c: Option<Array>| #[trigger]
                        cos_result(a, c) && (c is None ==> out is None) && (c is Some
                            ==> out is Some),
                },
        };
    lemma_product_of_angles_exists(dtype, fs, positions, a);
}

/// The product of positions and frequencies exists.
proof fn lemma_product_of_angles_exists(
    dtype: DType,
    fs: Seq<u32>,
    positions: usize,
    out: Option<Array>,
)
    requires
        angles_result(dtype, fs, positions, out),
        multiplies(dtype),
        positions <= u32::MAX,
        fs.len() <= usize::MAX,
        addressable(dims_2(positions, fs.len() as usize)),
    ensures
        out matches Some(a) && a.dtype == dtype,
{
    let f = choose|f: Option<Array>| #[trigger]
        cast_result(row_of(fs), dtype, f) && match f {
            None => out is None,
            Some(f) => exists|t: Option<Array>| #[trigger]
                cast_result(arange(positions as u32), dtype, t) && match t {
                    None => out is None,
                    Some(t) => exists|c: Option<Array>| #[trigger]
                        reshape_result(t, dims_2(positions, 1), c) && match c {
                            None => out is None,
                            Some(c) => matmul_result(c, f, out),
                        },
                },
        };
    let f = f->Some_0;
    let t = choose|t: Option<Array>| #[trigger]
        cast_result(arange(positions as u32), dtype, t) && match t {
            None => out is None,
            Some(t) => exists|c: Option<Array>| #[trigger]
                reshape_result(t, dims_2(positions, 1), c) && match c {
                    None => out is None,
                    Some(c) => matmul_result(c, f, out),
                },
        };
    let t = t->Some_0;
    lemma_counts_of_column(positions);
    lemma_matrix_fits(positions, 1);
    lemma_one_size_fits(positions);
    assert(t.dims =~= seq![positions]);
    let c = choose|c: Option<Array>| #[trigger]
        reshape_result(t, dims_2(positions, 1), c) && match c {
            None => out is None,
            Some(c) => matmul_result(c, f, out),
        };
    assert(c is Some);
    let c = c->Some_0;
    lemma_one_size_fits(fs.len() as usize);
    assert(c.dims.update(1, fs.len() as usize) =~= dims_2(positions, fs.len() as usize));
    assert(c.dims.take(0) =~= f.dims.take(0));
    assert(product_fits(c.dims, f.dims));
    assert(product_owed(c, f));
}

/// A layer whose weights are all there is made.
proof fn lemma_layer_made(
    rotary: RotaryView,
    cfg: Config,
    w: WeightsView,
    number: Seq<char>,
    out: Option<LayerView>,
)
    requires
        layer_built(rotary, cfg, w.under("model"@).under("layers"@).under(number), out),
        cfg.num_attention_heads > 0,
        layer_listed(cfg, w, "model.layers."@ + number),
    ensures
        out is Some,
{
    let place = "model.layers."@ + number;
    let at = w.under("model"@).under("layers"@).under(number);
    lemma_model_names(w.prefix, number);
    assert(at.prefix =~= w.prefix + place + seq!['.']);
    lemma_attention_names(w.prefix, place);
    lemma_block_names(w.prefix, place);
    assert(!attention_built(rotary, cfg, at.under("self_attn"@), None));
    assert(!mlp_built(at.under("mlp"@), cfg, None));
}

/// A model whose weights are all there, in a type that can be multiplied in, is made.
pub proof fn a_model_with_all_its_weights_is_made(
    cfg: Config,
    w: WeightsView,
    out: Option<LanguageView>,
)
    requires
        language_built(cfg, w, out),
        cfg.num_attention_heads > 0,
        multiplies(w.dtype),
        cfg.max_position_embeddings <= u32::MAX,
        addressable(
            dims_2(
                cfg.max_position_embeddings,
                ((cfg.hidden_size / cfg.num_attention_heads + 1) / 2) as usize,
            ),
        ),
        listed(w, "model.embed_tokens.weight"@, seq![cfg.vocab_size, cfg.hidden_size]),
        listed(w, "model.norm.weight"@, seq![cfg.hidden_size]),
        forall|i: nat|
            i < cfg.num_hidden_layers ==> layer_listed(
                cfg,
                w,
                "model.layers."@ + #[trigger] decimal(i),
            ),
        !cfg.tie_word_embeddings && w.table.contains_key(w.prefix + "lm_head.weight"@) ==> listed(
            w,
            "lm_head.weight"@,
            seq![cfg.vocab_size, cfg.hidden_size],
        ),
    ensures
        out is Some,
{
    lemma_model_names(w.prefix, Seq::empty());
    let below = w.under("model"@);
    if out is None {
        if model_built(cfg, w, None) {
            let e = choose|e: Option<EmbeddingView>| #[trigger]
                below.under("embed_tokens"@).embedding_result(cfg.vocab_size, cfg.hidden_size, e)
                    && match e {
                    None => true,
                    Some(e) => exists|r: Option<RotaryView>| #[trigger]
                        rotary_result(
                            w.dtype,
                            cfg.rope_theta,
                            cfg.head_dim() as int,
                            cfg.max_position_embeddings,
                            r,
                        ) && match r {
                            None => true,
                            Some(r) => exists|l: Option<Seq<LayerView>>| #[trigger]
                                layers_built(r, cfg, below.under("layers"@), l) && (l is None
                                    || below.under("norm"@).rms_norm_result(
                                    cfg.hidden_size,
                                    cfg.rms_norm_eps,
                                    None,
                                )),
                        },
                };
            assert(e is Some);
            let r = choose|r: Option<RotaryView>| #[trigger]
                rotary_result(
                    w.dtype,
                    cfg.rope_theta,
                    cfg.head_dim() as int,
                    cfg.max_position_embeddings,
                    r,
                ) && match r {
                    None => true,
                    Some(r) => exists|l: Option<Seq<LayerView>>| #[trigger]
                        layers_built(r, cfg, below.under("layers"@), l) && (l is None
                            || below.under("norm"@).rms_norm_result(
                            cfg.hidden_size,
                            cfg.rms_norm_eps,
                            None,
                        )),
                };
            lemma_angles_exist(
                w.dtype,
                cfg.rope_theta,
                cfg.head_dim() as int,
                cfg.max_position_embeddings,
                r,
            );
            let r = r->Some_0;
            let l = choose|l: Option<Seq<LayerView>>| #[trigger]
                layers_built(r, cfg, below.under("layers"@), l) && (l is None
                    || below.under("norm"@).rms_norm_result(
                    cfg.hidden_size,
                    cfg.rms_norm_eps,
                    None,
                ));
            assert(!below.under("norm"@).rms_norm_result(cfg.hidden_size, cfg.rms_norm_eps, None));
            let layers = below.under("layers"@);
            let i = choose|i: nat|
                i < cfg.num_hidden_layers && layer_built(
                    r,
                    cfg,
                    #[trigger] layers.under(decimal(i)),
                    None,
                );
            lemma_layer_made(r, cfg, w, decimal(i), None);
        } else {
            let m = choose|m: ModelView| #[trigger]
                model_built(cfg, w, Some(m)) && head_built(cfg, w, m, None);
            assert(head_built(cfg, w, m, None));
        }
    }
}

/// A table holds, under each name, the last tensor of that name, and nothing else.
pub proof fn the_last_tensor_of_a_name_counts(tensors: Seq<(String, Tensor)>, name: Seq<char>)
    ensures
        forall|i: int|
            0 <= i < tensors.len() && (#[trigger] tensors[i]).0@ == name && (forall|j: int|
                i < j < tensors.len() ==> (#[trigger] tensors[j]).0@ != name) ==> table_of(
                tensors,
            ).contains_key(name) && table_of(tensors)[name] == array(tensors[i].1),
        (forall|i: int| 0 <= i < tensors.len() ==> (#[trigger] tensors[i]).0@ != name)
            ==> !table_of(tensors).contains_key(name),
    decreases tensors.len(),
{
    if tensors.len() > 0 {
        let (front, n) = (tensors.drop_last(), tensors.len() - 1);
        the_last_tensor_of_a_name_counts(front, name);
        assert(forall|i: int| 0 <= i < n ==> #[trigger] front[i] == tensors[i]);
        assert forall|i: int|
            0 <= i < tensors.len() && (#[trigger] tensors[i]).0@ == name && (forall|j: int|
                i < j < tensors.len() ==> (#[trigger] tensors[j]).0@
                    != name) implies table_of(tensors).contains_key(name)
            && table_of(tensors)[name] == array(tensors[i].1) by {
            if i < n {
                assert(tensors[n].0@ != name);
                assert(front[i].0@ == name);
            }
        }
        if forall|i: int| 0 <= i < tensors.len() ==> (#[trigger] tensors[i]).0@ != name {
            assert(tensors[n].0@ != name);
            assert(forall|i: int| 0 <= i < n ==> (#[trigger] front[i]).0@ != name);
        }
    }
}

} // verus!
