use candle_core::{DType, Device, Tensor};
use candle_nn::Activation;
use h2o_qwen2::config::Config;
use h2o_qwen2::error::ModelError;
use h2o_qwen2::language::ModelForCausalLM;
use h2o_qwen2::model::Model;
use h2o_qwen2::weights::Weights;

fn config(kv_heads: usize) -> Config {
    Config {
        vocab_size: 5,
        hidden_size: 4,
        intermediate_size: 3,
        num_hidden_layers: 2,
        num_attention_heads: 2,
        num_key_value_heads: kv_heads,
        max_position_embeddings: 64,
        sliding_window: 100,
        max_window_layers: 2,
        tie_word_embeddings: true,
        rope_theta: 10000f64.to_bits(),
        rms_norm_eps: 1e-6f64.to_bits(),
        use_sliding_window: false,
        hidden_act: Activation::Silu,
    }
}

/// Numbers between minus one half and one half that look random.
fn numbers(seed: usize, n: usize) -> Vec<f32> {
    let mut x = seed as u64 * 7919 + 17;
    (0..n)
        .map(|_| {
            x = x.wrapping_mul(6364136223846793005).wrapping_add(1442695040888963407);
            ((x >> 40) as f32) / ((1u64 << 24) as f32) - 0.5
        })
        .collect()
}

struct Params {
    all: Vec<(String, Vec<usize>, Vec<f32>)>,
}

impl Params {
    fn new(cfg: &Config) -> Self {
        let mut p = Params { all: Vec::new() };
        let (h, i) = (cfg.hidden_size, cfg.intermediate_size);
        let kv = cfg.num_key_value_heads * (h / cfg.num_attention_heads);
        p.put("model.embed_tokens.weight", vec![cfg.vocab_size, h]);
        p.put("model.norm.weight", vec![h]);
        for l in 0..cfg.num_hidden_layers {
            let at = |name: &str| format!("model.layers.{l}.{name}");
            p.put(&at("self_attn.q_proj.weight"), vec![h, h]);
            p.put(&at("self_attn.q_proj.bias"), vec![h]);
            p.put(&at("self_attn.k_proj.weight"), vec![kv, h]);
            p.put(&at("self_attn.k_proj.bias"), vec![kv]);
            p.put(&at("self_attn.v_proj.weight"), vec![kv, h]);
            p.put(&at("self_attn.v_proj.bias"), vec![kv]);
            p.put(&at("self_attn.o_proj.weight"), vec![h, h]);
            p.put(&at("mlp.gate_proj.weight"), vec![i, h]);
            p.put(&at("mlp.up_proj.weight"), vec![i, h]);
            p.put(&at("mlp.down_proj.weight"), vec![h, i]);
            p.put(&at("input_layernorm.weight"), vec![h]);
            p.put(&at("post_attention_layernorm.weight"), vec![h]);
        }
        p
    }

    fn put(&mut self, name: &str, dims: Vec<usize>) {
        let n = dims.iter().product();
        let data = numbers(self.all.len() + 1, n);
        self.all.push((name.to_string(), dims, data));
    }

    fn get(&self, name: &str) -> &Vec<f32> {
        &self.all.iter().find(|(n, _, _)| n == name).unwrap().2
    }

    fn weights(&self, dtype: DType) -> Weights {
        let tensors = self
            .all
            .iter()
            .map(|(n, d, x)| {
                (n.clone(), Tensor::from_vec(x.clone(), d.as_slice(), &Device::Cpu).unwrap())
            })
            .collect();
        Weights::from_tensors(tensors, dtype, &Device::Cpu)
    }
}

fn language(kv_heads: usize) -> ModelForCausalLM {
    let cfg = config(kv_heads);
    ModelForCausalLM::new(&cfg, &Params::new(&cfg).weights(DType::F32)).unwrap()
}

fn ids(xs: &[u32]) -> Tensor {
    Tensor::new(xs, &Device::Cpu).unwrap().unsqueeze(0).unwrap()
}

fn flat(t: &Tensor) -> Vec<f32> {
    t.flatten_all().unwrap().to_vec1::<f32>().unwrap()
}

fn close(a: &[f32], b: &[f32]) {
    assert_eq!(a.len(), b.len());
    for (x, y) in a.iter().zip(b) {
        assert!((x - y).abs() < 1e-4, "{a:?} {b:?}");
    }
}

fn product(w: &[f32], x: &[f32]) -> Vec<f32> {
    w.chunks(x.len()).map(|r| r.iter().zip(x).map(|(a, b)| a * b).sum()).collect()
}

fn plus(a: &[f32], b: &[f32]) -> Vec<f32> {
    a.iter().zip(b).map(|(x, y)| x + y).collect()
}

fn normalised(x: &[f32], w: &[f32]) -> Vec<f32> {
    let ms = x.iter().map(|a| a * a).sum::<f32>() / x.len() as f32;
    let r = (ms + 1e-6).sqrt();
    x.iter().zip(w).map(|(a, b)| a / r * b).collect()
}

/// One head of two features, turned by its position.
fn turned(x: &[f32], p: usize) -> Vec<f32> {
    let a = p as f32;
    vec![x[0] * a.cos() - x[1] * a.sin(), x[1] * a.cos() + x[0] * a.sin()]
}

/// The logits after the last token, computed position by position.
fn expected(cfg: &Config, p: &Params, tokens: &[u32]) -> Vec<f32> {
    let h = cfg.hidden_size;
    let groups = cfg.num_attention_heads / cfg.num_key_value_heads;
    let table = p.get("model.embed_tokens.weight");
    let mut xs: Vec<Vec<f32>> =
        tokens.iter().map(|t| table[*t as usize * h..(*t as usize + 1) * h].to_vec()).collect();
    for l in 0..cfg.num_hidden_layers {
        let at = |name: &str| p.get(&format!("model.layers.{l}.{name}")).clone();
        let (mut qs, mut ks, mut vs) = (Vec::new(), Vec::new(), Vec::new());
        for (pos, x) in xs.iter().enumerate() {
            let n = normalised(x, &at("input_layernorm.weight"));
            let lin = |name: &str| {
                plus(
                    &product(&at(&format!("self_attn.{name}.weight")), &n),
                    &at(&format!("self_attn.{name}.bias")),
                )
            };
            let turn = |y: Vec<f32>| -> Vec<f32> { y.chunks(2).flat_map(|c| turned(c, pos)).collect() };
            qs.push(turn(lin("q_proj")));
            ks.push(turn(lin("k_proj")));
            vs.push(lin("v_proj"));
        }
        let mut out = Vec::new();
        for (i, x) in xs.iter().enumerate() {
            let mut heads = Vec::new();
            for head in 0..cfg.num_attention_heads {
                let kv = head / groups;
                let q = &qs[i][2 * head..2 * head + 2];
                let es: Vec<f32> = (0..=i)
                    .map(|j| {
                        let k = &ks[j][2 * kv..2 * kv + 2];
                        ((q[0] * k[0] + q[1] * k[1]) / 2f32.sqrt()).exp()
                    })
                    .collect();
                let total: f32 = es.iter().sum();
                for f in 0..2 {
                    heads.push((0..=i).map(|j| es[j] / total * vs[j][2 * kv + f]).sum::<f32>());
                }
            }
            let a = plus(&product(&at("self_attn.o_proj.weight"), &heads), x);
            let n = normalised(&a, &at("post_attention_layernorm.weight"));
            let gate = product(&at("mlp.gate_proj.weight"), &n);
            let up = product(&at("mlp.up_proj.weight"), &n);
            let m: Vec<f32> =
                gate.iter().zip(&up).map(|(g, u)| g / (1. + (-g).exp()) * u).collect();
            out.push(plus(&a, &product(&at("mlp.down_proj.weight"), &m)));
        }
        xs = out;
    }
    let last = normalised(xs.last().unwrap(), p.get("model.norm.weight"));
    product(table, &last)
}

#[test]
fn the_logits_are_those_of_plain_attention() {
    for kv_heads in [1, 2] {
        let cfg = config(kv_heads);
        let p = Params::new(&cfg);
        let mut m = ModelForCausalLM::new(&cfg, &p.weights(DType::F32)).unwrap();
        let tokens = [3u32, 0, 4, 1];
        let y = m.forward(&ids(&tokens), 0, 35).unwrap();
        assert_eq!(y.dims(), &[1, 1, 5]);
        close(&flat(&y), &expected(&cfg, &p, &tokens));
    }
}

#[test]
fn steps_continue_a_prompt_as_long_as_the_cache_has_room() {
    let cfg = config(1);
    let p = Params::new(&cfg);
    let mut m = ModelForCausalLM::new(&cfg, &p.weights(DType::F32)).unwrap();
    let tokens = [3u32, 0, 4, 1, 2, 2];
    m.forward(&ids(&tokens[..3]), 0, 35).unwrap();
    for i in 3..6 {
        let y = m.forward(&ids(&tokens[i..i + 1]), i, 35).unwrap();
        close(&flat(&y), &expected(&cfg, &p, &tokens[..i + 1]));
    }
    let cache = m.base_model.layers[0].self_attn.kv_cache.as_ref().unwrap();
    assert_eq!(cache.recent_k.len(), 4);
    assert_eq!(cache.recent_k[0].dims(), &[1, 1, 3, 2]);
}

#[test]
fn nothing_is_forgotten_until_the_last_place_is_used() {
    let cfg = config(1);
    let p = Params::new(&cfg);
    let mut m = ModelForCausalLM::new(&cfg, &p.weights(DType::F32)).unwrap();
    let tokens = [3u32, 0, 4, 1, 2, 2, 1, 0];
    for i in 0..8 {
        // Only the capacity that the first call names counts.
        let y = flat(&m.forward(&ids(&tokens[i..i + 1]), i, 7 + i).unwrap());
        let full = expected(&cfg, &p, &tokens[..i + 1]);
        if i < 7 {
            close(&y, &full);
        } else {
            assert!(y.iter().zip(&full).any(|(a, b)| (a - b).abs() > 1e-6));
        }
    }
}

#[test]
fn attention_reads_heads_in_any_layout() {
    let m = language(1);
    let a = &m.base_model.layers[0].self_attn;
    let q = Tensor::arange(0f32, 8., &Device::Cpu).unwrap().reshape((1, 1, 4, 2)).unwrap();
    let q = q.transpose(1, 2).unwrap();
    let k = Tensor::new(&[[[[0.5f32, -1.], [0.25, 0.75], [1., 1.]]]], &Device::Cpu).unwrap();
    let k = k.broadcast_as((1, 4, 3, 2)).unwrap();
    let v = Tensor::arange(0f32, 24., &Device::Cpu).unwrap().reshape((1, 3, 4, 2)).unwrap();
    let v = v.transpose(1, 2).unwrap();
    let y = a.compute_attention_scores(&q, &k, &v, None, 2).unwrap();
    assert_eq!(y.dims(), &[1, 4, 1, 2]);
    for h in 0..4 {
        let (q1, k1, v1) = (q.narrow(1, h, 1), k.narrow(1, h, 1), v.narrow(1, h, 1));
        let alone = [q1, k1, v1].map(|t| t.unwrap().contiguous().unwrap());
        let [q1, k1, v1] = &alone;
        let y1 = a.compute_attention_scores(q1, k1, v1, None, 2).unwrap();
        close(&flat(&y.narrow(1, h, 1).unwrap()), &flat(&y1));
    }
    // A mask of which every query has a row of its own.
    let open = Tensor::new(&[[0f32, f32::NEG_INFINITY, f32::NEG_INFINITY]], &Device::Cpu).unwrap();
    let y = a.compute_attention_scores(&q, &k, &v, Some(&open), 2).unwrap();
    close(&flat(&y), &flat(&v.narrow(2, 0, 1).unwrap()));
}

#[test]
fn decoding_goes_on_after_the_first_evictions() {
    let mut m = language(2);
    m.forward(&ids(&[3, 0, 4]), 0, 7).unwrap();
    for i in 3..30 {
        assert!(m.forward(&ids(&[(i % 5) as u32]), i, 7).is_ok());
    }
    // Several tokens at once need all earlier positions.
    assert!(m.forward(&ids(&[1, 2]), 30, 7).is_err());
    m.clear_kv_cache();
    assert!(m.forward(&ids(&[1, 2]), 0, 7).is_ok());
    assert!(m.forward(&ids(&[1, 2]), 2, 7).is_ok());
}

#[test]
fn a_table_in_another_layout_is_looked_up() {
    let cfg = config(1);
    let p = Params::new(&cfg);
    let tensors = p
        .all
        .iter()
        .map(|(n, d, x)| {
            let t = Tensor::from_vec(x.clone(), d.as_slice(), &Device::Cpu).unwrap();
            let turned = if d.len() == 2 {
                t.t().unwrap().contiguous().unwrap().t().unwrap()
            } else {
                t
            };
            (n.clone(), turned)
        })
        .collect();
    let w = Weights::from_tensors(tensors, DType::F32, &Device::Cpu);
    let mut m = ModelForCausalLM::new(&cfg, &w).unwrap();
    let y = m.forward(&ids(&[3, 0, 4]), 0, 35).unwrap();
    close(&flat(&y), &expected(&cfg, &p, &[3, 0, 4]));
}

#[test]
fn a_small_cache_forgets() {
    let cfg = config(1);
    let p = Params::new(&cfg);
    let mut m = ModelForCausalLM::new(&cfg, &p.weights(DType::F32)).unwrap();
    // Room for a single entry: each token sees only itself.
    m.forward(&ids(&[3]), 0, 2).unwrap();
    let y = m.forward(&ids(&[1]), 1, 2).unwrap();
    let full = expected(&cfg, &p, &[3, 1]);
    assert!(flat(&y).iter().zip(&full).any(|(a, b)| (a - b).abs() > 1e-4));
    let cache = m.base_model.layers[1].self_attn.kv_cache.as_ref().unwrap();
    assert_eq!((cache.hh_k.len(), cache.recent_k.len()), (0, 1));
}

#[test]
fn the_capacity_of_the_first_call_counts() {
    let mut m = language(1);
    m.forward(&ids(&[3]), 0, 7).unwrap();
    m.forward(&ids(&[3]), 1, 0).unwrap();
    let cache = m.base_model.layers[0].self_attn.kv_cache.as_ref().unwrap();
    assert_eq!((cache.hh_capacity, cache.recent_capacity), (1, 6));
}

#[test]
fn a_cache_never_outgrows_its_capacity() {
    let mut m = language(2);
    for i in 0..20 {
        m.forward(&ids(&[(i % 5) as u32]), i, 7).unwrap();
    }
    for l in &m.base_model.layers {
        let c = l.self_attn.kv_cache.as_ref().unwrap();
        assert_eq!((c.hh_k.len(), c.recent_k.len()), (1, 6));
        assert_eq!((c.num_heads, c.head_dim), (2, 2));
    }
}

#[test]
fn clearing_makes_a_model_new_again() {
    let mut m = language(1);
    let first = flat(&m.forward(&ids(&[3, 0, 4]), 0, 35).unwrap());
    let later = flat(&m.forward(&ids(&[3]), 3, 35).unwrap());
    assert_ne!(first, later);
    m.clear_kv_cache();
    assert!(m.base_model.layers.iter().all(|l| l.self_attn.kv_cache.is_none()));
    assert_eq!(flat(&m.forward(&ids(&[3, 0, 4]), 0, 35).unwrap()), first);
}

#[test]
fn a_copy_has_its_own_cache() {
    let mut m = language(1);
    m.forward(&ids(&[3, 0]), 0, 35).unwrap();
    let mut n = m.clone();
    let a = flat(&m.forward(&ids(&[1]), 2, 35).unwrap());
    let b = flat(&n.forward(&ids(&[1]), 2, 35).unwrap());
    assert_eq!(a, b);
    n.clear_kv_cache();
    assert!(m.base_model.layers[0].self_attn.kv_cache.is_some());
}

#[test]
fn a_head_of_its_own_is_used_where_there_is_one() {
    let mut cfg = config(1);
    cfg.tie_word_embeddings = false;
    let mut p = Params::new(&cfg);
    p.put("lm_head.weight", vec![5, 4]);
    let mut own = ModelForCausalLM::new(&cfg, &p.weights(DType::F32)).unwrap();
    let mut tied = language(1);
    let a = flat(&own.forward(&ids(&[3]), 0, 35).unwrap());
    let b = flat(&tied.forward(&ids(&[3]), 0, 35).unwrap());
    assert_ne!(a, b);
    let table = &tied.base_model.embed_tokens.embeddings;
    assert_eq!(flat(&tied.lm_head.weight), flat(table));
    // Without one it is the table all the same.
    let mut none = ModelForCausalLM::new(&cfg, &Params::new(&cfg).weights(DType::F32)).unwrap();
    assert_eq!(flat(&none.forward(&ids(&[3]), 0, 35).unwrap()), b);
    // A head of another shape is refused.
    let mut p = Params::new(&cfg);
    p.put("lm_head.weight", vec![4, 4]);
    assert!(ModelForCausalLM::new(&cfg, &p.weights(DType::F32)).is_err());
}

#[test]
fn tied_embeddings_share_one_matrix() {
    let cfg = config(1);
    let mut p = Params::new(&cfg);
    p.put("lm_head.weight", vec![5, 4]);
    let mut tied = ModelForCausalLM::new(&cfg, &p.weights(DType::F32)).unwrap();
    assert_eq!(&flat(&tied.lm_head.weight), p.get("model.embed_tokens.weight"));
    assert!(tied.lm_head.bias.is_none());
    let a = flat(&tied.forward(&ids(&[3]), 0, 35).unwrap());
    assert_eq!(a, flat(&language(1).forward(&ids(&[3]), 0, 35).unwrap()));
}

#[test]
fn a_missing_or_misshapen_weight_is_refused() {
    let cfg = config(1);
    let names: Vec<String> = Params::new(&cfg).all.iter().map(|(n, _, _)| n.clone()).collect();
    for name in names {
        let mut p = Params::new(&cfg);
        p.all.retain(|(n, _, _)| *n != name);
        let r = ModelForCausalLM::new(&cfg, &p.weights(DType::F32));
        assert!(matches!(r, Err(ModelError::Backend(_))), "{name}");
        p.put(&name, vec![7, 7]);
        assert!(ModelForCausalLM::new(&cfg, &p.weights(DType::F32)).is_err(), "{name}");
    }
}

#[test]
fn the_later_of_two_weights_of_one_name_counts() {
    let cfg = config(1);
    let mut p = Params::new(&cfg);
    p.put("model.norm.weight", vec![4]);
    let last = p.all.last().unwrap().2.clone();
    let m = Model::new(&cfg, &p.weights(DType::F32)).unwrap();
    assert_eq!(flat(&m.norm.weight), last);
}

#[test]
fn many_layers_are_numbered_in_decimal() {
    let mut cfg = config(1);
    cfg.num_hidden_layers = 12;
    let p = Params::new(&cfg);
    let m = Model::new(&cfg, &p.weights(DType::F32)).unwrap();
    assert_eq!(m.layers.len(), 12);
    let w = flat(&m.layers[11].input_layernorm.weight);
    assert_eq!(&w, p.get("model.layers.11.input_layernorm.weight"));
    assert_eq!(m.layers[11].input_layernorm.eps, 1e-6f64.to_bits());
}

#[test]
fn weights_are_converted() {
    let cfg = config(1);
    let mut m = ModelForCausalLM::new(&cfg, &Params::new(&cfg).weights(DType::F16)).unwrap();
    assert_eq!(m.base_model.dtype, DType::F16);
    assert_eq!(m.base_model.norm.weight.dtype(), DType::F16);
    let y = m.forward(&ids(&[3, 1]), 0, 35).unwrap();
    assert_eq!(y.dtype(), DType::F16);
    let y = flat(&y.to_dtype(DType::F32).unwrap());
    let z = flat(&language(1).forward(&ids(&[3, 1]), 0, 35).unwrap());
    assert!(y.iter().zip(&z).all(|(a, b)| (a - b).abs() < 1e-2));
    // The backend does not normalise in double precision.
    let mut m = ModelForCausalLM::new(&cfg, &Params::new(&cfg).weights(DType::F64)).unwrap();
    assert!(m.forward(&ids(&[3, 1]), 0, 35).is_err());
}

#[test]
fn tokens_must_be_a_matrix_of_known_ids() {
    let mut m = language(1);
    let row = Tensor::new(&[1u32, 2], &Device::Cpu).unwrap();
    assert!(m.forward(&row, 0, 35).is_err());
    assert!(m.forward(&ids(&[5]), 0, 35).is_err());
    assert!(m.forward(&ids(&[]), 0, 35).is_err());
    assert!(m.base_model.layers[0].self_attn.kv_cache.is_none());
    assert!(m.forward(&ids(&[1]), 64, 35).is_err());
    assert!(m.forward(&ids(&[1]), 63, 35).is_ok());
}

#[test]
fn the_largest_id_stands_for_no_token() {
    let cfg = config(1);
    let mut m = Model::new(&cfg, &Params::new(&cfg).weights(DType::F32)).unwrap();
    assert!(m.forward(&ids(&[u32::MAX]), 0, None, 35).is_ok());
    m.clear_kv_cache();
    assert!(m.forward(&ids(&[u32::MAX - 1]), 0, None, 35).is_err());
    assert!(m.layers[0].self_attn.kv_cache.is_none());
}

#[test]
fn heads_that_do_not_divide_are_refused_when_the_model_runs() {
    for (hidden, heads, kv) in [(6, 2, 1), (8, 3, 1), (12, 3, 2)] {
        let mut cfg = config(1);
        cfg.hidden_size = hidden;
        cfg.num_attention_heads = heads;
        cfg.num_key_value_heads = kv;
        let p = misfit(&cfg);
        let mut m = ModelForCausalLM::new(&cfg, &p.weights(DType::F32)).unwrap();
        assert!(m.forward(&ids(&[1]), 0, 35).is_err(), "{hidden} {heads} {kv}");
    }
}

/// Weights for heads that need not divide the features.
fn misfit(cfg: &Config) -> Params {
    let mut p = Params::new(cfg);
    let q = cfg.num_attention_heads * (cfg.hidden_size / cfg.num_attention_heads);
    for l in 0..cfg.num_hidden_layers {
        let at = |name: &str| format!("model.layers.{l}.self_attn.{name}");
        p.put(&at("q_proj.weight"), vec![q, cfg.hidden_size]);
        p.put(&at("q_proj.bias"), vec![q]);
        p.put(&at("o_proj.weight"), vec![cfg.hidden_size, q]);
    }
    p
}

#[test]
fn empty_weights_that_were_narrowed_are_looked_up() {
    let mut cfg = config(1);
    cfg.intermediate_size = 0;
    let p = Params::new(&cfg);
    let past = Tensor::zeros((2, 2), DType::F32, &Device::Cpu).unwrap();
    let past = past.narrow(0, 2, 0).unwrap().narrow(1, 2, 0).unwrap();
    let mut tensors: Vec<(String, Tensor)> = p
        .all
        .iter()
        .filter(|(_, d, _)| !d.contains(&0))
        .map(|(n, d, x)| {
            (n.clone(), Tensor::from_vec(x.clone(), d.as_slice(), &Device::Cpu).unwrap())
        })
        .collect();
    for l in 0..2 {
        for (name, dims) in [("gate_proj", (0, 4)), ("up_proj", (0, 4)), ("down_proj", (4, 0))] {
            let t = past.reshape(dims).unwrap();
            tensors.push((format!("model.layers.{l}.mlp.{name}.weight"), t));
        }
    }
    let w = Weights::from_tensors(tensors, DType::F16, &Device::Cpu);
    assert!(Model::new(&cfg, &w).is_ok());
}

#[test]
fn no_tokens_yield_no_logits() {
    let mut cfg = config(1);
    cfg.num_hidden_layers = 0;
    let mut m = ModelForCausalLM::new(&cfg, &Params::new(&cfg).weights(DType::F32)).unwrap();
    let none = Tensor::zeros((1, 0), DType::U32, &Device::Cpu).unwrap();
    assert!(matches!(m.forward(&none, 0, 35), Err(ModelError::ShortAxis)));
    assert_eq!(m.forward(&ids(&[1]), 0, 35).unwrap().dims(), &[1, 1, 5]);
}

#[test]
fn a_batch_is_decoded_side_by_side() {
    let mut m = language(1);
    let both = Tensor::new(&[[3u32, 1], [0, 4]], &Device::Cpu).unwrap();
    let y = m.forward(&both, 0, 35).unwrap();
    assert_eq!(y.dims(), &[2, 1, 5]);
    let alone = language(1).forward(&ids(&[0, 4]), 0, 35).unwrap();
    close(&flat(&y)[5..], &flat(&alone));
}

#[test]
fn a_given_mask_takes_the_place_of_the_causal_one() {
    let mut cfg = config(1);
    cfg.num_hidden_layers = 1;
    let w = Params::new(&cfg).weights(DType::F32);
    let mut m = Model::new(&cfg, &w).unwrap();
    let causal = m.forward(&ids(&[3, 1]), 0, None, 35).unwrap();
    assert_eq!(causal.dims(), &[1, 2, 4]);
    m.clear_kv_cache();
    let all = Tensor::new(&[[1u32, 1]], &Device::Cpu).unwrap();
    let open = m.forward(&ids(&[3, 1]), 0, Some(&all), 35).unwrap();
    // The last position sees everything either way, the first only without a
    // causal mask.
    close(&flat(&open)[4..], &flat(&causal)[4..]);
    assert_ne!(flat(&open)[..4], flat(&causal)[..4]);
    m.clear_kv_cache();
    let first = Tensor::new(&[[1u32, 0]], &Device::Cpu).unwrap();
    let hidden = m.forward(&ids(&[3, 1]), 0, Some(&first), 35).unwrap();
    close(&flat(&hidden)[..4], &flat(&causal)[..4]);
}

#[test]
fn attention_is_recorded_where_every_head_has_its_own_key() {
    let mut m = language(2);
    m.forward(&ids(&[3]), 0, 35).unwrap();
    m.forward(&ids(&[1]), 1, 35).unwrap();
    let c = m.base_model.layers[0].self_attn.kv_cache.as_ref().unwrap();
    assert!((f64::from_bits(c.recent_scores[0]) - 0.5).abs() < 1e-6);
    assert_eq!(f64::from_bits(c.recent_scores[1]), 0.0);
    // Shared key heads cannot be multiplied with the queries, so nothing is
    // recorded.
    let mut m = language(1);
    m.forward(&ids(&[3]), 0, 35).unwrap();
    m.forward(&ids(&[1]), 1, 35).unwrap();
    let c = m.base_model.layers[0].self_attn.kv_cache.as_ref().unwrap();
    assert_eq!(f64::from_bits(c.recent_scores[0]), 0.0);
}

#[test]
fn a_window_hides_old_tokens_of_a_prompt() {
    let mut cfg = config(1);
    let p = Params::new(&cfg);
    cfg.sliding_window = 0;
    cfg.use_sliding_window = true;
    let run = |cfg: &Config, tokens: &[u32]| {
        let mut m = ModelForCausalLM::new(cfg, &p.weights(DType::F32)).unwrap();
        flat(&m.forward(&ids(tokens), 0, 35).unwrap())
    };
    // Every layer sees only the last token itself.
    close(&run(&cfg, &[3, 1]), &run(&cfg, &[4, 1]));
    // With the window on the first layer alone, the second one still sees the past.
    cfg.max_window_layers = 1;
    let one = run(&cfg, &[3, 1]);
    assert!(one.iter().zip(&run(&cfg, &[4, 1])).any(|(a, b)| (a - b).abs() > 1e-4));
    // Without windows nothing of the past is closed.
    cfg.max_window_layers = 2;
    cfg.use_sliding_window = false;
    close(&run(&cfg, &[3, 1]), &expected(&cfg, &p, &[3, 1]));
    // With windows on no layer neither.
    cfg.max_window_layers = 0;
    cfg.use_sliding_window = true;
    close(&run(&cfg, &[3, 1]), &expected(&cfg, &p, &[3, 1]));
}
