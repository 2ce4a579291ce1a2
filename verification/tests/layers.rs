use candle_core::{DType, Device, Tensor};
use candle_nn::Activation;
use h2o_qwen2::attention::{is_usable, repeat_kv};
use h2o_qwen2::config::Config;
use h2o_qwen2::error::ModelError;
use h2o_qwen2::mlp::MLP;
use h2o_qwen2::nn::{Embedding, Linear, RmsNorm};
use h2o_qwen2::rotary::RotaryEmbedding;

fn config() -> Config {
    Config {
        vocab_size: 5,
        hidden_size: 8,
        intermediate_size: 3,
        num_hidden_layers: 1,
        num_attention_heads: 2,
        num_key_value_heads: 1,
        max_position_embeddings: 6,
        sliding_window: 100,
        max_window_layers: 1,
        tie_word_embeddings: true,
        rope_theta: 10000f64.to_bits(),
        rms_norm_eps: 1e-6f64.to_bits(),
        use_sliding_window: false,
        hidden_act: Activation::Silu,
    }
}

fn flat(t: &Tensor) -> Vec<f32> {
    t.contiguous().unwrap().flatten_all().unwrap().to_vec1::<f32>().unwrap()
}

fn close(a: &[f32], b: &[f32]) {
    assert_eq!(a.len(), b.len());
    for (x, y) in a.iter().zip(b) {
        assert!((x - y).abs() < 1e-5, "{a:?} {b:?}");
    }
}

#[test]
fn a_configuration_is_checked() {
    assert!(config().is_valid());
    let mut c = config();
    c.num_attention_heads = 0;
    assert!(!c.is_valid());
    let mut c = config();
    c.num_key_value_heads = 0;
    assert!(!c.is_valid());
    let mut c = config();
    c.num_key_value_heads = usize::MAX;
    assert!(!c.is_valid());
    let mut c = config();
    c.hidden_size = usize::MAX;
    assert!(!c.is_valid());
    let c = config();
    assert_eq!(c.clone(), c);
}

#[test]
fn a_capacity_is_checked() {
    assert!(!is_usable(0));
    assert!(!is_usable(1));
    assert!(is_usable(2));
    assert!(is_usable(35));
    assert!(is_usable(usize::MAX / 6));
    assert!(!is_usable(usize::MAX / 6 + 1));
}

#[test]
fn a_linear_layer_multiplies_and_adds() {
    let weight = Tensor::new(&[[1f32, 2.], [3., 4.], [5., 6.]], &Device::Cpu).unwrap();
    let bias = Tensor::new(&[0.5f32, 0., -1.], &Device::Cpu).unwrap();
    let x = Tensor::new(&[[[10f32, 100.], [1., 1.]]], &Device::Cpu).unwrap();
    let plain = Linear { weight: weight.clone(), bias: None };
    let y = plain.forward(&x).unwrap();
    assert_eq!(y.dims(), &[1, 2, 3]);
    assert_eq!(flat(&y), vec![210., 430., 650., 3., 7., 11.]);
    let biased = Linear { weight, bias: Some(bias) };
    assert_eq!(flat(&biased.forward(&x).unwrap()), vec![210.5, 430., 649., 3.5, 7., 10.]);
    assert_eq!(flat(&biased.clone().forward(&x).unwrap())[0], 210.5);
}

#[test]
fn a_linear_layer_works_row_by_row_in_any_layout() {
    let weight = Tensor::new(&[[1f32, 10., 100.]], &Device::Cpu).unwrap();
    let l = Linear { weight, bias: None };
    // Two batches of two rows, whose features lie two elements apart.
    let x = Tensor::arange(0f32, 12., &Device::Cpu).unwrap().reshape((2, 3, 2)).unwrap();
    let y = l.forward(&x.transpose(1, 2).unwrap()).unwrap();
    assert_eq!(y.dims(), &[2, 2, 1]);
    assert_eq!(flat(&y), vec![420., 531., 1086., 1197.]);
    let y = l.forward(&x.reshape((1, 2, 2, 3)).unwrap().transpose(1, 2).unwrap()).unwrap();
    assert_eq!(y.dims(), &[1, 2, 2, 1]);
    assert_eq!(flat(&y), vec![210., 876., 543., 1209.]);
}

#[test]
fn a_linear_layer_refuses_other_shapes_and_sizes() {
    let l = Linear { weight: Tensor::ones((3, 2), DType::F32, &Device::Cpu).unwrap(), bias: None };
    let x = Tensor::ones((1, 1, 3), DType::F32, &Device::Cpu).unwrap();
    assert!(matches!(l.forward(&x), Err(ModelError::Backend(_))));
    let x = Tensor::ones(1, DType::F32, &Device::Cpu).unwrap();
    let x = x.broadcast_as((usize::MAX / 2 + 1, 2, 2)).unwrap();
    assert!(matches!(l.forward(&x), Err(ModelError::TooLarge)));
}

#[test]
fn a_normalisation_divides_by_the_root_mean_square() {
    let n = RmsNorm {
        weight: Tensor::new(&[1f32, 2.], &Device::Cpu).unwrap(),
        eps: 0f64.to_bits(),
    };
    let x = Tensor::new(&[[3f32, 4.]], &Device::Cpu).unwrap();
    let r = 12.5f32.sqrt();
    close(&flat(&n.forward(&x).unwrap()), &[3. / r, 8. / r]);
    // The added number counts.
    let n = RmsNorm { weight: n.weight.clone(), eps: 12.5f64.to_bits() };
    close(&flat(&n.clone().forward(&x).unwrap()), &[0.6, 1.6]);
}

#[test]
fn a_normalisation_refuses_integers_and_no_features() {
    let n = RmsNorm {
        weight: Tensor::new(&[1f32, 2.], &Device::Cpu).unwrap(),
        eps: 1e-6f64.to_bits(),
    };
    let x = Tensor::new(&[[3u32, 4]], &Device::Cpu).unwrap();
    assert!(matches!(n.forward(&x), Err(ModelError::ElementType)));
    let x = Tensor::zeros((2, 0), DType::F32, &Device::Cpu).unwrap();
    assert!(matches!(n.forward(&x), Err(ModelError::ShortAxis)));
}

#[test]
fn a_normalisation_works_row_by_row_in_any_layout() {
    let one = Tensor::new(&[2f32], &Device::Cpu).unwrap();
    let x = Tensor::arange(1f32, 13., &Device::Cpu).unwrap().reshape((2, 3, 2)).unwrap();
    let x = x.transpose(1, 2).unwrap();
    for dtype in [DType::F32, DType::F16, DType::BF16] {
        let n = RmsNorm {
            weight: one.broadcast_as(3).unwrap().to_dtype(dtype).unwrap(),
            eps: 0f64.to_bits(),
        };
        let y = n.forward(&x.to_dtype(dtype).unwrap()).unwrap();
        assert_eq!((y.dims(), y.dtype()), (&[2, 2, 3][..], dtype));
        for (b, i) in [(0, 0), (0, 1), (1, 0), (1, 1)] {
            let row = x.get(b).unwrap().get(i).unwrap().to_dtype(dtype).unwrap();
            let alone = n.forward(&row.reshape((1, 3)).unwrap()).unwrap();
            let alone = flat(&alone.to_dtype(DType::F32).unwrap());
            let here = y.get(b).unwrap().get(i).unwrap().to_dtype(DType::F32).unwrap();
            close(&flat(&here), &alone);
        }
    }
    let n = RmsNorm { weight: one.broadcast_as(3).unwrap(), eps: 0f64.to_bits() };
    let r = (35f32 / 3.).sqrt();
    close(&flat(&n.forward(&x).unwrap())[..3], &[2. / r, 6. / r, 10. / r]);
}

#[test]
fn a_normalisation_refuses_a_weight_that_is_too_large() {
    let one = Tensor::new(&[[[2f32]]], &Device::Cpu).unwrap();
    let n = RmsNorm {
        weight: one.broadcast_as((1 << 62, 1, 1)).unwrap(),
        eps: 0f64.to_bits(),
    };
    let x = Tensor::ones((4, 4), DType::F32, &Device::Cpu).unwrap();
    assert!(matches!(n.forward(&x), Err(ModelError::TooLarge)));
    let x = x.transpose(0, 1).unwrap();
    assert!(matches!(n.forward(&x), Err(ModelError::TooLarge)));
}

#[test]
fn empty_features_that_were_narrowed_are_normalised_and_projected() {
    let t = Tensor::zeros((2, 2), DType::F32, &Device::Cpu).unwrap();
    let past = t.narrow(0, 2, 0).unwrap().narrow(1, 1, 1).unwrap();
    let past = past.reshape((0, 2)).unwrap();
    let n = RmsNorm {
        weight: Tensor::new(&[1f32, 2.], &Device::Cpu).unwrap(),
        eps: 0f64.to_bits(),
    };
    assert_eq!(n.forward(&past).unwrap().dims(), &[0, 2]);
    let e = Embedding { embeddings: past.clone(), hidden_size: 2 };
    let none = Tensor::zeros((1, 0), DType::U32, &Device::Cpu).unwrap();
    assert_eq!(e.forward(&none).unwrap().dims(), &[1, 0, 2]);
    let y = mlp(Activation::Sigmoid, 3).forward(&past).unwrap();
    assert_eq!(y.dims(), &[0, 2]);
}

#[test]
fn an_embedding_looks_up_rows() {
    let table = Tensor::new(&[[1f32, 2.], [3., 4.], [5., 6.]], &Device::Cpu).unwrap();
    let e = Embedding { embeddings: table, hidden_size: 2 };
    let ids = Tensor::new(&[[2u32, 0], [1, 1]], &Device::Cpu).unwrap();
    let y = e.forward(&ids).unwrap();
    assert_eq!(y.dims(), &[2, 2, 2]);
    assert_eq!(flat(&y), vec![5., 6., 1., 2., 3., 4., 3., 4.]);
    // The largest number stands for no token.
    let ids = Tensor::new(&[u32::MAX, 1], &Device::Cpu).unwrap();
    assert_eq!(flat(&e.clone().forward(&ids).unwrap()), vec![0., 0., 3., 4.]);
    let ids = Tensor::new(&[3u32], &Device::Cpu).unwrap();
    assert!(e.forward(&ids).is_err());
    let ids = Tensor::new(&[1f32], &Device::Cpu).unwrap();
    assert!(e.forward(&ids).is_err());
}

#[test]
fn rotary_angles_are_positions_times_frequencies() {
    let r = RotaryEmbedding::new(DType::F32, &config(), &Device::Cpu).unwrap();
    assert_eq!(r.sin.dims(), &[6, 2]);
    let mut sines = Vec::new();
    let mut cosines = Vec::new();
    for p in 0..6 {
        for f in [1f32, 1. / 100.] {
            sines.push((p as f32 * f).sin());
            cosines.push((p as f32 * f).cos());
        }
    }
    close(&flat(&r.sin), &sines);
    close(&flat(&r.cos), &cosines);
}

#[test]
fn rotary_angles_exist_for_odd_heads_and_for_none() {
    let mut c = config();
    c.hidden_size = 6;
    let r = RotaryEmbedding::new(DType::F32, &c, &Device::Cpu).unwrap();
    assert_eq!(r.cos.dims(), &[6, 2]);
    c.hidden_size = 1;
    let r = RotaryEmbedding::new(DType::F32, &c, &Device::Cpu).unwrap();
    assert_eq!(r.cos.dims(), &[6, 0]);
    // The key heads do not matter.
    c = config();
    c.num_key_value_heads = 0;
    assert!(RotaryEmbedding::new(DType::F32, &c, &Device::Cpu).is_ok());
    assert!(RotaryEmbedding::new(DType::F64, &config(), &Device::Cpu).is_ok());
    // Integers cannot hold angles.
    assert!(RotaryEmbedding::new(DType::U32, &config(), &Device::Cpu).is_err());
    // More positions than can be counted in 32 bits.
    c = config();
    c.max_position_embeddings = 1 << 32;
    assert!(RotaryEmbedding::new(DType::F32, &c, &Device::Cpu).is_err());
}

#[test]
fn queries_and_keys_are_rotated_by_their_positions() {
    let r = RotaryEmbedding::new(DType::F32, &config(), &Device::Cpu).unwrap();
    let q = Tensor::new(&[1f32, 2., 3., 4.], &Device::Cpu).unwrap();
    let q = q.reshape((1, 1, 1, 4)).unwrap();
    let k = (&q * 2.0).unwrap();
    let (qe, ke) = r.apply_rotary_emb_qkv(&q, &k, 3).unwrap();
    let (a, b) = (3f32, 0.03f32);
    let expected = [
        1. * a.cos() - 3. * a.sin(),
        2. * b.cos() - 4. * b.sin(),
        3. * a.cos() + 1. * a.sin(),
        4. * b.cos() + 2. * b.sin(),
    ];
    close(&flat(&qe), &expected);
    close(&flat(&ke), &expected.map(|x| 2. * x));
    let (qe, _) = r.clone().apply_rotary_emb_qkv(&q, &k, 0).unwrap();
    close(&flat(&qe), &[1., 2., 3., 4.]);
}

#[test]
fn a_row_is_rotated_alike_in_a_prompt_and_alone() {
    let r = RotaryEmbedding::new(DType::F32, &config(), &Device::Cpu).unwrap();
    let q = Tensor::arange(0f32, 24., &Device::Cpu).unwrap().reshape((1, 2, 3, 4)).unwrap();
    let k = Tensor::arange(5f32, 17., &Device::Cpu).unwrap().reshape((1, 1, 3, 4)).unwrap();
    let (qe, ke) = r.apply_rotary_emb_qkv(&q, &k, 2).unwrap();
    for p in 0..3 {
        let (q1, k1) = (q.narrow(2, p, 1).unwrap(), k.narrow(2, p, 1).unwrap());
        let (q1, k1) = r.apply_rotary_emb_qkv(&q1, &k1, 2 + p).unwrap();
        assert_eq!(flat(&q1), flat(&qe.narrow(2, p, 1).unwrap()));
        assert_eq!(flat(&k1), flat(&ke.narrow(2, p, 1).unwrap()));
    }
}

#[test]
fn positions_beyond_the_last_are_refused() {
    let r = RotaryEmbedding::new(DType::F32, &config(), &Device::Cpu).unwrap();
    let q = Tensor::ones((1, 1, 2, 4), DType::F32, &Device::Cpu).unwrap();
    assert!(r.apply_rotary_emb_qkv(&q, &q, 4).is_ok());
    assert!(r.apply_rotary_emb_qkv(&q, &q, 5).is_err());
    assert!(r.apply_rotary_emb_qkv(&q, &q, usize::MAX).is_err());
    let none = Tensor::ones((1, 1, 0, 4), DType::F32, &Device::Cpu).unwrap();
    let res = r.apply_rotary_emb_qkv(&none, &none, 0);
    assert!(matches!(res, Err(ModelError::ShortAxis)));
    // Heads of another size, and of an odd one.
    let odd = Tensor::ones((1, 1, 1, 3), DType::F32, &Device::Cpu).unwrap();
    let res = r.apply_rotary_emb_qkv(&odd, &odd, 0);
    assert!(matches!(res, Err(ModelError::HeadSize)));
    let flat = Tensor::ones((1, 4), DType::F32, &Device::Cpu).unwrap();
    assert!(r.apply_rotary_emb_qkv(&flat, &flat, 0).is_err());
}

#[test]
fn heads_are_repeated_side_by_side() {
    let x = Tensor::arange(0f32, 8., &Device::Cpu).unwrap().reshape((1, 2, 2, 2)).unwrap();
    let y = repeat_kv(x.clone(), 3).unwrap();
    assert_eq!(y.dims(), &[1, 6, 2, 2]);
    for h in 0..6 {
        let head = y.get(0).unwrap().get(h).unwrap();
        let from = x.get(0).unwrap().get(h / 3).unwrap();
        assert_eq!(flat(&head), flat(&from));
    }
    assert_eq!(flat(&repeat_kv(x.clone(), 1).unwrap()), flat(&x));
    assert!(repeat_kv(x.clone(), 0).is_err());
    assert!(matches!(repeat_kv(x, usize::MAX), Err(ModelError::TooLarge)));
}

fn mlp(act: Activation, wide: usize) -> MLP {
    let gate = Tensor::full(0.5f32, (wide, 2), &Device::Cpu).unwrap();
    let up = Tensor::full(2f32, (wide, 2), &Device::Cpu).unwrap();
    let down = Tensor::ones((2, wide), DType::F32, &Device::Cpu).unwrap();
    MLP {
        gate_proj: Linear { weight: gate, bias: None },
        up_proj: Linear { weight: up, bias: None },
        down_proj: Linear { weight: down, bias: None },
        act_fn: act,
    }
}

#[test]
fn a_feed_forward_block_gates_and_projects() {
    let x = Tensor::new(&[[[1f32, 3.]]], &Device::Cpu).unwrap();
    // Three times two times eight.
    let y = mlp(Activation::Relu, 3).forward(&x).unwrap();
    assert_eq!(flat(&y), vec![48., 48.]);
    let silu = 2. / (1. + (-2f32).exp());
    let y = mlp(Activation::Silu, 3).clone().forward(&x).unwrap();
    close(&flat(&y), &[24. * silu, 24. * silu]);
}

#[test]
fn each_position_passes_a_feed_forward_block_alone() {
    let rows = [[1f32, 3.], [0., 0.], [-2., 0.5]];
    let m = mlp(Activation::Silu, 3);
    let y = m.forward(&Tensor::new(&[rows], &Device::Cpu).unwrap()).unwrap();
    assert_eq!(y.dims(), &[1, 3, 2]);
    for (p, row) in rows.iter().enumerate() {
        let alone = m.forward(&Tensor::new(&[[*row]], &Device::Cpu).unwrap()).unwrap();
        close(&flat(&alone), &flat(&y.narrow(1, p, 1).unwrap()));
    }
    assert_eq!(flat(&y)[2..4], [0., 0.]);
}

#[test]
fn a_feed_forward_block_refuses_what_does_not_fit() {
    let x = Tensor::new(&[[[1f32, 3.]]], &Device::Cpu).unwrap();
    assert!(mlp(Activation::Swiglu, 4).forward(&x).is_err());
    let r = mlp(Activation::Swiglu, 1).forward(&x);
    assert!(matches!(r, Err(ModelError::ShortAxis)));
    let x = Tensor::new(&[[[1u32, 3]]], &Device::Cpu).unwrap();
    assert!(mlp(Activation::Relu, 3).forward(&x).is_err());
}
