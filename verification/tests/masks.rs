use candle_core::{DType, Device, Tensor};
use h2o_qwen2::error::ModelError;
use h2o_qwen2::masks::NEG_INFINITY;
use h2o_qwen2::model::Model;
use h2o_qwen2::nn::{Embedding, RmsNorm};

const X: f32 = f32::NEG_INFINITY;

fn model(window: usize, dtype: DType) -> Model {
    windowed(true, window, dtype)
}

fn windowed(enabled: bool, window: usize, dtype: DType) -> Model {
    let t = Tensor::zeros((3, 2), DType::F32, &Device::Cpu).unwrap();
    let w = Tensor::zeros(2, DType::F32, &Device::Cpu).unwrap();
    Model {
        embed_tokens: Embedding { embeddings: t, hidden_size: 2 },
        layers: Vec::new(),
        norm: RmsNorm { weight: w, eps: 0 },
        use_sliding_window: enabled,
        sliding_window: window,
        max_window_layers: 0,
        device: Device::Cpu,
        dtype,
    }
}

fn rows(t: &Tensor) -> Vec<Vec<f32>> {
    let t = t.contiguous().unwrap();
    t.get(0).unwrap().get(0).unwrap().to_vec2::<f32>().unwrap()
}

#[test]
fn the_bits_are_those_of_negative_infinity() {
    assert_eq!(f32::from_bits(NEG_INFINITY), f32::NEG_INFINITY);
}

#[test]
fn a_position_sees_itself_and_what_came_before() {
    let m = model(10, DType::F32).prepare_causal_attention_mask(1, 3, 0).unwrap();
    assert_eq!(m.dims(), &[1, 1, 3, 3]);
    assert_eq!(rows(&m), vec![vec![0., X, X], vec![0., 0., X], vec![0., 0., 0.]]);
}

#[test]
fn a_window_hides_what_lies_further_back() {
    let m = model(1, DType::F32).prepare_causal_attention_mask(1, 4, 0).unwrap();
    assert_eq!(
        rows(&m),
        vec![
            vec![0., X, X, X],
            vec![0., 0., X, X],
            vec![X, 0., 0., X],
            vec![X, X, 0., 0.],
        ]
    );
    let m = model(0, DType::F32).prepare_causal_attention_mask(1, 2, 0).unwrap();
    assert_eq!(rows(&m), vec![vec![0., X], vec![X, 0.]]);
}

#[test]
fn without_windows_no_past_position_is_closed() {
    let m = windowed(false, 0, DType::F32).prepare_causal_attention_mask(1, 3, 0).unwrap();
    assert_eq!(rows(&m), vec![vec![0., X, X], vec![0., 0., X], vec![0., 0., 0.]]);
}

#[test]
fn a_window_may_be_as_large_as_can_be() {
    let m = model(usize::MAX, DType::F32).prepare_causal_attention_mask(1, 2, 0).unwrap();
    assert_eq!(rows(&m), vec![vec![0., X], vec![0., 0.]]);
}

#[test]
fn earlier_positions_are_all_visible() {
    let m = model(0, DType::F32).prepare_causal_attention_mask(2, 2, 3).unwrap();
    assert_eq!(m.dims(), &[2, 1, 2, 5]);
    assert_eq!(rows(&m), vec![vec![0., 0., 0., 0., X], vec![0., 0., 0., X, 0.]]);
    let second = m.contiguous().unwrap().get(1).unwrap().get(0).unwrap();
    assert_eq!(second.to_vec2::<f32>().unwrap(), rows(&m));
}

#[test]
fn a_mask_has_the_element_type_of_the_model() {
    let m = model(9, DType::F64).prepare_causal_attention_mask(1, 2, 0).unwrap();
    assert_eq!(m.dtype(), DType::F64);
    let m = m.flatten_all().unwrap().to_vec1::<f64>().unwrap();
    assert_eq!(m, vec![0.0, f64::NEG_INFINITY, 0.0, 0.0]);
    // Columns for earlier positions have the model's type and cannot be joined to
    // a mask in single precision.
    assert!(model(9, DType::F64).prepare_causal_attention_mask(1, 2, 1).is_err());
}

#[test]
fn negative_infinity_stays_what_it_is_in_other_types() {
    let a = Tensor::new(&[[1u32, 0]], &Device::Cpu).unwrap();
    for dtype in [DType::F16, DType::BF16, DType::F64] {
        let m = model(9, dtype);
        let causal = m.prepare_causal_attention_mask(1, 2, 0).unwrap();
        assert_eq!(causal.dtype(), dtype);
        assert_eq!(rows(&causal.to_dtype(DType::F32).unwrap()), vec![vec![0., X], vec![0., 0.]]);
        let given = m.prepare_attention_mask(&a).unwrap();
        assert_eq!(given.dtype(), dtype);
        assert_eq!(rows(&given.to_dtype(DType::F32).unwrap()), vec![vec![0., X]; 2]);
    }
}

#[test]
fn a_mask_that_is_too_large_is_refused() {
    let m = model(9, DType::F32);
    let r = m.prepare_causal_attention_mask(1, usize::MAX / 2, 0);
    assert!(matches!(r, Err(ModelError::TooLarge)));
    let r = m.prepare_causal_attention_mask(1, 2, usize::MAX);
    assert!(matches!(r, Err(ModelError::TooLarge)));
    let r = m.prepare_causal_attention_mask(usize::MAX, 2, 0);
    assert!(matches!(r, Err(ModelError::TooLarge)));
}

#[test]
fn a_given_mask_shows_what_is_not_zero() {
    let a = Tensor::new(&[[1u32, 0, 7], [0, 0, 1]], &Device::Cpu).unwrap();
    let m = model(9, DType::F32).prepare_attention_mask(&a).unwrap();
    assert_eq!(m.dims(), &[2, 1, 3, 3]);
    assert_eq!(rows(&m), vec![vec![0., X, 0.]; 3]);
    let second = m.get(1).unwrap().get(0).unwrap().to_vec2::<f32>().unwrap();
    assert_eq!(second, vec![vec![X, X, 0.]; 3]);
}

#[test]
fn a_given_mask_works_with_other_integers() {
    let a = Tensor::new(&[[1u8, 0]], &Device::Cpu).unwrap();
    let m = model(9, DType::F32).prepare_attention_mask(&a).unwrap();
    assert_eq!(rows(&m), vec![vec![0., X]; 2]);
    let a = a.to_dtype(DType::I64).unwrap();
    let m = model(9, DType::F64).prepare_attention_mask(&a).unwrap();
    assert_eq!(m.dtype(), DType::F64);
}

#[test]
fn a_given_mask_must_be_a_matrix_of_integers() {
    let m = model(9, DType::F32);
    let a = Tensor::new(&[[1f32, 0.]], &Device::Cpu).unwrap();
    assert!(m.prepare_attention_mask(&a).is_err());
    let a = Tensor::new(&[1u32, 0], &Device::Cpu).unwrap();
    assert!(m.prepare_attention_mask(&a).is_err());
    let a = Tensor::zeros((0, 2), DType::U32, &Device::Cpu).unwrap();
    assert!(m.prepare_attention_mask(&a).is_err());
}
