use candle_core::{DType, Device, Tensor};
use h2o_qwen2::cache::{DECAY, H2OCache};
use h2o_qwen2::error::ModelError;

/// A key or value of one position, two heads and two features, all of one value.
fn entry(x: f32) -> Tensor {
    Tensor::full(x, (1, 2, 1, 2), &Device::Cpu).unwrap()
}

fn query() -> Tensor {
    entry(1.0)
}

fn tags(t: &Tensor) -> Vec<f32> {
    let n = t.dims()[2];
    let flat = t.contiguous().unwrap().flatten_all().unwrap().to_vec1::<f32>().unwrap();
    (0..n).map(|i| flat[2 * i]).collect()
}

fn scores(q: &std::collections::VecDeque<u64>) -> Vec<f64> {
    q.iter().map(|b| f64::from_bits(*b)).collect()
}

fn filled(total: usize, n: usize) -> H2OCache {
    let mut c = H2OCache::new(total, 2, 2);
    for i in 0..n {
        c.insert(&query(), entry(i as f32), entry(100.0 + i as f32)).unwrap();
    }
    c
}

#[test]
fn decay_is_ninety_nine_hundredths() {
    assert_eq!(f64::from_bits(DECAY), 0.99);
}

#[test]
fn capacity_is_split_one_to_six() {
    let c = H2OCache::new(35, 2, 2);
    assert_eq!((c.hh_capacity, c.recent_capacity), (5, 30));
    let c = H2OCache::new(10, 2, 2);
    assert_eq!((c.hh_capacity, c.recent_capacity), (1, 8));
    let c = H2OCache::new(2, 2, 2);
    assert_eq!((c.hh_capacity, c.recent_capacity), (0, 1));
    assert_eq!((c.num_heads, c.head_dim), (2, 2));
    assert!(c.hh_k.is_empty() && c.recent_k.is_empty());
}

#[test]
fn entries_are_read_in_the_order_they_came_while_there_is_room() {
    let c = filled(7, 7);
    assert_eq!(c.hh_k.len(), 1);
    assert_eq!(c.recent_k.len(), 6);
    let (k, v) = c.get_all_kv().unwrap();
    assert_eq!(k.dims(), &[1, 2, 7, 2]);
    assert_eq!(tags(&k), vec![0.0, 1.0, 2.0, 3.0, 4.0, 5.0, 6.0]);
    assert_eq!(tags(&v), vec![100.0, 101.0, 102.0, 103.0, 104.0, 105.0, 106.0]);
}

#[test]
fn a_score_grows_by_the_share_of_one_head() {
    let c = filled(7, 3);
    assert_eq!(scores(&c.recent_scores), vec![1.0, 0.5, 0.0]);
    assert!(c.hh_scores.is_empty());
}

#[test]
fn a_heavy_hitter_keeps_its_score_and_then_fades() {
    let c = filled(7, 7);
    assert_eq!(scores(&c.hh_scores), vec![3.0]);
    let c = filled(7, 8);
    assert_eq!(scores(&c.hh_scores), vec![3.0 * 0.99 + 0.5]);
    assert_eq!(scores(&c.recent_scores), vec![2.5, 2.0, 1.5, 1.0, 0.5, 0.0]);
}

#[test]
fn an_entry_with_no_more_attention_than_the_least_is_let_go() {
    let c = filled(7, 8);
    let (k, _) = c.get_all_kv().unwrap();
    assert_eq!(tags(&k), vec![0.0, 2.0, 3.0, 4.0, 5.0, 6.0, 7.0]);
}

#[test]
fn a_heavier_entry_replaces_the_least_heavy_hitter() {
    let mut c = filled(14, 14);
    assert_eq!((c.hh_k.len(), c.recent_k.len()), (2, 12));
    c.hh_scores = [5.0f64, 1.0].iter().map(|x| x.to_bits()).collect();
    c.recent_scores[0] = 2.0f64.to_bits();
    c.take_in(entry(50.0), entry(150.0));
    assert_eq!(scores(&c.hh_scores), vec![5.0, 2.0]);
    let (k, v) = c.get_all_kv().unwrap();
    assert_eq!(k.dims()[2], 14);
    assert_eq!(tags(&k)[..2], [0.0, 2.0]);
    assert_eq!(tags(&v)[..2], [100.0, 102.0]);
    assert_eq!(*tags(&k).last().unwrap(), 50.0);
    assert_eq!(f64::from_bits(*c.recent_scores.back().unwrap()), 0.0);
}

#[test]
fn an_equal_score_replaces_nothing() {
    let mut c = filled(7, 7);
    c.hh_scores[0] = 2.0f64.to_bits();
    c.recent_scores[0] = 2.0f64.to_bits();
    c.take_in(entry(50.0), entry(150.0));
    let (k, _) = c.get_all_kv().unwrap();
    assert_eq!(tags(&k), vec![0.0, 2.0, 3.0, 4.0, 5.0, 6.0, 50.0]);
}

#[test]
fn the_first_of_the_smallest_scores_is_found() {
    let mut c = filled(28, 28);
    assert_eq!(c.hh_k.len(), 4);
    c.hh_scores = [3.0f64, -0.0, 0.0, 7.0].iter().map(|x| x.to_bits()).collect();
    assert_eq!(c.find_min_score_index(), Some(1));
    c.hh_scores = [3.0f64, 1.0, -2.0, -5.0].iter().map(|x| x.to_bits()).collect();
    assert_eq!(c.find_min_score_index(), Some(3));
    c.hh_scores = [f64::INFINITY, 1e300, 1e-300, 2e-300].iter().map(|x| x.to_bits()).collect();
    assert_eq!(c.find_min_score_index(), Some(2));
    assert_eq!(H2OCache::new(7, 2, 2).find_min_score_index(), None);
}

#[test]
fn a_score_that_is_no_number_is_an_error_once_it_must_be_compared() {
    let mut c = filled(14, 14);
    c.hh_scores[1] = f64::NAN.to_bits();
    let before = c.recent_k.len();
    let r = c.insert(&query(), entry(50.0), entry(150.0));
    assert!(matches!(r, Err(ModelError::UnorderedScores)));
    assert_eq!(c.recent_k.len(), before);
    let (k, _) = c.get_all_kv().unwrap();
    assert_eq!(*tags(&k).last().unwrap(), 13.0);
}

#[test]
fn a_lone_heavy_hitter_whose_score_is_no_number_stays() {
    let mut c = filled(7, 7);
    c.hh_scores[0] = f64::NAN.to_bits();
    c.insert(&query(), entry(50.0), entry(150.0)).unwrap();
    let (k, _) = c.get_all_kv().unwrap();
    assert_eq!(tags(&k), vec![0.0, 2.0, 3.0, 4.0, 5.0, 6.0, 50.0]);
}

#[test]
fn without_heavy_hitters_the_oldest_entry_goes() {
    let c = filled(2, 4);
    assert_eq!((c.hh_capacity, c.recent_capacity), (0, 1));
    let (k, _) = c.get_all_kv().unwrap();
    assert_eq!(tags(&k), vec![3.0]);
}

#[test]
fn each_key_stands_with_its_own_value_and_nothing_twice() {
    let mut c = H2OCache::new(21, 2, 2);
    for i in 0..60 {
        // Queries of several lengths, so that the scores differ.
        let q = Tensor::full(0.5f32, (1, 2, 1 + i % 4, 2), &Device::Cpu).unwrap();
        c.insert(&q, entry(i as f32), entry(100.0 + i as f32)).unwrap();
        let (k, v) = c.get_all_kv().unwrap();
        let (k, v) = (tags(&k), tags(&v));
        assert_eq!(k.len(), std::cmp::min(i + 1, 21));
        for (n, x) in k.iter().enumerate() {
            assert_eq!(v[n], 100.0 + x);
            assert!(!k[..n].contains(x));
        }
    }
}

#[test]
fn the_window_holds_the_newest_entries() {
    let c = filled(7, 40);
    let (k, v) = c.get_all_kv().unwrap();
    assert_eq!(tags(&k)[1..], [34.0, 35.0, 36.0, 37.0, 38.0, 39.0]);
    assert_eq!(tags(&v)[1..], [134.0, 135.0, 136.0, 137.0, 138.0, 139.0]);
    assert_eq!(k.dims()[2], 7);
}

#[test]
fn attention_that_cannot_be_recorded_does_not_stop_an_insertion() {
    // Two query heads against one key head: the products cannot be formed.
    let mut c = H2OCache::new(7, 2, 2);
    let k = Tensor::full(1f32, (1, 1, 1, 2), &Device::Cpu).unwrap();
    for _ in 0..3 {
        c.insert(&query(), k.clone(), k.clone()).unwrap();
    }
    assert_eq!(scores(&c.recent_scores), vec![0.0, 0.0, 0.0]);
    assert!(c.update_attention_for_new_kv(&query()).is_err());
}

#[test]
fn attention_is_recorded_in_any_layout() {
    // Four heads of one position, a whole matrix apart, and keys that all heads share.
    let q = Tensor::arange(0f32, 8., &Device::Cpu).unwrap().reshape((1, 1, 4, 2)).unwrap();
    let q = q.transpose(1, 2).unwrap();
    let k = Tensor::new(&[[[[0.5f32, -1.], [0.25, 0.75]]]], &Device::Cpu).unwrap();
    let k = k.broadcast_as((1, 4, 2, 2)).unwrap();
    let recorded = |q: &Tensor, k: &Tensor| {
        let mut c = H2OCache::new(14, 4, 2);
        c.insert(q, k.clone(), k.clone()).unwrap();
        c.update_attention_for_new_kv(q).unwrap();
        scores(&c.recent_scores)
    };
    let plain = recorded(&q.contiguous().unwrap(), &k.contiguous().unwrap());
    assert!((plain[0] - 0.5).abs() < 1e-6);
    assert_eq!(recorded(&q, &k), plain);
    // One position many times over, as far apart as the storage reaches.
    let q = Tensor::zeros((1, 1, 256, 256), DType::F32, &Device::Cpu).unwrap();
    let q = q.transpose(1, 2).unwrap();
    let k = Tensor::zeros((1, 1, 8, 256), DType::F32, &Device::Cpu).unwrap();
    let k = k.broadcast_as((1, 256, 8, 256)).unwrap();
    let mut c = H2OCache::new(14, 256, 256);
    c.insert(&q, k.clone(), k).unwrap();
    c.update_attention_for_new_kv(&q).unwrap();
    assert!((scores(&c.recent_scores)[0] - 8. / 256.).abs() < 1e-6);
}

#[test]
fn a_failing_key_stops_the_recording() {
    let mut c = filled(7, 2);
    let bad = Tensor::full(1f32, (1, 1, 1, 2), &Device::Cpu).unwrap();
    c.insert(&query(), bad.clone(), bad).unwrap();
    assert_eq!(scores(&c.recent_scores), vec![1.0, 0.5, 0.0]);
    assert!(c.update_attention_for_new_kv(&query()).is_err());
    // The two keys before the one that failed have been recorded.
    assert_eq!(scores(&c.recent_scores), vec![1.5, 1.0, 0.0]);
}

#[test]
fn only_single_precision_attention_is_recorded() {
    let mut c = H2OCache::new(7, 2, 2);
    let k = entry(1.0).to_dtype(DType::F64).unwrap();
    c.insert(&k, k.clone(), k.clone()).unwrap();
    assert!(matches!(c.update_attention_for_new_kv(&k), Err(ModelError::ElementType)));
    let ids = entry(1.0).to_dtype(DType::U32).unwrap();
    assert!(matches!(c.update_attention_for_new_kv(&ids), Err(ModelError::ElementType)));
}

#[test]
fn a_query_of_several_positions_counts_each() {
    let mut c = filled(7, 1);
    let q = Tensor::full(1f32, (1, 2, 3, 2), &Device::Cpu).unwrap();
    c.update_attention_for_new_kv(&q).unwrap();
    assert_eq!(scores(&c.recent_scores), vec![1.5]);
}

#[test]
fn queries_without_heads_are_refused() {
    let mut c = H2OCache::new(7, 2, 2);
    let none = Tensor::zeros((1, 0, 1, 2), DType::F32, &Device::Cpu).unwrap();
    c.insert(&none, none.clone(), none.clone()).unwrap();
    assert!(c.update_attention_for_new_kv(&none).is_err());
}

#[test]
fn queries_without_positions_record_nothing() {
    let mut c = filled(7, 2);
    let none = Tensor::zeros((1, 2, 0, 2), DType::F32, &Device::Cpu).unwrap();
    assert!(c.update_attention_for_new_kv(&none).is_err());
    assert_eq!(scores(&c.recent_scores), vec![0.5, 0.0]);
    c.insert(&none, entry(2.0), entry(2.0)).unwrap();
    assert_eq!(c.recent_k.len(), 3);
}

#[test]
fn queries_of_other_head_counts_record_nothing() {
    let mut c = filled(7, 2);
    let three = Tensor::full(1f32, (1, 3, 1, 2), &Device::Cpu).unwrap();
    assert!(c.update_attention_for_new_kv(&three).is_err());
    assert_eq!(scores(&c.recent_scores), vec![0.5, 0.0]);
}

#[test]
fn empty_entries_that_were_narrowed_can_be_read() {
    let mut c = H2OCache::new(7, 2, 2);
    let t = Tensor::zeros((1, 1, 2, 2), DType::F32, &Device::Cpu).unwrap();
    let past = t.narrow(2, 2, 0).unwrap().narrow(3, 2, 0).unwrap();
    c.insert(&query(), past.clone(), past.clone()).unwrap();
    c.insert(&query(), past.clone(), past).unwrap();
    let (k, v) = c.get_all_kv().unwrap();
    assert_eq!(k.dims(), &[1, 1, 0, 0]);
    assert_eq!(v.dims(), &[1, 1, 0, 0]);
}

#[test]
fn a_zero_head_dim_spoils_the_scores() {
    // One over the square root of zero is infinite.
    let mut c = H2OCache::new(7, 2, 0);
    c.insert(&query(), entry(1.0), entry(1.0)).unwrap();
    c.update_attention_for_new_kv(&query()).unwrap();
    assert!(f64::from_bits(c.recent_scores[0]).is_nan());
}

#[test]
fn an_empty_cache_has_nothing_to_read() {
    let c = H2OCache::new(7, 2, 2);
    assert!(matches!(c.get_all_kv(), Err(ModelError::Backend(_))));
}

#[test]
fn entries_that_do_not_fit_together_cannot_be_read() {
    let mut c = filled(7, 1);
    let wide = Tensor::full(1f32, (1, 2, 1, 3), &Device::Cpu).unwrap();
    c.insert(&query(), wide.clone(), wide).unwrap();
    assert!(c.get_all_kv().is_err());
}

#[test]
fn sizes_that_overflow_cannot_be_read() {
    let mut c = H2OCache::new(7, 2, 2);
    let huge = Tensor::zeros((0, 1, 1, 1), DType::F32, &Device::Cpu).unwrap();
    let huge = huge.broadcast_as((0, 1, usize::MAX / 2 + 1, 1)).unwrap();
    c.insert(&query(), huge.clone(), huge.clone()).unwrap();
    c.insert(&query(), huge.clone(), huge).unwrap();
    assert!(matches!(c.get_all_kv(), Err(ModelError::TooLarge)));
}

#[test]
fn a_clone_is_independent() {
    let mut c = filled(7, 3);
    let d = c.clone();
    c.insert(&query(), entry(9.0), entry(9.0)).unwrap();
    assert_eq!((c.recent_k.len(), d.recent_k.len()), (4, 3));
    assert_eq!(scores(&d.recent_scores), vec![1.0, 0.5, 0.0]);
    assert_eq!(tags(&d.get_all_kv().unwrap().0), vec![0.0, 1.0, 2.0]);
}
