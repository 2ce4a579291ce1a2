use candle_core::{Device, Tensor};
use h2o_qwen2::cache::H2OCache;
use h2o_qwen2::layout::{Capacities, Lengths, QueueLayout};

fn cache(n: usize) -> H2OCache {
    let mut c = H2OCache::new(7, 2, 2);
    let t = Tensor::full(1f32, (1, 2, 1, 2), &Device::Cpu).unwrap();
    for _ in 0..n {
        c.insert(&t, t.clone(), t.clone()).unwrap();
    }
    c
}

#[test]
fn a_cache_reports_its_place_and_its_queues() {
    let c = cache(7);
    let capacities = Capacities {
        hh_k: 1,
        hh_v: 1,
        recent_k: 6,
        recent_v: 6,
        hh_scores: 1,
        recent_scores: 6,
    };
    let l = c.memory_layout(0x1000, 0x140, 64, capacities);
    assert_eq!((l.start, l.end, l.size, l.align), (0x1000, 0x1140, 0x140, 64));
    assert_eq!(l.capacities, capacities);
    assert_eq!(
        l.lengths,
        Lengths { hh_k: 1, hh_v: 1, recent_k: 6, recent_v: 6, hh_scores: 1, recent_scores: 6 }
    );
    assert_eq!((l.hh_capacity, l.recent_capacity, l.num_heads), (1, 6, 2));
}

#[test]
fn a_queue_reports_where_it_ends() {
    let c = cache(7);
    let recent = QueueLayout { start: 0x2000, end: 0x2030, len: 6, capacity: 8 };
    assert_eq!(c.recent_k_layout(0x2000, 8, 8), recent);
    assert_eq!(c.recent_v_layout(0x2000, 8, 8), recent);
    let heavy = QueueLayout { start: 0x2000, end: 0x2008, len: 1, capacity: 4 };
    assert_eq!(c.hh_k_layout(0x2000, 4, 8), heavy);
    assert_eq!(c.hh_v_layout(0x2000, 4, 8), heavy);
}
