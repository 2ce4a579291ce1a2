use h2o_qwen2::generation::{Generation, Progress};

#[test]
fn the_prompt_comes_first_and_then_one_token_at_a_time() {
    let mut g = Generation::new(vec![5, 6, 7], 10, 99);
    assert_eq!((g.start_pos(), g.context()), (0, vec![5, 6, 7]));
    g.accept(8);
    assert_eq!((g.start_pos(), g.context()), (3, vec![8]));
    g.accept(9);
    assert_eq!((g.start_pos(), g.context()), (4, vec![9]));
    assert_eq!(g.generated(), 2);
}

#[test]
fn the_closing_token_ends_it_without_being_shown() {
    let mut g = Generation::new(vec![1], 10, 99);
    assert_eq!(g.accept(2), Progress { show: true, report: false });
    assert!(!g.is_done());
    assert_eq!(g.accept(99), Progress { show: false, report: false });
    assert!(g.is_done());
    assert_eq!(g.generated(), 2);
}

#[test]
fn it_ends_after_the_allowed_number_of_tokens() {
    let mut g = Generation::new(vec![1], 2, 99);
    g.accept(2);
    assert!(!g.is_done());
    g.accept(3);
    assert!(g.is_done());
    assert!(Generation::new(vec![1], 0, 99).is_done());
}

#[test]
fn every_hundredth_token_is_reported() {
    let mut g = Generation::new(vec![1], 300, 99);
    let mut reported = Vec::new();
    for i in 1..=250 {
        if g.accept(7).report {
            reported.push(i);
        }
    }
    assert_eq!(reported, vec![100, 200]);
}

#[test]
fn a_closing_hundredth_token_is_not_reported() {
    let mut g = Generation::new(vec![1], 300, 99);
    for _ in 0..99 {
        g.accept(7);
    }
    assert_eq!(g.accept(99), Progress { show: false, report: false });
}

#[test]
fn the_penalty_covers_the_last_tokens() {
    let mut g = Generation::new(vec![1, 2, 3], 10, 99);
    assert_eq!(g.penalised(2), vec![2, 3]);
    assert_eq!(g.penalised(3), vec![1, 2, 3]);
    assert_eq!(g.penalised(64), vec![1, 2, 3]);
    assert_eq!(g.penalised(0), Vec::<u32>::new());
    g.accept(4);
    assert_eq!(g.penalised(2), vec![3, 4]);
}

#[test]
fn an_empty_prompt_has_an_empty_context() {
    let mut g = Generation::new(Vec::new(), 10, 99);
    assert_eq!((g.start_pos(), g.context()), (0, Vec::<u32>::new()));
    g.accept(4);
    assert_eq!((g.start_pos(), g.context()), (0, vec![4]));
}
