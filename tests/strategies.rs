use prisoners::permutation::allocate_boxes;
use prisoners::strategy::{finds_within, run, run_naive, run_naive_optimized, run_optimized, Setup};

fn setup_with(boxes: Vec<usize>, slips_seen: Vec<bool>, chances: usize) -> Setup {
    let count = boxes.len();
    Setup { boxes, slips_seen, count, chances, rng: rand::thread_rng() }
}

#[test]
fn test_run_success_known_layout() {
    // The layout has cycles of length 5, 4 and 1.
    let mut setup = Setup {
        boxes: vec![4, 3, 9, 2, 7, 8, 6, 5, 0, 1],
        slips_seen: vec![],
        count: 10,
        chances: 5,
        rng: rand::thread_rng(),
    };

    assert!(run(&mut setup));
}

#[test]
fn test_run_failure_known_layout() {
    // A single cycle longer than the chances: every agent fails.
    let mut setup = Setup {
        boxes: vec![1, 2, 3, 4, 5, 6, 7, 8, 9, 0],
        slips_seen: vec![],
        count: 10,
        chances: 5,
        rng: rand::thread_rng(),
    };

    assert_eq!(run(&mut setup), false);
}

#[test]
fn test_run_optimized_success_known_layout() {
    let mut setup = Setup {
        boxes: vec![4, 3, 9, 2, 7, 8, 6, 5, 0, 1],
        slips_seen: vec![false; 10],
        count: 10,
        chances: 5,
        rng: rand::thread_rng(),
    };

    assert!(run_optimized(&mut setup));
}

#[test]
fn test_run_optimized_failure_known_layout() {
    let mut setup = Setup {
        boxes: vec![1, 2, 3, 4, 5, 6, 7, 8, 9, 0],
        slips_seen: vec![false; 10],
        count: 10,
        chances: 5,
        rng: rand::thread_rng(),
    };

    assert_eq!(run_optimized(&mut setup), false);
}

#[test]
fn test_run_naive_success_known_layout() {
    // With as many chances as boxes, every agent finds its slip.
    let mut setup = Setup {
        boxes: vec![4, 3, 9, 2, 7, 8, 6, 5, 0, 1],
        slips_seen: vec![],
        count: 10,
        chances: 10,
        rng: rand::thread_rng(),
    };

    assert!(run_naive(&mut setup));
}

#[test]
fn test_run_naive_optimized_success_known_layout() {
    let mut setup = Setup {
        boxes: vec![4, 3, 9, 2, 7, 8, 6, 5, 0, 1],
        slips_seen: vec![],
        count: 10,
        chances: 10,
        rng: rand::thread_rng(),
    };

    assert!(run_naive_optimized(&mut setup));
}

#[test]
fn known_layouts_with_full_budget_win_by_cycles() {
    let cycle = vec![1, 2, 3, 4, 5, 6, 7, 8, 9, 0];
    assert!(run(&mut setup_with(cycle.clone(), vec![], 10)));
    assert!(run_optimized(&mut setup_with(cycle.clone(), vec![false; 10], 10)));
    assert!(!run(&mut setup_with(cycle.clone(), vec![], 9)));
    assert!(!run_optimized(&mut setup_with(cycle, vec![false; 10], 9)));
}

#[test]
fn documented_layout_needs_five_chances() {
    let layout = vec![4, 3, 9, 2, 7, 8, 6, 5, 0, 1];
    assert!(!run(&mut setup_with(layout.clone(), vec![], 4)));
    assert!(!run_optimized(&mut setup_with(layout.clone(), vec![false; 10], 4)));
    assert!(run(&mut setup_with(layout.clone(), vec![], 6)));
    assert!(run_optimized(&mut setup_with(layout, vec![false; 10], 6)));
}

#[test]
fn baseline_and_memoized_agree_on_random_layouts() {
    for n in [0usize, 1, 2, 7, 20, 100] {
        for _ in 0..50 {
            let boxes = allocate_boxes(n);
            for chances in [0usize, 1, n / 3, n / 2, n] {
                let a = run(&mut setup_with(boxes.clone(), vec![], chances));
                let b = run_optimized(&mut setup_with(boxes.clone(), vec![false; n], chances));
                assert_eq!(a, b);
            }
        }
    }
}

#[test]
fn random_probing_with_full_budget_always_wins() {
    for n in [1usize, 2, 10, 50] {
        for _ in 0..50 {
            let boxes = allocate_boxes(n);
            assert!(run_naive(&mut setup_with(boxes.clone(), vec![], n)));
            assert!(run_naive_optimized(&mut setup_with(boxes.clone(), vec![], n)));
            assert!(run_naive(&mut setup_with(boxes.clone(), vec![], n + 3)));
            assert!(run_naive_optimized(&mut setup_with(boxes, vec![], n + 3)));
        }
    }
}

#[test]
fn no_chances_always_lose() {
    let layout = vec![0, 1, 2];
    assert!(!run(&mut setup_with(layout.clone(), vec![], 0)));
    assert!(!run_optimized(&mut setup_with(layout.clone(), vec![false; 3], 0)));
    assert!(!run_naive(&mut setup_with(layout.clone(), vec![], 0)));
    assert!(!run_naive_optimized(&mut setup_with(layout, vec![], 0)));
}

#[test]
fn no_agents_always_win() {
    assert!(run(&mut setup_with(vec![], vec![], 0)));
    assert!(run_optimized(&mut setup_with(vec![], vec![], 0)));
    assert!(run_naive(&mut setup_with(vec![], vec![], 0)));
    assert!(run_naive_optimized(&mut setup_with(vec![], vec![], 0)));
}

#[test]
fn identity_layout_wins_with_one_chance() {
    let layout: Vec<usize> = (0..10).collect();
    assert!(run(&mut setup_with(layout.clone(), vec![], 1)));
    assert!(run_optimized(&mut setup_with(layout, vec![false; 10], 1)));
}

#[test]
fn memoized_marks_every_slip_of_a_won_trial() {
    let mut setup = setup_with(vec![4, 3, 9, 2, 7, 8, 6, 5, 0, 1], vec![false; 10], 5);
    assert!(run_optimized(&mut setup));
    assert_eq!(setup.slips_seen, vec![true; 10]);
    assert_eq!(setup.boxes, vec![4, 3, 9, 2, 7, 8, 6, 5, 0, 1]);
}

#[test]
fn finds_within_scans_only_the_first_chances() {
    let opened = vec![3, 1, 4, 0, 2];
    assert!(finds_within(&opened, 3, 1));
    assert!(!finds_within(&opened, 1, 1));
    assert!(finds_within(&opened, 1, 2));
    assert!(!finds_within(&opened, 2, 4));
    assert!(finds_within(&opened, 2, 5));
    assert!(finds_within(&opened, 2, 50));
    assert!(!finds_within(&opened, 7, 50));
    assert!(!finds_within(&opened, 3, 0));
    assert!(!finds_within(&vec![], 0, 3));
}
