use prisoners::trials::{combine_wins, evaluate, run_worker, select_strategy, worker_shares, Strategy};
use prisoners::strategy::Setup;

#[test]
fn shares_of_101_among_16_workers() {
    let shares = worker_shares(101, 16);
    assert_eq!(shares.len(), 16);
    assert_eq!(shares.iter().sum::<usize>(), 101);
    assert!(shares[..15].iter().all(|s| *s == 6));
    assert_eq!(shares[15], 11);
    assert_eq!(shares.iter().filter(|s| **s != 101 / 16).count(), 1);
}

#[test]
fn shares_add_up_for_many_splits() {
    for total in [0usize, 1, 15, 16, 17, 1_000_000] {
        for workers in [1usize, 2, 3, 16, 40] {
            let shares = worker_shares(total, workers);
            assert_eq!(shares.len(), workers);
            assert_eq!(shares.iter().sum::<usize>(), total);
            assert!(shares[..workers - 1].iter().all(|s| *s == total / workers));
        }
    }
}

#[test]
fn shares_when_fewer_iterations_than_workers() {
    assert_eq!(worker_shares(3, 4), vec![0, 0, 0, 3]);
}

#[test]
fn combine_wins_sums_or_reports_overflow() {
    assert_eq!(combine_wins(&vec![]), Some(0));
    assert_eq!(combine_wins(&vec![3, 4, 5]), Some(12));
    assert_eq!(combine_wins(&vec![usize::MAX, 0]), Some(usize::MAX));
    assert_eq!(combine_wins(&vec![usize::MAX, 1]), None);
}

#[test]
fn strategy_is_selected_by_name_and_flag() {
    assert_eq!(select_strategy("naive", false), Strategy::RandomProbing);
    assert_eq!(select_strategy("naive", true), Strategy::RandomProbingShuffled);
    assert_eq!(select_strategy("solved", false), Strategy::CycleFollowing);
    assert_eq!(select_strategy("solved", true), Strategy::CycleFollowingMemoized);
    assert_eq!(select_strategy("", true), Strategy::CycleFollowingMemoized);
    assert_eq!(select_strategy("naive ", false), Strategy::CycleFollowing);
}

#[test]
fn evaluate_dispatches_to_each_strategy() {
    let layout = vec![1, 2, 3, 4, 5, 6, 7, 8, 9, 0];
    let mut s = Setup { boxes: layout.clone(), slips_seen: vec![], count: 10, chances: 5, rng: rand::thread_rng() };
    assert!(!evaluate(Strategy::CycleFollowing, &mut s));
    let mut s = Setup { boxes: layout.clone(), slips_seen: vec![false; 10], count: 10, chances: 5, rng: rand::thread_rng() };
    assert!(!evaluate(Strategy::CycleFollowingMemoized, &mut s));
    let mut s = Setup { boxes: layout.clone(), slips_seen: vec![], count: 10, chances: 10, rng: rand::thread_rng() };
    assert!(evaluate(Strategy::RandomProbing, &mut s));
    let mut s = Setup { boxes: layout, slips_seen: vec![], count: 10, chances: 10, rng: rand::thread_rng() };
    assert!(evaluate(Strategy::RandomProbingShuffled, &mut s));
}

#[test]
fn worker_with_full_budget_wins_every_trial() {
    for strategy in [
        Strategy::CycleFollowing,
        Strategy::CycleFollowingMemoized,
        Strategy::RandomProbing,
        Strategy::RandomProbingShuffled,
    ] {
        assert_eq!(run_worker(strategy, 20, 20, 200), 200);
        assert_eq!(run_worker(strategy, 20, 0, 200), 0);
        assert_eq!(run_worker(strategy, 0, 0, 7), 7);
        assert_eq!(run_worker(strategy, 20, 10, 0), 0);
    }
}

#[test]
fn cycle_following_wins_about_31_percent() {
    let iterations = 100_000;
    let wins = run_worker(Strategy::CycleFollowingMemoized, 100, 50, iterations);
    let rate = wins as f64 / iterations as f64;
    assert!(rate > 0.29 && rate < 0.335, "win rate {}", rate);
}

#[test]
fn baseline_cycle_following_wins_about_31_percent() {
    let iterations = 20_000;
    let wins = run_worker(Strategy::CycleFollowing, 100, 50, iterations);
    let rate = wins as f64 / iterations as f64;
    assert!(rate > 0.28 && rate < 0.345, "win rate {}", rate);
}

#[test]
fn random_probing_almost_never_wins() {
    let wins = run_worker(Strategy::RandomProbingShuffled, 100, 50, 200);
    assert_eq!(wins, 0);
    let wins = run_worker(Strategy::RandomProbing, 100, 50, 200);
    assert_eq!(wins, 0);
}
