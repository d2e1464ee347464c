//! Running many trials: choosing a strategy, sharing the iterations among
//! workers, one worker's loop of trials, and the sum of their win counts.
use crate::permutation::is_permutation;
use crate::strategy::{
    all_find_own_slips, lemma_full_budget_always_wins, lemma_no_budget_always_loses, run,
    run_naive, run_naive_optimized, run_optimized, Setup,
};
use vstd::prelude::*;

verus! {

/// The four ways a group of agents can search the boxes.
#[derive(Clone, Copy, PartialEq, Eq, Debug, Structural)]
pub enum Strategy {
    /// Follow the chain of slips from one's own box ([`run`]).
    CycleFollowing,
    /// Follow the chain, skipping agents whose slip was already seen ([`run_optimized`]).
    CycleFollowingMemoized,
    /// Open distinct boxes drawn at random ([`run_naive`]).
    RandomProbing,
    /// Look at the first slips of a fresh random order ([`run_naive_optimized`]).
    RandomProbingShuffled,
}

impl Strategy {
    /// The strategy follows chains of slips, and its outcome is decided by the layout.
    pub open spec fn follows_cycles(self) -> bool {
        self == Strategy::CycleFollowing || self == Strategy::CycleFollowingMemoized
    }

    /// The strategy keeps marks of slips already seen.
    pub open spec fn uses_marks(self) -> bool {
        self == Strategy::CycleFollowingMemoized
    }
}

/// The name that selects the random-probing family; any other name selects
/// cycle-following.
pub open spec fn names_random_probing(version: Seq<char>) -> bool {
    version == "naive"@
}

/// Picks the strategy from its family's name and whether the optimized
/// variant is wanted.
pub fn select_strategy(version: &str, optimized: bool) -> (s: Strategy)
    ensures
        s == (if names_random_probing(version@) {
            if optimized { Strategy::RandomProbingShuffled } else { Strategy::RandomProbing }
        } else {
            if optimized { Strategy::CycleFollowingMemoized } else { Strategy::CycleFollowing }
        }),
{
    let given: String = version.to_owned();
    let naive: String = "naive".to_owned();
    let random = given == naive;
    if random {
        if optimized {
            Strategy::RandomProbingShuffled
        } else {
            Strategy::RandomProbing
        }
    } else {
        if optimized {
            Strategy::CycleFollowingMemoized
        } else {
            Strategy::CycleFollowing
        }
    }
}

/// Decides one trial on the current layout with the given strategy.
pub fn evaluate(strategy: Strategy, setup: &mut Setup) -> (r: bool)
    requires
        old(setup).well_formed(),
        strategy.uses_marks() ==> old(setup).marks_cleared(),
    ensures
        final(setup).boxes == old(setup).boxes,
        final(setup).count == old(setup).count,
        final(setup).chances == old(setup).chances,
        final(setup).slips_seen@.len() == old(setup).slips_seen@.len(),
        strategy.follows_cycles() ==> r == all_find_own_slips(
            old(setup).boxes@,
            old(setup).count as nat,
            old(setup).chances as nat,
        ),
        old(setup).chances >= old(setup).count ==> r,
        old(setup).chances == 0 && old(setup).count > 0 ==> !r,
{
    proof {
        if setup.chances >= setup.count {
            lemma_full_budget_always_wins(setup.boxes@, setup.count as nat, setup.chances as nat);
        }
        if setup.count > 0 {
            lemma_no_budget_always_loses(setup.boxes@, setup.count as nat);
        }
    }
    match strategy {
        Strategy::CycleFollowing => run(setup),
        Strategy::CycleFollowingMemoized => run_optimized(setup),
        Strategy::RandomProbing => run_naive(setup),
        Strategy::RandomProbingShuffled => run_naive_optimized(setup),
    }
}

/// The sum of a sequence of counts.
pub open spec fn total_of(s: Seq<usize>) -> int
    decreases s.len(),
{
    if s.len() == 0 {
        0
    } else {
        total_of(s.drop_last()) + s.last()
    }
}

/// How `total` iterations are shared among `workers` workers: each gets
/// `total / workers`, and the last one the remainder `total % workers` as well.
pub open spec fn share_of(total: nat, workers: nat, worker: int) -> nat {
    if worker == workers - 1 {
        total / workers + total % workers
    } else {
        total / workers
    }
}

/// The number of iterations each of `workers` workers runs: as even a split as
/// there is, with the remainder going to the last worker alone, so that the
/// shares add up to `total` exactly.
pub fn worker_shares(total: usize, workers: usize) -> (shares: Vec<usize>)
    requires
        workers > 0,
    ensures
        shares@.len() == workers,
        forall|i: int| 0 <= i < workers ==> #[trigger] shares@[i] == share_of(total as nat, workers as nat, i),
        total_of(shares@) == total,
{
    let base = total / workers;
    let rest = total % workers;
    proof {
        vstd::arithmetic::div_mod::lemma_fundamental_div_mod(total as int, workers as int);
        assert(base * workers == workers * base) by (nonlinear_arith);
        assert(base <= base * workers) by (nonlinear_arith)
            requires
                workers > 0,
        ;
    }
    let mut shares: Vec<usize> = Vec::new();
    let mut i: usize = 0;
    while i < workers
        invariant
            base == total / workers,
            rest == total % workers,
            base * workers + rest == total,
            base + rest <= total,
            i <= workers,
            shares@.len() == i,
            forall|k: int| 0 <= k < i ==> #[trigger] shares@[k] == share_of(total as nat, workers as nat, k),
            total_of(shares@) == (if i == workers { total as int } else { base * i }),
        decreases workers - i,
    {
        let ghost before = shares@;
        let share = if i + 1 == workers {
            base + rest
        } else {
            base
        };
        shares.push(share);
        assert(shares@.drop_last() =~= before);
        assert(base * (i + 1) == base * i + base) by (nonlinear_arith);
        proof {
            if i + 1 == workers {
                assert(base * i + base == base * workers);
            }
        }
        i = i + 1;
    }
    shares
}

/// The sum of the workers' win counts, or `None` where it does not fit.
pub fn combine_wins(partials: &Vec<usize>) -> (r: Option<usize>)
    ensures
        total_of(partials@) <= usize::MAX ==> r == Some(total_of(partials@) as usize),
        total_of(partials@) > usize::MAX ==> r is None,
{
    let mut sum: usize = 0;
    let mut i: usize = 0;
    while i < partials.len()
        invariant
            i <= partials@.len(),
            sum == total_of(partials@.subrange(0, i as int)),
        decreases partials@.len() - i,
    {
        assert(partials@.subrange(0, i + 1).drop_last() =~= partials@.subrange(0, i as int));
        match sum.checked_add(partials[i]) {
            Some(s) => sum = s,
            None => {
                proof {
                    lemma_total_of_prefix_grows(partials@, i as int + 1);
                }
                return None;
            },
        }
        i = i + 1;
    }
    assert(partials@.subrange(0, partials@.len() as int) =~= partials@);
    Some(sum)
}

/// The sum of a prefix never exceeds the sum of the whole sequence.
proof fn lemma_total_of_prefix_grows(s: Seq<usize>, k: int)
    requires
        0 <= k <= s.len(),
    ensures
        total_of(s.subrange(0, k)) <= total_of(s),
    decreases s.len() - k,
{
    if k < s.len() {
        lemma_total_of_prefix_grows(s, k + 1);
        assert(s.subrange(0, k + 1).drop_last() =~= s.subrange(0, k));
    } else {
        assert(s.subrange(0, k) =~= s);
    }
}

/// One worker's loop: a fresh state for `count` agents with `chances` boxes
/// each, then `iterations` trials, each on a freshly shuffled layout, counting
/// the trials won. With as many chances as boxes every trial is won; with none,
/// every trial is lost whenever there is an agent.
pub fn run_worker(strategy: Strategy, count: usize, chances: usize, iterations: usize) -> (wins: usize)
    ensures
        wins <= iterations,
        chances >= count ==> wins == iterations,
        chances == 0 && count > 0 ==> wins == 0,
{
    let mut setup = Setup::new(count, chances, strategy == Strategy::CycleFollowingMemoized);
    let mut wins: usize = 0;
    let mut done: usize = 0;
    while done < iterations
        invariant
            setup.well_formed(),
            setup.count == count,
            setup.chances == chances,
            strategy.uses_marks() ==> setup.slips_seen@.len() == count,
            done <= iterations,
            wins <= done,
            chances >= count ==> wins == done,
            chances == 0 && count > 0 ==> wins == 0,
        decreases iterations - done,
    {
        setup.reset();
        if evaluate(strategy, &mut setup) {
            wins = wins + 1;
        }
        done = done + 1;
    }
    wins
}

} // verus!
