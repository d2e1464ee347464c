//! The trial state and the four search strategies that decide one trial.
use crate::permutation::{identity, identity_seq, is_permutation, lemma_reordered_permutation, draw_from};
use crate::random::shuffle_in_place;
use vstd::prelude::*;

verus! {

/// Where an agent who starts at box `start` stands after opening `steps`
/// boxes, each time moving on to the box named by the slip just found.
pub open spec fn follow_chain(p: Seq<usize>, start: int, steps: nat) -> int
    decreases steps,
{
    if steps == 0 {
        start
    } else {
        p[follow_chain(p, start, (steps - 1) as nat)] as int
    }
}

/// Agent `agent`, following the chain from its own box, finds its own slip
/// among the first `chances` boxes it opens.
pub open spec fn finds_own_slip(p: Seq<usize>, agent: int, chances: nat) -> bool {
    exists|j: nat| 1 <= j <= chances && #[trigger] follow_chain(p, agent, j) == agent
}

/// Every one of the agents `0..count` finds its own slip within `chances`
/// boxes by following the chain: the outcome of a cycle-following trial.
pub open spec fn all_find_own_slips(p: Seq<usize>, count: nat, chances: nat) -> bool {
    forall|a: int| 0 <= a < count ==> #[trigger] finds_own_slip(p, a, chances)
}

/// Following `i` links and then `j` more is following `i + j` links.
pub proof fn lemma_follow_chain_add(p: Seq<usize>, x: int, i: nat, j: nat)
    ensures
        follow_chain(p, follow_chain(p, x, i), j) == follow_chain(p, x, i + j),
    decreases j,
{
    if j > 0 {
        lemma_follow_chain_add(p, x, i, (j - 1) as nat);
        assert(follow_chain(p, x, i + j) == p[follow_chain(p, x, (i + j - 1) as nat)] as int);
    }
}

/// Every box on a chain that returns to its start after `m` links also
/// returns to itself after `m` links: the whole cycle shares one length.
pub proof fn lemma_cycle_shares_length(p: Seq<usize>, a: int, m: nat, j: nat)
    requires
        follow_chain(p, a, m) == a,
    ensures
        follow_chain(p, follow_chain(p, a, j), m) == follow_chain(p, a, j),
{
    lemma_follow_chain_add(p, a, j, m);
    lemma_follow_chain_add(p, a, m, j);
    assert(j + m == m + j);
}

/// On a permutation of `0..n`, a chain that starts in range stays in range.
pub proof fn lemma_follow_chain_in_range(p: Seq<usize>, n: nat, x: int, steps: nat)
    requires
        is_permutation(p, n),
        0 <= x < n,
    ensures
        0 <= follow_chain(p, x, steps) < n,
    decreases steps,
{
    if steps > 0 {
        lemma_follow_chain_in_range(p, n, x, (steps - 1) as nat);
    }
}

/// On a permutation, a chain that meets the same box after `i` and after `j`
/// links (`i <= j`) is back at its start after `j - i` links.
proof fn lemma_follow_chain_cancel(p: Seq<usize>, n: nat, a: int, i: nat, j: nat)
    requires
        is_permutation(p, n),
        0 <= a < n,
        i <= j,
        follow_chain(p, a, i) == follow_chain(p, a, j),
    ensures
        follow_chain(p, a, (j - i) as nat) == a,
    decreases i,
{
    if i > 0 {
        let pi = follow_chain(p, a, (i - 1) as nat);
        let pj = follow_chain(p, a, (j - 1) as nat);
        lemma_follow_chain_in_range(p, n, a, (i - 1) as nat);
        lemma_follow_chain_in_range(p, n, a, (j - 1) as nat);
        assert(p[pi] == p[pj]);
        assert(pi == pj);
        lemma_follow_chain_cancel(p, n, a, (i - 1) as nat, (j - 1) as nat);
    }
}

/// On a permutation of `0..n`, the first `n + 1` boxes of a chain cannot all
/// differ, as only `n` boxes exist.
proof fn lemma_follow_chain_repeats(p: Seq<usize>, n: nat, a: int)
    requires
        is_permutation(p, n),
        0 <= a < n,
    ensures
        exists|i: nat, j: nat| i < j <= n && #[trigger] follow_chain(p, a, i) == #[trigger] follow_chain(p, a, j),
{
    let s = Seq::new(n + 1, |k: int| follow_chain(p, a, k as nat));
    if !s.no_duplicates() {
        let (i, j) = choose|i: int, j: int| 0 <= i < s.len() && 0 <= j < s.len() && i != j && s[i] == s[j];
        if i < j {
            assert(follow_chain(p, a, i as nat) == follow_chain(p, a, j as nat));
        } else {
            assert(follow_chain(p, a, j as nat) == follow_chain(p, a, i as nat));
        }
    } else {
        s.unique_seq_to_set();
        let range = vstd::set_lib::set_int_range(0, n as int);
        vstd::set_lib::lemma_int_range(0, n as int);
        assert forall|x: int| s.to_set().contains(x) implies range.contains(x) by {
            let k = choose|k: int| 0 <= k < s.len() && s[k] == x;
            lemma_follow_chain_in_range(p, n, a, k as nat);
        }
        vstd::set_lib::lemma_len_subset(s.to_set(), range);
    }
}

/// With at least as many chances as boxes, cycle-following always wins: on a
/// permutation of `0..n` every chain is back at its start within `n` links.
pub proof fn lemma_full_budget_always_wins(p: Seq<usize>, n: nat, chances: nat)
    requires
        is_permutation(p, n),
        chances >= n,
    ensures
        all_find_own_slips(p, n, chances),
{
    assert forall|a: int| 0 <= a < n implies #[trigger] finds_own_slip(p, a, chances) by {
        lemma_follow_chain_repeats(p, n, a);
        let (i, j) = choose|i: nat, j: nat| i < j <= n && #[trigger] follow_chain(p, a, i) == #[trigger] follow_chain(p, a, j);
        lemma_follow_chain_cancel(p, n, a, i, j);
        assert(follow_chain(p, a, (j - i) as nat) == a);
    }
}

/// With no chances at all, cycle-following loses whenever there is an agent.
pub proof fn lemma_no_budget_always_loses(p: Seq<usize>, n: nat)
    requires
        n > 0,
    ensures
        !all_find_own_slips(p, n, 0),
{
    assert(!finds_own_slip(p, 0, 0));
}

/// The state of one worker's trials: the box layout, the marks of slips
/// already seen (used by the memoized strategy only), the number of agents
/// and boxes, the boxes each agent may open, and the worker's random source.
pub struct Setup {
    pub boxes: Vec<usize>,
    pub slips_seen: Vec<bool>,
    pub count: usize,
    pub chances: usize,
    pub rng: rand::rngs::ThreadRng,
}

/// All marks cleared: `n` flags, each false.
pub open spec fn cleared(n: nat) -> Seq<bool> {
    Seq::new(n, |i: int| false)
}

impl Setup {
    /// The layout is a permutation of the `count` boxes.
    pub open spec fn well_formed(&self) -> bool {
        is_permutation(self.boxes@, self.count as nat)
    }

    /// One mark per slip, none set: what the memoized strategy starts from.
    pub open spec fn marks_cleared(&self) -> bool {
        self.slips_seen@ == cleared(self.count as nat)
    }

    /// A worker's state for `count` agents with `chances` boxes each; the marks
    /// are allocated only where the memoized strategy will use them.
    pub fn new(count: usize, chances: usize, memoized: bool) -> (s: Setup)
        ensures
            s.well_formed(),
            s.count == count,
            s.chances == chances,
            s.boxes@ == identity_seq(count as nat),
            memoized ==> s.marks_cleared(),
            !memoized ==> s.slips_seen@.len() == 0,
    {
        let slips_seen: Vec<bool> = if memoized {
            vec![false; count]
        } else {
            Vec::new()
        };
        proof {
            if memoized {
                assert(slips_seen@ =~= cleared(count as nat));
            }
        }
        Setup { boxes: identity(count), slips_seen, count, chances, rng: rand::thread_rng() }
    }

    /// Prepares the next trial: the layout is shuffled into a fresh random
    /// permutation and every mark is cleared.
    pub fn reset(&mut self)
        requires
            old(self).well_formed(),
        ensures
            final(self).well_formed(),
            final(self).boxes@.to_multiset() == old(self).boxes@.to_multiset(),
            final(self).count == old(self).count,
            final(self).chances == old(self).chances,
            final(self).slips_seen@ == cleared(old(self).slips_seen@.len()),
    {
        shuffle_in_place(&mut self.boxes, &mut self.rng);
        proof {
            lemma_reordered_permutation(old(self).boxes@, self.boxes@, self.count as nat);
        }
        let ghost shuffled = self.boxes@;
        let n = self.slips_seen.len();
        let mut i: usize = 0;
        while i < n
            invariant
                self.boxes@ == shuffled,
                self.count == old(self).count,
                self.chances == old(self).chances,
                i <= n,
                self.slips_seen@.len() == n,
                forall|k: int| 0 <= k < i ==> !#[trigger] self.slips_seen@[k],
            decreases n - i,
        {
            self.slips_seen.set(i, false);
            i = i + 1;
        }
        assert(self.slips_seen@ =~= cleared(n as nat));
    }
}

/// Whether every flag is set.
fn all_set(flags: &Vec<bool>) -> (r: bool)
    ensures
        r == forall|i: int| 0 <= i < flags@.len() ==> #[trigger] flags@[i],
{
    let mut i: usize = 0;
    while i < flags.len()
        invariant
            i <= flags@.len(),
            forall|k: int| 0 <= k < i ==> #[trigger] flags@[k],
        decreases flags@.len() - i,
    {
        if !flags[i] {
            return false;
        }
        i = i + 1;
    }
    true
}

/// Cycle-following: each agent starts at its own box and keeps opening the
/// box named by the slip it just found, up to `chances` boxes; the trial is
/// won when every agent finds its own slip.
pub fn run(setup: &mut Setup) -> (r: bool)
    requires
        old(setup).well_formed(),
    ensures
        r == all_find_own_slips(old(setup).boxes@, old(setup).count as nat, old(setup).chances as nat),
        *final(setup) == *old(setup),
{
    let count = setup.count;
    let chances = setup.chances;
    let ghost p = setup.boxes@;
    let mut prisoners: Vec<bool> = vec![false; count];
    let mut prisoner: usize = 0;
    while prisoner < count
        invariant
            setup.boxes@ == p,
            is_permutation(p, count as nat),
            prisoner <= count,
            prisoners@.len() == count,
            forall|b: int| 0 <= b < prisoner ==> #[trigger] prisoners@[b] == finds_own_slip(p, b, chances as nat),
        decreases count - prisoner,
    {
        let mut next_box: usize = prisoner;
        let mut found = false;
        let mut step: usize = 0;
        while step < chances && !found
            invariant
                setup.boxes@ == p,
                is_permutation(p, count as nat),
                prisoner < count,
                step <= chances,
                next_box < count,
                found ==> finds_own_slip(p, prisoner as int, chances as nat),
                !found ==> next_box == follow_chain(p, prisoner as int, step as nat),
                !found ==> forall|j: nat| 1 <= j <= step ==> #[trigger] follow_chain(p, prisoner as int, j) != prisoner,
            decreases chances - step,
        {
            let slip = setup.boxes[next_box];
            assert(follow_chain(p, prisoner as int, (step + 1) as nat) == slip);
            if slip == prisoner {
                found = true;
            } else {
                next_box = slip;
            }
            step = step + 1;
        }
        prisoners.set(prisoner, found);
        prisoner = prisoner + 1;
    }
    let r = all_set(&prisoners);
    proof {
        if r {
            assert forall|a: int| 0 <= a < count implies #[trigger] finds_own_slip(p, a, chances as nat) by {
                assert(prisoners@[a]);
            }
        } else {
            let b = choose|b: int| 0 <= b < count && !#[trigger] prisoners@[b];
            assert(!finds_own_slip(p, b, chances as nat));
        }
    }
    r
}

/// Cycle-following with memoized marks: an agent whose slip was already seen
/// on an earlier agent's successful walk wins at once, every slip met on a walk
/// is marked, and the first agent that opens `chances` boxes in vain ends the
/// trial as lost. It decides every layout exactly as [`run`] does.
pub fn run_optimized(setup: &mut Setup) -> (r: bool)
    requires
        old(setup).well_formed(),
        old(setup).marks_cleared(),
    ensures
        r == all_find_own_slips(old(setup).boxes@, old(setup).count as nat, old(setup).chances as nat),
        final(setup).boxes == old(setup).boxes,
        final(setup).count == old(setup).count,
        final(setup).chances == old(setup).chances,
        final(setup).slips_seen@.len() == old(setup).slips_seen@.len(),
{
    let count = setup.count;
    let chances = setup.chances;
    let ghost p = setup.boxes@;
    let mut prisoner: usize = 0;
    while prisoner < count
        invariant
            setup.boxes@ == p,
            setup.boxes == old(setup).boxes,
            setup.count == count,
            setup.chances == chances,
            setup.slips_seen@.len() == count,
            old(setup).slips_seen@.len() == count,
            p == old(setup).boxes@,
            count == old(setup).count,
            chances == old(setup).chances,
            is_permutation(p, count as nat),
            prisoner <= count,
            forall|b: int| 0 <= b < prisoner ==> #[trigger] finds_own_slip(p, b, chances as nat),
            forall|x: int|
                0 <= x < count && #[trigger] setup.slips_seen@[x] ==> finds_own_slip(p, x, chances as nat),
        decreases count - prisoner,
    {
        if !setup.slips_seen[prisoner] {
            let mut next_box: usize = prisoner;
            let mut idx: usize = 0;
            loop
                invariant
                    setup.boxes@ == p,
                    setup.boxes == old(setup).boxes,
                    setup.count == count,
                    setup.chances == chances,
                    setup.slips_seen@.len() == count,
                    old(setup).slips_seen@.len() == count,
                    p == old(setup).boxes@,
                    count == old(setup).count,
                    chances == old(setup).chances,
                    is_permutation(p, count as nat),
                    prisoner < count,
                    idx <= chances,
                    next_box < count,
                    next_box == follow_chain(p, prisoner as int, idx as nat),
                    forall|j: nat| 1 <= j <= idx ==> #[trigger] follow_chain(p, prisoner as int, j) != prisoner,
                    forall|x: int|
                        0 <= x < count && #[trigger] setup.slips_seen@[x] ==> finds_own_slip(p, x, chances as nat)
                            || exists|j: nat| 1 <= j <= idx && #[trigger] follow_chain(p, prisoner as int, j) == x,
                ensures
                    finds_own_slip(p, prisoner as int, chances as nat),
                    forall|x: int|
                        0 <= x < count && #[trigger] setup.slips_seen@[x] ==> finds_own_slip(p, x, chances as nat),
                decreases chances - idx,
            {
                if idx == chances {
                    // This agent's cycle is longer than its chances: the trial is lost.
                    assert(!finds_own_slip(p, prisoner as int, chances as nat));
                    return false;
                }
                let slip = setup.boxes[next_box];
                let ghost walked = (idx + 1) as nat;
                assert(follow_chain(p, prisoner as int, walked) == slip);
                setup.slips_seen.set(slip, true);
                if slip == prisoner {
                    assert(finds_own_slip(p, prisoner as int, chances as nat));
                    assert forall|x: int|
                        0 <= x < count && #[trigger] setup.slips_seen@[x] implies finds_own_slip(p, x, chances as nat) by {
                        if !finds_own_slip(p, x, chances as nat) {
                            if x != slip {
                                let j = choose|j: nat| 1 <= j <= idx && #[trigger] follow_chain(p, prisoner as int, j) == x;
                                lemma_cycle_shares_length(p, prisoner as int, walked, j);
                                assert(follow_chain(p, x, walked) == x);
                            }
                        }
                    }
                    break;
                }
                next_box = slip;
                idx = idx + 1;
            }
        }
        prisoner = prisoner + 1;
    }
    true
}

/// The agent's own slip is among the first `chances` of the slips `opened`,
/// listed in the order the boxes were opened.
pub open spec fn found_within(opened: Seq<usize>, prisoner: usize, chances: nat) -> bool {
    exists|j: int| 0 <= j < chances && 0 <= j < opened.len() && #[trigger] opened[j] == prisoner
}

/// Scans the slips in the order the boxes were opened, giving up after
/// `chances` of them, and tells whether the agent's own slip was met.
pub fn finds_within(opened: &Vec<usize>, prisoner: usize, chances: usize) -> (r: bool)
    ensures
        r == found_within(opened@, prisoner, chances as nat),
{
    let mut idx: usize = 0;
    while idx < chances && idx < opened.len()
        invariant
            forall|j: int| 0 <= j < idx ==> #[trigger] opened@[j] != prisoner,
        decreases opened@.len() - idx,
    {
        if opened[idx] == prisoner {
            return true;
        }
        idx = idx + 1;
    }
    false
}

/// Random probing: each agent opens up to `chances` distinct boxes, each drawn
/// uniformly from those it has not opened yet, and stops at its own slip; the
/// trial is won when every agent finds its own slip. With as many chances as
/// boxes every agent finds it; with none, no agent does.
pub fn run_naive(setup: &mut Setup) -> (r: bool)
    requires
        old(setup).well_formed(),
    ensures
        final(setup).boxes == old(setup).boxes,
        final(setup).count == old(setup).count,
        final(setup).chances == old(setup).chances,
        final(setup).slips_seen == old(setup).slips_seen,
        old(setup).chances >= old(setup).count ==> r,
        old(setup).chances == 0 && old(setup).count > 0 ==> !r,
{
    let count = setup.count;
    let chances = setup.chances;
    let ghost p = setup.boxes@;
    let mut prisoners: Vec<bool> = vec![false; count];
    let mut prisoner: usize = 0;
    while prisoner < count
        invariant
            setup.boxes@ == p,
            setup.boxes == old(setup).boxes,
            setup.count == count,
            setup.chances == chances,
            setup.slips_seen == old(setup).slips_seen,
            count == old(setup).count,
            chances == old(setup).chances,
            is_permutation(p, count as nat),
            prisoner <= count,
            prisoners@.len() == count,
            forall|b: int| 0 <= b < prisoner && chances >= count ==> #[trigger] prisoners@[b],
            forall|b: int| 0 <= b < prisoner && chances == 0 ==> !#[trigger] prisoners@[b],
        decreases count - prisoner,
    {
        assert(p.contains(prisoner));
        let ghost own_box = choose|q: int| 0 <= q < count && p[q] == prisoner;
        let mut unopened = identity(count);
        assert(unopened@[own_box] == own_box);
        let mut found = false;
        let mut step: usize = 0;
        while step < chances && !found
            invariant
                setup.boxes@ == p,
                setup.boxes == old(setup).boxes,
                setup.count == count,
                setup.chances == chances,
                setup.slips_seen == old(setup).slips_seen,
                is_permutation(p, count as nat),
                0 <= own_box < count,
                p[own_box] == prisoner,
                step <= chances,
                unopened@.len() == count - step,
                unopened@.no_duplicates(),
                forall|i: int| 0 <= i < unopened@.len() ==> #[trigger] unopened@[i] < count,
                !found ==> unopened@.contains(own_box as usize),
                chances == 0 ==> !found,
            decreases chances - step,
        {
            let ghost before = unopened@;
            let to_open = draw_from(&mut unopened, &mut setup.rng);
            assert(before.contains(to_open));
            assert forall|i: int| 0 <= i < unopened@.len() implies #[trigger] unopened@[i] < count by {
                assert(unopened@.contains(unopened@[i]));
            }
            if setup.boxes[to_open] == prisoner {
                found = true;
            }
            step = step + 1;
        }
        prisoners.set(prisoner, found);
        prisoner = prisoner + 1;
    }
    let r = all_set(&prisoners);
    proof {
        if count > 0 && chances == 0 {
            assert(!prisoners@[0]);
        }
    }
    r
}

/// Random probing by shuffled order: for each agent the slips are put in a
/// fresh random order and the agent looks at the first `chances` of them; the
/// first agent that misses its own slip ends the trial as lost. With as many
/// chances as boxes every agent finds it; with none, no agent does.
pub fn run_naive_optimized(setup: &mut Setup) -> (r: bool)
    requires
        old(setup).well_formed(),
    ensures
        final(setup).boxes == old(setup).boxes,
        final(setup).count == old(setup).count,
        final(setup).chances == old(setup).chances,
        final(setup).slips_seen == old(setup).slips_seen,
        old(setup).chances >= old(setup).count ==> r,
        old(setup).chances == 0 && old(setup).count > 0 ==> !r,
{
    let count = setup.count;
    let chances = setup.chances;
    let ghost p = setup.boxes@;
    let mut to_open: Vec<usize> = setup.boxes.clone();
    assert(to_open@ =~= p);
    let mut prisoner: usize = 0;
    while prisoner < count
        invariant
            setup.boxes@ == p,
            setup.boxes == old(setup).boxes,
            setup.count == count,
            setup.chances == chances,
            setup.slips_seen == old(setup).slips_seen,
            count == old(setup).count,
            chances == old(setup).chances,
            is_permutation(p, count as nat),
            is_permutation(to_open@, count as nat),
            chances == 0 ==> prisoner == 0,
            prisoner <= count,
        decreases count - prisoner,
    {
        let ghost before = to_open@;
        shuffle_in_place(&mut to_open, &mut setup.rng);
        proof {
            lemma_reordered_permutation(before, to_open@, count as nat);
        }
        if !finds_within(&to_open, prisoner, chances) {
            // One agent has missed its slip, so the whole group has lost.
            proof {
                if chances >= count {
                    assert(to_open@.contains(prisoner));
                    let j = choose|j: int| 0 <= j < to_open@.len() && to_open@[j] == prisoner;
                    assert(found_within(to_open@, prisoner, chances as nat));
                }
            }
            return false;
        }
        prisoner = prisoner + 1;
    }
    true
}

} // verus!
