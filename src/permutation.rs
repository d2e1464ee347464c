//! Box layouts: permutations of `0..n`, and the generators that produce them.
use crate::random::random_below;
use vstd::prelude::*;

verus! {

/// `p` is a permutation of `0..n`: it holds `n` values, each below `n`,
/// no value twice, and every value below `n` somewhere.
pub open spec fn is_permutation(p: Seq<usize>, n: nat) -> bool {
    &&& p.len() == n
    &&& forall|i: int| 0 <= i < p.len() ==> #[trigger] p[i] < n
    &&& p.no_duplicates()
    &&& forall|v: usize| v < n ==> #[trigger] p.contains(v)
}

/// The identity layout `0, 1, ..., n - 1`.
pub open spec fn identity_seq(n: nat) -> Seq<usize> {
    Seq::new(n, |i: int| i as usize)
}

/// A reordering of a permutation of `0..n` is again one.
pub proof fn lemma_reordered_permutation(p: Seq<usize>, q: Seq<usize>, n: nat)
    requires
        is_permutation(p, n),
        q.to_multiset() == p.to_multiset(),
    ensures
        is_permutation(q, n),
{
    broadcast use vstd::seq_lib::group_to_multiset_ensures;

    assert(q.len() == q.to_multiset().len());
    assert(p.len() == p.to_multiset().len());
    assert forall|i: int| 0 <= i < q.len() implies #[trigger] q[i] < n by {
        assert(q.to_multiset().count(q[i]) > 0);
        assert(p.contains(q[i]));
    }
    p.lemma_multiset_has_no_duplicates();
    assert forall|x: usize| q.to_multiset().contains(x) implies q.to_multiset().count(x) == 1 by {
        assert(p.to_multiset().contains(x));
    }
    q.lemma_multiset_has_no_duplicates_conv();
    assert forall|v: usize| v < n implies #[trigger] q.contains(v) by {
        assert(p.to_multiset().count(v) > 0);
    }
}

/// Removing the element at `r` from a sequence without duplicates removes
/// exactly that value, and leaves no duplicates.
proof fn lemma_swap_remove(s: Seq<usize>, r: int)
    requires
        s.no_duplicates(),
        0 <= r < s.len(),
    ensures
        ({
            let t = s.update(r, s.last()).drop_last();
            &&& t.no_duplicates()
            &&& forall|x: usize| #[trigger] t.contains(x) <==> (s.contains(x) && x != s[r])
        }),
{
    let t = s.update(r, s.last()).drop_last();
    let l = s.len() - 1;
    assert forall|x: usize| #[trigger] t.contains(x) <==> (s.contains(x) && x != s[r]) by {
        if t.contains(x) {
            let i = choose|i: int| 0 <= i < t.len() && t[i] == x;
            if i == r {
                assert(s[l] == x);
            } else {
                assert(s[i] == x);
            }
        }
        if s.contains(x) && x != s[r] {
            let i = choose|i: int| 0 <= i < s.len() && s[i] == x;
            if i == l {
                assert(t[r] == x);
            } else {
                assert(t[i] == x);
            }
        }
    }
}

/// Builds the identity layout `0, 1, ..., n - 1`.
pub fn identity(n: usize) -> (r: Vec<usize>)
    ensures
        r@ == identity_seq(n as nat),
        is_permutation(r@, n as nat),
{
    let mut r: Vec<usize> = Vec::new();
    let mut i: usize = 0;
    while i < n
        invariant
            i <= n,
            r@ == identity_seq(i as nat),
        decreases n - i,
    {
        r.push(i);
        i = i + 1;
        assert(r@ =~= identity_seq(i as nat));
    }
    assert forall|v: usize| v < n implies #[trigger] r@.contains(v) by {
        assert(r@[v as int] == v);
    }
    r
}

/// Takes one uniformly chosen entry out of `free` and returns it.
pub(crate) fn draw_from(free: &mut Vec<usize>, rng: &mut rand::rngs::ThreadRng) -> (v: usize)
    requires
        old(free)@.len() > 0,
        old(free)@.no_duplicates(),
    ensures
        old(free)@.contains(v),
        final(free)@.len() == old(free)@.len() - 1,
        final(free)@.no_duplicates(),
        forall|x: usize| #[trigger]
            final(free)@.contains(x) <==> (old(free)@.contains(x) && x != v),
{
    let r = random_below(rng, free.len());
    proof {
        lemma_swap_remove(free@, r as int);
    }
    free.swap_remove(r)
}

/// Places the slips `0..count` in the boxes `0..count` one by one, each in a
/// box drawn uniformly from those still empty; the result is a uniformly
/// random permutation of `0..count`.
pub fn allocate_boxes(count: usize) -> (boxes: Vec<usize>)
    ensures
        is_permutation(boxes@, count as nat),
{
    let mut rng = rand::thread_rng();
    let mut free = identity(count);
    // `count` marks a box that holds no slip yet.
    let mut boxes: Vec<usize> = vec![count; count];
    let mut slip: usize = 0;
    while slip < count
        invariant
            slip <= count,
            boxes@.len() == count,
            free@.len() == count - slip,
            free@.no_duplicates(),
            forall|i: int| 0 <= i < free@.len() ==> #[trigger] free@[i] < count,
            forall|i: int| 0 <= i < count ==> (#[trigger] boxes@[i] == count <==> free@.contains(i as usize)),
            forall|i: int| 0 <= i < count && boxes@[i] != count ==> #[trigger] boxes@[i] < slip,
            forall|i: int, j: int|
                0 <= i < count && 0 <= j < count && i != j && boxes@[i] != count
                    ==> #[trigger] boxes@[i] != #[trigger] boxes@[j],
            forall|v: usize| v < slip ==> #[trigger] boxes@.contains(v),
        decreases count - slip,
    {
        let ghost old_free = free@;
        let ghost old_boxes = boxes@;
        let pos = draw_from(&mut free, &mut rng);
        assert(old_free.contains(pos));
        assert(pos < count);
        boxes.set(pos, slip);
        assert forall|i: int| 0 <= i < free@.len() implies #[trigger] free@[i] < count by {
            assert(free@.contains(free@[i]));
        }
        assert forall|i: int| 0 <= i < count implies (#[trigger] boxes@[i] == count <==> free@.contains(i as usize)) by {
            if i != pos as int {
                assert(old_boxes[i] == boxes@[i]);
            }
        }
        assert forall|v: usize| v < slip + 1 implies #[trigger] boxes@.contains(v) by {
            if v == slip {
                assert(boxes@[pos as int] == v);
            } else {
                assert(old_boxes.contains(v));
                let i = choose|i: int| 0 <= i < count && old_boxes[i] == v;
                assert(boxes@[i] == v);
            }
        }
        slip = slip + 1;
    }
    assert forall|i: int| 0 <= i < boxes@.len() implies #[trigger] boxes@[i] < count by {
        assert(!free@.contains(i as usize));
    }
    boxes
}

} // verus!
