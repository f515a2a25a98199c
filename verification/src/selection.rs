//! The positions in a sequence that satisfy a condition.
use vstd::prelude::*;

use crate::mime;

verus! {

/// The positions below `n` of which `p` holds, in ascending order.
pub open spec fn positions(n: int, p: spec_fn(int) -> bool) -> Seq<int> {
    Seq::new(n as nat, |i: int| i).filter(p)
}

/// One position more.
pub proof fn lemma_positions_push(n: int, p: spec_fn(int) -> bool)
    requires
        0 <= n,
    ensures
        positions(n + 1, p) == if p(n) {
            positions(n, p).push(n)
        } else {
            positions(n, p)
        },
        positions(0, p) == Seq::<int>::empty(),
{
    let all = Seq::new(n as nat, |i: int| i);
    assert(Seq::new((n + 1) as nat, |i: int| i) =~= all.push(n));
    mime::lemma_filter_push(all, n, p);
    mime::lemma_filter_none(Seq::new(0, |i: int| i), p);
}

/// Conditions that agree below `n` select the same positions.
pub proof fn lemma_positions_agree(n: int, p: spec_fn(int) -> bool, q: spec_fn(int) -> bool)
    requires
        0 <= n,
        forall|i: int| 0 <= i < n ==> #[trigger] p(i) == q(i),
    ensures
        positions(n, p) == positions(n, q),
    decreases n,
{
    if n == 0 {
        lemma_positions_push(0, p);
        lemma_positions_push(0, q);
    } else {
        lemma_positions_agree(n - 1, p, q);
        lemma_positions_push(n - 1, p);
        lemma_positions_push(n - 1, q);
        assert(p(n - 1) == q(n - 1));
    }
}

/// Positions are in range, satisfy the condition and ascend; each position that
/// satisfies it stands at the place that counts those before it.
pub proof fn lemma_positions(n: int, p: spec_fn(int) -> bool)
    requires
        0 <= n,
    ensures
        positions(n, p).len() <= n,
        forall|k: int|
            0 <= k < positions(n, p).len() ==> 0 <= #[trigger] positions(n, p)[k] < n && p(
                positions(n, p)[k],
            ),
        forall|a: int, b: int|
            0 <= a < b < positions(n, p).len() ==> #[trigger] positions(n, p)[a]
                < #[trigger] positions(n, p)[b],
        forall|i: int|
            0 <= i < n && #[trigger] p(i) ==> positions(i, p).len() < positions(n, p).len()
                && positions(n, p)[positions(i, p).len() as int] == i,
    decreases n,
{
    lemma_positions_push(0, p);
    if n > 0 {
        lemma_positions(n - 1, p);
        lemma_positions_push(n - 1, p);
        let before = positions(n - 1, p);
        let all = positions(n, p);
        assert forall|i: int| 0 <= i < n && #[trigger] p(i) implies positions(i, p).len()
            < all.len() && all[positions(i, p).len() as int] == i by {
            if i < n - 1 {
                assert(all[positions(i, p).len() as int] == before[positions(i, p).len() as int]);
            }
        }
    }
}

} // verus!
