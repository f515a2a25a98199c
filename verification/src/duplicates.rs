//! Finding the clipboards that share a backing store, pair by pair.
//!
//! Clipboards are known by their position. A scan asks about pairs of
//! positions and takes each answer; whenever two clipboards turn out to be the
//! same, the one of worse rank is removed, and the later one among equals.
use vstd::prelude::*;

verus! {

/// The state of a scan: the ranks, which positions are removed, and the pair
/// that is asked about next (both at the end when there is none).
#[verifier::ext_equal]
pub struct ScanView {
    pub ranks: Seq<u8>,
    pub removed: Seq<bool>,
    pub i: int,
    pub j: int,
}

/// The first pair at or after `(i, j)`, in the order of the first position and
/// then the second, of which neither is removed.
pub open spec fn next_pair(removed: Seq<bool>, i: int, j: int) -> (int, int)
    decreases removed.len() - i, removed.len() - j,
{
    let n = removed.len() as int;
    if i >= n {
        (n, n)
    } else if removed[i] || j >= n {
        next_pair(removed, i + 1, i + 2)
    } else if removed[j] {
        next_pair(removed, i, j + 1)
    } else {
        (i, j)
    }
}

impl ScanView {
    /// The scan with the pair moved on to the next one at or after `(i, j)`.
    pub open spec fn at_pair(ranks: Seq<u8>, removed: Seq<bool>, i: int, j: int) -> ScanView {
        let pair = next_pair(removed, i, j);
        ScanView { ranks, removed, i: pair.0, j: pair.1 }
    }

    /// The scan over clipboards of the given ranks, before any answer.
    pub open spec fn start(ranks: Seq<u8>) -> ScanView {
        ScanView::at_pair(ranks, Seq::new(ranks.len(), |k: int| false), 0, 1)
    }

    /// Whether no pair is left.
    pub open spec fn done(self) -> bool {
        self.i >= self.ranks.len()
    }

    /// The scan after the answer to whether the current pair is the same.
    pub open spec fn answered(self, same: bool) -> ScanView {
        if !same {
            ScanView::at_pair(self.ranks, self.removed, self.i, self.j + 1)
        } else if self.ranks[self.i] <= self.ranks[self.j] {
            ScanView::at_pair(self.ranks, self.removed.update(self.j, true), self.i, self.j + 1)
        } else {
            ScanView::at_pair(self.ranks, self.removed.update(self.i, true), self.i + 1, self.i + 2)
        }
    }

    /// The scan after a series of answers.
    pub open spec fn after(self, answers: Seq<bool>) -> ScanView
        decreases answers.len(),
    {
        if answers.len() == 0 {
            self
        } else {
            self.after(answers.drop_last()).answered(answers.last())
        }
    }

    /// Lengths agree, and the pair is in range and ordered unless the scan is done.
    pub open spec fn valid(self) -> bool {
        &&& self.removed.len() == self.ranks.len()
        &&& 0 <= self.i <= self.ranks.len()
        &&& !self.done() ==> self.i < self.j < self.ranks.len() && !self.removed[self.i]
            && !self.removed[self.j]
    }

    /// The end of a scan whose answers follow the relation `same`.
    pub open spec fn settled(self, same: spec_fn(int, int) -> bool) -> ScanView
        decreases self.ranks.len() - self.i, self.ranks.len() - self.j,
        when self.valid()
    {
        if self.done() {
            self
        } else {
            proof {
                lemma_answered(self, same(self.i, self.j));
            }
            self.answered(same(self.i, self.j)).settled(same)
        }
    }
}

proof fn lemma_next_pair(removed: Seq<bool>, i: int, j: int)
    requires
        0 <= i < j,
    ensures
        ({
            let p = next_pair(removed, i, j);
            let n = removed.len() as int;
            &&& 0 <= p.0 <= n
            &&& p.0 == n ==> p.1 == n
            &&& p.0 < n ==> p.0 < p.1 < n && !removed[p.0] && !removed[p.1]
            &&& i < n ==> p.0 > i || (p.0 == i && p.1 >= j)
            &&& p.0 == i < n ==> forall|k: int| j <= k < p.1 ==> #[trigger] removed[k]
            &&& p.0 > i && i < n && !removed[i] ==> forall|k: int|
                j <= k < n ==> #[trigger] removed[k]
            &&& forall|a: int, b: int|
                i < a < p.0 && a < b < n && !#[trigger] removed[a] ==> #[trigger] removed[b]
            &&& forall|b: int|
                i < p.0 < n && p.0 < b < p.1 ==> #[trigger] removed[b]
        }),
    decreases removed.len() - i, removed.len() - j,
{
    let n = removed.len() as int;
    if i >= n {
    } else if removed[i] || j >= n {
        lemma_next_pair(removed, i + 1, i + 2);
    } else if removed[j] {
        lemma_next_pair(removed, i, j + 1);
    }
}

/// The answer to a pair keeps the scan valid and moves it forward.
pub proof fn lemma_answered(scan: ScanView, same: bool)
    requires
        scan.valid(),
        !scan.done(),
    ensures
        scan.answered(same).valid(),
        scan.answered(same).ranks == scan.ranks,
        scan.answered(same).i > scan.i || (scan.answered(same).i == scan.i && scan.answered(same).j
            > scan.j),
{
    lemma_next_pair(scan.removed, scan.i, scan.j + 1);
    lemma_next_pair(scan.removed.update(scan.j, true), scan.i, scan.j + 1);
    lemma_next_pair(scan.removed.update(scan.i, true), scan.i + 1, scan.i + 2);
}

pub proof fn lemma_start(ranks: Seq<u8>)
    ensures
        ScanView::start(ranks).valid(),
        ScanView::start(ranks).ranks == ranks,
{
    lemma_next_pair(Seq::new(ranks.len(), |k: int| false), 0, 1);
}

// ---------------------------------------------------------------------------
// What a scan leaves
// ---------------------------------------------------------------------------

/// Whether position `a` is preferred to position `b`: lower rank first, then
/// the earlier position.
pub open spec fn preferred(ranks: Seq<u8>, a: int, b: int) -> bool {
    ranks[a] < ranks[b] || (ranks[a] == ranks[b] && a < b)
}

/// What holds at every point of a scan whose answers follow `same`.
spec fn progress(scan: ScanView, same: spec_fn(int, int) -> bool) -> bool {
    let n = scan.ranks.len() as int;
    &&& scan.valid()
    // A removed position has a preferred twin.
    &&& forall|r: int|
        0 <= r < n && #[trigger] scan.removed[r] ==> has_preferred_twin(scan.ranks, same, r)
    // A position that was passed and stays has no twin left behind it.
    &&& forall|p: int, q: int|
        0 <= p < scan.i && p < q < n && !#[trigger] scan.removed[p] && twins(same, p, q)
            ==> #[trigger] scan.removed[q]
    &&& forall|q: int|
        scan.i < n && scan.i < q < scan.j && twins(same, scan.i, q) ==> #[trigger] scan.removed[q]
}

/// Whether `same` holds of two positions, the earlier one first.
pub open spec fn twins(same: spec_fn(int, int) -> bool, a: int, b: int) -> bool {
    if a < b {
        same(a, b)
    } else {
        same(b, a)
    }
}

/// Whether some twin of position `r` is preferred to it.
pub open spec fn has_preferred_twin(
    ranks: Seq<u8>,
    same: spec_fn(int, int) -> bool,
    r: int,
) -> bool {
    exists|m: int|
        0 <= m < ranks.len() && m != r && #[trigger] twins(same, m, r) && preferred(ranks, m, r)
}

proof fn lemma_progress_start(ranks: Seq<u8>, same: spec_fn(int, int) -> bool)
    ensures
        progress(ScanView::start(ranks), same),
{
    lemma_start(ranks);
    lemma_next_pair(Seq::new(ranks.len(), |k: int| false), 0, 1);
}

proof fn lemma_progress_step(scan: ScanView, same: spec_fn(int, int) -> bool)
    requires
        progress(scan, same),
        !scan.done(),
    ensures
        progress(scan.answered(same(scan.i, scan.j)), same),
{
    let n = scan.ranks.len() as int;
    let yes = same(scan.i, scan.j);
    let next = scan.answered(yes);
    lemma_answered(scan, yes);
    if !yes {
        lemma_next_pair(scan.removed, scan.i, scan.j + 1);
    } else if scan.ranks[scan.i] <= scan.ranks[scan.j] {
        lemma_next_pair(scan.removed.update(scan.j, true), scan.i, scan.j + 1);
        assert(twins(same, scan.i, scan.j));
    } else {
        lemma_next_pair(scan.removed.update(scan.i, true), scan.i + 1, scan.i + 2);
        assert(twins(same, scan.j, scan.i));
    }
    assert forall|r: int| 0 <= r < n && #[trigger] next.removed[r] implies has_preferred_twin(
        next.ranks,
        same,
        r,
    ) by {
        if !scan.removed[r] {
            if r == scan.j {
                assert(twins(same, scan.i, r) && preferred(scan.ranks, scan.i, r));
            } else {
                assert(twins(same, scan.j, r) && preferred(scan.ranks, scan.j, r));
            }
        }
    }
    assert forall|p: int, q: int|
        0 <= p < next.i && p < q < n && !#[trigger] next.removed[p] && twins(
            same,
            p,
            q,
        ) implies #[trigger] next.removed[q] by {
        if p < scan.i {
            assert(!scan.removed[p]);
            assert(scan.removed[q]);
        } else if p == scan.i {
            if q < scan.j {
                assert(scan.removed[q]);
            }
        }
    }
    assert forall|q: int|
        next.i < n && next.i < q < next.j && twins(
            same,
            next.i,
            q,
        ) implies #[trigger] next.removed[q] by {
        if next.i == scan.i && q < scan.j {
            assert(scan.removed[q]);
        }
    }
}

proof fn lemma_progress_end(scan: ScanView, same: spec_fn(int, int) -> bool)
    requires
        progress(scan, same),
    ensures
        progress(scan.settled(same), same),
        scan.settled(same).done(),
        scan.settled(same).ranks == scan.ranks,
    decreases scan.ranks.len() - scan.i, scan.ranks.len() - scan.j,
{
    if !scan.done() {
        lemma_progress_step(scan, same);
        lemma_answered(scan, same(scan.i, scan.j));
        lemma_progress_end(scan.answered(same(scan.i, scan.j)), same);
    }
}

/// Of two clipboards that stay, none was found to be the other.
pub proof fn law_kept_clipboards_differ(
    ranks: Seq<u8>,
    same: spec_fn(int, int) -> bool,
    a: int,
    b: int,
)
    requires
        0 <= a < b < ranks.len(),
        !ScanView::start(ranks).settled(same).removed[a],
        !ScanView::start(ranks).settled(same).removed[b],
    ensures
        !same(a, b),
{
    lemma_progress_start(ranks, same);
    lemma_progress_end(ScanView::start(ranks), same);
    if same(a, b) {
        let end = ScanView::start(ranks).settled(same);
        assert(!end.removed[a] && twins(same, a, b));
        assert(end.removed[b]);
    }
}

/// A clipboard is removed only for a twin of lower rank, or of equal rank and
/// found earlier.
pub proof fn law_removed_has_preferred_twin(
    ranks: Seq<u8>,
    same: spec_fn(int, int) -> bool,
    r: int,
)
    requires
        0 <= r < ranks.len(),
        ScanView::start(ranks).settled(same).removed[r],
    ensures
        has_preferred_twin(ranks, same, r),
{
    lemma_progress_start(ranks, same);
    lemma_progress_end(ScanView::start(ranks), same);
}

/// Some position is preferred to all others of which `member` holds.
proof fn lemma_best_exists(ranks: Seq<u8>, member: spec_fn(int) -> bool, n: int, k: int) -> (best:
    int)
    requires
        0 <= k < n <= ranks.len(),
        member(k),
    ensures
        0 <= best < n,
        member(best),
        forall|m: int| 0 <= m < n && m != best && #[trigger] member(m) ==> preferred(ranks, best, m),
    decreases n,
{
    if k < n - 1 {
        let b = lemma_best_exists(ranks, member, n - 1, k);
        if member(n - 1) && preferred(ranks, n - 1, b) {
            n - 1
        } else {
            b
        }
    } else if exists|m: int| 0 <= m < n - 1 && #[trigger] member(m) {
        let m = choose|m: int| 0 <= m < n - 1 && #[trigger] member(m);
        let b = lemma_best_exists(ranks, member, n - 1, m);
        if preferred(ranks, n - 1, b) {
            n - 1
        } else {
            b
        }
    } else {
        k
    }
}

/// A scan removes no clipboard without keeping another.
pub proof fn law_some_clipboard_stays(ranks: Seq<u8>, same: spec_fn(int, int) -> bool)
    requires
        ranks.len() > 0,
    ensures
        exists|k: int|
            0 <= k < ranks.len() && !#[trigger] ScanView::start(ranks).settled(same).removed[k],
{
    lemma_progress_start(ranks, same);
    lemma_progress_end(ScanView::start(ranks), same);
    let everyone = |k: int| true;
    let best = lemma_best_exists(ranks, everyone, ranks.len() as int, 0);
    let end = ScanView::start(ranks).settled(same);
    if end.removed[best] {
        assert(has_preferred_twin(ranks, same, best));
        let m = choose|m: int|
            0 <= m < ranks.len() && m != best && #[trigger] twins(same, m, best) && preferred(
                ranks,
                m,
                best,
            );
        assert(everyone(m));
    }
    assert(!ScanView::start(ranks).settled(same).removed[best]);
}

/// When "the same" means sharing a store, exactly one clipboard of each store
/// stays: the one of lowest rank, and among those the one found first.
pub proof fn law_one_clipboard_per_store(ranks: Seq<u8>, store: spec_fn(int) -> int, k: int)
    requires
        0 <= k < ranks.len(),
    ensures
        !ScanView::start(ranks).settled(|a: int, b: int| store(a) == store(b)).removed[k] <==> (
        forall|m: int|
            0 <= m < ranks.len() && m != k && #[trigger] store(m) == store(k) ==> preferred(
                ranks,
                k,
                m,
            )),
{
    let same = |a: int, b: int| store(a) == store(b);
    lemma_progress_start(ranks, same);
    lemma_progress_end(ScanView::start(ranks), same);
    let end = ScanView::start(ranks).settled(same);
    if end.removed[k] {
        assert(has_preferred_twin(ranks, same, k));
        let m = choose|m: int|
            0 <= m < ranks.len() && m != k && #[trigger] twins(same, m, k) && preferred(
                ranks,
                m,
                k,
            );
        assert(store(m) == store(k));
        assert(!preferred(ranks, k, m));
    } else {
        let member = |m: int| store(m) == store(k);
        let best = lemma_best_exists(ranks, member, ranks.len() as int, k);
        assert(member(best));
        if best != k {
            assert(twins(same, best, k) && twins(same, k, best));
            if end.removed[best] {
                assert(has_preferred_twin(ranks, same, best));
                let m = choose|m: int|
                    0 <= m < ranks.len() && m != best && #[trigger] twins(same, m, best)
                        && preferred(ranks, m, best);
                assert(member(m));
                assert(preferred(ranks, best, m));
            }
            if best < k {
                assert(!end.removed[best] && end.removed[k]);
            } else {
                assert(!end.removed[k] && end.removed[best]);
            }
        }
        assert forall|m: int|
            0 <= m < ranks.len() && m != k && #[trigger] store(m) == store(k) implies preferred(
            ranks,
            k,
            m,
        ) by {
            assert(member(m));
        }
    }
}

/// Whether a scan has passed a pair of positions.
pub open spec fn passed(scan: ScanView, p: int, q: int) -> bool {
    p < scan.i || (p == scan.i && q < scan.j)
}

/// Before its first answer, a scan has passed no pair.
pub proof fn lemma_start_passed(ranks: Seq<u8>, p: int, q: int)
    requires
        0 <= p < q < ranks.len(),
    ensures
        !passed(ScanView::start(ranks), p, q),
{
    lemma_next_pair(Seq::new(ranks.len(), |k: int| false), 0, 1);
}

/// Of the pairs whose positions both stay, an answer passes only the pair that
/// it was given for, and that only when the answer is no.
pub proof fn lemma_answered_passed(scan: ScanView, same: bool, p: int, q: int)
    requires
        scan.valid(),
        !scan.done(),
        0 <= p < q < scan.ranks.len(),
        !scan.answered(same).removed[p],
        !scan.answered(same).removed[q],
        passed(scan.answered(same), p, q),
    ensures
        !scan.removed[p],
        !scan.removed[q],
        passed(scan, p, q) || (p == scan.i && q == scan.j && !same),
{
    if !same {
        lemma_next_pair(scan.removed, scan.i, scan.j + 1);
    } else if scan.ranks[scan.i] <= scan.ranks[scan.j] {
        lemma_next_pair(scan.removed.update(scan.j, true), scan.i, scan.j + 1);
    } else {
        lemma_next_pair(scan.removed.update(scan.i, true), scan.i + 1, scan.i + 2);
    }
}

/// A finished scan whose answers follow a relation is the settled scan of that
/// relation.
pub proof fn law_answers_settle(
    scan: ScanView,
    answers: Seq<bool>,
    same: spec_fn(int, int) -> bool,
)
    requires
        scan.valid(),
        forall|k: int|
            0 <= k < answers.len() ==> !(#[trigger] scan.after(answers.take(k))).done()
                && answers[k] == same(
                scan.after(answers.take(k)).i,
                scan.after(answers.take(k)).j,
            ),
    ensures
        scan.after(answers).valid(),
        scan.after(answers).settled(same) == scan.settled(same),
        scan.after(answers).done() ==> scan.after(answers) == scan.settled(same),
    decreases answers.len(),
{
    if answers.len() > 0 {
        let init = answers.drop_last();
        let last = answers.len() - 1;
        assert forall|k: int| 0 <= k < init.len() implies !(#[trigger] scan.after(
            init.take(k),
        )).done() && init[k] == same(scan.after(init.take(k)).i, scan.after(init.take(k)).j) by {
            assert(init.take(k) =~= answers.take(k));
            assert(!scan.after(answers.take(k)).done());
        }
        law_answers_settle(scan, init, same);
        assert(answers.take(last) =~= init);
        assert(!scan.after(answers.take(last)).done());
        lemma_answered(scan.after(init), answers.last());
    }
}

// ---------------------------------------------------------------------------
// The scan itself
// ---------------------------------------------------------------------------

/// A scan for duplicates over clipboards of known rank.
pub struct DuplicateScan {
    ranks: Vec<u8>,
    removed: Vec<bool>,
    i: usize,
    j: usize,
}

impl View for DuplicateScan {
    type V = ScanView;

    closed spec fn view(&self) -> ScanView {
        ScanView {
            ranks: self.ranks@,
            removed: self.removed@,
            i: self.i as int,
            j: self.j as int,
        }
    }
}

/// The next pair at or after `(i, j)`.
fn seek(removed: &Vec<bool>, i: usize, j: usize) -> (r: (usize, usize))
    requires
        i < j || i >= removed.len(),
    ensures
        (r.0 as int, r.1 as int) == next_pair(removed@, i as int, j as int),
{
    let n = removed.len();
    let mut a: usize = i;
    let mut b: usize = j;
    while a < n && (removed[a] || b >= n || removed[b])
        invariant
            n == removed.len(),
            a < b || a >= n,
            next_pair(removed@, a as int, b as int) == next_pair(removed@, i as int, j as int),
        decreases n - a, n - b,
    {
        if removed[a] || b >= n {
            if n - a == 1 {
                assert(next_pair(removed@, a + 1, a + 2) == (n as int, n as int));
                return (n, n);
            }
            a = a + 1;
            b = a + 1;
        } else {
            b = b + 1;
        }
    }
    if a < n {
        (a, b)
    } else {
        (n, n)
    }
}

impl DuplicateScan {
    #[verifier::type_invariant]
    spec fn type_valid(self) -> bool {
        self@.valid()
    }

    /// A scan over clipboards of the given ranks.
    pub fn new(ranks: Vec<u8>) -> (r: Self)
        ensures
            r@ == ScanView::start(ranks@),
            r@.valid(),
    {
        let mut removed: Vec<bool> = Vec::new();
        while removed.len() < ranks.len()
            invariant
                removed.len() <= ranks.len(),
                forall|k: int| 0 <= k < removed.len() ==> !#[trigger] removed@[k],
            decreases ranks.len() - removed.len(),
        {
            removed.push(false);
        }
        assert(removed@ =~= Seq::new(ranks@.len(), |k: int| false));
        let (i, j) = seek(&removed, 0, 1);
        proof {
            lemma_start(ranks@);
        }
        DuplicateScan { ranks, removed, i, j }
    }

    /// The positions to ask about next, the earlier one first; `None` when the
    /// scan is done.
    pub fn current(&self) -> (r: Option<(usize, usize)>)
        ensures
            self@.valid(),
            r == if self@.done() {
                None
            } else {
                Some((self@.i as usize, self@.j as usize))
            },
            r matches Some((i, j)) ==> i == self@.i && j == self@.j,
    {
        proof {
            use_type_invariant(self);
        }
        if self.i < self.ranks.len() {
            Some((self.i, self.j))
        } else {
            None
        }
    }

    /// Takes the answer to whether the current pair is the same. Without a
    /// current pair nothing changes.
    pub fn record(self, same: bool) -> (r: Self)
        ensures
            r@ == if self@.done() {
                self@
            } else {
                self@.answered(same)
            },
    {
        proof {
            use_type_invariant(&self);
        }
        let DuplicateScan { ranks, mut removed, i, j } = self;
        if i >= ranks.len() {
            return DuplicateScan { ranks, removed, i, j };
        }
        proof {
            lemma_answered(self@, same);
        }
        if !same {
            let (a, b) = seek(&removed, i, j + 1);
            DuplicateScan { ranks, removed, i: a, j: b }
        } else if ranks[i] <= ranks[j] {
            removed[j] = true;
            let (a, b) = seek(&removed, i, j + 1);
            DuplicateScan { ranks, removed, i: a, j: b }
        } else {
            removed[i] = true;
            let (a, b) = seek(&removed, i + 1, i + 2);
            DuplicateScan { ranks, removed, i: a, j: b }
        }
    }

    /// Whether a position is removed so far.
    pub fn is_removed(&self, k: usize) -> (r: bool)
        requires
            k < self@.removed.len(),
        ensures
            r == self@.removed[k as int],
    {
        self.removed[k]
    }

    /// How many positions there are.
    pub fn len(&self) -> (n: usize)
        ensures
            n == self@.ranks.len(),
            n == self@.removed.len(),
    {
        proof {
            use_type_invariant(self);
        }
        self.ranks.len()
    }

    /// Which positions are removed.
    pub fn into_removed(self) -> (r: Vec<bool>)
        ensures
            r@ == self@.removed,
    {
        self.removed
    }
}

// ---------------------------------------------------------------------------
// One answer
// ---------------------------------------------------------------------------

/// Before any answer nothing is removed, and the first two positions are the
/// first pair.
pub proof fn law_nothing_is_removed_at_first(ranks: Seq<u8>)
    ensures
        ScanView::start(ranks).ranks == ranks,
        ScanView::start(ranks).removed.len() == ranks.len(),
        forall|k: int|
            0 <= k < ranks.len() ==> !(#[trigger] ScanView::start(ranks).removed[k]),
        ScanView::start(ranks).done() <==> ranks.len() < 2,
        ranks.len() >= 2 ==> ScanView::start(ranks).i == 0 && ScanView::start(ranks).j == 1,
{
    let removed = Seq::new(ranks.len(), |k: int| false);
    reveal_with_fuel(next_pair, 3);
    lemma_next_pair(removed, 0, 1);
}

/// An answer removes one of the pair exactly when the two are the same: the one
/// of higher rank, or of two of the same rank the later. It changes nothing
/// else.
pub proof fn law_an_answer_removes_the_lesser(scan: ScanView, same: bool, k: int)
    requires
        scan.valid(),
        !scan.done(),
        0 <= k < scan.ranks.len(),
    ensures
        scan.answered(same).ranks == scan.ranks,
        scan.answered(same).removed.len() == scan.removed.len(),
        scan.answered(same).removed[k] <==> scan.removed[k] || (same && k == scan.j
            && scan.ranks[scan.i] <= scan.ranks[scan.j]) || (same && k == scan.i
            && scan.ranks[scan.j] < scan.ranks[scan.i]),
{
}

/// After an answer the scan goes on to the next pair of which neither is
/// removed; no such pair is passed over, and it ends only when none is left.
pub proof fn law_no_pair_is_passed_over(scan: ScanView, same: bool, a: int, b: int)
    requires
        scan.valid(),
        !scan.done(),
        0 <= a < b < scan.ranks.len(),
        a > scan.i || (a == scan.i && b > scan.j),
        !scan.answered(same).removed[a],
        !scan.answered(same).removed[b],
    ensures
        ({
            let next = scan.answered(same);
            &&& !next.done()
            &&& next.i < a || (next.i == a && next.j <= b)
            &&& !next.removed[next.i] && !next.removed[next.j]
            &&& next.i > scan.i || (next.i == scan.i && next.j > scan.j)
        }),
{
    lemma_answered(scan, same);
    lemma_next_pair(scan.removed, scan.i, scan.j + 1);
    lemma_next_pair(scan.removed.update(scan.j, true), scan.i, scan.j + 1);
    lemma_next_pair(scan.removed.update(scan.i, true), scan.i + 1, scan.i + 2);
}

} // verus!
