//! Choosing the clipboards to keep in step and giving them a common start.
use vstd::prelude::*;

use crate::clipboard;
use crate::clipboard::Clipboard;
use crate::data;
use crate::data::ClipboardData;
use crate::discovery::Discovery;
use crate::duplicates;
use crate::duplicates::DuplicateScan;
use crate::error::MyResult;
use crate::mime;
use crate::selection;
use crate::sharing;
use crate::sharing::share_store;

verus! {

// ---------------------------------------------------------------------------
// The content at the start
// ---------------------------------------------------------------------------

/// What a clipboard offers as initial content: its payload, unless reading it
/// failed or it is empty.
pub open spec fn offered(read: MyResult<ClipboardData>) -> Option<Seq<data::EntryView>> {
    match read {
        Ok(d) => if d@.len() > 0 {
            Some(d@)
        } else {
            None
        },
        Err(_) => None,
    }
}

/// The payload that was read, unless reading failed or it is empty.
pub fn take_offered(read: MyResult<ClipboardData>) -> (r: Option<ClipboardData>)
    ensures
        r is Some <==> offered(read) is Some,
        r matches Some(d) ==> offered(read) == Some(d@),
{
    match read {
        Ok(d) => if d.is_empty() {
            None
        } else {
            Some(d)
        },
        Err(_) => None,
    }
}

// ---------------------------------------------------------------------------
// The steps
// ---------------------------------------------------------------------------

/// What to do next, by the positions of the discovered clipboards.
pub enum SetupStep {
    /// Read this clipboard, looking for the content at the start.
    Look(usize),
    /// Find out whether these two are the same.
    Compare(usize, usize),
    /// Write the content at the start to this clipboard.
    Write(usize),
    /// Nothing.
    Done,
}

/// What came of a step.
pub enum SetupEvent {
    Looked(MyResult<ClipboardData>),
    Compared(bool),
    Written(MyResult<()>),
}

/// What a setup is busy with.
#[derive(Clone, Copy, Debug, PartialEq, Eq, Structural)]
pub enum Phase {
    Looking,
    Comparing,
    Writing,
    Finished,
}

/// A setup under way: its phase, the position of the clipboard to look at or to
/// write to, the content at the start as far as it was found, and the scan for
/// duplicates.
#[verifier::ext_equal]
pub struct SetupView {
    pub phase: Phase,
    pub place: int,
    pub start: Seq<data::EntryView>,
    pub scan: duplicates::ScanView,
}

/// The first position from `k` on that is not marked; the end when there is
/// none.
pub open spec fn next_unmarked(marks: Seq<bool>, k: int) -> int
    decreases marks.len() - k,
{
    if k >= marks.len() {
        marks.len() as int
    } else if !marks[k] {
        k
    } else {
        next_unmarked(marks, k + 1)
    }
}

impl SetupView {
    /// The setup of clipboards of the given ranks, before its first step.
    pub open spec fn begin(ranks: Seq<u8>) -> SetupView {
        let s = SetupView {
            phase: Phase::Looking,
            place: 0,
            start: Seq::empty(),
            scan: duplicates::ScanView::start(ranks),
        };
        if ranks.len() == 0 {
            s.to_comparing()
        } else {
            s
        }
    }

    /// On to comparing, as long as there are pairs to compare.
    pub open spec fn to_comparing(self) -> SetupView {
        if self.scan.done() {
            self.to_writing(0)
        } else {
            SetupView { phase: Phase::Comparing, place: 0, ..self }
        }
    }

    /// On to writing to the clipboards that stay, from position `k` on, if
    /// there is anything to write.
    pub open spec fn to_writing(self, k: int) -> SetupView {
        let place = next_unmarked(self.scan.removed, k);
        if self.start.len() > 0 && place < self.scan.removed.len() {
            SetupView { phase: Phase::Writing, place, ..self }
        } else {
            SetupView { phase: Phase::Finished, place: 0, ..self }
        }
    }

    /// The setup after an event. All looking comes before all comparing, and
    /// that before all writing. An event that does not belong to the phase
    /// changes nothing.
    pub open spec fn after(self, event: SetupEvent) -> SetupView {
        match (self.phase, event) {
            (Phase::Looking, SetupEvent::Looked(read)) => match offered(read) {
                Some(payload) => SetupView { start: payload, ..self }.to_comparing(),
                None => if self.place + 1 < self.scan.ranks.len() {
                    SetupView { place: self.place + 1, ..self }
                } else {
                    self.to_comparing()
                },
            },
            (Phase::Comparing, SetupEvent::Compared(same)) => SetupView {
                scan: self.scan.answered(same),
                ..self
            }.to_comparing(),
            (Phase::Writing, SetupEvent::Written(_)) => self.to_writing(self.place + 1),
            _ => self,
        }
    }

    /// What to do next.
    pub open spec fn step(self) -> SetupStep {
        match self.phase {
            Phase::Looking => SetupStep::Look(self.place as usize),
            Phase::Comparing => SetupStep::Compare(self.scan.i as usize, self.scan.j as usize),
            Phase::Writing => SetupStep::Write(self.place as usize),
            Phase::Finished => SetupStep::Done,
        }
    }

    /// Whether the event is of the kind that the setup waits for.
    pub open spec fn awaits(self, event: SetupEvent) -> bool {
        match self.phase {
            Phase::Looking => event is Looked,
            Phase::Comparing => event is Compared,
            Phase::Writing => event is Written,
            Phase::Finished => false,
        }
    }

    /// Positions are in range, and each phase has what it needs.
    pub open spec fn valid(self) -> bool {
        &&& self.scan.valid()
        &&& match self.phase {
            Phase::Looking => 0 <= self.place < self.scan.ranks.len(),
            Phase::Comparing => !self.scan.done(),
            Phase::Writing => 0 <= self.place < self.scan.ranks.len() && self.scan.done()
                && !self.scan.removed[self.place] && self.start.len() > 0,
            Phase::Finished => self.scan.done(),
        }
    }

    /// How many phases are left.
    pub open spec fn phases_left(self) -> nat {
        match self.phase {
            Phase::Looking => 3,
            Phase::Comparing => 2,
            Phase::Writing => 1,
            Phase::Finished => 0,
        }
    }

    /// How far the phase still has to go.
    pub open spec fn rest(self) -> int {
        if self.phase == Phase::Comparing {
            self.scan.ranks.len() - self.scan.i
        } else {
            self.scan.ranks.len() - self.place
        }
    }

    /// How far the second position of the pair still has to go.
    pub open spec fn inner_rest(self) -> int {
        if self.phase == Phase::Comparing {
            self.scan.ranks.len() - self.scan.j
        } else {
            0
        }
    }
}

proof fn lemma_next_unmarked(marks: Seq<bool>, k: int)
    requires
        0 <= k,
    ensures
        k <= next_unmarked(marks, k) || next_unmarked(marks, k) == marks.len(),
        next_unmarked(marks, k) <= marks.len(),
        next_unmarked(marks, k) < marks.len() ==> !marks[next_unmarked(marks, k)],
        forall|m: int| k <= m < next_unmarked(marks, k) ==> #[trigger] marks[m],
    decreases marks.len() - k,
{
    if k < marks.len() && marks[k] {
        lemma_next_unmarked(marks, k + 1);
    }
}

/// An event that the setup waits for keeps it valid and moves it forward.
proof fn lemma_setup_after(s: SetupView, event: SetupEvent)
    requires
        s.valid(),
        s.awaits(event),
    ensures
        s.after(event).valid(),
        s.after(event).scan.ranks == s.scan.ranks,
        s.after(event).phases_left() < s.phases_left() || (s.after(event).phases_left()
            == s.phases_left() && (s.after(event).rest() < s.rest() || (s.after(event).rest()
            == s.rest() && s.after(event).inner_rest() < s.inner_rest()))),
        s.phase == Phase::Writing && s.after(event).phase == Phase::Writing ==> s.after(event).place
            > s.place,
        s.phase == Phase::Writing ==> s.after(event).scan == s.scan,
        s.phase != Phase::Looking ==> s.after(event).start == s.start,
{
    match s.phase {
        Phase::Looking => {
            lemma_next_unmarked(s.scan.removed, 0);
        },
        Phase::Comparing => {
            let same = event->Compared_0;
            duplicates::lemma_answered(s.scan, same);
            lemma_next_unmarked(s.scan.answered(same).removed, 0);
        },
        Phase::Writing => {
            lemma_next_unmarked(s.scan.removed, s.place + 1);
        },
        Phase::Finished => {},
    }
}

proof fn lemma_setup_begin(ranks: Seq<u8>)
    ensures
        SetupView::begin(ranks).valid(),
        SetupView::begin(ranks).scan.ranks == ranks,
{
    duplicates::lemma_start(ranks);
}

/// A setup under way.
pub struct Setup {
    phase: Phase,
    place: usize,
    start: ClipboardData,
    scan: DuplicateScan,
}

impl View for Setup {
    type V = SetupView;

    closed spec fn view(&self) -> SetupView {
        SetupView {
            phase: self.phase,
            place: self.place as int,
            start: self.start@,
            scan: self.scan@,
        }
    }
}

impl Setup {
    #[verifier::type_invariant]
    spec fn type_valid(self) -> bool {
        self@.valid()
    }

    /// A setup of clipboards of the given ranks, before its first step.
    pub fn new(ranks: Vec<u8>) -> (r: Self)
        ensures
            r@ == SetupView::begin(ranks@),
    {
        let n = ranks.len();
        proof {
            lemma_setup_begin(ranks@);
        }
        let scan = DuplicateScan::new(ranks);
        let phase = if n == 0 {
            Phase::Finished
        } else {
            Phase::Looking
        };
        Setup { phase, place: 0, start: ClipboardData::empty(), scan }
    }

    /// What to do next.
    pub fn step(&self) -> (r: SetupStep)
        ensures
            self@.valid(),
            r == self@.step(),
            r matches SetupStep::Look(k) ==> k == self@.place,
            r matches SetupStep::Compare(i, j) ==> i == self@.scan.i && j == self@.scan.j,
            r matches SetupStep::Write(k) ==> k == self@.place,
    {
        proof {
            use_type_invariant(self);
        }
        match self.phase {
            Phase::Looking => SetupStep::Look(self.place),
            Phase::Comparing => match self.scan.current() {
                Some((i, j)) => SetupStep::Compare(i, j),
                None => SetupStep::Done,
            },
            Phase::Writing => SetupStep::Write(self.place),
            Phase::Finished => SetupStep::Done,
        }
    }

    /// The content at the start, as far as it was found.
    pub fn start(&self) -> (r: &ClipboardData)
        ensures
            r@ == self@.start,
    {
        &self.start
    }

    /// On to writing, from position `k` on.
    fn to_writing(start: ClipboardData, scan: DuplicateScan, k: usize) -> (r: Self)
        requires
            scan@.done(),
            scan@.valid(),
        ensures
            forall|s: SetupView|
                s.start == start@ && s.scan == scan@ ==> r@ == #[trigger] s.to_writing(k as int),
    {
        let n = scan.len();
        let mut p: usize = k;
        proof {
            lemma_next_unmarked(scan@.removed, k as int);
        }
        while p < n && scan.is_removed(p)
            invariant
                n == scan@.removed.len(),
                next_unmarked(scan@.removed, p as int) == next_unmarked(scan@.removed, k as int),
            decreases n - p,
        {
            p += 1;
        }
        if !start.is_empty() && p < n {
            Setup { phase: Phase::Writing, place: p, start, scan }
        } else {
            Setup { phase: Phase::Finished, place: 0, start, scan }
        }
    }

    /// On to comparing.
    fn to_comparing(start: ClipboardData, scan: DuplicateScan) -> (r: Self)
        requires
            scan@.valid(),
        ensures
            forall|s: SetupView|
                s.start == start@ && s.scan == scan@ ==> r@ == #[trigger] s.to_comparing(),
    {
        if scan.current().is_none() {
            Self::to_writing(start, scan, 0)
        } else {
            Setup { phase: Phase::Comparing, place: 0, start, scan }
        }
    }

    /// Takes what came of the current step.
    pub fn record(self, event: SetupEvent) -> (r: Self)
        ensures
            r@ == self@.after(event),
    {
        proof {
            use_type_invariant(&self);
        }
        let ghost before = self@;
        let Setup { phase, place, start, scan } = self;
        match (phase, event) {
            (Phase::Looking, SetupEvent::Looked(read)) => {
                match take_offered(read) {
                    Some(payload) => {
                        let r = Self::to_comparing(payload, scan);
                        assert(r@ == (SetupView { start: payload@, ..before }).to_comparing());
                        r
                    },
                    None => if scan.len() - place > 1 {
                        Setup { phase, place: place + 1, start, scan }
                    } else {
                        let r = Self::to_comparing(start, scan);
                        assert(r@ == before.to_comparing());
                        r
                    },
                }
            },
            (Phase::Comparing, SetupEvent::Compared(same)) => {
                proof {
                    duplicates::lemma_answered(before.scan, same);
                }
                let next = scan.record(same);
                let r = Self::to_comparing(start, next);
                assert(r@ == (SetupView { scan: next@, ..before }).to_comparing());
                r
            },
            (Phase::Writing, SetupEvent::Written(_)) => {
                let n = scan.len();
                assert(place < n);
                let r = Self::to_writing(start, scan, place + 1);
                assert(r@ == before.to_writing(place + 1));
                r
            },
            _ => Setup { phase, place, start, scan },
        }
    }

    /// Which positions do not stay.
    pub fn into_removed(self) -> (r: Vec<bool>)
        ensures
            r@ == self@.scan.removed,
    {
        self.scan.into_removed()
    }
}

// ---------------------------------------------------------------------------
// Carrying out the steps
// ---------------------------------------------------------------------------

/// The setup that a series of events leads to.
pub open spec fn setup_at(ranks: Seq<u8>, events: Seq<SetupEvent>) -> SetupView
    decreases events.len(),
{
    if events.len() == 0 {
        SetupView::begin(ranks)
    } else {
        setup_at(ranks, events.drop_last()).after(events.last())
    }
}

/// Whether carrying out the current step of `s` can have given `event`.
pub open spec fn setup_performed<C: Clipboard>(
    clipboards: Seq<C>,
    s: SetupView,
    event: SetupEvent,
) -> bool {
    match s.phase {
        Phase::Looking => event matches SetupEvent::Looked(read) && call_ensures(
            C::get_data,
            (&clipboards[s.place],),
            read,
        ),
        Phase::Comparing => event matches SetupEvent::Compared(same) && sharing::same_outcome(
            &clipboards[s.scan.i],
            &clipboards[s.scan.j],
            same,
        ),
        Phase::Writing => event matches SetupEvent::Written(w) && clipboard::can_write(
            &clipboards[s.place],
            s.start,
            w,
        ),
        Phase::Finished => false,
    }
}

/// Whether carrying out one step after the other can have given these events,
/// so far.
pub open spec fn setup_run<C: Clipboard>(
    clipboards: Seq<C>,
    ranks: Seq<u8>,
    events: Seq<SetupEvent>,
) -> bool {
    forall|k: int|
        0 <= k < events.len() ==> setup_performed(
            clipboards,
            #[trigger] setup_at(ranks, events.take(k)),
            events[k],
        )
}

/// The elements of `s` that are not marked.
pub open spec fn unmarked<A>(s: Seq<A>, marks: Seq<bool>) -> Seq<A>
    recommends
        s.len() == marks.len(),
    decreases s.len(),
{
    if s.len() == 0 {
        Seq::empty()
    } else if marks[s.len() - 1] {
        unmarked(s.drop_last(), marks)
    } else {
        unmarked(s.drop_last(), marks).push(s.last())
    }
}

/// Keeps the elements that are not marked.
fn keep_unmarked<A>(items: Vec<A>, marks: &Vec<bool>) -> (r: Vec<A>)
    requires
        items.len() == marks.len(),
    ensures
        r@ == unmarked(items@, marks@),
{
    let ghost all = items@;
    let mut kept: Vec<A> = Vec::new();
    let mut k: usize = 0;
    assert(all.take(0) =~= Seq::<A>::empty());
    for item in it: items.into_iter()
        invariant
            it.seq() == all,
            k == it.index(),
            all.len() == marks.len(),
            kept@ == unmarked(all.take(k as int), marks@),
    {
        proof {
            let next = all.take(k + 1);
            assert(next.drop_last() =~= all.take(k as int));
            assert(next.last() == item);
        }
        if !marks[k] {
            kept.push(item);
        }
        k += 1;
    }
    assert(all.take(all.len() as int) =~= all);
    kept
}

/// Whether getting ready can leave the clipboards `kept`: `ranks` are the ranks
/// of the clipboards, `events` what the steps gave until none was left.
pub open spec fn prepared<C: Clipboard>(
    discovered: Seq<C>,
    ranks: Seq<u8>,
    events: Seq<SetupEvent>,
    kept: Seq<C>,
) -> bool {
    &&& ranks.len() == discovered.len()
    &&& forall|k: int|
        0 <= k < ranks.len() ==> call_ensures(C::rank, (&discovered[k],), #[trigger] ranks[k])
    &&& setup_run(discovered, ranks, events)
    &&& setup_at(ranks, events).phase == Phase::Finished
    &&& kept == unmarked(discovered, setup_at(ranks, events).scan.removed)
}

/// Carries out the current step, and no other.
fn perform<C: Clipboard>(clipboards: &Vec<C>, setup: &Setup) -> (r: Option<SetupEvent>)
    requires
        setup@.scan.ranks.len() == clipboards.len(),
    ensures
        setup@.valid(),
        r is None <==> setup@.phase == Phase::Finished,
        r matches Some(event) ==> setup_performed(clipboards@, setup@, event) && setup@.awaits(
            event,
        ),
{
    match setup.step() {
        // Find the richest initial clipboard content (first non-empty clipboard).
        SetupStep::Look(k) => Some(SetupEvent::Looked(clipboards[k].get_data())),
        // Deduplicate: remove clipboards that share the same backing store.
        SetupStep::Compare(i, j) => Some(
            SetupEvent::Compared(share_store(&clipboards[i], &clipboards[j])),
        ),
        // Synchronise all discovered clipboards to the same initial state.
        SetupStep::Write(k) => {
            let start = setup.start();
            let written = clipboards[k].set_data(start);
            assert(call_ensures(C::set_data, (&clipboards@[k as int], start), written));
            Some(SetupEvent::Written(written))
        },
        SetupStep::Done => None,
    }
}

proof fn lemma_setup_push<C: Clipboard>(
    clipboards: Seq<C>,
    ranks: Seq<u8>,
    events: Seq<SetupEvent>,
    event: SetupEvent,
)
    requires
        setup_run(clipboards, ranks, events),
        setup_performed(clipboards, setup_at(ranks, events), event),
    ensures
        setup_run(clipboards, ranks, events.push(event)),
        setup_at(ranks, events.push(event)) == setup_at(ranks, events).after(event),
{
    let more = events.push(event);
    assert(more.drop_last() =~= events);
    assert forall|k: int| 0 <= k < more.len() implies setup_performed(
        clipboards,
        #[trigger] setup_at(ranks, more.take(k)),
        more[k],
    ) by {
        if k < events.len() {
            assert(more.take(k) =~= events.take(k));
            assert(setup_at(ranks, more.take(k)) == setup_at(ranks, events.take(k)));
        } else {
            assert(more.take(k) =~= events);
        }
    }
}

/// Takes the clipboards that were found, those of the Wayland displays first,
/// deduplicates them and synchronises those that stay to the same initial
/// state, the content of the first one that is not empty.
pub fn get_clipboards<C: Clipboard>(wayland: Discovery<C>, x11: Discovery<C>) -> (r: MyResult<
    Vec<C>,
>)
    ensures
        r matches Ok(kept) && exists|ranks: Seq<u8>, events: Seq<SetupEvent>| #[trigger]
            prepared(wayland@.clipboards + x11@.clipboards, ranks, events, kept@),
{
    let mut discovered = wayland.clipboards;
    let mut more = x11.clipboards;
    discovered.append(&mut more);
    assert(discovered@ =~= wayland@.clipboards + x11@.clipboards);

    let mut ranks: Vec<u8> = Vec::new();
    let mut i: usize = 0;
    while i < discovered.len()
        invariant
            i <= discovered.len(),
            ranks.len() == i,
            forall|k: int|
                0 <= k < ranks.len() ==> call_ensures(
                    C::rank,
                    (&discovered@[k],),
                    #[trigger] ranks@[k],
                ),
        decreases discovered.len() - i,
    {
        ranks.push(discovered[i].rank());
        i += 1;
    }
    let ghost all_ranks = ranks@;
    let ghost all = discovered@;
    let ghost mut events: Seq<SetupEvent> = Seq::empty();
    proof {
        lemma_setup_begin(all_ranks);
    }
    let mut setup = Setup::new(ranks);
    let mut event = perform(&discovered, &setup);
    while event.is_some()
        invariant
            setup@ == setup_at(all_ranks, events),
            setup@.valid(),
            setup@.scan.ranks == all_ranks,
            all_ranks.len() == discovered.len(),
            setup_run(discovered@, all_ranks, events),
            event is None <==> setup@.phase == Phase::Finished,
            event matches Some(e) ==> setup_performed(discovered@, setup@, e) && setup@.awaits(e),
        decreases setup@.phases_left(), setup@.rest(), setup@.inner_rest(),
    {
        if let Some(e) = event {
            proof {
                lemma_setup_push(discovered@, all_ranks, events, e);
                lemma_setup_after(setup@, e);
                events = events.push(e);
            }
            setup = setup.record(e);
            event = perform(&discovered, &setup);
        }
    }
    let removed = setup.into_removed();
    let clipboards = keep_unmarked(discovered, &removed);
    let result: MyResult<Vec<C>> = Ok(clipboards);
    assert(prepared(all, all_ranks, events, result->Ok_0@));
    result
}

// ---------------------------------------------------------------------------
// Laws
// ---------------------------------------------------------------------------

proof fn lemma_unmarked_positions<A>(s: Seq<A>, marks: Seq<bool>, n: int)
    requires
        0 <= n <= s.len(),
        s.len() == marks.len(),
    ensures
        unmarked(s.take(n), marks) == selection::positions(n, |i: int| !marks[i]).map_values(
            |i: int| s[i],
        ),
    decreases n,
{
    let p = |i: int| !marks[i];
    let f = |i: int| s[i];
    if n == 0 {
        selection::lemma_positions_push(0, p);
        assert(unmarked(s.take(n), marks) =~= selection::positions(0, p).map_values(f));
    } else {
        lemma_unmarked_positions(s, marks, n - 1);
        selection::lemma_positions_push(n - 1, p);
        let before = s.take(n - 1);
        assert(s.take(n).drop_last() =~= before);
        assert(s.take(n).last() == s[n - 1]);
        assert(selection::positions(n, p).map_values(f) =~= if marks[n - 1] {
            selection::positions(n - 1, p).map_values(f)
        } else {
            selection::positions(n - 1, p).map_values(f).push(s[n - 1])
        });
    }
}

/// What stays of a sequence is all that is not marked, in order: as many
/// elements as there are false marks, each at the place that counts the false
/// marks before it.
pub proof fn law_all_that_is_unmarked_stays<A>(s: Seq<A>, marks: Seq<bool>)
    requires
        s.len() == marks.len(),
    ensures
        unmarked(s, marks).len() == marks.filter(|m: bool| !m).len(),
        forall|k: int|
            0 <= k < s.len() && !(#[trigger] marks[k]) ==> marks.take(k).filter(|m: bool| !m).len()
                < unmarked(s, marks).len() && unmarked(s, marks)[marks.take(k).filter(
                |m: bool| !m,
            ).len() as int] == s[k],
{
    let p = |i: int| !marks[i];
    let n = s.len() as int;
    lemma_unmarked_positions(s, marks, n);
    assert(s.take(n) =~= s);
    assert(marks.take(n) =~= marks);
    lemma_count_unmarked(marks, n);
    selection::lemma_positions(n, p);
    assert forall|k: int| 0 <= k < n && !(#[trigger] marks[k]) implies marks.take(k).filter(
        |m: bool| !m,
    ).len() < unmarked(s, marks).len() && unmarked(s, marks)[marks.take(k).filter(
        |m: bool| !m,
    ).len() as int] == s[k] by {
        lemma_count_unmarked(marks, k);
        assert(p(k));
    }
}

/// Every discovered clipboard that was not removed as a duplicate is returned,
/// in order, and no other. The ranks that decided are those of the clipboards.
pub proof fn law_all_that_is_no_duplicate_is_returned<C: Clipboard>(
    discovered: Seq<C>,
    ranks: Seq<u8>,
    events: Seq<SetupEvent>,
    kept: Seq<C>,
)
    requires
        prepared(discovered, ranks, events, kept),
    ensures
        ({
            let removed = setup_at(ranks, events).scan.removed;
            &&& removed.len() == discovered.len()
            &&& ranks.len() == discovered.len()
            &&& kept.len() == removed.filter(|m: bool| !m).len()
            &&& forall|k: int|
                0 <= k < discovered.len() && !(#[trigger] removed[k]) ==> removed.take(k).filter(
                    |m: bool| !m,
                ).len() < kept.len() && kept[removed.take(k).filter(|m: bool| !m).len() as int]
                    == discovered[k]
            &&& forall|k: int|
                0 <= k < discovered.len() ==> call_ensures(
                    C::rank,
                    (&discovered[k],),
                    #[trigger] ranks[k],
                )
        }),
{
    let n = events.len() as int;
    assert(events.take(n) =~= events);
    lemma_setup_point(discovered, ranks, events, n);
    law_all_that_is_unmarked_stays(discovered, setup_at(ranks, events).scan.removed);
}

/// Content is offered by a clipboard that could be read and is not empty, and
/// it is all that was read.
pub proof fn law_offered_content(read: MyResult<ClipboardData>)
    ensures
        offered(read) is Some <==> read is Ok && read->Ok_0@.len() > 0,
        offered(read) matches Some(payload) ==> payload == read->Ok_0@,
{
}

proof fn lemma_count_unmarked(marks: Seq<bool>, n: int)
    requires
        0 <= n <= marks.len(),
    ensures
        marks.take(n).filter(|m: bool| !m).len() == selection::positions(
            n,
            |i: int| !marks[i],
        ).len(),
    decreases n,
{
    let p = |i: int| !marks[i];
    let q = |m: bool| !m;
    if n == 0 {
        selection::lemma_positions_push(0, p);
        mime::lemma_filter_none(marks.take(0), q);
    } else {
        lemma_count_unmarked(marks, n - 1);
        selection::lemma_positions_push(n - 1, p);
        mime::lemma_filter_push(marks.take(n - 1), marks[n - 1], q);
        assert(marks.take(n) =~= marks.take(n - 1).push(marks[n - 1]));
    }
}

/// What holds at each point of a run: it is valid, and every event was of the
/// kind that was waited for.
proof fn lemma_setup_point<C: Clipboard>(
    clipboards: Seq<C>,
    ranks: Seq<u8>,
    events: Seq<SetupEvent>,
    k: int,
)
    requires
        setup_run(clipboards, ranks, events),
        0 <= k <= events.len(),
    ensures
        setup_at(ranks, events.take(k)).valid(),
        setup_at(ranks, events.take(k)).scan.ranks == ranks,
        k < events.len() ==> setup_performed(
            clipboards,
            setup_at(ranks, events.take(k)),
            events[k],
        ) && setup_at(ranks, events.take(k)).awaits(events[k]) && setup_at(
            ranks,
            events.take(k + 1),
        ) == setup_at(ranks, events.take(k)).after(events[k]),
    decreases k,
{
    if k == 0 {
        lemma_setup_begin(ranks);
    } else {
        lemma_setup_point(clipboards, ranks, events, k - 1);
        let before = setup_at(ranks, events.take(k - 1));
        lemma_setup_after(before, events[k - 1]);
    }
    if k < events.len() {
        assert(events.take(k + 1).drop_last() =~= events.take(k));
    }
}

/// Between two points of a run, phases only go forward; positions go forward
/// while writing.
proof fn lemma_setup_forward<C: Clipboard>(
    clipboards: Seq<C>,
    ranks: Seq<u8>,
    events: Seq<SetupEvent>,
    a: int,
    b: int,
)
    requires
        setup_run(clipboards, ranks, events),
        0 <= a <= b <= events.len(),
    ensures
        setup_at(ranks, events.take(b)).phases_left() <= setup_at(
            ranks,
            events.take(a),
        ).phases_left(),
        a < b && setup_at(ranks, events.take(a)).phase == Phase::Writing && setup_at(
            ranks,
            events.take(b),
        ).phase == Phase::Writing ==> setup_at(ranks, events.take(a)).place < setup_at(
            ranks,
            events.take(b),
        ).place,
        setup_at(ranks, events.take(a)).phases_left() <= 1 ==> setup_at(
            ranks,
            events.take(b),
        ).scan == setup_at(ranks, events.take(a)).scan,
        setup_at(ranks, events.take(a)).phase != Phase::Looking ==> setup_at(
            ranks,
            events.take(b),
        ).start == setup_at(ranks, events.take(a)).start,
    decreases b,
{
    if a < b {
        lemma_setup_forward(clipboards, ranks, events, a, b - 1);
        lemma_setup_point(clipboards, ranks, events, b - 1);
        lemma_setup_after(setup_at(ranks, events.take(b - 1)), events[b - 1]);
    }
}

/// The place of a kind of step in the order.
pub open spec fn turn_of(event: SetupEvent) -> nat {
    match event {
        SetupEvent::Looked(_) => 0,
        SetupEvent::Compared(_) => 1,
        SetupEvent::Written(_) => 2,
    }
}

/// Everything that is read for the content at the start is read before any two
/// clipboards are compared, and that content is written only after all
/// comparing.
pub proof fn law_look_then_compare_then_write<C: Clipboard>(
    clipboards: Seq<C>,
    ranks: Seq<u8>,
    events: Seq<SetupEvent>,
    a: int,
    b: int,
)
    requires
        setup_run(clipboards, ranks, events),
        0 <= a <= b < events.len(),
    ensures
        turn_of(events[a]) <= turn_of(events[b]),
{
    lemma_setup_point(clipboards, ranks, events, a);
    lemma_setup_point(clipboards, ranks, events, b);
    lemma_setup_forward(clipboards, ranks, events, a, b);
}

/// What an event offers as content at the start.
pub open spec fn offer_of(event: SetupEvent) -> Option<Seq<data::EntryView>> {
    match event {
        SetupEvent::Looked(read) => offered(read),
        _ => None,
    }
}

/// The first content that a series of events offers; none when there is none.
pub open spec fn first_offer(events: Seq<SetupEvent>) -> Seq<data::EntryView> {
    match data::first_some(events, |e: SetupEvent| offer_of(e)) {
        Some(payload) => payload,
        None => Seq::empty(),
    }
}

/// The clipboards are looked at in their order, one after the other.
pub proof fn law_looks_in_order<C: Clipboard>(
    clipboards: Seq<C>,
    ranks: Seq<u8>,
    events: Seq<SetupEvent>,
    k: int,
)
    requires
        setup_run(clipboards, ranks, events),
        0 <= k < events.len(),
    ensures
        events[k] matches SetupEvent::Looked(read) ==> k < ranks.len() && call_ensures(
            C::get_data,
            (&clipboards[k],),
            read,
        ),
{
    lemma_looking_place(clipboards, ranks, events, k);
    lemma_setup_point(clipboards, ranks, events, k);
}

proof fn lemma_looking_place<C: Clipboard>(
    clipboards: Seq<C>,
    ranks: Seq<u8>,
    events: Seq<SetupEvent>,
    k: int,
)
    requires
        setup_run(clipboards, ranks, events),
        0 <= k <= events.len(),
    ensures
        setup_at(ranks, events.take(k)).phase == Phase::Looking ==> setup_at(
            ranks,
            events.take(k),
        ).place == k,
    decreases k,
{
    if k > 0 {
        lemma_looking_place(clipboards, ranks, events, k - 1);
        lemma_setup_point(clipboards, ranks, events, k - 1);
        lemma_setup_after(setup_at(ranks, events.take(k - 1)), events[k - 1]);
    }
}

/// The content at the start is the first that a clipboard offered when it was
/// looked at.
pub proof fn law_start_is_the_first_offer<C: Clipboard>(
    clipboards: Seq<C>,
    ranks: Seq<u8>,
    events: Seq<SetupEvent>,
)
    requires
        setup_run(clipboards, ranks, events),
    ensures
        setup_at(ranks, events).start == first_offer(events),
{
    lemma_start_so_far(clipboards, ranks, events, events.len() as int);
    assert(events.take(events.len() as int) =~= events);
}

proof fn lemma_start_so_far<C: Clipboard>(
    clipboards: Seq<C>,
    ranks: Seq<u8>,
    events: Seq<SetupEvent>,
    k: int,
)
    requires
        setup_run(clipboards, ranks, events),
        0 <= k <= events.len(),
    ensures
        setup_at(ranks, events.take(k)).start == first_offer(events.take(k)),
        setup_at(ranks, events.take(k)).phase == Phase::Looking ==> data::first_some(
            events.take(k),
            |e: SetupEvent| offer_of(e),
        ) is None,
    decreases k,
{
    if k > 0 {
        let earlier = events.take(k - 1);
        let s = setup_at(ranks, earlier);
        let e = events[k - 1];
        lemma_start_so_far(clipboards, ranks, events, k - 1);
        lemma_setup_point(clipboards, ranks, events, k - 1);
        lemma_setup_after(s, e);
        data::lemma_first_some_push(earlier, e, |e: SetupEvent| offer_of(e));
        assert(events.take(k) =~= earlier.push(e));
    }
}

/// Whether the content at the start was written to the clipboard at position
/// `m` by the step after `k` events.
pub open spec fn writes_to(ranks: Seq<u8>, events: Seq<SetupEvent>, k: int, m: int) -> bool {
    0 <= k < events.len() && setup_at(ranks, events.take(k)).phase == Phase::Writing && setup_at(
        ranks,
        events.take(k),
    ).place == m
}

/// When there is content at the start, every clipboard that stays has it
/// written to it, whatever came of the other writes.
pub proof fn law_every_kept_clipboard_is_written<C: Clipboard>(
    clipboards: Seq<C>,
    ranks: Seq<u8>,
    events: Seq<SetupEvent>,
    m: int,
)
    requires
        setup_run(clipboards, ranks, events),
        setup_at(ranks, events).phase == Phase::Finished,
        setup_at(ranks, events).start.len() > 0,
        0 <= m < ranks.len(),
        !setup_at(ranks, events).scan.removed[m],
    ensures
        exists|k: int| #[trigger]
            writes_to(ranks, events, k, m) && (events[k] matches SetupEvent::Written(w)
                && clipboard::can_write(&clipboards[m], setup_at(ranks, events).start, w)),
{
    let n = events.len() as int;
    assert(events.take(n) =~= events);
    lemma_setup_point(clipboards, ranks, events, n);
    lemma_written_so_far(clipboards, ranks, events, n, m);
    let k = choose|k: int| 0 <= k < n && #[trigger] writes_to(ranks, events, k, m);
    lemma_setup_point(clipboards, ranks, events, k);
    lemma_setup_forward(clipboards, ranks, events, k, n);
}

proof fn lemma_written_so_far<C: Clipboard>(
    clipboards: Seq<C>,
    ranks: Seq<u8>,
    events: Seq<SetupEvent>,
    k: int,
    m: int,
)
    requires
        setup_run(clipboards, ranks, events),
        0 <= k <= events.len(),
        0 <= m < ranks.len(),
    ensures
        ({
            let s = setup_at(ranks, events.take(k));
            s.phases_left() <= 1 && s.start.len() > 0 && !s.scan.removed[m] && (s.phase
                == Phase::Writing ==> m < s.place) ==> exists|t: int|
                0 <= t < k && #[trigger] writes_to(ranks, events, t, m)
        }),
    decreases k,
{
    if k == 0 {
        lemma_setup_begin(ranks);
    } else {
        let s = setup_at(ranks, events.take(k - 1));
        let e = events[k - 1];
        let next = setup_at(ranks, events.take(k));
        lemma_written_so_far(clipboards, ranks, events, k - 1, m);
        lemma_setup_point(clipboards, ranks, events, k - 1);
        lemma_setup_point(clipboards, ranks, events, k);
        lemma_setup_after(s, e);
        if next.phases_left() <= 1 && next.start.len() > 0 && !next.scan.removed[m] && (next.phase
            == Phase::Writing ==> m < next.place) {
            if s.phase == Phase::Writing {
                lemma_next_unmarked(s.scan.removed, s.place + 1);
                if m == s.place {
                    assert(writes_to(ranks, events, k - 1, m));
                } else {
                    assert(m < s.place);
                    let t = choose|t: int| 0 <= t < k - 1 && #[trigger] writes_to(ranks, events, t, m);
                    assert(writes_to(ranks, events, t, m));
                }
            } else {
                lemma_next_unmarked(next.scan.removed, 0);
            }
        }
    }
}

/// No clipboard is written to twice, and none that does not stay.
pub proof fn law_no_clipboard_is_written_twice<C: Clipboard>(
    clipboards: Seq<C>,
    ranks: Seq<u8>,
    events: Seq<SetupEvent>,
    a: int,
    b: int,
    m: int,
)
    requires
        setup_run(clipboards, ranks, events),
        writes_to(ranks, events, a, m),
        writes_to(ranks, events, b, m),
    ensures
        a == b,
        0 <= m < ranks.len(),
        !setup_at(ranks, events).scan.removed[m],
{
    lemma_setup_point(clipboards, ranks, events, a);
    let n = events.len() as int;
    assert(events.take(n) =~= events);
    lemma_setup_forward(clipboards, ranks, events, a, n);
    if a < b {
        lemma_setup_forward(clipboards, ranks, events, a, b);
    } else {
        lemma_setup_forward(clipboards, ranks, events, b, a);
    }
}

/// Whether the step after `k` events compared the clipboards at positions `p`
/// and `q` and found them different.
pub open spec fn found_different(
    ranks: Seq<u8>,
    events: Seq<SetupEvent>,
    k: int,
    p: int,
    q: int,
) -> bool {
    let s = setup_at(ranks, events.take(k));
    0 <= k < events.len() && s.phase == Phase::Comparing && s.scan.i == p && s.scan.j == q
        && events[k] == SetupEvent::Compared(false)
}

proof fn lemma_passed_pairs_differ<C: Clipboard>(
    clipboards: Seq<C>,
    ranks: Seq<u8>,
    events: Seq<SetupEvent>,
    k: int,
    p: int,
    q: int,
)
    requires
        setup_run(clipboards, ranks, events),
        0 <= k <= events.len(),
        0 <= p < q < ranks.len(),
        !setup_at(ranks, events.take(k)).scan.removed[p],
        !setup_at(ranks, events.take(k)).scan.removed[q],
        duplicates::passed(setup_at(ranks, events.take(k)).scan, p, q),
    ensures
        exists|t: int| 0 <= t < k && #[trigger] found_different(ranks, events, t, p, q),
    decreases k,
{
    if k == 0 {
        duplicates::lemma_start_passed(ranks, p, q);
    } else {
        let s = setup_at(ranks, events.take(k - 1));
        lemma_setup_point(clipboards, ranks, events, k - 1);
        if s.phase == Phase::Comparing {
            let same = events[k - 1]->Compared_0;
            duplicates::lemma_answered_passed(s.scan, same, p, q);
            if p == s.scan.i && q == s.scan.j && !same {
                assert(found_different(ranks, events, k - 1, p, q));
            } else {
                lemma_passed_pairs_differ(clipboards, ranks, events, k - 1, p, q);
            }
        } else {
            lemma_passed_pairs_differ(clipboards, ranks, events, k - 1, p, q);
        }
    }
}

/// Every two clipboards that stay were compared, and found different.
pub proof fn law_kept_clipboards_were_found_different<C: Clipboard>(
    discovered: Seq<C>,
    ranks: Seq<u8>,
    events: Seq<SetupEvent>,
    kept: Seq<C>,
    p: int,
    q: int,
)
    requires
        prepared(discovered, ranks, events, kept),
        0 <= p < q < discovered.len(),
        !setup_at(ranks, events).scan.removed[p],
        !setup_at(ranks, events).scan.removed[q],
    ensures
        exists|k: int| #[trigger] found_different(ranks, events, k, p, q),
        sharing::same_outcome(&discovered[p], &discovered[q], false),
{
    let n = events.len() as int;
    assert(events.take(n) =~= events);
    lemma_setup_point(discovered, ranks, events, n);
    lemma_passed_pairs_differ(discovered, ranks, events, n, p, q);
    let k = choose|k: int| 0 <= k < n && #[trigger] found_different(ranks, events, k, p, q);
    lemma_setup_point(discovered, ranks, events, k);
}

/// Whether the step after `k` events found the clipboard at position `r` to be
/// the same as a preferred one.
pub open spec fn found_same(ranks: Seq<u8>, events: Seq<SetupEvent>, k: int, r: int) -> bool {
    let s = setup_at(ranks, events.take(k));
    0 <= k < events.len() && s.phase == Phase::Comparing && events[k] == SetupEvent::Compared(true)
        && ((r == s.scan.j && duplicates::preferred(ranks, s.scan.i, r)) || (r == s.scan.i
        && duplicates::preferred(ranks, s.scan.j, r)))
}

/// A clipboard does not stay only when it was compared with a preferred one and
/// found the same.
pub proof fn law_removed_clipboard_was_found_same<C: Clipboard>(
    clipboards: Seq<C>,
    ranks: Seq<u8>,
    events: Seq<SetupEvent>,
    r: int,
)
    requires
        setup_run(clipboards, ranks, events),
        0 <= r < ranks.len(),
        setup_at(ranks, events).scan.removed[r],
    ensures
        exists|k: int| #[trigger] found_same(ranks, events, k, r),
{
    let n = events.len() as int;
    assert(events.take(n) =~= events);
    lemma_removed_so_far(clipboards, ranks, events, n, r);
}

proof fn lemma_removed_so_far<C: Clipboard>(
    clipboards: Seq<C>,
    ranks: Seq<u8>,
    events: Seq<SetupEvent>,
    k: int,
    r: int,
)
    requires
        setup_run(clipboards, ranks, events),
        0 <= k <= events.len(),
        0 <= r < ranks.len(),
        setup_at(ranks, events.take(k)).scan.removed[r],
    ensures
        exists|t: int| 0 <= t < k && #[trigger] found_same(ranks, events, t, r),
    decreases k,
{
    if k > 0 {
        let s = setup_at(ranks, events.take(k - 1));
        lemma_setup_point(clipboards, ranks, events, k - 1);
        if s.scan.removed[r] {
            lemma_removed_so_far(clipboards, ranks, events, k - 1, r);
        } else {
            assert(found_same(ranks, events, k - 1, r));
        }
    }
}

/// Whether each comparison was answered by whether the two clipboards are
/// backed by one store.
pub open spec fn answered_truly(
    ranks: Seq<u8>,
    events: Seq<SetupEvent>,
    store: spec_fn(int) -> int,
) -> bool {
    forall|k: int|
        0 <= k < events.len() && (#[trigger] setup_at(ranks, events.take(k))).phase
            == Phase::Comparing ==> events[k] == SetupEvent::Compared(
            store(setup_at(ranks, events.take(k)).scan.i) == store(
                setup_at(ranks, events.take(k)).scan.j,
            ),
        )
}

proof fn lemma_true_answers_settle<C: Clipboard>(
    clipboards: Seq<C>,
    ranks: Seq<u8>,
    events: Seq<SetupEvent>,
    store: spec_fn(int) -> int,
    k: int,
)
    requires
        setup_run(clipboards, ranks, events),
        answered_truly(ranks, events, store),
        0 <= k <= events.len(),
    ensures
        setup_at(ranks, events.take(k)).scan.settled(|a: int, b: int| store(a) == store(b))
            == duplicates::ScanView::start(ranks).settled(|a: int, b: int| store(a) == store(b)),
    decreases k,
{
    if k > 0 {
        let s = setup_at(ranks, events.take(k - 1));
        let same = |a: int, b: int| store(a) == store(b);
        lemma_true_answers_settle(clipboards, ranks, events, store, k - 1);
        lemma_setup_point(clipboards, ranks, events, k - 1);
        if s.phase == Phase::Comparing {
            let answer = same(s.scan.i, s.scan.j);
            assert(events[k - 1] == SetupEvent::Compared(answer));
            assert(setup_at(ranks, events.take(k)).scan == s.scan.answered(answer));
            duplicates::lemma_answered(s.scan, answer);
        }
    }
}

/// When the answers are true to which store each clipboard is backed by, a
/// discovered clipboard stays exactly when it is the preferred one of its
/// store: of lower rank than the others, or found before those of its rank.
pub proof fn law_one_clipboard_per_store_stays<C: Clipboard>(
    discovered: Seq<C>,
    ranks: Seq<u8>,
    events: Seq<SetupEvent>,
    kept: Seq<C>,
    store: spec_fn(int) -> int,
    k: int,
)
    requires
        prepared(discovered, ranks, events, kept),
        answered_truly(ranks, events, store),
        0 <= k < discovered.len(),
    ensures
        !setup_at(ranks, events).scan.removed[k] <==> (forall|m: int|
            0 <= m < ranks.len() && m != k && #[trigger] store(m) == store(k)
                ==> duplicates::preferred(ranks, k, m)),
{
    let n = events.len() as int;
    assert(events.take(n) =~= events);
    lemma_setup_point(discovered, ranks, events, n);
    lemma_true_answers_settle(discovered, ranks, events, store, n);
    duplicates::law_one_clipboard_per_store(ranks, store, k);
}

proof fn lemma_looks_on<C: Clipboard>(
    clipboards: Seq<C>,
    ranks: Seq<u8>,
    events: Seq<SetupEvent>,
    m: int,
    k: int,
)
    requires
        setup_run(clipboards, ranks, events),
        0 <= k <= m < ranks.len(),
        k <= events.len(),
        forall|t: int|
            0 <= t < m && t < events.len() ==> !((#[trigger] events[t]) matches SetupEvent::Looked(
                Ok(d),
            ) && d@.len() > 0),
    ensures
        setup_at(ranks, events.take(k)).phase == Phase::Looking,
        setup_at(ranks, events.take(k)).place == k,
    decreases k,
{
    if k > 0 {
        lemma_looks_on(clipboards, ranks, events, m, k - 1);
        lemma_setup_point(clipboards, ranks, events, k - 1);
        assert(offered(events[k - 1]->Looked_0) is None);
    } else {
        assert(events.take(0) =~= Seq::<SetupEvent>::empty());
    }
}

/// The clipboards are read one after the other until one of them has content:
/// each one before which none had any is read.
pub proof fn law_looks_until_there_is_content<C: Clipboard>(
    clipboards: Seq<C>,
    ranks: Seq<u8>,
    events: Seq<SetupEvent>,
    m: int,
)
    requires
        setup_run(clipboards, ranks, events),
        setup_at(ranks, events).phase == Phase::Finished,
        0 <= m < ranks.len(),
        forall|t: int|
            0 <= t < m && t < events.len() ==> !((#[trigger] events[t]) matches SetupEvent::Looked(
                Ok(d),
            ) && d@.len() > 0),
    ensures
        m < events.len(),
        events[m] matches SetupEvent::Looked(read) && call_ensures(
            C::get_data,
            (&clipboards[m],),
            read,
        ),
{
    let n = events.len() as int;
    assert(events.take(n) =~= events);
    if n <= m {
        lemma_looks_on(clipboards, ranks, events, m, n);
    } else {
        lemma_looks_on(clipboards, ranks, events, m, m);
        lemma_setup_point(clipboards, ranks, events, m);
    }
}

/// The content that a clipboard had when it was read for it is handed, whole, to
/// every clipboard that stays.
pub proof fn law_content_at_the_start_reaches_all<C: Clipboard>(
    discovered: Seq<C>,
    ranks: Seq<u8>,
    events: Seq<SetupEvent>,
    kept: Seq<C>,
    t: int,
    d: ClipboardData,
    m: int,
)
    requires
        prepared(discovered, ranks, events, kept),
        0 <= t < events.len(),
        events[t] == SetupEvent::Looked(Ok(d)),
        d@.len() > 0,
        0 <= m < discovered.len(),
        !setup_at(ranks, events).scan.removed[m],
    ensures
        exists|c: ClipboardData, w: MyResult<()>| #[trigger]
            call_ensures(C::set_data, (&discovered[m], &c), w) && c@ == d@,
{
    let n = events.len() as int;
    assert(events.take(n) =~= events);
    lemma_setup_point(discovered, ranks, events, t);
    let s = setup_at(ranks, events.take(t));
    lemma_setup_after(s, events[t]);
    assert(offered(events[t]->Looked_0) == Some(d@));
    lemma_setup_forward(discovered, ranks, events, t + 1, n);
    assert(setup_at(ranks, events.take(t + 1)).start == d@);
    law_every_kept_clipboard_is_written(discovered, ranks, events, m);
    let k = choose|k: int| #[trigger]
        writes_to(ranks, events, k, m) && (events[k] matches SetupEvent::Written(w)
            && clipboard::can_write(&discovered[m], setup_at(ranks, events).start, w));
    clipboard::law_write_hands_on_the_payload(&discovered[m], d@, events[k]->Written_0);
}

/// What `get_clipboards` returns: success, with those of the discovered
/// clipboards, the Wayland ones first, that were not removed as duplicates, all
/// of them and in order.
pub proof fn law_getting_clipboards<C: Clipboard>(
    wayland: Discovery<C>,
    x11: Discovery<C>,
    result: MyResult<Vec<C>>,
)
    requires
        call_ensures(get_clipboards::<C>, (wayland, x11), result),
    ensures
        result matches Ok(kept) && exists|ranks: Seq<u8>, events: Seq<SetupEvent>|
            {
                let discovered = wayland@.clipboards + x11@.clipboards;
                let removed = (#[trigger] setup_at(ranks, events)).scan.removed;
                &&& setup_run(discovered, ranks, events)
                &&& removed.len() == discovered.len()
                &&& kept@.len() == removed.filter(|m: bool| !m).len()
                &&& forall|k: int|
                    0 <= k < discovered.len() && !(#[trigger] removed[k]) ==> removed.take(
                        k,
                    ).filter(|m: bool| !m).len() < kept@.len() && kept@[removed.take(k).filter(
                        |m: bool| !m,
                    ).len() as int] == discovered[k]
            },
{
    let discovered = wayland@.clipboards + x11@.clipboards;
    let kept = result->Ok_0@;
    let (ranks, events) = choose|ranks: Seq<u8>, events: Seq<SetupEvent>| #[trigger]
        prepared(discovered, ranks, events, kept);
    law_all_that_is_no_duplicate_is_returned(discovered, ranks, events, kept);
    assert(setup_run(discovered, ranks, events));
}

} // verus!
