//! Whether two clipboards share a backing store.
//!
//! A probe is written into one clipboard and looked for in the other, then the
//! other way round; what was there before is handed back at the end. The order
//! of these operations is a series of steps, each of which does one thing.
use vstd::prelude::*;
use vstd::string::*;

use crate::clipboard;
use crate::clipboard::Clipboard;
use crate::data;
use crate::data::ClipboardData;
use crate::error::MyResult;
use crate::text::str_eq;

verus! {

// ---------------------------------------------------------------------------
// The steps
// ---------------------------------------------------------------------------

/// What to do next.
pub enum SameStep {
    /// Read what the first clipboard holds.
    SaveOne,
    /// Write the first probe into the first clipboard.
    WriteOne,
    /// Read the text of the second clipboard.
    ReadTwo,
    /// Read what the second clipboard holds.
    SaveTwo,
    /// Write the second probe into the second clipboard.
    WriteTwo,
    /// Read the text of the first clipboard.
    ReadOne,
    /// Hand back to the second clipboard what it held; the answer is known.
    RestoreTwo(bool),
    /// Hand back to the first clipboard what it held; the answer is known.
    RestoreOne(bool),
    /// Nothing; this is the answer.
    Done(bool),
}

/// What came of a step.
pub enum SameEvent {
    Saved,
    Written(MyResult<()>),
    Read(MyResult<String>),
    Restored,
}

/// Whether what was read is the probe text.
pub open spec fn echoes(probe: Seq<char>, read: MyResult<String>) -> bool {
    read matches Ok(v) && v@ == probe
}

/// The step after an event. A write or read that fails, or a probe that is not
/// found, leads straight to handing back what was there. An event that does not
/// belong to the step changes nothing.
pub open spec fn same_step_after(
    step: SameStep,
    p1: Seq<char>,
    p2: Seq<char>,
    event: SameEvent,
) -> SameStep {
    match (step, event) {
        (SameStep::SaveOne, SameEvent::Saved) => SameStep::WriteOne,
        (SameStep::WriteOne, SameEvent::Written(Ok(_))) => SameStep::ReadTwo,
        (SameStep::WriteOne, SameEvent::Written(Err(_))) => SameStep::RestoreOne(false),
        (SameStep::ReadTwo, SameEvent::Read(r)) => if echoes(p1, r) {
            SameStep::SaveTwo
        } else {
            SameStep::RestoreOne(false)
        },
        (SameStep::SaveTwo, SameEvent::Saved) => SameStep::WriteTwo,
        (SameStep::WriteTwo, SameEvent::Written(Ok(_))) => SameStep::ReadOne,
        (SameStep::WriteTwo, SameEvent::Written(Err(_))) => SameStep::RestoreTwo(false),
        (SameStep::ReadOne, SameEvent::Read(r)) => SameStep::RestoreTwo(echoes(p2, r)),
        (SameStep::RestoreTwo(same), SameEvent::Restored) => SameStep::RestoreOne(same),
        (SameStep::RestoreOne(same), SameEvent::Restored) => SameStep::Done(same),
        (other, _) => other,
    }
}

/// How many steps are left at most.
pub open spec fn same_steps_left(step: SameStep) -> nat {
    match step {
        SameStep::SaveOne => 8,
        SameStep::WriteOne => 7,
        SameStep::ReadTwo => 6,
        SameStep::SaveTwo => 5,
        SameStep::WriteTwo => 4,
        SameStep::ReadOne => 3,
        SameStep::RestoreTwo(_) => 2,
        SameStep::RestoreOne(_) => 1,
        SameStep::Done(_) => 0,
    }
}

/// Whether what was read is the probe text.
pub fn is_echo(probe: &str, read: &MyResult<String>) -> (r: bool)
    ensures
        r == echoes(probe@, *read),
{
    match read {
        Ok(v) => str_eq(v.as_str(), probe),
        Err(_) => false,
    }
}

/// The step after an event.
pub fn next_same_step(step: SameStep, p1: &str, p2: &str, event: SameEvent) -> (r: SameStep)
    ensures
        r == same_step_after(step, p1@, p2@, event),
{
    match (step, event) {
        (SameStep::SaveOne, SameEvent::Saved) => SameStep::WriteOne,
        (SameStep::WriteOne, SameEvent::Written(Ok(_))) => SameStep::ReadTwo,
        (SameStep::WriteOne, SameEvent::Written(Err(_))) => SameStep::RestoreOne(false),
        (SameStep::ReadTwo, SameEvent::Read(r)) => if is_echo(p1, &r) {
            SameStep::SaveTwo
        } else {
            SameStep::RestoreOne(false)
        },
        (SameStep::SaveTwo, SameEvent::Saved) => SameStep::WriteTwo,
        (SameStep::WriteTwo, SameEvent::Written(Ok(_))) => SameStep::ReadOne,
        (SameStep::WriteTwo, SameEvent::Written(Err(_))) => SameStep::RestoreTwo(false),
        (SameStep::ReadOne, SameEvent::Read(r)) => SameStep::RestoreTwo(is_echo(p2, &r)),
        (SameStep::RestoreTwo(same), SameEvent::Restored) => SameStep::RestoreOne(same),
        (SameStep::RestoreOne(same), SameEvent::Restored) => SameStep::Done(same),
        (other, _) => other,
    }
}

/// The step that a series of events leads to.
pub open spec fn same_step_at(p1: Seq<char>, p2: Seq<char>, events: Seq<SameEvent>) -> SameStep
    decreases events.len(),
{
    if events.len() == 0 {
        SameStep::SaveOne
    } else {
        same_step_after(same_step_at(p1, p2, events.drop_last()), p1, p2, events.last())
    }
}

// ---------------------------------------------------------------------------
// Carrying out the steps
// ---------------------------------------------------------------------------

/// Whether `r` can come of writing the text `value` to `c`.
pub open spec fn set_outcome<C: Clipboard>(c: &C, value: Seq<char>, r: MyResult<()>) -> bool {
    exists|s: &str| s@ == value && #[trigger] call_ensures(C::set, (c, s), r)
}

/// Whether `r` can come of reading the text of `c`.
pub open spec fn get_outcome<C: Clipboard>(c: &C, r: MyResult<String>) -> bool {
    call_ensures(C::get, (c,), r)
}

/// Whether the payload was handed to the clipboard's `set_data`, whatever came
/// of it.
pub open spec fn written_to<C: Clipboard>(c: &C, payload: Seq<data::EntryView>) -> bool {
    exists|d: ClipboardData, r: MyResult<()>| #[trigger]
        call_ensures(C::set_data, (c, &d), r) && d@ == payload
}

/// Whether what was saved, unless reading it failed, was handed back.
pub open spec fn handed_back<C: Clipboard>(c: &C, saved: MyResult<ClipboardData>) -> bool {
    saved matches Ok(d) ==> written_to(c, d@)
}

/// Whether carrying out `step` can have given `event`. What the two clipboards
/// held before their probes is `saved1` and `saved2`.
pub open spec fn same_performed<A: Clipboard, B: Clipboard>(
    one: &A,
    two: &B,
    p1: Seq<char>,
    p2: Seq<char>,
    saved1: MyResult<ClipboardData>,
    saved2: MyResult<ClipboardData>,
    step: SameStep,
    event: SameEvent,
) -> bool {
    match step {
        SameStep::SaveOne => event is Saved && call_ensures(A::get_data, (one,), saved1),
        SameStep::WriteOne => event matches SameEvent::Written(w) && set_outcome(one, p1, w),
        SameStep::ReadTwo => event matches SameEvent::Read(r) && get_outcome(two, r),
        SameStep::SaveTwo => event is Saved && call_ensures(B::get_data, (two,), saved2),
        SameStep::WriteTwo => event matches SameEvent::Written(w) && set_outcome(two, p2, w),
        SameStep::ReadOne => event matches SameEvent::Read(r) && get_outcome(one, r),
        SameStep::RestoreTwo(_) => event is Restored && handed_back(two, saved2),
        SameStep::RestoreOne(_) => event is Restored && handed_back(one, saved1),
        SameStep::Done(_) => false,
    }
}

/// Whether carrying out one step after the other can have given these events,
/// so far.
pub open spec fn same_run<A: Clipboard, B: Clipboard>(
    one: &A,
    two: &B,
    p1: Seq<char>,
    p2: Seq<char>,
    saved1: MyResult<ClipboardData>,
    saved2: MyResult<ClipboardData>,
    events: Seq<SameEvent>,
) -> bool {
    forall|k: int|
        0 <= k < events.len() ==> same_performed(
            one,
            two,
            p1,
            p2,
            saved1,
            saved2,
            #[trigger] same_step_at(p1, p2, events.take(k)),
            events[k],
        )
}

/// Whether the steps can lead to the answer `same`. The probes are the display
/// names.
pub open spec fn same_outcome<A: Clipboard, B: Clipboard>(one: &A, two: &B, same: bool) -> bool {
    exists|
        p1: String,
        p2: String,
        saved1: MyResult<ClipboardData>,
        saved2: MyResult<ClipboardData>,
        events: Seq<SameEvent>,
    |
        call_ensures(A::display, (one,), p1) && call_ensures(B::display, (two,), p2)
            && #[trigger] same_run(one, two, p1@, p2@, saved1, saved2, events) && same_step_at(
            p1@,
            p2@,
            events,
        ) == SameStep::Done(same)
}

/// Writes a probe.
fn write_probe<C: Clipboard>(c: &C, probe: &String) -> (w: MyResult<()>)
    ensures
        set_outcome(c, probe@, w),
{
    c.set(probe.as_str())
}

/// Hands back to a clipboard what was read from it before a probe.
fn restore<C: Clipboard>(c: &C, saved: &MyResult<ClipboardData>)
    ensures
        handed_back(c, *saved),
{
    if let Ok(d) = saved {
        let written = c.set_data(d);
        assert(call_ensures(C::set_data, (c, d), written));
        assert(written_to(c, d@));
    }
}

proof fn lemma_same_run_push<A: Clipboard, B: Clipboard>(
    one: &A,
    two: &B,
    p1: Seq<char>,
    p2: Seq<char>,
    saved1: MyResult<ClipboardData>,
    saved2: MyResult<ClipboardData>,
    events: Seq<SameEvent>,
    event: SameEvent,
)
    requires
        same_run(one, two, p1, p2, saved1, saved2, events),
        same_performed(
            one,
            two,
            p1,
            p2,
            saved1,
            saved2,
            same_step_at(p1, p2, events),
            event,
        ),
    ensures
        same_run(one, two, p1, p2, saved1, saved2, events.push(event)),
        same_step_at(p1, p2, events.push(event)) == same_step_after(
            same_step_at(p1, p2, events),
            p1,
            p2,
            event,
        ),
{
    let more = events.push(event);
    assert(more.drop_last() =~= events);
    assert forall|k: int| 0 <= k < more.len() implies same_performed(
        one,
        two,
        p1,
        p2,
        saved1,
        saved2,
        #[trigger] same_step_at(p1, p2, more.take(k)),
        more[k],
    ) by {
        if k < events.len() {
            assert(more.take(k) =~= events.take(k));
            assert(more[k] == events[k]);
            assert(same_step_at(p1, p2, more.take(k)) == same_step_at(p1, p2, events.take(k)));
        } else {
            assert(more.take(k) =~= events);
        }
    }
}

/// What was saved for the second clipboard plays no part before it is saved.
proof fn lemma_same_run_saves_two<A: Clipboard, B: Clipboard>(
    one: &A,
    two: &B,
    p1: Seq<char>,
    p2: Seq<char>,
    saved1: MyResult<ClipboardData>,
    unset: MyResult<ClipboardData>,
    saved2: MyResult<ClipboardData>,
    events: Seq<SameEvent>,
)
    requires
        same_run(one, two, p1, p2, saved1, unset, events),
        same_steps_left(same_step_at(p1, p2, events)) >= 5,
    ensures
        same_run(one, two, p1, p2, saved1, saved2, events),
{
    assert forall|k: int| 0 <= k < events.len() implies same_performed(
        one,
        two,
        p1,
        p2,
        saved1,
        saved2,
        #[trigger] same_step_at(p1, p2, events.take(k)),
        events[k],
    ) by {
        let step = same_step_at(p1, p2, events.take(k));
        assert(same_performed(one, two, p1, p2, saved1, unset, step, events[k]));
        lemma_same_step_next(p1, p2, events, k);
        lemma_steps_only_fall(p1, p2, events, k);
        lemma_steps_only_fall(p1, p2, events, k + 1);
        assert(!(step is SaveTwo));
    }
}

proof fn lemma_steps_only_fall(p1: Seq<char>, p2: Seq<char>, events: Seq<SameEvent>, k: int)
    requires
        0 <= k <= events.len(),
    ensures
        same_steps_left(same_step_at(p1, p2, events)) <= same_steps_left(
            same_step_at(p1, p2, events.take(k)),
        ),
    decreases events.len(),
{
    if k == events.len() {
        assert(events.take(k) =~= events);
    } else {
        let earlier = events.drop_last();
        lemma_steps_only_fall(p1, p2, earlier, k);
        assert(earlier.take(k) =~= events.take(k));
    }
}

/// Check whether two clipboards share the same backing store by writing a
/// probe string into one and reading it from the other, then restoring.
///
/// Any I/O error is treated as "not the same": a clipboard we can't write to
/// or read from is definitely not sharing state with another.
pub fn are_same<A: Clipboard, B: Clipboard>(one: &A, two: &B) -> (r: MyResult<bool>)
    ensures
        r matches Ok(same) && same_outcome(one, two, same),
{
    Ok(share_store(one, two))
}

/// A check under way: the step to carry out, and what the two clipboards held
/// before their probes, once that was read.
pub struct SameCheck {
    pub step: SameStep,
    pub saved1: MyResult<ClipboardData>,
    pub saved2: MyResult<ClipboardData>,
}

impl SameCheck {
    /// A check before its first step.
    pub fn start() -> (r: Self)
        ensures
            r.step is SaveOne,
            r.saved1 matches Ok(d) && d@.len() == 0,
            r.saved2 matches Ok(d) && d@.len() == 0,
    {
        SameCheck {
            step: SameStep::SaveOne,
            saved1: Ok(ClipboardData::empty()),
            saved2: Ok(ClipboardData::empty()),
        }
    }

    /// Whether carrying out the current step can have given `event` and led to
    /// `next`.
    pub open spec fn can_advance<A: Clipboard, B: Clipboard>(
        self,
        one: &A,
        two: &B,
        p1: Seq<char>,
        p2: Seq<char>,
        event: SameEvent,
        next: SameCheck,
    ) -> bool {
        &&& same_performed(one, two, p1, p2, next.saved1, next.saved2, self.step, event)
        &&& next.step == same_step_after(self.step, p1, p2, event)
        &&& !(self.step is SaveOne) ==> next.saved1 == self.saved1
        &&& !(self.step is SaveTwo) ==> next.saved2 == self.saved2
    }

    /// Carries out the current step, and no other.
    pub fn advance<A: Clipboard, B: Clipboard>(
        self,
        one: &A,
        two: &B,
        probe1: &String,
        probe2: &String,
    ) -> (r: Self)
        ensures
            self.step is Done ==> r == self,
            !(self.step is Done) ==> exists|event: SameEvent| #[trigger]
                self.can_advance(one, two, probe1@, probe2@, event, r),
    {
        let ghost check = self;
        let SameCheck { step, mut saved1, mut saved2 } = self;
        let event = match step {
            SameStep::SaveOne => {
                saved1 = one.get_data();
                SameEvent::Saved
            },
            SameStep::WriteOne => SameEvent::Written(write_probe(one, probe1)),
            SameStep::ReadTwo => SameEvent::Read(two.get()),
            // In a shared store this is the first probe, which the content
            // saved before it replaces at the end.
            SameStep::SaveTwo => {
                saved2 = two.get_data();
                SameEvent::Saved
            },
            SameStep::WriteTwo => SameEvent::Written(write_probe(two, probe2)),
            SameStep::ReadOne => SameEvent::Read(one.get()),
            SameStep::RestoreTwo(_) => {
                restore(two, &saved2);
                SameEvent::Restored
            },
            SameStep::RestoreOne(_) => {
                restore(one, &saved1);
                SameEvent::Restored
            },
            SameStep::Done(same) => {
                return SameCheck { step: SameStep::Done(same), saved1, saved2 };
            },
        };
        let next = next_same_step(step, probe1.as_str(), probe2.as_str(), event);
        let r = SameCheck { step: next, saved1, saved2 };
        assert(check.can_advance(one, two, probe1@, probe2@, event, r));
        r
    }
}

/// Carries out one step after the other.
pub(crate) fn share_store<A: Clipboard, B: Clipboard>(one: &A, two: &B) -> (same: bool)
    ensures
        same_outcome(one, two, same),
{
    let probe1 = one.display();
    let probe2 = two.display();
    let ghost (p1, p2) = (probe1@, probe2@);
    let ghost mut events: Seq<SameEvent> = Seq::empty();
    let mut check = SameCheck::start();
    loop
        invariant
            p1 == probe1@,
            p2 == probe2@,
            call_ensures(A::display, (one,), probe1),
            call_ensures(B::display, (two,), probe2),
            check.step == same_step_at(p1, p2, events),
            check.step is SaveOne ==> events.len() == 0,
            same_run(one, two, p1, p2, check.saved1, check.saved2, events),
        decreases same_steps_left(check.step),
    {
        if let SameStep::Done(same) = check.step {
            return same;
        }
        let ghost before = check;
        check = check.advance(one, two, &probe1, &probe2);
        proof {
            let event = choose|event: SameEvent| #[trigger]
                before.can_advance(one, two, p1, p2, event, check);
            if before.step is SaveTwo {
                lemma_same_run_saves_two(
                    one,
                    two,
                    p1,
                    p2,
                    check.saved1,
                    before.saved2,
                    check.saved2,
                    events,
                );
            }
            lemma_same_run_push(one, two, p1, p2, check.saved1, check.saved2, events, event);
            events = events.push(event);
        }
    }
}

// ---------------------------------------------------------------------------
// Laws
// ---------------------------------------------------------------------------

proof fn lemma_same_step_next(p1: Seq<char>, p2: Seq<char>, events: Seq<SameEvent>, k: int)
    requires
        0 <= k < events.len(),
    ensures
        same_step_at(p1, p2, events.take(k + 1)) == same_step_after(
            same_step_at(p1, p2, events.take(k)),
            p1,
            p2,
            events[k],
        ),
{
    assert(events.take(k + 1).drop_last() =~= events.take(k));
}

/// What a run gave at one of its steps, and where that led.
proof fn lemma_same_run_at<A: Clipboard, B: Clipboard>(
    one: &A,
    two: &B,
    p1: Seq<char>,
    p2: Seq<char>,
    saved1: MyResult<ClipboardData>,
    saved2: MyResult<ClipboardData>,
    events: Seq<SameEvent>,
    k: int,
) -> (r: (SameStep, SameStep))
    requires
        same_run(one, two, p1, p2, saved1, saved2, events),
        0 <= k < events.len(),
    ensures
        r.0 == same_step_at(p1, p2, events.take(k)),
        r.1 == same_step_at(p1, p2, events.take(k + 1)),
        same_performed(one, two, p1, p2, saved1, saved2, r.0, events[k]),
        r.1 == same_step_after(r.0, p1, p2, events[k]),
{
    lemma_same_step_next(p1, p2, events, k);
    (same_step_at(p1, p2, events.take(k)), same_step_at(p1, p2, events.take(k + 1)))
}

/// A run that has come to the step after `k` events has either `k` events and
/// this step, or more events.
proof fn lemma_same_run_goes_on<A: Clipboard, B: Clipboard>(
    one: &A,
    two: &B,
    p1: Seq<char>,
    p2: Seq<char>,
    saved1: MyResult<ClipboardData>,
    saved2: MyResult<ClipboardData>,
    events: Seq<SameEvent>,
    k: int,
    same: bool,
)
    requires
        same_run(one, two, p1, p2, saved1, saved2, events),
        same_step_at(p1, p2, events) == SameStep::Done(same),
        0 <= k <= events.len(),
    ensures
        same_step_at(p1, p2, events.take(k)) is Done <==> events.len() == k,
        events.len() == k ==> same_step_at(p1, p2, events.take(k)) == SameStep::Done(same),
{
    if events.len() == k {
        assert(events.take(k) =~= events);
    } else {
        lemma_same_run_at(one, two, p1, p2, saved1, saved2, events, k);
    }
}

/// Whether a series of events is that of a whole check with the answer `same`:
/// a first write that fails, a first probe that is not found or a second write
/// that fails is followed by nothing but handing back what was saved, and the
/// answer is no; otherwise the second probe decides.
pub open spec fn in_order(
    p1: Seq<char>,
    p2: Seq<char>,
    events: Seq<SameEvent>,
    same: bool,
) -> bool {
    &&& events.len() >= 3
    &&& events[0] is Saved
    &&& events.last() is Restored
    &&& events[1] matches SameEvent::Written(w1) && match w1 {
        Err(_) => events.len() == 3 && !same,
        Ok(_) => events[2] matches SameEvent::Read(r1) && if !echoes(p1, r1) {
            events.len() == 4 && !same
        } else {
            &&& events[3] is Saved
            &&& events[events.len() - 2] is Restored
            &&& events[4] matches SameEvent::Written(w2) && match w2 {
                Err(_) => events.len() == 7 && !same,
                Ok(_) => events.len() == 8 && (events[5] matches SameEvent::Read(r2) && same
                    == echoes(p2, r2)),
            }
        },
    }
}

/// The events of a finished check come in the order that `in_order` describes:
/// write before read, and nothing but handing back after the first failure.
pub proof fn law_order_of_a_check<A: Clipboard, B: Clipboard>(
    one: &A,
    two: &B,
    p1: Seq<char>,
    p2: Seq<char>,
    saved1: MyResult<ClipboardData>,
    saved2: MyResult<ClipboardData>,
    events: Seq<SameEvent>,
    same: bool,
)
    requires
        same_run(one, two, p1, p2, saved1, saved2, events),
        same_step_at(p1, p2, events) == SameStep::Done(same),
    ensures
        in_order(p1, p2, events, same),
        events[1] matches SameEvent::Written(w1) && set_outcome(one, p1, w1),
        events[1]->Written_0 is Ok ==> (events[2] matches SameEvent::Read(r1) && get_outcome(
            two,
            r1,
        )),
        events.len() > 4 ==> (events[4] matches SameEvent::Written(w2) && set_outcome(two, p2, w2)),
        events.len() > 7 ==> (events[5] matches SameEvent::Read(r2) && get_outcome(one, r2)),
        handed_back(one, saved1),
        events.len() > 4 ==> handed_back(two, saved2),
{
    assert(events.take(0) =~= Seq::<SameEvent>::empty());
    lemma_same_run_goes_on(one, two, p1, p2, saved1, saved2, events, 0, same);
    lemma_same_run_at(one, two, p1, p2, saved1, saved2, events, 0);
    lemma_same_run_goes_on(one, two, p1, p2, saved1, saved2, events, 1, same);
    let (_, s2) = lemma_same_run_at(one, two, p1, p2, saved1, saved2, events, 1);
    lemma_same_run_goes_on(one, two, p1, p2, saved1, saved2, events, 2, same);
    let (_, s3) = lemma_same_run_at(one, two, p1, p2, saved1, saved2, events, 2);
    lemma_same_run_goes_on(one, two, p1, p2, saved1, saved2, events, 3, same);
    if s2 is ReadTwo {
        lemma_same_run_at(one, two, p1, p2, saved1, saved2, events, 3);
        lemma_same_run_goes_on(one, two, p1, p2, saved1, saved2, events, 4, same);
        if s3 is SaveTwo {
            let (_, s5) = lemma_same_run_at(one, two, p1, p2, saved1, saved2, events, 4);
            lemma_same_run_goes_on(one, two, p1, p2, saved1, saved2, events, 5, same);
            lemma_same_run_at(one, two, p1, p2, saved1, saved2, events, 5);
            lemma_same_run_goes_on(one, two, p1, p2, saved1, saved2, events, 6, same);
            lemma_same_run_at(one, two, p1, p2, saved1, saved2, events, 6);
            lemma_same_run_goes_on(one, two, p1, p2, saved1, saved2, events, 7, same);
            if s5 is ReadOne {
                lemma_same_run_at(one, two, p1, p2, saved1, saved2, events, 7);
                lemma_same_run_goes_on(one, two, p1, p2, saved1, saved2, events, 8, same);
            }
        }
    }
}

/// A clipboard that no text can be written to shares its store with no other.
pub proof fn law_unwritable_clipboard_is_different<A: Clipboard, B: Clipboard>(one: &A, two: &B)
    requires
        (forall|value: Seq<char>, w: MyResult<()>| #[trigger]
            set_outcome(one, value, w) ==> w is Err) || (forall|value: Seq<char>, w: MyResult<()>|
         #[trigger] set_outcome(two, value, w) ==> w is Err),
    ensures
        !same_outcome(one, two, true),
{
    assert forall|
        p1: String,
        p2: String,
        saved1: MyResult<ClipboardData>,
        saved2: MyResult<ClipboardData>,
        events: Seq<SameEvent>,
    | #[trigger]
        same_run(one, two, p1@, p2@, saved1, saved2, events) implies same_step_at(p1@, p2@, events)
        != SameStep::Done(true) by {
        if same_step_at(p1@, p2@, events) == SameStep::Done(true) {
            law_order_of_a_check(one, two, p1@, p2@, saved1, saved2, events, true);
            assert(events.len() == 8);
        }
    }
}

/// A clipboard that no text can be read from shares its store with no other.
pub proof fn law_unreadable_clipboard_is_different<A: Clipboard, B: Clipboard>(one: &A, two: &B)
    requires
        (forall|read: MyResult<String>| #[trigger] get_outcome(one, read) ==> read is Err) || (
        forall|read: MyResult<String>| #[trigger] get_outcome(two, read) ==> read is Err),
    ensures
        !same_outcome(one, two, true),
{
    assert forall|
        p1: String,
        p2: String,
        saved1: MyResult<ClipboardData>,
        saved2: MyResult<ClipboardData>,
        events: Seq<SameEvent>,
    | #[trigger]
        same_run(one, two, p1@, p2@, saved1, saved2, events) implies same_step_at(p1@, p2@, events)
        != SameStep::Done(true) by {
        if same_step_at(p1@, p2@, events) == SameStep::Done(true) {
            law_order_of_a_check(one, two, p1@, p2@, saved1, saved2, events, true);
            assert(events.len() == 8);
        }
    }
}

// ---------------------------------------------------------------------------
// What a check does to stores that work
// ---------------------------------------------------------------------------

/// What two clipboards hold, and whether that is one store.
#[verifier::ext_equal]
pub struct Stores {
    pub shared: bool,
    pub one: Seq<data::EntryView>,
    pub two: Seq<data::EntryView>,
}

impl Stores {
    /// In a shared store both clipboards hold the same.
    pub open spec fn valid(self) -> bool {
        self.shared ==> self.one == self.two
    }

    /// The stores after a write to the first clipboard.
    pub open spec fn with_one(self, payload: Seq<data::EntryView>) -> Stores {
        Stores {
            one: payload,
            two: if self.shared {
                payload
            } else {
                self.two
            },
            ..self
        }
    }

    /// The stores after a write to the second clipboard.
    pub open spec fn with_two(self, payload: Seq<data::EntryView>) -> Stores {
        Stores {
            two: payload,
            one: if self.shared {
                payload
            } else {
                self.one
            },
            ..self
        }
    }
}

/// A check of stores that work: its step, what the stores hold now, and what
/// was saved.
pub struct StoreCheck {
    pub step: SameStep,
    pub stores: Stores,
    pub saved1: Seq<data::EntryView>,
    pub saved2: Seq<data::EntryView>,
}

impl StoreCheck {
    pub open spec fn start(stores: Stores) -> StoreCheck {
        StoreCheck {
            step: SameStep::SaveOne,
            stores,
            saved1: Seq::empty(),
            saved2: Seq::empty(),
        }
    }

    /// Whether the current step gives `event`: writes succeed, and reads give
    /// the text of what is there.
    pub open spec fn gives(self, event: SameEvent) -> bool {
        match self.step {
            SameStep::SaveOne | SameStep::SaveTwo => event is Saved,
            SameStep::WriteOne | SameStep::WriteTwo => event matches SameEvent::Written(Ok(_)),
            SameStep::ReadTwo => event matches SameEvent::Read(Ok(t)) && t@
                == text_seen(self.stores.two),
            SameStep::ReadOne => event matches SameEvent::Read(Ok(t)) && t@
                == text_seen(self.stores.one),
            SameStep::RestoreOne(_) | SameStep::RestoreTwo(_) => event is Restored,
            SameStep::Done(_) => false,
        }
    }

    /// The check after the current step.
    pub open spec fn after(self, p1: Seq<char>, p2: Seq<char>, event: SameEvent) -> StoreCheck {
        let step = same_step_after(self.step, p1, p2, event);
        match self.step {
            SameStep::SaveOne => StoreCheck { step, saved1: self.stores.one, ..self },
            SameStep::SaveTwo => StoreCheck { step, saved2: self.stores.two, ..self },
            SameStep::WriteOne => StoreCheck {
                step,
                stores: self.stores.with_one(probe_payload(p1)),
                ..self
            },
            SameStep::WriteTwo => StoreCheck {
                step,
                stores: self.stores.with_two(probe_payload(p2)),
                ..self
            },
            SameStep::RestoreOne(_) => StoreCheck {
                step,
                stores: self.stores.with_one(self.saved1),
                ..self
            },
            SameStep::RestoreTwo(_) => StoreCheck {
                step,
                stores: self.stores.with_two(self.saved2),
                ..self
            },
            _ => StoreCheck { step, ..self },
        }
    }

    /// The check after a series of events.
    pub open spec fn after_all(
        self,
        p1: Seq<char>,
        p2: Seq<char>,
        events: Seq<SameEvent>,
    ) -> StoreCheck
        decreases events.len(),
    {
        if events.len() == 0 {
            self
        } else {
            self.after_all(p1, p2, events.drop_last()).after(p1, p2, events.last())
        }
    }
}

/// What writing a probe puts into a store.
#[verifier::opaque]
pub open spec fn probe_payload(probe: Seq<char>) -> Seq<data::EntryView> {
    data::text_payload(probe)
}

/// The text that is read from a store.
#[verifier::opaque]
pub open spec fn text_seen(payload: Seq<data::EntryView>) -> Seq<char> {
    clipboard::text_or_empty(payload)
}

/// Whether a probe comes back from a store as it was written.
pub open spec fn reads_back(probe: Seq<char>) -> bool {
    text_seen(probe_payload(probe)) == probe
}

/// Whether the probes tell whether the stores are one: in a shared store they
/// must come back as they were written; otherwise the second clipboard must not
/// happen to hold the first probe while the first probe comes back as the
/// second.
pub open spec fn probes_tell(stores: Stores, p1: Seq<char>, p2: Seq<char>) -> bool {
    if stores.shared {
        reads_back(p1) && reads_back(p2)
    } else {
        text_seen(stores.two) != p1 || text_seen(probe_payload(p1)) != p2
    }
}

/// What is known of a check of working stores at each of its steps. `before`
/// is what the stores held at first.
spec fn store_progress(c: StoreCheck, before: Stores, p1: Seq<char>, p2: Seq<char>) -> bool {
    let probed = before.with_one(probe_payload(p1));
    let told = probes_tell(before, p1, p2);
    let first_found = text_seen(probed.two) == p1;
    &&& !(c.step is SaveOne) ==> c.saved1 == before.one
    &&& match c.step {
        SameStep::SaveOne | SameStep::WriteOne => c.stores == before,
        SameStep::ReadTwo => c.stores == probed,
        SameStep::SaveTwo => c.stores == probed && first_found,
        SameStep::WriteTwo => c.stores == probed && c.saved2 == probed.two && first_found,
        SameStep::ReadOne => c.stores == probed.with_two(probe_payload(p2)) && c.saved2
            == probed.two && first_found,
        SameStep::RestoreTwo(same) => c.stores == probed.with_two(probe_payload(p2)) && c.saved2
            == probed.two && (same == before.shared) == told,
        SameStep::RestoreOne(same) => c.stores == probed && (same == before.shared) == told,
        SameStep::Done(same) => c.stores == before && (same == before.shared) == told,
    }
}

/// Whether checking working stores gave these events.
pub open spec fn stores_gave(
    before: Stores,
    p1: Seq<char>,
    p2: Seq<char>,
    events: Seq<SameEvent>,
) -> bool {
    forall|k: int|
        0 <= k < events.len() ==> (#[trigger] StoreCheck::start(before).after_all(
            p1,
            p2,
            events.take(k),
        )).gives(events[k])
}

proof fn lemma_store_step(
    c: StoreCheck,
    before: Stores,
    p1: Seq<char>,
    p2: Seq<char>,
    event: SameEvent,
)
    requires
        before.valid(),
        store_progress(c, before, p1, p2),
        c.gives(event),
    ensures
        store_progress(c.after(p1, p2, event), before, p1, p2),
{
    let probed = before.with_one(probe_payload(p1));
    let both = probed.with_two(probe_payload(p2));
    match c.step {
        SameStep::ReadTwo => {
            assert(probed.two == if before.shared {
                probe_payload(p1)
            } else {
                before.two
            });
        },
        SameStep::ReadOne => {
            assert(both.one == if before.shared {
                probe_payload(p2)
            } else {
                probe_payload(p1)
            });
        },
        SameStep::RestoreTwo(_) => {
            assert(both.with_two(probed.two) == probed);
        },
        SameStep::RestoreOne(_) => {
            assert(probed.with_one(before.one) == before);
        },
        _ => {},
    }
}

proof fn lemma_store_progress(
    before: Stores,
    p1: Seq<char>,
    p2: Seq<char>,
    events: Seq<SameEvent>,
)
    requires
        before.valid(),
        stores_gave(before, p1, p2, events),
    ensures
        store_progress(StoreCheck::start(before).after_all(p1, p2, events), before, p1, p2),
    decreases events.len(),
{
    if events.len() > 0 {
        let earlier = events.drop_last();
        let start = StoreCheck::start(before);
        assert forall|k: int| 0 <= k < earlier.len() implies (#[trigger] start.after_all(
            p1,
            p2,
            earlier.take(k),
        )).gives(earlier[k]) by {
            assert(earlier.take(k) =~= events.take(k));
            assert(start.after_all(p1, p2, events.take(k)).gives(events[k]));
        }
        lemma_store_progress(before, p1, p2, earlier);
        let k = events.len() - 1;
        assert(events.take(k) =~= earlier);
        assert(start.after_all(p1, p2, events.take(k)).gives(events[k]));
        lemma_store_step(start.after_all(p1, p2, earlier), before, p1, p2, events[k]);
    }
}

/// A check of clipboards whose reads and writes work leaves in them what they
/// held before, whatever the probes are and whatever the answer is.
pub proof fn law_check_keeps_stores(
    before: Stores,
    p1: Seq<char>,
    p2: Seq<char>,
    events: Seq<SameEvent>,
)
    requires
        before.valid(),
        stores_gave(before, p1, p2, events),
    ensures
        StoreCheck::start(before).after_all(p1, p2, events).step is Done ==> StoreCheck::start(
            before,
        ).after_all(p1, p2, events).stores == before,
{
    lemma_store_progress(before, p1, p2, events);
}

/// A check of clipboards whose reads and writes work answers rightly exactly
/// when its probes tell.
pub proof fn law_check_answers_rightly(
    before: Stores,
    p1: Seq<char>,
    p2: Seq<char>,
    events: Seq<SameEvent>,
)
    requires
        before.valid(),
        stores_gave(before, p1, p2, events),
    ensures
        StoreCheck::start(before).after_all(p1, p2, events).step matches SameStep::Done(same)
            ==> (same == before.shared <==> probes_tell(before, p1, p2)),
{
    lemma_store_progress(before, p1, p2, events);
}

/// Of two clipboards whose reads and writes work, a check with different probes
/// finds out whether they share a store, and leaves in them what they held
/// before.
pub proof fn law_check_finds_and_keeps_stores(
    before: Stores,
    p1: Seq<char>,
    p2: Seq<char>,
    events: Seq<SameEvent>,
    same: bool,
)
    requires
        before.valid(),
        p1 != p2,
        reads_back(p1),
        reads_back(p2),
        stores_gave(before, p1, p2, events),
        StoreCheck::start(before).after_all(p1, p2, events).step == SameStep::Done(same),
    ensures
        same == before.shared,
        StoreCheck::start(before).after_all(p1, p2, events).stores == before,
{
    lemma_store_progress(before, p1, p2, events);
}

/// The steps of a check of working stores are those of any check.
pub proof fn law_store_check_takes_the_same_steps(
    before: Stores,
    p1: Seq<char>,
    p2: Seq<char>,
    events: Seq<SameEvent>,
)
    ensures
        StoreCheck::start(before).after_all(p1, p2, events).step == same_step_at(p1, p2, events),
    decreases events.len(),
{
    if events.len() > 0 {
        law_store_check_takes_the_same_steps(before, p1, p2, events.drop_last());
    }
}

/// What a check does to the clipboards, call by call. The first is read, then
/// its probe is written to it as text. When the probe is found in the second,
/// that is read and its probe written. What was read is handed back, whole, to
/// each clipboard that a probe was written to.
pub proof fn law_calls_of_a_check<A: Clipboard, B: Clipboard>(
    one: &A,
    two: &B,
    p1: Seq<char>,
    p2: Seq<char>,
    saved1: MyResult<ClipboardData>,
    saved2: MyResult<ClipboardData>,
    events: Seq<SameEvent>,
    same: bool,
)
    requires
        same_run(one, two, p1, p2, saved1, saved2, events),
        same_step_at(p1, p2, events) == SameStep::Done(same),
    ensures
        call_ensures(A::get_data, (one,), saved1),
        events[1] matches SameEvent::Written(w) && exists|s: &str|
            s@ == p1 && #[trigger] call_ensures(A::set, (one, s), w),
        saved1 matches Ok(d) ==> exists|c: ClipboardData, w: MyResult<()>| #[trigger]
            call_ensures(A::set_data, (one, &c), w) && c@ == d@,
        same ==> (events[2] matches SameEvent::Read(Ok(t)) && t@ == p1 && call_ensures(
            B::get,
            (two,),
            MyResult::<String>::Ok(t),
        )),
        same ==> (events[5] matches SameEvent::Read(Ok(t)) && t@ == p2 && call_ensures(
            A::get,
            (one,),
            MyResult::<String>::Ok(t),
        )),
        events.len() > 4 ==> call_ensures(B::get_data, (two,), saved2),
        events.len() > 4 ==> (events[4] matches SameEvent::Written(w) && exists|s: &str|
            s@ == p2 && #[trigger] call_ensures(B::set, (two, s), w)),
        events.len() > 4 ==> (saved2 matches Ok(d) ==> exists|c: ClipboardData, w: MyResult<()>|
         #[trigger]
            call_ensures(B::set_data, (two, &c), w) && c@ == d@),
{
    law_order_of_a_check(one, two, p1, p2, saved1, saved2, events, same);
    assert(events.take(0) =~= Seq::<SameEvent>::empty());
    lemma_same_run_at(one, two, p1, p2, saved1, saved2, events, 0);
    if events.len() > 4 {
        lemma_same_run_at(one, two, p1, p2, saved1, saved2, events, 1);
        lemma_same_run_at(one, two, p1, p2, saved1, saved2, events, 2);
        lemma_same_run_at(one, two, p1, p2, saved1, saved2, events, 3);
    }
}

/// The probes of a check are the display names of the two clipboards, and its
/// events come in order.
pub proof fn law_probes_are_display_names<A: Clipboard, B: Clipboard>(
    one: &A,
    two: &B,
    same: bool,
)
    requires
        same_outcome(one, two, same),
    ensures
        exists|p1: String, p2: String, events: Seq<SameEvent>|
            call_ensures(A::display, (one,), p1) && call_ensures(B::display, (two,), p2)
                && #[trigger] in_order(p1@, p2@, events, same),
{
    let (p1, p2, saved1, saved2, events) = choose|
        p1: String,
        p2: String,
        saved1: MyResult<ClipboardData>,
        saved2: MyResult<ClipboardData>,
        events: Seq<SameEvent>,
    |
        call_ensures(A::display, (one,), p1) && call_ensures(B::display, (two,), p2)
            && #[trigger] same_run(one, two, p1@, p2@, saved1, saved2, events) && same_step_at(
            p1@,
            p2@,
            events,
        ) == SameStep::Done(same);
    law_order_of_a_check(one, two, p1@, p2@, saved1, saved2, events, same);
}

/// A probe is found exactly when what was read is that text, whole.
pub proof fn law_probe_is_found_whole(probe: Seq<char>, read: MyResult<String>)
    ensures
        echoes(probe, read) <==> read is Ok && read->Ok_0@ == probe,
{
}

} // verus!
