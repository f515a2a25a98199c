//! Deciding which backend serves a display.
//!
//! Trying a display is a series of steps, each of which does one thing.
use vstd::prelude::*;
use vstd::string::*;

use crate::clipboard::Clipboard;
use crate::data::ClipboardData;
use crate::discovery;
use crate::discovery::{wayland_display, x11_display};
use crate::error::{MyError, MyResult, PasteError};
use crate::text::str_eq;

verus! {

/// Whether `made` can be what `make` gives for a display of this name.
pub open spec fn can_make<T, F: Fn(String) -> T>(make: F, name: Seq<char>, made: T) -> bool {
    exists|s: String| s@ == name && #[trigger] call_ensures(make, (s,), made)
}

// ---------------------------------------------------------------------------
// Wayland
// ---------------------------------------------------------------------------

/// The backend to use for a Wayland display.
pub enum WaylandChoice<W, K> {
    /// The data-control protocol.
    Native(W),
    /// The `wl-copy` and `wl-paste` commands.
    Command(K),
}

/// What a failure to read through the data-control protocol means.
pub enum ReadFailure {
    /// Nothing listens on the display.
    Absent,
    /// The compositor lacks the protocol.
    NoDataControl,
    /// Something else is wrong.
    Unexpected(MyError),
}

/// What a failure to read through the data-control protocol means.
pub open spec fn meaning_of(e: MyError) -> ReadFailure {
    match e {
        MyError::WlcrsPaste(PasteError::WaylandConnection(_)) => ReadFailure::Absent,
        MyError::WlcrsPaste(PasteError::MissingProtocol { name, version }) => if name@
            == "zwlr_data_control_manager_v1"@ && version == 1 {
            ReadFailure::NoDataControl
        } else {
            ReadFailure::Unexpected(e)
        },
        _ => ReadFailure::Unexpected(e),
    }
}

/// What a failure to read through the data-control protocol means.
pub fn explain(e: MyError) -> (r: ReadFailure)
    ensures
        r == meaning_of(e),
{
    match e {
        // Any Wayland connection failure means this compositor is unavailable.
        MyError::WlcrsPaste(PasteError::WaylandConnection(_)) => ReadFailure::Absent,
        MyError::WlcrsPaste(PasteError::MissingProtocol { name, version }) => {
            if str_eq(name.as_str(), "zwlr_data_control_manager_v1") && version == 1 {
                ReadFailure::NoDataControl
            } else {
                ReadFailure::Unexpected(
                    MyError::WlcrsPaste(PasteError::MissingProtocol { name, version }),
                )
            }
        },
        other => ReadFailure::Unexpected(other),
    }
}

/// What to do next about a Wayland display.
pub enum WaylandStep {
    /// Read through the data-control protocol.
    ReadNative,
    /// Write back through it what was read.
    WriteNative(ClipboardData),
    /// Read through the commands.
    ReadCommand,
    /// Write back through them what was read.
    WriteCommand(ClipboardData),
    /// Nothing; this is the answer.
    Done(WaylandAnswer),
}

/// What trying a Wayland display came to.
pub enum WaylandAnswer {
    /// Use the data-control protocol.
    Native,
    /// Use the commands.
    Command,
    /// There is no usable clipboard.
    Absent,
    /// Something is wrong.
    Failed(MyError),
}

/// What came of a step.
pub enum WaylandEvent {
    Read(MyResult<ClipboardData>),
    Written(MyResult<()>),
}

/// The step after an event. The data-control backend is used when it can be
/// read and what was read, if anything, written back; the command backend is
/// tried only when the compositor lacks that protocol. An event that does not
/// belong to the step changes nothing.
pub open spec fn wayland_step_after(step: WaylandStep, event: WaylandEvent) -> WaylandStep {
    match (step, event) {
        (WaylandStep::ReadNative, WaylandEvent::Read(Err(e))) => match meaning_of(e) {
            ReadFailure::Absent => WaylandStep::Done(WaylandAnswer::Absent),
            ReadFailure::NoDataControl => WaylandStep::ReadCommand,
            ReadFailure::Unexpected(failure) => WaylandStep::Done(WaylandAnswer::Failed(failure)),
        },
        (WaylandStep::ReadNative, WaylandEvent::Read(Ok(d))) => if d@.len() == 0 {
            WaylandStep::Done(WaylandAnswer::Native)
        } else {
            WaylandStep::WriteNative(d)
        },
        (WaylandStep::WriteNative(_), WaylandEvent::Written(Ok(_))) => WaylandStep::Done(
            WaylandAnswer::Native,
        ),
        (WaylandStep::WriteNative(_), WaylandEvent::Written(Err(_))) => WaylandStep::Done(
            WaylandAnswer::Absent,
        ),
        (WaylandStep::ReadCommand, WaylandEvent::Read(Ok(d))) => WaylandStep::WriteCommand(d),
        (WaylandStep::ReadCommand, WaylandEvent::Read(Err(_))) => WaylandStep::Done(
            WaylandAnswer::Absent,
        ),
        (WaylandStep::WriteCommand(_), WaylandEvent::Written(Ok(_))) => WaylandStep::Done(
            WaylandAnswer::Command,
        ),
        (WaylandStep::WriteCommand(_), WaylandEvent::Written(Err(_))) => WaylandStep::Done(
            WaylandAnswer::Absent,
        ),
        (other, _) => other,
    }
}

/// The step after an event.
pub fn next_wayland_step(step: WaylandStep, event: WaylandEvent) -> (r: WaylandStep)
    ensures
        r == wayland_step_after(step, event),
{
    match (step, event) {
        (WaylandStep::ReadNative, WaylandEvent::Read(Err(e))) => match explain(e) {
            ReadFailure::Absent => WaylandStep::Done(WaylandAnswer::Absent),
            // Verify wl-paste and wl-copy are functional for this display.
            ReadFailure::NoDataControl => WaylandStep::ReadCommand,
            ReadFailure::Unexpected(failure) => WaylandStep::Done(WaylandAnswer::Failed(failure)),
        },
        // Probe write capability: if the clipboard already has content, restore
        // it. This catches compositors that accept paste (one-shot) but reject
        // copy (long-lived connection).
        (WaylandStep::ReadNative, WaylandEvent::Read(Ok(d))) => if d.is_empty() {
            WaylandStep::Done(WaylandAnswer::Native)
        } else {
            WaylandStep::WriteNative(d)
        },
        (WaylandStep::WriteNative(_), WaylandEvent::Written(Ok(_))) => WaylandStep::Done(
            WaylandAnswer::Native,
        ),
        (WaylandStep::WriteNative(_), WaylandEvent::Written(Err(_))) => WaylandStep::Done(
            WaylandAnswer::Absent,
        ),
        (WaylandStep::ReadCommand, WaylandEvent::Read(Ok(d))) => WaylandStep::WriteCommand(d),
        (WaylandStep::ReadCommand, WaylandEvent::Read(Err(_))) => WaylandStep::Done(
            WaylandAnswer::Absent,
        ),
        (WaylandStep::WriteCommand(_), WaylandEvent::Written(Ok(_))) => WaylandStep::Done(
            WaylandAnswer::Command,
        ),
        (WaylandStep::WriteCommand(_), WaylandEvent::Written(Err(_))) => WaylandStep::Done(
            WaylandAnswer::Absent,
        ),
        (other, _) => other,
    }
}

/// How many steps are left at most.
pub open spec fn wayland_steps_left(step: WaylandStep) -> nat {
    match step {
        WaylandStep::ReadNative => 3,
        WaylandStep::ReadCommand => 2,
        WaylandStep::WriteNative(_) => 1,
        WaylandStep::WriteCommand(_) => 1,
        WaylandStep::Done(_) => 0,
    }
}

/// The step that a series of events leads to.
pub open spec fn wayland_step_at(events: Seq<WaylandEvent>) -> WaylandStep
    decreases events.len(),
{
    if events.len() == 0 {
        WaylandStep::ReadNative
    } else {
        wayland_step_after(wayland_step_at(events.drop_last()), events.last())
    }
}

/// Whether carrying out `step` can have given `event`.
pub open spec fn wayland_performed<W: Clipboard, K: Clipboard>(
    native: &W,
    command: &K,
    step: WaylandStep,
    event: WaylandEvent,
) -> bool {
    match step {
        WaylandStep::ReadNative => event matches WaylandEvent::Read(r) && call_ensures(
            W::get_data,
            (native,),
            r,
        ),
        WaylandStep::WriteNative(d) => event matches WaylandEvent::Written(w) && call_ensures(
            W::set_data,
            (native, &d),
            w,
        ),
        WaylandStep::ReadCommand => event matches WaylandEvent::Read(r) && call_ensures(
            K::get_data,
            (command,),
            r,
        ),
        WaylandStep::WriteCommand(d) => event matches WaylandEvent::Written(w) && call_ensures(
            K::set_data,
            (command, &d),
            w,
        ),
        WaylandStep::Done(_) => false,
    }
}

/// Whether carrying out one step after the other can have given these events,
/// so far.
pub open spec fn wayland_run<W: Clipboard, K: Clipboard>(
    native: &W,
    command: &K,
    events: Seq<WaylandEvent>,
) -> bool {
    forall|k: int|
        0 <= k < events.len() ==> wayland_performed(
            native,
            command,
            #[trigger] wayland_step_at(events.take(k)),
            events[k],
        )
}

/// What an answer makes of the two backends.
pub open spec fn wayland_result<W, K>(
    answer: WaylandAnswer,
    native: W,
    command: K,
) -> MyResult<Option<WaylandChoice<W, K>>> {
    match answer {
        WaylandAnswer::Native => Ok(Some(WaylandChoice::Native(native))),
        WaylandAnswer::Command => Ok(Some(WaylandChoice::Command(command))),
        WaylandAnswer::Absent => Ok(None),
        WaylandAnswer::Failed(e) => Err(e),
    }
}

/// Whether trying a Wayland display can have given these events and ended with
/// `r`.
pub open spec fn wayland_tried<W: Clipboard, K: Clipboard>(
    native: W,
    command: K,
    events: Seq<WaylandEvent>,
    r: MyResult<Option<WaylandChoice<W, K>>>,
) -> bool {
    &&& wayland_run(&native, &command, events)
    &&& wayland_step_at(events) matches WaylandStep::Done(answer) && r == wayland_result(
        answer,
        native,
        command,
    )
}

/// Carries out a step, and no other.
pub fn perform_wayland_step<W: Clipboard, K: Clipboard>(
    native: &W,
    command: &K,
    step: &WaylandStep,
) -> (r: Option<WaylandEvent>)
    ensures
        r is None <==> *step is Done,
        r matches Some(event) ==> wayland_performed(native, command, *step, event),
{
    match step {
        WaylandStep::ReadNative => Some(WaylandEvent::Read(native.get_data())),
        WaylandStep::WriteNative(d) => Some(WaylandEvent::Written(native.set_data(d))),
        WaylandStep::ReadCommand => Some(WaylandEvent::Read(command.get_data())),
        WaylandStep::WriteCommand(d) => Some(WaylandEvent::Written(command.set_data(d))),
        WaylandStep::Done(_) => None,
    }
}

proof fn lemma_wayland_push<W: Clipboard, K: Clipboard>(
    native: &W,
    command: &K,
    events: Seq<WaylandEvent>,
    event: WaylandEvent,
)
    requires
        wayland_run(native, command, events),
        wayland_performed(native, command, wayland_step_at(events), event),
    ensures
        wayland_run(native, command, events.push(event)),
        wayland_step_at(events.push(event)) == wayland_step_after(wayland_step_at(events), event),
{
    let more = events.push(event);
    assert(more.drop_last() =~= events);
    assert forall|k: int| 0 <= k < more.len() implies wayland_performed(
        native,
        command,
        #[trigger] wayland_step_at(more.take(k)),
        more[k],
    ) by {
        if k < events.len() {
            assert(more.take(k) =~= events.take(k));
            assert(wayland_step_at(more.take(k)) == wayland_step_at(events.take(k)));
        } else {
            assert(more.take(k) =~= events);
        }
    }
}

/// Tries the Wayland display of the given number. `native` and `command` make
/// its two backends.
pub fn get_wayland<W: Clipboard, K: Clipboard, FW: Fn(String) -> W, FK: Fn(String) -> K>(
    n: u8,
    native: FW,
    command: FK,
) -> (r: MyResult<Option<WaylandChoice<W, K>>>)
    requires
        forall|s: String| call_requires(native, (s,)),
        forall|s: String| call_requires(command, (s,)),
    ensures
        exists|w: W, k: K, events: Seq<WaylandEvent>|
            can_make(native, discovery::wayland_name(n), w) && can_make(
                command,
                discovery::wayland_name(n),
                k,
            ) && #[trigger] wayland_tried(w, k, events, r),
{
    let w = native(wayland_display(n));
    let k = command(wayland_display(n));
    assert(can_make(native, discovery::wayland_name(n), w));
    assert(can_make(command, discovery::wayland_name(n), k));
    let ghost mut events: Seq<WaylandEvent> = Seq::empty();
    let mut step = WaylandStep::ReadNative;
    let mut event = perform_wayland_step(&w, &k, &step);
    while event.is_some()
        invariant
            step == wayland_step_at(events),
            wayland_run(&w, &k, events),
            event is None <==> step is Done,
            event matches Some(e) ==> wayland_performed(&w, &k, step, e),
        decreases wayland_steps_left(step),
    {
        if let Some(e) = event {
            proof {
                lemma_wayland_push(&w, &k, events, e);
                events = events.push(e);
            }
            step = next_wayland_step(step, e);
            event = perform_wayland_step(&w, &k, &step);
        }
    }
    let ghost (w0, k0) = (w, k);
    let r = match step {
        WaylandStep::Done(WaylandAnswer::Native) => Ok(Some(WaylandChoice::Native(w))),
        WaylandStep::Done(WaylandAnswer::Command) => Ok(Some(WaylandChoice::Command(k))),
        WaylandStep::Done(WaylandAnswer::Failed(e)) => Err(e),
        _ => Ok(None),
    };
    assert(wayland_tried(w0, k0, events, r));
    r
}

// ---------------------------------------------------------------------------
// X11
// ---------------------------------------------------------------------------

/// The backend to use for an X11 display.
pub enum X11Choice<D, L> {
    /// The atom backend.
    Direct(D),
    /// The text backend.
    Legacy(L),
}

/// What to do next about an X11 display.
pub enum X11Step<D, L> {
    /// Open the atom backend.
    OpenDirect,
    /// Read through it.
    ReadDirect(D),
    /// Open the text backend.
    OpenLegacy,
    /// Read through it.
    ReadLegacy(L),
    /// Nothing; this is the answer.
    Done(MyResult<Option<X11Choice<D, L>>>),
}

/// What came of a step.
pub enum X11Event<D, L> {
    OpenedDirect(MyResult<D>),
    OpenedLegacy(MyResult<L>),
    Read(MyResult<ClipboardData>),
}

/// The step after an event. The text backend is opened only when the atom
/// backend does not open or cannot be read. An event that does not belong to
/// the step changes nothing.
pub open spec fn x11_step_after<D, L>(step: X11Step<D, L>, event: X11Event<D, L>) -> X11Step<D, L> {
    match (step, event) {
        (X11Step::OpenDirect, X11Event::OpenedDirect(Ok(d))) => X11Step::ReadDirect(d),
        (X11Step::OpenDirect, X11Event::OpenedDirect(Err(_))) => X11Step::OpenLegacy,
        (X11Step::ReadDirect(d), X11Event::Read(Ok(_))) => X11Step::Done(
            Ok(Some(X11Choice::Direct(d))),
        ),
        (X11Step::ReadDirect(_), X11Event::Read(Err(_))) => X11Step::OpenLegacy,
        (X11Step::OpenLegacy, X11Event::OpenedLegacy(Ok(l))) => X11Step::ReadLegacy(l),
        (X11Step::OpenLegacy, X11Event::OpenedLegacy(Err(e))) => X11Step::Done(Err(e)),
        (X11Step::ReadLegacy(l), X11Event::Read(Ok(_))) => X11Step::Done(
            Ok(Some(X11Choice::Legacy(l))),
        ),
        (X11Step::ReadLegacy(_), X11Event::Read(Err(e))) => X11Step::Done(Err(e)),
        (other, _) => other,
    }
}

/// The step after an event.
pub fn next_x11_step<D, L>(step: X11Step<D, L>, event: X11Event<D, L>) -> (r: X11Step<D, L>)
    ensures
        r == x11_step_after(step, event),
{
    match (step, event) {
        // Try the richer atom backend first.
        (X11Step::OpenDirect, X11Event::OpenedDirect(Ok(d))) => X11Step::ReadDirect(d),
        (X11Step::OpenDirect, X11Event::OpenedDirect(Err(_))) => X11Step::OpenLegacy,
        (X11Step::ReadDirect(d), X11Event::Read(Ok(_))) => X11Step::Done(
            Ok(Some(X11Choice::Direct(d))),
        ),
        // Fall back to the text backend.
        (X11Step::ReadDirect(_), X11Event::Read(Err(_))) => X11Step::OpenLegacy,
        (X11Step::OpenLegacy, X11Event::OpenedLegacy(Ok(l))) => X11Step::ReadLegacy(l),
        (X11Step::OpenLegacy, X11Event::OpenedLegacy(Err(e))) => X11Step::Done(Err(e)),
        (X11Step::ReadLegacy(l), X11Event::Read(Ok(_))) => X11Step::Done(
            Ok(Some(X11Choice::Legacy(l))),
        ),
        (X11Step::ReadLegacy(_), X11Event::Read(Err(e))) => X11Step::Done(Err(e)),
        (other, _) => other,
    }
}

/// How many steps are left at most.
pub open spec fn x11_steps_left<D, L>(step: X11Step<D, L>) -> nat {
    match step {
        X11Step::OpenDirect => 4,
        X11Step::ReadDirect(_) => 3,
        X11Step::OpenLegacy => 2,
        X11Step::ReadLegacy(_) => 1,
        X11Step::Done(_) => 0,
    }
}

/// The step that a series of events leads to.
pub open spec fn x11_step_at<D, L>(events: Seq<X11Event<D, L>>) -> X11Step<D, L>
    decreases events.len(),
{
    if events.len() == 0 {
        X11Step::OpenDirect
    } else {
        x11_step_after(x11_step_at(events.drop_last()), events.last())
    }
}

/// Whether carrying out `step` can have given `event`.
pub open spec fn x11_performed<
    D: Clipboard,
    L: Clipboard,
    FD: Fn(String) -> MyResult<D>,
    FL: Fn(String) -> MyResult<L>,
>(
    name: Seq<char>,
    open_direct: FD,
    open_legacy: FL,
    step: X11Step<D, L>,
    event: X11Event<D, L>,
) -> bool {
    match step {
        X11Step::OpenDirect => event matches X11Event::OpenedDirect(r) && can_make(
            open_direct,
            name,
            r,
        ),
        X11Step::ReadDirect(d) => event matches X11Event::Read(r) && call_ensures(
            D::get_data,
            (&d,),
            r,
        ),
        X11Step::OpenLegacy => event matches X11Event::OpenedLegacy(r) && can_make(
            open_legacy,
            name,
            r,
        ),
        X11Step::ReadLegacy(l) => event matches X11Event::Read(r) && call_ensures(
            L::get_data,
            (&l,),
            r,
        ),
        X11Step::Done(_) => false,
    }
}

/// Whether carrying out one step after the other can have given these events,
/// so far.
pub open spec fn x11_run<
    D: Clipboard,
    L: Clipboard,
    FD: Fn(String) -> MyResult<D>,
    FL: Fn(String) -> MyResult<L>,
>(name: Seq<char>, open_direct: FD, open_legacy: FL, events: Seq<X11Event<D, L>>) -> bool {
    forall|k: int|
        0 <= k < events.len() ==> x11_performed(
            name,
            open_direct,
            open_legacy,
            #[trigger] x11_step_at(events.take(k)),
            events[k],
        )
}

/// Whether trying an X11 display can have given these events and ended with
/// `r`.
pub open spec fn x11_tried<
    D: Clipboard,
    L: Clipboard,
    FD: Fn(String) -> MyResult<D>,
    FL: Fn(String) -> MyResult<L>,
>(
    name: Seq<char>,
    open_direct: FD,
    open_legacy: FL,
    events: Seq<X11Event<D, L>>,
    r: MyResult<Option<X11Choice<D, L>>>,
) -> bool {
    x11_run(name, open_direct, open_legacy, events) && x11_step_at(events) == X11Step::Done(r)
}

/// Carries out a step for the display of the given number, and no other.
pub fn perform_x11_step<
    D: Clipboard,
    L: Clipboard,
    FD: Fn(String) -> MyResult<D>,
    FL: Fn(String) -> MyResult<L>,
>(n: u8, open_direct: &FD, open_legacy: &FL, step: &X11Step<D, L>) -> (r: Option<X11Event<D, L>>)
    requires
        forall|s: String| call_requires(*open_direct, (s,)),
        forall|s: String| call_requires(*open_legacy, (s,)),
    ensures
        r is None <==> *step is Done,
        r matches Some(event) ==> x11_performed(
            discovery::x11_name(n),
            *open_direct,
            *open_legacy,
            *step,
            event,
        ),
{
    match step {
        X11Step::OpenDirect => {
            let opened = open_direct(x11_display(n));
            assert(can_make(*open_direct, discovery::x11_name(n), opened));
            Some(X11Event::OpenedDirect(opened))
        },
        X11Step::ReadDirect(d) => Some(X11Event::Read(d.get_data())),
        X11Step::OpenLegacy => {
            let opened = open_legacy(x11_display(n));
            assert(can_make(*open_legacy, discovery::x11_name(n), opened));
            Some(X11Event::OpenedLegacy(opened))
        },
        X11Step::ReadLegacy(l) => Some(X11Event::Read(l.get_data())),
        X11Step::Done(_) => None,
    }
}

proof fn lemma_x11_push<
    D: Clipboard,
    L: Clipboard,
    FD: Fn(String) -> MyResult<D>,
    FL: Fn(String) -> MyResult<L>,
>(
    name: Seq<char>,
    open_direct: FD,
    open_legacy: FL,
    events: Seq<X11Event<D, L>>,
    event: X11Event<D, L>,
)
    requires
        x11_run(name, open_direct, open_legacy, events),
        x11_performed(name, open_direct, open_legacy, x11_step_at(events), event),
    ensures
        x11_run(name, open_direct, open_legacy, events.push(event)),
        x11_step_at(events.push(event)) == x11_step_after(x11_step_at(events), event),
{
    let more = events.push(event);
    assert(more.drop_last() =~= events);
    assert forall|k: int| 0 <= k < more.len() implies x11_performed(
        name,
        open_direct,
        open_legacy,
        #[trigger] x11_step_at(more.take(k)),
        more[k],
    ) by {
        if k < events.len() {
            assert(more.take(k) =~= events.take(k));
            assert(x11_step_at(more.take(k)) == x11_step_at(events.take(k)));
        } else {
            assert(more.take(k) =~= events);
        }
    }
}

/// Tries the X11 display of the given number. `open_direct` and `open_legacy`
/// open its two backends.
pub fn get_x11<
    D: Clipboard,
    L: Clipboard,
    FD: Fn(String) -> MyResult<D>,
    FL: Fn(String) -> MyResult<L>,
>(n: u8, open_direct: FD, open_legacy: FL) -> (r: MyResult<Option<X11Choice<D, L>>>)
    requires
        forall|s: String| call_requires(open_direct, (s,)),
        forall|s: String| call_requires(open_legacy, (s,)),
    ensures
        exists|events: Seq<X11Event<D, L>>| #[trigger]
            x11_tried(discovery::x11_name(n), open_direct, open_legacy, events, r),
{
    let ghost name = discovery::x11_name(n);
    let ghost mut events: Seq<X11Event<D, L>> = Seq::empty();
    let mut step: X11Step<D, L> = X11Step::OpenDirect;
    let mut event = perform_x11_step(n, &open_direct, &open_legacy, &step);
    while event.is_some()
        invariant
            name == discovery::x11_name(n),
            forall|s: String| call_requires(open_direct, (s,)),
            forall|s: String| call_requires(open_legacy, (s,)),
            step == x11_step_at(events),
            x11_run(name, open_direct, open_legacy, events),
            event is None <==> step is Done,
            event matches Some(e) ==> x11_performed(name, open_direct, open_legacy, step, e),
        decreases x11_steps_left(step),
    {
        if let Some(e) = event {
            proof {
                lemma_x11_push(name, open_direct, open_legacy, events, e);
                events = events.push(e);
            }
            step = next_x11_step(step, e);
            event = perform_x11_step(n, &open_direct, &open_legacy, &step);
        }
    }
    match step {
        X11Step::Done(r) => {
            assert(x11_tried(name, open_direct, open_legacy, events, r));
            r
        },
        _ => Ok(None),
    }
}

// ---------------------------------------------------------------------------
// Laws
// ---------------------------------------------------------------------------

proof fn lemma_wayland_next(events: Seq<WaylandEvent>, k: int)
    requires
        0 <= k < events.len(),
    ensures
        wayland_step_at(events.take(k + 1)) == wayland_step_after(
            wayland_step_at(events.take(k)),
            events[k],
        ),
{
    assert(events.take(k + 1).drop_last() =~= events.take(k));
}

/// Where a run can be after `k` events.
spec fn wayland_path(events: Seq<WaylandEvent>, k: int) -> bool {
    match wayland_step_at(events.take(k)) {
        WaylandStep::ReadNative => k == 0,
        WaylandStep::WriteNative(d) => k == 1 && events[0] == WaylandEvent::Read(Ok(d)) && d@.len()
            > 0,
        WaylandStep::ReadCommand => k == 1 && lacked_protocol(events),
        WaylandStep::WriteCommand(d) => k == 2 && lacked_protocol(events) && events[1]
            == WaylandEvent::Read(Ok(d)),
        WaylandStep::Done(WaylandAnswer::Command) => k == 3 && lacked_protocol(events),
        WaylandStep::Done(_) => 1 <= k <= 3,
    }
}

/// Whether the first thing that was learnt is that the compositor lacks the
/// data-control protocol.
pub open spec fn lacked_protocol(events: Seq<WaylandEvent>) -> bool {
    events.len() > 0 && (events[0] matches WaylandEvent::Read(Err(e)) && meaning_of(
        e,
    ) is NoDataControl)
}

proof fn lemma_wayland_path<W: Clipboard, K: Clipboard>(
    native: &W,
    command: &K,
    events: Seq<WaylandEvent>,
    k: int,
)
    requires
        wayland_run(native, command, events),
        0 <= k <= events.len(),
    ensures
        wayland_path(events, k),
    decreases k,
{
    if k > 0 {
        lemma_wayland_path(native, command, events, k - 1);
        lemma_wayland_next(events, k - 1);
        assert(wayland_performed(
            native,
            command,
            wayland_step_at(events.take(k - 1)),
            events[k - 1],
        ));
    }
}

/// A payload is written to a Wayland display only right after it was read from
/// there: through the data-control protocol only when there were entries in it,
/// through the commands only when the compositor lacks that protocol.
pub proof fn law_only_what_was_read_is_written_back<W: Clipboard, K: Clipboard>(
    native: &W,
    command: &K,
    events: Seq<WaylandEvent>,
    k: int,
)
    requires
        wayland_run(native, command, events),
        0 <= k < events.len(),
    ensures
        wayland_step_at(events.take(k)) matches WaylandStep::WriteNative(d) ==> k == 1 && events[0]
            == WaylandEvent::Read(Ok(d)) && d@.len() > 0,
        wayland_step_at(events.take(k)) matches WaylandStep::WriteCommand(d) ==> k == 2
            && events[1] == WaylandEvent::Read(Ok(d)) && lacked_protocol(events),
        events[k] is Written ==> k > 0 && (events[k - 1] matches WaylandEvent::Read(Ok(_))),
{
    lemma_wayland_path(native, command, events, k);
    assert(wayland_performed(native, command, wayland_step_at(events.take(k)), events[k]));
}

/// The command backend is tried, and chosen, only when the compositor said that
/// it lacks the data-control protocol.
pub proof fn law_commands_only_without_protocol<W: Clipboard, K: Clipboard>(
    native: W,
    command: K,
    events: Seq<WaylandEvent>,
    k: int,
    r: MyResult<Option<WaylandChoice<W, K>>>,
)
    requires
        wayland_tried(native, command, events, r),
        0 <= k <= events.len(),
    ensures
        wayland_step_at(events.take(k)) is ReadCommand ==> lacked_protocol(events),
        r matches Ok(Some(WaylandChoice::Command(_))) ==> lacked_protocol(events),
{
    lemma_wayland_path(&native, &command, events, k);
    lemma_wayland_path(&native, &command, events, events.len() as int);
    assert(events.take(events.len() as int) =~= events);
}

proof fn lemma_x11_next<D, L>(events: Seq<X11Event<D, L>>, k: int)
    requires
        0 <= k < events.len(),
    ensures
        x11_step_at(events.take(k + 1)) == x11_step_after(x11_step_at(events.take(k)), events[k]),
{
    assert(events.take(k + 1).drop_last() =~= events.take(k));
}

/// Whether the atom backend did not open, or opened and could not be read.
pub open spec fn direct_failed<D, L>(events: Seq<X11Event<D, L>>) -> bool {
    ||| events.len() > 0 && events[0] matches X11Event::OpenedDirect(Err(_))
    ||| events.len() > 1 && (events[0] matches X11Event::OpenedDirect(Ok(_))) && (
    events[1] matches X11Event::Read(Err(_)))
}

/// Where a run can be after `k` events.
spec fn x11_path<D, L>(events: Seq<X11Event<D, L>>, k: int) -> bool {
    match x11_step_at(events.take(k)) {
        X11Step::OpenDirect => k == 0,
        X11Step::ReadDirect(d) => k == 1 && events[0] == X11Event::<D, L>::OpenedDirect(Ok(d)),
        X11Step::OpenLegacy | X11Step::ReadLegacy(_) => k > 0 && direct_failed(events),
        X11Step::Done(Ok(Some(X11Choice::Direct(d)))) => k == 2 && events[0] == X11Event::<
            D,
            L,
        >::OpenedDirect(Ok(d)) && (events[1] matches X11Event::Read(Ok(_))),
        X11Step::Done(r) => k > 0 && direct_failed(events) && (r matches Ok(c) ==> c is Some),
    }
}

proof fn lemma_x11_path<
    D: Clipboard,
    L: Clipboard,
    FD: Fn(String) -> MyResult<D>,
    FL: Fn(String) -> MyResult<L>,
>(
    name: Seq<char>,
    open_direct: FD,
    open_legacy: FL,
    events: Seq<X11Event<D, L>>,
    k: int,
)
    requires
        x11_run(name, open_direct, open_legacy, events),
        0 <= k <= events.len(),
    ensures
        x11_path(events, k),
    decreases k,
{
    if k > 0 {
        lemma_x11_path(name, open_direct, open_legacy, events, k - 1);
        lemma_x11_next(events, k - 1);
        assert(x11_performed(
            name,
            open_direct,
            open_legacy,
            x11_step_at(events.take(k - 1)),
            events[k - 1],
        ));
    }
}

/// The text backend is opened only after the atom backend failed to open or to
/// be read.
pub proof fn law_text_backend_only_after_a_failure<
    D: Clipboard,
    L: Clipboard,
    FD: Fn(String) -> MyResult<D>,
    FL: Fn(String) -> MyResult<L>,
>(
    name: Seq<char>,
    open_direct: FD,
    open_legacy: FL,
    events: Seq<X11Event<D, L>>,
    k: int,
)
    requires
        x11_run(name, open_direct, open_legacy, events),
        0 <= k < events.len(),
    ensures
        events[k] is OpenedLegacy ==> direct_failed(events.take(k)),
{
    lemma_x11_path(name, open_direct, open_legacy, events, k);
    assert(x11_performed(
        name,
        open_direct,
        open_legacy,
        x11_step_at(events.take(k)),
        events[k],
    ));
}

/// Trying an X11 display never finds nothing: it gives a backend or fails. The
/// atom backend is chosen when it opened and could be read.
pub proof fn law_x11_found_or_failed<
    D: Clipboard,
    L: Clipboard,
    FD: Fn(String) -> MyResult<D>,
    FL: Fn(String) -> MyResult<L>,
>(
    name: Seq<char>,
    open_direct: FD,
    open_legacy: FL,
    events: Seq<X11Event<D, L>>,
    r: MyResult<Option<X11Choice<D, L>>>,
)
    requires
        x11_tried(name, open_direct, open_legacy, events, r),
    ensures
        r matches Ok(choice) ==> choice is Some,
        (r matches Ok(Some(X11Choice::Direct(_)))) <==> !direct_failed(events),
{
    lemma_x11_path(name, open_direct, open_legacy, events, events.len() as int);
    assert(events.take(events.len() as int) =~= events);
}

proof fn lemma_wayland_goes_on<W: Clipboard, K: Clipboard>(
    native: &W,
    command: &K,
    events: Seq<WaylandEvent>,
    k: int,
)
    requires
        wayland_run(native, command, events),
        wayland_step_at(events) is Done,
        0 <= k <= events.len(),
    ensures
        wayland_step_at(events.take(k)) is Done <==> events.len() == k,
        k < events.len() ==> wayland_performed(
            native,
            command,
            wayland_step_at(events.take(k)),
            events[k],
        ) && wayland_step_at(events.take(k + 1)) == wayland_step_after(
            wayland_step_at(events.take(k)),
            events[k],
        ),
        k == events.len() ==> wayland_step_at(events.take(k)) == wayland_step_at(events),
{
    if k < events.len() {
        lemma_wayland_next(events, k);
        assert(wayland_performed(
            native,
            command,
            wayland_step_at(events.take(k)),
            events[k],
        ));
    } else {
        assert(events.take(k) =~= events);
    }
}

/// How trying a Wayland display goes. It is read through the data-control
/// protocol first. When that gives entries they are written back, all of them,
/// and the protocol is used if that works; an empty clipboard is used as it is.
/// A lost connection means that there is no clipboard. Only when the compositor
/// lacks version one of the protocol are the commands read, and what they gave
/// written back, and used if both work. Any other failure is that of the whole.
pub proof fn law_how_a_wayland_display_is_tried<W: Clipboard, K: Clipboard>(
    native: W,
    command: K,
    events: Seq<WaylandEvent>,
    r: MyResult<Option<WaylandChoice<W, K>>>,
)
    requires
        wayland_tried(native, command, events, r),
    ensures
        events.len() > 0,
        events[0] matches WaylandEvent::Read(read) && call_ensures(W::get_data, (&native,), read)
            && match read {
            Ok(d) => if d@.len() == 0 {
                events.len() == 1 && r == MyResult::Ok(
                    Some(WaylandChoice::<W, K>::Native(native)),
                )
            } else {
                events.len() == 2 && (events[1] matches WaylandEvent::Written(w) && call_ensures(
                    W::set_data,
                    (&native, &d),
                    w,
                ) && r == MyResult::Ok(
                    if w is Ok {
                        Some(WaylandChoice::<W, K>::Native(native))
                    } else {
                        None
                    },
                ))
            },
            Err(MyError::WlcrsPaste(PasteError::WaylandConnection(_))) => events.len() == 1 && r
                == MyResult::Ok(None::<WaylandChoice<W, K>>),
            Err(e) => if e matches MyError::WlcrsPaste(
                PasteError::MissingProtocol { name, version },
            ) && name@ == "zwlr_data_control_manager_v1"@ && version == 1 {
                events.len() >= 2 && (events[1] matches WaylandEvent::Read(again) && call_ensures(
                    K::get_data,
                    (&command,),
                    again,
                ) && match again {
                    Ok(d) => events.len() == 3 && (events[2] matches WaylandEvent::Written(w)
                        && call_ensures(K::set_data, (&command, &d), w) && r == MyResult::Ok(
                        if w is Ok {
                            Some(WaylandChoice::<W, K>::Command(command))
                        } else {
                            None
                        },
                    )),
                    Err(_) => events.len() == 2 && r == MyResult::Ok(
                        None::<WaylandChoice<W, K>>,
                    ),
                })
            } else {
                events.len() == 1 && r == MyResult::<Option<WaylandChoice<W, K>>>::Err(e)
            },
        },
{
    assert(events.take(0) =~= Seq::<WaylandEvent>::empty());
    lemma_wayland_goes_on(&native, &command, events, 0);
    lemma_wayland_goes_on(&native, &command, events, 1);
    if events.len() > 1 {
        lemma_wayland_goes_on(&native, &command, events, 2);
        if events.len() > 2 {
            lemma_wayland_goes_on(&native, &command, events, 3);
        }
    }
}

proof fn lemma_x11_goes_on<
    D: Clipboard,
    L: Clipboard,
    FD: Fn(String) -> MyResult<D>,
    FL: Fn(String) -> MyResult<L>,
>(
    name: Seq<char>,
    open_direct: FD,
    open_legacy: FL,
    events: Seq<X11Event<D, L>>,
    k: int,
)
    requires
        x11_run(name, open_direct, open_legacy, events),
        x11_step_at(events) is Done,
        0 <= k <= events.len(),
    ensures
        x11_step_at(events.take(k)) is Done <==> events.len() == k,
        k < events.len() ==> x11_performed(
            name,
            open_direct,
            open_legacy,
            x11_step_at(events.take(k)),
            events[k],
        ) && x11_step_at(events.take(k + 1)) == x11_step_after(
            x11_step_at(events.take(k)),
            events[k],
        ),
        k == events.len() ==> x11_step_at(events.take(k)) == x11_step_at(events),
{
    if k < events.len() {
        lemma_x11_next(events, k);
        assert(x11_performed(
            name,
            open_direct,
            open_legacy,
            x11_step_at(events.take(k)),
            events[k],
        ));
    } else {
        assert(events.take(k) =~= events);
    }
}

/// Whether opening a backend for the display of this name and reading it can
/// have worked.
pub open spec fn opens_and_reads<C: Clipboard, F: Fn(String) -> MyResult<C>>(
    open: F,
    name: Seq<char>,
    c: C,
) -> bool {
    &&& exists|s: String|
        s@ == name && #[trigger] call_ensures(open, (s,), MyResult::<C>::Ok(c))
    &&& exists|d: ClipboardData| #[trigger]
        call_ensures(C::get_data, (&c,), MyResult::<ClipboardData>::Ok(d))
}

/// What trying an X11 display gives: the atom backend when it opens and can be
/// read; the text backend when only that opens and can be read; otherwise the
/// failure of opening or reading the text backend.
pub proof fn law_what_an_x11_display_gives<
    D: Clipboard,
    L: Clipboard,
    FD: Fn(String) -> MyResult<D>,
    FL: Fn(String) -> MyResult<L>,
>(
    name: Seq<char>,
    open_direct: FD,
    open_legacy: FL,
    events: Seq<X11Event<D, L>>,
    r: MyResult<Option<X11Choice<D, L>>>,
)
    requires
        x11_tried(name, open_direct, open_legacy, events, r),
    ensures
        match r {
            Ok(Some(X11Choice::Direct(d))) => events.len() == 2 && opens_and_reads(
                open_direct,
                name,
                d,
            ),
            Ok(Some(X11Choice::Legacy(l))) => direct_failed(events) && opens_and_reads(
                open_legacy,
                name,
                l,
            ),
            Ok(None) => false,
            Err(e) => direct_failed(events) && ((exists|s: String|
                s@ == name && #[trigger] call_ensures(open_legacy, (s,), MyResult::<L>::Err(e)))
                || (exists|l: L| #[trigger]
                call_ensures(L::get_data, (&l,), MyResult::<ClipboardData>::Err(e)))),
        },
        events[0] matches X11Event::OpenedDirect(_),
{
    assert(events.take(0) =~= Seq::<X11Event<D, L>>::empty());
    lemma_x11_goes_on(name, open_direct, open_legacy, events, 0);
    lemma_x11_goes_on(name, open_direct, open_legacy, events, 1);
    if events.len() > 1 {
        lemma_x11_goes_on(name, open_direct, open_legacy, events, 2);
        if events.len() > 2 {
            lemma_x11_goes_on(name, open_direct, open_legacy, events, 3);
            if events.len() > 3 {
                lemma_x11_goes_on(name, open_direct, open_legacy, events, 4);
            }
        }
    }
    let before_last = x11_step_at(events.take(events.len() - 1));
    lemma_x11_goes_on(name, open_direct, open_legacy, events, events.len() - 1);
    assert(events.take(events.len() as int) =~= events);
    if let X11Event::Read(Ok(data)) = events.last() {
        if let X11Step::ReadDirect(d) = before_last {
            assert(call_ensures(D::get_data, (&d,), MyResult::<ClipboardData>::Ok(data)));
        }
        if let X11Step::ReadLegacy(l) = before_last {
            assert(call_ensures(L::get_data, (&l,), MyResult::<ClipboardData>::Ok(data)));
        }
    }
    if let X11Event::Read(Err(e)) = events.last() {
        if let X11Step::ReadLegacy(l) = before_last {
            assert(call_ensures(L::get_data, (&l,), MyResult::<ClipboardData>::Err(e)));
        }
    }
}

/// A backend is made from the name of its display.
pub proof fn law_made_for_its_display<T, F: Fn(String) -> T>(make: F, name: Seq<char>, made: T)
    requires
        can_make(make, name, made),
    ensures
        exists|s: String| s@ == name && #[trigger] call_ensures(make, (s,), made),
{
}

/// What a failure to read through the data-control protocol means, by the
/// failure alone.
pub proof fn law_what_a_read_failure_means(e: MyError)
    ensures
        meaning_of(e) is Absent <==> (e matches MyError::WlcrsPaste(
            PasteError::WaylandConnection(_),
        )),
        meaning_of(e) is NoDataControl <==> (e matches MyError::WlcrsPaste(
            PasteError::MissingProtocol { name, version },
        ) && name@ == "zwlr_data_control_manager_v1"@ && version == 1),
        meaning_of(e) matches ReadFailure::Unexpected(f) ==> f == e,
{
}

} // verus!
