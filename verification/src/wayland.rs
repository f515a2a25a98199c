//! The Wayland backends.
use vstd::prelude::*;
use vstd::slice::*;
use vstd::string::*;
use vstd::utf8::*;

use crate::data;
use crate::data::{ClipboardData, MimeEntry};
use crate::decode;
use crate::decode::from_utf8_lossy;
use crate::error::{MyError, MyResult, PasteError};
use crate::fetch;
use crate::fetch::add_reply;
use crate::mime;
use crate::mime::{
    is_wayland_internal_mime, is_x11_text_target, sort_by_mime_priority, to_strings,
    MAX_MIME_TYPES, WAYLAND_PROBE_MIME_TYPES,
};
use crate::selection;
use crate::text;
use crate::text::{first_nonblank_lines, str_eq};

verus! {

// ---------------------------------------------------------------------------
// Which types to ask for
// ---------------------------------------------------------------------------

/// What a command that ended left behind.
pub struct CommandOutput {
    pub success: bool,
    pub stdout: Vec<u8>,
}

/// What a command printed, if it could be run and succeeded.
pub open spec fn printed(output: Option<CommandOutput>) -> Option<Seq<u8>> {
    match output {
        Some(o) => if o.success {
            Some(o.stdout@)
        } else {
            None
        },
        None => None,
    }
}

/// The MIME types that a listing names, one per line.
pub open spec fn listed_types(listing: Seq<char>) -> Seq<Seq<char>> {
    text::at_most(text::nonblank_lines(listing), MAX_MIME_TYPES as nat)
}

/// The MIME types that a listing command printed; none when it failed.
pub open spec fn discovered_types(output: Option<CommandOutput>) -> Seq<Seq<char>> {
    match printed(output) {
        Some(bytes) => listed_types(decode::utf8_lossy(bytes)),
        None => Seq::empty(),
    }
}

/// The MIME types that `wl-paste --list-types` printed. Returns an empty list
/// if the command could not be run or failed.
pub fn discover_wayland_mime_types(output: &Option<CommandOutput>) -> (types: Vec<String>)
    ensures
        text::views(types@) == discovered_types(*output),
        printed(*output) matches Some(bytes) ==> (valid_utf8(bytes) ==> text::views(types@)
            == listed_types(decode_utf8(bytes))),
{
    if let Some(o) = output {
        if o.success {
            let listing = from_utf8_lossy(o.stdout.as_slice());
            return first_nonblank_lines(listing.as_str(), MAX_MIME_TYPES);
        }
    }
    let none: Vec<String> = Vec::new();
    assert(text::views(none@) =~= Seq::empty());
    none
}

/// The discovered types without the internal ones, in priority order; the
/// probe list when nothing is left.
pub open spec fn wayland_request_list(discovered: Seq<Seq<char>>) -> Seq<Seq<char>> {
    let wanted = discovered.filter(|m: Seq<char>| !mime::is_wayland_internal(m));
    if wanted.len() == 0 {
        mime::str_views(WAYLAND_PROBE_MIME_TYPES@)
    } else {
        mime::by_priority(wanted, mime::str_views(WAYLAND_PROBE_MIME_TYPES@))
    }
}

/// The MIME types to ask a Wayland clipboard for, in order.
pub fn wayland_mime_types(discovered: Vec<String>) -> (types: Vec<String>)
    ensures
        text::views(types@) == wayland_request_list(text::views(discovered@)),
{
    let ghost names = text::views(discovered@);
    let ghost p = |m: Seq<char>| !mime::is_wayland_internal(m);
    let mut wanted: Vec<String> = Vec::new();
    assert(names.take(0).filter(p) =~= text::views(wanted@)) by {
        reveal(Seq::filter);
    }
    let mut i: usize = 0;
    while i < discovered.len()
        invariant
            i <= discovered.len(),
            names == text::views(discovered@),
            p == (|m: Seq<char>| !mime::is_wayland_internal(m)),
            text::views(wanted@) == names.take(i as int).filter(p),
        decreases discovered.len() - i,
    {
        let ghost previous = text::views(wanted@);
        proof {
            mime::lemma_filter_push(names.take(i as int), discovered@[i as int]@, p);
            assert(names.take(i + 1) =~= names.take(i as int).push(discovered@[i as int]@));
        }
        if !is_wayland_internal_mime(discovered[i].as_str()) {
            wanted.push(discovered[i].clone());
            assert(text::views(wanted@) =~= previous.push(discovered@[i as int]@));
        }
        i += 1;
    }
    assert(names.take(names.len() as int) =~= names);
    if wanted.is_empty() {
        to_strings(WAYLAND_PROBE_MIME_TYPES.as_slice())
    } else {
        sort_by_mime_priority(&mut wanted, WAYLAND_PROBE_MIME_TYPES.as_slice());
        wanted
    }
}

// ---------------------------------------------------------------------------
// The data-control backend
// ---------------------------------------------------------------------------

/// The wl-clipboard-rs backend (zwlr_data_control_manager_v1).
#[derive(Debug)]
pub struct WlrClipboard {
    pub display: String,
}

/// What came of asking for one MIME type.
pub enum PasteOutcome {
    /// Everything that the other side sent.
    Received(Vec<u8>),
    /// The transfer broke off.
    Interrupted(MyError),
    /// There was no transfer.
    Refused(PasteError),
}

/// What one paste contributes: bytes, nothing, or a failure of the whole read.
/// Only a lost connection and a broken transfer are failures.
pub open spec fn paste_reply(outcome: PasteOutcome) -> Result<Option<Seq<u8>>, MyError> {
    match outcome {
        PasteOutcome::Received(bytes) => Ok(Some(bytes@)),
        PasteOutcome::Interrupted(e) => Err(e),
        PasteOutcome::Refused(PasteError::WaylandConnection(msg)) => Err(
            MyError::WlcrsPaste(PasteError::WaylandConnection(msg)),
        ),
        PasteOutcome::Refused(_) => Ok(None),
    }
}

/// What one paste contributes.
fn take_paste(outcome: PasteOutcome) -> (r: MyResult<Option<Vec<u8>>>)
    ensures
        match r {
            Ok(reply) => paste_reply(outcome) == Ok::<Option<Seq<u8>>, MyError>(
                fetch::reply_view(reply),
            ),
            Err(e) => paste_reply(outcome) == Err::<Option<Seq<u8>>, MyError>(e),
        },
{
    match outcome {
        PasteOutcome::Received(bytes) => Ok(Some(bytes)),
        PasteOutcome::Interrupted(e) => Err(e),
        // Compositor is gone entirely: propagate immediately so the caller can
        // drop this display from the list.
        PasteOutcome::Refused(PasteError::WaylandConnection(msg)) => Err(
            MyError::WlcrsPaste(PasteError::WaylandConnection(msg)),
        ),
        PasteOutcome::Refused(_) => Ok(None),
    }
}

/// Whether asking for `name` can have had this outcome.
pub open spec fn can_paste<P: Fn(&str) -> PasteOutcome>(
    paste: P,
    name: Seq<char>,
    outcome: PasteOutcome,
) -> bool {
    exists|s: &str| s@ == name && #[trigger] call_ensures(paste, (s,), outcome)
}

/// The replies that successful pastes gave.
pub open spec fn paste_replies(outcomes: Seq<PasteOutcome>) -> Seq<Option<Seq<u8>>> {
    outcomes.map_values(|o: PasteOutcome| paste_reply(o)->Ok_0)
}

/// Whether asking for `requests` in turn can have had these outcomes and this
/// result: the first failure ends the read, otherwise the replies are
/// collected.
pub open spec fn wlr_read<P: Fn(&str) -> PasteOutcome>(
    paste: P,
    requests: Seq<Seq<char>>,
    outcomes: Seq<PasteOutcome>,
    result: MyResult<ClipboardData>,
) -> bool {
    &&& outcomes.len() <= requests.len()
    &&& forall|k: int|
        0 <= k < outcomes.len() ==> can_paste(paste, requests[k], #[trigger] outcomes[k])
    &&& forall|k: int| 0 <= k < outcomes.len() - 1 ==> paste_reply(#[trigger] outcomes[k]) is Ok
    &&& match result {
        Ok(payload) => {
            &&& outcomes.len() == requests.len()
            &&& outcomes.len() > 0 ==> paste_reply(outcomes.last()) is Ok
            &&& payload@ == fetch::collected(requests, paste_replies(outcomes))
        },
        Err(e) => outcomes.len() > 0 && paste_reply(outcomes.last()) == Err::<
            Option<Seq<u8>>,
            MyError,
        >(e),
    }
}

impl WlrClipboard {
    /// Reads all types that the compositor offers. `listing` is what
    /// `wl-paste --list-types` left behind for this display, `paste` asks for
    /// one type.
    pub fn get_data<P: Fn(&str) -> PasteOutcome>(
        &self,
        listing: &Option<CommandOutput>,
        paste: P,
    ) -> (r: MyResult<ClipboardData>)
        requires
            forall|s: &str| call_requires(paste, (s,)),
        ensures
            exists|outcomes: Seq<PasteOutcome>| #[trigger]
                wlr_read(
                    paste,
                    wayland_request_list(discovered_types(*listing)),
                    outcomes,
                    r,
                ),
    {
        // Fall back to the static list when the listing is unavailable.
        let types = wayland_mime_types(discover_wayland_mime_types(listing));
        let ghost requests = text::views(types@);
        let ghost mut outcomes: Seq<PasteOutcome> = Seq::empty();
        let mut payload = ClipboardData::empty();
        assert(paste_replies(outcomes) =~= Seq::<Option<Seq<u8>>>::empty());
        let mut i: usize = 0;
        while i < types.len()
            invariant
                i <= types.len(),
                outcomes.len() == i,
                requests == text::views(types@),
                requests == wayland_request_list(discovered_types(*listing)),
                forall|s: &str| call_requires(paste, (s,)),
                forall|k: int|
                    0 <= k < outcomes.len() ==> can_paste(
                        paste,
                        requests[k],
                        #[trigger] outcomes[k],
                    ),
                forall|k: int|
                    0 <= k < outcomes.len() ==> paste_reply(#[trigger] outcomes[k]) is Ok,
                payload@ == fetch::collected(requests, paste_replies(outcomes)),
            decreases types.len() - i,
        {
            let name = types[i].as_str();
            let outcome = paste(name);
            let ghost before = paste_replies(outcomes);
            proof {
                assert(can_paste(paste, requests[i as int], outcome));
                outcomes = outcomes.push(outcome);
            }
            match take_paste(outcome) {
                Ok(reply) => {
                    assert(paste_replies(outcomes) =~= before.push(fetch::reply_view(reply)));
                    add_reply(&mut payload, name, reply, Ghost(requests), Ghost(before));
                },
                Err(e) => {
                    let result: MyResult<ClipboardData> = Err(e);
                    assert(wlr_read(paste, requests, outcomes, result));
                    return result;
                },
            }
            i += 1;
        }
        let result: MyResult<ClipboardData> = Ok(payload);
        assert(wlr_read(paste, requests, outcomes, result));
        result
    }

    /// What to hand to the compositor to offer the payload.
    pub fn copy_plan(&self, payload: &ClipboardData) -> (plan: CopyPlan)
        ensures
            plan@ == copy_plan_of(payload@),
    {
        if payload.is_empty() {
            return CopyPlan::Nothing;
        }
        // Keep only Wayland-native MIME types (skip X11-specific atoms).
        let ghost p = |e: data::EntryView| !mime::is_x11_text_atom(e.mime_type);
        let mut sources: Vec<CopySource> = Vec::new();
        assert(payload@.take(0).filter(p) =~= Seq::empty()) by {
            reveal(Seq::filter);
        }
        assert(source_views(sources@) =~= sources_for(payload@.take(0).filter(p)));
        let mut i: usize = 0;
        while i < payload.entries.len()
            invariant
                i <= payload.entries.len(),
                p == (|e: data::EntryView| !mime::is_x11_text_atom(e.mime_type)),
                source_views(sources@) == sources_for(payload@.take(i as int).filter(p)),
            decreases payload.entries.len() - i,
        {
            let entry = &payload.entries[i];
            let ghost before = payload@.take(i as int);
            let ghost views = source_views(sources@);
            proof {
                mime::lemma_filter_push(before, entry@, p);
                assert(payload@.take(i + 1) =~= before.push(entry@));
            }
            if !is_x11_text_target(entry.mime_type.as_str()) {
                let source = copy_source(entry);
                let ghost added = source@;
                sources.push(source);
                assert(source_views(sources@) =~= views.push(added));
                assert(sources_for(before.filter(p).push(entry@)) =~= views.push(added));
            }
            i += 1;
        }
        assert(payload@.take(payload@.len() as int) =~= payload@);
        if sources.is_empty() {
            assert(sources_for(payload@.filter(p)).len() == 0);
            // All entries were X11-only atoms; fall back to plain text.
            return match payload.text() {
                Some(t) => CopyPlan::Text(slice_to_vec(t.as_str().as_bytes())),
                None => CopyPlan::Nothing,
            };
        }
        assert(sources_for(payload@.filter(p)).len() > 0);
        CopyPlan::Sources(sources)
    }

    /// Offers the payload as `copy_plan` says: `copy_text` offers bytes as
    /// plain text, `copy_multi` several sources together. An empty payload is
    /// not offered.
    pub fn set_data<T: Fn(Vec<u8>) -> MyResult<()>, M: Fn(Vec<CopySource>) -> MyResult<()>>(
        &self,
        payload: &ClipboardData,
        copy_text: T,
        copy_multi: M,
    ) -> (r: MyResult<()>)
        requires
            forall|bytes: Vec<u8>| call_requires(copy_text, (bytes,)),
            forall|sources: Vec<CopySource>| call_requires(copy_multi, (sources,)),
        ensures
            match copy_plan_of(payload@) {
                CopyPlanView::Nothing => r is Ok,
                CopyPlanView::Text(text) => exists|bytes: Vec<u8>|
                    bytes@ == text && #[trigger] call_ensures(copy_text, (bytes,), r),
                CopyPlanView::Sources(all) => exists|sources: Vec<CopySource>|
                    source_views(sources@) == all && #[trigger] call_ensures(
                        copy_multi,
                        (sources,),
                        r,
                    ),
            },
    {
        match self.copy_plan(payload) {
            CopyPlan::Nothing => Ok(()),
            CopyPlan::Text(bytes) => copy_text(bytes),
            CopyPlan::Sources(sources) => copy_multi(sources),
        }
    }

    pub fn display(&self) -> (r: String)
        ensures
            r@ == self.display@,
    {
        self.display.clone()
    }

    pub fn rank(&self) -> (r: u8)
        ensures
            r == 10,
    {
        10
    }
}

/// The type under which a source is offered.
pub enum CopyMimeType {
    /// All the common plain-text types.
    Text,
    /// This one type.
    Specific(String),
}

/// One thing to offer.
pub struct CopySource {
    pub mime_type: CopyMimeType,
    pub data: Vec<u8>,
}

/// What to hand to the compositor.
pub enum CopyPlan {
    /// Leave the clipboard as it is.
    Nothing,
    /// Offer these bytes as plain text.
    Text(Vec<u8>),
    /// Offer these sources together.
    Sources(Vec<CopySource>),
}

/// What a type to offer under is; `None` stands for the plain-text types.
pub open spec fn copy_type_view(t: CopyMimeType) -> Option<Seq<char>> {
    match t {
        CopyMimeType::Text => None,
        CopyMimeType::Specific(name) => Some(name@),
    }
}

/// What a source holds; no type stands for the plain-text types.
#[verifier::ext_equal]
pub struct SourceView {
    pub mime_type: Option<Seq<char>>,
    pub data: Seq<u8>,
}

impl View for CopySource {
    type V = SourceView;

    open spec fn view(&self) -> SourceView {
        SourceView { mime_type: copy_type_view(self.mime_type), data: self.data@ }
    }
}

pub open spec fn source_views(sources: Seq<CopySource>) -> Seq<SourceView> {
    sources.map_values(|s: CopySource| s@)
}

/// What a plan amounts to.
pub enum CopyPlanView {
    Nothing,
    Text(Seq<u8>),
    Sources(Seq<SourceView>),
}

impl View for CopyPlan {
    type V = CopyPlanView;

    open spec fn view(&self) -> CopyPlanView {
        match *self {
            CopyPlan::Nothing => CopyPlanView::Nothing,
            CopyPlan::Text(bytes) => CopyPlanView::Text(bytes@),
            CopyPlan::Sources(sources) => CopyPlanView::Sources(source_views(sources@)),
        }
    }
}

/// Whether the type is one of the two names of plain text.
pub open spec fn is_plain_text(mime_type: Seq<char>) -> bool {
    mime_type == "text/plain"@ || mime_type == "text/plain;charset=utf-8"@
}

/// Returns `true` for the two names of plain text.
pub fn is_plain_text_mime(mime: &str) -> (r: bool)
    ensures
        r == is_plain_text(mime@),
{
    str_eq(mime, "text/plain") || str_eq(mime, "text/plain;charset=utf-8")
}

/// How an entry is offered.
pub open spec fn source_for(e: data::EntryView) -> SourceView {
    SourceView {
        mime_type: if is_plain_text(e.mime_type) {
            None
        } else {
            Some(e.mime_type)
        },
        data: e.data,
    }
}

/// How entries are offered.
pub open spec fn sources_for(entries: Seq<data::EntryView>) -> Seq<SourceView> {
    entries.map_values(|e: data::EntryView| source_for(e))
}

/// How a payload is offered: its entries without those of X11-only types, or
/// its text when no other entries are there.
pub open spec fn copy_plan_of(entries: Seq<data::EntryView>) -> CopyPlanView {
    let native = entries.filter(|e: data::EntryView| !mime::is_x11_text_atom(e.mime_type));
    if entries.len() == 0 {
        CopyPlanView::Nothing
    } else if native.len() > 0 {
        CopyPlanView::Sources(sources_for(native))
    } else {
        match data::text_of(entries) {
            Some(t) => CopyPlanView::Text(encode_utf8(t)),
            None => CopyPlanView::Nothing,
        }
    }
}

fn copy_source(entry: &MimeEntry) -> (r: CopySource)
    ensures
        r@ == source_for(entry@),
{
    let e = entry.clone();
    let mime_type = if is_plain_text_mime(e.mime_type.as_str()) {
        CopyMimeType::Text
    } else {
        CopyMimeType::Specific(e.mime_type)
    };
    CopySource { mime_type, data: e.data }
}

// ---------------------------------------------------------------------------
// The command backend
// ---------------------------------------------------------------------------

/// Fallback using the wl-copy / wl-paste binaries.
#[derive(Debug)]
pub struct WlCommandClipboard {
    pub display: String,
}

/// Whether asking `wl-paste` for `name` can have left this behind.
pub open spec fn can_run<P: Fn(&str) -> Option<CommandOutput>>(
    paste: P,
    name: Seq<char>,
    output: Option<CommandOutput>,
) -> bool {
    exists|s: &str| s@ == name && #[trigger] call_ensures(paste, (s,), output)
}

/// What successful runs printed.
pub open spec fn all_printed(outputs: Seq<Option<CommandOutput>>) -> Seq<Option<Seq<u8>>> {
    outputs.map_values(|o: Option<CommandOutput>| printed(o))
}

/// Whether asking for `requests` in turn can have left these outputs behind
/// and given this payload.
pub open spec fn command_read<P: Fn(&str) -> Option<CommandOutput>>(
    paste: P,
    requests: Seq<Seq<char>>,
    outputs: Seq<Option<CommandOutput>>,
    payload: Seq<data::EntryView>,
) -> bool {
    &&& outputs.len() == requests.len()
    &&& forall|k: int|
        0 <= k < outputs.len() ==> can_run(paste, requests[k], #[trigger] outputs[k])
    &&& payload == fetch::collected(requests, all_printed(outputs))
}

/// What a run printed, if it succeeded.
fn take_printed(output: Option<CommandOutput>) -> (r: Option<Vec<u8>>)
    ensures
        fetch::reply_view(r) == printed(output),
{
    match output {
        Some(o) => if o.success {
            Some(o.stdout)
        } else {
            None
        },
        None => None,
    }
}

impl WlCommandClipboard {
    /// Reads all types that the clipboard offers. `listing` is what
    /// `wl-paste --list-types` left behind for this display, `paste` runs
    /// `wl-paste` for one type. A run that fails contributes nothing.
    pub fn get_data<P: Fn(&str) -> Option<CommandOutput>>(
        &self,
        listing: &Option<CommandOutput>,
        paste: P,
    ) -> (r: MyResult<ClipboardData>)
        requires
            forall|s: &str| call_requires(paste, (s,)),
        ensures
            r is Ok,
            exists|outputs: Seq<Option<CommandOutput>>| #[trigger]
                command_read(
                    paste,
                    wayland_request_list(discovered_types(*listing)),
                    outputs,
                    r->Ok_0@,
                ),
    {
        // Discover available MIME types; fall back to static list.
        let types = wayland_mime_types(discover_wayland_mime_types(listing));
        let ghost requests = text::views(types@);
        let ghost mut outputs: Seq<Option<CommandOutput>> = Seq::empty();
        let mut payload = ClipboardData::empty();
        assert(all_printed(outputs) =~= Seq::<Option<Seq<u8>>>::empty());
        let mut i: usize = 0;
        while i < types.len()
            invariant
                i <= types.len(),
                outputs.len() == i,
                requests == text::views(types@),
                requests == wayland_request_list(discovered_types(*listing)),
                forall|s: &str| call_requires(paste, (s,)),
                forall|k: int|
                    0 <= k < outputs.len() ==> can_run(paste, requests[k], #[trigger] outputs[k]),
                payload@ == fetch::collected(requests, all_printed(outputs)),
            decreases types.len() - i,
        {
            let name = types[i].as_str();
            let output = paste(name);
            let ghost before = all_printed(outputs);
            proof {
                assert(can_run(paste, requests[i as int], output));
                outputs = outputs.push(output);
                assert(all_printed(outputs) =~= before.push(printed(output)));
            }
            add_reply(&mut payload, name, take_printed(output), Ghost(requests), Ghost(before));
            i += 1;
        }
        let result: MyResult<ClipboardData> = Ok(payload);
        assert(command_read(paste, requests, outputs, result->Ok_0@));
        result
    }

    /// The entry to hand to `wl-copy`, which accepts only one MIME type at a
    /// time: the first Wayland-native one (X11-specific atoms are skipped), or
    /// else the first; nothing when the payload is empty.
    pub fn copy_entry<'a>(&self, payload: &'a ClipboardData) -> (r: Option<&'a MimeEntry>)
        ensures
            r is Some <==> data::native_or_first(payload@) is Some,
            r matches Some(e) ==> data::native_or_first(payload@) == Some(e@),
    {
        payload.native_entry()
    }

    /// Hands one entry of the payload to `copy`, which runs `wl-copy`. Nothing
    /// is run for an empty payload.
    pub fn set_data<F: Fn(&MimeEntry) -> MyResult<()>>(
        &self,
        payload: &ClipboardData,
        copy: F,
    ) -> (r: MyResult<()>)
        requires
            forall|e: &MimeEntry| call_requires(copy, (e,)),
        ensures
            match data::native_or_first(payload@) {
                Some(entry) => exists|e: &MimeEntry|
                    e@ == entry && #[trigger] call_ensures(copy, (e,), r),
                None => r is Ok,
            },
            data::native_or_first(payload@) is None <==> payload@.len() == 0,
    {
        match self.copy_entry(payload) {
            Some(e) => {
                let r = copy(e);
                assert(call_ensures(copy, (e,), r));
                r
            },
            None => Ok(()),
        }
    }

    pub fn display(&self) -> (r: String)
        ensures
            r@ == self.display@,
    {
        self.display.clone()
    }

    /// WlCommandClipboard can be polled (wl-paste is a one-shot command).
    pub fn should_poll(&self) -> (r: bool)
        ensures
            r,
    {
        true
    }

    pub fn rank(&self) -> (r: u8)
        ensures
            r == 200,
    {
        200
    }
}

// ---------------------------------------------------------------------------
// Laws
// ---------------------------------------------------------------------------

proof fn lemma_probe_types_are_public(i: int)
    requires
        0 <= i < WAYLAND_PROBE_MIME_TYPES@.len(),
    ensures
        !mime::is_wayland_internal(mime::str_views(WAYLAND_PROBE_MIME_TYPES@)[i]),
{
    let m = mime::str_views(WAYLAND_PROBE_MIME_TYPES@)[i];
    reveal_strlit("image/png");
    reveal_strlit("image/jpeg");
    reveal_strlit("image/webp");
    reveal_strlit("image/gif");
    reveal_strlit("image/bmp");
    reveal_strlit("text/html");
    reveal_strlit("text/uri-list");
    reveal_strlit("text/plain;charset=utf-8");
    reveal_strlit("text/plain");
    reveal_strlit("application/x-kde-cutselection");
    reveal_strlit("x-special/gnome-copied-files");
    reveal_strlit("x-special/nautilus-clipboard");
    reveal_strlit("x-kde-nativedata");
    reveal_strlit("application/x-qt-image");
    reveal_strlit("application/x-kde");
    assert(m[0] == 'i' || m[0] == 't');
    assert("application/x-qt-image"@.is_prefix_of(m) ==> m[0] == "application/x-qt-image"@[0]);
    assert("application/x-kde"@.is_prefix_of(m) ==> m[0] == "application/x-kde"@[0]);
}

/// There is always something to ask a Wayland clipboard for, never an
/// application-internal type, and never more than was discovered unless the
/// probe list stands in.
pub proof fn law_wayland_requests(discovered: Seq<Seq<char>>)
    ensures
        wayland_request_list(discovered).len() > 0,
        forall|i: int|
            0 <= i < wayland_request_list(discovered).len() ==> !mime::is_wayland_internal(
                #[trigger] wayland_request_list(discovered)[i],
            ),
        wayland_request_list(discovered).len() <= discovered.len() || wayland_request_list(
            discovered,
        ) == mime::str_views(WAYLAND_PROBE_MIME_TYPES@),
{
    let p = |m: Seq<char>| !mime::is_wayland_internal(m);
    let wanted = discovered.filter(p);
    let list = mime::str_views(WAYLAND_PROBE_MIME_TYPES@);
    let r = wayland_request_list(discovered);
    mime::lemma_filter_elements(discovered, p);
    if wanted.len() > 0 {
        mime::lemma_same_elements(wanted, list);
        assert forall|i: int| 0 <= i < r.len() implies !mime::is_wayland_internal(
            #[trigger] r[i],
        ) by {
            assert(wanted.contains(r[i]));
            let j = choose|j: int| 0 <= j < wanted.len() && wanted[j] == r[i];
            assert(p(wanted[j]));
        }
    } else {
        assert forall|i: int| 0 <= i < r.len() implies !mime::is_wayland_internal(
            #[trigger] r[i],
        ) by {
            lemma_probe_types_are_public(i);
        }
    }
}

/// At most `MAX_MIME_TYPES` types are asked for, however many a compositor lists.
pub proof fn law_wayland_requests_are_bounded(output: Option<CommandOutput>)
    ensures
        wayland_request_list(discovered_types(output)).len() <= MAX_MIME_TYPES,
{
    law_wayland_requests(discovered_types(output));
}

proof fn lemma_probe_types_differ()
    ensures
        mime::str_views(WAYLAND_PROBE_MIME_TYPES@).no_duplicates(),
{
    let list = mime::str_views(WAYLAND_PROBE_MIME_TYPES@);
    reveal_strlit("image/png");
    reveal_strlit("image/jpeg");
    reveal_strlit("image/webp");
    reveal_strlit("image/gif");
    reveal_strlit("image/bmp");
    reveal_strlit("text/html");
    reveal_strlit("text/uri-list");
    reveal_strlit("text/plain;charset=utf-8");
    reveal_strlit("text/plain");
    assert forall|i: int, j: int| 0 <= i < j < list.len() implies list[i] != list[j] by {
        assert(list[i].len() != list[j].len() || list[i][0] != list[j][0] || list[i][6]
            != list[j][6]);
    }
}

/// The payload of a Wayland read is ordered from highest to lowest priority,
/// whatever was listed and answered.
pub proof fn law_wayland_payload_is_ordered(
    discovered: Seq<Seq<char>>,
    replies: Seq<Option<Seq<u8>>>,
)
    requires
        replies.len() <= wayland_request_list(discovered).len(),
    ensures
        fetch::in_priority_order(
            fetch::types_of(fetch::collected(wayland_request_list(discovered), replies)),
            mime::str_views(WAYLAND_PROBE_MIME_TYPES@),
        ),
{
    let list = mime::str_views(WAYLAND_PROBE_MIME_TYPES@);
    let wanted = discovered.filter(|m: Seq<char>| !mime::is_wayland_internal(m));
    let requests = wayland_request_list(discovered);
    if wanted.len() == 0 {
        lemma_probe_types_differ();
        assert forall|i: int, j: int| 0 <= i < j < requests.len() implies mime::priority(
            #[trigger] requests[i],
            list,
        ) <= mime::priority(#[trigger] requests[j], list) by {
            mime::lemma_own_priority(list, i);
            mime::lemma_own_priority(list, j);
        }
    } else {
        mime::law_priority_sort_orders(wanted, list);
    }
    fetch::law_entries_keep_priority_order(requests, replies, list);
}

/// What is offered to a compositor never names an X11-only type.
pub proof fn law_sources_are_native(entries: Seq<data::EntryView>)
    ensures
        copy_plan_of(entries) matches CopyPlanView::Sources(sources) ==> forall|i: int|
            0 <= i < sources.len() ==> ((#[trigger] sources[i]).mime_type matches Some(m)
                ==> !mime::is_x11_text_atom(m)),
{
    let p = |e: data::EntryView| !mime::is_x11_text_atom(e.mime_type);
    mime::lemma_filter_elements(entries, p);
    let native = entries.filter(p);
    assert forall|i: int| 0 <= i < native.len() implies !mime::is_x11_text_atom(
        #[trigger] native[i].mime_type,
    ) by {
        assert(p(native[i]));
    }
}

/// Output counts only when the command could be run and succeeded, and then all
/// of it.
pub proof fn law_only_success_prints(output: Option<CommandOutput>)
    ensures
        printed(output) is Some <==> output is Some && output->0.success,
        printed(output) matches Some(bytes) ==> bytes == output->0.stdout@,
{
}

/// The types that a listing shows are its first sixty-four lines that are not
/// blank; a command that failed shows none.
pub proof fn law_listing_shows_its_lines(output: Option<CommandOutput>)
    ensures
        ({
            let shown = discovered_types(output);
            let lines = text::nonblank_lines(decode::utf8_lossy(output->0.stdout@));
            &&& !(output is Some && output->0.success) ==> shown.len() == 0
            &&& output is Some && output->0.success ==> {
                &&& shown.is_prefix_of(lines)
                &&& shown.len() == 64 || shown == lines
                &&& shown.len() <= 64
            }
        }),
{
    if output is Some && output->0.success {
        let lines = text::nonblank_lines(decode::utf8_lossy(output->0.stdout@));
        text::law_at_most(lines, 64);
    }
}

/// When some discovered type is not internal, every such type is asked for as
/// often as it was discovered, and no other: those of the probe list first, in
/// its order, the others behind them in the order of discovery. Otherwise the
/// probe list is asked for.
pub proof fn law_every_public_type_is_asked_for(discovered: Seq<Seq<char>>)
    ensures
        ({
            let wanted = discovered.filter(|m: Seq<char>| !mime::is_wayland_internal(m));
            let list = seq![
                "image/png"@,
                "image/jpeg"@,
                "image/webp"@,
                "image/gif"@,
                "image/bmp"@,
                "text/html"@,
                "text/uri-list"@,
                "text/plain;charset=utf-8"@,
                "text/plain"@,
            ];
            let asked = wayland_request_list(discovered);
            &&& wanted.len() > 0 ==> asked.to_multiset() == wanted.to_multiset()
            &&& wanted.len() > 0 ==> asked.filter(|m: Seq<char>| !list.contains(m))
                == wanted.filter(|m: Seq<char>| !list.contains(m))
            &&& wanted.len() == 0 ==> asked == list
            &&& forall|i: int, j: int|
                0 <= i < j < asked.len() ==> mime::priority(#[trigger] asked[i], list)
                    <= mime::priority(#[trigger] asked[j], list)
        }),
{
    let wanted = discovered.filter(|m: Seq<char>| !mime::is_wayland_internal(m));
    let list = mime::str_views(WAYLAND_PROBE_MIME_TYPES@);
    mime::law_probe_lists();
    mime::law_priority_sort_permutes(wanted, list);
    mime::law_unlisted_names_keep_their_order(wanted, list);
    if wanted.len() == 0 {
        lemma_probe_types_differ();
        assert forall|i: int, j: int| 0 <= i < j < list.len() implies mime::priority(
            #[trigger] list[i],
            list,
        ) <= mime::priority(#[trigger] list[j], list) by {
            mime::lemma_own_priority(list, i);
            mime::lemma_own_priority(list, j);
        }
    } else {
        mime::law_priority_sort_orders(wanted, list);
    }
}

/// A type that is not internal is asked for as often as it was discovered.
pub proof fn law_public_type_is_asked_for_as_often(discovered: Seq<Seq<char>>, m: Seq<char>)
    requires
        discovered.contains(m),
        !mime::is_wayland_internal(m),
    ensures
        wayland_request_list(discovered).to_multiset().count(m) == discovered.to_multiset().count(m),
        wayland_request_list(discovered).contains(m),
{
    broadcast use vstd::seq_lib::group_to_multiset_ensures;

    let p = |x: Seq<char>| !mime::is_wayland_internal(x);
    law_every_public_type_is_asked_for(discovered);
    lemma_filter_keeps_count(discovered, p, m);
    let wanted = discovered.filter(p);
    assert(discovered.to_multiset().count(m) > 0);
    assert(wanted.to_multiset().count(m) > 0);
    assert(wanted.contains(m));
    assert(wanted.len() > 0);
}

proof fn lemma_filter_keeps_count(
    s: Seq<Seq<char>>,
    p: spec_fn(Seq<char>) -> bool,
    m: Seq<char>,
)
    requires
        p(m),
    ensures
        s.filter(p).to_multiset().count(m) == s.to_multiset().count(m),
    decreases s.len(),
{
    broadcast use vstd::seq_lib::group_to_multiset_ensures;

    if s.len() == 0 {
        mime::lemma_filter_none(s, p);
        assert(s.filter(p) =~= s);
    } else {
        let init = s.drop_last();
        lemma_filter_keeps_count(init, p, m);
        assert(s =~= init.push(s.last()));
        mime::lemma_filter_push(init, s.last(), p);
    }
}

/// A paste fails the whole read exactly when the transfer broke off or the
/// connection is lost, with that failure; what was received counts whole; any
/// other refusal contributes nothing.
pub proof fn law_what_a_paste_contributes(outcome: PasteOutcome)
    ensures
        paste_reply(outcome) is Err <==> outcome is Interrupted || (
        outcome matches PasteOutcome::Refused(PasteError::WaylandConnection(_))),
        outcome matches PasteOutcome::Interrupted(e) ==> paste_reply(outcome)->Err_0 == e,
        outcome matches PasteOutcome::Refused(PasteError::WaylandConnection(msg)) ==> paste_reply(
            outcome,
        )->Err_0 == MyError::WlcrsPaste(PasteError::WaylandConnection(msg)),
        outcome matches PasteOutcome::Received(bytes) ==> paste_reply(outcome)->Ok_0 == Some(
            bytes@,
        ),
        outcome is Refused && paste_reply(outcome) is Ok ==> paste_reply(outcome)->Ok_0 is None,
{
}

/// A read through the data-control protocol that succeeds has asked for every
/// type, in order, and holds all that was received, under the name asked for.
pub proof fn law_wlr_read_holds_all_received<P: Fn(&str) -> PasteOutcome>(
    paste: P,
    requests: Seq<Seq<char>>,
    outcomes: Seq<PasteOutcome>,
    payload: ClipboardData,
)
    requires
        wlr_read(paste, requests, outcomes, MyResult::<ClipboardData>::Ok(payload)),
    ensures
        outcomes.len() == requests.len(),
        payload@ == selection::positions(
            outcomes.len() as int,
            |i: int|
                outcomes[i] matches PasteOutcome::Received(bytes) && bytes@.len() > 0,
        ).map_values(
            |i: int|
                data::EntryView { mime_type: requests[i], data: outcomes[i]->Received_0@ },
        ),
{
    let n = outcomes.len() as int;
    let replies = paste_replies(outcomes);
    let p = |i: int| replies[i] is Some && replies[i]->0.len() > 0;
    let q = |i: int| outcomes[i] matches PasteOutcome::Received(bytes) && bytes@.len() > 0;
    let f = |i: int| data::EntryView { mime_type: requests[i], data: replies[i]->0 };
    let g = |i: int| data::EntryView { mime_type: requests[i], data: outcomes[i]->Received_0@ };
    fetch::law_one_entry_per_reply(requests, replies);
    assert forall|i: int| 0 <= i < n implies paste_reply(#[trigger] outcomes[i]) is Ok by {}
    assert forall|i: int| 0 <= i < n implies #[trigger] p(i) == q(i) by {
        assert(paste_reply(outcomes[i]) is Ok);
        assert(replies[i] == paste_reply(outcomes[i])->Ok_0);
    }
    selection::lemma_positions_agree(n, p, q);
    selection::lemma_positions(n, p);
    let at = selection::positions(n, p);
    assert forall|k: int| 0 <= k < at.len() implies f(#[trigger] at[k]) == g(at[k]) by {
        let i = at[k];
        assert(p(i));
        assert(paste_reply(outcomes[i]) is Ok);
    }
    assert(at.map_values(f) =~= at.map_values(g));
}

/// A read through the data-control protocol asks for the types one by one, by
/// their names.
pub proof fn law_wlr_read_asks_by_name<P: Fn(&str) -> PasteOutcome>(
    paste: P,
    requests: Seq<Seq<char>>,
    outcomes: Seq<PasteOutcome>,
    result: MyResult<ClipboardData>,
    k: int,
)
    requires
        wlr_read(paste, requests, outcomes, result),
        0 <= k < outcomes.len(),
    ensures
        exists|s: &str| s@ == requests[k] && #[trigger] call_ensures(paste, (s,), outcomes[k]),
{
    assert(can_paste(paste, requests[k], outcomes[k]));
}

/// A read through the commands asks for the types one by one, by their names.
pub proof fn law_command_read_asks_by_name<P: Fn(&str) -> Option<CommandOutput>>(
    paste: P,
    requests: Seq<Seq<char>>,
    outputs: Seq<Option<CommandOutput>>,
    payload: Seq<data::EntryView>,
    k: int,
)
    requires
        command_read(paste, requests, outputs, payload),
        0 <= k < outputs.len(),
    ensures
        exists|s: &str| s@ == requests[k] && #[trigger] call_ensures(paste, (s,), outputs[k]),
{
    assert(can_run(paste, requests[k], outputs[k]));
}

/// A read through the data-control protocol fails with the first failure that a
/// paste gave, and makes no paste after it.
pub proof fn law_wlr_read_fails_with_the_first_failure<P: Fn(&str) -> PasteOutcome>(
    paste: P,
    requests: Seq<Seq<char>>,
    outcomes: Seq<PasteOutcome>,
    e: MyError,
)
    requires
        wlr_read(paste, requests, outcomes, MyResult::<ClipboardData>::Err(e)),
    ensures
        outcomes.len() > 0,
        outcomes.last() == PasteOutcome::Interrupted(e) || (
        outcomes.last() matches PasteOutcome::Refused(PasteError::WaylandConnection(msg)) && e
            == MyError::WlcrsPaste(PasteError::WaylandConnection(msg))),
        forall|k: int|
            0 <= k < outcomes.len() - 1 ==> !((#[trigger] outcomes[k]) is Interrupted) && !(
            outcomes[k] matches PasteOutcome::Refused(PasteError::WaylandConnection(_))),
{
    assert forall|k: int| 0 <= k < outcomes.len() - 1 implies !((
    #[trigger] outcomes[k]) is Interrupted) && !(
    outcomes[k] matches PasteOutcome::Refused(PasteError::WaylandConnection(_))) by {
        assert(paste_reply(outcomes[k]) is Ok);
    }
}

/// A read through the commands asks for every type, in order, and holds all
/// that a successful run printed, under the name asked for.
pub proof fn law_command_read_holds_all_printed<P: Fn(&str) -> Option<CommandOutput>>(
    paste: P,
    requests: Seq<Seq<char>>,
    outputs: Seq<Option<CommandOutput>>,
    payload: Seq<data::EntryView>,
)
    requires
        command_read(paste, requests, outputs, payload),
    ensures
        outputs.len() == requests.len(),
        payload == selection::positions(
            outputs.len() as int,
            |i: int|
                outputs[i] is Some && outputs[i]->0.success && outputs[i]->0.stdout@.len() > 0,
        ).map_values(
            |i: int| data::EntryView { mime_type: requests[i], data: outputs[i]->0.stdout@ },
        ),
{
    let n = outputs.len() as int;
    let replies = all_printed(outputs);
    let p = |i: int| replies[i] is Some && replies[i]->0.len() > 0;
    let q = |i: int|
        outputs[i] is Some && outputs[i]->0.success && outputs[i]->0.stdout@.len() > 0;
    let f = |i: int| data::EntryView { mime_type: requests[i], data: replies[i]->0 };
    let g = |i: int| data::EntryView { mime_type: requests[i], data: outputs[i]->0.stdout@ };
    fetch::law_one_entry_per_reply(requests, replies);
    selection::lemma_positions_agree(n, p, q);
    selection::lemma_positions(n, p);
    let at = selection::positions(n, p);
    assert forall|k: int| 0 <= k < at.len() implies f(#[trigger] at[k]) == g(at[k]) by {
        assert(p(at[k]));
    }
    assert(at.map_values(f) =~= at.map_values(g));
}

/// A compositor is offered, in order, every entry that is not of one of the
/// four X11 text types, with all its bytes, under its own type, or as plain text
/// when that is its type. A payload of X11 text types alone is offered as its
/// text, if it has any.
pub proof fn law_every_native_entry_is_offered(entries: Seq<data::EntryView>)
    ensures
        ({
            let atoms = seq!["UTF8_STRING"@, "STRING"@, "TEXT"@, "COMPOUND_TEXT"@];
            let native = selection::positions(
                entries.len() as int,
                |i: int| !atoms.contains(entries[i].mime_type),
            );
            &&& native.len() > 0 ==> copy_plan_of(entries) == CopyPlanView::Sources(
                native.map_values(
                    |i: int|
                        SourceView {
                            mime_type: if seq![
                                "text/plain"@,
                                "text/plain;charset=utf-8"@,
                            ].contains(entries[i].mime_type) {
                                None
                            } else {
                                Some(entries[i].mime_type)
                            },
                            data: entries[i].data,
                        },
                ),
            )
            &&& native.len() == 0 && entries.len() > 0 ==> copy_plan_of(entries) == match data::text_of(
                entries,
            ) {
                Some(t) => CopyPlanView::Text(encode_utf8(t)),
                None => CopyPlanView::Nothing,
            }
            &&& entries.len() == 0 ==> copy_plan_of(entries) == CopyPlanView::Nothing
        }),
{
    let atoms = seq!["UTF8_STRING"@, "STRING"@, "TEXT"@, "COMPOUND_TEXT"@];
    let plain = seq!["text/plain"@, "text/plain;charset=utf-8"@];
    let n = entries.len() as int;
    let p = |i: int| !atoms.contains(entries[i].mime_type);
    let keep = |e: data::EntryView| !mime::is_x11_text_atom(e.mime_type);
    let f = |i: int|
        SourceView {
            mime_type: if seq!["text/plain"@, "text/plain;charset=utf-8"@].contains(
                entries[i].mime_type,
            ) {
                None
            } else {
                Some(entries[i].mime_type)
            },
            data: entries[i].data,
        };
    let native = selection::positions(n, p);
    lemma_native_positions(entries, n);
    assert(entries.take(n) =~= entries);
    assert(plain[0] == "text/plain"@ && plain[1] == "text/plain;charset=utf-8"@);
    let kept = entries.filter(keep);
    assert(kept.len() == native.len());
    assert forall|k: int| 0 <= k < native.len() implies source_for(kept[k]) == f(
        #[trigger] native[k],
    ) by {
        let e = entries[native[k]];
        assert(kept[k] == e);
        if plain.contains(e.mime_type) {
            let i = choose|i: int| 0 <= i < plain.len() && plain[i] == e.mime_type;
            assert(i == 0 || i == 1);
        }
        if is_plain_text(e.mime_type) {
            assert(plain.contains(e.mime_type));
        }
    }
    assert(sources_for(kept) =~= native.map_values(f));
}

proof fn lemma_native_positions(entries: Seq<data::EntryView>, n: int)
    requires
        0 <= n <= entries.len(),
    ensures
        entries.take(n).filter(|e: data::EntryView| !mime::is_x11_text_atom(e.mime_type))
            == selection::positions(
            n,
            |i: int|
                !seq!["UTF8_STRING"@, "STRING"@, "TEXT"@, "COMPOUND_TEXT"@].contains(
                    entries[i].mime_type,
                ),
        ).map_values(|i: int| entries[i]),
    decreases n,
{
    let p = |i: int|
        !seq!["UTF8_STRING"@, "STRING"@, "TEXT"@, "COMPOUND_TEXT"@].contains(entries[i].mime_type);
    let keep = |e: data::EntryView| !mime::is_x11_text_atom(e.mime_type);
    let f = |i: int| entries[i];
    if n == 0 {
        selection::lemma_positions_push(0, p);
        mime::lemma_filter_none(entries.take(0), keep);
        assert(entries.take(0).filter(keep) =~= selection::positions(0, p).map_values(f));
    } else {
        let last = entries[n - 1];
        lemma_native_positions(entries, n - 1);
        selection::lemma_positions_push(n - 1, p);
        mime::lemma_filter_push(entries.take(n - 1), last, keep);
        assert(entries.take(n) =~= entries.take(n - 1).push(last));
        mime::law_text_names(last.mime_type);
        assert(p(n - 1) == keep(last));
        assert(entries.take(n).filter(keep) =~= selection::positions(n, p).map_values(f));
    }
}

/// What `wayland_mime_types` returns, when some type that was discovered is not
/// internal: those types, as often as they were discovered.
pub proof fn law_asking_for_public_types(discovered: Vec<String>, types: Vec<String>)
    requires
        call_ensures(wayland_mime_types, (discovered,), types),
        exists|i: int|
            0 <= i < discovered@.len() && !mime::is_wayland_internal(
                (#[trigger] discovered@[i])@,
            ),
    ensures
        text::views(types@).to_multiset() == text::views(discovered@).filter(
            |m: Seq<char>| !mime::is_wayland_internal(m),
        ).to_multiset(),
{
    let names = text::views(discovered@);
    let p = |x: Seq<char>| !mime::is_wayland_internal(x);
    let i = choose|i: int|
        0 <= i < discovered@.len() && !mime::is_wayland_internal((#[trigger] discovered@[i])@);
    assert(names[i] == discovered@[i]@);
    law_public_type_is_asked_for_as_often(names, names[i]);
    law_every_public_type_is_asked_for(names);
    lemma_filter_keeps_count(names, p, names[i]);
    broadcast use vstd::seq_lib::group_to_multiset_ensures;

    assert(names.contains(names[i]));
    assert(names.to_multiset().count(names[i]) > 0);
    assert(names.filter(p).to_multiset().count(names[i]) > 0);
    assert(names.filter(p).contains(names[i]));
}

} // verus!
