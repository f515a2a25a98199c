//! The X11 backends.
use vstd::prelude::*;
use vstd::slice::*;
use vstd::string::*;
use vstd::utf8::*;

use crate::clipboard;
use crate::clipboard::{payload_of_text, text_or_default};
use crate::data;
use crate::data::ClipboardData;
use crate::error::MyResult;
use crate::fetch;
use crate::fetch::add_reply;
use crate::laws;
use crate::mime;
use crate::mime::{
    is_x11_meta_target, sort_by_mime_priority, to_strings, MAX_MIME_TYPES, X11_PROBE_TARGETS,
};
use crate::selection;
use crate::text;
use crate::text::str_eq;
use crate::wayland;
use crate::wayland::is_plain_text_mime;
use crate::words;
use crate::words::{all_words, native_order, ByteOrder};

verus! {

/// A selection target.
#[derive(Clone, Copy, Debug, PartialEq, Eq, Structural)]
pub enum X11Target {
    /// The built-in atom of UTF-8 text.
    Utf8String,
    /// The built-in atom of Latin-1 text.
    Latin1String,
    /// An atom that the display gave a number.
    Interned(u32),
}

/// The atom in a reply; zero stands for none.
pub open spec fn nonzero(reply: Option<u32>) -> Option<u32> {
    match reply {
        Some(a) => if a != 0 {
            Some(a)
        } else {
            None
        },
        None => None,
    }
}

/// The atom in a reply; zero stands for none.
pub fn known_atom(reply: Option<u32>) -> (r: Option<u32>)
    ensures
        r == nonzero(reply),
{
    match reply {
        Some(a) => if a != 0 {
            Some(a)
        } else {
            None
        },
        None => None,
    }
}

/// Whether interning `name` can have been answered so. The flag says whether
/// the atom must exist already.
pub open spec fn can_intern<I: Fn(&str, bool) -> Option<u32>>(
    intern: I,
    name: Seq<char>,
    only_if_exists: bool,
    reply: Option<u32>,
) -> bool {
    exists|s: &str| s@ == name && #[trigger] call_ensures(intern, (s, only_if_exists), reply)
}

// ---------------------------------------------------------------------------
// Which targets to ask for
// ---------------------------------------------------------------------------

/// The atoms in a `TARGETS` reply.
pub open spec fn target_atoms(order: ByteOrder, bytes: Seq<u8>) -> Seq<u32> {
    words::words_of(order, bytes).filter(|a: u32| a != 0)
}

/// The atoms in a `TARGETS` reply: a packed array of 32-bit atom IDs.
pub fn atoms_in(order: ByteOrder, bytes: &[u8]) -> (r: Vec<u32>)
    ensures
        r@ == target_atoms(order, bytes@),
{
    let all = all_words(order, bytes);
    let ghost p = |a: u32| a != 0;
    let mut out: Vec<u32> = Vec::new();
    assert(all@.take(0).filter(p) =~= out@) by {
        reveal(Seq::filter);
    }
    let mut i: usize = 0;
    while i < all.len()
        invariant
            i <= all.len(),
            p == (|a: u32| a != 0),
            out@ == all@.take(i as int).filter(p),
        decreases all.len() - i,
    {
        proof {
            mime::lemma_filter_push(all@.take(i as int), all@[i as int], p);
            assert(all@.take(i + 1) =~= all@.take(i as int).push(all@[i as int]));
        }
        if all[i] != 0 {
            out.push(all[i]);
        }
        i += 1;
    }
    assert(all@.take(all.len() as int) =~= all@);
    out
}

/// The names that are there and are clipboard content.
pub open spec fn content_names(names: Seq<Option<String>>) -> Seq<Seq<char>>
    decreases names.len(),
{
    if names.len() == 0 {
        Seq::empty()
    } else {
        let earlier = content_names(names.drop_last());
        match names.last() {
            Some(n) => if mime::is_x11_meta(n@) {
                earlier
            } else {
                earlier.push(n@)
            },
            None => earlier,
        }
    }
}

/// Whether the names of `atoms` can have been looked up with these results:
/// one after the other, until enough content names were found.
pub open spec fn looked_up<N: Fn(u32) -> Option<String>>(
    name_of: N,
    atoms: Seq<u32>,
    names: Seq<Option<String>>,
) -> bool {
    &&& names.len() <= atoms.len()
    &&& forall|k: int|
        0 <= k < names.len() ==> call_ensures(name_of, (atoms[k],), #[trigger] names[k])
    &&& names.len() > 0 ==> content_names(names.drop_last()).len() < MAX_MIME_TYPES
    &&& names.len() < atoms.len() ==> content_names(names).len() == MAX_MIME_TYPES
}

/// The content names of the atoms, at most `MAX_MIME_TYPES` of them.
fn look_up<N: Fn(u32) -> Option<String>>(atoms: &Vec<u32>, name_of: &N) -> (r: (
    Vec<String>,
    Ghost<Seq<Option<String>>>,
))
    requires
        forall|a: u32| call_requires(*name_of, (a,)),
    ensures
        looked_up(*name_of, atoms@, r.1@),
        text::views(r.0@) == content_names(r.1@),
{
    let ghost mut names: Seq<Option<String>> = Seq::empty();
    let mut kept: Vec<String> = Vec::new();
    assert(text::views(kept@) =~= content_names(names));
    let mut i: usize = 0;
    while i < atoms.len() && kept.len() < MAX_MIME_TYPES
        invariant
            i <= atoms.len(),
            names.len() == i,
            forall|a: u32| call_requires(*name_of, (a,)),
            forall|k: int|
                0 <= k < names.len() ==> call_ensures(*name_of, (atoms@[k],), #[trigger] names[k]),
            names.len() > 0 ==> content_names(names.drop_last()).len() < MAX_MIME_TYPES,
            text::views(kept@) == content_names(names),
            kept.len() <= MAX_MIME_TYPES,
        decreases atoms.len() - i,
    {
        let name = name_of(atoms[i]);
        let ghost before = names;
        let ghost views = text::views(kept@);
        assert(views.len() == kept.len());
        proof {
            names = names.push(name);
            assert(names.drop_last() =~= before);
        }
        if let Some(n) = name {
            if !is_x11_meta_target(n.as_str()) {
                kept.push(n);
                assert(text::views(kept@) =~= views.push(n@));
            }
        }
        i += 1;
    }
    assert(text::views(kept@).len() == kept.len());
    (kept, Ghost(names))
}

/// What was answered while the targets of a selection were discovered.
pub struct TargetsTrace {
    /// The reply to interning `TARGETS`.
    pub interned: Option<u32>,
    /// The reply to loading it.
    pub loaded: Option<Vec<u8>>,
    /// The byte order in which that reply was read, that of the machine.
    pub order: ByteOrder,
    /// The names of its atoms.
    pub names: Seq<Option<String>>,
}

/// The bytes of a `TARGETS` reply that holds an atom at least.
pub open spec fn usable_targets(loaded: Option<Vec<u8>>) -> Option<Seq<u8>> {
    match loaded {
        Some(bytes) => if bytes@.len() >= 4 {
            Some(bytes@)
        } else {
            None
        },
        None => None,
    }
}

/// Whether the targets can have been discovered with these answers.
pub open spec fn discovery_run<
    I: Fn(&str, bool) -> Option<u32>,
    L: Fn(X11Target) -> Option<Vec<u8>>,
    N: Fn(u32) -> Option<String>,
>(intern: I, load: L, name_of: N, trace: TargetsTrace) -> bool {
    &&& words::is_native(trace.order)
    &&& can_intern(intern, "TARGETS"@, false, trace.interned)
    &&& nonzero(trace.interned) matches Some(a) ==> {
        &&& call_ensures(load, (X11Target::Interned(a),), trace.loaded)
        &&& usable_targets(trace.loaded) matches Some(bytes) ==> looked_up(
            name_of,
            target_atoms(trace.order, bytes),
            trace.names,
        )
    }
}

/// The targets that those answers show: the content names in priority order,
/// none when `TARGETS` is not supported.
pub open spec fn discovered_targets(trace: TargetsTrace) -> Seq<Seq<char>> {
    if nonzero(trace.interned) is Some && usable_targets(trace.loaded) is Some {
        mime::by_priority(content_names(trace.names), mime::str_views(X11_PROBE_TARGETS@))
    } else {
        Seq::empty()
    }
}

/// The discovered targets, or the probe list when there are none.
pub open spec fn x11_request_list(discovered: Seq<Seq<char>>) -> Seq<Seq<char>> {
    if discovered.len() == 0 {
        mime::str_views(X11_PROBE_TARGETS@)
    } else {
        discovered
    }
}

/// The targets to ask an X11 clipboard for, in order.
pub fn x11_targets(discovered: Vec<String>) -> (targets: Vec<String>)
    ensures
        text::views(targets@) == x11_request_list(text::views(discovered@)),
{
    if discovered.is_empty() {
        to_strings(X11_PROBE_TARGETS.as_slice())
    } else {
        discovered
    }
}

fn no_targets() -> (r: Vec<String>)
    ensures
        text::views(r@) == Seq::<Seq<char>>::empty(),
{
    let none: Vec<String> = Vec::new();
    assert(text::views(none@) =~= Seq::empty());
    none
}

// ---------------------------------------------------------------------------
// The atom backend
// ---------------------------------------------------------------------------

/// X11 clipboard backend with full atom support: custom MIME-type atoms
/// (text/html, image/png, etc.) in addition to the standard UTF8_STRING and
/// STRING targets.
#[derive(Debug)]
pub struct X11ClipboardDirect {
    pub display: String,
}

impl X11ClipboardDirect {
    /// Query the selection for its `TARGETS` meta-atom and return the names of
    /// all supported target atoms, sorted by priority. Falls back to an empty
    /// list if TARGETS is not supported.
    fn discover_targets<
        I: Fn(&str, bool) -> Option<u32>,
        L: Fn(X11Target) -> Option<Vec<u8>>,
        N: Fn(u32) -> Option<String>,
    >(&self, intern: &I, load: &L, name_of: &N) -> (r: (Vec<String>, Ghost<TargetsTrace>))
        requires
            forall|s: &str, only: bool| call_requires(*intern, (s, only)),
            forall|t: X11Target| call_requires(*load, (t,)),
            forall|a: u32| call_requires(*name_of, (a,)),
        ensures
            discovery_run(*intern, *load, *name_of, r.1@),
            text::views(r.0@) == discovered_targets(r.1@),
    {
        let order = native_order();
        // Intern the TARGETS atom (must exist on any ICCCM-compliant display).
        let interned = intern("TARGETS", false);
        assert(can_intern(*intern, "TARGETS"@, false, interned));
        let ghost mut trace = TargetsTrace { interned, loaded: None, order, names: Seq::empty() };
        let atom = match known_atom(interned) {
            Some(a) => a,
            None => {
                return (no_targets(), Ghost(trace));
            },
        };

        // Load the TARGETS value from the selection.
        let loaded = load(X11Target::Interned(atom));
        proof {
            trace = TargetsTrace { loaded, ..trace };
        }
        if let Some(bytes) = loaded {
            if bytes.len() >= 4 {
                let atoms = atoms_in(order, bytes.as_slice());
                let (mut names, Ghost(answers)) = look_up(&atoms, name_of);
                proof {
                    trace = TargetsTrace { names: answers, ..trace };
                }
                sort_by_mime_priority(&mut names, X11_PROBE_TARGETS.as_slice());
                return (names, Ghost(trace));
            }
        }
        (no_targets(), Ghost(trace))
    }

    /// Reads all targets that the selection offers. `intern` gives the number
    /// of an atom (with `true`, only if it exists), `load` the value of a
    /// target, `name_of` the name of an atom; each gives nothing when the
    /// display does not answer.
    pub fn get_data<
        I: Fn(&str, bool) -> Option<u32>,
        L: Fn(X11Target) -> Option<Vec<u8>>,
        N: Fn(u32) -> Option<String>,
    >(&self, intern: I, load: L, name_of: N) -> (r: MyResult<ClipboardData>)
        requires
            forall|s: &str, only: bool| call_requires(intern, (s, only)),
            forall|t: X11Target| call_requires(load, (t,)),
            forall|a: u32| call_requires(name_of, (a,)),
        ensures
            r is Ok,
            exists|trace: TargetsTrace, replies: Seq<Option<Seq<u8>>>| #[trigger]
                x11_read(intern, load, name_of, trace, replies, r->Ok_0@),
    {
        // Dynamically discover available targets via the TARGETS meta-atom.
        // Fall back to the static probe list if TARGETS is not supported.
        let (discovered, Ghost(trace)) = self.discover_targets(&intern, &load, &name_of);
        let targets = x11_targets(discovered);
        let ghost requests = text::views(targets@);
        let ghost mut replies: Seq<Option<Seq<u8>>> = Seq::empty();
        let mut payload = ClipboardData::empty();
        let mut i: usize = 0;
        while i < targets.len()
            invariant
                i <= targets.len(),
                replies.len() == i,
                requests == text::views(targets@),
                forall|s: &str, only: bool| call_requires(intern, (s, only)),
                forall|t: X11Target| call_requires(load, (t,)),
                forall|k: int|
                    0 <= k < replies.len() ==> can_answer(
                        intern,
                        load,
                        requests[k],
                        #[trigger] replies[k],
                    ),
                payload@ == fetch::collected(requests, replies),
            decreases targets.len() - i,
        {
            let name = targets[i].as_str();
            let reply = ask(&intern, &load, name);
            let ghost before = replies;
            proof {
                replies = replies.push(fetch::reply_view(reply));
            }
            add_reply(&mut payload, name, reply, Ghost(requests), Ghost(before));
            i += 1;
        }
        let result: MyResult<ClipboardData> = Ok(payload);
        assert(x11_read(intern, load, name_of, trace, replies, result->Ok_0@));
        result
    }

    /// What to store in the selection. Storing replaces what was stored
    /// before, so exactly one entry is chosen: the highest-priority entry that
    /// is not a text atom, or else the first. `intern` is asked only for a
    /// type that has no built-in target.
    pub fn store_plan<I: Fn(&str, bool) -> Option<u32>>(
        &self,
        payload: &ClipboardData,
        intern: I,
    ) -> (plan: StorePlan)
        requires
            forall|s: &str, only: bool| call_requires(intern, (s, only)),
        ensures
            exists|interned: Option<u32>|
                intern_asked(intern, payload@, interned) && plan@ == #[trigger] store_plan_of(
                    payload@,
                    interned,
                ),
    {
        let entry = match payload.native_entry() {
            Some(e) => e,
            None => {
                let plan = StorePlan::Nothing;
                assert(plan@ == store_plan_of(payload@, None));
                return plan;
            },
        };
        let name = entry.mime_type.as_str();
        let fixed = store_target(name);
        let mut interned: Option<u32> = None;
        let target = match fixed {
            Some(t) => Some(t),
            None => {
                interned = intern(name, true);
                assert(can_intern(intern, name@, true, interned));
                match known_atom(interned) {
                    Some(a) => Some(X11Target::Interned(a)),
                    None => None,
                }
            },
        };
        let plan = match target {
            Some(t) => StorePlan::Store { target: t, data: slice_to_vec(entry.data.as_slice()) },
            // Atom not available on this display; fall back to text.
            None => match payload.text() {
                Some(t) => StorePlan::Store {
                    target: X11Target::Utf8String,
                    data: slice_to_vec(t.as_str().as_bytes()),
                },
                None => StorePlan::Nothing,
            },
        };
        assert(plan@ == store_plan_of(payload@, interned));
        plan
    }

    /// Stores what `store_plan` chose; `store` puts bytes under a target.
    /// Nothing is stored of an empty payload.
    pub fn set_data<
        I: Fn(&str, bool) -> Option<u32>,
        S: Fn(X11Target, Vec<u8>) -> MyResult<()>,
    >(&self, payload: &ClipboardData, intern: I, store: S) -> (r: MyResult<()>)
        requires
            forall|s: &str, only: bool| call_requires(intern, (s, only)),
            forall|t: X11Target, bytes: Vec<u8>| call_requires(store, (t, bytes)),
        ensures
            exists|interned: Option<u32>|
                intern_asked(intern, payload@, interned) && can_store(
                    store,
                    #[trigger] store_plan_of(payload@, interned),
                    r,
                ),
    {
        let plan = self.store_plan(payload, intern);
        let ghost interned = choose|interned: Option<u32>|
            intern_asked(intern, payload@, interned) && plan@ == #[trigger] store_plan_of(
                payload@,
                interned,
            );
        let r = match plan {
            StorePlan::Nothing => Ok(()),
            StorePlan::Store { target, data } => store(target, data),
        };
        assert(can_store(store, store_plan_of(payload@, interned), r));
        r
    }

    pub fn display(&self) -> (r: String)
        ensures
            r@ == self.display@,
    {
        self.display.clone()
    }
}

/// Whether carrying out a plan can have ended so: without a call when there is
/// nothing to store.
pub open spec fn can_store<S: Fn(X11Target, Vec<u8>) -> MyResult<()>>(
    store: S,
    plan: StorePlanView,
    r: MyResult<()>,
) -> bool {
    match plan {
        StorePlanView::Nothing => r is Ok,
        StorePlanView::Store { target, data } => exists|bytes: Vec<u8>|
            bytes@ == data && #[trigger] call_ensures(store, (target, bytes), r),
    }
}

/// The built-in target that a name is read through.
pub open spec fn builtin_target(name: Seq<char>) -> Option<X11Target> {
    if name == "UTF8_STRING"@ {
        Some(X11Target::Utf8String)
    } else if name == "STRING"@ || name == "TEXT"@ {
        Some(X11Target::Latin1String)
    } else {
        None
    }
}

/// The target that a name is read through: a built-in one, or the one that the
/// display has under that name.
pub open spec fn target_for(name: Seq<char>, interned: Option<u32>) -> Option<X11Target> {
    match builtin_target(name) {
        Some(t) => Some(t),
        None => match nonzero(interned) {
            Some(a) => Some(X11Target::Interned(a)),
            None => None,
        },
    }
}

/// The built-in target that a name is read through.
pub fn read_target(name: &str) -> (r: Option<X11Target>)
    ensures
        r == builtin_target(name@),
{
    if str_eq(name, "UTF8_STRING") {
        Some(X11Target::Utf8String)
    } else if str_eq(name, "STRING") || str_eq(name, "TEXT") {
        Some(X11Target::Latin1String)
    } else {
        None
    }
}

/// Whether the reply to interning `name` can have been `interned`. Names with a
/// built-in target are not interned.
pub open spec fn interned_for<I: Fn(&str, bool) -> Option<u32>>(
    intern: I,
    name: Seq<char>,
    interned: Option<u32>,
) -> bool {
    builtin_target(name) is None ==> can_intern(intern, name, true, interned)
}

/// Whether loading `target` can have been answered so.
pub open spec fn can_load<L: Fn(X11Target) -> Option<Vec<u8>>>(
    load: L,
    target: X11Target,
    reply: Option<Seq<u8>>,
) -> bool {
    exists|r: Option<Vec<u8>>| #[trigger]
        call_ensures(load, (target,), r) && reply == fetch::reply_view(r)
}

/// Whether asking for `name` can have been answered so: nothing when there is
/// no such target, otherwise what was loaded.
pub open spec fn can_answer<
    I: Fn(&str, bool) -> Option<u32>,
    L: Fn(X11Target) -> Option<Vec<u8>>,
>(intern: I, load: L, name: Seq<char>, reply: Option<Seq<u8>>) -> bool {
    exists|interned: Option<u32>| #[trigger]
        interned_for(intern, name, interned) && match target_for(name, interned) {
            Some(t) => can_load(load, t, reply),
            None => reply is None,
        }
}

/// Asks for one name.
fn ask<I: Fn(&str, bool) -> Option<u32>, L: Fn(X11Target) -> Option<Vec<u8>>>(
    intern: &I,
    load: &L,
    name: &str,
) -> (r: Option<Vec<u8>>)
    requires
        forall|s: &str, only: bool| call_requires(*intern, (s, only)),
        forall|t: X11Target| call_requires(*load, (t,)),
    ensures
        can_answer(*intern, *load, name@, fetch::reply_view(r)),
{
    // Resolve target atom using built-ins or intern it on the fly.
    let mut interned: Option<u32> = None;
    let target = match read_target(name) {
        Some(t) => Some(t),
        None => {
            interned = intern(name, true);
            assert(can_intern(*intern, name@, true, interned));
            match known_atom(interned) {
                Some(a) => Some(X11Target::Interned(a)),
                None => None,
            }
        },
    };
    assert(interned_for(*intern, name@, interned));
    match target {
        Some(t) => {
            let r = load(t);
            assert(can_load(*load, t, fetch::reply_view(r)));
            r
        },
        None => None,
    }
}

/// Whether a read can have had these answers and given this payload.
pub open spec fn x11_read<
    I: Fn(&str, bool) -> Option<u32>,
    L: Fn(X11Target) -> Option<Vec<u8>>,
    N: Fn(u32) -> Option<String>,
>(
    intern: I,
    load: L,
    name_of: N,
    trace: TargetsTrace,
    replies: Seq<Option<Seq<u8>>>,
    payload: Seq<data::EntryView>,
) -> bool {
    let requests = x11_request_list(discovered_targets(trace));
    &&& discovery_run(intern, load, name_of, trace)
    &&& replies.len() == requests.len()
    &&& forall|k: int|
        0 <= k < replies.len() ==> can_answer(intern, load, requests[k], #[trigger] replies[k])
    &&& payload == fetch::collected(requests, replies)
}

/// What to store.
pub enum StorePlan {
    Nothing,
    Store { target: X11Target, data: Vec<u8> },
}

/// What a plan amounts to.
pub enum StorePlanView {
    Nothing,
    Store { target: X11Target, data: Seq<u8> },
}

impl View for StorePlan {
    type V = StorePlanView;

    open spec fn view(&self) -> StorePlanView {
        match *self {
            StorePlan::Nothing => StorePlanView::Nothing,
            StorePlan::Store { target, data } => StorePlanView::Store { target, data: data@ },
        }
    }
}

/// The built-in target that a type is stored under; plain text goes under the
/// UTF-8 one.
pub open spec fn builtin_store_target(name: Seq<char>) -> Option<X11Target> {
    if wayland::is_plain_text(name) {
        Some(X11Target::Utf8String)
    } else {
        builtin_target(name)
    }
}

/// The built-in target that a type is stored under.
pub fn store_target(name: &str) -> (r: Option<X11Target>)
    ensures
        r == builtin_store_target(name@),
{
    if is_plain_text_mime(name) {
        Some(X11Target::Utf8String)
    } else {
        read_target(name)
    }
}

/// What to store of a payload, when interning the type of the chosen entry
/// was answered so: that entry under its target, or the text of the payload
/// when there is no such target.
pub open spec fn store_plan_of(
    entries: Seq<data::EntryView>,
    interned: Option<u32>,
) -> StorePlanView {
    match data::native_or_first(entries) {
        Some(e) => match builtin_store_target(e.mime_type) {
            Some(target) => StorePlanView::Store { target, data: e.data },
            None => match nonzero(interned) {
                Some(a) => StorePlanView::Store { target: X11Target::Interned(a), data: e.data },
                None => match data::text_of(entries) {
                    Some(t) => StorePlanView::Store {
                        target: X11Target::Utf8String,
                        data: encode_utf8(t),
                    },
                    None => StorePlanView::Nothing,
                },
            },
        },
        None => StorePlanView::Nothing,
    }
}

/// Whether `interned` can have been the reply to interning the type of the
/// chosen entry. A type with a built-in target is not interned.
pub open spec fn intern_asked<I: Fn(&str, bool) -> Option<u32>>(
    intern: I,
    entries: Seq<data::EntryView>,
    interned: Option<u32>,
) -> bool {
    data::native_or_first(entries) matches Some(e) ==> (builtin_store_target(e.mime_type) is None
        ==> can_intern(intern, e.mime_type, true, interned))
}

// ---------------------------------------------------------------------------
// The text backend
// ---------------------------------------------------------------------------

/// Text-only X11 backend.
#[derive(Debug)]
pub struct X11Clipboard {
    pub display: String,
}

impl X11Clipboard {
    /// The payload for the text that the backend gave, if it gave any.
    pub fn get_data(&self, read: Option<String>) -> (r: ClipboardData)
        ensures
            r@ == clipboard::plain_payload(
                match read {
                    Some(t) => Some(t@),
                    None => None,
                },
            ),
    {
        payload_of_text(read)
    }

    /// Hands the text of the payload, or the empty text, to the backend.
    pub fn set_data<S: Fn(&str) -> MyResult<()>>(&self, payload: &ClipboardData, set: S) -> (r:
        MyResult<()>)
        requires
            forall|s: &str| call_requires(set, (s,)),
        ensures
            exists|s: &str|
                s@ == clipboard::text_or_empty(payload@) && #[trigger] call_ensures(set, (s,), r),
    {
        let t = self.text_to_set(payload);
        let s = t.as_str();
        let r = set(s);
        assert(call_ensures(set, (s,), r));
        r
    }

    /// The text to hand to the backend.
    pub fn text_to_set(&self, payload: &ClipboardData) -> (r: String)
        ensures
            r@ == clipboard::text_or_empty(payload@),
    {
        text_or_default(payload)
    }

    pub fn display(&self) -> (r: String)
        ensures
            r@ == self.display@,
    {
        self.display.clone()
    }
}

// ---------------------------------------------------------------------------
// Laws
// ---------------------------------------------------------------------------

proof fn lemma_content_names(names: Seq<Option<String>>)
    ensures
        content_names(names).len() <= names.len(),
        forall|i: int|
            0 <= i < content_names(names).len() ==> !mime::is_x11_meta(
                #[trigger] content_names(names)[i],
            ),
    decreases names.len(),
{
    if names.len() > 0 {
        lemma_content_names(names.drop_last());
    }
}

/// Discovered targets are never meta atoms, and there are at most
/// `MAX_MIME_TYPES` of them.
pub proof fn law_discovered_targets_are_content<
    I: Fn(&str, bool) -> Option<u32>,
    L: Fn(X11Target) -> Option<Vec<u8>>,
    N: Fn(u32) -> Option<String>,
>(intern: I, load: L, name_of: N, trace: TargetsTrace)
    requires
        discovery_run(intern, load, name_of, trace),
    ensures
        discovered_targets(trace).len() <= MAX_MIME_TYPES,
        forall|i: int|
            0 <= i < discovered_targets(trace).len() ==> !mime::is_x11_meta(
                #[trigger] discovered_targets(trace)[i],
            ),
{
    if nonzero(trace.interned) is Some && usable_targets(trace.loaded) is Some {
        let names = content_names(trace.names);
        let list = mime::str_views(X11_PROBE_TARGETS@);
        lemma_content_names(trace.names);
        mime::lemma_same_elements(names, list);
        if trace.names.len() > 0 {
            assert(names.len() <= content_names(trace.names.drop_last()).len() + 1);
        }
        assert forall|i: int| 0 <= i < discovered_targets(trace).len() implies !mime::is_x11_meta(
            #[trigger] discovered_targets(trace)[i],
        ) by {
            let t = discovered_targets(trace)[i];
            let j = choose|j: int| 0 <= j < names.len() && names[j] == t;
            assert(!mime::is_x11_meta(names[j]));
        }
    }
}

proof fn lemma_probe_targets_are_content(i: int)
    requires
        0 <= i < X11_PROBE_TARGETS@.len(),
    ensures
        !mime::is_x11_meta(mime::str_views(X11_PROBE_TARGETS@)[i]),
{
    let m = mime::str_views(X11_PROBE_TARGETS@)[i];
    reveal_strlit("image/png");
    reveal_strlit("image/jpeg");
    reveal_strlit("text/html");
    reveal_strlit("text/uri-list");
    reveal_strlit("UTF8_STRING");
    reveal_strlit("STRING");
    reveal_strlit("TEXT");
    reveal_strlit("TARGETS");
    reveal_strlit("MULTIPLE");
    reveal_strlit("TIMESTAMP");
    reveal_strlit("DELETE");
    reveal_strlit("INSERT_PROPERTY");
    reveal_strlit("INSERT_SELECTION");
    reveal_strlit("INCR");
    reveal_strlit("CLIPBOARD_MANAGER");
    reveal_strlit("SAVE_TARGETS");
    reveal_strlit("ATOM");
    reveal_strlit("ATOM_PAIR");
    reveal_strlit("INTEGER");
    reveal_strlit("PIXMAP");
    reveal_strlit("BITMAP");
    reveal_strlit("COLORMAP");
    reveal_strlit("DRAWABLE");
    reveal_strlit("WINDOW");
    reveal_strlit("PIXEL");
    reveal_strlit("_NET_");
    reveal_strlit("_WM_");
    reveal_strlit("_XSETTINGS");
    reveal_strlit("_MOTIF");
    assert(m[0] == 'i' || m[0] == 't' || m[0] == 'U' || (m[0] == 'S' && m[1] == 'T') || (m[0]
        == 'T' && m[1] == 'E'));
    assert("TARGETS"@[1] == 'A' && "TIMESTAMP"@[1] == 'I' && "SAVE_TARGETS"@[1] == 'A');
    assert("_NET_"@.is_prefix_of(m) ==> m[0] == "_NET_"@[0]);
    assert("_WM_"@.is_prefix_of(m) ==> m[0] == "_WM_"@[0]);
    assert("_XSETTINGS"@.is_prefix_of(m) ==> m[0] == "_XSETTINGS"@[0]);
    assert("_MOTIF"@.is_prefix_of(m) ==> m[0] == "_MOTIF"@[0]);
}

/// There is always something to ask an X11 clipboard for, at most
/// `MAX_MIME_TYPES` targets, and never a meta atom.
pub proof fn law_x11_requests<
    I: Fn(&str, bool) -> Option<u32>,
    L: Fn(X11Target) -> Option<Vec<u8>>,
    N: Fn(u32) -> Option<String>,
>(intern: I, load: L, name_of: N, trace: TargetsTrace)
    requires
        discovery_run(intern, load, name_of, trace),
    ensures
        0 < x11_request_list(discovered_targets(trace)).len() <= MAX_MIME_TYPES,
        forall|i: int|
            0 <= i < x11_request_list(discovered_targets(trace)).len() ==> !mime::is_x11_meta(
                #[trigger] x11_request_list(discovered_targets(trace))[i],
            ),
{
    law_discovered_targets_are_content(intern, load, name_of, trace);
    let requests = x11_request_list(discovered_targets(trace));
    assert forall|i: int| 0 <= i < requests.len() implies !mime::is_x11_meta(
        #[trigger] requests[i],
    ) by {
        if discovered_targets(trace).len() == 0 {
            lemma_probe_targets_are_content(i);
        }
    }
}

proof fn lemma_probe_targets_differ()
    ensures
        mime::str_views(X11_PROBE_TARGETS@).no_duplicates(),
{
    let list = mime::str_views(X11_PROBE_TARGETS@);
    reveal_strlit("image/png");
    reveal_strlit("image/jpeg");
    reveal_strlit("text/html");
    reveal_strlit("text/uri-list");
    reveal_strlit("UTF8_STRING");
    reveal_strlit("STRING");
    reveal_strlit("TEXT");
    assert forall|i: int, j: int| 0 <= i < j < list.len() implies list[i] != list[j] by {
        assert(list[i].len() != list[j].len() || list[i][0] != list[j][0]);
    }
}

/// The payload of an X11 read is ordered from highest to lowest priority,
/// whatever the display answered.
pub proof fn law_x11_payload_is_ordered(trace: TargetsTrace, replies: Seq<Option<Seq<u8>>>)
    requires
        replies.len() <= x11_request_list(discovered_targets(trace)).len(),
    ensures
        fetch::in_priority_order(
            fetch::types_of(
                fetch::collected(x11_request_list(discovered_targets(trace)), replies),
            ),
            mime::str_views(X11_PROBE_TARGETS@),
        ),
{
    let list = mime::str_views(X11_PROBE_TARGETS@);
    let requests = x11_request_list(discovered_targets(trace));
    if discovered_targets(trace).len() == 0 {
        lemma_probe_targets_differ();
        assert forall|i: int, j: int| 0 <= i < j < requests.len() implies mime::priority(
            #[trigger] requests[i],
            list,
        ) <= mime::priority(#[trigger] requests[j], list) by {
            mime::lemma_own_priority(list, i);
            mime::lemma_own_priority(list, j);
        }
    } else {
        mime::law_priority_sort_orders(content_names(trace.names), list);
    }
    fetch::law_entries_keep_priority_order(requests, replies, list);
}

/// A payload that is not empty and has text is always stored, whatever the
/// display answers.
pub proof fn law_text_is_always_stored(entries: Seq<data::EntryView>, interned: Option<u32>)
    requires
        entries.len() > 0,
        data::text_of(entries) is Some,
    ensures
        store_plan_of(entries, interned) is Store,
{
}

/// What the text backend is given for a payload reads back as a payload with
/// the same text.
pub proof fn law_text_backend_reads_back(entries: Seq<data::EntryView>)
    ensures
        data::text_of(clipboard::plain_payload(Some(clipboard::text_or_empty(entries))))
            == data::text_of(entries),
{
    let t = clipboard::text_or_empty(entries);
    match data::text_of(entries) {
        Some(s) => {
            laws::law_text_is_stripped(entries);
            laws::law_text_reads_back(s);
        },
        None => {
            laws::law_empty_payload_has_no_text();
        },
    }
}

/// A text payload is stored as UTF-8 text whatever the display answers, and
/// what is then read back counts as unchanged.
pub proof fn law_stored_text_echo_is_unchanged(s: Seq<char>, interned: Option<u32>)
    ensures
        store_plan_of(data::text_payload(s), interned) == (StorePlanView::Store {
            target: X11Target::Utf8String,
            data: encode_utf8(s),
        }),
        data::same_meaning(
            seq![data::EntryView { mime_type: "UTF8_STRING"@, data: encode_utf8(s) }],
            data::text_payload(s),
        ),
{
    let payload = data::text_payload(s);
    let f = |e: data::EntryView|
        if mime::is_x11_text_atom(e.mime_type) {
            None
        } else {
            Some(e)
        };
    reveal_strlit("text/plain;charset=utf-8");
    reveal_strlit("text/plain");
    reveal_strlit("UTF8_STRING");
    reveal_strlit("STRING");
    reveal_strlit("TEXT");
    reveal_strlit("COMPOUND_TEXT");
    assert(payload[0].mime_type[0] == 't');
    assert("COMPOUND_TEXT"@[0] == 'C');
    data::lemma_first_some(payload, f, 0);
    let echo = seq![data::EntryView { mime_type: "UTF8_STRING"@, data: encode_utf8(s) }];
    laws::law_single_text_entry(echo[0]);
    laws::law_text_reads_back(s);
    encode_utf8_valid_utf8(s);
    encode_utf8_decode_utf8(s);
}

/// A payload that starts with a binary entry is stored as that entry when the
/// display knows its type, and what is then read back counts as unchanged.
pub proof fn law_stored_binary_echo_is_unchanged(entries: Seq<data::EntryView>, atom: u32)
    requires
        entries.len() > 0,
        !mime::is_text(entries[0].mime_type),
        atom != 0,
    ensures
        store_plan_of(entries, Some(atom)) == (StorePlanView::Store {
            target: X11Target::Interned(atom),
            data: entries[0].data,
        }),
        data::same_meaning(seq![entries[0]], entries),
{
    let f = |e: data::EntryView|
        if mime::is_x11_text_atom(e.mime_type) {
            None
        } else {
            Some(e)
        };
    data::lemma_first_some(entries, f, 0);
    let name = entries[0].mime_type;
    if wayland::is_plain_text(name) {
        reveal_strlit("text/");
        reveal_strlit("text/plain");
        reveal_strlit("text/plain;charset=utf-8");
        assert("text/"@.is_prefix_of(name));
    }
    laws::law_first_entry_echo_is_unchanged(entries);
}

/// A reply names an atom exactly when it holds a number other than zero.
pub proof fn law_zero_is_no_atom(reply: Option<u32>)
    ensures
        nonzero(reply) is Some <==> reply is Some && reply->0 != 0,
        nonzero(reply) matches Some(a) ==> reply == Some(a),
{
}

/// The atoms in a reply are all its words but the zeros, in order.
pub proof fn law_atoms_are_the_nonzero_words(order: ByteOrder, bytes: Seq<u8>)
    ensures
        target_atoms(order, bytes) == selection::positions(
            bytes.len() as int / 4,
            |i: int| words::words_of(order, bytes)[i] != 0,
        ).map_values(|i: int| words::words_of(order, bytes)[i]),
{
    let all = words::words_of(order, bytes);
    let n = all.len() as int;
    lemma_nonzero_positions(all, n);
    assert(all.take(n) =~= all);
}

proof fn lemma_nonzero_positions(all: Seq<u32>, n: int)
    requires
        0 <= n <= all.len(),
    ensures
        all.take(n).filter(|a: u32| a != 0) == selection::positions(
            n,
            |i: int| all[i] != 0,
        ).map_values(|i: int| all[i]),
    decreases n,
{
    let p = |i: int| all[i] != 0;
    let q = |a: u32| a != 0;
    let f = |i: int| all[i];
    if n == 0 {
        selection::lemma_positions_push(0, p);
        mime::lemma_filter_none(all.take(0), q);
        assert(all.take(0).filter(q) =~= selection::positions(0, p).map_values(f));
    } else {
        lemma_nonzero_positions(all, n - 1);
        selection::lemma_positions_push(n - 1, p);
        mime::lemma_filter_push(all.take(n - 1), all[n - 1], q);
        assert(all.take(n) =~= all.take(n - 1).push(all[n - 1]));
        assert(all.take(n).filter(q) =~= selection::positions(n, p).map_values(f));
    }
}

/// The content names are all the names that are there, but those of meta
/// targets, in order.
pub proof fn law_content_names_are_all_but_meta(names: Seq<Option<String>>)
    ensures
        content_names(names) == selection::positions(
            names.len() as int,
            |i: int| names[i] is Some && !mime::is_x11_meta(names[i]->0@),
        ).map_values(|i: int| names[i]->0@),
    decreases names.len(),
{
    let n = names.len() as int;
    let p = |i: int| names[i] is Some && !mime::is_x11_meta(names[i]->0@);
    let f = |i: int| names[i]->0@;
    if n == 0 {
        selection::lemma_positions_push(0, p);
        assert(content_names(names) =~= selection::positions(0, p).map_values(f));
    } else {
        let init = names.drop_last();
        let q = |i: int| init[i] is Some && !mime::is_x11_meta(init[i]->0@);
        let g = |i: int| init[i]->0@;
        law_content_names_are_all_but_meta(init);
        selection::lemma_positions_agree(n - 1, p, q);
        selection::lemma_positions_push(n - 1, p);
        selection::lemma_positions(n - 1, p);
        let before = selection::positions(n - 1, p);
        assert(before.map_values(f) =~= before.map_values(g));
        assert(content_names(names) =~= selection::positions(n, p).map_values(f));
    }
}

/// Targets are discovered by interning `TARGETS`, loading it and looking up the
/// names of its atoms, in the byte order of the machine, one after the other: all
/// of them unless sixty-four content names are found before.
pub proof fn law_how_targets_are_discovered<
    I: Fn(&str, bool) -> Option<u32>,
    L: Fn(X11Target) -> Option<Vec<u8>>,
    N: Fn(u32) -> Option<String>,
>(intern: I, load: L, name_of: N, trace: TargetsTrace)
    requires
        discovery_run(intern, load, name_of, trace),
    ensures
        words::is_native(trace.order),
        exists|s: &str|
            s@ == "TARGETS"@ && #[trigger] call_ensures(intern, (s, false), trace.interned),
        trace.interned matches Some(a) ==> (a != 0 ==> call_ensures(
            load,
            (X11Target::Interned(a),),
            trace.loaded,
        )),
        trace.interned is Some && trace.interned->0 != 0 && trace.loaded is Some
            && trace.loaded->0@.len() >= 4 ==> {
            let atoms = target_atoms(trace.order, trace.loaded->0@);
            &&& forall|k: int|
                0 <= k < trace.names.len() ==> call_ensures(
                    name_of,
                    (atoms[k],),
                    #[trigger] trace.names[k],
                )
            &&& trace.names.len() == atoms.len() || (trace.names.len() < atoms.len()
                && content_names(trace.names).len() == 64)
            &&& content_names(trace.names).len() <= 64
        },
{
    assert(can_intern(intern, "TARGETS"@, false, trace.interned));
    if trace.names.len() > 0 {
        assert(content_names(trace.names).len() <= content_names(trace.names.drop_last()).len() + 1);
    }
}

/// The discovered targets are all the content names, as often as they were
/// found: those of the probe list first, in its order, the others behind them in
/// the order of the reply.
pub proof fn law_every_content_name_is_discovered(trace: TargetsTrace)
    ensures
        ({
            let list = seq![
                "image/png"@,
                "image/jpeg"@,
                "text/html"@,
                "text/uri-list"@,
                "UTF8_STRING"@,
                "STRING"@,
                "TEXT"@,
            ];
            let found = discovered_targets(trace);
            let names = content_names(trace.names);
            let answered = trace.interned is Some && trace.interned->0 != 0 && trace.loaded is Some
                && trace.loaded->0@.len() >= 4;
            &&& answered ==> found.to_multiset() == names.to_multiset()
            &&& answered ==> found.filter(|m: Seq<char>| !list.contains(m)) == names.filter(
                |m: Seq<char>| !list.contains(m),
            )
            &&& answered ==> forall|i: int, j: int|
                0 <= i < j < found.len() ==> mime::priority(#[trigger] found[i], list)
                    <= mime::priority(#[trigger] found[j], list)
            &&& !answered ==> found.len() == 0
            &&& found.len() > 0 ==> x11_request_list(found) == found
            &&& found.len() == 0 ==> x11_request_list(found) == list
        }),
{
    let list = mime::str_views(X11_PROBE_TARGETS@);
    let names = content_names(trace.names);
    mime::law_probe_lists();
    mime::law_priority_sort_permutes(names, list);
    mime::law_priority_sort_orders(names, list);
    mime::law_unlisted_names_keep_their_order(names, list);
}

/// `UTF8_STRING` is read through the built-in atom of UTF-8 text, `STRING` and
/// `TEXT` through that of Latin-1 text, any other name through the atom that the
/// display has for it; without one it is not read.
pub proof fn law_how_a_name_is_answered<
    I: Fn(&str, bool) -> Option<u32>,
    L: Fn(X11Target) -> Option<Vec<u8>>,
>(intern: I, load: L, name: Seq<char>, reply: Option<Seq<u8>>)
    requires
        can_answer(intern, load, name, reply),
    ensures
        name == "UTF8_STRING"@ ==> exists|r: Option<Vec<u8>>| #[trigger]
            call_ensures(load, (X11Target::Utf8String,), r) && reply == fetch::reply_view(r),
        name == "STRING"@ || name == "TEXT"@ ==> exists|r: Option<Vec<u8>>| #[trigger]
            call_ensures(load, (X11Target::Latin1String,), r) && reply == fetch::reply_view(r),
        name != "UTF8_STRING"@ && name != "STRING"@ && name != "TEXT"@ ==> exists|
            s: &str,
            interned: Option<u32>,
        |
            s@ == name && #[trigger] call_ensures(intern, (s, true), interned) && if interned is Some
                && interned->0 != 0 {
                exists|r: Option<Vec<u8>>| #[trigger]
                    call_ensures(load, (X11Target::Interned(interned->0),), r) && reply
                        == fetch::reply_view(r)
            } else {
                reply is None
            },
{
    reveal_strlit("UTF8_STRING");
    reveal_strlit("STRING");
    reveal_strlit("TEXT");
    assert("UTF8_STRING"@.len() == 11 && "STRING"@.len() == 6 && "TEXT"@.len() == 4);
    let interned = choose|interned: Option<u32>| #[trigger]
        interned_for(intern, name, interned) && match target_for(name, interned) {
            Some(t) => can_load(load, t, reply),
            None => reply is None,
        };
    if name == "UTF8_STRING"@ {
        assert(can_load(load, X11Target::Utf8String, reply));
    } else if name == "STRING"@ || name == "TEXT"@ {
        assert(can_load(load, X11Target::Latin1String, reply));
    } else {
        assert(can_intern(intern, name, true, interned));
        if interned is Some && interned->0 != 0 {
            assert(can_load(load, X11Target::Interned(interned->0), reply));
        }
    }
}

/// What a reply is, byte for byte.
pub proof fn law_reply_is_kept_whole(r: Option<Vec<u8>>)
    ensures
        fetch::reply_view(r) is Some <==> r is Some,
        fetch::reply_view(r) matches Some(bytes) ==> bytes == r->0@,
{
}

/// A read asks for every target, in order, and holds all that was answered,
/// under the name asked for.
pub proof fn law_x11_read_holds_all_answered<
    I: Fn(&str, bool) -> Option<u32>,
    L: Fn(X11Target) -> Option<Vec<u8>>,
    N: Fn(u32) -> Option<String>,
>(
    intern: I,
    load: L,
    name_of: N,
    trace: TargetsTrace,
    replies: Seq<Option<Seq<u8>>>,
    payload: Seq<data::EntryView>,
)
    requires
        x11_read(intern, load, name_of, trace, replies, payload),
    ensures
        ({
            let requests = x11_request_list(discovered_targets(trace));
            &&& discovery_run(intern, load, name_of, trace)
            &&& replies.len() == requests.len()
            &&& forall|k: int|
                0 <= k < replies.len() ==> can_answer(
                    intern,
                    load,
                    requests[k],
                    #[trigger] replies[k],
                )
            &&& payload == selection::positions(
                replies.len() as int,
                |i: int| replies[i] is Some && replies[i]->0.len() > 0,
            ).map_values(
                |i: int| data::EntryView { mime_type: requests[i], data: replies[i]->0 },
            )
        }),
{
    fetch::law_one_entry_per_reply(x11_request_list(discovered_targets(trace)), replies);
}

/// What is stored of a payload. The entry at position `i` is the first that is
/// not of an X11 text type, or the first of all when all are. Plain text and the
/// three built-in names go under the built-in atoms; any other type, text types
/// such as `text/html` included, goes under the atom that the display has for
/// it. In each case all the bytes of that entry are stored. Only a type that the
/// display has no atom for is replaced by the text of the payload.
pub proof fn law_what_is_stored(entries: Seq<data::EntryView>, i: int, interned: Option<u32>)
    requires
        0 <= i < entries.len(),
        ({
            let atoms = seq!["UTF8_STRING"@, "STRING"@, "TEXT"@, "COMPOUND_TEXT"@];
            ||| !atoms.contains(entries[i].mime_type) && forall|j: int|
                0 <= j < i ==> atoms.contains((#[trigger] entries[j]).mime_type)
            ||| i == 0 && forall|j: int|
                0 <= j < entries.len() ==> atoms.contains((#[trigger] entries[j]).mime_type)
        }),
    ensures
        ({
            let m = entries[i].mime_type;
            let utf8 = m == "UTF8_STRING"@ || m == "text/plain"@ || m
                == "text/plain;charset=utf-8"@;
            let latin = m == "STRING"@ || m == "TEXT"@;
            let plan = store_plan_of(entries, interned);
            &&& utf8 ==> plan == (StorePlanView::Store {
                target: X11Target::Utf8String,
                data: entries[i].data,
            })
            &&& latin ==> plan == (StorePlanView::Store {
                target: X11Target::Latin1String,
                data: entries[i].data,
            })
            &&& !utf8 && !latin && interned is Some && interned->0 != 0 ==> plan == (
            StorePlanView::Store {
                target: X11Target::Interned(interned->0),
                data: entries[i].data,
            })
            &&& !utf8 && !latin && (interned is None || interned->0 == 0) ==> plan
                == match data::text_of(entries) {
                Some(t) => StorePlanView::Store {
                    target: X11Target::Utf8String,
                    data: encode_utf8(t),
                },
                None => StorePlanView::Nothing,
            }
        }),
{
    let atoms = seq!["UTF8_STRING"@, "STRING"@, "TEXT"@, "COMPOUND_TEXT"@];
    if !atoms.contains(entries[i].mime_type) {
        laws::law_entry_that_stands_for_all(entries, i);
    } else {
        laws::law_entry_that_stands_for_all(entries, entries.len() as int);
    }
    assert(data::native_or_first(entries) == Some(entries[i]));
    reveal_strlit("UTF8_STRING");
    reveal_strlit("STRING");
    reveal_strlit("TEXT");
    reveal_strlit("text/plain");
    reveal_strlit("text/plain;charset=utf-8");
    assert("UTF8_STRING"@.len() == 11 && "STRING"@.len() == 6 && "TEXT"@.len() == 4
        && "text/plain"@.len() == 10 && "text/plain;charset=utf-8"@.len() == 24);
}

/// Nothing is stored of an empty payload.
pub proof fn law_nothing_is_stored_of_nothing(interned: Option<u32>)
    ensures
        store_plan_of(Seq::empty(), interned) == StorePlanView::Nothing,
{
    laws::law_entry_that_stands_for_all(Seq::empty(), 0);
}

/// The display is asked for the type of the entry that is stored, by its name,
/// and not to make a new atom.
pub proof fn law_which_atom_is_asked_for<I: Fn(&str, bool) -> Option<u32>>(
    intern: I,
    entries: Seq<data::EntryView>,
    interned: Option<u32>,
    i: int,
)
    requires
        intern_asked(intern, entries, interned),
        0 <= i < entries.len(),
        !seq!["UTF8_STRING"@, "STRING"@, "TEXT"@, "COMPOUND_TEXT"@].contains(entries[i].mime_type),
        forall|j: int|
            0 <= j < i ==> seq!["UTF8_STRING"@, "STRING"@, "TEXT"@, "COMPOUND_TEXT"@].contains(
                (#[trigger] entries[j]).mime_type,
            ),
        entries[i].mime_type != "text/plain"@,
        entries[i].mime_type != "text/plain;charset=utf-8"@,
    ensures
        exists|s: &str|
            s@ == entries[i].mime_type && #[trigger] call_ensures(intern, (s, true), interned),
{
    let atoms = seq!["UTF8_STRING"@, "STRING"@, "TEXT"@, "COMPOUND_TEXT"@];
    assert(atoms[0] == "UTF8_STRING"@ && atoms[1] == "STRING"@ && atoms[2] == "TEXT"@);
    laws::law_entry_that_stands_for_all(entries, i);
    assert(atoms.contains("UTF8_STRING"@) && atoms.contains("STRING"@) && atoms.contains("TEXT"@));
    assert(can_intern(intern, entries[i].mime_type, true, interned));
}

/// Carrying out a plan hands on the target and all the bytes.
pub proof fn law_plan_is_stored_whole<S: Fn(X11Target, Vec<u8>) -> MyResult<()>>(
    store: S,
    target: X11Target,
    data: Seq<u8>,
    r: MyResult<()>,
)
    requires
        can_store(store, StorePlanView::Store { target, data }, r),
    ensures
        exists|bytes: Vec<u8>|
            bytes@ == data && #[trigger] call_ensures(store, (target, bytes), r),
{
}

/// What `store_target` returns: the built-in atoms are for plain text and their
/// own names, and every other type has none.
pub proof fn law_built_in_targets(name: &str, r: Option<X11Target>)
    requires
        call_ensures(store_target, (name,), r),
    ensures
        r == Some(X11Target::Utf8String) <==> name@ == "UTF8_STRING"@ || name@ == "text/plain"@
            || name@ == "text/plain;charset=utf-8"@,
        r == Some(X11Target::Latin1String) <==> name@ == "STRING"@ || name@ == "TEXT"@,
        r is None || r == Some(X11Target::Utf8String) || r == Some(X11Target::Latin1String),
{
    reveal_strlit("UTF8_STRING");
    reveal_strlit("STRING");
    reveal_strlit("TEXT");
    reveal_strlit("text/plain");
    reveal_strlit("text/plain;charset=utf-8");
    assert("UTF8_STRING"@.len() == 11 && "STRING"@.len() == 6 && "TEXT"@.len() == 4
        && "text/plain"@.len() == 10 && "text/plain;charset=utf-8"@.len() == 24);
}

/// What `store_plan` returns for a payload whose chosen entry, the first that is
/// not of an X11 text type, is not plain text either: that entry, whole, under
/// the atom that the display gave for its type, if it gave one that is not zero.
pub proof fn law_storing_under_an_atom_of_the_display<I: Fn(&str, bool) -> Option<u32>>(
    clipboard: X11ClipboardDirect,
    payload: ClipboardData,
    intern: I,
    i: int,
    atom: u32,
    plan: StorePlan,
)
    requires
        call_ensures(X11ClipboardDirect::store_plan::<I>, (&clipboard, &payload, intern), plan),
        0 <= i < payload@.len(),
        !seq!["UTF8_STRING"@, "STRING"@, "TEXT"@, "COMPOUND_TEXT"@].contains(
            payload@[i].mime_type,
        ),
        forall|j: int|
            0 <= j < i ==> seq!["UTF8_STRING"@, "STRING"@, "TEXT"@, "COMPOUND_TEXT"@].contains(
                (#[trigger] payload@[j]).mime_type,
            ),
        payload@[i].mime_type != "text/plain"@,
        payload@[i].mime_type != "text/plain;charset=utf-8"@,
        atom != 0,
        forall|s: &str, r: Option<u32>|
            s@ == payload@[i].mime_type && #[trigger] call_ensures(intern, (s, true), r) ==> r
                == Some(atom),
    ensures
        plan@ == (StorePlanView::Store {
            target: X11Target::Interned(atom),
            data: payload@[i].data,
        }),
{
    let interned = choose|interned: Option<u32>|
        intern_asked(intern, payload@, interned) && plan@ == #[trigger] store_plan_of(
            payload@,
            interned,
        );
    law_which_atom_is_asked_for(intern, payload@, interned, i);
    law_what_is_stored(payload@, i, interned);
    let atoms = seq!["UTF8_STRING"@, "STRING"@, "TEXT"@, "COMPOUND_TEXT"@];
    assert(atoms[0] == "UTF8_STRING"@ && atoms[1] == "STRING"@ && atoms[2] == "TEXT"@);
    assert(atoms.contains("UTF8_STRING"@) && atoms.contains("STRING"@) && atoms.contains("TEXT"@));
}

} // verus!
