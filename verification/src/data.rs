//! The multi-MIME clipboard payload.
use vstd::prelude::*;
use vstd::slice::*;
use vstd::string::*;
use vstd::utf8::*;

use crate::decode::from_utf8;
use crate::mime;
use crate::mime::{is_text_mime, is_x11_text_target};
use crate::text;
use crate::text::{bytes_eq, str_eq, trim_end_nuls};

verus! {

/// A single MIME-typed chunk of clipboard data.
#[derive(Debug)]
pub struct MimeEntry {
    pub mime_type: String,
    pub data: Vec<u8>,
}

/// The full contents of a clipboard selection, possibly spanning several MIME
/// types (e.g. `text/html` + `text/plain` + `image/png` simultaneously).
#[derive(Debug)]
pub struct ClipboardData {
    /// Entries ordered from highest to lowest priority.
    pub entries: Vec<MimeEntry>,
}

/// What an entry holds.
#[verifier::ext_equal]
pub struct EntryView {
    pub mime_type: Seq<char>,
    pub data: Seq<u8>,
}

impl View for MimeEntry {
    type V = EntryView;

    open spec fn view(&self) -> EntryView {
        EntryView { mime_type: self.mime_type@, data: self.data@ }
    }
}

impl View for ClipboardData {
    type V = Seq<EntryView>;

    open spec fn view(&self) -> Seq<EntryView> {
        self.entries@.map_values(|e: MimeEntry| e@)
    }
}

// ---------------------------------------------------------------------------
// What a payload means
// ---------------------------------------------------------------------------

/// The first element of `s` on which `f` gives something, through `f`.
pub open spec fn first_some<A, B>(s: Seq<A>, f: spec_fn(A) -> Option<B>) -> Option<B>
    decreases s.len(),
{
    if s.len() == 0 {
        None
    } else {
        match f(s[0]) {
            Some(b) => Some(b),
            None => first_some(s.drop_first(), f),
        }
    }
}

/// The bytes of the first entry of the given type.
pub open spec fn bytes_for(entries: Seq<EntryView>, mime_type: Seq<char>) -> Option<Seq<u8>> {
    first_some(
        entries,
        |e: EntryView|
            if e.mime_type == mime_type {
                Some(e.data)
            } else {
                None
            },
    )
}

/// The text in `bytes`: what they decode to, without NULs at the end, when
/// they are valid UTF-8 and something remains.
pub open spec fn usable_text(bytes: Seq<u8>) -> Option<Seq<char>> {
    if valid_utf8(bytes) {
        let s = text::without_trailing_nuls(decode_utf8(bytes));
        if s.len() > 0 {
            Some(s)
        } else {
            None
        }
    } else {
        None
    }
}

/// The types whose text is preferred, best first.
pub open spec fn preferred_text_types() -> Seq<Seq<char>> {
    seq![
        "text/plain;charset=utf-8"@,
        "text/plain"@,
        "UTF8_STRING"@,
        "STRING"@,
        "TEXT"@,
    ]
}

/// The usable text of the first entry of the given type.
pub open spec fn text_under(entries: Seq<EntryView>, mime_type: Seq<char>) -> Option<Seq<char>> {
    match bytes_for(entries, mime_type) {
        Some(bytes) => usable_text(bytes),
        None => None,
    }
}

/// The usable text of an entry of a text type.
pub open spec fn entry_text(e: EntryView) -> Option<Seq<char>> {
    if mime::is_text(e.mime_type) {
        usable_text(e.data)
    } else {
        None
    }
}

/// The text of a payload: that of the best preferred type that has usable
/// text, or else that of the first text entry that has.
pub open spec fn text_of(entries: Seq<EntryView>) -> Option<Seq<char>> {
    match first_some(preferred_text_types(), |m: Seq<char>| text_under(entries, m)) {
        Some(s) => Some(s),
        None => first_some(entries, |e: EntryView| entry_text(e)),
    }
}

/// Whether some entry is not of a text type.
pub open spec fn holds_binary(entries: Seq<EntryView>) -> bool {
    exists|i: int| 0 <= i < entries.len() && !mime::is_text(#[trigger] entries[i].mime_type)
}

/// The bytes of the first entry.
pub open spec fn canonical_bytes(entries: Seq<EntryView>) -> Option<Seq<u8>> {
    if entries.len() == 0 {
        None
    } else {
        Some(entries[0].data)
    }
}

/// Whether `new` counts as the content that `previous` was. The text decides
/// when `new` is text-only; otherwise both must hold binary data and agree in
/// the bytes of their first entries.
pub open spec fn same_meaning(new: Seq<EntryView>, previous: Seq<EntryView>) -> bool {
    if holds_binary(new) {
        holds_binary(previous) && canonical_bytes(new) == canonical_bytes(previous)
    } else {
        text_of(new) == text_of(previous)
    }
}

/// The payload that offers the text `s`, encoded as UTF-8, under all common
/// text types.
pub open spec fn text_payload(s: Seq<char>) -> Seq<EntryView> {
    let data = encode_utf8(s);
    seq![
        EntryView { mime_type: "text/plain;charset=utf-8"@, data },
        EntryView { mime_type: "text/plain"@, data },
        EntryView { mime_type: "UTF8_STRING"@, data },
        EntryView { mime_type: "STRING"@, data },
    ]
}

/// The first entry that is not of an X11-only text type, or else the first.
pub open spec fn native_or_first(entries: Seq<EntryView>) -> Option<EntryView> {
    match first_some(
        entries,
        |e: EntryView|
            if mime::is_x11_text_atom(e.mime_type) {
                None
            } else {
                Some(e)
            },
    ) {
        Some(e) => Some(e),
        None => if entries.len() == 0 {
            None
        } else {
            Some(entries[0])
        },
    }
}

/// Whether an entry of the given type is there.
pub open spec fn has_type(entries: Seq<EntryView>, mime_type: Seq<char>) -> bool {
    exists|i: int| 0 <= i < entries.len() && #[trigger] entries[i].mime_type == mime_type
}

/// Whether an entry with the given bytes is there.
pub open spec fn has_content(entries: Seq<EntryView>, data: Seq<u8>) -> bool {
    exists|i: int| 0 <= i < entries.len() && #[trigger] entries[i].data == data
}

/// `entries`, then each entry of `more` whose type is not there yet.
pub open spec fn merged(entries: Seq<EntryView>, more: Seq<EntryView>) -> Seq<EntryView>
    decreases more.len(),
{
    if more.len() == 0 {
        entries
    } else {
        let so_far = merged(entries, more.drop_last());
        if has_type(so_far, more.last().mime_type) {
            so_far
        } else {
            so_far.push(more.last())
        }
    }
}

/// The entries whose bytes no earlier entry has.
pub open spec fn distinct_contents(entries: Seq<EntryView>) -> Seq<EntryView>
    decreases entries.len(),
{
    if entries.len() == 0 {
        entries
    } else {
        let earlier = entries.drop_last();
        if has_content(earlier, entries.last().data) {
            distinct_contents(earlier)
        } else {
            distinct_contents(earlier).push(entries.last())
        }
    }
}

// ---------------------------------------------------------------------------
// Standard traits
// ---------------------------------------------------------------------------

impl Clone for MimeEntry {
    fn clone(&self) -> (r: Self)
        ensures
            r@ == self@,
    {
        let data = self.data.clone();
        assert(data@ =~= self.data@);
        MimeEntry { mime_type: self.mime_type.clone(), data }
    }
}

impl Clone for ClipboardData {
    fn clone(&self) -> (r: Self)
        ensures
            r@ == self@,
    {
        let mut entries: Vec<MimeEntry> = Vec::new();
        let mut i: usize = 0;
        while i < self.entries.len()
            invariant
                i <= self.entries.len(),
                entries.len() == i,
                forall|j: int| 0 <= j < i ==> #[trigger] entries@[j]@ == self.entries@[j]@,
            decreases self.entries.len() - i,
        {
            entries.push(self.entries[i].clone());
            i += 1;
        }
        let r = ClipboardData { entries };
        assert(r@ =~= self@);
        r
    }
}

impl Default for ClipboardData {
    fn default() -> (r: Self)
        ensures
            r@ == Seq::<EntryView>::empty(),
    {
        let r = ClipboardData { entries: Vec::new() };
        assert(r@ =~= Seq::<EntryView>::empty());
        r
    }
}

impl PartialEq for MimeEntry {
    fn eq(&self, other: &Self) -> (r: bool) {
        let r = str_eq(self.mime_type.as_str(), other.mime_type.as_str()) && bytes_eq(
            self.data.as_slice(),
            other.data.as_slice(),
        );
        r
    }
}

impl vstd::std_specs::cmp::PartialEqSpecImpl for MimeEntry {
    open spec fn obeys_eq_spec() -> bool {
        true
    }

    open spec fn eq_spec(&self, other: &Self) -> bool {
        self@ == other@
    }
}

impl Eq for MimeEntry {

}

impl PartialEq for ClipboardData {
    fn eq(&self, other: &Self) -> (r: bool) {
        if self.entries.len() != other.entries.len() {
            assert(self@.len() != other@.len());
            return false;
        }
        let mut i: usize = 0;
        while i < self.entries.len()
            invariant
                i <= self.entries.len() == other.entries.len(),
                forall|j: int| 0 <= j < i ==> #[trigger] self@[j] == other@[j],
            decreases self.entries.len() - i,
        {
            let same = self.entries[i] == other.entries[i];
            assert(self@[i as int] == self.entries@[i as int]@);
            assert(other@[i as int] == other.entries@[i as int]@);
            if !same {
                return false;
            }
            i += 1;
        }
        assert(self@ =~= other@);
        true
    }
}

impl vstd::std_specs::cmp::PartialEqSpecImpl for ClipboardData {
    open spec fn obeys_eq_spec() -> bool {
        true
    }

    open spec fn eq_spec(&self, other: &Self) -> bool {
        self@ == other@
    }
}

impl Eq for ClipboardData {

}

// ---------------------------------------------------------------------------
// Operations
// ---------------------------------------------------------------------------

/// What the first element with a value settles.
pub proof fn lemma_first_some<A, B>(s: Seq<A>, f: spec_fn(A) -> Option<B>, k: int)
    requires
        0 <= k <= s.len(),
        forall|i: int| 0 <= i < k ==> f(#[trigger] s[i]) is None,
        k == s.len() || f(s[k]) is Some,
    ensures
        first_some(s, f) == if k == s.len() {
            None
        } else {
            f(s[k])
        },
    decreases s.len(),
{
    if k > 0 {
        let rest = s.drop_first();
        assert forall|i: int| 0 <= i < k - 1 implies f(#[trigger] rest[i]) is None by {
            assert(rest[i] == s[i + 1]);
        }
        lemma_first_some(rest, f, k - 1);
    }
}

/// What one more element changes.
pub proof fn lemma_first_some_push<A, B>(s: Seq<A>, x: A, f: spec_fn(A) -> Option<B>)
    ensures
        first_some(s.push(x), f) == match first_some(s, f) {
            Some(b) => Some(b),
            None => f(x),
        },
    decreases s.len(),
{
    let more = s.push(x);
    if s.len() == 0 {
        assert(more.drop_first() =~= Seq::<A>::empty());
        assert(first_some(more.drop_first(), f) is None);
    } else {
        lemma_first_some_push(s.drop_first(), x, f);
        assert(more.drop_first() =~= s.drop_first().push(x));
    }
}

/// The usable text in a byte string.
fn decode_text(bytes: &[u8]) -> (r: Option<String>)
    ensures
        r is Some <==> usable_text(bytes@) is Some,
        r matches Some(s) ==> usable_text(bytes@) == Some(s@),
{
    match from_utf8(bytes) {
        Some(s) => {
            let t = trim_end_nuls(s);
            if t.as_str().is_empty() {
                None
            } else {
                Some(t)
            }
        },
        None => None,
    }
}

impl ClipboardData {
    pub fn empty() -> (r: Self)
        ensures
            r@ == Seq::<EntryView>::empty(),
    {
        Self::default()
    }

    pub fn is_empty(&self) -> (r: bool)
        ensures
            r == (self@.len() == 0),
    {
        self.entries.is_empty()
    }

    /// Construct a plain-text payload offered under all common text targets.
    pub fn from_text(s: &str) -> (r: Self)
        ensures
            r@ == text_payload(s@),
    {
        let bytes = slice_to_vec(s.as_bytes());
        let e0 = MimeEntry { mime_type: "text/plain;charset=utf-8".to_owned(), data: bytes.clone() };
        let e1 = MimeEntry { mime_type: "text/plain".to_owned(), data: bytes.clone() };
        let e2 = MimeEntry { mime_type: "UTF8_STRING".to_owned(), data: bytes.clone() };
        let e3 = MimeEntry { mime_type: "STRING".to_owned(), data: bytes };
        assert(e0.data@ =~= e3.data@);
        assert(e1.data@ =~= e3.data@);
        assert(e2.data@ =~= e3.data@);
        let r = Self { entries: vec![e0, e1, e2, e3] };
        assert(r@ =~= text_payload(s@));
        r
    }

    /// Retrieve raw bytes for a specific MIME type, if present.
    pub fn get_mime(&self, mime: &str) -> (r: Option<&[u8]>)
        ensures
            r is Some <==> bytes_for(self@, mime@) is Some,
            r matches Some(bytes) ==> bytes_for(self@, mime@) == Some(bytes@),
    {
        let ghost f = |e: EntryView|
            if e.mime_type == mime@ {
                Some(e.data)
            } else {
                None
            };
        let mut i: usize = 0;
        while i < self.entries.len()
            invariant
                i <= self.entries.len(),
                f == (|e: EntryView|
                    if e.mime_type == mime@ {
                        Some(e.data)
                    } else {
                        None
                    }),
                forall|j: int| 0 <= j < i ==> f(#[trigger] self@[j]) is None,
            decreases self.entries.len() - i,
        {
            assert(self@[i as int] == self.entries@[i as int]@);
            if str_eq(self.entries[i].mime_type.as_str(), mime) {
                proof {
                    lemma_first_some(self@, f, i as int);
                }
                return Some(self.entries[i].data.as_slice());
            }
            i += 1;
        }
        proof {
            lemma_first_some(self@, f, i as int);
        }
        None
    }

    /// The usable text of the first entry of the given type.
    fn text_of_type(&self, mime: &str) -> (r: Option<String>)
        ensures
            r is Some <==> text_under(self@, mime@) is Some,
            r matches Some(s) ==> text_under(self@, mime@) == Some(s@),
    {
        match self.get_mime(mime) {
            Some(bytes) => decode_text(bytes),
            None => None,
        }
    }

    /// Attempt to extract a UTF-8 string from any text entry, in priority order.
    pub fn text(&self) -> (r: Option<String>)
        ensures
            r is Some <==> text_of(self@) is Some,
            r matches Some(s) ==> text_of(self@) == Some(s@),
    {
        let preferred: [&str; 5] = [
            "text/plain;charset=utf-8",
            "text/plain",
            "UTF8_STRING",
            "STRING",
            "TEXT",
        ];
        let ghost names = preferred_text_types();
        let ghost f = |m: Seq<char>| text_under(self@, m);
        assert(preferred@.len() == 5);
        assert(forall|j: int| 0 <= j < 5 ==> #[trigger] preferred@[j]@ == names[j]);
        let mut k: usize = 0;
        while k < 5
            invariant
                k <= 5,
                preferred@.len() == 5,
                names == preferred_text_types(),
                f == (|m: Seq<char>| text_under(self@, m)),
                forall|j: int| 0 <= j < 5 ==> #[trigger] preferred@[j]@ == names[j],
                forall|j: int| 0 <= j < k ==> f(#[trigger] names[j]) is None,
            decreases 5 - k,
        {
            let found = self.text_of_type(preferred[k]);
            assert(preferred@[k as int]@ == names[k as int]);
            if found.is_some() {
                proof {
                    lemma_first_some(names, f, k as int);
                }
                return found;
            }
            k += 1;
        }
        proof {
            lemma_first_some(names, f, 5);
        }
        // Fall back to any remaining text/* entry
        let ghost g = |e: EntryView| entry_text(e);
        let mut i: usize = 0;
        while i < self.entries.len()
            invariant
                i <= self.entries.len(),
                g == (|e: EntryView| entry_text(e)),
                forall|j: int| 0 <= j < i ==> g(#[trigger] self@[j]) is None,
                first_some(preferred_text_types(), |m: Seq<char>| text_under(self@, m)) is None,
            decreases self.entries.len() - i,
        {
            assert(self@[i as int] == self.entries@[i as int]@);
            if is_text_mime(self.entries[i].mime_type.as_str()) {
                let found = decode_text(self.entries[i].data.as_slice());
                if found.is_some() {
                    proof {
                        lemma_first_some(self@, g, i as int);
                    }
                    return found;
                }
            }
            i += 1;
        }
        proof {
            lemma_first_some(self@, g, i as int);
        }
        None
    }

    /// The "canonical" bytes used for equality comparison and change detection.
    /// Returns the highest-priority entry (index 0).
    pub fn canonical(&self) -> (r: Option<(&str, &[u8])>)
        ensures
            r is Some <==> self@.len() > 0,
            r matches Some((mime, bytes)) ==> mime@ == self@[0].mime_type && bytes@ == self@[0].data,
    {
        if self.entries.is_empty() {
            None
        } else {
            let e = &self.entries[0];
            assert(self@[0] == e@);
            Some((e.mime_type.as_str(), e.data.as_slice()))
        }
    }

    /// Returns `true` if any entry in this clipboard has a non-text (binary) MIME type.
    pub fn has_binary(&self) -> (r: bool)
        ensures
            r == holds_binary(self@),
    {
        let mut i: usize = 0;
        while i < self.entries.len()
            invariant
                i <= self.entries.len(),
                forall|j: int| 0 <= j < i ==> mime::is_text(#[trigger] self@[j].mime_type),
            decreases self.entries.len() - i,
        {
            assert(self@[i as int] == self.entries@[i as int]@);
            if !is_text_mime(self.entries[i].mime_type.as_str()) {
                assert(!mime::is_text(self@[i as int].mime_type));
                return true;
            }
            i += 1;
        }
        false
    }

    /// Semantic equality: two clipboard payloads are considered the same if:
    /// - Neither has binary content and both decode to the same plain text, OR
    /// - Both have binary content and their canonical bytes are identical, OR
    /// - `self` is text-only while `other` had binary: this is a degraded echo
    ///   (X11 stores only the last `store()` call and loses earlier binary
    ///   MIME types), treated as unchanged when the text content matches.
    ///
    /// This handles the common case where wayland offers rich types (text/html,
    /// text/plain;charset=utf-8 ...) but X11 only stores UTF8_STRING/STRING.
    /// After propagation the echo from X11 compares different at the MIME level
    /// yet carries the exact same human-readable content.
    pub fn same_content(&self, other: &ClipboardData) -> (r: bool)
        ensures
            r == same_meaning(self@, other@),
    {
        if self.has_binary() {
            if !other.has_binary() {
                // Binary content was added: this is new, richer content.
                return false;
            }
            // Both sides have binary content: require matching canonical
            // (first-entry) bytes.
            match (self.canonical(), other.canonical()) {
                (Some((_, a)), Some((_, b))) => bytes_eq(a, b),
                (None, None) => true,
                _ => false,
            }
        } else {
            // Text-only: compare decoded strings, ignoring MIME-type name
            // differences between platforms (UTF8_STRING vs
            // text/plain;charset=utf-8 etc.).
            match (self.text(), other.text()) {
                (Some(a), Some(b)) => str_eq(a.as_str(), b.as_str()),
                (None, None) => true,
                _ => false,
            }
        }
    }

    /// The first entry that is not of an X11-only text type, or else the first.
    pub(crate) fn native_entry(&self) -> (r: Option<&MimeEntry>)
        ensures
            r is Some <==> native_or_first(self@) is Some,
            r matches Some(e) ==> native_or_first(self@) == Some(e@),
    {
        let ghost f = |e: EntryView|
            if mime::is_x11_text_atom(e.mime_type) {
                None
            } else {
                Some(e)
            };
        let mut i: usize = 0;
        while i < self.entries.len()
            invariant
                i <= self.entries.len(),
                f == (|e: EntryView|
                    if mime::is_x11_text_atom(e.mime_type) {
                        None
                    } else {
                        Some(e)
                    }),
                forall|j: int| 0 <= j < i ==> f(#[trigger] self@[j]) is None,
            decreases self.entries.len() - i,
        {
            let e = &self.entries[i];
            assert(self@[i as int] == e@);
            if !is_x11_text_target(e.mime_type.as_str()) {
                proof {
                    lemma_first_some(self@, f, i as int);
                }
                return Some(e);
            }
            i += 1;
        }
        proof {
            lemma_first_some(self@, f, i as int);
        }
        if self.entries.is_empty() {
            None
        } else {
            assert(self@[0] == self.entries@[0]@);
            Some(&self.entries[0])
        }
    }

    /// Whether an entry of the given type is there.
    fn contains_type(&self, mime: &str) -> (r: bool)
        ensures
            r == has_type(self@, mime@),
    {
        let mut i: usize = 0;
        while i < self.entries.len()
            invariant
                i <= self.entries.len(),
                forall|j: int| 0 <= j < i ==> #[trigger] self@[j].mime_type != mime@,
            decreases self.entries.len() - i,
        {
            assert(self@[i as int] == self.entries@[i as int]@);
            if str_eq(self.entries[i].mime_type.as_str(), mime) {
                assert(self@[i as int].mime_type == mime@);
                return true;
            }
            i += 1;
        }
        false
    }

    /// Add entries from `other` that are not already present in `self`.
    pub fn merge(&mut self, other: ClipboardData)
        ensures
            final(self)@ == merged(old(self)@, other@),
    {
        let ghost before = self@;
        let ghost more = other@;
        let rest = other.entries;
        assert(more.take(0) =~= Seq::<EntryView>::empty());
        let mut i: usize = 0;
        while i < rest.len()
            invariant
                i <= rest.len(),
                more == rest@.map_values(|e: MimeEntry| e@),
                self@ == merged(before, more.take(i as int)),
            decreases rest.len() - i,
        {
            let ghost so_far = self@;
            proof {
                let next = more.take(i + 1);
                assert(next.drop_last() =~= more.take(i as int));
                assert(next.last() == rest@[i as int]@);
            }
            if !self.contains_type(rest[i].mime_type.as_str()) {
                self.entries.push(rest[i].clone());
                assert(self@ =~= so_far.push(rest@[i as int]@));
            }
            i += 1;
        }
        assert(more.take(rest.len() as int) =~= more);
    }

    /// Remove entries with duplicate byte content, keeping the first occurrence.
    pub fn dedup_by_content(&mut self)
        ensures
            final(self)@ == distinct_contents(old(self)@),
    {
        let ghost before = self@;
        let mut kept = ClipboardData::empty();
        assert(before.take(0) =~= Seq::<EntryView>::empty());
        let mut i: usize = 0;
        while i < self.entries.len()
            invariant
                i <= self.entries.len(),
                before == self@,
                kept@ == distinct_contents(before.take(i as int)),
            decreases self.entries.len() - i,
        {
            let ghost so_far = kept@;
            proof {
                let next = before.take(i + 1);
                assert(next.drop_last() =~= before.take(i as int));
                assert(next.last() == self.entries@[i as int]@);
                lemma_distinct_keeps_contents(before.take(i as int));
            }
            let mut seen = false;
            let mut j: usize = 0;
            while j < kept.entries.len() && !seen
                invariant
                    i < self.entries.len(),
                    j <= kept.entries.len(),
                    seen ==> has_content(kept@, self.entries@[i as int].data@),
                    !seen ==> forall|k: int|
                        0 <= k < j ==> #[trigger] kept@[k].data != self.entries@[i as int].data@,
                decreases kept.entries.len() - j,
            {
                assert(kept@[j as int] == kept.entries@[j as int]@);
                if bytes_eq(kept.entries[j].data.as_slice(), self.entries[i].data.as_slice()) {
                    assert(kept@[j as int].data == self.entries@[i as int].data@);
                    seen = true;
                }
                j += 1;
            }
            if !seen {
                kept.entries.push(self.entries[i].clone());
                assert(kept@ =~= so_far.push(self.entries@[i as int]@));
            }
            i += 1;
        }
        assert(before.take(before.len() as int) =~= before);
        *self = kept;
    }
}

/// Keeping distinct contents loses no content and adds none.
pub proof fn lemma_distinct_keeps_contents(entries: Seq<EntryView>)
    ensures
        forall|data: Seq<u8>|
            has_content(distinct_contents(entries), data) <==> #[trigger] has_content(entries, data),
    decreases entries.len(),
{
    if entries.len() > 0 {
        let earlier = entries.drop_last();
        let last = entries.last();
        lemma_distinct_keeps_contents(earlier);
        let kept = distinct_contents(entries);
        assert forall|data: Seq<u8>|
            has_content(kept, data) <==> #[trigger] has_content(entries, data) by {
            lemma_content_push(earlier, last, data);
            assert(earlier.push(last) =~= entries);
            lemma_content_push(distinct_contents(earlier), last, data);
            assert(has_content(distinct_contents(earlier), data) <==> has_content(earlier, data));
        }
    }
}

proof fn lemma_content_push(entries: Seq<EntryView>, e: EntryView, data: Seq<u8>)
    ensures
        has_content(entries.push(e), data) <==> has_content(entries, data) || e.data == data,
{
    let more = entries.push(e);
    if has_content(entries, data) {
        let i = choose|i: int| 0 <= i < entries.len() && #[trigger] entries[i].data == data;
        assert(more[i].data == data);
    }
    if e.data == data {
        assert(more[entries.len() as int].data == data);
    }
    if has_content(more, data) && e.data != data {
        let i = choose|i: int| 0 <= i < more.len() && #[trigger] more[i].data == data;
        assert(entries[i].data == data);
    }
}

} // verus!
