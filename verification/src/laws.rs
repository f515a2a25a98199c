//! Laws that relate the payload operations to each other.
use vstd::prelude::*;
use vstd::utf8::*;

use crate::data;
use crate::mime;
use crate::selection;
use crate::text;

verus! {

// ---------------------------------------------------------------------------
// Text
// ---------------------------------------------------------------------------

/// What `first_some` finds, `f` gave for some element.
proof fn lemma_first_some_source<A, B>(s: Seq<A>, f: spec_fn(A) -> Option<B>)
    ensures
        match data::first_some(s, f) {
            Some(b) => exists|i: int| 0 <= i < s.len() && f(#[trigger] s[i]) == Some(b),
            None => forall|i: int| 0 <= i < s.len() ==> f(#[trigger] s[i]) is None,
        },
    decreases s.len(),
{
    if s.len() > 0 {
        let rest = s.drop_first();
        lemma_first_some_source(rest, f);
        match f(s[0]) {
            Some(b) => {
                assert(f(s[0]) == Some(b));
            },
            None => {
                match data::first_some(s, f) {
                    Some(b) => {
                        let i = choose|i: int|
                            0 <= i < rest.len() && f(#[trigger] rest[i]) == Some(b);
                        assert(f(s[i + 1]) == Some(b));
                    },
                    None => {
                        assert forall|i: int| 0 <= i < s.len() implies f(
                            #[trigger] s[i],
                        ) is None by {
                            if i > 0 {
                                assert(rest[i - 1] == s[i]);
                            }
                        }
                    },
                }
            },
        }
    }
}

/// The bytes found under a type are those of an entry of that type.
proof fn lemma_bytes_for_source(entries: Seq<data::EntryView>, mime_type: Seq<char>)
    ensures
        match data::bytes_for(entries, mime_type) {
            Some(bytes) => exists|i: int|
                0 <= i < entries.len() && (#[trigger] entries[i]).mime_type == mime_type
                    && entries[i].data == bytes,
            None => !data::has_type(entries, mime_type),
        },
{
    let f = |e: data::EntryView|
        if e.mime_type == mime_type {
            Some(e.data)
        } else {
            None
        };
    lemma_first_some_source(entries, f);
    match data::bytes_for(entries, mime_type) {
        Some(bytes) => {
            let i = choose|i: int|
                0 <= i < entries.len() && f(#[trigger] entries[i]) == Some(bytes);
            assert(entries[i].mime_type == mime_type && entries[i].data == bytes);
        },
        None => {
            if data::has_type(entries, mime_type) {
                let i = choose|i: int|
                    0 <= i < entries.len() && #[trigger] entries[i].mime_type == mime_type;
                assert(f(entries[i]) is None);
            }
        },
    }
}

/// The preferred text types are text types.
proof fn lemma_preferred_types_are_text(k: int)
    requires
        0 <= k < data::preferred_text_types().len(),
    ensures
        mime::is_text(data::preferred_text_types()[k]),
{
    reveal_strlit("text/");
    reveal_strlit("text/plain;charset=utf-8");
    reveal_strlit("text/plain");
    assert("text/"@ =~= "text/plain;charset=utf-8"@.subrange(0, 5));
    assert("text/"@ =~= "text/plain"@.subrange(0, 5));
    let m = data::preferred_text_types()[k];
    assert("text/"@.is_prefix_of(m) || mime::is_x11_text_atom(m));
}

/// The text of a payload is the usable text of one of its entries of a text
/// type.
pub proof fn law_text_comes_from_an_entry(entries: Seq<data::EntryView>)
    ensures
        data::text_of(entries) matches Some(t) ==> exists|i: int|
            0 <= i < entries.len() && data::usable_text((#[trigger] entries[i]).data) == Some(t)
                && mime::is_text(entries[i].mime_type),
{
    let preferred = data::preferred_text_types();
    let f = |m: Seq<char>| data::text_under(entries, m);
    let g = |e: data::EntryView| data::entry_text(e);
    lemma_first_some_source(preferred, f);
    lemma_first_some_source(entries, g);
    if let Some(t) = data::text_of(entries) {
        if data::first_some(preferred, f) is Some {
            let k = choose|k: int| 0 <= k < preferred.len() && f(#[trigger] preferred[k]) == Some(t);
            lemma_bytes_for_source(entries, preferred[k]);
            let bytes = data::bytes_for(entries, preferred[k])->0;
            let i = choose|i: int|
                0 <= i < entries.len() && (#[trigger] entries[i]).mime_type == preferred[k]
                    && entries[i].data == bytes;
            lemma_preferred_types_are_text(k);
            assert(data::usable_text(entries[i].data) == Some(t));
        } else {
            let i = choose|i: int| 0 <= i < entries.len() && g(#[trigger] entries[i]) == Some(t);
            assert(data::usable_text(entries[i].data) == Some(t));
        }
    }
}

/// The text of a payload is never empty and does not end in a NUL.
pub proof fn law_text_is_stripped(entries: Seq<data::EntryView>)
    ensures
        data::text_of(entries) matches Some(t) ==> t.len() > 0 && text::without_trailing_nuls(t)
            == t,
{
    law_text_comes_from_an_entry(entries);
    if let Some(t) = data::text_of(entries) {
        let i = choose|i: int|
            0 <= i < entries.len() && data::usable_text((#[trigger] entries[i]).data) == Some(t);
        text::lemma_strip_end_idempotent(decode_utf8(entries[i].data), |c: char| c == '\0');
    }
}

/// An empty payload has neither text nor binary data.
pub proof fn law_empty_payload_has_no_text()
    ensures
        data::text_of(Seq::<data::EntryView>::empty()) is None,
        !data::holds_binary(Seq::<data::EntryView>::empty()),
{
    let none = Seq::<data::EntryView>::empty();
    law_text_comes_from_an_entry(none);
}

/// A payload of one entry of a text type has the text of that entry.
pub proof fn law_single_text_entry(e: data::EntryView)
    requires
        mime::is_text(e.mime_type),
    ensures
        data::text_of(seq![e]) == data::usable_text(e.data),
        !data::holds_binary(seq![e]),
{
    let one = seq![e];
    let g = |x: data::EntryView| data::entry_text(x);
    law_text_comes_from_an_entry(one);
    if data::usable_text(e.data) is Some {
        data::lemma_first_some(one, g, 0);
    } else {
        data::lemma_first_some(one, g, 1);
    }
}

/// A text payload gives back the text it was made from, without NULs at the
/// end; there is no text when nothing else was in it.
pub proof fn law_text_reads_back(s: Seq<char>)
    ensures
        data::text_of(data::text_payload(s)) == {
            let t = text::without_trailing_nuls(s);
            if t.len() > 0 {
                Some(t)
            } else {
                None
            }
        },
{
    let entries = data::text_payload(s);
    let bytes = encode_utf8(s);
    encode_utf8_valid_utf8(s);
    encode_utf8_decode_utf8(s);
    let preferred = data::preferred_text_types();
    let f = |m: Seq<char>| data::text_under(entries, m);
    assert(entries[0].mime_type == preferred[0]);
    assert(data::bytes_for(entries, preferred[0]) == Some(bytes));
    assert(f(preferred[0]) == data::usable_text(bytes));
    if data::usable_text(bytes) is None {
        law_text_comes_from_an_entry(entries);
        assert(forall|i: int| 0 <= i < entries.len() ==> (#[trigger] entries[i]).data == bytes);
    }
}

/// A text payload offers the encoded text under each common text type.
pub proof fn law_text_payload_types(s: Seq<char>)
    ensures
        data::bytes_for(data::text_payload(s), "text/plain;charset=utf-8"@) == Some(encode_utf8(s)),
        data::bytes_for(data::text_payload(s), "text/plain"@) == Some(encode_utf8(s)),
        data::bytes_for(data::text_payload(s), "UTF8_STRING"@) == Some(encode_utf8(s)),
        data::bytes_for(data::text_payload(s), "STRING"@) == Some(encode_utf8(s)),
{
    let entries = data::text_payload(s);
    lemma_bytes_for_source(entries, entries[0].mime_type);
    lemma_bytes_for_source(entries, entries[1].mime_type);
    lemma_bytes_for_source(entries, entries[2].mime_type);
    lemma_bytes_for_source(entries, entries[3].mime_type);
    assert(data::has_type(entries, entries[0].mime_type));
    assert(data::has_type(entries, entries[1].mime_type));
    assert(data::has_type(entries, entries[2].mime_type));
    assert(data::has_type(entries, entries[3].mime_type));
    assert(forall|i: int|
        0 <= i < entries.len() ==> (#[trigger] entries[i]).data == encode_utf8(s));
}

/// A text payload holds no binary data.
pub proof fn law_text_payload_is_text_only(s: Seq<char>)
    ensures
        !data::holds_binary(data::text_payload(s)),
{
    reveal_strlit("text/");
    reveal_strlit("text/plain;charset=utf-8");
    reveal_strlit("text/plain");
    let entries = data::text_payload(s);
    assert("text/"@ =~= "text/plain;charset=utf-8"@.subrange(0, 5));
    assert("text/"@ =~= "text/plain"@.subrange(0, 5));
    assert(mime::is_text(entries[0].mime_type));
    assert(mime::is_text(entries[1].mime_type));
    assert(mime::is_text(entries[2].mime_type));
    assert(mime::is_text(entries[3].mime_type));
}

// ---------------------------------------------------------------------------
// Semantic equality
// ---------------------------------------------------------------------------

/// Every payload has the content that it has.
pub proof fn law_same_content_reflexive(a: Seq<data::EntryView>)
    ensures
        data::same_meaning(a, a),
{
}

/// The order of comparison does not matter, except between a text-only payload
/// and one with binary data that have the same text: the former is an echo of
/// the latter, the latter is richer than the former.
pub proof fn law_same_content_symmetric(a: Seq<data::EntryView>, b: Seq<data::EntryView>)
    requires
        data::holds_binary(a) == data::holds_binary(b) || data::text_of(a) != data::text_of(b),
    ensures
        data::same_meaning(a, b) == data::same_meaning(b, a),
{
}

/// Sameness carries over from payload to payload, unless the first is a
/// text-only echo of the second and the third has another text.
pub proof fn law_same_content_transitive(
    a: Seq<data::EntryView>,
    b: Seq<data::EntryView>,
    c: Seq<data::EntryView>,
)
    requires
        data::holds_binary(a) == data::holds_binary(b) || data::text_of(b) == data::text_of(c),
        data::same_meaning(a, b),
        data::same_meaning(b, c),
    ensures
        data::same_meaning(a, c),
{
}

/// Content with binary data is never the content that a text-only payload was:
/// an image that was added is a change.
pub proof fn law_richer_content_is_new(rich: Seq<data::EntryView>, plain: Seq<data::EntryView>)
    requires
        data::holds_binary(rich),
        !data::holds_binary(plain),
    ensures
        !data::same_meaning(rich, plain),
{
}

/// A text-only echo of a payload with binary data counts as unchanged exactly
/// when its text is the payload's.
pub proof fn law_degraded_echo(echo: Seq<data::EntryView>, rich: Seq<data::EntryView>)
    requires
        !data::holds_binary(echo),
        data::holds_binary(rich),
    ensures
        data::same_meaning(echo, rich) <==> data::text_of(echo) == data::text_of(rich),
{
}

/// The text of any payload, offered as plain text, counts as unchanged
/// content: what comes back from a text-only clipboard is no new content.
pub proof fn law_text_echo_is_unchanged(entries: Seq<data::EntryView>)
    ensures
        data::text_of(entries) matches Some(t) ==> data::same_meaning(
            data::text_payload(t),
            entries,
        ),
{
    law_text_is_stripped(entries);
    if let Some(t) = data::text_of(entries) {
        law_text_reads_back(t);
        law_text_payload_is_text_only(t);
    }
}

/// Two text payloads are the same content exactly when their texts agree up to
/// NULs at the end.
pub proof fn law_text_payloads_compare_by_text(s: Seq<char>, t: Seq<char>)
    ensures
        data::same_meaning(data::text_payload(s), data::text_payload(t)) <==> (
        text::without_trailing_nuls(s) == text::without_trailing_nuls(t)),
{
    law_text_reads_back(s);
    law_text_reads_back(t);
    law_text_payload_is_text_only(s);
    let a = text::without_trailing_nuls(s);
    let b = text::without_trailing_nuls(t);
    if a.len() == 0 && b.len() == 0 {
        assert(a =~= b);
    }
}

/// A payload with binary data is unchanged content for an echo that kept just
/// its first entry, when that entry is the binary one.
pub proof fn law_first_entry_echo_is_unchanged(entries: Seq<data::EntryView>)
    requires
        entries.len() > 0,
        !mime::is_text(entries[0].mime_type),
    ensures
        data::same_meaning(seq![entries[0]], entries),
{
    let echo = seq![entries[0]];
    assert(!mime::is_text(echo[0].mime_type));
}

// ---------------------------------------------------------------------------
// Merging
// ---------------------------------------------------------------------------

/// Merging keeps the entries that were there, in front and unchanged.
pub proof fn law_merge_keeps_entries(a: Seq<data::EntryView>, b: Seq<data::EntryView>)
    ensures
        a.is_prefix_of(data::merged(a, b)),
    decreases b.len(),
{
    if b.len() > 0 {
        law_merge_keeps_entries(a, b.drop_last());
    }
}

proof fn lemma_type_push(entries: Seq<data::EntryView>, e: data::EntryView, m: Seq<char>)
    ensures
        data::has_type(entries.push(e), m) <==> data::has_type(entries, m) || e.mime_type == m,
{
    let more = entries.push(e);
    if data::has_type(entries, m) {
        let i = choose|i: int| 0 <= i < entries.len() && #[trigger] entries[i].mime_type == m;
        assert(more[i].mime_type == m);
    }
    if e.mime_type == m {
        assert(more[entries.len() as int].mime_type == m);
    }
    if data::has_type(more, m) && e.mime_type != m {
        let i = choose|i: int| 0 <= i < more.len() && #[trigger] more[i].mime_type == m;
        assert(entries[i].mime_type == m);
    }
}

/// After merging, a type is there exactly when either side had it.
pub proof fn law_merge_unites_types(
    a: Seq<data::EntryView>,
    b: Seq<data::EntryView>,
    m: Seq<char>,
)
    ensures
        data::has_type(data::merged(a, b), m) <==> data::has_type(a, m) || data::has_type(b, m),
    decreases b.len(),
{
    if b.len() > 0 {
        let init = b.drop_last();
        law_merge_unites_types(a, init, m);
        lemma_type_push(data::merged(a, init), b.last(), m);
        lemma_type_push(init, b.last(), m);
        assert(init.push(b.last()) =~= b);
    }
}

proof fn lemma_bytes_push(entries: Seq<data::EntryView>, e: data::EntryView, m: Seq<char>)
    ensures
        data::bytes_for(entries.push(e), m) == match data::bytes_for(entries, m) {
            Some(bytes) => Some(bytes),
            None => if e.mime_type == m {
                Some(e.data)
            } else {
                None
            },
        },
{
    let f = |x: data::EntryView|
        if x.mime_type == m {
            Some(x.data)
        } else {
            None
        };
    data::lemma_first_some_push(entries, e, f);
}

/// After merging, a type is answered from the side that was there first.
pub proof fn law_merge_prefers_existing(
    a: Seq<data::EntryView>,
    b: Seq<data::EntryView>,
    m: Seq<char>,
)
    ensures
        data::bytes_for(data::merged(a, b), m) == match data::bytes_for(a, m) {
            Some(bytes) => Some(bytes),
            None => data::bytes_for(b, m),
        },
    decreases b.len(),
{
    if b.len() > 0 {
        let init = b.drop_last();
        let so_far = data::merged(a, init);
        law_merge_prefers_existing(a, init, m);
        lemma_bytes_push(so_far, b.last(), m);
        lemma_bytes_push(init, b.last(), m);
        assert(init.push(b.last()) =~= b);
        lemma_bytes_for_source(so_far, m);
        lemma_bytes_for_source(so_far, b.last().mime_type);
    }
}

/// Merging the same payload again adds nothing.
pub proof fn law_merge_idempotent(a: Seq<data::EntryView>, b: Seq<data::EntryView>)
    ensures
        data::merged(data::merged(a, b), b) == data::merged(a, b),
{
    let once = data::merged(a, b);
    assert forall|i: int| 0 <= i < b.len() implies data::has_type(
        once,
        (#[trigger] b[i]).mime_type,
    ) by {
        assert(data::has_type(b, b[i].mime_type));
        law_merge_unites_types(a, b, b[i].mime_type);
    }
    lemma_merge_known(once, b);
}

proof fn lemma_merge_known(a: Seq<data::EntryView>, b: Seq<data::EntryView>)
    requires
        forall|i: int| 0 <= i < b.len() ==> data::has_type(a, (#[trigger] b[i]).mime_type),
    ensures
        data::merged(a, b) == a,
    decreases b.len(),
{
    if b.len() > 0 {
        let init = b.drop_last();
        assert forall|i: int| 0 <= i < init.len() implies data::has_type(
            a,
            (#[trigger] init[i]).mime_type,
        ) by {
            assert(b[i] == init[i]);
        }
        lemma_merge_known(a, init);
        assert(data::has_type(a, b[b.len() - 1].mime_type));
    }
}

/// No two entries have one type.
pub open spec fn types_distinct(entries: Seq<data::EntryView>) -> bool {
    forall|i: int, j: int|
        0 <= i < j < entries.len() ==> (#[trigger] entries[i]).mime_type != (
        #[trigger] entries[j]).mime_type
}

/// Merging never brings in a type twice.
pub proof fn law_merge_keeps_types_distinct(a: Seq<data::EntryView>, b: Seq<data::EntryView>)
    requires
        types_distinct(a),
    ensures
        types_distinct(data::merged(a, b)),
    decreases b.len(),
{
    if b.len() > 0 {
        let init = b.drop_last();
        law_merge_keeps_types_distinct(a, init);
        let so_far = data::merged(a, init);
        let all = data::merged(a, b);
        if !data::has_type(so_far, b.last().mime_type) {
            assert forall|i: int, j: int| 0 <= i < j < all.len() implies (
            #[trigger] all[i]).mime_type != (#[trigger] all[j]).mime_type by {
                assert(so_far[i] == all[i]);
                if j == so_far.len() {
                    assert(so_far[i].mime_type != b.last().mime_type);
                } else {
                    assert(so_far[j] == all[j]);
                }
            }
        }
    }
}

// ---------------------------------------------------------------------------
// Removing repeated contents
// ---------------------------------------------------------------------------

/// No two entries have the same bytes.
pub open spec fn contents_distinct(entries: Seq<data::EntryView>) -> bool {
    forall|i: int, j: int|
        0 <= i < j < entries.len() ==> (#[trigger] entries[i]).data != (#[trigger] entries[j]).data
}

/// Removing repeated contents leaves each content once, loses none, and
/// keeps the first entry first.
pub proof fn law_dedup_keeps_each_content_once(entries: Seq<data::EntryView>)
    ensures
        contents_distinct(data::distinct_contents(entries)),
        forall|bytes: Seq<u8>|
            data::has_content(data::distinct_contents(entries), bytes)
                <==> #[trigger] data::has_content(entries, bytes),
        data::canonical_bytes(data::distinct_contents(entries)) == data::canonical_bytes(entries),
        data::distinct_contents(entries).len() <= entries.len(),
    decreases entries.len(),
{
    data::lemma_distinct_keeps_contents(entries);
    if entries.len() > 0 {
        let earlier = entries.drop_last();
        law_dedup_keeps_each_content_once(earlier);
        let kept = data::distinct_contents(earlier);
        let all = data::distinct_contents(entries);
        if !data::has_content(earlier, entries.last().data) {
            assert(!data::has_content(kept, entries.last().data));
            assert forall|i: int, j: int| 0 <= i < j < all.len() implies (#[trigger] all[i]).data
                != (#[trigger] all[j]).data by {
                assert(kept[i] == all[i]);
                if j == kept.len() {
                    assert(kept[i].data != entries.last().data);
                } else {
                    assert(kept[j] == all[j]);
                }
            }
        }
        if earlier.len() == 0 {
            assert(!data::has_content(earlier, entries.last().data));
        } else {
            assert(data::canonical_bytes(kept) is Some);
        }
    }
}

/// What has no repeated contents stays as it is.
pub proof fn law_dedup_idempotent(entries: Seq<data::EntryView>)
    ensures
        data::distinct_contents(data::distinct_contents(entries)) == data::distinct_contents(
            entries,
        ),
{
    law_dedup_keeps_each_content_once(entries);
    lemma_dedup_distinct(data::distinct_contents(entries));
}

proof fn lemma_dedup_distinct(entries: Seq<data::EntryView>)
    requires
        contents_distinct(entries),
    ensures
        data::distinct_contents(entries) == entries,
    decreases entries.len(),
{
    if entries.len() > 0 {
        let earlier = entries.drop_last();
        assert forall|i: int, j: int| 0 <= i < j < earlier.len() implies (
        #[trigger] earlier[i]).data != (#[trigger] earlier[j]).data by {
            assert(earlier[i] == entries[i] && earlier[j] == entries[j]);
        }
        lemma_dedup_distinct(earlier);
        if data::has_content(earlier, entries.last().data) {
            let i = choose|i: int|
                0 <= i < earlier.len() && #[trigger] earlier[i].data == entries.last().data;
            assert(entries[i].data == entries[entries.len() - 1].data);
        }
        assert(earlier.push(entries.last()) =~= entries);
    }
}

// ---------------------------------------------------------------------------
// What the answers are, entry by entry
// ---------------------------------------------------------------------------

/// A type is answered with all the bytes of the first entry of that type, and
/// with nothing when there is no such entry.
pub proof fn law_first_entry_of_a_type_answers(
    entries: Seq<data::EntryView>,
    m: Seq<char>,
    i: int,
)
    requires
        0 <= i <= entries.len(),
        forall|j: int| 0 <= j < i ==> (#[trigger] entries[j]).mime_type != m,
        i < entries.len() ==> entries[i].mime_type == m,
    ensures
        data::bytes_for(entries, m) == if i < entries.len() {
            Some(entries[i].data)
        } else {
            None
        },
{
    let f = |e: data::EntryView|
        if e.mime_type == m {
            Some(e.data)
        } else {
            None
        };
    data::lemma_first_some(entries, f, i);
}

/// Bytes have usable text `t` exactly when they are valid UTF-8 and decode to
/// `t` followed by NULs alone, where `t` neither is empty nor ends in a NUL.
pub proof fn law_usable_text(bytes: Seq<u8>, t: Seq<char>)
    ensures
        data::usable_text(bytes) == Some(t) <==> {
            &&& valid_utf8(bytes)
            &&& t.len() > 0
            &&& t.last() != '\0'
            &&& t.is_prefix_of(decode_utf8(bytes))
            &&& forall|i: int|
                t.len() <= i < decode_utf8(bytes).len() ==> #[trigger] decode_utf8(bytes)[i] == '\0'
        },
{
    if valid_utf8(bytes) {
        let s = decode_utf8(bytes);
        text::law_stripped_of_nuls(s, text::without_trailing_nuls(s));
        if t.is_prefix_of(s) && t.len() > 0 && t.last() != '\0' && (forall|i: int|
            t.len() <= i < s.len() ==> #[trigger] s[i] == '\0') {
            text::law_stripped_of_nuls(s, t);
        }
    }
}

/// A payload has no text exactly when no entry of a text type has usable text.
pub proof fn law_text_is_found_if_there_is_any(entries: Seq<data::EntryView>)
    ensures
        data::text_of(entries) is None <==> forall|i: int|
            0 <= i < entries.len() && mime::is_text((#[trigger] entries[i]).mime_type)
                ==> data::usable_text(entries[i].data) is None,
{
    let g = |e: data::EntryView| data::entry_text(e);
    law_text_comes_from_an_entry(entries);
    lemma_first_some_source(entries, g);
    if data::text_of(entries) is None {
        assert forall|i: int|
            0 <= i < entries.len() && mime::is_text(
                (#[trigger] entries[i]).mime_type,
            ) implies data::usable_text(entries[i].data) is None by {
            assert(g(entries[i]) is None);
        }
    }
}

/// Whether the first entry of a type has no usable text, or there is none.
pub open spec fn silent(entries: Seq<data::EntryView>, m: Seq<char>) -> bool {
    data::bytes_for(entries, m) matches Some(bytes) ==> data::usable_text(bytes) is None
}

/// The text of a payload is that of the first entry of the best of five types,
/// in this order, whose first entry has usable text.
pub proof fn law_text_of_the_best_type(entries: Seq<data::EntryView>)
    ensures
        ({
            let utf8 = "text/plain;charset=utf-8"@;
            let plain = "text/plain"@;
            let atom = "UTF8_STRING"@;
            let latin = "STRING"@;
            let any = "TEXT"@;
            let under = |m: Seq<char>|
                match data::bytes_for(entries, m) {
                    Some(bytes) => data::usable_text(bytes),
                    None => None,
                };
            &&& !silent(entries, utf8) ==> data::text_of(entries) == under(utf8)
            &&& silent(entries, utf8) && !silent(entries, plain) ==> data::text_of(entries) == under(
                plain,
            )
            &&& silent(entries, utf8) && silent(entries, plain) && !silent(entries, atom)
                ==> data::text_of(entries) == under(atom)
            &&& silent(entries, utf8) && silent(entries, plain) && silent(entries, atom) && !silent(
                entries,
                latin,
            ) ==> data::text_of(entries) == under(latin)
            &&& silent(entries, utf8) && silent(entries, plain) && silent(entries, atom) && silent(
                entries,
                latin,
            ) && !silent(entries, any) ==> data::text_of(entries) == under(any)
        }),
{
    let preferred = data::preferred_text_types();
    let f = |m: Seq<char>| data::text_under(entries, m);
    assert(preferred.len() == 5);
    assert(preferred[0] == "text/plain;charset=utf-8"@ && preferred[1] == "text/plain"@
        && preferred[2] == "UTF8_STRING"@ && preferred[3] == "STRING"@ && preferred[4] == "TEXT"@);
    if !silent(entries, preferred[0]) {
        data::lemma_first_some(preferred, f, 0);
    } else if !silent(entries, preferred[1]) {
        data::lemma_first_some(preferred, f, 1);
    } else if !silent(entries, preferred[2]) {
        data::lemma_first_some(preferred, f, 2);
    } else if !silent(entries, preferred[3]) {
        data::lemma_first_some(preferred, f, 3);
    } else if !silent(entries, preferred[4]) {
        data::lemma_first_some(preferred, f, 4);
    }
}

/// When none of the five types has text, the text is that of the first entry of
/// a text type that has any.
pub proof fn law_text_of_another_type(entries: Seq<data::EntryView>, i: int)
    requires
        silent(entries, "text/plain;charset=utf-8"@),
        silent(entries, "text/plain"@),
        silent(entries, "UTF8_STRING"@),
        silent(entries, "STRING"@),
        silent(entries, "TEXT"@),
        0 <= i < entries.len(),
        mime::is_text(entries[i].mime_type),
        data::usable_text(entries[i].data) is Some,
        forall|j: int|
            0 <= j < i && mime::is_text((#[trigger] entries[j]).mime_type) ==> data::usable_text(
                entries[j].data,
            ) is None,
    ensures
        data::text_of(entries) == data::usable_text(entries[i].data),
{
    let preferred = data::preferred_text_types();
    let f = |m: Seq<char>| data::text_under(entries, m);
    let g = |e: data::EntryView| data::entry_text(e);
    assert(preferred[0] == "text/plain;charset=utf-8"@ && preferred[1] == "text/plain"@
        && preferred[2] == "UTF8_STRING"@ && preferred[3] == "STRING"@ && preferred[4] == "TEXT"@);
    assert forall|k: int| 0 <= k < 5 implies f(#[trigger] preferred[k]) is None by {
        assert(k == 0 || k == 1 || k == 2 || k == 3 || k == 4);
    }
    data::lemma_first_some(preferred, f, 5);
    data::lemma_first_some(entries, g, i);
}

/// Two payloads that both hold binary data are the same content exactly when
/// their first entries have the same bytes, all of them.
pub proof fn law_binary_content_is_compared_whole(
    a: Seq<data::EntryView>,
    b: Seq<data::EntryView>,
    i: int,
    j: int,
)
    requires
        0 <= i < a.len(),
        !mime::is_text(a[i].mime_type),
        0 <= j < b.len(),
        !mime::is_text(b[j].mime_type),
    ensures
        data::same_meaning(a, b) <==> a[0].data == b[0].data,
        a[0].data.len() != b[0].data.len() ==> !data::same_meaning(a, b),
        forall|k: int|
            0 <= k < a[0].data.len() && k < b[0].data.len() && #[trigger] a[0].data[k]
                != b[0].data[k] ==> !data::same_meaning(a, b),
{
    assert(data::holds_binary(a));
    assert(data::holds_binary(b));
}

/// A text-only payload is the content that another was exactly when they have
/// the same text, whole, or both none.
pub proof fn law_text_content_is_compared_by_text(a: Seq<data::EntryView>, b: Seq<data::EntryView>)
    requires
        forall|i: int| 0 <= i < a.len() ==> mime::is_text((#[trigger] a[i]).mime_type),
    ensures
        data::same_meaning(a, b) <==> data::text_of(a) == data::text_of(b),
        !data::holds_binary(a),
{
    if data::holds_binary(a) {
        let i = choose|i: int| 0 <= i < a.len() && !mime::is_text(#[trigger] a[i].mime_type);
        assert(mime::is_text(a[i].mime_type));
    }
}

/// A payload with a binary entry is new against every payload without one.
pub proof fn law_binary_is_new_against_text(
    a: Seq<data::EntryView>,
    b: Seq<data::EntryView>,
    i: int,
)
    requires
        0 <= i < a.len(),
        !mime::is_text(a[i].mime_type),
        forall|j: int| 0 <= j < b.len() ==> mime::is_text((#[trigger] b[j]).mime_type),
    ensures
        !data::same_meaning(a, b),
        data::holds_binary(a),
{
    assert(data::holds_binary(a));
    law_text_content_is_compared_by_text(b, a);
}

/// A text payload has four entries, of these types, each with the whole text.
pub proof fn law_text_payload_entries(s: Seq<char>)
    ensures
        data::text_payload(s).len() == 4,
        forall|i: int|
            0 <= i < 4 ==> (#[trigger] data::text_payload(s)[i]).data == encode_utf8(s),
        data::text_payload(s)[0].mime_type == "text/plain;charset=utf-8"@,
        data::text_payload(s)[1].mime_type == "text/plain"@,
        data::text_payload(s)[2].mime_type == "UTF8_STRING"@,
        data::text_payload(s)[3].mime_type == "STRING"@,
{
}

/// The entry that stands for a payload where only one fits is the first that is
/// not of one of the four X11 text types, and the first of all when all are.
pub proof fn law_entry_that_stands_for_all(entries: Seq<data::EntryView>, i: int)
    requires
        0 <= i <= entries.len(),
        forall|j: int|
            0 <= j < i ==> seq!["UTF8_STRING"@, "STRING"@, "TEXT"@, "COMPOUND_TEXT"@].contains(
                (#[trigger] entries[j]).mime_type,
            ),
        i < entries.len() ==> !seq!["UTF8_STRING"@, "STRING"@, "TEXT"@, "COMPOUND_TEXT"@].contains(
            entries[i].mime_type,
        ),
    ensures
        data::native_or_first(entries) == if i < entries.len() {
            Some(entries[i])
        } else if entries.len() > 0 {
            Some(entries[0])
        } else {
            None
        },
{
    let f = |e: data::EntryView|
        if mime::is_x11_text_atom(e.mime_type) {
            None
        } else {
            Some(e)
        };
    assert forall|j: int| 0 <= j < i implies f(#[trigger] entries[j]) is None by {
        mime::law_text_names(entries[j].mime_type);
    }
    if i < entries.len() {
        mime::law_text_names(entries[i].mime_type);
    }
    data::lemma_first_some(entries, f, i);
}

/// Merging appends, in order, exactly those entries whose type neither side had
/// before.
pub proof fn law_merge_appends_new_types(a: Seq<data::EntryView>, b: Seq<data::EntryView>)
    ensures
        data::merged(a, b) == a + selection::positions(
            b.len() as int,
            |i: int| !data::has_type(a, b[i].mime_type) && !data::has_type(b.take(i), b[i].mime_type),
        ).map_values(|i: int| b[i]),
    decreases b.len(),
{
    let n = b.len() as int;
    let p = |i: int|
        !data::has_type(a, b[i].mime_type) && !data::has_type(b.take(i), b[i].mime_type);
    let f = |i: int| b[i];
    if n == 0 {
        selection::lemma_positions_push(0, p);
        assert(data::merged(a, b) =~= a + selection::positions(0, p).map_values(f));
    } else {
        let init = b.drop_last();
        let last = b.last();
        let q = |i: int|
            !data::has_type(a, init[i].mime_type) && !data::has_type(
                init.take(i),
                init[i].mime_type,
            );
        let g = |i: int| init[i];
        law_merge_appends_new_types(a, init);
        assert forall|i: int| 0 <= i < n - 1 implies #[trigger] p(i) == q(i) by {
            assert(init.take(i) =~= b.take(i));
            assert(init[i] == b[i]);
        }
        selection::lemma_positions_agree(n - 1, p, q);
        selection::lemma_positions_push(n - 1, p);
        selection::lemma_positions(n - 1, p);
        let before = selection::positions(n - 1, p);
        assert(before.map_values(f) =~= before.map_values(g));
        law_merge_unites_types(a, init, last.mime_type);
        assert(b.take(n - 1) =~= init);
        assert(data::merged(a, b) =~= a + selection::positions(n, p).map_values(f));
    }
}

/// A type, or some bytes, are there exactly when an entry has them.
pub proof fn law_what_is_there(entries: Seq<data::EntryView>, m: Seq<char>, d: Seq<u8>)
    ensures
        data::has_type(entries, m) <==> entries.map_values(
            |e: data::EntryView| e.mime_type,
        ).contains(m),
        data::has_content(entries, d) <==> entries.map_values(
            |e: data::EntryView| e.data,
        ).contains(d),
{
    let types = entries.map_values(|e: data::EntryView| e.mime_type);
    if data::has_type(entries, m) {
        let i = choose|i: int| 0 <= i < entries.len() && #[trigger] entries[i].mime_type == m;
        assert(types[i] == m);
    }
    if types.contains(m) {
        let i = choose|i: int| 0 <= i < types.len() && types[i] == m;
        assert(entries[i].mime_type == m);
    }
    let contents = entries.map_values(|e: data::EntryView| e.data);
    if data::has_content(entries, d) {
        let i = choose|i: int| 0 <= i < entries.len() && #[trigger] entries[i].data == d;
        assert(contents[i] == d);
    }
    if contents.contains(d) {
        let i = choose|i: int| 0 <= i < contents.len() && contents[i] == d;
        assert(entries[i].data == d);
    }
}

/// Removing repeated contents keeps, in order, exactly those entries whose bytes
/// no earlier entry has.
pub proof fn law_dedup_keeps_first_occurrences(entries: Seq<data::EntryView>)
    ensures
        data::distinct_contents(entries) == selection::positions(
            entries.len() as int,
            |i: int| forall|j: int| 0 <= j < i ==> (#[trigger] entries[j]).data != entries[i].data,
        ).map_values(|i: int| entries[i]),
    decreases entries.len(),
{
    let n = entries.len() as int;
    let p = |i: int| forall|j: int| 0 <= j < i ==> (#[trigger] entries[j]).data != entries[i].data;
    let f = |i: int| entries[i];
    if n == 0 {
        selection::lemma_positions_push(0, p);
        assert(data::distinct_contents(entries) =~= selection::positions(0, p).map_values(f));
    } else {
        let init = entries.drop_last();
        let q = |i: int| forall|j: int| 0 <= j < i ==> (#[trigger] init[j]).data != init[i].data;
        let g = |i: int| init[i];
        law_dedup_keeps_first_occurrences(init);
        assert forall|i: int| 0 <= i < n - 1 implies #[trigger] p(i) == q(i) by {
            if p(i) {
                assert forall|j: int| 0 <= j < i implies (#[trigger] init[j]).data
                    != init[i].data by {
                    assert(entries[j].data != entries[i].data);
                }
            }
            if q(i) {
                assert forall|j: int| 0 <= j < i implies (#[trigger] entries[j]).data
                    != entries[i].data by {
                    assert(init[j].data != init[i].data);
                }
            }
        }
        selection::lemma_positions_agree(n - 1, p, q);
        selection::lemma_positions_push(n - 1, p);
        selection::lemma_positions(n - 1, p);
        let before = selection::positions(n - 1, p);
        assert(before.map_values(f) =~= before.map_values(g));
        let last = entries.last();
        if data::has_content(init, last.data) {
            let j = choose|j: int| 0 <= j < init.len() && #[trigger] init[j].data == last.data;
            assert(entries[j].data == entries[n - 1].data);
            assert(!p(n - 1));
        } else {
            assert forall|j: int| 0 <= j < n - 1 implies (#[trigger] entries[j]).data
                != entries[n - 1].data by {
                assert(init[j].data != last.data);
            }
            assert(p(n - 1));
        }
        assert(data::distinct_contents(entries) =~= selection::positions(n, p).map_values(f));
    }
}

/// What `same_content` says of two payloads that both hold binary data: whether
/// their first entries have the same bytes, all of them.
pub proof fn law_comparing_binary_payloads(
    a: data::ClipboardData,
    b: data::ClipboardData,
    i: int,
    j: int,
    r: bool,
)
    requires
        call_ensures(data::ClipboardData::same_content, (&a, &b), r),
        0 <= i < a@.len(),
        !mime::is_text(a@[i].mime_type),
        0 <= j < b@.len(),
        !mime::is_text(b@[j].mime_type),
    ensures
        r <==> a@[0].data == b@[0].data,
{
    law_binary_content_is_compared_whole(a@, b@, i, j);
}

/// What `same_content` says of a payload without binary data: whether the two
/// texts are the same.
pub proof fn law_comparing_text_payloads(a: data::ClipboardData, b: data::ClipboardData, r: bool)
    requires
        call_ensures(data::ClipboardData::same_content, (&a, &b), r),
        forall|i: int| 0 <= i < a@.len() ==> mime::is_text((#[trigger] a@[i]).mime_type),
    ensures
        r <==> data::text_of(a@) == data::text_of(b@),
{
    law_text_content_is_compared_by_text(a@, b@);
}

} // verus!
