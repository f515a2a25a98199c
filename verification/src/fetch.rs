//! Building a payload out of the replies to a list of requests.
use vstd::prelude::*;
use vstd::string::*;

use crate::data;
use crate::data::{ClipboardData, MimeEntry};
use crate::mime;
use crate::selection;

verus! {

/// The payload that replies to requests make: each reply that holds something
/// becomes an entry under the name that was asked for.
pub open spec fn collected(
    requests: Seq<Seq<char>>,
    replies: Seq<Option<Seq<u8>>>,
) -> Seq<data::EntryView>
    recommends
        replies.len() <= requests.len(),
    decreases replies.len(),
{
    if replies.len() == 0 {
        Seq::empty()
    } else {
        let earlier = collected(requests, replies.drop_last());
        match replies.last() {
            Some(bytes) => if bytes.len() > 0 {
                earlier.push(
                    data::EntryView { mime_type: requests[replies.len() - 1], data: bytes },
                )
            } else {
                earlier
            },
            None => earlier,
        }
    }
}

/// The bytes of an optional reply.
pub open spec fn reply_view(reply: Option<Vec<u8>>) -> Option<Seq<u8>> {
    match reply {
        Some(bytes) => Some(bytes@),
        None => None,
    }
}

/// Adds the reply to the request for `name`.
pub(crate) fn add_reply(
    payload: &mut ClipboardData,
    name: &str,
    reply: Option<Vec<u8>>,
    Ghost(requests): Ghost<Seq<Seq<char>>>,
    Ghost(replies): Ghost<Seq<Option<Seq<u8>>>>,
)
    requires
        replies.len() < requests.len(),
        name@ == requests[replies.len() as int],
        old(payload)@ == collected(requests, replies),
    ensures
        final(payload)@ == collected(requests, replies.push(reply_view(reply))),
{
    let ghost more = replies.push(reply_view(reply));
    assert(more.drop_last() =~= replies);
    let ghost before = payload@;
    if let Some(bytes) = reply {
        if !bytes.is_empty() {
            let entry = MimeEntry { mime_type: name.to_owned(), data: bytes };
            let ghost added = entry@;
            payload.entries.push(entry);
            assert(payload@ =~= before.push(added));
        }
    }
}

/// Every entry of the payload was asked for by its name, and holds what the
/// reply to that request held, which is not empty.
pub proof fn law_entries_were_asked_for(
    requests: Seq<Seq<char>>,
    replies: Seq<Option<Seq<u8>>>,
    i: int,
)
    requires
        replies.len() <= requests.len(),
        0 <= i < collected(requests, replies).len(),
    ensures
        exists|k: int|
            0 <= k < replies.len() && #[trigger] requests[k] == collected(
                requests,
                replies,
            )[i].mime_type && replies[k] == Some(collected(requests, replies)[i].data),
        collected(requests, replies)[i].data.len() > 0,
    decreases replies.len(),
{
    let earlier = replies.drop_last();
    let k = replies.len() - 1;
    if i < collected(requests, earlier).len() {
        law_entries_were_asked_for(requests, earlier, i);
        let j = choose|j: int|
            0 <= j < earlier.len() && #[trigger] requests[j] == collected(
                requests,
                earlier,
            )[i].mime_type && earlier[j] == Some(collected(requests, earlier)[i].data);
        assert(replies[j] == earlier[j]);
        assert(requests[j] == collected(requests, replies)[i].mime_type);
    } else {
        assert(requests[k] == collected(requests, replies)[i].mime_type);
    }
}

/// No reply that holds something is lost.
pub proof fn law_replies_are_kept(
    requests: Seq<Seq<char>>,
    replies: Seq<Option<Seq<u8>>>,
    k: int,
)
    requires
        replies.len() <= requests.len(),
        0 <= k < replies.len(),
        replies[k] is Some,
        replies[k]->0.len() > 0,
    ensures
        collected(requests, replies).contains(
            data::EntryView { mime_type: requests[k], data: replies[k]->0 },
        ),
    decreases replies.len(),
{
    let e = data::EntryView { mime_type: requests[k], data: replies[k]->0 };
    let all = collected(requests, replies);
    if k == replies.len() - 1 {
        assert(all.last() == e);
    } else {
        let earlier = replies.drop_last();
        law_replies_are_kept(requests, earlier, k);
        let i = choose|i: int|
            0 <= i < collected(requests, earlier).len() && collected(requests, earlier)[i] == e;
        assert(all[i] == e);
    }
}

/// Whether names stand in the order of their places in `list`.
pub open spec fn in_priority_order(names: Seq<Seq<char>>, list: Seq<Seq<char>>) -> bool {
    forall|i: int, j: int|
        0 <= i < j < names.len() ==> mime::priority(#[trigger] names[i], list) <= mime::priority(
            #[trigger] names[j],
            list,
        )
}

/// The types of entries.
pub open spec fn types_of(entries: Seq<data::EntryView>) -> Seq<Seq<char>> {
    entries.map_values(|e: data::EntryView| e.mime_type)
}

/// When the requests were made in the order of a priority list, so are the
/// entries ordered: from highest to lowest priority.
pub proof fn law_entries_keep_priority_order(
    requests: Seq<Seq<char>>,
    replies: Seq<Option<Seq<u8>>>,
    list: Seq<Seq<char>>,
)
    requires
        replies.len() <= requests.len(),
        in_priority_order(requests, list),
    ensures
        in_priority_order(types_of(collected(requests, replies)), list),
    decreases replies.len(),
{
    if replies.len() > 0 {
        let earlier = replies.drop_last();
        let k = replies.len() - 1;
        law_entries_keep_priority_order(requests, earlier, list);
        let all = types_of(collected(requests, replies));
        let before = types_of(collected(requests, earlier));
        assert forall|i: int, j: int| 0 <= i < j < all.len() implies mime::priority(
            #[trigger] all[i],
            list,
        ) <= mime::priority(#[trigger] all[j], list) by {
            assert(all[i] == before[i]);
            if j < before.len() {
                assert(all[j] == before[j]);
            } else {
                law_entries_were_asked_for(requests, earlier, i);
                let m = choose|m: int|
                    0 <= m < earlier.len() && #[trigger] requests[m] == collected(
                        requests,
                        earlier,
                    )[i].mime_type && earlier[m] == Some(collected(requests, earlier)[i].data);
                assert(requests[m] == all[i]);
                assert(requests[k] == all[j]);
            }
        }
    }
}

/// The payload holds, in order, one entry for each reply that holds something:
/// all its bytes, under the name that was asked for.
pub proof fn law_one_entry_per_reply(requests: Seq<Seq<char>>, replies: Seq<Option<Seq<u8>>>)
    ensures
        collected(requests, replies) == selection::positions(
            replies.len() as int,
            |i: int| replies[i] is Some && replies[i]->0.len() > 0,
        ).map_values(
            |i: int| data::EntryView { mime_type: requests[i], data: replies[i]->0 },
        ),
    decreases replies.len(),
{
    let n = replies.len() as int;
    let p = |i: int| replies[i] is Some && replies[i]->0.len() > 0;
    let f = |i: int| data::EntryView { mime_type: requests[i], data: replies[i]->0 };
    if n == 0 {
        selection::lemma_positions_push(0, p);
        assert(collected(requests, replies) =~= selection::positions(0, p).map_values(f));
    } else {
        let init = replies.drop_last();
        let q = |i: int| init[i] is Some && init[i]->0.len() > 0;
        let g = |i: int| data::EntryView { mime_type: requests[i], data: init[i]->0 };
        law_one_entry_per_reply(requests, init);
        selection::lemma_positions_agree(n - 1, p, q);
        selection::lemma_positions_push(n - 1, p);
        selection::lemma_positions(n - 1, p);
        let before = selection::positions(n - 1, p);
        assert(before.map_values(f) =~= before.map_values(g));
        assert(collected(requests, replies) =~= selection::positions(n, p).map_values(f));
    }
}

} // verus!
