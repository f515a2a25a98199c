//! MIME types and X11 targets: how they are classified, discovered and ordered.
use vstd::prelude::*;
use vstd::string::*;

use crate::text;
use crate::text::{starts_with, str_eq};

verus! {

/// Ordered list of MIME types we probe when reading a Wayland clipboard.
/// Binary types (images) are listed first so rich content is preserved.
pub const WAYLAND_PROBE_MIME_TYPES: [&'static str; 9] = [
    "image/png",
    "image/jpeg",
    "image/webp",
    "image/gif",
    "image/bmp",
    "text/html",
    "text/uri-list",
    "text/plain;charset=utf-8",
    "text/plain",
];

/// Ordered list of X11 selection targets we probe.
pub const X11_PROBE_TARGETS: [&'static str; 7] = [
    "image/png",
    "image/jpeg",
    "text/html",
    "text/uri-list",
    "UTF8_STRING",
    "STRING",
    "TEXT",
];

/// Cap on how many MIME types we will fetch per clipboard read, to avoid
/// unbounded network / IPC overhead from unusual compositors.
pub const MAX_MIME_TYPES: usize = 64;

/// The views of a sequence of string slices.
pub open spec fn str_views(s: Seq<&str>) -> Seq<Seq<char>> {
    s.map_values(|x: &str| x@)
}

// ---------------------------------------------------------------------------
// Classification
// ---------------------------------------------------------------------------

/// The X11 atoms that stand for plain text.
pub open spec fn is_x11_text_atom(name: Seq<char>) -> bool {
    ||| name == "UTF8_STRING"@
    ||| name == "STRING"@
    ||| name == "TEXT"@
    ||| name == "COMPOUND_TEXT"@
}

/// The types that carry human-readable text.
pub open spec fn is_text(mime: Seq<char>) -> bool {
    "text/"@.is_prefix_of(mime) || is_x11_text_atom(mime)
}

/// The application-internal Wayland types.
pub open spec fn is_wayland_internal(mime: Seq<char>) -> bool {
    ||| mime == "application/x-kde-cutselection"@
    ||| mime == "x-special/gnome-copied-files"@
    ||| mime == "x-special/nautilus-clipboard"@
    ||| mime == "x-kde-nativedata"@
    ||| "application/x-qt-image"@.is_prefix_of(mime)
    ||| "application/x-kde"@.is_prefix_of(mime)
}

/// The X11 targets that are not clipboard content.
pub open spec fn is_x11_meta(name: Seq<char>) -> bool {
    ||| name == "TARGETS"@
    ||| name == "MULTIPLE"@
    ||| name == "TIMESTAMP"@
    ||| name == "DELETE"@
    ||| name == "INSERT_PROPERTY"@
    ||| name == "INSERT_SELECTION"@
    ||| name == "INCR"@
    ||| name == "CLIPBOARD_MANAGER"@
    ||| name == "SAVE_TARGETS"@
    ||| name == "ATOM"@
    ||| name == "ATOM_PAIR"@
    ||| name == "INTEGER"@
    ||| name == "PIXMAP"@
    ||| name == "BITMAP"@
    ||| name == "COLORMAP"@
    ||| name == "DRAWABLE"@
    ||| name == "WINDOW"@
    ||| name == "PIXEL"@
    ||| "_NET_"@.is_prefix_of(name)
    ||| "_WM_"@.is_prefix_of(name)
    ||| "_XSETTINGS"@.is_prefix_of(name)
    ||| "_MOTIF"@.is_prefix_of(name)
}

/// Returns `true` for the X11 atoms that stand for plain text.
pub fn is_x11_text_target(name: &str) -> (r: bool)
    ensures
        r == is_x11_text_atom(name@),
{
    str_eq(name, "UTF8_STRING") || str_eq(name, "STRING") || str_eq(name, "TEXT") || str_eq(
        name,
        "COMPOUND_TEXT",
    )
}

/// Returns `true` for MIME types / X11 atoms that carry human-readable text.
pub fn is_text_mime(mime: &str) -> (r: bool)
    ensures
        r == is_text(mime@),
{
    starts_with(mime, "text/") || is_x11_text_target(mime)
}

/// Returns `true` for Wayland MIME types that are application-internal
/// bookkeeping entries and should not be synced to other displays.
pub fn is_wayland_internal_mime(mime: &str) -> (r: bool)
    ensures
        r == is_wayland_internal(mime@),
{
    str_eq(mime, "application/x-kde-cutselection") || str_eq(mime, "x-special/gnome-copied-files")
        || str_eq(mime, "x-special/nautilus-clipboard") || str_eq(mime, "x-kde-nativedata")
        || starts_with(mime, "application/x-qt-image") || starts_with(mime, "application/x-kde")
}

/// Returns `true` for X11 target atom names that represent meta/control
/// atoms and should never be fetched or propagated as clipboard content.
pub fn is_x11_meta_target(name: &str) -> (r: bool)
    ensures
        r == is_x11_meta(name@),
{
    str_eq(name, "TARGETS") || str_eq(name, "MULTIPLE") || str_eq(name, "TIMESTAMP") || str_eq(
        name,
        "DELETE",
    ) || str_eq(name, "INSERT_PROPERTY") || str_eq(name, "INSERT_SELECTION") || str_eq(name, "INCR")
        || str_eq(name, "CLIPBOARD_MANAGER") || str_eq(name, "SAVE_TARGETS") || str_eq(name, "ATOM")
        || str_eq(name, "ATOM_PAIR") || str_eq(name, "INTEGER") || str_eq(name, "PIXMAP") || str_eq(
        name,
        "BITMAP",
    ) || str_eq(name, "COLORMAP") || str_eq(name, "DRAWABLE") || str_eq(name, "WINDOW") || str_eq(
        name,
        "PIXEL",
    ) || starts_with(name, "_NET_") || starts_with(name, "_WM_") || starts_with(name, "_XSETTINGS")
        || starts_with(name, "_MOTIF")
}

// ---------------------------------------------------------------------------
// Priority order
// ---------------------------------------------------------------------------

/// The place of `mime` in `list`; the length of `list` when it is not there.
pub open spec fn priority(mime: Seq<char>, list: Seq<Seq<char>>) -> nat
    decreases list.len(),
{
    if list.len() == 0 || list[0] == mime {
        0
    } else {
        1 + priority(mime, list.drop_first())
    }
}

/// The elements of `types` whose place in `list` is `k`, in their order.
pub open spec fn with_priority(
    types: Seq<Seq<char>>,
    list: Seq<Seq<char>>,
    k: nat,
) -> Seq<Seq<char>> {
    types.filter(|m: Seq<char>| priority(m, list) == k)
}

/// The elements of `types` whose place in `list` is below `k`: those of place
/// zero first, then those of place one, and so on.
pub open spec fn with_priority_below(
    types: Seq<Seq<char>>,
    list: Seq<Seq<char>>,
    k: nat,
) -> Seq<Seq<char>>
    decreases k,
{
    if k == 0 {
        Seq::empty()
    } else {
        with_priority_below(types, list, (k - 1) as nat) + with_priority(types, list, (k - 1) as nat)
    }
}

/// The elements of `types` that `list` names, in the order of `list`, then
/// the others in their own order.
pub open spec fn by_priority(types: Seq<Seq<char>>, list: Seq<Seq<char>>) -> Seq<Seq<char>> {
    with_priority_below(types, list, list.len() + 1)
}

proof fn lemma_priority(mime: Seq<char>, list: Seq<Seq<char>>, k: int)
    requires
        0 <= k <= list.len(),
        forall|i: int| 0 <= i < k ==> #[trigger] list[i] != mime,
        k == list.len() || list[k] == mime,
    ensures
        priority(mime, list) == k,
    decreases list.len(),
{
    if k > 0 {
        let rest = list.drop_first();
        assert forall|i: int| 0 <= i < k - 1 implies #[trigger] rest[i] != mime by {
            assert(rest[i] == list[i + 1]);
        }
        lemma_priority(mime, rest, k - 1);
    }
}

pub proof fn lemma_filter_push<A>(s: Seq<A>, x: A, p: spec_fn(A) -> bool)
    ensures
        s.push(x).filter(p) == if p(x) {
            s.filter(p).push(x)
        } else {
            s.filter(p)
        },
{
    reveal(Seq::filter);
    assert(s.push(x).drop_last() == s);
}

/// The place of `mime` in the list.
fn priority_of(mime: &str, list: &[&str]) -> (k: usize)
    ensures
        k == priority(mime@, str_views(list@)),
        k <= list@.len(),
{
    let mut i: usize = 0;
    while i < list.len()
        invariant
            i <= list.len(),
            forall|j: int| 0 <= j < i ==> #[trigger] list@[j]@ != mime@,
        decreases list.len() - i,
    {
        if str_eq(list[i], mime) {
            proof {
                lemma_priority(mime@, str_views(list@), i as int);
            }
            return i;
        }
        i += 1;
    }
    proof {
        lemma_priority(mime@, str_views(list@), i as int);
    }
    i
}

/// Appends to `out` the elements of `types` whose place is `k`.
fn append_with_priority(
    out: &mut Vec<String>,
    types: &Vec<String>,
    places: &Vec<usize>,
    k: usize,
    Ghost(list): Ghost<Seq<Seq<char>>>,
)
    requires
        places.len() == types.len(),
        forall|i: int| 0 <= i < places.len() ==> #[trigger] places@[i] == priority(types@[i]@, list),
    ensures
        text::views(final(out)@) == text::views(old(out)@) + with_priority(text::views(types@), list, k as nat),
{
    let ghost p = |m: Seq<char>| priority(m, list) == k as nat;
    let ghost before = text::views(out@);
    assert(text::views(types@).take(0).filter(p) =~= Seq::<Seq<char>>::empty()) by {
        reveal(Seq::filter);
    }
    let mut i: usize = 0;
    while i < types.len()
        invariant
            i <= types.len(),
            places.len() == types.len(),
            p == (|m: Seq<char>| priority(m, list) == k as nat),
            forall|j: int|
                0 <= j < places.len() ==> #[trigger] places@[j] == priority(types@[j]@, list),
            text::views(out@) == before + text::views(types@).take(i as int).filter(p),
        decreases types.len() - i,
    {
        let ghost so_far = text::views(types@).take(i as int);
        proof {
            lemma_filter_push(so_far, types@[i as int]@, p);
            assert(text::views(types@).take(i + 1) =~= so_far.push(types@[i as int]@));
        }
        let ghost previous = text::views(out@);
        if places[i] == k {
            out.push(types[i].clone());
            assert(text::views(out@) =~= previous.push(types@[i as int]@));
        }
        assert(text::views(out@) =~= before + text::views(types@).take(i + 1).filter(p));
        i += 1;
    }
    assert(text::views(types@).take(types.len() as int) =~= text::views(types@));
}

/// Sort `types` so entries that appear in `priority_list` come first (in that
/// order), with any unknown types preserved afterwards in their original order.
pub fn sort_by_mime_priority(types: &mut Vec<String>, priority_list: &[&str])
    ensures
        text::views(final(types)@) == by_priority(text::views(old(types)@), str_views(priority_list@)),
{
    let ghost list = str_views(priority_list@);
    let ghost names = text::views(types@);
    let mut places: Vec<usize> = Vec::new();
    let mut i: usize = 0;
    while i < types.len()
        invariant
            i <= types.len(),
            places.len() == i,
            list == str_views(priority_list@),
            forall|j: int|
                0 <= j < places.len() ==> #[trigger] places@[j] == priority(types@[j]@, list),
        decreases types.len() - i,
    {
        places.push(priority_of(types[i].as_str(), priority_list));
        i += 1;
    }
    let mut out: Vec<String> = Vec::new();
    let mut k: usize = 0;
    assert(text::views(out@) =~= with_priority_below(names, list, 0));
    while k < priority_list.len()
        invariant
            k <= priority_list.len(),
            places.len() == types.len(),
            names == text::views(types@),
            list == str_views(priority_list@),
            forall|j: int|
                0 <= j < places.len() ==> #[trigger] places@[j] == priority(types@[j]@, list),
            text::views(out@) == with_priority_below(names, list, k as nat),
        decreases priority_list.len() - k,
    {
        append_with_priority(&mut out, types, &places, k, Ghost(list));
        k += 1;
    }
    append_with_priority(&mut out, types, &places, k, Ghost(list));
    *types = out;
}

/// Sorting by priority keeps every element as often as it occurs.
pub proof fn law_priority_sort_permutes(types: Seq<Seq<char>>, list: Seq<Seq<char>>)
    ensures
        by_priority(types, list).to_multiset() == types.to_multiset(),
{
    let n = list.len() + 1;
    lemma_below_multiset(types, list, n);
    let p = |m: Seq<char>| priority(m, list) < n;
    assert forall|i: int| 0 <= i < types.len() implies p(#[trigger] types[i]) by {
        lemma_priority_bound(types[i], list);
    }
    lemma_filter_all(types, p);
}

/// Sorting by priority adds nothing and loses nothing.
pub proof fn lemma_same_elements(types: Seq<Seq<char>>, list: Seq<Seq<char>>)
    ensures
        by_priority(types, list).len() == types.len(),
        forall|i: int|
            0 <= i < by_priority(types, list).len() ==> types.contains(
                #[trigger] by_priority(types, list)[i],
            ),
{
    broadcast use vstd::seq_lib::group_to_multiset_ensures;

    let sorted = by_priority(types, list);
    law_priority_sort_permutes(types, list);
    assert(sorted.len() == sorted.to_multiset().len());
    assert forall|i: int| 0 <= i < sorted.len() implies types.contains(#[trigger] sorted[i]) by {
        assert(sorted.contains(sorted[i]));
        assert(sorted.to_multiset().count(sorted[i]) > 0);
    }
}

/// After sorting by priority, no element stands before one of a smaller place.
pub proof fn law_priority_sort_orders(types: Seq<Seq<char>>, list: Seq<Seq<char>>)
    ensures
        forall|i: int, j: int|
            0 <= i < j < by_priority(types, list).len() ==> priority(
                #[trigger] by_priority(types, list)[i],
                list,
            ) <= priority(#[trigger] by_priority(types, list)[j], list),
{
    lemma_below_ordered(types, list, list.len() + 1);
}

/// Sorting by priority keeps the order of the elements that have one place.
pub proof fn law_priority_sort_is_stable(types: Seq<Seq<char>>, list: Seq<Seq<char>>, k: nat)
    ensures
        with_priority(by_priority(types, list), list, k) == with_priority(types, list, k),
{
    lemma_below_stable(types, list, list.len() + 1, k);
    if k > list.len() {
        let p = |m: Seq<char>| priority(m, list) == k;
        assert forall|i: int| 0 <= i < types.len() implies !p(#[trigger] types[i]) by {
            lemma_priority_bound(types[i], list);
        }
        lemma_filter_none(types, p);
    }
}

/// Sorting what is already sorted changes nothing.
pub proof fn law_priority_sort_idempotent(types: Seq<Seq<char>>, list: Seq<Seq<char>>)
    ensures
        by_priority(by_priority(types, list), list) == by_priority(types, list),
{
    lemma_below_idempotent(types, list, list.len() + 1);
}

proof fn lemma_below_idempotent(types: Seq<Seq<char>>, list: Seq<Seq<char>>, n: nat)
    ensures
        with_priority_below(by_priority(types, list), list, n) == with_priority_below(
            types,
            list,
            n,
        ),
    decreases n,
{
    if n > 0 {
        lemma_below_idempotent(types, list, (n - 1) as nat);
        law_priority_sort_is_stable(types, list, (n - 1) as nat);
    }
}

proof fn lemma_priority_bound(mime: Seq<char>, list: Seq<Seq<char>>)
    ensures
        priority(mime, list) <= list.len(),
    decreases list.len(),
{
    if list.len() > 0 && list[0] != mime {
        lemma_priority_bound(mime, list.drop_first());
    }
}

pub proof fn lemma_filter_all<A>(s: Seq<A>, p: spec_fn(A) -> bool)
    requires
        forall|i: int| 0 <= i < s.len() ==> p(#[trigger] s[i]),
    ensures
        s.filter(p) == s,
    decreases s.len(),
{
    reveal(Seq::filter);
    if s.len() > 0 {
        lemma_filter_all(s.drop_last(), p);
        assert(s.drop_last().push(s.last()) == s);
    }
}

pub proof fn lemma_filter_none<A>(s: Seq<A>, p: spec_fn(A) -> bool)
    requires
        forall|i: int| 0 <= i < s.len() ==> !p(#[trigger] s[i]),
    ensures
        s.filter(p) == Seq::<A>::empty(),
    decreases s.len(),
{
    reveal(Seq::filter);
    if s.len() > 0 {
        lemma_filter_none(s.drop_last(), p);
    }
}

/// What a filter keeps satisfies its condition and comes from the sequence.
pub proof fn lemma_filter_elements<A>(s: Seq<A>, p: spec_fn(A) -> bool)
    ensures
        forall|i: int|
            0 <= i < s.filter(p).len() ==> p(#[trigger] s.filter(p)[i]) && s.contains(
                s.filter(p)[i],
            ),
        s.filter(p).len() <= s.len(),
    decreases s.len(),
{
    reveal(Seq::filter);
    if s.len() > 0 {
        let init = s.drop_last();
        lemma_filter_elements(init, p);
        assert forall|i: int| 0 <= i < s.filter(p).len() implies p(#[trigger] s.filter(p)[i])
            && s.contains(s.filter(p)[i]) by {
            if i < init.filter(p).len() {
                let x = init.filter(p)[i];
                assert(init.contains(x));
                let j = choose|j: int| 0 <= j < init.len() && init[j] == x;
                assert(s[j] == x);
            } else {
                assert(s[s.len() - 1] == s.filter(p)[i]);
            }
        }
    }
}

proof fn lemma_below_ordered(types: Seq<Seq<char>>, list: Seq<Seq<char>>, n: nat)
    ensures
        forall|i: int|
            0 <= i < with_priority_below(types, list, n).len() ==> priority(
                #[trigger] with_priority_below(types, list, n)[i],
                list,
            ) < n,
        forall|i: int, j: int|
            0 <= i < j < with_priority_below(types, list, n).len() ==> priority(
                #[trigger] with_priority_below(types, list, n)[i],
                list,
            ) <= priority(#[trigger] with_priority_below(types, list, n)[j], list),
    decreases n,
{
    if n > 0 {
        let k = (n - 1) as nat;
        lemma_below_ordered(types, list, k);
        lemma_filter_elements(types, |m: Seq<char>| priority(m, list) == k);
        let low = with_priority_below(types, list, k);
        let top = with_priority(types, list, k);
        let all = with_priority_below(types, list, n);
        assert(all == low + top);
        assert forall|i: int| 0 <= i < all.len() implies priority(#[trigger] all[i], list) == (
        if i < low.len() {
            priority(low[i], list)
        } else {
            k
        }) by {
            if i >= low.len() {
                assert(all[i] == top[i - low.len()]);
            }
        }
    }
}

proof fn lemma_below_stable(types: Seq<Seq<char>>, list: Seq<Seq<char>>, n: nat, k: nat)
    ensures
        with_priority(with_priority_below(types, list, n), list, k) == if k < n {
            with_priority(types, list, k)
        } else {
            Seq::empty()
        },
    decreases n,
{
    let p = |m: Seq<char>| priority(m, list) == k;
    if n > 0 {
        let t = (n - 1) as nat;
        let low = with_priority_below(types, list, t);
        let top = with_priority(types, list, t);
        lemma_below_stable(types, list, t, k);
        Seq::filter_distributes_over_add(low, top, p);
        lemma_filter_elements(types, |m: Seq<char>| priority(m, list) == t);
        if t == k {
            lemma_filter_all(top, p);
            assert(low.filter(p) + top =~= top);
        } else {
            lemma_filter_none(top, p);
            assert(low.filter(p) + top.filter(p) =~= low.filter(p));
        }
    } else {
        lemma_filter_none(Seq::<Seq<char>>::empty(), p);
    }
}

/// Two conditions that exclude each other split what either keeps.
proof fn lemma_filter_split(
    s: Seq<Seq<char>>,
    p: spec_fn(Seq<char>) -> bool,
    q: spec_fn(Seq<char>) -> bool,
    either: spec_fn(Seq<char>) -> bool,
)
    requires
        forall|x: Seq<char>| #[trigger] either(x) == (p(x) || q(x)),
        forall|x: Seq<char>| !(#[trigger] p(x) && q(x)),
    ensures
        s.filter(either).to_multiset() == s.filter(p).to_multiset().add(s.filter(q).to_multiset()),
    decreases s.len(),
{
    broadcast use vstd::seq_lib::group_to_multiset_ensures;

    reveal(Seq::filter);
    if s.len() > 0 {
        let init = s.drop_last();
        let x = s.last();
        lemma_filter_split(init, p, q, either);
        assert(either(x) == (p(x) || q(x)));
        assert(!(p(x) && q(x)));
        if p(x) {
            assert(s.filter(either).to_multiset() =~= s.filter(p).to_multiset().add(
                s.filter(q).to_multiset(),
            ));
        } else if q(x) {
            assert(s.filter(either).to_multiset() =~= s.filter(p).to_multiset().add(
                s.filter(q).to_multiset(),
            ));
        }
    } else {
        assert(s.filter(either).to_multiset() =~= s.filter(p).to_multiset().add(
            s.filter(q).to_multiset(),
        ));
    }
}

proof fn lemma_below_multiset(types: Seq<Seq<char>>, list: Seq<Seq<char>>, n: nat)
    ensures
        with_priority_below(types, list, n).to_multiset() == types.filter(
            |m: Seq<char>| priority(m, list) < n,
        ).to_multiset(),
    decreases n,
{
    broadcast use vstd::seq_lib::group_to_multiset_ensures;

    let below = |m: Seq<char>| priority(m, list) < n;
    if n == 0 {
        lemma_filter_none(types, below);
    } else {
        let k = (n - 1) as nat;
        lemma_below_multiset(types, list, k);
        lemma_filter_split(
            types,
            |m: Seq<char>| priority(m, list) < k,
            |m: Seq<char>| priority(m, list) == k,
            below,
        );
        vstd::seq_lib::lemma_multiset_commutative(
            with_priority_below(types, list, k),
            with_priority(types, list, k),
        );
    }
}

/// The place of an element of a list without repetitions.
pub proof fn lemma_own_priority(list: Seq<Seq<char>>, k: int)
    requires
        0 <= k < list.len(),
        list.no_duplicates(),
    ensures
        priority(list[k], list) == k,
{
    lemma_priority(list[k], list, k);
}

/// The place of a name in a list is that of its first occurrence; a name that
/// does not occur comes after all that do.
pub proof fn law_priority_is_the_first_place(m: Seq<char>, list: Seq<Seq<char>>)
    ensures
        priority(m, list) < list.len() <==> list.contains(m),
        priority(m, list) <= list.len(),
        list.contains(m) ==> list[priority(m, list) as int] == m,
        forall|i: int| 0 <= i < priority(m, list) ==> #[trigger] list[i] != m,
    decreases list.len(),
{
    if list.len() > 0 {
        let rest = list.drop_first();
        if list[0] == m {
            assert(list.contains(m));
        } else {
            law_priority_is_the_first_place(m, rest);
            if rest.contains(m) {
                let i = choose|i: int| 0 <= i < rest.len() && rest[i] == m;
                assert(list[i + 1] == m);
            }
            if list.contains(m) {
                let i = choose|i: int| 0 <= i < list.len() && list[i] == m;
                assert(rest[i - 1] == m);
            }
            assert forall|i: int| 0 <= i < priority(m, list) implies #[trigger] list[i] != m by {
                if i > 0 {
                    assert(list[i] == rest[i - 1]);
                }
            }
        }
    }
}

/// Names that a list does not name keep their order behind those that it names.
pub proof fn law_unlisted_names_keep_their_order(types: Seq<Seq<char>>, list: Seq<Seq<char>>)
    ensures
        by_priority(types, list).filter(|m: Seq<char>| !list.contains(m)) == types.filter(
            |m: Seq<char>| !list.contains(m),
        ),
{
    let n = list.len();
    law_priority_sort_is_stable(types, list, n);
    let sorted = by_priority(types, list);
    let p = |m: Seq<char>| priority(m, list) == n;
    let q = |m: Seq<char>| !list.contains(m);
    assert forall|m: Seq<char>| #[trigger] p(m) == q(m) by {
        law_priority_is_the_first_place(m, list);
    }
    lemma_filter_agree(types, p, q);
    lemma_filter_agree(sorted, p, q);
}

/// Conditions that agree keep the same elements.
pub proof fn lemma_filter_agree<A>(s: Seq<A>, p: spec_fn(A) -> bool, q: spec_fn(A) -> bool)
    requires
        forall|x: A| #[trigger] p(x) == q(x),
    ensures
        s.filter(p) == s.filter(q),
    decreases s.len(),
{
    reveal(Seq::filter);
    if s.len() > 0 {
        lemma_filter_agree(s.drop_last(), p, q);
        assert(p(s.last()) == q(s.last()));
    }
}

/// Whatever starts with `text/` is text, and so are four X11 atoms; nothing
/// else is.
pub proof fn law_text_names(m: Seq<char>)
    ensures
        is_text(m) <==> {
            ||| m.len() >= 5 && m[0] == 't' && m[1] == 'e' && m[2] == 'x' && m[3] == 't' && m[4]
                == '/'
            ||| seq!["UTF8_STRING"@, "STRING"@, "TEXT"@, "COMPOUND_TEXT"@].contains(m)
        },
        is_x11_text_atom(m) <==> seq![
            "UTF8_STRING"@,
            "STRING"@,
            "TEXT"@,
            "COMPOUND_TEXT"@,
        ].contains(m),
{
    reveal_strlit("text/");
    let atoms = seq!["UTF8_STRING"@, "STRING"@, "TEXT"@, "COMPOUND_TEXT"@];
    assert(atoms[0] == "UTF8_STRING"@ && atoms[1] == "STRING"@ && atoms[2] == "TEXT"@ && atoms[3]
        == "COMPOUND_TEXT"@);
    if atoms.contains(m) {
        let i = choose|i: int| 0 <= i < atoms.len() && atoms[i] == m;
        assert(i == 0 || i == 1 || i == 2 || i == 3);
    }
    if m.len() >= 5 && m[0] == 't' && m[1] == 'e' && m[2] == 'x' && m[3] == 't' && m[4] == '/' {
        assert("text/"@ =~= m.subrange(0, 5));
    }
    if "text/"@.is_prefix_of(m) {
        let start = m.subrange(0, 5);
        assert(start == "text/"@);
        assert(start[0] == m[0] && start[1] == m[1] && start[2] == m[2] && start[3] == m[3]
            && start[4] == m[4]);
    }
}

/// A type is internal when it is one of two bookkeeping types of the desktops'
/// file managers, the native data of KDE, or starts as the types of Qt images or
/// of KDE do; no other type is.
pub proof fn law_internal_names(m: Seq<char>)
    ensures
        is_wayland_internal(m) <==> {
            ||| seq![
                "x-special/gnome-copied-files"@,
                "x-special/nautilus-clipboard"@,
                "x-kde-nativedata"@,
            ].contains(m)
            ||| m.len() >= 17 && m.take(17) == "application/x-kde"@
            ||| m.len() >= 22 && m.take(22) == "application/x-qt-image"@
        },
{
    let names = seq![
        "x-special/gnome-copied-files"@,
        "x-special/nautilus-clipboard"@,
        "x-kde-nativedata"@,
    ];
    reveal_strlit("application/x-kde");
    reveal_strlit("application/x-qt-image");
    reveal_strlit("application/x-kde-cutselection");
    assert(names[0] == "x-special/gnome-copied-files"@ && names[1]
        == "x-special/nautilus-clipboard"@ && names[2] == "x-kde-nativedata"@);
    if names.contains(m) {
        let i = choose|i: int| 0 <= i < names.len() && names[i] == m;
        assert(i == 0 || i == 1 || i == 2);
    }
    if m == "application/x-kde-cutselection"@ {
        assert(m.take(17) =~= "application/x-kde"@);
    }
    if m.len() >= 17 {
        assert(m.take(17) == m.subrange(0, 17));
    }
    if m.len() >= 22 {
        assert(m.take(22) == m.subrange(0, 22));
    }
}

/// A target is meta when it is one of the control and drawing atoms or starts
/// as those of the window system do; no other target is.
pub proof fn law_meta_names(m: Seq<char>)
    ensures
        is_x11_meta(m) <==> {
            ||| seq![
                "TARGETS"@,
                "MULTIPLE"@,
                "TIMESTAMP"@,
                "DELETE"@,
                "INSERT_PROPERTY"@,
                "INSERT_SELECTION"@,
                "INCR"@,
                "CLIPBOARD_MANAGER"@,
                "SAVE_TARGETS"@,
            ].contains(m)
            ||| seq![
                "ATOM"@,
                "ATOM_PAIR"@,
                "INTEGER"@,
                "PIXMAP"@,
                "BITMAP"@,
                "COLORMAP"@,
                "DRAWABLE"@,
                "WINDOW"@,
                "PIXEL"@,
            ].contains(m)
            ||| m.len() >= 5 && m.take(5) == "_NET_"@
            ||| m.len() >= 4 && m.take(4) == "_WM_"@
            ||| m.len() >= 10 && m.take(10) == "_XSETTINGS"@
            ||| m.len() >= 6 && m.take(6) == "_MOTIF"@
        },
{
    let control = seq![
        "TARGETS"@,
        "MULTIPLE"@,
        "TIMESTAMP"@,
        "DELETE"@,
        "INSERT_PROPERTY"@,
        "INSERT_SELECTION"@,
        "INCR"@,
        "CLIPBOARD_MANAGER"@,
        "SAVE_TARGETS"@,
    ];
    let drawing = seq![
        "ATOM"@,
        "ATOM_PAIR"@,
        "INTEGER"@,
        "PIXMAP"@,
        "BITMAP"@,
        "COLORMAP"@,
        "DRAWABLE"@,
        "WINDOW"@,
        "PIXEL"@,
    ];
    assert(control[0] == "TARGETS"@ && control[1] == "MULTIPLE"@ && control[2] == "TIMESTAMP"@
        && control[3] == "DELETE"@ && control[4] == "INSERT_PROPERTY"@ && control[5]
        == "INSERT_SELECTION"@ && control[6] == "INCR"@ && control[7] == "CLIPBOARD_MANAGER"@
        && control[8] == "SAVE_TARGETS"@);
    assert(drawing[0] == "ATOM"@ && drawing[1] == "ATOM_PAIR"@ && drawing[2] == "INTEGER"@
        && drawing[3] == "PIXMAP"@ && drawing[4] == "BITMAP"@ && drawing[5] == "COLORMAP"@
        && drawing[6] == "DRAWABLE"@ && drawing[7] == "WINDOW"@ && drawing[8] == "PIXEL"@);
    if control.contains(m) {
        let i = choose|i: int| 0 <= i < control.len() && control[i] == m;
        assert(0 <= i < 9);
    }
    if drawing.contains(m) {
        let i = choose|i: int| 0 <= i < drawing.len() && drawing[i] == m;
        assert(0 <= i < 9);
    }
    reveal_strlit("_NET_");
    reveal_strlit("_WM_");
    reveal_strlit("_XSETTINGS");
    reveal_strlit("_MOTIF");
    if m.len() >= 10 {
        assert(m.take(10) == m.subrange(0, 10));
    }
    if m.len() >= 6 {
        assert(m.take(6) == m.subrange(0, 6));
    }
    if m.len() >= 5 {
        assert(m.take(5) == m.subrange(0, 5));
    }
    if m.len() >= 4 {
        assert(m.take(4) == m.subrange(0, 4));
    }
}

/// The probe lists, best type first, and the cap.
pub proof fn law_probe_lists()
    ensures
        str_views(WAYLAND_PROBE_MIME_TYPES@) == seq![
            "image/png"@,
            "image/jpeg"@,
            "image/webp"@,
            "image/gif"@,
            "image/bmp"@,
            "text/html"@,
            "text/uri-list"@,
            "text/plain;charset=utf-8"@,
            "text/plain"@,
        ],
        str_views(X11_PROBE_TARGETS@) == seq![
            "image/png"@,
            "image/jpeg"@,
            "text/html"@,
            "text/uri-list"@,
            "UTF8_STRING"@,
            "STRING"@,
            "TEXT"@,
        ],
        MAX_MIME_TYPES == 64,
{
}

// ---------------------------------------------------------------------------
// Lists
// ---------------------------------------------------------------------------

/// Owned copies of a list of names.
pub fn to_strings(list: &[&str]) -> (r: Vec<String>)
    ensures
        text::views(r@) == str_views(list@),
{
    let mut out: Vec<String> = Vec::new();
    let mut i: usize = 0;
    while i < list.len()
        invariant
            i <= list.len(),
            out.len() == i,
            forall|j: int| 0 <= j < i ==> #[trigger] out@[j]@ == list@[j]@,
        decreases list.len() - i,
    {
        out.push(list[i].to_owned());
        i += 1;
    }
    assert(text::views(out@) =~= str_views(list@));
    out
}

} // verus!
