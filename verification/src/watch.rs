//! Keeping the clipboards in step: noticing a change and spreading it.
use vstd::prelude::*;
use vstd::string::*;
use vstd::utf8::*;

use crate::clipboard;
use crate::clipboard::Clipboard;
use crate::data;
use crate::data::{ClipboardData, MimeEntry};
use crate::decode::from_utf8;
use crate::error::{MyError, MyResult};
use crate::laws;
use crate::mime;
use crate::mime::is_text_mime;
use crate::selection;
use crate::setup;
use crate::setup::take_offered;
use crate::text;
use crate::text::trim_end_nuls;

verus! {

// ---------------------------------------------------------------------------
// Looking at a clipboard
// ---------------------------------------------------------------------------

/// What looking at one clipboard gave.
pub enum Look {
    /// It is not to be polled.
    Skipped,
    /// It was read.
    Read(MyResult<ClipboardData>),
}

/// Whether looking at `c` can have given `look`.
pub open spec fn can_see<C: Clipboard>(c: &C, look: Look) -> bool {
    match look {
        Look::Skipped => call_ensures(C::should_poll, (c,), false),
        Look::Read(r) => call_ensures(C::should_poll, (c,), true) && call_ensures(
            C::get_data,
            (c,),
            r,
        ),
    }
}

/// Looks at a clipboard.
fn look_at<C: Clipboard>(c: &C) -> (look: Look)
    ensures
        can_see(c, look),
{
    if c.should_poll() {
        Look::Read(c.get_data())
    } else {
        Look::Skipped
    }
}

/// What a look means for someone who knows the content `baseline`.
pub enum Verdict {
    /// Nothing new.
    Quiet,
    /// The clipboard could not be read.
    Failed(MyError),
    /// There is new content.
    Changed(ClipboardData),
}

/// Whether a payload is new content: it is not empty and not the content
/// `baseline`, if there is one.
pub open spec fn is_news(
    payload: Seq<data::EntryView>,
    baseline: Option<Seq<data::EntryView>>,
) -> bool {
    payload.len() > 0 && match baseline {
        None => true,
        Some(known) => !data::same_meaning(payload, known),
    }
}

/// The entries of a payload that may be missing.
pub open spec fn payload_view(payload: Option<ClipboardData>) -> Option<Seq<data::EntryView>> {
    match payload {
        Some(d) => Some(d@),
        None => None,
    }
}

/// What a look means for someone who knows the content `baseline`.
pub open spec fn verdict_on(look: Look, baseline: Option<Seq<data::EntryView>>) -> Verdict {
    match look {
        Look::Skipped => Verdict::Quiet,
        Look::Read(Err(e)) => Verdict::Failed(e),
        Look::Read(Ok(d)) => if is_news(d@, baseline) {
            Verdict::Changed(d)
        } else {
            Verdict::Quiet
        },
    }
}

/// What a look means for someone who knows the content `baseline`.
pub fn judge(look: Look, baseline: &Option<ClipboardData>) -> (v: Verdict)
    ensures
        v == verdict_on(look, payload_view(*baseline)),
{
    match look {
        Look::Skipped => Verdict::Quiet,
        Look::Read(Err(e)) => Verdict::Failed(e),
        Look::Read(Ok(new_data)) => {
            if new_data.is_empty() {
                return Verdict::Quiet;
            }
            let changed = match baseline {
                None => true,
                Some(prev) => !new_data.same_content(prev),
            };
            if changed {
                Verdict::Changed(new_data)
            } else {
                Verdict::Quiet
            }
        },
    }
}

// ---------------------------------------------------------------------------
// One round over all clipboards
// ---------------------------------------------------------------------------

/// How a round over all clipboards ended.
pub enum Round {
    /// No clipboard had new content.
    Quiet,
    /// The clipboard at this place could not be read.
    Failed(usize, MyError),
    /// The clipboard at this place had new content.
    Changed(usize, ClipboardData),
}

/// Whether the clipboards can have been looked at one after the other with
/// these results, up to the first that was not quiet.
pub open spec fn looked_round<C: Clipboard>(
    clipboards: Seq<C>,
    baseline: Option<Seq<data::EntryView>>,
    looks: Seq<Look>,
) -> bool {
    &&& looks.len() <= clipboards.len()
    &&& forall|k: int| 0 <= k < looks.len() ==> can_see(&clipboards[k], #[trigger] looks[k])
    &&& forall|k: int|
        0 <= k < looks.len() - 1 ==> verdict_on(#[trigger] looks[k], baseline) is Quiet
    &&& looks.len() < clipboards.len() ==> looks.len() > 0 && !(verdict_on(
        looks.last(),
        baseline,
    ) is Quiet)
}

/// How those looks end the round.
pub open spec fn round_of(looks: Seq<Look>, baseline: Option<Seq<data::EntryView>>) -> Round {
    if looks.len() == 0 {
        Round::Quiet
    } else {
        let place = (looks.len() - 1) as usize;
        match verdict_on(looks.last(), baseline) {
            Verdict::Quiet => Round::Quiet,
            Verdict::Failed(e) => Round::Failed(place, e),
            Verdict::Changed(d) => Round::Changed(place, d),
        }
    }
}

/// Looks at all clipboards that can be polled, until one has new content or
/// cannot be read.
pub fn poll_round<C: Clipboard>(clipboards: &Vec<C>, baseline: &Option<ClipboardData>) -> (r: Round)
    ensures
        exists|looks: Seq<Look>|
            looked_round(clipboards@, payload_view(*baseline), looks) && r == #[trigger] round_of(
                looks,
                payload_view(*baseline),
            ),
{
    let ghost known = payload_view(*baseline);
    let ghost mut looks: Seq<Look> = Seq::empty();
    let mut i: usize = 0;
    while i < clipboards.len()
        invariant
            i <= clipboards.len(),
            looks.len() == i,
            known == payload_view(*baseline),
            forall|k: int| 0 <= k < looks.len() ==> can_see(&clipboards@[k], #[trigger] looks[k]),
            forall|k: int|
                0 <= k < looks.len() ==> verdict_on(#[trigger] looks[k], known) is Quiet,
        decreases clipboards.len() - i,
    {
        let look = look_at(&clipboards[i]);
        proof {
            looks = looks.push(look);
        }
        match judge(look, baseline) {
            Verdict::Quiet => {},
            Verdict::Failed(e) => {
                let r = Round::Failed(i, e);
                assert(looked_round(clipboards@, known, looks));
                assert(r == round_of(looks, known));
                return r;
            },
            Verdict::Changed(d) => {
                let r = Round::Changed(i, d);
                assert(looked_round(clipboards@, known, looks));
                assert(r == round_of(looks, known));
                return r;
            },
        }
        i += 1;
    }
    assert(looked_round(clipboards@, known, looks));
    assert(round_of(looks, known) == Round::Quiet);
    Round::Quiet
}

// ---------------------------------------------------------------------------
// The content to start from
// ---------------------------------------------------------------------------

/// What a look offers as a baseline: the payload, unless the clipboard was
/// skipped, could not be read or was empty.
pub open spec fn look_offers(look: Look) -> Option<Seq<data::EntryView>> {
    match look {
        Look::Skipped => None,
        Look::Read(r) => setup::offered(r),
    }
}

/// Whether the clipboards can have been looked at one after the other with
/// these results, up to the first that offered something.
pub open spec fn looked_for_baseline<C: Clipboard>(clipboards: Seq<C>, looks: Seq<Look>) -> bool {
    &&& looks.len() <= clipboards.len()
    &&& forall|k: int| 0 <= k < looks.len() ==> can_see(&clipboards[k], #[trigger] looks[k])
    &&& forall|k: int| 0 <= k < looks.len() - 1 ==> look_offers(#[trigger] looks[k]) is None
    &&& looks.len() < clipboards.len() ==> looks.len() > 0 && look_offers(looks.last()) is Some
}

/// The baseline that those looks give.
pub open spec fn baseline_of(looks: Seq<Look>) -> Option<Seq<data::EntryView>> {
    if looks.len() == 0 {
        None
    } else {
        look_offers(looks.last())
    }
}

/// The current content: that of the first clipboard that can be polled, can be
/// read and is not empty.
pub fn snapshot<C: Clipboard>(clipboards: &Vec<C>) -> (r: Option<ClipboardData>)
    ensures
        exists|looks: Seq<Look>|
            looked_for_baseline(clipboards@, looks) && payload_view(r) == #[trigger] baseline_of(
                looks,
            ),
{
    let ghost mut looks: Seq<Look> = Seq::empty();
    let mut i: usize = 0;
    while i < clipboards.len()
        invariant
            i <= clipboards.len(),
            looks.len() == i,
            forall|k: int| 0 <= k < looks.len() ==> can_see(&clipboards@[k], #[trigger] looks[k]),
            forall|k: int| 0 <= k < looks.len() ==> look_offers(#[trigger] looks[k]) is None,
        decreases clipboards.len() - i,
    {
        let look = look_at(&clipboards[i]);
        proof {
            looks = looks.push(look);
        }
        if let Look::Read(read) = look {
            let found = take_offered(read);
            if found.is_some() {
                assert(looked_for_baseline(clipboards@, looks));
                assert(payload_view(found) == baseline_of(looks));
                return found;
            }
        }
        i += 1;
    }
    let none: Option<ClipboardData> = None;
    assert(looked_for_baseline(clipboards@, looks));
    assert(payload_view(none) == baseline_of(looks));
    none
}

// ---------------------------------------------------------------------------
// Spreading new content
// ---------------------------------------------------------------------------

/// Whether writing `payload` to every clipboard can have ended so.
pub open spec fn can_spread<C: Clipboard>(
    clipboards: Seq<C>,
    payload: Seq<data::EntryView>,
    results: Seq<MyResult<()>>,
) -> bool {
    &&& results.len() == clipboards.len()
    &&& forall|k: int|
        0 <= k < results.len() ==> clipboard::can_write(&clipboards[k], payload, #[trigger] results[k])
}

/// The failures among results, with their places.
pub open spec fn failures_in(results: Seq<MyResult<()>>) -> Seq<(usize, MyError)>
    decreases results.len(),
{
    if results.len() == 0 {
        Seq::empty()
    } else {
        let earlier = failures_in(results.drop_last());
        match results.last() {
            Ok(_) => earlier,
            Err(e) => earlier.push(((results.len() - 1) as usize, e)),
        }
    }
}

/// Writes the payload to every clipboard. A clipboard that cannot be written
/// does not keep the others from it; the failures are returned.
pub fn propagate<C: Clipboard>(clipboards: &Vec<C>, payload: &ClipboardData) -> (failures: Vec<
    (usize, MyError),
>)
    ensures
        exists|results: Seq<MyResult<()>>|
            can_spread(clipboards@, payload@, results) && failures@ == #[trigger] failures_in(
                results,
            ),
{
    let ghost mut results: Seq<MyResult<()>> = Seq::empty();
    let mut failures: Vec<(usize, MyError)> = Vec::new();
    let mut i: usize = 0;
    while i < clipboards.len()
        invariant
            i <= clipboards.len(),
            results.len() == i,
            forall|k: int|
                0 <= k < results.len() ==> clipboard::can_write(
                    &clipboards@[k],
                    payload@,
                    #[trigger] results[k],
                ),
            failures@ == failures_in(results),
        decreases clipboards.len() - i,
    {
        let result = clipboards[i].set_data(payload);
        proof {
            assert(clipboard::can_write(&clipboards@[i as int], payload@, result));
            let more = results.push(result);
            assert(more.drop_last() =~= results);
            results = more;
        }
        if let Err(e) = result {
            failures.push((i, e));
        }
        i += 1;
    }
    assert(can_spread(clipboards@, payload@, results));
    failures
}

// ---------------------------------------------------------------------------
// The watch
// ---------------------------------------------------------------------------

/// A watch over the clipboards, between two pauses.
pub enum Watch {
    /// Content was just spread, or nothing was done yet: `last` is what was
    /// spread.
    Resting { last: Option<ClipboardData> },
    /// No change since `baseline` so far.
    Watching { baseline: Option<ClipboardData> },
}

/// What a watch did between two pauses.
pub struct Progress {
    /// The watch to go on with.
    pub watch: Watch,
    /// The place of the clipboard that had new content, if one had.
    pub source: Option<usize>,
    /// The clipboards that this content could not be written to.
    pub failures: Vec<(usize, MyError)>,
}

/// Whether `baseline` can be what a watch compares with: what was spread last,
/// or, when nothing was, the content found on the clipboards; once watching,
/// it stays.
pub open spec fn can_compare_with<C: Clipboard>(
    watch: Watch,
    clipboards: Seq<C>,
    baseline: Option<Seq<data::EntryView>>,
) -> bool {
    match watch {
        Watch::Resting { last } => match last {
            Some(d) => baseline == Some(d@),
            None => exists|looks: Seq<Look>|
                looked_for_baseline(clipboards, looks) && baseline == #[trigger] baseline_of(looks),
        },
        Watch::Watching { baseline: b } => baseline == payload_view(b),
    }
}

/// Whether a round that ended so can have led on to this progress: a quiet one
/// goes on watching with the same baseline, new content is spread to all
/// clipboards and is then what the watch knows.
pub open spec fn can_follow<C: Clipboard>(
    clipboards: Seq<C>,
    baseline: Option<Seq<data::EntryView>>,
    round: Round,
    result: MyResult<Progress>,
) -> bool {
    match round {
        Round::Failed(_, e) => result == MyResult::<Progress>::Err(e),
        Round::Quiet => {
            &&& result matches Ok(p)
            &&& p.watch matches Watch::Watching { baseline: b } && payload_view(b) == baseline
            &&& p.source is None
            &&& p.failures@.len() == 0
        },
        Round::Changed(place, d) => {
            &&& result matches Ok(p)
            &&& p.watch matches Watch::Resting { last: Some(l) } && l@ == d@
            &&& p.source == Some(place)
            &&& exists|results: Seq<MyResult<()>>|
                can_spread(clipboards, d@, results) && p.failures@ == #[trigger] failures_in(
                    results,
                )
        },
    }
}

/// Whether a watch can have gone on to this result: it took its baseline,
/// looked at the clipboards and acted on that.
pub open spec fn can_advance<C: Clipboard>(
    watch: Watch,
    clipboards: Seq<C>,
    baseline: Option<Seq<data::EntryView>>,
    looks: Seq<Look>,
    result: MyResult<Progress>,
) -> bool {
    &&& can_compare_with(watch, clipboards, baseline)
    &&& looked_round(clipboards, baseline, looks)
    &&& can_follow(clipboards, baseline, round_of(looks, baseline), result)
}

impl Watch {
    /// A watch over the clipboards, before anything was done. There must be
    /// clipboards to watch.
    pub fn start<C: Clipboard>(clipboards: &Vec<C>) -> (r: MyResult<Watch>)
        ensures
            r == if clipboards@.len() == 0 {
                MyResult::<Watch>::Err(MyError::NoClipboards)
            } else {
                MyResult::<Watch>::Ok(Watch::Resting { last: None })
            },
    {
        if clipboards.is_empty() {
            return Err(MyError::NoClipboards);
        }
        Ok(Watch::Resting { last: None })
    }

    /// How many milliseconds to sleep before going on.
    pub fn pause(&self) -> (ms: u64)
        ensures
            ms == match *self {
                Watch::Resting { .. } => 100u64,
                Watch::Watching { .. } => 200u64,
            },
    {
        match self {
            Watch::Resting { .. } => 100,
            Watch::Watching { .. } => 200,
        }
    }

    /// Goes on until the next pause. Uses semantic comparison so that content
    /// equivalent across platforms (e.g. wayland text/html vs X11 UTF8_STRING
    /// carrying the same plain text) does not trigger spurious re-propagation.
    pub fn advance<C: Clipboard>(self, clipboards: &Vec<C>) -> (r: MyResult<Progress>)
        ensures
            exists|baseline: Option<Seq<data::EntryView>>, looks: Seq<Look>| #[trigger]
                can_advance(self, clipboards@, baseline, looks, r),
    {
        let ghost before = self;
        // Use what was spread last when available; otherwise snapshot the
        // current clipboard state so we can detect the first subsequent change.
        let baseline = match self {
            Watch::Resting { last } => match last {
                Some(d) => Some(d),
                None => snapshot(clipboards),
            },
            Watch::Watching { baseline } => baseline,
        };
        let ghost known = payload_view(baseline);
        assert(can_compare_with(before, clipboards@, known));
        let round = poll_round(clipboards, &baseline);
        let ghost looks = choose|looks: Seq<Look>|
            looked_round(clipboards@, known, looks) && round == #[trigger] round_of(looks, known);
        let r: MyResult<Progress> = match round {
            Round::Failed(_, e) => Err(e),
            Round::Quiet => Ok(
                Progress {
                    watch: Watch::Watching { baseline },
                    source: None,
                    failures: Vec::new(),
                },
            ),
            Round::Changed(place, new_data) => {
                let failures = propagate(clipboards, &new_data);
                Ok(
                    Progress {
                        watch: Watch::Resting { last: Some(new_data) },
                        source: Some(place),
                        failures,
                    },
                )
            },
        };
        assert(can_advance(before, clipboards@, known, looks, r));
        r
    }
}

// ---------------------------------------------------------------------------
// What an entry looks like in a report
// ---------------------------------------------------------------------------

/// A short account of an entry.
pub enum Preview {
    /// Its text, without NULs at the end.
    Text(String),
    /// It claims to be text and is not; the number of bytes.
    InvalidText(usize),
    /// It is not text; the number of bytes.
    Binary(usize),
}

/// A short account of an entry.
pub fn preview(entry: &MimeEntry) -> (r: Preview)
    ensures
        match r {
            Preview::Text(t) => mime::is_text(entry@.mime_type) && valid_utf8(entry@.data) && t@
                == text::without_trailing_nuls(decode_utf8(entry@.data)),
            Preview::InvalidText(n) => mime::is_text(entry@.mime_type) && !valid_utf8(entry@.data)
                && n == entry@.data.len(),
            Preview::Binary(n) => !mime::is_text(entry@.mime_type) && n == entry@.data.len(),
        },
{
    if is_text_mime(entry.mime_type.as_str()) {
        match from_utf8(entry.data.as_slice()) {
            Some(s) => Preview::Text(trim_end_nuls(s)),
            None => Preview::InvalidText(entry.data.len()),
        }
    } else {
        Preview::Binary(entry.data.len())
    }
}

// ---------------------------------------------------------------------------
// Laws
// ---------------------------------------------------------------------------

/// Content that was spread is not taken for new content when it comes back
/// unchanged: there is no echo loop.
pub proof fn law_spread_content_is_quiet(look: Look, spread: Seq<data::EntryView>)
    requires
        look matches Look::Read(Ok(d)) && d@ == spread,
    ensures
        verdict_on(look, Some(spread)) is Quiet,
{
    laws::law_same_content_reflexive(spread);
}

/// Content that was spread is not taken for new content when a text-only
/// clipboard gives back its text.
pub proof fn law_spread_text_is_quiet(look: Look, spread: Seq<data::EntryView>)
    requires
        data::text_of(spread) is Some,
        look matches Look::Read(Ok(d)) && d@ == data::text_payload(data::text_of(spread)->0),
    ensures
        verdict_on(look, Some(spread)) is Quiet,
{
    laws::law_text_echo_is_unchanged(spread);
}

/// Only content that is there and differs from the baseline ends a wait.
pub proof fn law_change_is_news(looks: Seq<Look>, baseline: Option<Seq<data::EntryView>>)
    ensures
        round_of(looks, baseline) matches Round::Changed(_, d) ==> is_news(d@, baseline),
{
}

/// When every clipboard has the content that is known, or nothing, a round is
/// quiet and the watch goes on.
pub proof fn law_settled_clipboards_are_quiet<C: Clipboard>(
    clipboards: Seq<C>,
    known: Seq<data::EntryView>,
    looks: Seq<Look>,
)
    requires
        looked_round(clipboards, Some(known), looks),
        forall|k: int|
            0 <= k < looks.len() ==> ((#[trigger] looks[k]) matches Look::Read(r) ==> (r matches Ok(d)
                && (d@.len() == 0 || data::same_meaning(d@, known)))),
    ensures
        round_of(looks, Some(known)) is Quiet,
        looks.len() == clipboards.len(),
{
    if looks.len() > 0 {
        let last = looks[looks.len() - 1];
        assert(verdict_on(last, Some(known)) is Quiet);
    }
}

/// After new content was spread, the watch knows exactly that content.
pub proof fn law_spread_content_is_known<C: Clipboard>(
    watch: Watch,
    clipboards: Seq<C>,
    baseline: Option<Seq<data::EntryView>>,
    looks: Seq<Look>,
    progress: Progress,
    next: Option<Seq<data::EntryView>>,
)
    requires
        can_advance(watch, clipboards, baseline, looks, MyResult::<Progress>::Ok(progress)),
        progress.source is Some,
        can_compare_with(progress.watch, clipboards, next),
    ensures
        round_of(looks, baseline) matches Round::Changed(_, d) && next == Some(d@),
{
}

/// Only a clipboard that cannot be read ends a watch; one that cannot be
/// written to does not.
pub proof fn law_only_reading_ends_a_watch<C: Clipboard>(
    watch: Watch,
    clipboards: Seq<C>,
    baseline: Option<Seq<data::EntryView>>,
    looks: Seq<Look>,
    e: MyError,
)
    requires
        can_advance(watch, clipboards, baseline, looks, MyResult::<Progress>::Err(e)),
    ensures
        round_of(looks, baseline) matches Round::Failed(_, failure) && failure == e,
{
}

// ---------------------------------------------------------------------------
// A whole run
// ---------------------------------------------------------------------------

/// What happened between two pauses of a run.
pub struct SyncStep {
    pub baseline: Option<Seq<data::EntryView>>,
    pub looks: Seq<Look>,
    pub progress: Progress,
}

/// The watch that a run has after `k` steps.
pub open spec fn watch_at(steps: Seq<SyncStep>, k: int) -> Watch {
    if k == 0 {
        Watch::Resting { last: None }
    } else {
        steps[k - 1].progress.watch
    }
}

/// Whether advancing a new watch again and again can have gone through these
/// steps.
pub open spec fn sync_run<C: Clipboard>(clipboards: Seq<C>, steps: Seq<SyncStep>) -> bool {
    forall|k: int|
        0 <= k < steps.len() ==> can_advance(
            #[trigger] watch_at(steps, k),
            clipboards,
            steps[k].baseline,
            steps[k].looks,
            MyResult::<Progress>::Ok(steps[k].progress),
        )
}

/// The payload that step `k` spread, if it spread one.
pub open spec fn spread_at(steps: Seq<SyncStep>, k: int) -> Option<Seq<data::EntryView>> {
    match round_of(steps[k].looks, steps[k].baseline) {
        Round::Changed(_, d) => Some(d@),
        _ => None,
    }
}

/// Every payload that a run finds is handed to every clipboard, its source
/// included, and what came of each write is all that is reported.
pub proof fn law_run_spreads_to_all<C: Clipboard>(
    clipboards: Seq<C>,
    steps: Seq<SyncStep>,
    k: int,
)
    requires
        sync_run(clipboards, steps),
        0 <= k < steps.len(),
        spread_at(steps, k) is Some,
    ensures
        exists|results: Seq<MyResult<()>>|
            can_spread(clipboards, spread_at(steps, k)->0, results) && steps[k].progress.failures@
                == #[trigger] failures_in(results),
        is_news(spread_at(steps, k)->0, steps[k].baseline),
{
    assert(can_advance(
        watch_at(steps, k),
        clipboards,
        steps[k].baseline,
        steps[k].looks,
        MyResult::<Progress>::Ok(steps[k].progress),
    ));
}

/// Once a run has spread a payload, it compares with that payload until it
/// spreads the next, however many quiet rounds lie between.
pub proof fn law_spread_payload_stays_the_baseline<C: Clipboard>(
    clipboards: Seq<C>,
    steps: Seq<SyncStep>,
    i: int,
    j: int,
)
    requires
        sync_run(clipboards, steps),
        0 <= i < j < steps.len(),
        spread_at(steps, i) is Some,
        forall|k: int| i < k < j ==> (#[trigger] spread_at(steps, k)) is None,
    ensures
        steps[j].baseline == spread_at(steps, i),
    decreases j - i,
{
    assert(can_advance(
        watch_at(steps, j - 1),
        clipboards,
        steps[j - 1].baseline,
        steps[j - 1].looks,
        MyResult::<Progress>::Ok(steps[j - 1].progress),
    ));
    assert(can_compare_with(watch_at(steps, j), clipboards, steps[j].baseline));
    if i < j - 1 {
        law_spread_payload_stays_the_baseline(clipboards, steps, i, j - 1);
        assert(spread_at(steps, j - 1) is None);
    }
}

/// Of two payloads that a run spreads one after the other, the later is never
/// the content that the earlier was: nothing is spread twice in a row.
pub proof fn law_next_payload_is_another<C: Clipboard>(
    clipboards: Seq<C>,
    steps: Seq<SyncStep>,
    i: int,
    j: int,
)
    requires
        sync_run(clipboards, steps),
        0 <= i < j < steps.len(),
        spread_at(steps, i) is Some,
        spread_at(steps, j) is Some,
        forall|k: int| i < k < j ==> (#[trigger] spread_at(steps, k)) is None,
    ensures
        !data::same_meaning(spread_at(steps, j)->0, spread_at(steps, i)->0),
{
    law_spread_payload_stays_the_baseline(clipboards, steps, i, j);
    law_run_spreads_to_all(clipboards, steps, j);
}

// ---------------------------------------------------------------------------
// What counts as a change
// ---------------------------------------------------------------------------

/// Every payload with an entry is a change when nothing is known yet, and
/// otherwise exactly when it is not the known content. What is handed on is the
/// payload itself.
pub proof fn law_unknown_content_is_a_change(
    d: ClipboardData,
    baseline: Option<Seq<data::EntryView>>,
)
    requires
        d@.len() > 0,
    ensures
        baseline is None ==> verdict_on(Look::Read(Ok(d)), baseline) == Verdict::Changed(d),
        baseline matches Some(known) ==> (verdict_on(Look::Read(Ok(d)), baseline)
            == Verdict::Changed(d) <==> !data::same_meaning(d@, known)),
        baseline matches Some(known) ==> (verdict_on(Look::Read(Ok(d)), baseline) is Quiet
            <==> data::same_meaning(d@, known)),
{
}

/// A payload with a binary entry is a change whenever only text is known,
/// whether or not it has text itself.
pub proof fn law_binary_payload_is_a_change(
    d: ClipboardData,
    known: Seq<data::EntryView>,
    i: int,
)
    requires
        0 <= i < d@.len(),
        !mime::is_text(d@[i].mime_type),
        forall|j: int| 0 <= j < known.len() ==> mime::is_text((#[trigger] known[j]).mime_type),
    ensures
        verdict_on(Look::Read(Ok(d)), Some(known)) == Verdict::Changed(d),
{
    laws::law_binary_is_new_against_text(d@, known, i);
}

/// Another first entry in a payload with binary data is a change, whatever the
/// other entries are.
pub proof fn law_other_binary_payload_is_a_change(
    d: ClipboardData,
    known: Seq<data::EntryView>,
    i: int,
)
    requires
        0 <= i < d@.len(),
        !mime::is_text(d@[i].mime_type),
        known.len() > 0 ==> d@[0].data != known[0].data,
    ensures
        verdict_on(Look::Read(Ok(d)), Some(known)) == Verdict::Changed(d),
{
    assert(data::holds_binary(d@));
}

/// A text-only payload is a change exactly when its text is not the known one.
pub proof fn law_other_text_is_a_change(d: ClipboardData, known: Seq<data::EntryView>)
    requires
        d@.len() > 0,
        forall|j: int| 0 <= j < d@.len() ==> mime::is_text((#[trigger] d@[j]).mime_type),
    ensures
        verdict_on(Look::Read(Ok(d)), Some(known)) == Verdict::Changed(d) <==> data::text_of(d@)
            != data::text_of(known),
{
    laws::law_text_content_is_compared_by_text(d@, known);
}

/// A clipboard that is not polled or is empty is no change; one that cannot be
/// read is a failure, with its reason.
pub proof fn law_what_is_no_change(
    d: ClipboardData,
    e: MyError,
    baseline: Option<Seq<data::EntryView>>,
)
    ensures
        verdict_on(Look::Skipped, baseline) is Quiet,
        d@.len() == 0 ==> verdict_on(Look::Read(Ok(d)), baseline) is Quiet,
        verdict_on(Look::Read(Err(e)), baseline) == Verdict::Failed(e),
{
}

/// Whether a clipboard can have had nothing new: it is not to be polled, or it
/// was read and is empty or has the known content.
pub open spec fn nothing_new<C: Clipboard>(
    c: &C,
    baseline: Option<Seq<data::EntryView>>,
) -> bool {
    ||| call_ensures(C::should_poll, (c,), false)
    ||| exists|d: ClipboardData| #[trigger]
        call_ensures(C::get_data, (c,), MyResult::<ClipboardData>::Ok(d)) && (d@.len() == 0 || (
        baseline is Some && data::same_meaning(d@, baseline->0)))
}

proof fn lemma_quiet_look<C: Clipboard>(
    c: &C,
    look: Look,
    baseline: Option<Seq<data::EntryView>>,
)
    requires
        can_see(c, look),
        verdict_on(look, baseline) is Quiet,
    ensures
        nothing_new(c, baseline),
{
    if let Look::Read(Ok(d)) = look {
        assert(call_ensures(C::get_data, (c,), MyResult::<ClipboardData>::Ok(d)));
    }
}

/// A round is quiet only when no clipboard had anything new.
pub proof fn law_quiet_round_saw_every_clipboard<C: Clipboard>(
    clipboards: Seq<C>,
    baseline: Option<Seq<data::EntryView>>,
    looks: Seq<Look>,
    k: int,
)
    requires
        looked_round(clipboards, baseline, looks),
        round_of(looks, baseline) is Quiet,
        0 <= k < clipboards.len(),
    ensures
        nothing_new(&clipboards[k], baseline),
{
    assert(can_see(&clipboards[k], looks[k]));
    lemma_quiet_look(&clipboards[k], looks[k], baseline);
}

/// A round that ends with a change ends with what the clipboard at that place
/// gave, which is not empty and not the known content.
pub proof fn law_changed_round_gives_what_was_read<C: Clipboard>(
    clipboards: Seq<C>,
    baseline: Option<Seq<data::EntryView>>,
    looks: Seq<Look>,
    place: usize,
    d: ClipboardData,
)
    requires
        looked_round(clipboards, baseline, looks),
        round_of(looks, baseline) == Round::Changed(place, d),
        clipboards.len() <= usize::MAX,
    ensures
        place < clipboards.len(),
        call_ensures(C::should_poll, (&clipboards[place as int],), true),
        call_ensures(
            C::get_data,
            (&clipboards[place as int],),
            MyResult::<ClipboardData>::Ok(d),
        ),
        d@.len() > 0,
        baseline matches Some(known) ==> !data::same_meaning(d@, known),
{
    let last = looks.len() - 1;
    assert(can_see(&clipboards[last], looks[last]));
}

/// No clipboard before the place where a round ended had anything new.
pub proof fn law_changed_round_gives_the_first_news<C: Clipboard>(
    clipboards: Seq<C>,
    baseline: Option<Seq<data::EntryView>>,
    looks: Seq<Look>,
    k: int,
)
    requires
        looked_round(clipboards, baseline, looks),
        clipboards.len() <= usize::MAX,
        match round_of(looks, baseline) {
            Round::Quiet => false,
            Round::Changed(place, _) => 0 <= k < place,
            Round::Failed(place, _) => 0 <= k < place,
        },
    ensures
        k < clipboards.len(),
        nothing_new(&clipboards[k], baseline),
{
    assert(can_see(&clipboards[k], looks[k]));
    assert(verdict_on(looks[k], baseline) is Quiet);
    lemma_quiet_look(&clipboards[k], looks[k], baseline);
}

/// A round that fails fails with what reading the clipboard at that place gave.
pub proof fn law_failed_round_gives_the_failure<C: Clipboard>(
    clipboards: Seq<C>,
    baseline: Option<Seq<data::EntryView>>,
    looks: Seq<Look>,
    place: usize,
    e: MyError,
)
    requires
        looked_round(clipboards, baseline, looks),
        round_of(looks, baseline) == Round::Failed(place, e),
        clipboards.len() <= usize::MAX,
    ensures
        place < clipboards.len(),
        call_ensures(C::should_poll, (&clipboards[place as int],), true),
        call_ensures(
            C::get_data,
            (&clipboards[place as int],),
            MyResult::<ClipboardData>::Err(e),
        ),
{
    let last = looks.len() - 1;
    assert(can_see(&clipboards[last], looks[last]));
}

/// Whether a clipboard can have had no content to start from: it is not to be
/// polled, cannot be read or is empty.
pub open spec fn offers_nothing<C: Clipboard>(c: &C) -> bool {
    ||| call_ensures(C::should_poll, (c,), false)
    ||| exists|r: MyResult<ClipboardData>| #[trigger]
        call_ensures(C::get_data, (c,), r) && (r is Err || r->Ok_0@.len() == 0)
}

/// The baseline of a new watch is the payload of the first clipboard that can
/// be polled, can be read and is not empty; there is none only when there is no
/// such clipboard.
pub proof fn law_baseline_is_the_first_content<C: Clipboard>(
    clipboards: Seq<C>,
    looks: Seq<Look>,
    k: int,
)
    requires
        looked_for_baseline(clipboards, looks),
        0 <= k < clipboards.len(),
    ensures
        baseline_of(looks) is None ==> offers_nothing(&clipboards[k]),
        baseline_of(looks) is Some && k < looks.len() - 1 ==> offers_nothing(&clipboards[k]),
        baseline_of(looks) matches Some(payload) ==> payload.len() > 0 && looks.len() > 0 && (
        looks.last() matches Look::Read(Ok(d)) && d@ == payload && call_ensures(
            C::get_data,
            (&clipboards[looks.len() - 1],),
            MyResult::<ClipboardData>::Ok(d),
        ) && call_ensures(C::should_poll, (&clipboards[looks.len() - 1],), true)),
{
    if looks.len() > 0 {
        let last = looks.len() - 1;
        assert(can_see(&clipboards[last], looks[last]));
    }
    if k < looks.len() {
        assert(can_see(&clipboards[k], looks[k]));
        if k < looks.len() - 1 {
            assert(look_offers(looks[k]) is None);
        }
        if let Look::Read(r) = looks[k] {
            assert(call_ensures(C::get_data, (&clipboards[k],), r));
        }
    }
}

/// Spreading hands the whole payload to every clipboard.
pub proof fn law_spreading_reaches_every_clipboard<C: Clipboard>(
    clipboards: Seq<C>,
    payload: Seq<data::EntryView>,
    results: Seq<MyResult<()>>,
    k: int,
)
    requires
        can_spread(clipboards, payload, results),
        0 <= k < clipboards.len(),
    ensures
        k < results.len(),
        exists|d: ClipboardData| #[trigger]
            call_ensures(C::set_data, (&clipboards[k], &d), results[k]) && d@ == payload,
{
    assert(clipboard::can_write(&clipboards[k], payload, results[k]));
}

/// Every write that failed is reported, with its place and reason, and no
/// other.
pub proof fn law_failures_are_all_that_failed(results: Seq<MyResult<()>>)
    ensures
        failures_in(results) == selection::positions(
            results.len() as int,
            |i: int| results[i] is Err,
        ).map_values(|i: int| (i as usize, results[i]->Err_0)),
    decreases results.len(),
{
    let n = results.len() as int;
    let p = |i: int| results[i] is Err;
    let f = |i: int| (i as usize, results[i]->Err_0);
    if n == 0 {
        selection::lemma_positions_push(0, p);
        assert(failures_in(results) =~= selection::positions(0, p).map_values(f));
    } else {
        let init = results.drop_last();
        let q = |i: int| init[i] is Err;
        let g = |i: int| (i as usize, init[i]->Err_0);
        law_failures_are_all_that_failed(init);
        selection::lemma_positions_agree(n - 1, p, q);
        selection::lemma_positions_push(n - 1, p);
        selection::lemma_positions(n - 1, p);
        let before = selection::positions(n - 1, p);
        assert(before.map_values(f) =~= before.map_values(g));
        assert(failures_in(results) =~= selection::positions(n, p).map_values(f));
    }
}

/// What a watch does after a round: new content is handed to every clipboard
/// and known from then on; after a quiet round it goes on with what it knew.
pub proof fn law_what_follows_a_round<C: Clipboard>(
    watch: Watch,
    clipboards: Seq<C>,
    baseline: Option<Seq<data::EntryView>>,
    looks: Seq<Look>,
    progress: Progress,
    k: int,
)
    requires
        can_advance(watch, clipboards, baseline, looks, MyResult::<Progress>::Ok(progress)),
        0 <= k < clipboards.len(),
    ensures
        progress.source is None ==> (progress.watch matches Watch::Watching { baseline: b }
            && payload_view(b) == baseline) && nothing_new(&clipboards[k], baseline),
        progress.source is Some ==> (progress.watch matches Watch::Resting { last: Some(d) }
            && d@.len() > 0 && (baseline matches Some(known) ==> !data::same_meaning(d@, known))
            && exists|c: ClipboardData, w: MyResult<()>| #[trigger]
            call_ensures(C::set_data, (&clipboards[k], &c), w) && c@ == d@),
        watch matches Watch::Watching { baseline: b } ==> baseline == payload_view(b),
        watch matches Watch::Resting { last: Some(d) } ==> baseline == Some(d@),
{
    match round_of(looks, baseline) {
        Round::Quiet => {
            law_quiet_round_saw_every_clipboard(clipboards, baseline, looks, k);
        },
        Round::Changed(_, d) => {
            let results = choose|results: Seq<MyResult<()>>|
                can_spread(clipboards, d@, results) && progress.failures@ == #[trigger] failures_in(
                    results,
                );
            law_spreading_reaches_every_clipboard(clipboards, d@, results, k);
            let c = choose|c: ClipboardData| #[trigger]
                call_ensures(C::set_data, (&clipboards[k], &c), results[k]) && c@ == d@;
            assert(call_ensures(C::set_data, (&clipboards[k], &c), results[k]));
        },
        Round::Failed(_, _) => {},
    }
}

/// What is known of a payload that may be missing.
pub proof fn law_payload_is_known_whole(payload: Option<ClipboardData>)
    ensures
        payload_view(payload) is Some <==> payload is Some,
        payload matches Some(d) ==> payload_view(payload) == Some(d@),
{
}

/// The place that a watch reports is that of the clipboard whose payload it
/// knows from then on; a watch ends with a failure only when a clipboard that is
/// polled could not be read, and then with that failure.
pub proof fn law_where_a_change_came_from<C: Clipboard>(
    watch: Watch,
    clipboards: Seq<C>,
    baseline: Option<Seq<data::EntryView>>,
    looks: Seq<Look>,
    result: MyResult<Progress>,
)
    requires
        can_advance(watch, clipboards, baseline, looks, result),
        clipboards.len() <= usize::MAX,
    ensures
        result matches Ok(progress) ==> (progress.source matches Some(place) ==> place
            < clipboards.len() && exists|d: ClipboardData| #[trigger]
            call_ensures(
                C::get_data,
                (&clipboards[place as int],),
                MyResult::<ClipboardData>::Ok(d),
            ) && payload_view(Some(d)) == (match progress.watch {
                Watch::Resting { last } => payload_view(last),
                Watch::Watching { baseline: _ } => None,
            })),
        result matches Err(e) ==> exists|k: int|
            0 <= k < clipboards.len() && #[trigger] call_ensures(
                C::get_data,
                (&clipboards[k],),
                MyResult::<ClipboardData>::Err(e),
            ),
{
    match round_of(looks, baseline) {
        Round::Quiet => {},
        Round::Changed(place, d) => {
            law_changed_round_gives_what_was_read(clipboards, baseline, looks, place, d);
        },
        Round::Failed(place, e) => {
            law_failed_round_gives_the_failure(clipboards, baseline, looks, place, e);
        },
    }
}

/// What `judge` says of a payload that was read and is not empty: that it is a
/// change exactly when nothing is known or something else is.
pub proof fn law_judging_a_payload(d: ClipboardData, baseline: Option<ClipboardData>, v: Verdict)
    requires
        call_ensures(judge, (Look::Read(Ok(d)), &baseline), v),
        d@.len() > 0,
    ensures
        baseline is None ==> v == Verdict::Changed(d),
        baseline matches Some(known) ==> (v == Verdict::Changed(d) <==> !data::same_meaning(
            d@,
            known@,
        )) && (v is Quiet <==> data::same_meaning(d@, known@)),
{
    law_unknown_content_is_a_change(d, payload_view(baseline));
}

/// What `judge` says of a payload with a binary entry, against a payload of text
/// alone: that it is a change.
pub proof fn law_judging_a_binary_payload(
    d: ClipboardData,
    known: ClipboardData,
    i: int,
    v: Verdict,
)
    requires
        call_ensures(judge, (Look::Read(Ok(d)), &Some(known)), v),
        0 <= i < d@.len(),
        !mime::is_text(d@[i].mime_type),
        forall|j: int| 0 <= j < known@.len() ==> mime::is_text((#[trigger] known@[j]).mime_type),
    ensures
        v == Verdict::Changed(d),
{
    law_binary_payload_is_a_change(d, known@, i);
}

} // verus!
