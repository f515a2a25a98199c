//! Finding out which displays have a usable clipboard.
use vstd::prelude::*;
use vstd::string::*;

use crate::clipboard;
use crate::data;
use crate::error::{MyError, MyResult};
use crate::laws;
use crate::selection;
use crate::sharing;
use crate::text;
use crate::text::{contains, numbered, str_eq};

verus! {

// ---------------------------------------------------------------------------
// Display names
// ---------------------------------------------------------------------------

/// The name of the Wayland display of the given number.
pub open spec fn wayland_name(n: u8) -> Seq<char> {
    "wayland-"@ + text::decimal(n as nat)
}

/// The name of the X11 display of the given number.
pub open spec fn x11_name(n: u8) -> Seq<char> {
    ":"@ + text::decimal(n as nat)
}

/// The name of the Wayland display of the given number.
pub fn wayland_display(n: u8) -> (r: String)
    ensures
        r@ == wayland_name(n),
{
    numbered("wayland-", n)
}

/// The name of the X11 display of the given number.
pub fn x11_display(n: u8) -> (r: String)
    ensures
        r@ == x11_name(n),
{
    numbered(":", n)
}

proof fn lemma_same_tail(prefix: Seq<char>, a: Seq<char>, b: Seq<char>)
    requires
        prefix + a == prefix + b,
    ensures
        a == b,
{
    assert((prefix + a).skip(prefix.len() as int) =~= a);
    assert((prefix + b).skip(prefix.len() as int) =~= b);
}

/// Different displays have different names, so that a probe with one name is
/// never taken for a probe with another.
pub proof fn law_display_names_differ(m: u8, n: u8)
    ensures
        wayland_name(m) == wayland_name(n) ==> m == n,
        x11_name(m) == x11_name(n) ==> m == n,
        wayland_name(m) != x11_name(n),
{
    if wayland_name(m) == wayland_name(n) {
        lemma_same_tail("wayland-"@, text::decimal(m as nat), text::decimal(n as nat));
        text::lemma_decimal_injective(m as nat, n as nat);
    }
    if x11_name(m) == x11_name(n) {
        lemma_same_tail(":"@, text::decimal(m as nat), text::decimal(n as nat));
        text::lemma_decimal_injective(m as nat, n as nat);
    }
    reveal_strlit("wayland-");
    reveal_strlit(":");
    assert(wayland_name(m)[0] == 'w');
    assert(x11_name(n)[0] == ':');
}

/// A display name that was written as text to a store reads back from it
/// unchanged.
pub proof fn law_display_name_reads_back(n: u8)
    ensures
        clipboard::text_or_empty(data::text_payload(wayland_name(n))) == wayland_name(n),
        clipboard::text_or_empty(data::text_payload(x11_name(n))) == x11_name(n),
        sharing::reads_back(wayland_name(n)),
        sharing::reads_back(x11_name(n)),
{
    reveal(sharing::probe_payload);
    reveal(sharing::text_seen);
    reveal_with_fuel(text::decimal, 3);
    laws::law_text_reads_back(wayland_name(n));
    laws::law_text_reads_back(x11_name(n));
    assert(text::decimal(n as nat).last() == text::digit(n as nat % 10));
    assert(wayland_name(n).last() == text::decimal(n as nat).last());
    assert(x11_name(n).last() == text::decimal(n as nat).last());
}

// ---------------------------------------------------------------------------
// Trying all displays
// ---------------------------------------------------------------------------

/// The message of the X11 text backend when there is no such display.
pub open spec fn no_display_message() -> Seq<char> {
    "clipboard error: X11 clipboard error : XCB connection error: Connection"@
}

/// What trying one display adds to the findings.
pub enum Finding<C> {
    /// A clipboard to use.
    Found(C),
    /// Nothing there.
    Nothing,
    /// The X11 text backend could not connect, with its message.
    NoConnection(String),
    /// The X11 atom backend could not connect.
    NotReachable,
    /// Any other failure.
    Unexpected(MyError),
}

/// What the result of trying a display amounts to.
pub open spec fn finding_of<C>(result: MyResult<Option<C>>) -> Finding<C> {
    match result {
        Ok(Some(c)) => Finding::Found(c),
        Ok(None) => Finding::Nothing,
        Err(MyError::TerminalClipboard(e)) => if e.stdio is None && e.inner@
            == no_display_message() {
            Finding::NoConnection(e.inner)
        } else {
            Finding::Unexpected(MyError::TerminalClipboard(e))
        },
        Err(MyError::X11Clipboard(msg)) => if text::occurs_in("connection"@, msg@)
            || text::occurs_in("Connection"@, msg@) {
            Finding::NotReachable
        } else {
            Finding::Unexpected(MyError::X11Clipboard(msg))
        },
        Err(e) => Finding::Unexpected(e),
    }
}

/// What the result of trying a display amounts to.
pub fn classify<C>(result: MyResult<Option<C>>) -> (f: Finding<C>)
    ensures
        f == finding_of(result),
{
    match result {
        Ok(Some(c)) => Finding::Found(c),
        Ok(None) => Finding::Nothing,
        Err(MyError::TerminalClipboard(e)) => {
            if e.stdio.is_none() && str_eq(
                e.inner.as_str(),
                "clipboard error: X11 clipboard error : XCB connection error: Connection",
            ) {
                Finding::NoConnection(e.inner)
            } else {
                Finding::Unexpected(MyError::TerminalClipboard(e))
            }
        },
        Err(MyError::X11Clipboard(msg)) => {
            if contains(msg.as_str(), "connection") || contains(msg.as_str(), "Connection") {
                Finding::NotReachable
            } else {
                Finding::Unexpected(MyError::X11Clipboard(msg))
            }
        },
        Err(e) => Finding::Unexpected(e),
    }
}

/// What trying the displays brought: the clipboards, the displays that could
/// not be connected to, the last message about that, and the displays that
/// failed otherwise.
pub struct Discovery<C> {
    pub clipboards: Vec<C>,
    pub unreachable: Vec<u8>,
    pub connection_error: Option<String>,
    pub failures: Vec<(u8, MyError)>,
}

/// What a discovery holds.
#[verifier::ext_equal]
pub struct DiscoveryView<C> {
    pub clipboards: Seq<C>,
    pub unreachable: Seq<u8>,
    pub connection_error: Option<String>,
    pub failures: Seq<(u8, MyError)>,
}

impl<C> View for Discovery<C> {
    type V = DiscoveryView<C>;

    open spec fn view(&self) -> DiscoveryView<C> {
        DiscoveryView {
            clipboards: self.clipboards@,
            unreachable: self.unreachable@,
            connection_error: self.connection_error,
            failures: self.failures@,
        }
    }
}

impl<C> DiscoveryView<C> {
    pub open spec fn nothing() -> Self {
        DiscoveryView {
            clipboards: Seq::empty(),
            unreachable: Seq::empty(),
            connection_error: None,
            failures: Seq::empty(),
        }
    }

    /// The discovery with what was found on display `n` added.
    pub open spec fn with(self, n: u8, f: Finding<C>) -> Self {
        match f {
            Finding::Found(c) => DiscoveryView { clipboards: self.clipboards.push(c), ..self },
            Finding::Nothing => self,
            Finding::NoConnection(msg) => DiscoveryView {
                unreachable: self.unreachable.push(n),
                connection_error: Some(msg),
                ..self
            },
            Finding::NotReachable => DiscoveryView {
                unreachable: self.unreachable.push(n),
                ..self
            },
            Finding::Unexpected(e) => DiscoveryView {
                failures: self.failures.push((n, e)),
                ..self
            },
        }
    }

    /// What the findings on displays zero, one, two and so on add up to.
    pub open spec fn gathered(findings: Seq<Finding<C>>) -> Self
        decreases findings.len(),
    {
        if findings.len() == 0 {
            DiscoveryView::nothing()
        } else {
            let n = (findings.len() - 1) as u8;
            DiscoveryView::gathered(findings.drop_last()).with(n, findings.last())
        }
    }
}

impl<C> Discovery<C> {
    pub fn new() -> (r: Self)
        ensures
            r@ == DiscoveryView::<C>::nothing(),
    {
        let r = Discovery {
            clipboards: Vec::new(),
            unreachable: Vec::new(),
            connection_error: None,
            failures: Vec::new(),
        };
        assert(r@ =~= DiscoveryView::<C>::nothing());
        r
    }

    /// Adds what was found on display `n`.
    pub fn add_finding(&mut self, n: u8, finding: Finding<C>)
        ensures
            final(self)@ == old(self)@.with(n, finding),
    {
        match finding {
            Finding::Found(c) => {
                self.clipboards.push(c);
            },
            Finding::Nothing => {},
            Finding::NoConnection(msg) => {
                self.unreachable.push(n);
                self.connection_error = Some(msg);
            },
            Finding::NotReachable => {
                self.unreachable.push(n);
            },
            Finding::Unexpected(e) => {
                self.failures.push((n, e));
            },
        }
        assert(self@ =~= old(self)@.with(n, finding));
    }

    /// The last connection message and the displays that could not be
    /// connected to, when the text backend gave such a message.
    pub fn connection_warning(&self) -> (r: Option<(&String, &Vec<u8>)>)
        ensures
            r is Some <==> self@.connection_error is Some,
            r matches Some((msg, displays)) ==> self@.connection_error == Some(*msg) && displays@
                == self@.unreachable,
    {
        match &self.connection_error {
            Some(msg) => Some((msg, &self.unreachable)),
            None => None,
        }
    }
}

/// Whether trying display `n` can have amounted to `f`.
pub open spec fn can_find<C, F: Fn(u8) -> MyResult<Option<C>>>(
    getter: F,
    n: u8,
    f: Finding<C>,
) -> bool {
    exists|result: MyResult<Option<C>>| #[trigger]
        call_ensures(getter, (n,), result) && f == finding_of(result)
}

/// Whether trying displays zero, one, two and so on can have amounted to these
/// findings.
pub open spec fn can_find_all<C, F: Fn(u8) -> MyResult<Option<C>>>(
    getter: F,
    findings: Seq<Finding<C>>,
) -> bool {
    forall|n: int|
        0 <= n < findings.len() ==> can_find(getter, n as u8, #[trigger] findings[n])
}

/// Tries every display number below 255 and gathers what was found.
pub fn get_clipboards_spec<C, F: Fn(u8) -> MyResult<Option<C>>>(getter: F) -> (r: Discovery<C>)
    requires
        forall|n: u8| call_requires(getter, (n,)),
    ensures
        exists|findings: Seq<Finding<C>>|
            findings.len() == u8::MAX && can_find_all(getter, findings) && r@
                == #[trigger] DiscoveryView::gathered(findings),
{
    let ghost mut findings: Seq<Finding<C>> = Seq::empty();
    let mut found: Discovery<C> = Discovery::new();
    let mut n: u8 = 0;
    while n < u8::MAX
        invariant
            findings.len() == n,
            can_find_all(getter, findings),
            found@ == DiscoveryView::gathered(findings),
            forall|m: u8| call_requires(getter, (m,)),
        decreases u8::MAX - n,
    {
        let result = getter(n);
        assert(call_ensures(getter, (n,), result));
        let finding = classify(result);
        proof {
            let more = findings.push(finding);
            assert(more.drop_last() =~= findings);
            assert(can_find(getter, n, finding));
            assert forall|k: int| 0 <= k < more.len() implies can_find(
                getter,
                k as u8,
                #[trigger] more[k],
            ) by {
                if k < findings.len() {
                    assert(more[k] == findings[k]);
                }
            }
            findings = more;
        }
        found.add_finding(n, finding);
        n += 1;
    }
    found
}

// ---------------------------------------------------------------------------
// What a discovery finds
// ---------------------------------------------------------------------------

/// A clipboard that was found is found; a failure counts as one of connecting
/// exactly when the text backend gave its message for a missing display, with
/// nothing printed meanwhile, or the message of the atom backend speaks of a
/// connection. Any other failure is unexpected, as it is.
pub proof fn law_what_a_result_amounts_to<C>(result: MyResult<Option<C>>)
    ensures
        result matches Ok(Some(c)) ==> finding_of(result) == Finding::Found(c),
        result matches Ok(None) ==> finding_of(result) == Finding::<C>::Nothing,
        result matches Err(MyError::TerminalClipboard(e)) ==> finding_of(result) == (if e.stdio is None
            && e.inner@
            == "clipboard error: X11 clipboard error : XCB connection error: Connection"@ {
            Finding::<C>::NoConnection(e.inner)
        } else {
            Finding::<C>::Unexpected(MyError::TerminalClipboard(e))
        }),
        result matches Err(MyError::X11Clipboard(msg)) ==> finding_of(result) == (
        if text::occurs_in("connection"@, msg@) || text::occurs_in("Connection"@, msg@) {
            Finding::<C>::NotReachable
        } else {
            Finding::<C>::Unexpected(MyError::X11Clipboard(msg))
        }),
        result matches Err(e) ==> (!(e is TerminalClipboard) && !(e is X11Clipboard)
            ==> finding_of(result) == Finding::<C>::Unexpected(e)),
{
}

/// A discovery holds every clipboard that was found, in the order of the
/// displays, every display that could not be connected to, and every other
/// failure with its display; it holds a connection message exactly when the text
/// backend gave one, and then the last.
pub proof fn law_discovery_holds_all_findings<C>(findings: Seq<Finding<C>>)
    requires
        findings.len() <= 256,
    ensures
        ({
            let n = findings.len() as int;
            let all = DiscoveryView::<C>::gathered(findings);
            &&& all.clipboards == selection::positions(
                n,
                |i: int| findings[i] is Found,
            ).map_values(|i: int| findings[i]->Found_0)
            &&& all.unreachable == selection::positions(
                n,
                |i: int| findings[i] is NoConnection || findings[i] is NotReachable,
            ).map_values(|i: int| i as u8)
            &&& all.failures == selection::positions(
                n,
                |i: int| findings[i] is Unexpected,
            ).map_values(|i: int| (i as u8, findings[i]->Unexpected_0))
            &&& all.connection_error is None <==> forall|i: int|
                0 <= i < n ==> !((#[trigger] findings[i]) is NoConnection)
            &&& forall|i: int|
                0 <= i < n && (#[trigger] findings[i]) is NoConnection && (forall|j: int|
                    i < j < n ==> !((#[trigger] findings[j]) is NoConnection))
                    ==> all.connection_error == Some(findings[i]->NoConnection_0)
        }),
    decreases findings.len(),
{
    let n = findings.len() as int;
    let p1 = |i: int| findings[i] is Found;
    let p2 = |i: int| findings[i] is NoConnection || findings[i] is NotReachable;
    let p3 = |i: int| findings[i] is Unexpected;
    let f1 = |i: int| findings[i]->Found_0;
    let f2 = |i: int| i as u8;
    let f3 = |i: int| (i as u8, findings[i]->Unexpected_0);
    let all = DiscoveryView::<C>::gathered(findings);
    if n == 0 {
        selection::lemma_positions_push(0, p1);
        selection::lemma_positions_push(0, p2);
        selection::lemma_positions_push(0, p3);
        assert(all.clipboards =~= selection::positions(0, p1).map_values(f1));
        assert(all.unreachable =~= selection::positions(0, p2).map_values(f2));
        assert(all.failures =~= selection::positions(0, p3).map_values(f3));
    } else {
        let init = findings.drop_last();
        let q1 = |i: int| init[i] is Found;
        let q2 = |i: int| init[i] is NoConnection || init[i] is NotReachable;
        let q3 = |i: int| init[i] is Unexpected;
        let g1 = |i: int| init[i]->Found_0;
        let g3 = |i: int| (i as u8, init[i]->Unexpected_0);
        let before = DiscoveryView::<C>::gathered(init);
        law_discovery_holds_all_findings(init);
        selection::lemma_positions_agree(n - 1, p1, q1);
        selection::lemma_positions_agree(n - 1, p2, q2);
        selection::lemma_positions_agree(n - 1, p3, q3);
        selection::lemma_positions_push(n - 1, p1);
        selection::lemma_positions_push(n - 1, p2);
        selection::lemma_positions_push(n - 1, p3);
        selection::lemma_positions(n - 1, p1);
        selection::lemma_positions(n - 1, p3);
        assert(selection::positions(n - 1, p1).map_values(f1) =~= selection::positions(
            n - 1,
            p1,
        ).map_values(g1));
        assert(selection::positions(n - 1, p3).map_values(f3) =~= selection::positions(
            n - 1,
            p3,
        ).map_values(g3));
        assert(all.clipboards =~= selection::positions(n, p1).map_values(f1));
        assert(all.unreachable =~= selection::positions(n, p2).map_values(f2));
        assert(all.failures =~= selection::positions(n, p3).map_values(f3));
        assert(forall|i: int| 0 <= i < n - 1 ==> #[trigger] findings[i] == init[i]);
        if findings[n - 1] is NoConnection {
            assert(all.connection_error is Some);
            assert(!(forall|i: int| 0 <= i < n ==> !((#[trigger] findings[i]) is NoConnection)));
        } else {
            assert(all.connection_error == before.connection_error);
            if before.connection_error is Some {
                let i = choose|i: int| 0 <= i < n - 1 && (#[trigger] init[i]) is NoConnection;
                assert(findings[i] is NoConnection);
            } else {
                assert forall|i: int| 0 <= i < n implies !((
                #[trigger] findings[i]) is NoConnection) by {
                    if i < n - 1 {
                        assert(!(init[i] is NoConnection));
                    }
                }
            }
            assert forall|i: int|
                0 <= i < n && (#[trigger] findings[i]) is NoConnection && (forall|j: int|
                    i < j < n ==> !((#[trigger] findings[j]) is NoConnection))
                implies all.connection_error == Some(findings[i]->NoConnection_0) by {
                assert(init[i] is NoConnection);
                assert forall|j: int| i < j < n - 1 implies !((
                #[trigger] init[j]) is NoConnection) by {
                    assert(!(findings[j] is NoConnection));
                }
            }
        }
    }
}

/// Each display was tried by its number.
pub proof fn law_every_display_is_tried<C, F: Fn(u8) -> MyResult<Option<C>>>(
    getter: F,
    findings: Seq<Finding<C>>,
    n: int,
)
    requires
        can_find_all(getter, findings),
        findings.len() == 255,
        0 <= n < 255,
    ensures
        exists|result: MyResult<Option<C>>| #[trigger]
            call_ensures(getter, (n as u8,), result) && findings[n] == finding_of(result),
{
    assert(can_find(getter, n as u8, findings[n]));
}

} // verus!
