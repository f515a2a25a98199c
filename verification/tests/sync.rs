use std::cell::{Cell, RefCell};
use std::rc::Rc;

use clipboard_sync::clipboard::Clipboard;
use clipboard_sync::data::{ClipboardData, MimeEntry};
use clipboard_sync::discovery::Discovery;
use clipboard_sync::duplicates::DuplicateScan;
use clipboard_sync::error::{MyError, MyResult};
use clipboard_sync::setup::{get_clipboards, take_offered, Setup, SetupEvent, SetupStep};
use clipboard_sync::sharing::{are_same, is_echo, next_same_step, SameCheck, SameEvent, SameStep};
use clipboard_sync::watch::{
    judge, poll_round, preview, propagate, snapshot, Look, Preview, Round, Verdict, Watch,
};

/// A clipboard over a store that others may share.
#[derive(Debug, Clone)]
struct Shared {
    name: String,
    log: Rc<RefCell<Vec<String>>>,
    store: Rc<RefCell<ClipboardData>>,
    rank: u8,
    poll: bool,
    broken_read: Rc<Cell<bool>>,
    broken_write: Rc<Cell<bool>>,
}

impl Shared {
    fn new(name: &str, store: &Rc<RefCell<ClipboardData>>, rank: u8) -> Self {
        Shared {
            name: name.to_string(),
            log: Rc::new(RefCell::new(Vec::new())),
            store: store.clone(),
            rank,
            poll: true,
            broken_read: Rc::new(Cell::new(false)),
            broken_write: Rc::new(Cell::new(false)),
        }
    }
}

impl Clipboard for Shared {
    fn display(&self) -> String {
        self.name.clone()
    }
    fn get_data(&self) -> MyResult<ClipboardData> {
        self.log.borrow_mut().push(format!("read {}", self.name));
        if self.broken_read.get() {
            return Err(MyError::Other(format!("read {}", self.name)));
        }
        Ok(self.store.borrow().clone())
    }
    fn set_data(&self, data: &ClipboardData) -> MyResult<()> {
        let text = data.text().unwrap_or_default();
        self.log.borrow_mut().push(format!("write {} {text}", self.name));
        if self.broken_write.get() {
            return Err(MyError::Other(format!("write {}", self.name)));
        }
        *self.store.borrow_mut() = data.clone();
        Ok(())
    }
    fn should_poll(&self) -> bool {
        self.poll
    }
    fn rank(&self) -> u8 {
        self.rank
    }
}

/// A clipboard that says nothing of polling and rank.
#[derive(Debug)]
struct Silent;

impl Clipboard for Silent {
    fn display(&self) -> String {
        "silent".to_string()
    }
    fn get_data(&self) -> MyResult<ClipboardData> {
        Ok(ClipboardData::from_text("s\0"))
    }
    fn set_data(&self, data: &ClipboardData) -> MyResult<()> {
        if *data == ClipboardData::from_text("v") {
            Ok(())
        } else {
            Err(MyError::NoClipboards)
        }
    }
}

fn store(text: &str) -> Rc<RefCell<ClipboardData>> {
    Rc::new(RefCell::new(if text.is_empty() {
        ClipboardData::empty()
    } else {
        ClipboardData::from_text(text)
    }))
}

fn found(clipboards: Vec<Shared>) -> Discovery<Shared> {
    let mut d = Discovery::new();
    d.clipboards = clipboards;
    d
}

fn names(clipboards: &[Shared]) -> Vec<&str> {
    clipboards.iter().map(|c| c.name.as_str()).collect()
}

#[test]
fn clipboard_defaults() {
    let c = Silent;
    assert_eq!(c.get().unwrap(), "s");
    assert!(c.set("v").is_ok());
    assert!(matches!(c.set("w"), Err(MyError::NoClipboards)));
    assert!(c.should_poll());
    assert_eq!(c.rank(), 100);
    let b: Box<dyn Clipboard> = Box::new(Silent);
    assert_eq!(b.display(), "silent");
    assert_eq!(Clipboard::get(&b).unwrap(), "s");
    assert_eq!(b.rank(), 100);
    let s = Box::new(Shared { poll: false, ..Shared::new("x", &store(""), 3) });
    assert_eq!((s.rank(), s.should_poll(), s.get().unwrap()), (3, false, String::new()));
}

#[test]
fn echo_is_the_probe_itself() {
    assert!(is_echo("p", &Ok("p".to_string())));
    assert!(!is_echo("p", &Ok("q".to_string())));
    assert!(!is_echo("p", &Err(MyError::NoClipboards)));
}

#[test]
fn shared_stores_are_recognised() {
    let (s, t) = (store("before"), store("other"));
    let a = Shared::new("a", &s, 1);
    let b = Shared::new("b", &s, 1);
    let c = Shared::new("c", &t, 1);
    assert!(are_same(&a, &b).unwrap());
    assert!(!are_same(&a, &c).unwrap());
    assert!(!are_same(&c, &b).unwrap());
    // What was there before the probes is there again.
    assert!(*s.borrow() == ClipboardData::from_text("before"));
    assert!(*t.borrow() == ClipboardData::from_text("other"));
}

/// The calls that a check makes on two clipboards, in order.
fn calls(a: &Shared, b: &Shared) -> Vec<String> {
    let log = Rc::new(RefCell::new(Vec::new()));
    let a = Shared { log: log.clone(), ..a.clone() };
    let b = Shared { log: log.clone(), ..b.clone() };
    are_same(&a, &b).unwrap();
    let made = log.borrow().clone();
    made
}

#[test]
fn probes_are_written_before_they_are_looked_for() {
    let (s, t) = (store("old"), store("other"));
    let a = Shared::new("a", &s, 1);
    let b = Shared::new("b", &s, 1);
    let c = Shared::new("c", &t, 1);
    assert_eq!(
        calls(&a, &b),
        [
            "read a", "write a a", "read b", "read b", "write b b", "read a", "write b a",
            "write a old"
        ]
    );
    assert_eq!(calls(&a, &c), ["read a", "write a a", "read c", "write a old"]);
    // A first write that fails leaves the second clipboard alone.
    a.broken_write.set(true);
    assert_eq!(calls(&a, &b), ["read a", "write a a", "write a old"]);
    a.broken_write.set(false);
    b.broken_write.set(true);
    assert_eq!(
        calls(&a, &b),
        ["read a", "write a a", "read b", "read b", "write b b", "write b a", "write a old"]
    );
}

#[test]
fn a_chance_match_is_no_shared_store() {
    let (s, t) = (store("x"), store("a"));
    let a = Shared::new("a", &s, 1);
    let b = Shared::new("b", &t, 1);
    assert!(!are_same(&a, &b).unwrap());
    assert!(*s.borrow() == ClipboardData::from_text("x"));
    assert!(*t.borrow() == ClipboardData::from_text("a"));
}

#[test]
fn steps_of_a_check() {
    let next = |step, event| next_same_step(step, "p", "q", event);
    let read = |t: &str| SameEvent::Read(Ok(t.to_string()));
    let bad = || MyError::NoClipboards;
    assert!(matches!(next(SameStep::SaveOne, SameEvent::Saved), SameStep::WriteOne));
    assert!(matches!(next(SameStep::WriteOne, SameEvent::Written(Ok(()))), SameStep::ReadTwo));
    assert!(matches!(
        next(SameStep::WriteOne, SameEvent::Written(Err(bad()))),
        SameStep::RestoreOne(false)
    ));
    assert!(matches!(next(SameStep::ReadTwo, read("p")), SameStep::SaveTwo));
    assert!(matches!(next(SameStep::ReadTwo, read("q")), SameStep::RestoreOne(false)));
    assert!(matches!(
        next(SameStep::ReadTwo, SameEvent::Read(Err(bad()))),
        SameStep::RestoreOne(false)
    ));
    assert!(matches!(next(SameStep::SaveTwo, SameEvent::Saved), SameStep::WriteTwo));
    assert!(matches!(next(SameStep::WriteTwo, SameEvent::Written(Ok(()))), SameStep::ReadOne));
    assert!(matches!(
        next(SameStep::WriteTwo, SameEvent::Written(Err(bad()))),
        SameStep::RestoreTwo(false)
    ));
    assert!(matches!(next(SameStep::ReadOne, read("q")), SameStep::RestoreTwo(true)));
    assert!(matches!(next(SameStep::ReadOne, read("p")), SameStep::RestoreTwo(false)));
    assert!(matches!(
        next(SameStep::RestoreTwo(true), SameEvent::Restored),
        SameStep::RestoreOne(true)
    ));
    assert!(matches!(next(SameStep::RestoreOne(true), SameEvent::Restored), SameStep::Done(true)));
    // What does not belong to a step changes nothing.
    assert!(matches!(next(SameStep::ReadTwo, SameEvent::Restored), SameStep::ReadTwo));
    assert!(matches!(next(SameStep::Done(false), SameEvent::Saved), SameStep::Done(false)));
}

#[test]
fn a_check_does_one_thing_at_a_time() {
    let s = store("old");
    let a = Shared::new("a", &s, 1);
    let b = Shared::new("b", &s, 1);
    let (p, q) = ("a".to_string(), "b".to_string());
    let check = SameCheck::start().advance(&a, &b, &p, &q);
    assert!(matches!(check.step, SameStep::WriteOne));
    assert!(*s.borrow() == ClipboardData::from_text("old"));
    let check = check.advance(&a, &b, &p, &q);
    assert!(matches!(check.step, SameStep::ReadTwo));
    assert!(*s.borrow() == ClipboardData::from_text("a"));
}

#[test]
fn failing_clipboards_are_different() {
    let s = store("x");
    let a = Shared::new("a", &s, 1);
    let b = Shared::new("b", &s, 1);
    b.broken_write.set(true);
    assert!(!are_same(&a, &b).unwrap());
    assert!(!are_same(&b, &a).unwrap());
    b.broken_write.set(false);
    b.broken_read.set(true);
    assert!(!are_same(&a, &b).unwrap());
    assert!(!are_same(&b, &a).unwrap());
    assert!(*s.borrow() != ClipboardData::from_text("a"));
}

#[test]
fn one_clipboard_per_store_stays() {
    let (s, t) = (store(""), store("start"));
    let wayland = vec![Shared::new("w0", &s, 10), Shared::new("w1", &t, 200)];
    let x11 = vec![Shared::new("x0", &t, 100), Shared::new("x1", &s, 10)];
    let kept = get_clipboards(found(wayland), found(x11)).unwrap();
    // Lower rank wins; with equal ranks, the one found first.
    assert_eq!(names(&kept), ["w0", "x0"]);
    // All hold the first content that was found.
    assert!(*s.borrow() == ClipboardData::from_text("start"));
    assert!(*t.borrow() == ClipboardData::from_text("start"));
}

#[test]
fn setup_looks_then_compares_then_writes() {
    let log = Rc::new(RefCell::new(Vec::new()));
    let (s, t) = (store(""), store("start"));
    let made = |name: &str, store: &Rc<RefCell<ClipboardData>>| Shared {
        log: log.clone(),
        ..Shared::new(name, store, 1)
    };
    let (a, b) = (made("a", &s), made("b", &t));
    a.broken_write.set(true);
    let kept = get_clipboards(found(vec![a]), found(vec![b])).unwrap();
    // A write that fails neither removes its clipboard nor stops the others.
    assert_eq!(names(&kept), ["a", "b"]);
    assert_eq!(
        *log.borrow(),
        ["read a", "read b", "read a", "write a a", "write a ", "write a start", "write b start"]
    );
}

#[test]
fn steps_of_a_setup() {
    let read = |t: &str| {
        SetupEvent::Looked(Ok(if t.is_empty() {
            ClipboardData::empty()
        } else {
            ClipboardData::from_text(t)
        }))
    };
    let setup = Setup::new(vec![2, 1, 1]);
    assert!(matches!(setup.step(), SetupStep::Look(0)));
    let setup = setup.record(SetupEvent::Looked(Err(MyError::NoClipboards)));
    assert!(matches!(setup.step(), SetupStep::Look(1)));
    let setup = setup.record(read("x"));
    assert!(matches!(setup.step(), SetupStep::Compare(0, 1)));
    assert!(*setup.start() == ClipboardData::from_text("x"));
    let setup = setup.record(SetupEvent::Compared(true));
    assert!(matches!(setup.step(), SetupStep::Compare(1, 2)));
    // What does not belong to a step changes nothing.
    let setup = setup.record(read("late"));
    let setup = setup.record(SetupEvent::Compared(false));
    assert!(matches!(setup.step(), SetupStep::Write(1)));
    let setup = setup.record(SetupEvent::Written(Err(MyError::NoClipboards)));
    assert!(matches!(setup.step(), SetupStep::Write(2)));
    let setup = setup.record(SetupEvent::Written(Ok(())));
    assert!(matches!(setup.step(), SetupStep::Done));
    assert!(*setup.start() == ClipboardData::from_text("x"));
    assert_eq!(setup.into_removed(), [true, false, false]);

    // Without content at the start nothing is written.
    let setup = Setup::new(vec![1]).record(read(""));
    assert!(matches!(setup.step(), SetupStep::Done));
    assert!(matches!(Setup::new(vec![]).step(), SetupStep::Done));
}

#[test]
fn unusable_clipboards_stay_apart() {
    let s = store("x");
    let a = Shared::new("a", &s, 10);
    let b = Shared::new("b", &s, 10);
    b.broken_read.set(true);
    let kept = get_clipboards(found(vec![b]), found(vec![a])).unwrap();
    assert_eq!(names(&kept), ["b", "a"]);
    assert!(get_clipboards(found(vec![]), found(vec![])).unwrap().is_empty());
}

#[test]
fn offered_content() {
    assert!(take_offered(Err(MyError::NoClipboards)).is_none());
    assert!(take_offered(Ok(ClipboardData::empty())).is_none());
    assert!(take_offered(Ok(ClipboardData::from_text("a"))) == Some(ClipboardData::from_text("a")));
}

#[test]
fn duplicate_scan_asks_each_pair_once() {
    let mut scan = DuplicateScan::new(vec![5, 3, 5, 3]);
    let stores = [0, 0, 1, 0];
    let mut asked = Vec::new();
    while let Some((i, j)) = scan.current() {
        asked.push((i, j));
        scan = scan.record(stores[i] == stores[j]);
    }
    // The first is beaten by the second and no longer compared.
    assert_eq!(asked, [(0, 1), (1, 2), (1, 3)]);
    assert_eq!(scan.into_removed(), [true, false, false, true]);
    assert!(DuplicateScan::new(vec![]).current().is_none());
    assert!(DuplicateScan::new(vec![1]).current().is_none());
}

#[test]
fn looks_are_judged() {
    let known = Some(ClipboardData::from_text("k"));
    let read = |t: &str| Look::Read(Ok(ClipboardData::from_text(t)));
    assert!(matches!(judge(Look::Skipped, &known), Verdict::Quiet));
    assert!(matches!(judge(read("k"), &known), Verdict::Quiet));
    assert!(matches!(judge(read("k"), &None), Verdict::Changed(d) if d.text().as_deref() == Some("k")));
    assert!(matches!(judge(read("n"), &known), Verdict::Changed(d) if d.text().as_deref() == Some("n")));
    assert!(matches!(judge(Look::Read(Ok(ClipboardData::empty())), &known), Verdict::Quiet));
    assert!(matches!(judge(Look::Read(Ok(ClipboardData::empty())), &None), Verdict::Quiet));
    assert!(matches!(
        judge(Look::Read(Err(MyError::NoClipboards)), &known),
        Verdict::Failed(MyError::NoClipboards)
    ));
    // A text-only echo of rich content is no news.
    let rich = ClipboardData {
        entries: vec![
            MimeEntry { mime_type: "image/png".to_string(), data: b"png".to_vec() },
            MimeEntry { mime_type: "text/plain".to_string(), data: b"k".to_vec() },
        ],
    };
    assert!(matches!(judge(read("k"), &Some(rich)), Verdict::Quiet));
}

#[test]
fn rounds_stop_at_the_first_news() {
    let (s, t, u) = (store("k"), store("n"), store("m"));
    let mut skipped = Shared::new("s", &store("z"), 1);
    skipped.poll = false;
    let a = Shared::new("a", &s, 1);
    let b = Shared::new("b", &t, 1);
    let c = Shared::new("c", &u, 1);
    let known = Some(ClipboardData::from_text("k"));
    let all = vec![skipped.clone(), a.clone(), b.clone(), c.clone()];
    assert!(matches!(
        poll_round(&all, &known),
        Round::Changed(2, d) if d.text().as_deref() == Some("n")
    ));
    c.broken_read.set(true);
    assert!(matches!(poll_round(&all, &known), Round::Changed(2, _)));
    assert!(matches!(
        poll_round(&vec![a.clone(), c.clone()], &known),
        Round::Failed(1, MyError::Other(m)) if m == "read c"
    ));
    assert!(matches!(poll_round(&vec![skipped, a], &known), Round::Quiet));
    assert!(matches!(poll_round::<Shared>(&vec![], &known), Round::Quiet));
}

#[test]
fn snapshot_ignores_failures() {
    let a = Shared::new("a", &store("a"), 1);
    let b = Shared::new("b", &store(""), 1);
    let mut c = Shared::new("c", &store("c"), 1);
    c.poll = false;
    let d = Shared::new("d", &store("d"), 1);
    a.broken_read.set(true);
    assert!(snapshot(&vec![a.clone(), b.clone(), c.clone(), d]).unwrap().text().as_deref() == Some("d"));
    assert!(snapshot(&vec![a, b, c]).is_none());
}

#[test]
fn propagation_goes_on_after_a_failure() {
    let (s, t) = (store(""), store(""));
    let a = Shared::new("a", &s, 1);
    let b = Shared::new("b", &t, 1);
    a.broken_write.set(true);
    let failures = propagate(&vec![a, b], &ClipboardData::from_text("p"));
    assert_eq!(failures.len(), 1);
    assert!(matches!(&failures[0], (0, MyError::Other(m)) if m == "write a"));
    assert!(*t.borrow() == ClipboardData::from_text("p"));
    assert!(s.borrow().is_empty());
}

#[test]
fn watch_needs_clipboards() {
    assert!(matches!(Watch::start::<Shared>(&vec![]), Err(MyError::NoClipboards)));
}

#[test]
fn watch_spreads_changes_without_echo() {
    let (s, t) = (store("one"), store("one"));
    let all = vec![Shared::new("a", &s, 1), Shared::new("b", &t, 1)];
    let watch = Watch::start(&all).unwrap();
    assert_eq!(watch.pause(), 100);
    // The content at the start is the baseline.
    let p = watch.advance(&all).unwrap();
    assert!(p.source.is_none() && p.failures.is_empty());
    assert_eq!(p.watch.pause(), 200);
    assert!(matches!(&p.watch, Watch::Watching { baseline: Some(d) } if d.text().as_deref() == Some("one")));

    *t.borrow_mut() = ClipboardData::from_text("two");
    let p = p.watch.advance(&all).unwrap();
    assert_eq!(p.source, Some(1));
    assert_eq!(p.watch.pause(), 100);
    assert!(*s.borrow() == ClipboardData::from_text("two"));

    // What was spread is known: nothing happens until the next change.
    let p = p.watch.advance(&all).unwrap();
    assert!(p.source.is_none());
    let p = p.watch.advance(&all).unwrap();
    assert!(p.source.is_none());
    *s.borrow_mut() = ClipboardData::empty();
    let p = p.watch.advance(&all).unwrap();
    assert!(p.source.is_none());
    *s.borrow_mut() = ClipboardData::from_text("three");
    let p = p.watch.advance(&all).unwrap();
    assert_eq!(p.source, Some(0));
    assert!(*t.borrow() == ClipboardData::from_text("three"));
}

#[test]
fn watch_without_content_takes_the_first_it_sees() {
    let s = store("");
    let all = vec![Shared::new("a", &s, 1)];
    let p = Watch::start(&all).unwrap().advance(&all).unwrap();
    assert!(matches!(p.watch, Watch::Watching { baseline: None }));
    *s.borrow_mut() = ClipboardData::from_text("first");
    let p = p.watch.advance(&all).unwrap();
    assert_eq!(p.source, Some(0));
}

#[test]
fn watch_ends_with_a_read_failure() {
    let a = Shared::new("a", &store("x"), 1);
    let all = vec![a.clone()];
    let watch = Watch::start(&all).unwrap();
    a.broken_read.set(true);
    assert!(matches!(watch.advance(&all), Err(MyError::Other(m)) if m == "read a"));
}

#[test]
fn watch_reports_write_failures() {
    let (s, t) = (store("x"), store("x"));
    let a = Shared::new("a", &s, 1);
    let b = Shared::new("b", &t, 1);
    let all = vec![a, b.clone()];
    let p = Watch::start(&all).unwrap().advance(&all).unwrap();
    b.broken_write.set(true);
    *s.borrow_mut() = ClipboardData::from_text("y");
    let p = p.watch.advance(&all).unwrap();
    assert_eq!(p.source, Some(0));
    assert_eq!(p.failures.len(), 1);
    assert_eq!(p.failures[0].0, 1);
}

#[test]
fn entries_are_previewed() {
    let e = |m: &str, d: &[u8]| MimeEntry { mime_type: m.to_string(), data: d.to_vec() };
    assert!(matches!(preview(&e("text/plain", b"a\0")), Preview::Text(t) if t == "a"));
    assert!(matches!(preview(&e("STRING", b"\xff\xff")), Preview::InvalidText(2)));
    assert!(matches!(preview(&e("image/png", b"abc")), Preview::Binary(3)));
}
