use std::cell::RefCell;

use clipboard_sync::clipboard::Clipboard;
use clipboard_sync::data::ClipboardData;
use clipboard_sync::discovery::{
    classify, get_clipboards_spec, wayland_display, x11_display, Finding,
};
use clipboard_sync::error::{MyError, MyResult, PasteError, StandardizedError};
use clipboard_sync::probe::{
    explain, get_wayland, get_x11, next_wayland_step, next_x11_step, perform_wayland_step,
    ReadFailure, WaylandAnswer, WaylandChoice, WaylandEvent, WaylandStep, X11Choice, X11Event,
    X11Step,
};

const NO_DISPLAY: &str = "clipboard error: X11 clipboard error : XCB connection error: Connection";

/// A clipboard that answers as it was told to.
#[derive(Debug)]
struct Scripted {
    display: String,
    read: fn() -> MyResult<ClipboardData>,
    write: fn() -> MyResult<()>,
    written: RefCell<Vec<ClipboardData>>,
}

impl Scripted {
    fn new(
        display: String,
        read: fn() -> MyResult<ClipboardData>,
        write: fn() -> MyResult<()>,
    ) -> Self {
        Scripted { display, read, write, written: RefCell::new(Vec::new()) }
    }
}

impl Clipboard for Scripted {
    fn display(&self) -> String {
        self.display.clone()
    }
    fn get_data(&self) -> MyResult<ClipboardData> {
        (self.read)()
    }
    fn set_data(&self, data: &ClipboardData) -> MyResult<()> {
        self.written.borrow_mut().push(data.clone());
        (self.write)()
    }
}

fn other(msg: &str) -> MyError {
    MyError::Other(msg.to_string())
}

fn text() -> MyResult<ClipboardData> {
    Ok(ClipboardData::from_text("t"))
}

fn nothing() -> MyResult<ClipboardData> {
    Ok(ClipboardData::empty())
}

fn unreadable() -> MyResult<ClipboardData> {
    Err(other("unreadable"))
}

fn gone() -> MyResult<ClipboardData> {
    Err(MyError::WlcrsPaste(PasteError::WaylandConnection("gone".to_string())))
}

fn no_protocol() -> MyResult<ClipboardData> {
    Err(MyError::WlcrsPaste(PasteError::MissingProtocol {
        name: "zwlr_data_control_manager_v1".to_string(),
        version: 1,
    }))
}

fn good_write() -> MyResult<()> {
    Ok(())
}

fn bad_write() -> MyResult<()> {
    Err(other("unwritable"))
}

#[test]
fn display_names() {
    assert_eq!(wayland_display(0), "wayland-0");
    assert_eq!(wayland_display(254), "wayland-254");
    assert_eq!(x11_display(0), ":0");
    assert_eq!(x11_display(42), ":42");
}

#[test]
fn results_are_classified() {
    assert!(matches!(classify(Ok(Some(1))), Finding::Found(1)));
    assert!(matches!(classify::<u8>(Ok(None)), Finding::Nothing));
    let plain = |inner: &str, stdio: Option<&str>| {
        classify::<u8>(Err(MyError::TerminalClipboard(StandardizedError {
            inner: inner.to_string(),
            stdio: stdio.map(str::to_string),
        })))
    };
    assert!(matches!(plain(NO_DISPLAY, None), Finding::NoConnection(m) if m == NO_DISPLAY));
    assert!(matches!(plain(NO_DISPLAY, Some("x")), Finding::Unexpected(MyError::TerminalClipboard(_))));
    assert!(matches!(plain("else", None), Finding::Unexpected(MyError::TerminalClipboard(_))));
    let x11 = |m: &str| classify::<u8>(Err(MyError::X11Clipboard(m.to_string())));
    assert!(matches!(x11("XCB connection error"), Finding::NotReachable));
    assert!(matches!(x11("Connection refused"), Finding::NotReachable));
    assert!(matches!(x11("timeout"), Finding::Unexpected(MyError::X11Clipboard(m)) if m == "timeout"));
    assert!(matches!(
        classify::<u8>(Err(MyError::NoClipboards)),
        Finding::Unexpected(MyError::NoClipboards)
    ));
}

#[test]
fn every_display_number_below_the_last_is_tried() {
    let tried = RefCell::new(Vec::new());
    let found = get_clipboards_spec(|n| {
        tried.borrow_mut().push(n);
        match n {
            0 | 7 => Ok(Some(n)),
            1 => Err(MyError::X11Clipboard("no connection".to_string())),
            2 => Err(other("odd")),
            3 => Err(MyError::TerminalClipboard(StandardizedError {
                inner: NO_DISPLAY.to_string(),
                stdio: None,
            })),
            _ => Ok(None),
        }
    });
    assert_eq!(*tried.borrow(), (0..255).collect::<Vec<u8>>());
    assert_eq!(found.clipboards, [0, 7]);
    assert_eq!(found.unreachable, [1, 3]);
    assert_eq!(found.failures.len(), 1);
    assert_eq!(found.failures[0].0, 2);
    let (msg, displays) = found.connection_warning().unwrap();
    assert_eq!(msg, NO_DISPLAY);
    assert_eq!(*displays, [1, 3]);
}

#[test]
fn no_warning_without_a_connection_message() {
    let found = get_clipboards_spec(|n| -> MyResult<Option<u8>> {
        if n == 1 {
            Err(MyError::X11Clipboard("no connection".to_string()))
        } else {
            Ok(None)
        }
    });
    assert!(found.connection_warning().is_none());
    assert_eq!(found.unreachable, [1]);
}

#[test]
fn read_failures_are_explained() {
    assert!(matches!(explain(gone().unwrap_err()), ReadFailure::Absent));
    assert!(matches!(explain(no_protocol().unwrap_err()), ReadFailure::NoDataControl));
    let version2 = MyError::WlcrsPaste(PasteError::MissingProtocol {
        name: "zwlr_data_control_manager_v1".to_string(),
        version: 2,
    });
    assert!(matches!(explain(version2), ReadFailure::Unexpected(_)));
    let seat = MyError::WlcrsPaste(PasteError::MissingProtocol {
        name: "wl_seat".to_string(),
        version: 1,
    });
    assert!(matches!(explain(seat), ReadFailure::Unexpected(_)));
    assert!(matches!(explain(other("x")), ReadFailure::Unexpected(MyError::Other(_))));
}

fn try_wayland(
    native: (fn() -> MyResult<ClipboardData>, fn() -> MyResult<()>),
    command: (fn() -> MyResult<ClipboardData>, fn() -> MyResult<()>),
) -> MyResult<Option<WaylandChoice<Scripted, Scripted>>> {
    get_wayland(
        5,
        |name| Scripted::new(name, native.0, native.1),
        |name| Scripted::new(name, command.0, command.1),
    )
}

#[test]
fn wayland_display_with_the_protocol() {
    let r = try_wayland((nothing, bad_write), (unreadable, bad_write));
    assert!(matches!(
        r,
        Ok(Some(WaylandChoice::Native(c))) if c.display == "wayland-5" && c.written.borrow().is_empty()
    ));
    let r = try_wayland((text, good_write), (unreadable, bad_write));
    let Ok(Some(WaylandChoice::Native(c))) = r else { panic!("not native") };
    assert!(*c.written.borrow() == vec![ClipboardData::from_text("t")]);
    let r = try_wayland((text, bad_write), (text, good_write));
    assert!(matches!(r, Ok(None)));
}

#[test]
fn wayland_display_without_the_protocol() {
    let r = try_wayland((no_protocol, good_write), (text, good_write));
    let Ok(Some(WaylandChoice::Command(c))) = r else { panic!("not command") };
    assert_eq!(c.display, "wayland-5");
    assert!(*c.written.borrow() == vec![ClipboardData::from_text("t")]);
    let r = try_wayland((no_protocol, good_write), (nothing, good_write));
    assert!(matches!(r, Ok(Some(WaylandChoice::Command(_)))));
    assert!(matches!(try_wayland((no_protocol, good_write), (text, bad_write)), Ok(None)));
    assert!(matches!(try_wayland((no_protocol, good_write), (unreadable, good_write)), Ok(None)));
}

#[test]
fn wayland_display_that_fails() {
    assert!(matches!(try_wayland((gone, good_write), (text, good_write)), Ok(None)));
    assert!(matches!(
        try_wayland((unreadable, good_write), (text, good_write)),
        Err(MyError::Other(m)) if m == "unreadable"
    ));
}

fn try_x11(
    direct: MyResult<fn() -> MyResult<ClipboardData>>,
    legacy: MyResult<fn() -> MyResult<ClipboardData>>,
) -> MyResult<Option<X11Choice<Scripted, Scripted>>> {
    let direct = RefCell::new(Some(direct));
    let legacy = RefCell::new(Some(legacy));
    get_x11(
        9,
        |name| Ok(Scripted::new(name, direct.borrow_mut().take().unwrap()?, good_write)),
        |name| Ok(Scripted::new(name, legacy.borrow_mut().take().unwrap()?, good_write)),
    )
}

#[test]
fn x11_backends_in_turn() {
    assert!(matches!(
        try_x11(Ok(nothing), Err(other("no"))),
        Ok(Some(X11Choice::Direct(c))) if c.display == ":9"
    ));
    assert!(matches!(
        try_x11(Ok(unreadable), Ok(text)),
        Ok(Some(X11Choice::Legacy(c))) if c.display == ":9"
    ));
    assert!(matches!(try_x11(Err(other("a")), Ok(nothing)), Ok(Some(X11Choice::Legacy(_)))));
    assert!(matches!(
        try_x11(Err(other("a")), Err(other("b"))),
        Err(MyError::Other(m)) if m == "b"
    ));
    assert!(matches!(
        try_x11(Err(other("a")), Ok(unreadable)),
        Err(MyError::Other(m)) if m == "unreadable"
    ));
}

#[test]
fn steps_of_a_wayland_display() {
    let next = next_wayland_step;
    let read = |r| next(WaylandStep::ReadNative, WaylandEvent::Read(r));
    let done = |s, a: fn(&WaylandAnswer) -> bool| matches!(s, WaylandStep::Done(x) if a(&x));
    assert!(done(read(gone()), |a| matches!(a, WaylandAnswer::Absent)));
    assert!(done(read(unreadable()), |a| matches!(a, WaylandAnswer::Failed(MyError::Other(_)))));
    assert!(done(read(nothing()), |a| matches!(a, WaylandAnswer::Native)));
    assert!(matches!(read(no_protocol()), WaylandStep::ReadCommand));
    let WaylandStep::WriteNative(d) = read(text()) else { panic!("no write") };
    assert!(d == ClipboardData::from_text("t"));
    let written = |s, w| next(s, WaylandEvent::Written(w));
    let native = || WaylandStep::WriteNative(ClipboardData::empty());
    let command = || WaylandStep::WriteCommand(ClipboardData::empty());
    assert!(done(written(native(), good_write()), |a| matches!(a, WaylandAnswer::Native)));
    assert!(done(written(native(), bad_write()), |a| matches!(a, WaylandAnswer::Absent)));
    assert!(done(written(command(), good_write()), |a| matches!(a, WaylandAnswer::Command)));
    assert!(done(written(command(), bad_write()), |a| matches!(a, WaylandAnswer::Absent)));
    let reread = |r| next(WaylandStep::ReadCommand, WaylandEvent::Read(r));
    assert!(matches!(reread(nothing()), WaylandStep::WriteCommand(_)));
    assert!(done(reread(unreadable()), |a| matches!(a, WaylandAnswer::Absent)));
    // What does not belong to a step changes nothing.
    assert!(matches!(written(WaylandStep::ReadNative, good_write()), WaylandStep::ReadNative));
}

#[test]
fn a_wayland_step_does_one_thing() {
    let w = Scripted::new("w".to_string(), text, good_write);
    let k = Scripted::new("k".to_string(), text, good_write);
    let payload = ClipboardData::from_text("p");
    let r = perform_wayland_step(&w, &k, &WaylandStep::WriteCommand(payload));
    assert!(matches!(r, Some(WaylandEvent::Written(Ok(())))));
    assert!(w.written.borrow().is_empty());
    assert_eq!(k.written.borrow().len(), 1);
    let done = WaylandStep::Done(WaylandAnswer::Absent);
    assert!(perform_wayland_step(&w, &k, &done).is_none());
}

#[test]
fn steps_of_an_x11_display() {
    let next = next_x11_step::<u8, u16>;
    let step = next(X11Step::OpenDirect, X11Event::OpenedDirect(Ok(1)));
    assert!(matches!(step, X11Step::ReadDirect(1)));
    assert!(matches!(
        next(step, X11Event::Read(nothing())),
        X11Step::Done(Ok(Some(X11Choice::Direct(1))))
    ));
    assert!(matches!(
        next(X11Step::ReadDirect(1), X11Event::Read(unreadable())),
        X11Step::OpenLegacy
    ));
    assert!(matches!(
        next(X11Step::OpenDirect, X11Event::OpenedDirect(Err(other("a")))),
        X11Step::OpenLegacy
    ));
    assert!(matches!(
        next(X11Step::OpenLegacy, X11Event::OpenedLegacy(Ok(2))),
        X11Step::ReadLegacy(2)
    ));
    assert!(matches!(
        next(X11Step::OpenLegacy, X11Event::OpenedLegacy(Err(other("b")))),
        X11Step::Done(Err(MyError::Other(m))) if m == "b"
    ));
    assert!(matches!(
        next(X11Step::ReadLegacy(2), X11Event::Read(text())),
        X11Step::Done(Ok(Some(X11Choice::Legacy(2))))
    ));
    assert!(matches!(
        next(X11Step::ReadLegacy(2), X11Event::Read(unreadable())),
        X11Step::Done(Err(MyError::Other(_)))
    ));
    assert!(matches!(
        next(X11Step::OpenDirect, X11Event::OpenedLegacy(Ok(2))),
        X11Step::OpenDirect
    ));
}

#[test]
fn the_text_backend_is_opened_last() {
    let opened = RefCell::new(Vec::new());
    let open = |kind: &'static str, read: fn() -> MyResult<ClipboardData>| {
        let opened = &opened;
        move |name: String| -> MyResult<Scripted> {
            opened.borrow_mut().push(kind);
            Ok(Scripted::new(name, read, good_write))
        }
    };
    assert!(get_x11(1, open("direct", text), open("legacy", text)).is_ok());
    assert_eq!(*opened.borrow(), ["direct"]);
    opened.borrow_mut().clear();
    assert!(get_x11(1, open("direct", unreadable), open("legacy", text)).is_ok());
    assert_eq!(*opened.borrow(), ["direct", "legacy"]);
}
