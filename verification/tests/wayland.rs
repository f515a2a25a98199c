use std::cell::RefCell;

use clipboard_sync::data::{ClipboardData, MimeEntry};
use clipboard_sync::error::{MyError, PasteError};
use clipboard_sync::wayland::{
    discover_wayland_mime_types, is_plain_text_mime, wayland_mime_types, CommandOutput,
    CopyMimeType, CopyPlan, PasteOutcome, WlCommandClipboard, WlrClipboard,
};

fn entry(m: &str, d: &[u8]) -> MimeEntry {
    MimeEntry { mime_type: m.to_string(), data: d.to_vec() }
}

fn printed(s: &[u8]) -> Option<CommandOutput> {
    Some(CommandOutput { success: true, stdout: s.to_vec() })
}

fn wlr() -> WlrClipboard {
    WlrClipboard { display: "wayland-0".to_string() }
}

fn command() -> WlCommandClipboard {
    WlCommandClipboard { display: "wayland-1".to_string() }
}

#[test]
fn listing_is_read_line_by_line() {
    let out = printed(b"text/plain\n\n  image/png \r\ntext/html");
    assert_eq!(discover_wayland_mime_types(&out), ["text/plain", "image/png", "text/html"]);
    assert!(discover_wayland_mime_types(&None).is_empty());
    let failed = Some(CommandOutput { success: false, stdout: b"text/plain\n".to_vec() });
    assert!(discover_wayland_mime_types(&failed).is_empty());
    assert!(discover_wayland_mime_types(&printed(b"")).is_empty());
}

#[test]
fn invalid_bytes_in_a_listing_are_replaced() {
    let out = printed(b"a\xffb\nc");
    assert_eq!(discover_wayland_mime_types(&out), ["a\u{fffd}b", "c"]);
}

#[test]
fn listing_is_capped() {
    let many: String = (0..100).map(|i| format!("t/{i}\n")).collect();
    let types = discover_wayland_mime_types(&printed(many.as_bytes()));
    assert_eq!(types.len(), 64);
    assert_eq!(types[63], "t/63");
}

#[test]
fn requests_leave_out_internal_types() {
    let discovered = ["x-kde-nativedata", "text/plain", "foo/bar", "image/png"];
    let list = wayland_mime_types(discovered.iter().map(|s| s.to_string()).collect());
    assert_eq!(list, ["image/png", "text/plain", "foo/bar"]);
    // With nothing left, the probe list is asked for.
    let list = wayland_mime_types(vec!["x-kde-nativedata".to_string()]);
    assert_eq!(list.len(), 9);
    assert_eq!(list[0], "image/png");
    assert_eq!(list[8], "text/plain");
    assert_eq!(wayland_mime_types(vec![]).len(), 9);
}

#[test]
fn wlr_read_collects_what_is_there() {
    let asked = RefCell::new(Vec::new());
    let r = wlr().get_data(&printed(b"text/plain\nimage/png\nfoo/a\nfoo/b\nfoo/c\nfoo/d\n"), |m| {
        asked.borrow_mut().push(m.to_string());
        match m {
            "image/png" => PasteOutcome::Received(b"png".to_vec()),
            "text/plain" => PasteOutcome::Received(Vec::new()),
            "foo/a" => PasteOutcome::Refused(PasteError::NoMimeType),
            "foo/b" => PasteOutcome::Refused(PasteError::NoSeats),
            "foo/c" => PasteOutcome::Refused(PasteError::Other("odd".to_string())),
            _ => PasteOutcome::Received(b"d".to_vec()),
        }
    });
    let data = r.unwrap();
    assert!(data.entries == vec![entry("image/png", b"png"), entry("foo/d", b"d")]);
    assert_eq!(
        *asked.borrow(),
        ["image/png", "text/plain", "foo/a", "foo/b", "foo/c", "foo/d"]
    );
}

#[test]
fn wlr_read_stops_at_a_lost_connection() {
    let asked = RefCell::new(0);
    let r = wlr().get_data(&None, |_| {
        *asked.borrow_mut() += 1;
        if *asked.borrow() == 3 {
            PasteOutcome::Refused(PasteError::WaylandConnection("gone".to_string()))
        } else {
            PasteOutcome::Refused(PasteError::ClipboardEmpty)
        }
    });
    assert!(matches!(
        r,
        Err(MyError::WlcrsPaste(PasteError::WaylandConnection(m))) if m == "gone"
    ));
    assert_eq!(*asked.borrow(), 3);
}

#[test]
fn wlr_read_fails_with_a_broken_transfer() {
    let r = wlr().get_data(&None, |_| {
        PasteOutcome::Interrupted(MyError::Other("broken pipe".to_string()))
    });
    assert!(matches!(r, Err(MyError::Other(m)) if m == "broken pipe"));
}

#[test]
fn wlr_read_passes_over_a_missing_protocol() {
    let r = wlr().get_data(&None, |_| {
        PasteOutcome::Refused(PasteError::MissingProtocol { name: "p".to_string(), version: 1 })
    });
    assert!(r.unwrap().is_empty());
}

#[test]
fn wlr_copy_leaves_out_x11_types() {
    let plan = wlr().copy_plan(&ClipboardData {
        entries: vec![
            entry("image/png", b"png"),
            entry("UTF8_STRING", b"u"),
            entry("text/plain", b"p"),
            entry("COMPOUND_TEXT", b"c"),
            entry("text/plain;charset=utf-8", b"q"),
            entry("text/html", b"h"),
        ],
    });
    let CopyPlan::Sources(sources) = plan else { panic!("no sources") };
    let shown: Vec<(Option<String>, Vec<u8>)> = sources
        .into_iter()
        .map(|s| match s.mime_type {
            CopyMimeType::Text => (None, s.data),
            CopyMimeType::Specific(m) => (Some(m), s.data),
        })
        .collect();
    assert_eq!(
        shown,
        [
            (Some("image/png".to_string()), b"png".to_vec()),
            (None, b"p".to_vec()),
            (None, b"q".to_vec()),
            (Some("text/html".to_string()), b"h".to_vec()),
        ]
    );
}

#[test]
fn wlr_copy_falls_back_to_text() {
    let d = ClipboardData { entries: vec![entry("STRING", b"s\0"), entry("TEXT", b"t")] };
    assert!(matches!(wlr().copy_plan(&d), CopyPlan::Text(b) if b == b"s"));
    let d = ClipboardData { entries: vec![entry("STRING", b"\xff")] };
    assert!(matches!(wlr().copy_plan(&d), CopyPlan::Nothing));
    assert!(matches!(wlr().copy_plan(&ClipboardData::empty()), CopyPlan::Nothing));
}

#[test]
fn command_read_collects_successful_runs() {
    let r = command().get_data(&printed(b"a/a\nb/b\nc/c\nd/d\n"), |m| match m {
        "a/a" => printed(b"1"),
        "b/b" => printed(b""),
        "c/c" => None,
        _ => Some(CommandOutput { success: false, stdout: b"error".to_vec() }),
    });
    assert!(r.unwrap().entries == vec![entry("a/a", b"1")]);
}

#[test]
fn command_copies_one_entry() {
    let c = command();
    let d = ClipboardData {
        entries: vec![entry("STRING", b"s"), entry("COMPOUND_TEXT", b"c"), entry("a/b", b"x")],
    };
    assert!(*c.copy_entry(&d).unwrap() == entry("a/b", b"x"));
    let d = ClipboardData {
        entries: vec![entry("COMPOUND_TEXT", b"c"), entry("text/plain", b"p")],
    };
    assert!(*c.copy_entry(&d).unwrap() == entry("text/plain", b"p"));
    let d = ClipboardData { entries: vec![entry("TEXT", b"t"), entry("STRING", b"s")] };
    assert!(*c.copy_entry(&d).unwrap() == entry("TEXT", b"t"));
    assert!(c.copy_entry(&ClipboardData::empty()).is_none());
}

#[test]
fn wayland_backends_describe_themselves() {
    assert_eq!(wlr().display(), "wayland-0");
    assert_eq!(wlr().rank(), 10);
    assert_eq!(command().display(), "wayland-1");
    assert_eq!(command().rank(), 200);
    assert!(command().should_poll());
    assert!(is_plain_text_mime("text/plain;charset=utf-8"));
    assert!(!is_plain_text_mime("text/plain;charset=UTF-8"));
}

#[test]
fn wlr_writes_once_by_its_plan() {
    let calls = RefCell::new(Vec::new());
    let set = |d: &ClipboardData| {
        wlr().set_data(
            d,
            |bytes| {
                calls.borrow_mut().push(format!("text {}", bytes.len()));
                Ok(())
            },
            |sources| {
                calls.borrow_mut().push(format!("sources {}", sources.len()));
                Err(MyError::Other("refused".to_string()))
            },
        )
    };
    assert!(set(&ClipboardData::empty()).is_ok());
    assert!(set(&ClipboardData { entries: vec![entry("STRING", b"abc")] }).is_ok());
    let r = set(&ClipboardData::from_text("x"));
    assert!(matches!(r, Err(MyError::Other(m)) if m == "refused"));
    assert_eq!(*calls.borrow(), ["text 3", "sources 2"]);
}

#[test]
fn command_writes_one_entry() {
    let calls = RefCell::new(Vec::new());
    let set = |d: &ClipboardData, fail: bool| {
        command().set_data(d, |e: &MimeEntry| {
            calls.borrow_mut().push(e.clone());
            if fail {
                Err(MyError::Other("no wl-copy".to_string()))
            } else {
                Ok(())
            }
        })
    };
    assert!(set(&ClipboardData::empty(), true).is_ok());
    let d = ClipboardData { entries: vec![entry("TEXT", b"t"), entry("a/b", b"x")] };
    assert!(set(&d, false).is_ok());
    assert!(matches!(set(&d, true), Err(MyError::Other(_))));
    assert!(*calls.borrow() == vec![entry("a/b", b"x"), entry("a/b", b"x")]);
}
