use std::cell::RefCell;

use clipboard_sync::data::{ClipboardData, MimeEntry};
use clipboard_sync::error::MyError;
use clipboard_sync::words::{all_words, order_of_probe, push_le_bytes, word_at, ByteOrder};
use clipboard_sync::x11::{
    atoms_in, known_atom, read_target, store_target, x11_targets, StorePlan, X11Clipboard,
    X11ClipboardDirect, X11Target,
};

fn entry(m: &str, d: &[u8]) -> MimeEntry {
    MimeEntry { mime_type: m.to_string(), data: d.to_vec() }
}

fn direct() -> X11ClipboardDirect {
    X11ClipboardDirect { display: ":0".to_string() }
}

fn ne(atoms: &[u32]) -> Vec<u8> {
    atoms.iter().flat_map(|a| a.to_ne_bytes()).collect()
}

#[test]
fn words_in_both_orders() {
    let bytes = [1, 2, 3, 4, 5];
    assert_eq!(word_at(ByteOrder::Little, &bytes, 0), 0x0403_0201);
    assert_eq!(word_at(ByteOrder::Big, &bytes, 1), 0x0203_0405);
    assert_eq!(all_words(ByteOrder::Big, &[0, 0, 1, 0, 255, 255, 255, 255, 9]), [256, u32::MAX]);
    assert!(all_words(ByteOrder::Little, &[1, 2, 3]).is_empty());
    assert_eq!(order_of_probe(1), ByteOrder::Little);
    assert_eq!(order_of_probe(0x100_0000), ByteOrder::Big);
    for x in [0u32, 1, 255, 256, 0xdead_beef, u32::MAX] {
        let mut out = vec![7];
        push_le_bytes(&mut out, x);
        assert_eq!(&out[1..], x.to_le_bytes());
        assert_eq!(word_at(ByteOrder::Little, &out, 1), x);
    }
}

#[test]
fn zero_atoms_are_none() {
    assert_eq!(atoms_in(ByteOrder::Little, &[5, 0, 0, 0, 0, 0, 0, 0, 6, 0, 0, 0, 7]), [5, 6]);
    assert_eq!(known_atom(Some(0)), None);
    assert_eq!(known_atom(Some(3)), Some(3));
    assert_eq!(known_atom(None), None);
}

#[test]
fn targets_resolve() {
    assert_eq!(read_target("UTF8_STRING"), Some(X11Target::Utf8String));
    assert_eq!(read_target("STRING"), Some(X11Target::Latin1String));
    assert_eq!(read_target("TEXT"), Some(X11Target::Latin1String));
    assert_eq!(read_target("text/plain"), None);
    assert_eq!(store_target("text/plain"), Some(X11Target::Utf8String));
    assert_eq!(store_target("text/plain;charset=utf-8"), Some(X11Target::Utf8String));
    assert_eq!(store_target("TEXT"), Some(X11Target::Latin1String));
    assert_eq!(store_target("COMPOUND_TEXT"), None);
    assert_eq!(x11_targets(vec!["a".to_string()]), ["a"]);
    assert_eq!(x11_targets(vec![]).len(), 7);
}

#[test]
fn direct_read_discovers_targets() {
    let name_of = |a: u32| match a {
        10 => Some("TARGETS".to_string()),
        11 => Some("UTF8_STRING".to_string()),
        12 => Some("image/png".to_string()),
        13 => Some("foo/bar".to_string()),
        14 => Some("TEXT".to_string()),
        _ => None,
    };
    let interned = RefCell::new(Vec::new());
    let intern = |name: &str, only: bool| {
        interned.borrow_mut().push((name.to_string(), only));
        match name {
            "TARGETS" => Some(10),
            "image/png" => Some(12),
            "foo/bar" => Some(0),
            _ => None,
        }
    };
    let load = |t: X11Target| match t {
        X11Target::Interned(10) => Some(ne(&[10, 11, 0, 13, 12, 99, 14])),
        X11Target::Interned(12) => Some(b"png".to_vec()),
        X11Target::Utf8String => Some(b"u".to_vec()),
        X11Target::Latin1String => Some(Vec::new()),
        _ => None,
    };
    let data = direct().get_data(intern, load, name_of).unwrap();
    assert!(data.entries == vec![entry("image/png", b"png"), entry("UTF8_STRING", b"u")]);
    assert_eq!(
        *interned.borrow(),
        [
            ("TARGETS".to_string(), false),
            ("image/png".to_string(), true),
            ("foo/bar".to_string(), true)
        ]
    );
}

#[test]
fn direct_read_probes_without_targets() {
    // No TARGETS atom, no reply, or a reply too short: the probe list is used.
    for (atom, reply) in [(None, None), (Some(0), None), (Some(1), None), (Some(1), Some(vec![1]))] {
        let asked = RefCell::new(Vec::new());
        let data = direct()
            .get_data(
                |name: &str, _| {
                    if name == "TARGETS" {
                        return atom;
                    }
                    asked.borrow_mut().push(name.to_string());
                    Some(50)
                },
                |t: X11Target| match t {
                    X11Target::Interned(1) => reply.clone(),
                    X11Target::Latin1String => Some(b"s".to_vec()),
                    _ => None,
                },
                |_| panic!("nothing to name"),
            )
            .unwrap();
        assert!(data.entries == vec![entry("STRING", b"s"), entry("TEXT", b"s")]);
        assert_eq!(*asked.borrow(), ["image/png", "image/jpeg", "text/html", "text/uri-list"]);
    }
}

#[test]
fn direct_read_looks_up_no_more_names_than_needed() {
    let atoms: Vec<u32> = (1..=100).collect();
    let looked_up = RefCell::new(0);
    let data = direct()
        .get_data(
            |_: &str, _| Some(7),
            |_| Some(ne(&atoms)),
            |a| {
                *looked_up.borrow_mut() += 1;
                Some(if a == 2 { "INCR".to_string() } else { format!("t/{a}") })
            },
        )
        .unwrap();
    assert_eq!(*looked_up.borrow(), 65);
    assert_eq!(data.entries.len(), 64);
    assert_eq!(data.entries[63].mime_type, "t/65");
}

#[test]
fn direct_store_prefers_rich_entries() {
    let d = ClipboardData {
        entries: vec![entry("UTF8_STRING", b"u"), entry("image/png", b"png"), entry("a/b", b"x")],
    };
    let plan = direct().store_plan(&d, |name: &str, only| {
        assert!(only);
        assert_eq!(name, "image/png");
        Some(44)
    });
    assert!(matches!(
        plan,
        StorePlan::Store { target: X11Target::Interned(44), data } if data == b"png"
    ));
    // Without such an atom the text is stored.
    for reply in [None, Some(0)] {
        let plan = direct().store_plan(&d, |_: &str, _| reply);
        assert!(matches!(
            plan,
            StorePlan::Store { target: X11Target::Utf8String, data } if data == b"u"
        ));
    }
    let d = ClipboardData { entries: vec![entry("image/png", b"png")] };
    assert!(matches!(direct().store_plan(&d, |_: &str, _| None), StorePlan::Nothing));
}

#[test]
fn direct_store_of_text_needs_no_atom() {
    let no_atom = |_: &str, _: bool| -> Option<u32> { panic!("not to be asked") };
    let plan = direct().store_plan(&ClipboardData::from_text("hi"), no_atom);
    assert!(matches!(
        plan,
        StorePlan::Store { target: X11Target::Utf8String, data } if data == b"hi"
    ));
    let d = ClipboardData { entries: vec![entry("STRING", b"s"), entry("UTF8_STRING", b"u")] };
    assert!(matches!(
        direct().store_plan(&d, no_atom),
        StorePlan::Store { target: X11Target::Latin1String, data } if data == b"s"
    ));
    assert!(matches!(
        direct().store_plan(&ClipboardData::empty(), no_atom),
        StorePlan::Nothing
    ));
}

#[test]
fn stored_entries_come_back_as_unchanged() {
    let text = ClipboardData::from_text("hi");
    let echo = ClipboardData { entries: vec![entry("UTF8_STRING", b"hi")] };
    assert!(echo.same_content(&text));
    let rich = ClipboardData { entries: vec![entry("image/png", b"p"), entry("TEXT", b"t")] };
    let echo = ClipboardData { entries: vec![entry("image/png", b"p")] };
    assert!(echo.same_content(&rich));
}

#[test]
fn text_backend_reads_and_writes_text() {
    let c = X11Clipboard { display: ":3".to_string() };
    assert_eq!(c.display(), ":3");
    assert_eq!(direct().display(), ":0");
    assert!(c.get_data(None).is_empty());
    assert!(c.get_data(Some(String::new())).is_empty());
    assert!(c.get_data(Some("x".to_string())) == ClipboardData::from_text("x"));
    assert_eq!(c.text_to_set(&ClipboardData::empty()), "");
    let d = ClipboardData { entries: vec![entry("image/png", b"p"), entry("text/html", b"<p>")] };
    assert_eq!(c.text_to_set(&d), "<p>");
    assert_eq!(c.get_data(Some(c.text_to_set(&d))).text(), d.text());
}

#[test]
fn x11_backends_write_by_their_plans() {
    let stored = RefCell::new(Vec::new());
    let set = |d: &ClipboardData| {
        direct().set_data(
            d,
            |_: &str, _| Some(9),
            |t, bytes| {
                stored.borrow_mut().push((t, bytes));
                Ok(())
            },
        )
    };
    assert!(set(&ClipboardData::empty()).is_ok());
    assert!(set(&ClipboardData { entries: vec![entry("image/png", b"p")] }).is_ok());
    assert_eq!(*stored.borrow(), [(X11Target::Interned(9), b"p".to_vec())]);
    let texts = RefCell::new(Vec::new());
    let legacy = X11Clipboard { display: ":1".to_string() };
    let r = legacy.set_data(&ClipboardData::from_text("x"), |t: &str| {
        texts.borrow_mut().push(t.to_string());
        Err(MyError::NoClipboards)
    });
    assert!(matches!(r, Err(MyError::NoClipboards)));
    assert_eq!(*texts.borrow(), ["x"]);
}
