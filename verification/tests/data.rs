use clipboard_sync::data::{ClipboardData, MimeEntry};

fn payload(entries: &[(&str, &[u8])]) -> ClipboardData {
    ClipboardData {
        entries: entries
            .iter()
            .map(|(m, d)| MimeEntry { mime_type: m.to_string(), data: d.to_vec() })
            .collect(),
    }
}

#[test]
fn empty_payload() {
    let e = ClipboardData::empty();
    assert!(e.is_empty());
    assert!(e.text().is_none());
    assert!(e.canonical().is_none());
    assert!(!e.has_binary());
    assert!(e.get_mime("text/plain").is_none());
    assert!(e == ClipboardData::default());
    assert!(e.same_content(&ClipboardData::empty()));
}

#[test]
fn text_payload_offers_all_common_types() {
    let d = ClipboardData::from_text("héllo");
    let types: Vec<&str> = d.entries.iter().map(|e| e.mime_type.as_str()).collect();
    assert_eq!(types, ["text/plain;charset=utf-8", "text/plain", "UTF8_STRING", "STRING"]);
    assert!(d.entries.iter().all(|e| e.data == "héllo".as_bytes()));
    assert_eq!(d.text().as_deref(), Some("héllo"));
    assert!(!d.has_binary());
    assert!(ClipboardData::from_text("").text().is_none());
    assert_eq!(ClipboardData::from_text("a\0\0").text().as_deref(), Some("a"));
}

#[test]
fn first_entry_of_a_type_counts() {
    let d = payload(&[("a", b"1"), ("b", b"2"), ("a", b"3")]);
    assert_eq!(d.get_mime("a"), Some(&b"1"[..]));
    assert_eq!(d.get_mime("b"), Some(&b"2"[..]));
    assert_eq!(d.get_mime("c"), None);
    assert_eq!(d.canonical(), Some(("a", &b"1"[..])));
}

#[test]
fn text_follows_the_preferred_types() {
    let d = payload(&[
        ("text/html", b"<b>h</b>"),
        ("TEXT", b"t"),
        ("STRING", b"s"),
        ("UTF8_STRING", b"u"),
        ("text/plain", b"p"),
    ]);
    assert_eq!(d.text().as_deref(), Some("p"));
    let d = payload(&[("STRING", b"s"), ("UTF8_STRING", b"u")]);
    assert_eq!(d.text().as_deref(), Some("u"));
}

#[test]
fn unusable_text_is_passed_over() {
    // Invalid UTF-8 and nothing but NULs are no text.
    let d = payload(&[
        ("text/plain;charset=utf-8", b"\xff\xfe"),
        ("text/plain", b"\0\0"),
        ("UTF8_STRING", b"ok\0"),
    ]);
    assert_eq!(d.text().as_deref(), Some("ok"));
    // A second entry of a preferred type is found by the fallback.
    let d = payload(&[("text/plain", b""), ("text/plain", b"second")]);
    assert_eq!(d.text().as_deref(), Some("second"));
    let d = payload(&[("image/png", b"png"), ("text/html", b"<i>"), ("text/css", b"c")]);
    assert_eq!(d.text().as_deref(), Some("<i>"));
    let d = payload(&[("COMPOUND_TEXT", b"c")]);
    assert_eq!(d.text().as_deref(), Some("c"));
    assert!(payload(&[("image/png", b"text")]).text().is_none());
}

#[test]
fn text_content_is_compared_by_text() {
    let rich = payload(&[("text/html", b"<b>x</b>"), ("text/plain", b"x")]);
    let plain = payload(&[("UTF8_STRING", b"x\0")]);
    assert!(plain.same_content(&rich));
    assert!(rich.same_content(&plain));
    assert!(!payload(&[("STRING", b"y")]).same_content(&rich));
    assert!(!payload(&[("STRING", b"")]).same_content(&rich));
    assert!(!rich.same_content(&ClipboardData::empty()));
}

#[test]
fn binary_content_is_compared_by_first_bytes() {
    let a = payload(&[("image/png", b"png"), ("text/plain", b"x")]);
    let b = payload(&[("image/webp", b"png"), ("text/plain", b"y")]);
    let c = payload(&[("image/png", b"PNG"), ("text/plain", b"x")]);
    assert!(a.same_content(&b));
    assert!(b.same_content(&a));
    assert!(!a.same_content(&c));
    assert!(a.has_binary());
}

#[test]
fn text_only_echo_of_rich_content_is_unchanged() {
    let rich = payload(&[("image/png", b"png"), ("text/plain", b"x")]);
    let echo = payload(&[("UTF8_STRING", b"x")]);
    assert!(echo.same_content(&rich));
    assert!(!payload(&[("UTF8_STRING", b"z")]).same_content(&rich));
    assert!(!rich.same_content(&echo));
    let silent = payload(&[("image/png", b"png")]);
    assert!(ClipboardData::empty().same_content(&silent));
    assert!(!echo.same_content(&silent));
    // The first entry of rich content comes back alone.
    assert!(payload(&[("image/png", b"png")]).same_content(&rich));
}

#[test]
fn added_binary_content_is_a_change() {
    let plain = payload(&[("text/html", b"hi")]);
    let rich = payload(&[("text/html", b"hi"), ("image/png", &[1])]);
    assert!(!rich.same_content(&plain));
    assert!(plain.same_content(&rich));
}

#[test]
fn merge_adds_missing_types() {
    let mut a = payload(&[("t", b"1")]);
    a.merge(payload(&[("u", b"2"), ("t", b"3"), ("u", b"4")]));
    assert!(a == payload(&[("t", b"1"), ("u", b"2")]));
    let before = a.clone();
    a.merge(before.clone());
    assert!(a == before);
    a.merge(ClipboardData::empty());
    assert!(a == before);
}

#[test]
fn dedup_keeps_the_first_of_each_content() {
    let mut a = payload(&[("t", b"1"), ("u", b"2"), ("v", b"1"), ("w", b""), ("x", b"")]);
    a.dedup_by_content();
    assert!(a == payload(&[("t", b"1"), ("u", b"2"), ("w", b"")]));
    let once = a.clone();
    a.dedup_by_content();
    assert!(a == once);
}

#[test]
fn equality_looks_at_types_and_bytes() {
    let a = payload(&[("t", b"1")]);
    assert!(a == a.clone());
    assert!(a != payload(&[("u", b"1")]));
    assert!(a != payload(&[("t", b"2")]));
    assert!(a != payload(&[("t", b"1"), ("t", b"1")]));
    assert!(a.entries[0] == a.entries[0].clone());
}
