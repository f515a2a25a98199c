use clipboard_sync::mime::{
    is_text_mime, is_wayland_internal_mime, is_x11_meta_target, is_x11_text_target,
    sort_by_mime_priority, to_strings, WAYLAND_PROBE_MIME_TYPES, X11_PROBE_TARGETS,
};

fn sorted(types: &[&str], list: &[&str]) -> Vec<String> {
    let mut v = to_strings(types);
    sort_by_mime_priority(&mut v, list);
    v
}

#[test]
fn text_types() {
    for m in ["text/plain", "text/html", "text/", "UTF8_STRING", "STRING", "TEXT", "COMPOUND_TEXT"] {
        assert!(is_text_mime(m), "{m}");
    }
    for m in ["image/png", "text", "Text/plain", "utf8_string", "", "application/text/plain"] {
        assert!(!is_text_mime(m), "{m}");
    }
    assert!(is_x11_text_target("COMPOUND_TEXT"));
    assert!(!is_x11_text_target("text/plain"));
}

#[test]
fn internal_wayland_types() {
    for m in [
        "application/x-kde-cutselection",
        "x-special/gnome-copied-files",
        "x-special/nautilus-clipboard",
        "x-kde-nativedata",
        "application/x-qt-image",
        "application/x-qt-image;foo",
        "application/x-kde4-urilist",
    ] {
        assert!(is_wayland_internal_mime(m), "{m}");
    }
    for m in ["x-kde-nativedata2", "application/x-kd", "text/plain", ""] {
        assert!(!is_wayland_internal_mime(m), "{m}");
    }
}

#[test]
fn meta_targets() {
    for m in [
        "TARGETS", "MULTIPLE", "TIMESTAMP", "DELETE", "INSERT_PROPERTY", "INSERT_SELECTION", "INCR",
        "CLIPBOARD_MANAGER", "SAVE_TARGETS", "ATOM", "ATOM_PAIR", "INTEGER", "PIXMAP", "BITMAP",
        "COLORMAP", "DRAWABLE", "WINDOW", "PIXEL", "_NET_WM_NAME", "_WM_X", "_XSETTINGS_S0",
        "_MOTIF_X",
    ] {
        assert!(is_x11_meta_target(m), "{m}");
    }
    for m in ["TEXT", "STRING", "targets", "TARGETS2", "_NETX", "text/html", ""] {
        assert!(!is_x11_meta_target(m), "{m}");
    }
}

#[test]
fn priority_sort_is_stable_and_keeps_everything() {
    let r = sorted(
        &["b/unknown", "text/plain", "a/unknown", "image/png", "text/plain", "image/jpeg"],
        &WAYLAND_PROBE_MIME_TYPES,
    );
    assert_eq!(
        r,
        ["image/png", "image/jpeg", "text/plain", "text/plain", "b/unknown", "a/unknown"]
    );
    let mut again = r.clone();
    sort_by_mime_priority(&mut again, &WAYLAND_PROBE_MIME_TYPES);
    assert_eq!(again, r);
}

#[test]
fn priority_sort_edge_cases() {
    assert_eq!(sorted(&[], &X11_PROBE_TARGETS), Vec::<String>::new());
    assert_eq!(sorted(&["z", "a"], &[]), ["z", "a"]);
    // The first place of a repeated name counts.
    assert_eq!(sorted(&["b", "a"], &["a", "b", "a"]), ["a", "b"]);
}

#[test]
fn probe_lists_put_binary_types_first() {
    for list in [&WAYLAND_PROBE_MIME_TYPES[..], &X11_PROBE_TARGETS[..]] {
        let first_text = list.iter().position(|m| is_text_mime(m)).unwrap();
        assert!(list[first_text..].iter().all(|m| is_text_mime(m)));
        assert!(first_text > 0);
    }
    assert_eq!(WAYLAND_PROBE_MIME_TYPES.len(), 9);
    assert_eq!(X11_PROBE_TARGETS.len(), 7);
}
