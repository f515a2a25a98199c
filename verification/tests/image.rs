use clipboard_sync::data::{ClipboardData, MimeEntry};
use clipboard_sync::error::MyError;
use clipboard_sync::image::{can_count_image_size, encode_image, ArClipboard, ArPlan, RawImage};

fn ar() -> ArClipboard {
    ArClipboard { display: "wayland-0".to_string() }
}

fn raw(bytes: Vec<u8>) -> ClipboardData {
    ClipboardData {
        entries: vec![
            MimeEntry { mime_type: "image/x-raw-rgba".to_string(), data: bytes },
            MimeEntry { mime_type: "text/plain".to_string(), data: b"alt".to_vec() },
        ],
    }
}

#[test]
fn image_is_encoded_with_its_size() {
    let d = encode_image(&RawImage { width: 2, height: 258, bytes: vec![9, 8] });
    assert_eq!(d.entries.len(), 1);
    assert_eq!(d.entries[0].mime_type, "image/x-raw-rgba");
    assert_eq!(d.entries[0].data, [2, 0, 0, 0, 2, 1, 0, 0, 9, 8]);
}

#[test]
fn image_reads_back() {
    let pixels: Vec<u8> = (0..24).collect();
    let image = RawImage { width: 3, height: 2, bytes: pixels.clone() };
    let d = ar().get_data(Some(image), Some("ignored".to_string()));
    assert!(can_count_image_size(&d));
    let ArPlan::Image(i) = ar().set_plan(&d) else { panic!("no image") };
    assert_eq!((i.width, i.height, i.bytes), (3, 2, pixels));
}

#[test]
fn unsound_images_give_way_to_text() {
    for bytes in [
        vec![],
        vec![1, 0, 0, 0, 1, 0, 0],
        vec![1, 0, 0, 0, 1, 0, 0, 0],
        vec![1, 0, 0, 0, 1, 0, 0, 0, 1, 2, 3],
        vec![1, 0, 0, 0, 1, 0, 0, 0, 1, 2, 3, 4, 5],
    ] {
        let d = raw(bytes);
        assert!(can_count_image_size(&d));
        assert!(matches!(ar().set_plan(&d), ArPlan::Text(t) if t == "alt"));
    }
    let empty = raw(vec![0; 8]);
    assert!(matches!(ar().set_plan(&empty), ArPlan::Image(i) if i.bytes.is_empty()));
}

#[test]
fn oversized_images_cannot_be_counted() {
    assert!(!can_count_image_size(&raw(vec![255; 8])));
    assert!(can_count_image_size(&ClipboardData::from_text("x")));
}

#[test]
fn text_is_the_fallback() {
    assert!(ar().get_data(None, Some("t".to_string())) == ClipboardData::from_text("t"));
    assert!(ar().get_data(None, Some(String::new())).is_empty());
    assert!(ar().get_data(None, None).is_empty());
    assert!(matches!(ar().set_plan(&ClipboardData::from_text("t")), ArPlan::Text(t) if t == "t"));
    assert!(matches!(ar().set_plan(&ClipboardData::empty()), ArPlan::Nothing));
    assert_eq!(ar().display(), "wayland-0");
}

#[test]
fn arboard_is_given_what_was_read() {
    let image = RawImage { width: 1, height: 1, bytes: vec![1, 2, 3, 4] };
    let d = ar().get_data(Some(image), None);
    let r = ar().set_data(
        &d,
        |i| {
            assert_eq!((i.width, i.height, i.bytes), (1, 1, vec![1, 2, 3, 4]));
            Err(MyError::Other("set".to_string()))
        },
        |_| panic!("no text to set"),
    );
    assert!(matches!(r, Err(MyError::Other(m)) if m == "set"));
    let r = ar().set_data(
        &raw(vec![1]),
        |_| panic!("no image to set"),
        |t| {
            assert_eq!(t, "alt");
            Ok(())
        },
    );
    assert!(r.is_ok());
    let r = ar().set_data(&ClipboardData::empty(), |_| panic!("no image"), |_| panic!("no text"));
    assert!(r.is_ok());
}
