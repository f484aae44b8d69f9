use supercv::classify::{
    classify, classify_file, classify_image, classify_text, file_kind, is_blank, sidecar_path,
    size_label, string_is_large, CivilDate, FileRef, Payload, Snapshot, MAX_TEXT_BYTES,
};
use supercv::kind::ContentType;

#[test]
fn text_is_captured_as_is() {
    let item = classify_text("hello world".to_string(), 42, 7).unwrap();
    assert_eq!(item.display_text, "hello world");
    assert_eq!(item.kind, ContentType::Text);
    assert_eq!(item.fingerprint, 42);
    assert_eq!(item.captured_at, 7);
    assert!(item.path.is_empty());
    assert!(matches!(item.payload, Payload::Absent));
}

#[test]
fn empty_or_blank_text_is_dropped() {
    assert!(classify_text(String::new(), 1, 1).is_none());
    assert!(classify_text("  \n\t ".to_string(), 1, 1).is_none());
    assert!(classify_text("\u{3000}".to_string(), 1, 1).is_none());
}

#[test]
fn text_over_the_byte_limit_is_dropped() {
    let at_limit = "a".repeat(MAX_TEXT_BYTES);
    let over = "a".repeat(MAX_TEXT_BYTES + 1);
    assert!(!string_is_large(&at_limit));
    assert!(string_is_large(&over));
    assert!(classify_text(at_limit, 1, 1).is_some());
    assert!(classify_text(over, 1, 1).is_none());
    // three bytes per character: 83334 characters are 250002 bytes
    assert!(classify_text("应".repeat(83334), 1, 1).is_none());
}

#[test]
fn white_space_characters() {
    for c in [' ', '\t', '\n', '\r', '\u{0B}', '\u{0C}', '\u{85}', '\u{A0}', '\u{1680}', '\u{2000}', '\u{200A}', '\u{2028}', '\u{2029}', '\u{202F}', '\u{205F}', '\u{3000}'] {
        assert!(supercv::classify::is_white(c), "{:?}", c);
        assert!(c.is_whitespace());
    }
    for c in ['a', '\u{200B}', '\u{180E}', '\u{FEFF}', '0', '应'] {
        assert!(!supercv::classify::is_white(c), "{:?}", c);
        assert!(!c.is_whitespace());
    }
}

#[test]
fn blank_detection() {
    assert!(is_blank(""));
    assert!(is_blank(" \t\r\n"));
    assert!(!is_blank("  x "));
}

#[test]
fn file_kinds_by_extension() {
    assert_eq!(file_kind("/a/b/photo.PNG"), ContentType::Image);
    assert_eq!(file_kind("/a/b/photo.jpeg"), ContentType::Image);
    assert_eq!(file_kind("/a/b/photo.Jpg"), ContentType::Image);
    assert_eq!(file_kind("/a/b/anim.gif"), ContentType::Image);
    assert_eq!(file_kind("/a/b/pic.bmp"), ContentType::Image);
    assert_eq!(file_kind("/a/b/doc.pdf"), ContentType::File);
    assert_eq!(file_kind("/a/b/archive.png.zip"), ContentType::File);
    assert_eq!(file_kind("/a/b/noext"), ContentType::File);
    assert_eq!(file_kind("png"), ContentType::Image);
}

#[test]
fn file_display_texts() {
    let img = classify_file(&FileRef { path: "/tmp/x.PNG".to_string(), size: Some(2048) }, 9, 100);
    assert_eq!(img.kind, ContentType::Image);
    assert_eq!(img.display_text, "Image: /tmp/x.PNG (2.0 KB)");
    assert_eq!(img.path, "/tmp/x.PNG");
    assert_eq!(img.fingerprint, 9);
    assert!(matches!(img.payload, Payload::Path(ref p) if p == "/tmp/x.PNG"));

    let file = classify_file(&FileRef { path: "/tmp/a.txt".to_string(), size: None }, 3, 100);
    assert_eq!(file.kind, ContentType::File);
    assert_eq!(file.display_text, "File: /tmp/a.txt (?)");
}

#[test]
fn size_labels() {
    assert_eq!(size_label(None), "?");
    assert_eq!(size_label(Some(512)), "512 B");
}

#[test]
fn image_display_text() {
    let bytes = vec![0u8; 2411725];
    let item = classify_image(1920, 1080, bytes, 5, 60, "/f/20240101/60.png".to_string());
    assert_eq!(item.display_text, "Image: 1920x1080 (2.3 MB)");
    assert_eq!(item.kind, ContentType::Image);
    assert_eq!(item.path, "/f/20240101/60.png");
    assert!(matches!(item.payload, Payload::Bytes(ref b) if b.len() == 2411725));
}

#[test]
fn sidecar_paths() {
    let date = CivilDate { year: 2024, month: 7, day: 5 };
    assert_eq!(sidecar_path("/root/files", &date, 1720000000, "png"), "/root/files/20240705/1720000000.png");
    let early = CivilDate { year: 987, month: 12, day: 31 };
    assert_eq!(sidecar_path("/f", &early, -5, "tiff"), "/f/09871231/-5.tiff");
}

#[test]
fn classify_snapshots() {
    let date = CivilDate { year: 2024, month: 1, day: 2 };
    let files = Snapshot::Files(vec![
        FileRef { path: "/x/a.gif".to_string(), size: Some(10) },
        FileRef { path: "/x/b.doc".to_string(), size: Some(1024) },
    ]);
    let items = classify(files, 50, &date, "/root");
    assert_eq!(items.len(), 2);
    assert_eq!(items[0].display_text, "Image: /x/a.gif (10 B)");
    assert_eq!(items[1].display_text, "File: /x/b.doc (1.0 KB)");

    assert!(classify(Snapshot::Files(vec![]), 50, &date, "/root").is_empty());

    let image = Snapshot::Image { width: 2, height: 3, bytes: vec![1, 2, 3] };
    let items = classify(image, 50, &date, "/root");
    assert_eq!(items.len(), 1);
    assert_eq!(items[0].display_text, "Image: 2x3 (3 B)");
    assert_eq!(items[0].path, "/root/20240102/50.png");

    assert!(classify(Snapshot::Text("   ".to_string()), 50, &date, "/root").is_empty());
    let items = classify(Snapshot::Text("hi".to_string()), 50, &date, "/root");
    assert_eq!(items.len(), 1);
    assert_eq!(items[0].display_text, "hi");
}

#[test]
fn equal_inputs_get_equal_fingerprints() {
    let date = CivilDate { year: 2024, month: 1, day: 2 };
    let a = classify(Snapshot::Text("same".to_string()), 1, &date, "/r");
    let b = classify(Snapshot::Text("same".to_string()), 2, &date, "/r");
    assert_eq!(a[0].fingerprint, b[0].fingerprint);
}
