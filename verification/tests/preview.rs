use duplicate_finder::preview::{self, Preview, PreviewKind, HEX_LIMIT, TEXT_LIMIT};

fn text(kind: PreviewKind) -> (String, bool) {
    match kind {
        PreviewKind::Text { content, truncated } => (content, truncated),
        _ => panic!(),
    }
}

fn dump(kind: PreviewKind) -> String {
    match kind {
        PreviewKind::Binary(dump) => dump,
        _ => panic!(),
    }
}

#[test]
fn images_by_name() {
    for name in ["a.png", "a.JPG", "a.b.Jpeg", "x.GIF", "x.bmp", "x.webp", "x.ico", "x.tif", "x.TIFF"] {
        assert!(preview::is_image(&format!("/d/{name}")), "{name}");
    }
    for name in ["png", ".png", "a.png.txt", "a.", "a.svg"] {
        assert!(!preview::is_image(&format!("/d/{name}")), "{name}");
    }
    let shown = Preview::load("/d/é.PNG", Err("unused".to_string()));
    assert_eq!(shown.path, "/d/é.PNG");
    assert!(matches!(shown.kind, PreviewKind::Image(uri) if uri == "file:///d/é.PNG"));
}

#[test]
fn texts_and_bytes() {
    assert_eq!(text(preview::classify(b"hello\nworld".to_vec())), ("hello\nworld".to_string(), false));
    assert_eq!(text(preview::classify(Vec::new())), (String::new(), false));
    assert_eq!(text(preview::classify("déjà".as_bytes().to_vec())).0, "déjà");
    // One byte in a hundred that is no text is put up with; more are not.
    let mut bytes = vec![b'a'; 99];
    bytes.push(0xe9);
    assert_eq!(text(preview::classify(bytes.clone())).0, format!("{}\u{FFFD}", "a".repeat(99)));
    bytes.remove(0);
    assert!(dump(preview::classify(bytes)).starts_with("00000000  61 61 "));
    // A byte of zero is never text.
    assert_eq!(
        dump(preview::classify(vec![0, 1, 2, 3, 255, 0, 7])),
        "00000000  00 01 02 03 ff 00 07                             .......\n"
    );
    // More than fits is cut.
    let long = vec![b'x'; TEXT_LIMIT + 1];
    let (content, truncated) = text(preview::classify(long));
    assert_eq!((content.len(), truncated), (TEXT_LIMIT, true));
    assert!(!text(preview::classify(vec![b'x'; TEXT_LIMIT])).1);
    let lines = dump(preview::classify(vec![0; TEXT_LIMIT + 1]));
    assert_eq!(lines.lines().count(), HEX_LIMIT / 16);
    assert!(lines.lines().last().unwrap().starts_with("000003f0  00 "));
    let shown = Preview::load("/d/x.txt", Ok(b"abc".to_vec()));
    assert_eq!(text(shown.kind).0, "abc");
    assert!(matches!(Preview::load("/d/x", Err("refusé".to_string())).kind, PreviewKind::Error(e) if e == "refusé"));
}

#[test]
fn lines_of_bytes() {
    let bytes: Vec<u8> = (0..18).map(|i| b'0' + i).collect();
    assert_eq!(
        preview::hex_dump(&bytes),
        "00000000  30 31 32 33 34 35 36 37 38 39 3a 3b 3c 3d 3e 3f  0123456789:;<=>?\n\
         00000010  40 41                                            @A\n"
    );
    assert_eq!(preview::hex_dump(&[]), "");
    assert!(preview::hex_dump(&[0x1f, 0x20, 0x7e, 0x7f]).ends_with(" . ~.\n"));
}

#[test]
fn readable_texts() {
    assert!(preview::is_readable(""));
    assert!(!preview::is_readable("\u{FFFD}"));
    assert!(!preview::is_readable(&format!("{}\u{FFFD}", "a".repeat(98))));
    assert!(preview::is_readable(&format!("{}\u{FFFD}", "a".repeat(99))));
    assert!(preview::is_image_extension("jpeg") && !preview::is_image_extension("JPEG"));
}
