use rustsync::preview::{
    is_image, is_image_extension, is_text, is_text_extension, preview_kind, text_preview_from_read, PreviewKind,
    TEXT_PREVIEW_BYTES,
};

#[test]
fn image_extensions_any_case() {
    assert!(is_image("/photos/cat.jpg"));
    assert!(is_image("/photos/CAT.JPEG"));
    assert!(is_image("x.Png"));
    assert!(is_image("a/b/c.tiff"));
    assert!(is_image("icon.ico"));
    assert!(!is_image("notes.txt"));
    assert!(!is_image("jpg"));
    assert!(!is_image(".png"));
    assert!(is_image("dir.png/"));
    assert!(!is_image("archive.png.gz"));
}

#[test]
fn text_extensions_any_case() {
    assert!(is_text("README.md"));
    assert!(is_text("src/main.RS"));
    assert!(is_text("a/b.c"));
    assert!(is_text("x.h"));
    assert!(is_text("conf/settings.ini"));
    assert!(!is_text(".bashrc"));
    assert!(!is_text("Makefile"));
    assert!(!is_text("image.png"));
    assert!(!is_text("a.txt/.."));
}

#[test]
fn file_name_follows_path_rules() {
    // trailing separators and `.` components are skipped, as Path::file_name does
    assert!(is_text("dir/notes.txt/"));
    assert!(is_text("dir/notes.txt/."));
    assert!(!is_text("notes.txt/.."));
    assert!(!is_text(""));
    assert!(!is_text("/"));
    assert!(is_text("a.b.txt"));
    assert!(is_text("..txt"));
}

#[test]
fn extension_lists() {
    assert!(is_image_extension("webp"));
    assert!(!is_image_extension("WEBP"));
    assert!(is_text_extension("yaml"));
    assert!(!is_text_extension("yamlx"));
    assert!(!is_text_extension(""));
}

#[test]
fn text_preview_of_read_bytes() {
    assert_eq!(TEXT_PREVIEW_BYTES, 4096);
    let mut buf = vec![0u8; 16];
    buf[..5].copy_from_slice(b"hello");
    assert_eq!(text_preview_from_read(buf.clone(), 5), Some("hello".to_string()));
    assert_eq!(text_preview_from_read(buf.clone(), 0), Some(String::new()));
    let mut bad = vec![0u8; 4];
    bad[0] = 0xff;
    assert_eq!(text_preview_from_read(bad, 1), None);
    let utf8 = "héllo".as_bytes().to_vec();
    assert_eq!(text_preview_from_read(utf8.clone(), utf8.len()), Some("héllo".to_string()));
    assert_eq!(text_preview_from_read(utf8, 2), None);
}

#[test]
fn preview_kind_of_paths() {
    assert_eq!(preview_kind("/a/photo.JPG"), PreviewKind::Image);
    assert_eq!(preview_kind("/a/notes.Txt"), PreviewKind::Text);
    assert_eq!(preview_kind("/a/data.bin"), PreviewKind::Unsupported);
    assert_eq!(preview_kind("/a/noext"), PreviewKind::Unsupported);
    assert_eq!(preview_kind("/a/.md"), PreviewKind::Unsupported);
}
