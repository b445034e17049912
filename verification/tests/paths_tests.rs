use dup_img_finder::paths::has_img_ext;

#[test]
fn accepts_every_supported_extension() {
    assert!(has_img_ext("/pics/a.png"));
    assert!(has_img_ext("/pics/a.jpg"));
    assert!(has_img_ext("/pics/a.jpeg"));
    assert!(has_img_ext("/pics/a.webp"));
    assert!(has_img_ext("/pics/a.bmp"));
    assert!(has_img_ext("/pics/a.gif"));
}

#[test]
fn extension_comparison_is_lowercased() {
    assert!(has_img_ext("/pics/SHOUTING.PNG"));
    assert!(has_img_ext("/pics/mixed.JpEg"));
    assert!(has_img_ext("x.GIF"));
}

#[test]
fn rejects_other_extensions_and_none() {
    assert!(!has_img_ext("/pics/notes.txt"));
    assert!(!has_img_ext("/pics/archive.tar.gz"));
    assert!(!has_img_ext("/pics/noextension"));
    assert!(!has_img_ext(""));
    assert!(!has_img_ext("/pics/"));
}

#[test]
fn hidden_files_have_no_extension() {
    // A file name whose only dot leads it has no extension.
    assert!(!has_img_ext("/pics/.png"));
    assert!(!has_img_ext(".gif"));
    // But a hidden file with a real extension is accepted.
    assert!(has_img_ext("/pics/.hidden.png"));
}

#[test]
fn last_dot_decides_the_extension() {
    assert!(has_img_ext("/pics/a.txt.png"));
    assert!(!has_img_ext("/pics/a.png.txt"));
    // A dot in a directory name is not an extension.
    assert!(!has_img_ext("/pics.png/file"));
    assert!(has_img_ext("/pics.d/file.bmp"));
}

#[test]
fn trailing_dot_means_empty_extension() {
    assert!(!has_img_ext("/pics/a."));
}
