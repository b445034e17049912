use dup_img_finder::ignore::IgnoreRules;
use dup_img_finder::scan::{get_img_paths, FsEntry, Scanner};
use dup_img_finder::settings::Ignore;

fn no_rules() -> IgnoreRules {
    IgnoreRules::new(Ignore { abs_path: vec![], regex: vec![] }).unwrap()
}

fn rules(abs: Vec<&str>, regex: Vec<&str>) -> IgnoreRules {
    IgnoreRules::new(Ignore {
        abs_path: abs.into_iter().map(String::from).collect(),
        regex: regex.into_iter().map(String::from).collect(),
    })
    .unwrap()
}

fn file(path: &str) -> FsEntry {
    FsEntry { path: String::from(path), is_dir: false, is_symlink: false }
}

fn dir(path: &str) -> FsEntry {
    FsEntry { path: String::from(path), is_dir: true, is_symlink: false }
}

fn symlink(path: &str, is_dir: bool) -> FsEntry {
    FsEntry { path: String::from(path), is_dir, is_symlink: true }
}

#[test]
fn collects_images_and_descends_into_subdirectories() {
    let mut s = Scanner::new(String::from("/root"), false, no_rules());

    let d = s.next_dir().expect("the root is pending");
    assert_eq!(d, String::from("/root"));
    s.visit_dir(vec![
        file("/root/b.png"),
        file("/root/notes.txt"),
        dir("/root/sub"),
    ]);

    let d = s.next_dir().expect("the subdirectory is pending");
    assert_eq!(d, String::from("/root/sub"));
    s.visit_dir(vec![file("/root/sub/a.jpg")]);

    assert!(s.next_dir().is_none());
    assert!(s.done());
    let found = s.finish();
    assert_eq!(found, vec![String::from("/root/b.png"), String::from("/root/sub/a.jpg")]);
}

#[test]
fn found_set_is_sorted_and_deduplicated() {
    let mut s = Scanner::new(String::from("/r"), false, no_rules());
    let _ = s.next_dir().unwrap();
    s.visit_dir(vec![
        file("/r/z.png"),
        file("/r/a.png"),
        file("/r/m.png"),
        file("/r/a.png"),
    ]);
    let found = s.finish();
    assert_eq!(
        found,
        vec![String::from("/r/a.png"), String::from("/r/m.png"), String::from("/r/z.png")]
    );
}

#[test]
fn symlinks_are_never_followed_nor_included() {
    let mut s = Scanner::new(String::from("/r"), false, no_rules());
    let _ = s.next_dir().unwrap();
    s.visit_dir(vec![
        symlink("/r/link-to-dir", true),
        symlink("/r/link.png", false),
        file("/r/real.png"),
    ]);
    assert!(s.next_dir().is_none());
    let found = s.finish();
    assert_eq!(found, vec![String::from("/r/real.png")]);
}

#[test]
fn ignored_directories_are_pruned_with_their_subtree() {
    let mut s = Scanner::new(String::from("/r"), false, rules(vec!["/r/private"], vec![]));
    let d = s.next_dir().unwrap();
    assert_eq!(d, String::from("/r"));
    s.visit_dir(vec![dir("/r/private"), dir("/r/public")]);

    // Only the non-ignored directory comes back.
    let d = s.next_dir().expect("the public directory is pending");
    assert_eq!(d, String::from("/r/public"));
    s.visit_dir(vec![file("/r/public/ok.gif")]);
    assert!(s.next_dir().is_none());
    assert_eq!(s.finish(), vec![String::from("/r/public/ok.gif")]);
}

#[test]
fn ignored_root_discovers_nothing() {
    let mut s = Scanner::new(String::from("/r"), false, rules(vec![], vec!["^/r$"]));
    assert!(s.next_dir().is_none());
    assert!(s.finish().is_empty());
}

#[test]
fn ignored_files_never_appear_in_the_discovered_set() {
    let mut s = Scanner::new(String::from("/r"), false, rules(vec![], vec!["secret"]));
    let _ = s.next_dir().unwrap();
    s.visit_dir(vec![file("/r/secret.png"), file("/r/open.png")]);
    assert_eq!(s.finish(), vec![String::from("/r/open.png")]);
}

#[test]
fn a_symlink_root_is_never_entered() {
    let mut s = Scanner::new(String::from("/link-to-tree"), true, no_rules());
    assert!(s.next_dir().is_none());
    assert!(s.done());
    assert!(s.finish().is_empty());
}

#[test]
fn queue_holds_exactly_the_discovered_paths() {
    let found = vec![String::from("/a.png"), String::from("/b.png"), String::from("/c.png")];
    let q = get_img_paths(found.clone()).into_inner();
    assert_eq!(q.len(), 3);
    let mut drained = Vec::new();
    while let Some(p) = q.pop() {
        drained.push(p);
    }
    drained.sort();
    assert_eq!(drained, found);
}
