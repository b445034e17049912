use dup_img_finder::ignore::IgnoreRules;
use dup_img_finder::settings::Ignore;

fn rules(abs: Vec<&str>, regex: Vec<&str>) -> IgnoreRules {
    let ignore = Ignore {
        abs_path: abs.into_iter().map(String::from).collect(),
        regex: regex.into_iter().map(String::from).collect(),
    };
    IgnoreRules::new(ignore).expect("rules compile")
}

#[test]
fn absolute_path_entry_matches_exactly() {
    let r = rules(vec!["/pics/private"], vec![]);
    assert!(r.is_ignored(&String::from("/pics/private")));
    assert!(!r.is_ignored(&String::from("/pics/private/sub")));
    assert!(!r.is_ignored(&String::from("/pics/privat")));
}

#[test]
fn regex_entry_matches_anywhere() {
    let r = rules(vec![], vec!["cache"]);
    assert!(r.is_ignored(&String::from("/pics/cache")));
    assert!(r.is_ignored(&String::from("/x/caches/y")));
    assert!(!r.is_ignored(&String::from("/pics/holiday")));
}

#[test]
fn anchored_regex_prunes_a_subtree_root() {
    let r = rules(vec![], vec!["^/tmp/", "thumb$"]);
    assert!(r.is_ignored(&String::from("/tmp/scan")));
    assert!(!r.is_ignored(&String::from("/pics/tmp/scan")));
    assert!(r.is_ignored(&String::from("/pics/thumb")));
    assert!(!r.is_ignored(&String::from("/pics/thumbnail")));
}

#[test]
fn either_rule_kind_suffices() {
    let r = rules(vec!["/a"], vec!["b$"]);
    assert!(r.is_ignored(&String::from("/a")));
    assert!(r.is_ignored(&String::from("/x/b")));
    assert!(!r.is_ignored(&String::from("/c")));
}

#[test]
fn no_rules_ignores_nothing() {
    let r = rules(vec![], vec![]);
    assert!(!r.is_ignored(&String::from("/anything/at/all.png")));
    assert!(!r.is_ignored(&String::from("")));
}

#[test]
fn invalid_regex_is_a_startup_error_naming_the_pattern() {
    let ignore = Ignore {
        abs_path: vec![],
        regex: vec![String::from("ok.*"), String::from("(unclosed")],
    };
    match IgnoreRules::new(ignore) {
        Ok(_) => panic!("an invalid pattern must not compile"),
        Err(e) => assert_eq!(e.pattern, String::from("(unclosed")),
    }
}
