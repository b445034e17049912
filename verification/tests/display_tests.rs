use dup_img_finder::display::{fmt_path_for_display, truncate_for_width};

#[test]
fn a_fitting_path_is_unchanged() {
    let p = String::from("/pics/a.png");
    assert_eq!(truncate_for_width(&p, 80, 12), p);
}

#[test]
fn overshoot_drops_leading_characters() {
    // 11 columns + prefix 4 against width 10: overshoot 5.
    let p = String::from("/pics/a.png");
    assert_eq!(truncate_for_width(&p, 10, 4), String::from("/a.png"));
}

#[test]
fn a_huge_overshoot_drops_everything() {
    let p = String::from("/pics/a.png");
    assert_eq!(truncate_for_width(&p, 2, 20), String::from(""));
}

#[test]
fn wide_characters_count_two_columns() {
    // Three CJK characters: width 6, prefix 0, terminal 4: overshoot 2,
    // so two leading characters are dropped.
    let p = String::from("\u{56fe}\u{7247}\u{5e93}");
    assert_eq!(truncate_for_width(&p, 4, 0), String::from("\u{5e93}"));
}

#[test]
fn prefix_alone_can_force_truncation() {
    let p = String::from("abcdef");
    assert_eq!(truncate_for_width(&p, 6, 2), String::from("cdef"));
}

#[test]
fn display_formatting_yields_a_suffix_of_the_path() {
    let p = String::from("/pics/some/deep/tree/a.png");
    let shown = fmt_path_for_display(&p, 12);
    assert!(p.ends_with(shown.as_str()));
}
