use dup_img_finder::output::{
    dup_link_name, err_link_name, sort_group_members, usize_to_string, FileMeta,
};

#[test]
fn decimal_rendering_is_exact() {
    assert_eq!(usize_to_string(0), String::from("0"));
    assert_eq!(usize_to_string(7), String::from("7"));
    assert_eq!(usize_to_string(10), String::from("10"));
    assert_eq!(usize_to_string(409), String::from("409"));
    assert_eq!(usize_to_string(1000001), String::from("1000001"));
}

#[test]
fn dup_link_name_is_exact() {
    let name = dup_link_name(
        &String::from("/out"),
        &vec![0x01, 0x02, 0x03],
        12,
        &String::from("jpg"),
    );
    // base64url of 0x010203 is AQID.
    assert_eq!(name, String::from("/out/dup/AQID-12.jpg"));
}

#[test]
fn dup_link_name_matches_the_encoder() {
    let hash: Vec<u8> = vec![0xde, 0xad, 0xbe, 0xef];
    let name = dup_link_name(&String::from("/o"), &hash, 0, &String::from("png"));
    let expected = format!("/o/dup/{}-0.png", base64_url::encode(hash.as_slice()));
    assert_eq!(name, expected);
}

#[test]
fn err_link_name_is_exact() {
    assert_eq!(err_link_name(&String::from("/out"), 3), String::from("/out/err/3"));
}

fn meta(path: &str, size: u64, mtime: i64) -> FileMeta {
    FileMeta { path: String::from(path), size, mtime }
}

#[test]
fn members_sort_by_size_then_newest_first() {
    let sorted = sort_group_members(vec![
        meta("/big", 300, 5),
        meta("/small-old", 100, 1),
        meta("/mid", 200, 9),
        meta("/small-new", 100, 8),
    ]);
    let paths: Vec<&str> = sorted.iter().map(|m| m.path.as_str()).collect();
    assert_eq!(paths, vec!["/small-new", "/small-old", "/mid", "/big"]);
}

#[test]
fn sort_keeps_every_member() {
    let sorted = sort_group_members(vec![
        meta("/a", 2, 2),
        meta("/b", 2, 2),
        meta("/c", 1, 1),
    ]);
    assert_eq!(sorted.len(), 3);
    assert_eq!(sorted[0].path, String::from("/c"));
    let mut rest: Vec<&str> = sorted[1..].iter().map(|m| m.path.as_str()).collect();
    rest.sort();
    assert_eq!(rest, vec!["/a", "/b"]);
}

#[test]
fn sort_of_empty_group_is_empty() {
    assert!(sort_group_members(vec![]).is_empty());
}
