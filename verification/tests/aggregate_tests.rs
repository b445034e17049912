use dup_img_finder::aggregate::aggregate;
use dup_img_finder::outcome::HashOutcome;

fn success(hash: &[u8], path: &str) -> HashOutcome {
    HashOutcome::Success(hash.to_vec(), String::from(path))
}

fn failure(path: &str) -> HashOutcome {
    HashOutcome::Failure(String::from(path))
}

#[test]
fn shared_hash_groups_exactly_its_paths() {
    let outcomes = vec![
        success(&[1, 1], "/pics/a.jpg"),
        success(&[2, 2], "/pics/c.jpg"),
        success(&[1, 1], "/pics/b.jpg"),
    ];
    let (groups, errors) = aggregate(outcomes);
    assert!(errors.is_empty());
    assert_eq!(groups.len(), 1);
    assert_eq!(groups[0].hash, vec![1, 1]);
    assert_eq!(groups[0].paths, vec![String::from("/pics/a.jpg"), String::from("/pics/b.jpg")]);
}

#[test]
fn unique_hashes_produce_no_group() {
    let outcomes = vec![
        success(&[1], "/pics/a.jpg"),
        success(&[2], "/pics/b.jpg"),
        success(&[3], "/pics/c.jpg"),
    ];
    let (groups, errors) = aggregate(outcomes);
    assert!(groups.is_empty());
    assert!(errors.is_empty());
}

#[test]
fn group_paths_keep_arrival_order() {
    let outcomes = vec![
        success(&[9], "/z.png"),
        success(&[9], "/a.png"),
        success(&[9], "/m.png"),
    ];
    let (groups, _) = aggregate(outcomes);
    assert_eq!(groups.len(), 1);
    assert_eq!(
        groups[0].paths,
        vec![String::from("/z.png"), String::from("/a.png"), String::from("/m.png")]
    );
}

#[test]
fn failures_become_the_error_set_in_order() {
    let outcomes = vec![
        failure("/bad1.jpg"),
        success(&[5], "/ok.jpg"),
        failure("/bad2.jpg"),
    ];
    let (groups, errors) = aggregate(outcomes);
    assert!(groups.is_empty());
    assert_eq!(errors, vec![String::from("/bad1.jpg"), String::from("/bad2.jpg")]);
}

#[test]
fn several_groups_are_kept_apart() {
    let outcomes = vec![
        success(&[1], "/a1.jpg"),
        success(&[2], "/b1.jpg"),
        success(&[1], "/a2.jpg"),
        success(&[2], "/b2.jpg"),
        success(&[3], "/solo.jpg"),
        failure("/broken.jpg"),
    ];
    let (groups, errors) = aggregate(outcomes);
    assert_eq!(groups.len(), 2);
    for g in &groups {
        if g.hash == vec![1] {
            assert_eq!(g.paths, vec![String::from("/a1.jpg"), String::from("/a2.jpg")]);
        } else {
            assert_eq!(g.hash, vec![2]);
            assert_eq!(g.paths, vec![String::from("/b1.jpg"), String::from("/b2.jpg")]);
        }
    }
    assert_eq!(errors, vec![String::from("/broken.jpg")]);
}

#[test]
fn groups_are_listed_in_ascending_hash_order() {
    let outcomes = vec![
        success(&[9], "/i1.jpg"),
        success(&[1], "/j1.jpg"),
        success(&[5], "/k1.jpg"),
        success(&[9], "/i2.jpg"),
        success(&[1], "/j2.jpg"),
        success(&[5], "/k2.jpg"),
    ];
    let (groups, _) = aggregate(outcomes);
    let hashes: Vec<&[u8]> = groups.iter().map(|g| g.hash.as_slice()).collect();
    assert_eq!(hashes, vec![&[1u8][..], &[5u8][..], &[9u8][..]]);
}

#[test]
fn empty_stream_aggregates_to_nothing() {
    let (groups, errors) = aggregate(vec![]);
    assert!(groups.is_empty());
    assert!(errors.is_empty());
}

#[test]
fn grouping_is_by_exact_byte_equality() {
    let outcomes = vec![
        success(&[1, 2], "/a.jpg"),
        success(&[1, 2, 0], "/b.jpg"),
        success(&[1, 2], "/c.jpg"),
    ];
    let (groups, _) = aggregate(outcomes);
    assert_eq!(groups.len(), 1);
    assert_eq!(groups[0].hash, vec![1, 2]);
    assert_eq!(groups[0].paths, vec![String::from("/a.jpg"), String::from("/c.jpg")]);
}
