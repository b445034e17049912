use dup_img_finder::outcome::HashOutcome;
use dup_img_finder::pipeline::{BoundedBuffer, Pipeline};

#[test]
fn every_dispatched_path_yields_exactly_one_outcome() {
    let paths = vec![String::from("/a.png"), String::from("/b.png"), String::from("/c.png")];
    let mut p = Pipeline::new(paths);
    assert!(!p.is_done());

    let mut seen = 0;
    while let Some(path) = p.dispatch() {
        p.submit(HashOutcome::Failure(path));
        seen += 1;
    }
    assert_eq!(seen, 3);
    assert!(p.is_done());
    let outcomes = p.finish();
    assert_eq!(outcomes.len(), 3);
}

#[test]
fn outcome_count_equals_discovered_count_with_interleaving() {
    let paths: Vec<String> = (0..5).map(|i| format!("/img{}.png", i)).collect();
    let mut p = Pipeline::new(paths);

    // Two items in flight at once, like two workers.
    let a = p.dispatch().unwrap();
    let b = p.dispatch().unwrap();
    p.submit(HashOutcome::Failure(a));
    let c = p.dispatch().unwrap();
    p.submit(HashOutcome::Failure(b));
    p.submit(HashOutcome::Failure(c));
    let d = p.dispatch().unwrap();
    let e = p.dispatch().unwrap();
    assert!(p.dispatch().is_none());
    p.submit(HashOutcome::Failure(d));
    p.submit(HashOutcome::Failure(e));

    assert!(p.is_done());
    assert_eq!(p.finish().len(), 5);
}

#[test]
fn percent_counts_dispatched_items() {
    let paths: Vec<String> = (0..4).map(|i| format!("/img{}.png", i)).collect();
    let mut p = Pipeline::new(paths);
    assert_eq!(p.percent_done(), 0);
    let a = p.dispatch().unwrap();
    assert_eq!(p.percent_done(), 25);
    let _b = p.dispatch().unwrap();
    assert_eq!(p.percent_done(), 50);
    p.submit(HashOutcome::Failure(a));
    assert_eq!(p.percent_done(), 50);
}

#[test]
fn percent_of_empty_run_is_complete() {
    let p = Pipeline::new(vec![]);
    assert_eq!(p.percent_done(), 100);
}

#[test]
fn buffer_length_never_exceeds_threads_times_tasks() {
    let mut b = BoundedBuffer::new(2, 3);
    let mut accepted = 0;
    for i in 0..20 {
        if b.try_push(format!("/img{}.png", i), vec![0u8; 4]) {
            accepted += 1;
        }
        assert!(b.len() <= 2 * 3);
    }
    // Exactly the bound was accepted; the reader would suspend afterwards.
    assert_eq!(accepted, 6);
    assert_eq!(b.len(), 6);

    // A worker draining one item makes room for exactly one more.
    assert!(b.pop().is_some());
    assert!(b.try_push(String::from("/late.png"), vec![1u8]));
    assert!(!b.try_push(String::from("/later.png"), vec![2u8]));
    assert_eq!(b.len(), 6);
}

#[test]
fn buffer_pop_returns_none_only_when_empty() {
    let mut b = BoundedBuffer::new(1, 2);
    assert!(b.pop().is_none());
    assert!(b.try_push(String::from("/a.png"), vec![1, 2, 3]));
    let (path, bytes) = b.pop().unwrap();
    assert_eq!(path, String::from("/a.png"));
    assert_eq!(bytes, vec![1, 2, 3]);
    assert!(b.pop().is_none());
}
