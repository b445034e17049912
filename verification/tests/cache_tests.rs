use dup_img_finder::cache::Cache;

fn mem_cache() -> Cache {
    Cache::new(&String::from(":memory:")).expect("open in-memory store")
}

#[test]
fn query_on_fresh_store_is_miss() {
    let cache = mem_cache();
    let r = cache.query(&String::from("/pics/a.jpg")).unwrap();
    assert!(r.is_none());
}

#[test]
fn store_then_lookup_round_trip() {
    let mut cache = mem_cache();
    let path = String::from("/pics/a.jpg");
    let hash: Vec<u8> = vec![0xde, 0xad, 0xbe, 0xef, 0x00, 0x01, 0x02, 0x03];
    cache.insert(&path, &hash).unwrap();
    let back = cache.query(&path).unwrap();
    assert_eq!(back, Some(hash));
}

#[test]
fn lookup_does_not_cross_paths() {
    let mut cache = mem_cache();
    cache.insert(&String::from("/pics/a.jpg"), &vec![1, 2, 3]).unwrap();
    cache.insert(&String::from("/pics/b.jpg"), &vec![4, 5, 6]).unwrap();
    assert_eq!(cache.query(&String::from("/pics/a.jpg")).unwrap(), Some(vec![1, 2, 3]));
    assert_eq!(cache.query(&String::from("/pics/b.jpg")).unwrap(), Some(vec![4, 5, 6]));
    assert_eq!(cache.query(&String::from("/pics/c.jpg")).unwrap(), None);
}

#[test]
fn paths_lists_every_record() {
    let mut cache = mem_cache();
    cache.insert(&String::from("/pics/a.jpg"), &vec![1]).unwrap();
    cache.insert(&String::from("/pics/b.jpg"), &vec![2]).unwrap();
    let mut paths = cache.paths().unwrap();
    paths.sort();
    assert_eq!(paths, vec![String::from("/pics/a.jpg"), String::from("/pics/b.jpg")]);
}

#[test]
fn gc_removes_missing_and_keeps_existing() {
    let mut cache = mem_cache();
    let gone = String::from("/pics/deleted.jpg");
    let kept = String::from("/pics/kept.jpg");
    cache.insert(&gone, &vec![9, 9, 9]).unwrap();
    cache.insert(&kept, &vec![7, 7, 7]).unwrap();

    let failed = cache.gc(&vec![gone.clone()]);
    assert!(failed.is_empty());
    assert_eq!(cache.query(&gone).unwrap(), None);
    assert_eq!(cache.query(&kept).unwrap(), Some(vec![7, 7, 7]));
}

#[test]
fn gc_with_no_missing_paths_keeps_all() {
    let mut cache = mem_cache();
    cache.insert(&String::from("/pics/a.jpg"), &vec![1]).unwrap();
    let failed = cache.gc(&vec![]);
    assert!(failed.is_empty());
    assert_eq!(cache.query(&String::from("/pics/a.jpg")).unwrap(), Some(vec![1]));
}

#[test]
fn lookup_compares_the_full_path_nul_included() {
    // Paths are bound with their explicit length, so an interior NUL is
    // stored and matched byte-exactly; only the listing of all paths is
    // promised whole for NUL-free stores.
    let mut cache = mem_cache();
    let odd = String::from("/pics/a\u{0}b.png");
    cache.insert(&odd, &vec![5, 5]).unwrap();
    assert_eq!(cache.query(&odd).unwrap(), Some(vec![5, 5]));
    assert_eq!(cache.query(&String::from("/pics/a")).unwrap(), None);
}
