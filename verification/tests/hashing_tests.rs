use dup_img_finder::aggregate::aggregate;
use dup_img_finder::cache::Cache;
use dup_img_finder::hashing::{
    calc_img_hash, check_cache, plan_item, record_outcome, CacheCheck, ImgHasher, ItemPlan,
};
use dup_img_finder::outcome::HashOutcome;

fn encoded_bytes(format: image::ImageFormat, f: impl Fn(u32, u32) -> [u8; 3]) -> Vec<u8> {
    let img = image::RgbImage::from_fn(16, 16, |x, y| image::Rgb(f(x, y)));
    let mut buf = std::io::Cursor::new(Vec::new());
    img.write_to(&mut buf, format).expect("encode image");
    buf.into_inner()
}

fn png_bytes(f: impl Fn(u32, u32) -> [u8; 3]) -> Vec<u8> {
    encoded_bytes(image::ImageFormat::Png, f)
}

fn horizontal_gradient() -> Vec<u8> {
    png_bytes(|x, _| [(x * 16) as u8, 0, 0])
}

fn vertical_gradient() -> Vec<u8> {
    png_bytes(|_, y| [0, (y * 16) as u8, 0])
}

fn run_item(cache: &mut Cache, hasher: &ImgHasher, path: &str, bytes: Option<Vec<u8>>) -> HashOutcome {
    match check_cache(cache, &String::from(path)) {
        CacheCheck::Hit(hash) => HashOutcome::Success(hash, String::from(path)),
        CacheCheck::Miss | CacheCheck::LookupFailed => {
            let (outcome, _store_failed) = calc_img_hash(cache, hasher, String::from(path), bytes);
            outcome
        }
    }
}

#[test]
fn identical_content_lands_in_one_group() {
    let mut cache = Cache::new(&String::from(":memory:")).unwrap();
    let hasher = ImgHasher::new();
    let content = horizontal_gradient();
    let other = vertical_gradient();

    let outcomes = vec![
        run_item(&mut cache, &hasher, "/pics/a.jpg", Some(content.clone())),
        run_item(&mut cache, &hasher, "/pics/b.jpg", Some(content.clone())),
        run_item(&mut cache, &hasher, "/pics/c.jpg", Some(other)),
    ];
    let (groups, errors) = aggregate(outcomes);

    assert!(errors.is_empty());
    assert_eq!(groups.len(), 1);
    assert_eq!(groups[0].paths, vec![String::from("/pics/a.jpg"), String::from("/pics/b.jpg")]);
    for g in &groups {
        assert!(!g.paths.contains(&String::from("/pics/c.jpg")));
    }
}

#[test]
fn corrupt_file_lands_in_the_error_set_only() {
    let mut cache = Cache::new(&String::from(":memory:")).unwrap();
    let hasher = ImgHasher::new();
    let corrupt = b"this is not an image at all".to_vec();

    let outcomes = vec![run_item(&mut cache, &hasher, "/pics/d.jpg", Some(corrupt))];
    let (groups, errors) = aggregate(outcomes);

    assert!(groups.is_empty());
    assert_eq!(errors, vec![String::from("/pics/d.jpg")]);
    // The failure wrote nothing to the cache.
    assert_eq!(cache.query(&String::from("/pics/d.jpg")).unwrap(), None);
}

#[test]
fn unreadable_file_lands_in_the_error_set() {
    let mut cache = Cache::new(&String::from(":memory:")).unwrap();
    let hasher = ImgHasher::new();
    let (outcome, store_failed) = calc_img_hash(&mut cache, &hasher, String::from("/gone.png"), None);
    assert!(!store_failed);
    match outcome {
        HashOutcome::Failure(p) => assert_eq!(p, String::from("/gone.png")),
        HashOutcome::Success(_, _) => panic!("an unreadable file must fail"),
    }
}

#[test]
fn computed_hash_is_recorded_in_the_cache() {
    let mut cache = Cache::new(&String::from(":memory:")).unwrap();
    let hasher = ImgHasher::new();
    let content = horizontal_gradient();

    let (outcome, store_failed) =
        calc_img_hash(&mut cache, &hasher, String::from("/pics/a.jpg"), Some(content));
    assert!(!store_failed);
    let hash = match outcome {
        HashOutcome::Success(h, _) => h,
        HashOutcome::Failure(_) => panic!("a valid image must hash"),
    };
    assert_eq!(cache.query(&String::from("/pics/a.jpg")).unwrap(), Some(hash));
}

#[test]
fn warm_cache_rerun_yields_the_same_outcomes() {
    let mut cache = Cache::new(&String::from(":memory:")).unwrap();
    let hasher = ImgHasher::new();
    let content = horizontal_gradient();

    // Cold run: computes and populates the cache.
    let cold = vec![
        run_item(&mut cache, &hasher, "/pics/a.jpg", Some(content.clone())),
        run_item(&mut cache, &hasher, "/pics/b.jpg", Some(content.clone())),
        run_item(&mut cache, &hasher, "/pics/d.jpg", Some(b"broken".to_vec())),
    ];
    let (cold_groups, cold_errors) = aggregate(cold);

    // Warm run: the cached paths must hit, so no bytes are handed in.
    assert!(matches!(check_cache(&cache, &String::from("/pics/a.jpg")), CacheCheck::Hit(_)));
    assert!(matches!(check_cache(&cache, &String::from("/pics/b.jpg")), CacheCheck::Hit(_)));
    // The failed path was never cached and must still miss.
    assert!(matches!(check_cache(&cache, &String::from("/pics/d.jpg")), CacheCheck::Miss));

    let warm = vec![
        run_item(&mut cache, &hasher, "/pics/a.jpg", None),
        run_item(&mut cache, &hasher, "/pics/b.jpg", None),
        run_item(&mut cache, &hasher, "/pics/d.jpg", Some(b"broken".to_vec())),
    ];
    let (warm_groups, warm_errors) = aggregate(warm);

    assert_eq!(cold_errors, warm_errors);
    assert_eq!(cold_groups.len(), warm_groups.len());
    assert_eq!(cold_groups[0].hash, warm_groups[0].hash);
    assert_eq!(cold_groups[0].paths, warm_groups[0].paths);
}

#[test]
fn hashing_is_deterministic_in_the_bytes() {
    let mut cache1 = Cache::new(&String::from(":memory:")).unwrap();
    let mut cache2 = Cache::new(&String::from(":memory:")).unwrap();
    let hasher = ImgHasher::new();
    let content = vertical_gradient();

    let o1 = run_item(&mut cache1, &hasher, "/x.png", Some(content.clone()));
    let o2 = run_item(&mut cache2, &hasher, "/x.png", Some(content));
    match (o1, o2) {
        (HashOutcome::Success(h1, _), HashOutcome::Success(h2, _)) => assert_eq!(h1, h2),
        _ => panic!("a valid image must hash in both runs"),
    }
}

#[test]
fn the_hash_depends_on_the_pixels_not_the_encoding() {
    // One image, two encodings: the bytes differ, the decoded pixel content
    // does not, so the perceptual hashes must be byte-equal and the two
    // paths must land in one group.
    let as_png = encoded_bytes(image::ImageFormat::Png, |x, y| [(x * 16) as u8, (y * 16) as u8, 7]);
    let as_bmp = encoded_bytes(image::ImageFormat::Bmp, |x, y| [(x * 16) as u8, (y * 16) as u8, 7]);
    assert_ne!(as_png, as_bmp);

    let mut cache = Cache::new(&String::from(":memory:")).unwrap();
    let hasher = ImgHasher::new();
    let outcomes = vec![
        run_item(&mut cache, &hasher, "/pics/a.png", Some(as_png)),
        run_item(&mut cache, &hasher, "/pics/a.bmp", Some(as_bmp)),
    ];
    let (groups, errors) = aggregate(outcomes);
    assert!(errors.is_empty());
    assert_eq!(groups.len(), 1);
    assert_eq!(groups[0].paths, vec![String::from("/pics/a.png"), String::from("/pics/a.bmp")]);
}

#[test]
fn the_plan_emits_a_hit_and_reads_only_on_a_miss() {
    match plan_item(CacheCheck::Hit(vec![1, 2]), String::from("/p.png")) {
        ItemPlan::Emit(HashOutcome::Success(h, p)) => {
            assert_eq!(h, vec![1, 2]);
            assert_eq!(p, String::from("/p.png"));
        }
        _ => panic!("a hit must emit the stored hash"),
    }
    match plan_item(CacheCheck::LookupFailed, String::from("/p.png")) {
        ItemPlan::Emit(HashOutcome::Failure(p)) => assert_eq!(p, String::from("/p.png")),
        _ => panic!("a lookup failure must fail the item without reading"),
    }
    match plan_item(CacheCheck::Miss, String::from("/p.png")) {
        ItemPlan::ReadAndHash(p) => assert_eq!(p, String::from("/p.png")),
        _ => panic!("a miss must read the file"),
    }
}

#[test]
fn recording_an_absent_hash_fails_the_item_and_leaves_the_cache_alone() {
    let mut cache = Cache::new(&String::from(":memory:")).unwrap();
    let (outcome, store_failed) = record_outcome(&mut cache, String::from("/q.png"), None);
    assert!(!store_failed);
    assert!(matches!(outcome, HashOutcome::Failure(_)));
    assert_eq!(cache.query(&String::from("/q.png")).unwrap(), None);

    let (outcome, store_failed) =
        record_outcome(&mut cache, String::from("/q.png"), Some(vec![9, 8]));
    assert!(!store_failed);
    assert!(matches!(outcome, HashOutcome::Success(_, _)));
    assert_eq!(cache.query(&String::from("/q.png")).unwrap(), Some(vec![9, 8]));
}
