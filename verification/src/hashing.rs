//! Per-image hashing: the cache-checked, cache-populating computation of one
//! perceptual hash.
//!
//! Decoding is named `decoded_pixels` (the pixel content the bytes decode
//! to, or nothing) and hashing is named `pixel_hash` (the perceptual hash of
//! decoded pixel content under the default configuration); both are
//! deterministic in their argument alone. The hash of a byte string,
//! `phash_of`, is their composition, so it factors through decoding: byte
//! strings with the same decoded pixel content hash alike, whatever their
//! encodings.

use vstd::prelude::*;

use crate::aggregate::{
    failures_of, lemma_failures_of_membership, lemma_grouping_order_independent,
    lemma_successes_for_membership, outcome_views, successes_for,
};
use crate::cache::{has_record, path_fits, record_for, Cache, CacheRecord};
use crate::ignore::IgnoreRules;
use crate::outcome::HashOutcome;

verus! {

/// The pixel content an image file's bytes decode to, in a canonical
/// rendering, or nothing when the bytes do not decode as an image.
pub uninterp spec fn decoded_pixels(bytes: Seq<u8>) -> Option<Seq<u8>>;

/// The perceptual hash of decoded pixel content, under the default hasher
/// configuration.
pub uninterp spec fn pixel_hash(pixels: Seq<u8>) -> Seq<u8>;

/// The perceptual hash of an image file's bytes: the hash of what they
/// decode to, or nothing when they do not decode.
pub open spec fn phash_of(bytes: Seq<u8>) -> Option<Seq<u8>> {
    match decoded_pixels(bytes) {
        Some(px) => Some(pixel_hash(px)),
        None => None,
    }
}

#[verifier::external_type_specification]
#[verifier::external_body]
#[verifier::reject_recursive_types(B)]
pub struct ExHasher<B>(image_hasher::Hasher<B>);

/// The perceptual hasher, fixed to the default configuration, so that every
/// value of this type computes the same function of the image bytes.
pub struct ImgHasher {
    hasher: image_hasher::Hasher,
}

/// Relies on image_hasher::HasherConfig::new and HasherConfig::to_hasher:
/// builds the hasher with the crate's default configuration.
#[verifier::external_body]
fn default_hasher() -> image_hasher::Hasher {
    image_hasher::HasherConfig::new().to_hasher()
}

/// Relies on image::load_from_memory (what the bytes decode to, and whether
/// they decode at all, depends on the bytes alone) and on
/// image_hasher::Hasher::hash_image (the hash under the default
/// configuration is deterministic in the decoded pixel content alone, and
/// the default 8-by-8 configuration packs 64 bits into exactly 8 bytes).
#[verifier::external_body]
fn decode_and_hash(hasher: &ImgHasher, bytes: &Vec<u8>) -> (r: Option<Vec<u8>>)
    ensures
        match r {
            Some(h) => decoded_pixels(bytes@) matches Some(px) && h@ == pixel_hash(px)
                && h@.len() == 8,
            None => decoded_pixels(bytes@) is None,
        },
{
    match image::load_from_memory(bytes.as_slice()) {
        Ok(img) => Some(hasher.hasher.hash_image(&img).as_bytes().to_vec()),
        Err(_) => None,
    }
}

impl ImgHasher {
    /// A hasher with the default configuration.
    pub fn new() -> ImgHasher {
        ImgHasher { hasher: default_hasher() }
    }
}

/// Compute the perceptual hash of image bytes, without touching the cache:
/// the hash of the content under the default configuration, or nothing when
/// the bytes do not decode. A driver whose workers share the cache behind a
/// lock hashes here, outside the lock, and records the hash under the lock
/// afterwards.
pub fn hash_image_bytes(hasher: &ImgHasher, bytes: &Vec<u8>) -> (r: Option<Vec<u8>>)
    ensures
        match r {
            Some(h) => phash_of(bytes@) == Some(h@) && h@.len() == 8,
            None => phash_of(bytes@) is None,
        },
{
    decode_and_hash(hasher, bytes)
}

/// What the cache said about a path: a stored hash, a definite miss, or a
/// lookup failure of the backing store.
pub enum CacheCheck {
    Hit(Vec<u8>),
    Miss,
    LookupFailed,
}

/// Consult the cache for a path. A hit returns a stored hash of this path;
/// a miss means no record for it exists; a storage failure is reported as
/// such, never as a miss.
pub fn check_cache(cache: &Cache, img_path: &String) -> (r: CacheCheck)
    requires
        path_fits(img_path@),
    ensures
        (r matches CacheCheck::Hit(h) ==> record_for(cache@, img_path@, h@)),
        (r matches CacheCheck::Miss ==> !has_record(cache@, img_path@)),
{
    match cache.query(img_path) {
        Ok(Some(h)) => CacheCheck::Hit(h),
        Ok(None) => CacheCheck::Miss,
        Err(_) => CacheCheck::LookupFailed,
    }
}

/// The result owed for a file whose bytes read as `content` (`None`: the
/// file could not be read): the hash of the content, or nothing when the
/// read or the decoding fails.
pub open spec fn owed_result(content: Option<Seq<u8>>) -> Option<Seq<u8>> {
    match content {
        None => None,
        Some(b) => phash_of(b),
    }
}

/// Whether the outcome `o` reports for the path `p` exactly the result owed
/// for the content `content`.
pub open spec fn owed_outcome(o: HashOutcome, p: Seq<char>, content: Option<Seq<u8>>) -> bool {
    match owed_result(content) {
        Some(h) => o.is_success_of(h, p),
        None => o.is_failure_of(p),
    }
}

/// The view of the bytes a read handed back, if it succeeded.
pub open spec fn content_of(bytes: Option<Vec<u8>>) -> Option<Seq<u8>> {
    match bytes {
        Some(b) => Some(b@),
        None => None,
    }
}

/// What to do with one path after the cache was consulted: emit an outcome
/// at once, or read the file and hash it.
pub enum ItemPlan {
    Emit(HashOutcome),
    ReadAndHash(String),
}

/// The per-item policy after the cache check: a hit emits the stored hash
/// without touching the filesystem; a lookup failure fails the item without
/// reading (a corrupt store is never mistaken for a miss); only a definite
/// miss reads the file.
pub fn plan_item(checked: CacheCheck, img_path: String) -> (r: ItemPlan)
    ensures
        match checked {
            CacheCheck::Hit(h) => r matches ItemPlan::Emit(o) && o.is_success_of(h@, img_path@),
            CacheCheck::LookupFailed => r matches ItemPlan::Emit(o) && o.is_failure_of(img_path@),
            CacheCheck::Miss => r matches ItemPlan::ReadAndHash(p) && p@ == img_path@,
        },
{
    match checked {
        CacheCheck::Hit(hash) => ItemPlan::Emit(HashOutcome::Success(hash, img_path)),
        CacheCheck::LookupFailed => ItemPlan::Emit(HashOutcome::Failure(img_path)),
        CacheCheck::Miss => ItemPlan::ReadAndHash(img_path),
    }
}

/// The per-item policy after reading and hashing: a computed hash is
/// recorded and emitted as a success even when the store refuses the insert
/// (reported in the second component, never a downgrade); no hash — the
/// read failed or the bytes did not decode — fails the item with the cache
/// untouched.
pub fn record_outcome(cache: &mut Cache, img_path: String, hash: Option<Vec<u8>>) -> (r: (
    HashOutcome,
    bool,
))
    requires
        path_fits(img_path@),
        hash matches Some(h) ==> h@.len() < 0x8000_0000,
    ensures
        match hash {
            Some(h) => {
                &&& r.0.is_success_of(h@, img_path@)
                &&& (!r.1 ==> final(cache)@ == old(cache)@.push((img_path@, h@)))
                &&& (r.1 ==> final(cache)@ == old(cache)@)
            },
            None => r.0.is_failure_of(img_path@) && final(cache)@ == old(cache)@ && !r.1,
        },
{
    match hash {
        Some(h) => {
            let store_failed = cache.insert(&img_path, &h).is_err();
            (HashOutcome::Success(h, img_path), store_failed)
        },
        None => (HashOutcome::Failure(img_path), false),
    }
}

/// Compute the perceptual hash of one image from its file bytes (`None`:
/// the read failed), record it in the cache, and report the outcome.
///
/// The outcome is exactly the result owed for the content: a failure when
/// the read failed or the bytes do not decode, the hash of the content
/// otherwise. On a computed hash the record (path, hash) is appended to the
/// cache unless the store refused it; a refused store is reported in the
/// second component and never downgrades the outcome.
pub fn calc_img_hash(
    cache: &mut Cache,
    hasher: &ImgHasher,
    img_path: String,
    bytes: Option<Vec<u8>>,
) -> (r: (HashOutcome, bool))
    requires
        path_fits(img_path@),
    ensures
        owed_outcome(r.0, img_path@, content_of(bytes)),
        match owed_result(content_of(bytes)) {
            Some(h) => {
                &&& (!r.1 ==> final(cache)@ == old(cache)@.push((img_path@, h)))
                &&& (r.1 ==> final(cache)@ == old(cache)@)
            },
            None => final(cache)@ == old(cache)@ && !r.1,
        },
{
    let hash = match bytes {
        Some(b) => hash_image_bytes(hasher, &b),
        None => None,
    };
    record_outcome(cache, img_path, hash)
}

/// The hash factors through decoding (dedup correctness in general): byte
/// strings that decode to the same pixel content — whatever their encodings
/// — hash to the same bytes, so the aggregator keys their paths into one
/// group.
pub proof fn lemma_hash_depends_on_pixels_only(b1: Seq<u8>, b2: Seq<u8>)
    requires
        decoded_pixels(b1) == decoded_pixels(b2),
    ensures
        phash_of(b1) == phash_of(b2),
{
}

/// Consistency of the cache with the current file contents: every stored
/// record holds, for its path, exactly the hash that reading and hashing
/// that path's content would give.
pub open spec fn cache_consistent(
    records: Seq<CacheRecord>,
    content: Map<Seq<char>, Option<Seq<u8>>>,
) -> bool {
    forall|i: int|
        0 <= i < records.len() ==> {
            let rec = #[trigger] records[i];
            content.contains_key(rec.0) && owed_result(content[rec.0]) == Some(rec.1)
        }
}

/// Warm-cache idempotence, per path: when the cache is consistent with the
/// file contents, a cache hit hands back exactly the result owed for the
/// path's content, so a hit and a recomputation yield the same outcome.
pub proof fn lemma_warm_hit_matches_recompute(
    records: Seq<CacheRecord>,
    content: Map<Seq<char>, Option<Seq<u8>>>,
    p: Seq<char>,
    h: Seq<u8>,
)
    requires
        cache_consistent(records, content),
        record_for(records, p, h),
    ensures
        content.contains_key(p),
        owed_result(content[p]) == Some(h),
{
    let i = choose|i: int| 0 <= i < records.len() && #[trigger] records[i] == (p, h);
    assert(records[i].0 == p && records[i].1 == h);
}

/// A cache hit needs no read: when the cache is consistent with the file
/// contents and holds `h` for the path, the outcome emitted for the hit —
/// which `plan_item` builds from the cache answer alone, with no access to
/// the file, the hasher or the store — is exactly the outcome owed for the
/// path's content. Skipping the read, the decode and the insert loses
/// nothing.
pub proof fn lemma_hit_needs_no_read(
    records: Seq<CacheRecord>,
    content: Map<Seq<char>, Option<Seq<u8>>>,
    p: Seq<char>,
    h: Seq<u8>,
    o: HashOutcome,
)
    requires
        cache_consistent(records, content),
        record_for(records, p, h),
        o.is_success_of(h, p),
    ensures
        content.contains_key(p),
        owed_outcome(o, p, content[p]),
{
    lemma_warm_hit_matches_recompute(records, content, p, h);
}

/// Whether `outs` is a run over the path list `paths` under the file
/// contents `content`: one outcome per path, each reporting exactly the
/// owed result.
pub open spec fn outcomes_owed(
    outs: Seq<HashOutcome>,
    paths: Seq<Seq<char>>,
    content: Map<Seq<char>, Option<Seq<u8>>>,
) -> bool {
    &&& outs.len() == paths.len()
    &&& forall|i: int|
        0 <= i < outs.len() ==> owed_outcome(#[trigger] outs[i], paths[i], content[paths[i]])
}

/// Run idempotence: two runs over the same path list and unchanged file
/// contents produce the same duplicate groups and the same error set —
/// every hash groups the same paths in the same order, and the failed paths
/// agree. In particular a warm rerun, whose hits a consistent cache answers,
/// equals the cold run.
pub proof fn lemma_run_deterministic(
    outs1: Seq<HashOutcome>,
    outs2: Seq<HashOutcome>,
    paths: Seq<Seq<char>>,
    content: Map<Seq<char>, Option<Seq<u8>>>,
)
    requires
        outcomes_owed(outs1, paths, content),
        outcomes_owed(outs2, paths, content),
    ensures
        forall|h: Seq<u8>| #[trigger] successes_for(outs1, h)
            == successes_for(outs2, h),
        failures_of(outs1) == failures_of(outs2),
    decreases paths.len(),
{
    if paths.len() == 0 {
        assert forall|h: Seq<u8>| #[trigger] successes_for(outs1, h)
            == successes_for(outs2, h) by {}
    } else {
        let n = paths.len() - 1;
        assert(outcomes_owed(outs1.drop_last(), paths.drop_last(), content)) by {
            assert forall|i: int| 0 <= i < n implies owed_outcome(
                #[trigger] outs1.drop_last()[i],
                paths.drop_last()[i],
                content[paths.drop_last()[i]],
            ) by {
                assert(outs1.drop_last()[i] == outs1[i]);
                assert(paths.drop_last()[i] == paths[i]);
                assert(owed_outcome(outs1[i], paths[i], content[paths[i]]));
            }
        }
        assert(outcomes_owed(outs2.drop_last(), paths.drop_last(), content)) by {
            assert forall|i: int| 0 <= i < n implies owed_outcome(
                #[trigger] outs2.drop_last()[i],
                paths.drop_last()[i],
                content[paths.drop_last()[i]],
            ) by {
                assert(outs2.drop_last()[i] == outs2[i]);
                assert(paths.drop_last()[i] == paths[i]);
                assert(owed_outcome(outs2[i], paths[i], content[paths[i]]));
            }
        }
        lemma_run_deterministic(outs1.drop_last(), outs2.drop_last(), paths.drop_last(), content);
        assert(owed_outcome(outs1[n], paths[n], content[paths[n]]));
        assert(owed_outcome(outs2[n], paths[n], content[paths[n]]));
        assert(outs1.last() == outs1[n] && outs2.last() == outs2[n]);
        assert forall|h: Seq<u8>| #[trigger] successes_for(outs1, h)
            == successes_for(outs2, h) by {
            match owed_result(content[paths[n]]) {
                Some(hh) => {
                    assert(outs1[n].is_success_of(hh, paths[n]));
                    assert(outs2[n].is_success_of(hh, paths[n]));
                },
                None => {
                    assert(outs1[n].is_failure_of(paths[n]));
                    assert(outs2[n].is_failure_of(paths[n]));
                },
            }
            assert(successes_for(outs1.drop_last(), h)
                == successes_for(outs2.drop_last(), h));
        }
        match owed_result(content[paths[n]]) {
            Some(hh) => {
                assert(outs1[n].is_success_of(hh, paths[n]));
                assert(outs2[n].is_success_of(hh, paths[n]));
            },
            None => {
                assert(outs1[n].is_failure_of(paths[n]));
                assert(outs2[n].is_failure_of(paths[n]));
            },
        }
    }
}

/// Ignore correctness, end to end: a run over discovered paths that the
/// ignore rules admit puts an ignored path in no output collection — it
/// stands in no duplicate group and not in the error set.
pub proof fn lemma_ignored_never_in_outputs(
    outs: Seq<HashOutcome>,
    paths: Seq<Seq<char>>,
    content: Map<Seq<char>, Option<Seq<u8>>>,
    ig: IgnoreRules,
    q: Seq<char>,
)
    requires
        outcomes_owed(outs, paths, content),
        forall|i: int| 0 <= i < paths.len() ==> !ig.spec_ignored(#[trigger] paths[i]),
        ig.spec_ignored(q),
    ensures
        !failures_of(outs).contains(q),
        forall|h: Seq<u8>| !(#[trigger] successes_for(outs, h)).contains(q),
{
    lemma_failures_of_membership(outs, q);
    if failures_of(outs).contains(q) {
        let i = choose|i: int| 0 <= i < outs.len() && (#[trigger] outs[i]).is_failure_of(q);
        assert(owed_outcome(outs[i], paths[i], content[paths[i]]));
        assert(q == paths[i]);
    }
    assert forall|h: Seq<u8>| !(#[trigger] successes_for(outs, h)).contains(q) by {
        lemma_successes_for_membership(outs, h, q);
        if successes_for(outs, h).contains(q) {
            let i = choose|i: int| 0 <= i < outs.len() && (#[trigger] outs[i]).is_success_of(h, q);
            assert(owed_outcome(outs[i], paths[i], content[paths[i]]));
            assert(q == paths[i]);
        }
    }
}

/// The outcome view owed for a path under the file contents: the owed hash
/// (nothing for an unreadable or undecodable file) and the path itself.
pub open spec fn owed_view(content: Map<Seq<char>, Option<Seq<u8>>>, p: Seq<char>) -> (
    Option<Seq<u8>>,
    Seq<char>,
) {
    (owed_result(content[p]), p)
}

/// The outcome views owed for a path list, in order.
pub open spec fn owed_views(
    content: Map<Seq<char>, Option<Seq<u8>>>,
    paths: Seq<Seq<char>>,
) -> Seq<(Option<Seq<u8>>, Seq<char>)> {
    paths.map_values(|p: Seq<char>| owed_view(content, p))
}

/// An owed run's outcome views are exactly the views owed for its paths.
pub proof fn lemma_outcomes_owed_views(
    outs: Seq<HashOutcome>,
    paths: Seq<Seq<char>>,
    content: Map<Seq<char>, Option<Seq<u8>>>,
)
    requires
        outcomes_owed(outs, paths, content),
    ensures
        outcome_views(outs) == owed_views(content, paths),
{
    assert(outcome_views(outs) =~= owed_views(content, paths)) by {
        assert forall|i: int| 0 <= i < outs.len() implies outcome_views(
            outs,
        )[i] == owed_views(content, paths)[i] by {
            assert(owed_outcome(outs[i], paths[i], content[paths[i]]));
            match owed_result(content[paths[i]]) {
                Some(h) => {
                    assert(outs[i].is_success_of(h, paths[i]));
                },
                None => {
                    assert(outs[i].is_failure_of(paths[i]));
                },
            }
        }
    }
}

/// The owed views of two orderings of one path set hold the same views.
proof fn lemma_owed_views_permutation(
    content: Map<Seq<char>, Option<Seq<u8>>>,
    paths1: Seq<Seq<char>>,
    paths2: Seq<Seq<char>>,
)
    requires
        paths1.to_multiset() == paths2.to_multiset(),
    ensures
        owed_views(content, paths1).to_multiset() == owed_views(content, paths2).to_multiset(),
    decreases paths1.len(),
{
    broadcast use vstd::seq_lib::group_to_multiset_ensures, vstd::multiset::group_multiset_axioms;

    if paths1.len() == 0 {
        assert(paths1.to_multiset().len() == paths1.len());
        assert(paths2.to_multiset().len() == paths2.len());
        assert(paths2.len() == 0);
        assert(owed_views(content, paths1) =~= owed_views(content, paths2));
    } else {
        let x = owed_view(content, paths1.last());
        assert(paths1.contains(paths1.last()));
        assert(paths2.to_multiset().count(paths1.last()) > 0);
        assert(paths2.contains(paths1.last()));
        let j = choose|j: int| 0 <= j < paths2.len() && paths2[j] == paths1.last();

        assert(paths1.remove(paths1.len() - 1) =~= paths1.drop_last());
        assert(paths1.drop_last().to_multiset() == paths1.to_multiset().remove(paths1.last()));
        assert(paths2.remove(j).to_multiset() == paths2.to_multiset().remove(paths1.last()));
        lemma_owed_views_permutation(content, paths1.drop_last(), paths2.remove(j));

        let v1 = owed_views(content, paths1);
        let v2 = owed_views(content, paths2);
        assert(owed_views(content, paths1.drop_last()) =~= v1.drop_last());
        assert(owed_views(content, paths2.remove(j)) =~= v2.remove(j));
        assert(v1 =~= v1.drop_last().push(x));
        assert(v1.to_multiset() == v1.drop_last().to_multiset().insert(x));
        assert(v2.remove(j).to_multiset() == v2.to_multiset().remove(v2[j]));
        assert(v2[j] == x);
        assert(v2.contains(v2[j]));
        assert(v2.to_multiset().count(x) > 0);
        assert(v1.to_multiset() =~= v2.to_multiset()) by {
            assert forall|y: (Option<Seq<u8>>, Seq<char>)|
                v1.to_multiset().count(y) == v2.to_multiset().count(y) by {
                assert(v1.drop_last().to_multiset().count(y) == v2.to_multiset().remove(x).count(
                    y,
                ));
            }
        }
    }
}

/// Run idempotence, full strength: two runs over the same discovered set —
/// whatever order the paths are dispatched and completed in — that each
/// report the owed result for every path group the same paths under every
/// hash and fail the same paths. So a warm rerun over an unchanged tree,
/// whose hits a consistent cache answers, has the same duplicate groups and
/// the same error set as the cold run.
pub proof fn lemma_warm_run_groups_agree(
    outs1: Seq<HashOutcome>,
    outs2: Seq<HashOutcome>,
    paths1: Seq<Seq<char>>,
    paths2: Seq<Seq<char>>,
    content: Map<Seq<char>, Option<Seq<u8>>>,
)
    requires
        outcomes_owed(outs1, paths1, content),
        outcomes_owed(outs2, paths2, content),
        paths1.to_multiset() == paths2.to_multiset(),
    ensures
        forall|h: Seq<u8>| #[trigger] successes_for(outs1, h).to_multiset() == successes_for(
            outs2,
            h,
        ).to_multiset(),
        failures_of(outs1).to_multiset() == failures_of(outs2).to_multiset(),
{
    lemma_outcomes_owed_views(outs1, paths1, content);
    lemma_outcomes_owed_views(outs2, paths2, content);
    lemma_owed_views_permutation(content, paths1, paths2);
    lemma_grouping_order_independent(outs1, outs2);
}

} // verus!
