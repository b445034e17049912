//! Aggregation of per-image outcomes into duplicate groups and an error set.
//!
//! Grouping is keyed by exact byte equality of the perceptual hash. A group
//! is kept only when at least two paths share its hash; paths with a unique
//! hash appear in no group. The groups come out in ascending hash order, a
//! group's paths and the error set in arrival order — and the contents of
//! both collections are independent of the arrival order, which worker
//! scheduling does not determine.

use vstd::multiset::Multiset;
use vstd::prelude::*;

use crate::outcome::HashOutcome;

verus! {

/// A perceptual hash together with every path that produced it, in arrival
/// order.
pub struct DupGroup {
    pub hash: Vec<u8>,
    pub paths: Vec<String>,
}

/// The paths of all successful outcomes carrying the hash `h`, in arrival
/// order.
pub open spec fn successes_for(outs: Seq<HashOutcome>, h: Seq<u8>) -> Seq<Seq<char>>
    decreases outs.len(),
{
    if outs.len() == 0 {
        Seq::empty()
    } else {
        successes_for(outs.drop_last(), h) + match outs.last() {
            HashOutcome::Success(hash, path) => if hash@ == h {
                seq![path@]
            } else {
                Seq::empty()
            },
            HashOutcome::Failure(_) => Seq::empty(),
        }
    }
}

/// The paths of all failed outcomes, in arrival order.
pub open spec fn failures_of(outs: Seq<HashOutcome>) -> Seq<Seq<char>>
    decreases outs.len(),
{
    if outs.len() == 0 {
        Seq::empty()
    } else {
        failures_of(outs.drop_last()) + match outs.last() {
            HashOutcome::Success(_, _) => Seq::empty(),
            HashOutcome::Failure(path) => seq![path@],
        }
    }
}

/// Lexicographic order on hashes, byte by byte.
pub open spec fn bytes_lt(a: Seq<u8>, b: Seq<u8>) -> bool
    decreases a.len(),
{
    if b.len() == 0 {
        false
    } else if a.len() == 0 {
        true
    } else if a.first() < b.first() {
        true
    } else if a.first() == b.first() {
        bytes_lt(a.skip(1), b.skip(1))
    } else {
        false
    }
}

/// Distinct hashes order one way or the other.
proof fn lemma_bytes_lt_connex(a: Seq<u8>, b: Seq<u8>)
    requires
        a != b,
    ensures
        bytes_lt(a, b) || bytes_lt(b, a),
    decreases a.len(),
{
    if a.len() == 0 && b.len() == 0 {
        assert(a =~= b);
    } else if a.len() > 0 && b.len() > 0 {
        if a.first() == b.first() {
            if a.skip(1) == b.skip(1) {
                assert(a.len() == b.len()) by {
                    assert(a.skip(1).len() == b.skip(1).len());
                }
                assert(a =~= b) by {
                    assert forall|i: int| 0 <= i < a.len() implies a[i] == b[i] by {
                        if i > 0 {
                            assert(a.skip(1)[i - 1] == a[i]);
                            assert(b.skip(1)[i - 1] == b[i]);
                        }
                    }
                }
            } else {
                lemma_bytes_lt_connex(a.skip(1), b.skip(1));
            }
        }
    }
}

/// The order is transitive.
proof fn lemma_bytes_lt_trans(a: Seq<u8>, b: Seq<u8>, c: Seq<u8>)
    requires
        bytes_lt(a, b),
        bytes_lt(b, c),
    ensures
        bytes_lt(a, c),
    decreases a.len(),
{
    if a.len() > 0 && b.len() > 0 && c.len() > 0 {
        if a.first() == b.first() && b.first() == c.first() {
            lemma_bytes_lt_trans(a.skip(1), b.skip(1), c.skip(1));
        }
    }
}

/// Groups in ascending hash order.
pub open spec fn groups_sorted(gs: Seq<DupGroup>) -> bool {
    forall|i: int, j: int|
        0 <= i < j < gs.len() ==> bytes_lt((#[trigger] gs[i]).hash@, (#[trigger] gs[j]).hash@)
}

/// Whether `a` orders below `b`, byte by byte.
fn bytes_lt_exec(a: &Vec<u8>, b: &Vec<u8>) -> (r: bool)
    ensures
        r == bytes_lt(a@, b@),
{
    let mut i: usize = 0;
    proof {
        assert(a@.skip(0) =~= a@);
        assert(b@.skip(0) =~= b@);
    }
    while i < a.len() && i < b.len()
        invariant
            0 <= i <= a@.len(),
            0 <= i <= b@.len(),
            bytes_lt(a@, b@) == bytes_lt(a@.skip(i as int), b@.skip(i as int)),
        decreases a@.len() - i,
    {
        proof {
            assert(a@.skip(i as int).first() == a@[i as int]);
            assert(b@.skip(i as int).first() == b@[i as int]);
            assert(a@.skip(i as int).skip(1) =~= a@.skip(i + 1));
            assert(b@.skip(i as int).skip(1) =~= b@.skip(i + 1));
        }
        if a[i] < b[i] {
            return true;
        }
        if a[i] > b[i] {
            return false;
        }
        i += 1;
    }
    proof {
        if i == a@.len() {
            assert(a@.skip(i as int).len() == 0);
        } else {
            assert(b@.skip(i as int).len() == 0);
        }
    }
    i == a.len() && i < b.len()
}

/// The position a group keyed by `hash` belongs at.
fn group_pos(groups: &Vec<DupGroup>, hash: &Vec<u8>) -> (p: usize)
    requires
        groups_sorted(groups@),
    ensures
        0 <= p <= groups@.len(),
        forall|w: int| 0 <= w < p ==> bytes_lt((#[trigger] groups@[w]).hash@, hash@),
        p < groups@.len() ==> !bytes_lt(groups@[p as int].hash@, hash@),
{
    let mut p: usize = 0;
    while p < groups.len()
        invariant
            0 <= p <= groups@.len(),
            forall|w: int| 0 <= w < p ==> bytes_lt((#[trigger] groups@[w]).hash@, hash@),
        decreases groups@.len() - p,
    {
        if !bytes_lt_exec(&groups[p].hash, hash) {
            return p;
        }
        p += 1;
    }
    p
}

/// What it means for `groups` and `errors` to be the aggregation of the
/// outcome stream `outs`: the error list holds exactly the failed paths in
/// arrival order; every group holds exactly the paths of one hash that two
/// or more successes share, in arrival order; every such hash has a group;
/// and no hash has two groups.
pub open spec fn is_aggregation_of(
    outs: Seq<HashOutcome>,
    groups: Seq<DupGroup>,
    errors: Seq<Seq<char>>,
) -> bool {
    &&& errors == failures_of(outs)
    &&& forall|i: int|
        0 <= i < groups.len() ==> (#[trigger] groups[i]).paths@.map_values(|p: String| p@)
            == successes_for(outs, groups[i].hash@) && groups[i].paths@.len() >= 2
    &&& forall|h: Seq<u8>|
        successes_for(outs, h).len() >= 2 ==> exists|i: int|
            0 <= i < groups.len() && (#[trigger] groups[i]).hash@ == h
    &&& forall|i: int, j: int|
        0 <= i < groups.len() && 0 <= j < groups.len() && i != j ==> (#[trigger] groups[i]).hash@
            != (#[trigger] groups[j]).hash@
}

/// Byte-exact equality of two hashes.
fn hash_eq(a: &Vec<u8>, b: &Vec<u8>) -> (r: bool)
    ensures
        r == (a@ == b@),
{
    let r = a.eq(b);
    proof {
        if r {
            assert(a@ =~= b@);
        }
    }
    r
}

/// The index of the group keyed by `hash`, if one exists.
fn find_group(groups: &Vec<DupGroup>, hash: &Vec<u8>) -> (r: Option<usize>)
    ensures
        match r {
            Some(i) => 0 <= i < groups@.len() && groups@[i as int].hash@ == hash@,
            None => forall|i: int| 0 <= i < groups@.len() ==> (#[trigger] groups@[i]).hash@ != hash@,
        },
{
    let mut i: usize = 0;
    while i < groups.len()
        invariant
            0 <= i <= groups@.len(),
            forall|j: int| 0 <= j < i ==> (#[trigger] groups@[j]).hash@ != hash@,
        decreases groups@.len() - i,
    {
        if hash_eq(&groups[i].hash, hash) {
            return Some(i);
        }
        i += 1;
    }
    None
}

/// Consume the full outcome stream and produce the duplicate groups (every
/// hash shared by two or more paths, each with all of its paths in arrival
/// order, the groups in ascending hash order) and the error set (the failed
/// paths in arrival order).
pub fn aggregate(outcomes: Vec<HashOutcome>) -> (r: (Vec<DupGroup>, Vec<String>))
    ensures
        is_aggregation_of(outcomes@, r.0@, r.1@.map_values(|p: String| p@)),
        groups_sorted(r.0@),
{
    let mut all: Vec<DupGroup> = Vec::new();
    let mut errors: Vec<String> = Vec::new();
    let mut k: usize = 0;

    while k < outcomes.len()
        invariant
            0 <= k <= outcomes@.len(),
            errors@.map_values(|p: String| p@) == failures_of(outcomes@.take(k as int)),
            forall|i: int|
                0 <= i < all@.len() ==> (#[trigger] all@[i]).paths@.map_values(|p: String| p@)
                    == successes_for(outcomes@.take(k as int), all@[i].hash@),
            forall|h: Seq<u8>|
                successes_for(outcomes@.take(k as int), h).len() >= 1 ==> exists|i: int|
                    0 <= i < all@.len() && (#[trigger] all@[i]).hash@ == h,
            forall|i: int, j: int|
                0 <= i < all@.len() && 0 <= j < all@.len() && i != j ==> (#[trigger] all@[i]).hash@
                    != (#[trigger] all@[j]).hash@,
        decreases outcomes@.len() - k,
    {
        proof {
            assert(outcomes@.take(k + 1).drop_last() =~= outcomes@.take(k as int));
            assert(outcomes@.take(k + 1).last() == outcomes@[k as int]);
        }
        let next = &outcomes[k];
        let ghost prev = all@;
        match next {
            HashOutcome::Success(hash, path) => {
                match find_group(&all, hash) {
                    Some(i) => {
                        let mut grp = all.remove(i);
                        grp.paths.push(path.clone());
                        proof {
                            assert(grp.paths@.map_values(|p: String| p@) =~= successes_for(
                                outcomes@.take(k + 1),
                                grp.hash@,
                            ));
                        }
                        let ghost gsnap = grp;
                        all.insert(i, grp);
                        proof {
                            assert(all@ =~= prev.update(i as int, gsnap));
                            assert forall|j: int|
                                0 <= j < all@.len() implies (#[trigger] all@[j]).paths@.map_values(
                                |p: String| p@,
                            ) == successes_for(outcomes@.take(k + 1), all@[j].hash@) by {
                                if j != i {
                                    assert(all@[j] == prev[j]);
                                    assert(prev[j].hash@ != hash@);
                                }
                            }
                            assert forall|h: Seq<u8>|
                                #![trigger successes_for(outcomes@.take(k + 1), h)]
                                successes_for(outcomes@.take(k + 1), h).len() >= 1 implies exists|
                                j: int,
                            |
                                0 <= j < all@.len() && (#[trigger] all@[j]).hash@ == h by {
                                if successes_for(outcomes@.take(k as int), h).len() >= 1 {
                                    let j = choose|j: int|
                                        0 <= j < prev.len() && (#[trigger] prev[j]).hash@ == h;
                                    if j == i {
                                        assert(all@[i as int].hash@ == h);
                                    } else {
                                        assert(all@[j] == prev[j]);
                                    }
                                } else {
                                    assert(h == hash@);
                                    assert(all@[i as int].hash@ == h);
                                }
                            }
                        }
                    },
                    None => {
                        let grp = DupGroup { hash: hash.clone(), paths: vec![path.clone()] };
                        proof {
                            assert(successes_for(outcomes@.take(k as int), hash@) =~= Seq::<
                                Seq<char>,
                            >::empty());
                            assert(grp.paths@.map_values(|p: String| p@) =~= successes_for(
                                outcomes@.take(k + 1),
                                grp.hash@,
                            ));
                        }
                        all.push(grp);
                        proof {
                            assert forall|j: int|
                                0 <= j < all@.len() implies (#[trigger] all@[j]).paths@.map_values(
                                |p: String| p@,
                            ) == successes_for(outcomes@.take(k + 1), all@[j].hash@) by {
                                if j < all@.len() - 1 {
                                    assert(all@[j] == prev[j]);
                                    assert(prev[j].hash@ != hash@);
                                }
                            }
                            assert forall|h: Seq<u8>|
                                #![trigger successes_for(outcomes@.take(k + 1), h)]
                                successes_for(outcomes@.take(k + 1), h).len() >= 1 implies exists|
                                j: int,
                            |
                                0 <= j < all@.len() && (#[trigger] all@[j]).hash@ == h by {
                                if successes_for(outcomes@.take(k as int), h).len() >= 1 {
                                    let j = choose|j: int|
                                        0 <= j < prev.len() && (#[trigger] prev[j]).hash@ == h;
                                    assert(all@[j] == prev[j]);
                                } else {
                                    assert(h == hash@);
                                    assert(all@[all@.len() - 1].hash@ == h);
                                }
                            }
                        }
                    },
                }
            },
            HashOutcome::Failure(path) => {
                errors.push(path.clone());
                proof {
                    assert(errors@.map_values(|p: String| p@) =~= failures_of(
                        outcomes@.take(k + 1),
                    ));
                    assert forall|h: Seq<u8>|
                        #![trigger successes_for(outcomes@.take(k + 1), h)]
                        successes_for(outcomes@.take(k + 1), h).len() >= 1 implies exists|j: int|
                        0 <= j < all@.len() && (#[trigger] all@[j]).hash@ == h by {
                        assert(successes_for(outcomes@.take(k + 1), h) == successes_for(
                            outcomes@.take(k as int),
                            h,
                        ));
                    }
                }
            },
        }
        k += 1;
    }
    proof {
        assert(outcomes@.take(outcomes@.len() as int) =~= outcomes@);
    }

    let mut groups: Vec<DupGroup> = Vec::new();
    let mut k: usize = 0;
    while k < all.len()
        invariant
            0 <= k <= all@.len(),
            forall|i: int|
                0 <= i < all@.len() ==> (#[trigger] all@[i]).paths@.map_values(|p: String| p@)
                    == successes_for(outcomes@, all@[i].hash@),
            forall|h: Seq<u8>|
                successes_for(outcomes@, h).len() >= 1 ==> exists|i: int|
                    0 <= i < all@.len() && (#[trigger] all@[i]).hash@ == h,
            forall|i: int, j: int|
                0 <= i < all@.len() && 0 <= j < all@.len() && i != j ==> (#[trigger] all@[i]).hash@
                    != (#[trigger] all@[j]).hash@,
            forall|i: int|
                0 <= i < groups@.len() ==> (#[trigger] groups@[i]).paths@.map_values(
                    |p: String| p@,
                ) == successes_for(outcomes@, groups@[i].hash@) && groups@[i].paths@.len() >= 2,
            forall|i: int|
                0 <= i < k && (#[trigger] all@[i]).paths@.len() >= 2 ==> exists|j: int|
                    0 <= j < groups@.len() && (#[trigger] groups@[j]).hash@ == all@[i].hash@,
            forall|i: int, j: int|
                0 <= i < groups@.len() && 0 <= j < groups@.len() && i != j ==> (
                #[trigger] groups@[i]).hash@ != (#[trigger] groups@[j]).hash@,
            forall|j: int|
                0 <= j < groups@.len() ==> exists|i: int|
                    0 <= i < k && (#[trigger] groups@[j]).hash@ == all@[i].hash@,
            groups_sorted(groups@),
        decreases all@.len() - k,
    {
        let len = all[k].paths.len();
        if len >= 2 {
            let ghost prevg = groups@;
            let grp = DupGroup { hash: all[k].hash.clone(), paths: all[k].paths.clone() };
            proof {
                assert(grp.paths@.map_values(|p: String| p@) =~= all@[k as int].paths@.map_values(
                    |p: String| p@,
                ));
                assert forall|j: int| 0 <= j < prevg.len() implies (#[trigger] prevg[j]).hash@
                    != all@[k as int].hash@ by {
                    let i = choose|i: int| 0 <= i < k && (#[trigger] prevg[j]).hash@ == all@[i].hash@;
                    assert(all@[i].hash@ != all@[k as int].hash@);
                }
            }
            let p = group_pos(&groups, &grp.hash);
            proof {
                if p < prevg.len() {
                    lemma_bytes_lt_connex(prevg[p as int].hash@, grp.hash@);
                }
                assert forall|w: int| p <= w < prevg.len() implies bytes_lt(
                    grp.hash@,
                    (#[trigger] prevg[w]).hash@,
                ) by {
                    if w > p {
                        assert(bytes_lt(prevg[p as int].hash@, prevg[w].hash@));
                        lemma_bytes_lt_trans(grp.hash@, prevg[p as int].hash@, prevg[w].hash@);
                    }
                }
            }
            groups.insert(p, grp);
            proof {
                assert forall|j1: int, j2: int| 0 <= j1 < j2 < groups@.len() implies bytes_lt(
                    (#[trigger] groups@[j1]).hash@,
                    (#[trigger] groups@[j2]).hash@,
                ) by {
                    if j2 < p {
                        assert(groups@[j1] == prevg[j1] && groups@[j2] == prevg[j2]);
                    } else if j2 == p {
                        assert(groups@[j1] == prevg[j1]);
                        assert(bytes_lt(prevg[j1].hash@, groups@[j2].hash@));
                    } else if j1 == p {
                        assert(groups@[j2] == prevg[j2 - 1]);
                        assert(bytes_lt(groups@[j1].hash@, prevg[j2 - 1].hash@));
                    } else if j1 < p {
                        assert(groups@[j1] == prevg[j1] && groups@[j2] == prevg[j2 - 1]);
                        assert(bytes_lt(prevg[j1].hash@, prevg[j2 - 1].hash@));
                    } else {
                        assert(groups@[j1] == prevg[j1 - 1] && groups@[j2] == prevg[j2 - 1]);
                        assert(bytes_lt(prevg[j1 - 1].hash@, prevg[j2 - 1].hash@));
                    }
                }
                assert forall|j: int| 0 <= j < groups@.len() implies exists|i: int|
                    0 <= i < k + 1 && (#[trigger] groups@[j]).hash@ == all@[i].hash@ by {
                    if j < p {
                        assert(groups@[j] == prevg[j]);
                        let i = choose|i: int|
                            0 <= i < k && (#[trigger] prevg[j]).hash@ == all@[i].hash@;
                        assert(groups@[j].hash@ == all@[i].hash@);
                    } else if j == p {
                        assert(groups@[j].hash@ == all@[k as int].hash@);
                    } else {
                        assert(groups@[j] == prevg[j - 1]);
                        let i = choose|i: int|
                            0 <= i < k && (#[trigger] prevg[j - 1]).hash@ == all@[i].hash@;
                        assert(groups@[j].hash@ == all@[i].hash@);
                    }
                }
                assert forall|i: int|
                    0 <= i < k + 1 && (#[trigger] all@[i]).paths@.len() >= 2 implies exists|j: int|
                    0 <= j < groups@.len() && (#[trigger] groups@[j]).hash@ == all@[i].hash@ by {
                    if i < k {
                        let j = choose|j: int|
                            0 <= j < prevg.len() && (#[trigger] prevg[j]).hash@ == all@[i].hash@;
                        if j < p {
                            assert(groups@[j] == prevg[j]);
                            assert(groups@[j].hash@ == all@[i].hash@);
                        } else {
                            assert(groups@[j + 1] == prevg[j]);
                            assert(groups@[j + 1].hash@ == all@[i].hash@);
                        }
                    } else {
                        assert(groups@[p as int].hash@ == all@[i].hash@);
                    }
                }
                assert forall|j: int| 0 <= j < groups@.len() implies (#[trigger] groups@[j]).paths@
                    .map_values(|q: String| q@) == successes_for(outcomes@, groups@[j].hash@)
                    && groups@[j].paths@.len() >= 2 by {
                    if j < p {
                        assert(groups@[j] == prevg[j]);
                    } else if j > p {
                        assert(groups@[j] == prevg[j - 1]);
                    } else {
                        assert(all@[k as int].paths@.map_values(|q: String| q@).len()
                            == all@[k as int].paths@.len());
                    }
                }
            }
        } else {
            proof {
                assert forall|i: int|
                    0 <= i < k + 1 && (#[trigger] all@[i]).paths@.len() >= 2 implies exists|j: int|
                    0 <= j < groups@.len() && (#[trigger] groups@[j]).hash@ == all@[i].hash@ by {
                    if i == k {
                        assert(all@[i].paths@.map_values(|p: String| p@).len()
                            == all@[i].paths@.len());
                    }
                }
            }
        }
        k += 1;
    }

    proof {
        assert forall|h: Seq<u8>|
            #![trigger successes_for(outcomes@, h)]
            successes_for(outcomes@, h).len() >= 2 implies exists|i: int|
            0 <= i < groups@.len() && (#[trigger] groups@[i]).hash@ == h by {
            let i = choose|i: int| 0 <= i < all@.len() && (#[trigger] all@[i]).hash@ == h;
            assert(all@[i].paths@.map_values(|p: String| p@) == successes_for(outcomes@, h));
            assert(all@[i].paths@.len() == successes_for(outcomes@, h).len());
        }
    }

    (groups, errors)
}

/// Dedup correctness, membership form: a path stands in the paths of hash
/// `h` exactly when some outcome reports `h` for it, and as many times as
/// there are such outcomes.
pub proof fn lemma_successes_for_membership(outs: Seq<HashOutcome>, h: Seq<u8>, p: Seq<char>)
    ensures
        successes_for(outs, h).contains(p) <==> exists|i: int|
            0 <= i < outs.len() && (#[trigger] outs[i]).is_success_of(h, p),
    decreases outs.len(),
{
    if outs.len() > 0 {
        lemma_successes_for_membership(outs.drop_last(), h, p);
        if successes_for(outs.drop_last(), h).contains(p) {
            let i = choose|i: int|
                0 <= i < outs.len() - 1 && (#[trigger] outs.drop_last()[i]).is_success_of(h, p);
            assert(outs[i].is_success_of(h, p));
        }
        if successes_for(outs, h).contains(p) && !successes_for(outs.drop_last(), h).contains(p) {
            assert(outs[outs.len() - 1].is_success_of(h, p));
        }
        if exists|i: int| 0 <= i < outs.len() && (#[trigger] outs[i]).is_success_of(h, p) {
            let i = choose|i: int| 0 <= i < outs.len() && (#[trigger] outs[i]).is_success_of(h, p);
            if i < outs.len() - 1 {
                assert(outs.drop_last()[i].is_success_of(h, p));
                assert(successes_for(outs.drop_last(), h).contains(p));
                let j = choose|j: int|
                    0 <= j < successes_for(outs.drop_last(), h).len() && successes_for(
                        outs.drop_last(),
                        h,
                    )[j] == p;
                assert(successes_for(outs, h)[j] == p);
            } else {
                assert(successes_for(outs, h).last() == p);
            }
        }
    }
}

/// Error-set membership: a path stands in the error set exactly when some
/// outcome reports a failure for it.
pub proof fn lemma_failures_of_membership(outs: Seq<HashOutcome>, p: Seq<char>)
    ensures
        failures_of(outs).contains(p) <==> exists|i: int|
            0 <= i < outs.len() && (#[trigger] outs[i]).is_failure_of(p),
    decreases outs.len(),
{
    if outs.len() > 0 {
        lemma_failures_of_membership(outs.drop_last(), p);
        if failures_of(outs.drop_last()).contains(p) {
            let i = choose|i: int|
                0 <= i < outs.len() - 1 && (#[trigger] outs.drop_last()[i]).is_failure_of(p);
            assert(outs[i].is_failure_of(p));
        }
        if failures_of(outs).contains(p) && !failures_of(outs.drop_last()).contains(p) {
            assert(outs[outs.len() - 1].is_failure_of(p));
        }
        if exists|i: int| 0 <= i < outs.len() && (#[trigger] outs[i]).is_failure_of(p) {
            let i = choose|i: int| 0 <= i < outs.len() && (#[trigger] outs[i]).is_failure_of(p);
            if i < outs.len() - 1 {
                assert(outs.drop_last()[i].is_failure_of(p));
                assert(failures_of(outs.drop_last()).contains(p));
                let j = choose|j: int|
                    0 <= j < failures_of(outs.drop_last()).len() && failures_of(
                        outs.drop_last(),
                    )[j] == p;
                assert(failures_of(outs)[j] == p);
            } else {
                assert(failures_of(outs).last() == p);
            }
        }
    }
}

/// Dedup correctness, uniqueness form: a hash that fewer than two successes
/// carry is the key of no group.
pub proof fn lemma_unique_hash_in_no_group(
    outs: Seq<HashOutcome>,
    groups: Seq<DupGroup>,
    errors: Seq<Seq<char>>,
    h: Seq<u8>,
)
    requires
        is_aggregation_of(outs, groups, errors),
        successes_for(outs, h).len() < 2,
    ensures
        forall|i: int| 0 <= i < groups.len() ==> (#[trigger] groups[i]).hash@ != h,
{
    assert forall|i: int| 0 <= i < groups.len() implies (#[trigger] groups[i]).hash@ != h by {
        if groups[i].hash@ == h {
            assert(groups[i].paths@.map_values(|p: String| p@) == successes_for(outs, h));
            assert(groups[i].paths@.map_values(|p: String| p@).len() >= 2);
        }
    }
}

/// The view of one outcome: the reported hash (nothing for a failure) and
/// the path.
pub open spec fn outcome_view(o: HashOutcome) -> (Option<Seq<u8>>, Seq<char>) {
    match o {
        HashOutcome::Success(h, p) => (Some(h@), p@),
        HashOutcome::Failure(p) => (None, p@),
    }
}

/// The views of an outcome stream, in order.
pub open spec fn outcome_views(outs: Seq<HashOutcome>) -> Seq<(Option<Seq<u8>>, Seq<char>)> {
    outs.map_values(|o: HashOutcome| outcome_view(o))
}

/// How often a path stands in the paths of hash `h`: once per outcome that
/// reports `h` for it, whatever the order.
pub proof fn lemma_successes_for_multiset(outs: Seq<HashOutcome>, h: Seq<u8>, p: Seq<char>)
    ensures
        successes_for(outs, h).to_multiset().count(p) == outcome_views(outs).to_multiset().count(
            (Some(h), p),
        ),
    decreases outs.len(),
{
    broadcast use vstd::seq_lib::group_to_multiset_ensures, vstd::multiset::group_multiset_axioms;

    if outs.len() == 0 {
        assert(successes_for(outs, h).to_multiset().count(p) == 0) by {
            assert(!successes_for(outs, h).contains(p));
        }
        assert(outcome_views(outs).to_multiset().count((Some(h), p)) == 0) by {
            assert(outcome_views(outs).len() == 0);
            assert(!outcome_views(outs).contains((Some(h), p)));
        }
    } else {
        let dl = outs.drop_last();
        lemma_successes_for_multiset(dl, h, p);
        assert(outcome_views(outs) =~= outcome_views(dl).push(outcome_view(outs.last())));
        let addend = match outs.last() {
            HashOutcome::Success(hash, path) => if hash@ == h {
                seq![path@]
            } else {
                Seq::<Seq<char>>::empty()
            },
            HashOutcome::Failure(_) => Seq::<Seq<char>>::empty(),
        };
        assert(successes_for(outs, h) == successes_for(dl, h) + addend);
        vstd::seq_lib::lemma_multiset_commutative(successes_for(dl, h), addend);
        if addend.len() == 0 {
            assert(addend.to_multiset().count(p) == 0) by {
                assert(!addend.contains(p));
            }
        } else {
            assert(addend =~= Seq::<Seq<char>>::empty().push(addend[0]));
            assert(addend.to_multiset() =~= Multiset::<Seq<char>>::empty().insert(addend[0]))
                by {
                assert(Seq::<Seq<char>>::empty().push(addend[0]).to_multiset() =~= Seq::<
                    Seq<char>,
                >::empty().to_multiset().insert(addend[0]));
                assert(Seq::<Seq<char>>::empty().to_multiset() =~= Multiset::<Seq<char>>::empty())
                    by {
                    assert forall|q: Seq<char>|
                        Seq::<Seq<char>>::empty().to_multiset().count(q) == 0 by {
                        assert(!Seq::<Seq<char>>::empty().contains(q));
                    }
                }
            }
        }
    }
}

/// How often a path stands in the error set: once per outcome that reports a
/// failure for it, whatever the order.
pub proof fn lemma_failures_of_multiset(outs: Seq<HashOutcome>, p: Seq<char>)
    ensures
        failures_of(outs).to_multiset().count(p) == outcome_views(outs).to_multiset().count(
            (None, p),
        ),
    decreases outs.len(),
{
    broadcast use vstd::seq_lib::group_to_multiset_ensures, vstd::multiset::group_multiset_axioms;

    if outs.len() == 0 {
        assert(failures_of(outs).to_multiset().count(p) == 0) by {
            assert(!failures_of(outs).contains(p));
        }
        assert(outcome_views(outs).to_multiset().count((None::<Seq<u8>>, p)) == 0) by {
            assert(!outcome_views(outs).contains((None::<Seq<u8>>, p)));
        }
    } else {
        let dl = outs.drop_last();
        lemma_failures_of_multiset(dl, p);
        assert(outcome_views(outs) =~= outcome_views(dl).push(outcome_view(outs.last())));
        let addend = match outs.last() {
            HashOutcome::Success(_, _) => Seq::<Seq<char>>::empty(),
            HashOutcome::Failure(path) => seq![path@],
        };
        assert(failures_of(outs) == failures_of(dl) + addend);
        vstd::seq_lib::lemma_multiset_commutative(failures_of(dl), addend);
        if addend.len() == 0 {
            assert(addend.to_multiset().count(p) == 0) by {
                assert(!addend.contains(p));
            }
        } else {
            assert(addend =~= Seq::<Seq<char>>::empty().push(addend[0]));
            assert(addend.to_multiset() =~= Multiset::<Seq<char>>::empty().insert(addend[0]))
                by {
                assert(Seq::<Seq<char>>::empty().push(addend[0]).to_multiset() =~= Seq::<
                    Seq<char>,
                >::empty().to_multiset().insert(addend[0]));
                assert(Seq::<Seq<char>>::empty().to_multiset() =~= Multiset::<Seq<char>>::empty())
                    by {
                    assert forall|q: Seq<char>|
                        Seq::<Seq<char>>::empty().to_multiset().count(q) == 0 by {
                        assert(!Seq::<Seq<char>>::empty().contains(q));
                    }
                }
            }
        }
    }
}

/// Grouping is order-independent: two outcome streams that hold the same
/// outcomes, in any order, group the same paths under every hash and fail
/// the same paths — the duplicate groups and the error set have the same
/// contents.
pub proof fn lemma_grouping_order_independent(outs1: Seq<HashOutcome>, outs2: Seq<HashOutcome>)
    requires
        outcome_views(outs1).to_multiset() == outcome_views(outs2).to_multiset(),
    ensures
        forall|h: Seq<u8>| #[trigger] successes_for(outs1, h).to_multiset() == successes_for(
            outs2,
            h,
        ).to_multiset(),
        failures_of(outs1).to_multiset() == failures_of(outs2).to_multiset(),
{
    assert forall|h: Seq<u8>| #[trigger] successes_for(outs1, h).to_multiset() == successes_for(
        outs2,
        h,
    ).to_multiset() by {
        assert forall|p: Seq<char>|
            successes_for(outs1, h).to_multiset().count(p) == successes_for(
                outs2,
                h,
            ).to_multiset().count(p) by {
            lemma_successes_for_multiset(outs1, h, p);
            lemma_successes_for_multiset(outs2, h, p);
        }
        assert(successes_for(outs1, h).to_multiset() =~= successes_for(outs2, h).to_multiset());
    }
    assert forall|p: Seq<char>|
        failures_of(outs1).to_multiset().count(p) == failures_of(outs2).to_multiset().count(
            p,
        ) by {
        lemma_failures_of_multiset(outs1, p);
        lemma_failures_of_multiset(outs2, p);
    }
    assert(failures_of(outs1).to_multiset() =~= failures_of(outs2).to_multiset());
}

} // verus!
