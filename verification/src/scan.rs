//! The scanner: a depth-first walk over a directory tree that collects every
//! image path not excluded by the ignore rules, deduplicated in a sorted
//! set.
//!
//! Reading a directory is I/O and stays with the driver; every decision is
//! made here. The driver pops the next directory with `next_dir` (pruning of
//! ignored directories happens there), lists it, and hands the entries to
//! `visit_dir`: symbolic links are skipped, subdirectories queued, and image
//! files not ignored are inserted into the found set.

use vstd::multiset::Multiset;
use vstd::prelude::*;
use vstd::string::StrSliceExecFns;

use crate::ignore::IgnoreRules;
use crate::paths::is_img_path;
use crate::queue::WorkQueue;

verus! {

/// Lexicographic order on character sequences by code point, which is the
/// order of the strings' bytes in UTF-8.
pub open spec fn chars_lt(a: Seq<char>, b: Seq<char>) -> bool
    decreases a.len(),
{
    if b.len() == 0 {
        false
    } else if a.len() == 0 {
        true
    } else if (a.first() as u32) < (b.first() as u32) {
        true
    } else if a.first() == b.first() {
        chars_lt(a.skip(1), b.skip(1))
    } else {
        false
    }
}

/// No sequence orders below itself.
pub proof fn lemma_chars_lt_irrefl(a: Seq<char>)
    ensures
        !chars_lt(a, a),
    decreases a.len(),
{
    if a.len() > 0 {
        lemma_chars_lt_irrefl(a.skip(1));
    }
}

/// A strictly sorted set holds no path twice: what the scanner discovered
/// is hashed once.
pub proof fn lemma_sorted_unique_no_dup(v: Seq<Seq<char>>)
    requires
        sorted_unique(v),
    ensures
        forall|i: int, j: int| 0 <= i < j < v.len() ==> (#[trigger] v[i]) != (#[trigger] v[j]),
{
    assert forall|i: int, j: int| 0 <= i < j < v.len() implies (#[trigger] v[i]) != (
    #[trigger] v[j]) by {
        if v[i] == v[j] {
            assert(chars_lt(v[i], v[j]));
            lemma_chars_lt_irrefl(v[i]);
        }
    }
}

/// Distinct sequences order one way or the other.
pub proof fn lemma_chars_lt_connex(a: Seq<char>, b: Seq<char>)
    requires
        a != b,
    ensures
        chars_lt(a, b) || chars_lt(b, a),
    decreases a.len(),
{
    if a.len() == 0 && b.len() == 0 {
        assert(a =~= b);
    } else if a.len() > 0 && b.len() > 0 {
        if a.first() == b.first() {
            if a.skip(1) == b.skip(1) {
                assert(a.len() == b.len()) by {
                    assert(a.skip(1).len() == b.skip(1).len());
                }
                assert(a =~= b) by {
                    assert forall|i: int| 0 <= i < a.len() implies a[i] == b[i] by {
                        if i > 0 {
                            assert(a.skip(1)[i - 1] == a[i]);
                            assert(b.skip(1)[i - 1] == b[i]);
                        }
                    }
                }
            } else {
                lemma_chars_lt_connex(a.skip(1), b.skip(1));
            }
        } else {
            assert((a.first() as u32) != (b.first() as u32)) by {
                if a.first() as u32 == b.first() as u32 {
                    vstd::utf8::char_u32_cast(a.first(), a.first() as u32);
                    vstd::utf8::char_u32_cast(b.first(), b.first() as u32);
                }
            }
        }
    }
}

/// The order is transitive.
pub proof fn lemma_chars_lt_trans(a: Seq<char>, b: Seq<char>, c: Seq<char>)
    requires
        chars_lt(a, b),
        chars_lt(b, c),
    ensures
        chars_lt(a, c),
    decreases a.len(),
{
    if a.len() > 0 && b.len() > 0 && c.len() > 0 {
        if a.first() == b.first() && b.first() == c.first() {
            lemma_chars_lt_trans(a.skip(1), b.skip(1), c.skip(1));
        }
    }
}

/// Whether `a` orders below `b`, character by character.
fn string_lt(a: &String, b: &String) -> (r: bool)
    ensures
        r == chars_lt(a@, b@),
{
    let na = a.as_str().unicode_len();
    let nb = b.as_str().unicode_len();
    let mut i: usize = 0;
    proof {
        assert(a@.skip(0) =~= a@);
        assert(b@.skip(0) =~= b@);
    }
    while i < na && i < nb
        invariant
            na == a@.len(),
            nb == b@.len(),
            0 <= i <= na,
            0 <= i <= nb,
            chars_lt(a@, b@) == chars_lt(a@.skip(i as int), b@.skip(i as int)),
        decreases na - i,
    {
        let ca = a.as_str().get_char(i);
        let cb = b.as_str().get_char(i);
        proof {
            assert(a@.skip(i as int).first() == a@[i as int]);
            assert(b@.skip(i as int).first() == b@[i as int]);
            assert(a@.skip(i as int).skip(1) =~= a@.skip(i + 1));
            assert(b@.skip(i as int).skip(1) =~= b@.skip(i + 1));
        }
        if (ca as u32) < (cb as u32) {
            return true;
        }
        if (ca as u32) > (cb as u32) {
            return false;
        }
        proof {
            vstd::utf8::char_u32_cast(ca, ca as u32);
            vstd::utf8::char_u32_cast(cb, cb as u32);
            assert(ca == cb);
        }
        i += 1;
    }
    proof {
        if i == na {
            assert(a@.skip(i as int).len() == 0);
        } else {
            assert(b@.skip(i as int).len() == 0);
        }
    }
    i == na && i < nb
}

/// The views of a list of paths, in order.
pub open spec fn views_of(v: Seq<String>) -> Seq<Seq<char>> {
    v.map_values(|s: String| s@)
}

/// Strictly ascending: sorted with no duplicate.
pub open spec fn sorted_unique(v: Seq<Seq<char>>) -> bool {
    forall|i: int, j: int| 0 <= i < j < v.len() ==> chars_lt(#[trigger] v[i], #[trigger] v[j])
}

/// Whether some path of `v` reads `q`.
pub open spec fn has_path(v: Seq<String>, q: Seq<char>) -> bool {
    exists|i: int| 0 <= i < v.len() && (#[trigger] v[i])@ == q
}

/// The first position whose path does not order below `p`.
fn find_pos(found: &Vec<String>, p: &String) -> (i: usize)
    ensures
        0 <= i <= found@.len(),
        forall|k: int| 0 <= k < i ==> chars_lt((#[trigger] found@[k])@, p@),
        i < found@.len() ==> !chars_lt(found@[i as int]@, p@),
{
    let mut i: usize = 0;
    while i < found.len()
        invariant
            0 <= i <= found@.len(),
            forall|k: int| 0 <= k < i ==> chars_lt((#[trigger] found@[k])@, p@),
        decreases found@.len() - i,
    {
        if !string_lt(&found[i], p) {
            return i;
        }
        i += 1;
    }
    i
}

/// Insert a path into the sorted set, keeping it sorted and duplicate-free.
fn insert_found(found: &mut Vec<String>, p: String)
    requires
        sorted_unique(views_of(old(found)@)),
    ensures
        sorted_unique(views_of(final(found)@)),
        forall|q: Seq<char>|
            #[trigger] has_path(final(found)@, q) <==> has_path(old(found)@, q) || q == p@,
{
    let ghost prev = found@;
    let i = find_pos(found, &p);
    if i < found.len() && found[i].eq(&p) {
        proof {
            assert(has_path(prev, p@));
            assert forall|q: Seq<char>| #[trigger]
                has_path(found@, q) <==> has_path(prev, q) || q == p@ by {}
        }
        return ;
    }
    proof {
        // p is absent: below position i everything orders below p; at and
        // past i everything orders above p.
        if i < prev.len() {
            lemma_chars_lt_connex(prev[i as int]@, p@);
        }
        assert forall|k: int| i <= k < prev.len() implies chars_lt(p@, (#[trigger] prev[k])@) by {
            if k > i {
                assert(views_of(prev)[i as int] == prev[i as int]@);
                assert(views_of(prev)[k] == prev[k]@);
                assert(chars_lt(views_of(prev)[i as int], views_of(prev)[k]));
                lemma_chars_lt_trans(p@, prev[i as int]@, prev[k]@);
            }
        }
    }
    found.insert(i, p);
    proof {
        assert forall|k1: int, k2: int| 0 <= k1 < k2 < found@.len() implies chars_lt(
            (#[trigger] found@[k1])@,
            (#[trigger] found@[k2])@,
        ) by {
            assert(forall|w: int|
                0 <= w < prev.len() ==> #[trigger] views_of(prev)[w] == prev[w]@);
            if k1 < i {
                assert(found@[k1] == prev[k1]);
            } else if k1 == i {
                assert(found@[k1]@ == p@);
            } else {
                assert(found@[k1] == prev[k1 - 1]);
            }
            if k2 < i {
                assert(found@[k2] == prev[k2]);
            } else if k2 == i {
                assert(found@[k2]@ == p@);
            } else {
                assert(found@[k2] == prev[k2 - 1]);
            }
            if k2 < i {
                assert(chars_lt(views_of(prev)[k1], views_of(prev)[k2]));
            } else if k2 == i {
                assert(chars_lt(prev[k1]@, p@));
            } else if k1 < i {
                // k1 < i <= k2 - 1, and k1 < k2 - 1 is strict since k1 < i.
                assert(k1 < k2 - 1 || k1 == k2 - 1);
                if k1 == k2 - 1 {
                    assert(chars_lt(prev[k1]@, p@));
                    assert(chars_lt(p@, prev[k2 - 1]@));
                } else {
                    assert(chars_lt(views_of(prev)[k1], views_of(prev)[k2 - 1]));
                }
            } else if k1 == i {
                assert(chars_lt(p@, prev[k2 - 1]@));
            } else {
                assert(chars_lt(views_of(prev)[k1 - 1], views_of(prev)[k2 - 1]));
            }
        }
        assert forall|q: Seq<char>| #[trigger]
            has_path(found@, q) <==> has_path(prev, q) || q == p@ by {
            if has_path(found@, q) {
                let k = choose|k: int| 0 <= k < found@.len() && (#[trigger] found@[k])@ == q;
                if k < i {
                    assert(prev[k]@ == q);
                } else if k > i {
                    assert(prev[k - 1]@ == q);
                }
            }
            if has_path(prev, q) {
                let k = choose|k: int| 0 <= k < prev.len() && (#[trigger] prev[k])@ == q;
                if k < i {
                    assert(found@[k]@ == q);
                } else {
                    assert(found@[k + 1]@ == q);
                }
            }
            if q == p@ {
                assert(found@[i as int]@ == q);
            }
        }
    }
}

/// One directory entry, as the driver read it: the entry's path and what
/// kind of node it is.
pub struct FsEntry {
    pub path: String,
    pub is_dir: bool,
    pub is_symlink: bool,
}

/// The paths of the subdirectories among the entries (symbolic links never
/// count), in order.
pub open spec fn dir_paths(es: Seq<FsEntry>) -> Seq<Seq<char>>
    decreases es.len(),
{
    if es.len() == 0 {
        Seq::empty()
    } else {
        dir_paths(es.drop_last()) + {
            let e = es.last();
            if !e.is_symlink && e.is_dir {
                seq![e.path@]
            } else {
                Seq::empty()
            }
        }
    }
}

/// Whether the entries hold a regular file with path `q` that the scanner
/// must include: an image extension, not a symbolic link, not a directory,
/// and not ignored.
pub open spec fn wanted(es: Seq<FsEntry>, ig: IgnoreRules, q: Seq<char>) -> bool {
    exists|i: int|
        0 <= i < es.len() && {
            let e = #[trigger] es[i];
            e.path@ == q && !e.is_symlink && !e.is_dir && is_img_path(q) && !ig.spec_ignored(q)
        }
}

/// The scanner state: the ignore rules of the run, the directories still to
/// visit, and the image paths found so far (sorted, duplicate-free, none
/// ignored).
pub struct Scanner {
    pub ignore: IgnoreRules,
    pub pending: Vec<String>,
    pub found: Vec<String>,
}

impl Scanner {
    /// The found set is sorted and duplicate-free, and every found path is
    /// an image path that the ignore rules admit.
    pub open spec fn wf(&self) -> bool {
        &&& sorted_unique(views_of(self.found@))
        &&& forall|i: int|
            0 <= i < self.found@.len() ==> is_img_path((#[trigger] self.found@[i])@)
                && !self.ignore.spec_ignored(self.found@[i]@)
    }

    /// A scanner that will start at `root`, unless the root is a symbolic
    /// link (the driver hands its kind in): symbolic links are never
    /// followed, the root included, so a symlink root leaves nothing to
    /// visit.
    pub fn new(root: String, root_is_symlink: bool, ignore: IgnoreRules) -> (s: Scanner)
        ensures
            s.wf(),
            s.found@.len() == 0,
            views_of(s.pending@) == if root_is_symlink {
                Seq::<Seq<char>>::empty()
            } else {
                seq![root@]
            },
            s.ignore == ignore,
    {
        let pending = if root_is_symlink {
            Vec::new()
        } else {
            vec![root]
        };
        let s = Scanner { ignore, pending, found: Vec::new() };
        proof {
            if root_is_symlink {
                assert(views_of(s.pending@) =~= Seq::<Seq<char>>::empty());
            } else {
                assert(views_of(s.pending@) =~= seq![s.pending@[0]@]);
            }
        }
        s
    }

    /// The next directory to visit: directories the ignore rules reject are
    /// pruned here, subtree and all. `None` once nothing is pending.
    pub fn next_dir(&mut self) -> (r: Option<String>)
        ensures
            final(self).ignore == old(self).ignore,
            final(self).found == old(self).found,
            match r {
                Some(d) => {
                    &&& !old(self).ignore.spec_ignored(d@)
                    &&& exists|m: int|
                        {
                            &&& 0 <= m < old(self).pending@.len()
                            &&& final(self).pending@ == old(self).pending@.take(m)
                            &&& d == old(self).pending@[m]
                            &&& forall|k: int|
                                m < k < old(self).pending@.len() ==> old(self).ignore.spec_ignored(
                                    (#[trigger] old(self).pending@[k])@,
                                )
                        }
                },
                None => {
                    &&& final(self).pending@.len() == 0
                    &&& forall|k: int|
                        0 <= k < old(self).pending@.len() ==> old(self).ignore.spec_ignored(
                            (#[trigger] old(self).pending@[k])@,
                        )
                },
            },
    {
        let ghost start = self.pending@;
        let ghost mut m: int = start.len() as int;
        proof {
            assert(start.take(m) =~= start);
        }
        loop
            invariant
                self.ignore == old(self).ignore,
                self.found == old(self).found,
                0 <= m <= start.len(),
                self.pending@ == start.take(m),
                forall|k: int|
                    m <= k < start.len() ==> old(self).ignore.spec_ignored((#[trigger] start[k])@),
                start == old(self).pending@,
            decreases self.pending@.len(),
        {
            match self.pending.pop() {
                None => {
                    proof {
                        assert(m == 0);
                    }
                    return None;
                },
                Some(d) => {
                    proof {
                        assert(d == start.take(m)[m - 1]);
                        assert(d == start[m - 1]);
                        assert(self.pending@ =~= start.take(m - 1));
                        m = m - 1;
                    }
                    if !self.ignore.is_ignored(&d) {
                        proof {
                            assert(0 <= m < start.len() && self.pending@ == start.take(m) && d
                                == start[m] && (forall|k: int|
                                m < k < start.len() ==> old(self).ignore.spec_ignored(
                                    (#[trigger] start[k])@,
                                )));
                        }
                        return Some(d);
                    }
                },
            }
        }
    }

    /// Record one directory's entries: subdirectories (never symbolic
    /// links) join the pending list; regular files with an accepted image
    /// extension that the ignore rules admit join the found set.
    pub fn visit_dir(&mut self, entries: Vec<FsEntry>)
        requires
            old(self).wf(),
        ensures
            final(self).wf(),
            final(self).ignore == old(self).ignore,
            views_of(final(self).pending@) == views_of(old(self).pending@) + dir_paths(entries@),
            forall|q: Seq<char>|
                #[trigger] has_path(final(self).found@, q) <==> has_path(old(self).found@, q)
                    || wanted(entries@, old(self).ignore, q),
    {
        let n = entries.len();
        let mut entries = entries;
        let mut k: usize = 0;
        let ghost all = entries@;
        let ghost start_pending = self.pending@;
        let ghost start_found = self.found@;

        while k < n
            invariant
                n == all.len(),
                entries@ == all,
                0 <= k <= n,
                self.wf(),
                self.ignore == old(self).ignore,
                views_of(self.pending@) == views_of(start_pending) + dir_paths(all.take(k as int)),
                forall|q: Seq<char>|
                    #[trigger] has_path(self.found@, q) <==> has_path(start_found, q) || wanted(
                        all.take(k as int),
                        old(self).ignore,
                        q,
                    ),
                start_pending == old(self).pending@,
                start_found == old(self).found@,
            decreases n - k,
        {
            proof {
                assert(all.take(k + 1).drop_last() =~= all.take(k as int));
                assert(all.take(k + 1).last() == all[k as int]);
            }
            let e = &entries[k];
            if e.is_symlink {
                proof {
                    lemma_wanted_step_no_file(all, k as int, old(self).ignore, start_found, self.found@);
                    assert(views_of(self.pending@) =~= views_of(start_pending) + dir_paths(
                        all.take(k + 1),
                    ));
                }
            } else if e.is_dir {
                let dir = e.path.clone();
                let ghost prev_pending = self.pending@;
                self.pending.push(dir);
                proof {
                    assert(views_of(self.pending@) =~= views_of(prev_pending).push(
                        all[k as int].path@,
                    ));
                    assert(views_of(self.pending@) =~= views_of(start_pending) + dir_paths(
                        all.take(k + 1),
                    ));
                    lemma_wanted_step_no_file(all, k as int, old(self).ignore, start_found, self.found@);
                }
            } else {
                let is_img = crate::paths::has_img_ext(e.path.as_str());
                let keep = if is_img {
                    !self.ignore.is_ignored(&e.path)
                } else {
                    false
                };
                if keep {
                    let p = e.path.clone();
                    let ghost prev_found = self.found@;
                    insert_found(&mut self.found, p);
                    proof {
                        assert forall|q: Seq<char>| #[trigger]
                            has_path(self.found@, q) <==> has_path(start_found, q) || wanted(
                                all.take(k + 1),
                                old(self).ignore,
                                q,
                            ) by {
                            lemma_wanted_unfold(all, k as int, old(self).ignore, q);
                        }
                        assert forall|i: int|
                            0 <= i < self.found@.len() implies is_img_path(
                            (#[trigger] self.found@[i])@,
                        ) && !self.ignore.spec_ignored(self.found@[i]@) by {
                            assert(has_path(self.found@, self.found@[i]@));
                            if !has_path(prev_found, self.found@[i]@) {
                                assert(self.found@[i]@ == all[k as int].path@);
                            } else {
                                let w = choose|w: int|
                                    0 <= w < prev_found.len() && (#[trigger] prev_found[w])@
                                        == self.found@[i]@;
                            }
                        }
                    }
                } else {
                    proof {
                        assert forall|q: Seq<char>| #[trigger]
                            has_path(self.found@, q) <==> has_path(start_found, q) || wanted(
                                all.take(k + 1),
                                old(self).ignore,
                                q,
                            ) by {
                            lemma_wanted_unfold(all, k as int, old(self).ignore, q);
                        }
                    }
                }
                proof {
                    assert(views_of(self.pending@) =~= views_of(start_pending) + dir_paths(
                        all.take(k + 1),
                    ));
                }
            }
            k += 1;
        }
        proof {
            assert(all.take(n as int) =~= all);
        }
    }

    /// Whether anything is still pending.
    pub fn done(&self) -> (r: bool)
        ensures
            r == (self.pending@.len() == 0),
    {
        self.pending.len() == 0
    }

    /// The discovered set: every found image path, sorted, duplicate-free,
    /// none ignored.
    pub fn finish(self) -> (found: Vec<String>)
        requires
            self.wf(),
        ensures
            found == self.found,
            sorted_unique(views_of(found@)),
            forall|i: int|
                0 <= i < found@.len() ==> is_img_path((#[trigger] found@[i])@)
                    && !self.ignore.spec_ignored(found@[i]@),
    {
        self.found
    }
}

/// Entry `k` of `es` is no includable file: the wanted set does not grow at
/// step `k`.
proof fn lemma_wanted_step_no_file(
    es: Seq<FsEntry>,
    k: int,
    ig: IgnoreRules,
    base: Seq<String>,
    cur: Seq<String>,
)
    requires
        0 <= k < es.len(),
        es[k].is_symlink || es[k].is_dir,
        forall|q: Seq<char>|
            #[trigger] has_path(cur, q) <==> has_path(base, q) || wanted(es.take(k), ig, q),
    ensures
        forall|q: Seq<char>|
            #[trigger] has_path(cur, q) <==> has_path(base, q) || wanted(es.take(k + 1), ig, q),
{
    assert forall|q: Seq<char>| #[trigger]
        has_path(cur, q) <==> has_path(base, q) || wanted(es.take(k + 1), ig, q) by {
        lemma_wanted_unfold(es, k, ig, q);
    }
}

/// Unfolding of `wanted` at the step from prefix `k` to `k + 1`.
proof fn lemma_wanted_unfold(es: Seq<FsEntry>, k: int, ig: IgnoreRules, q: Seq<char>)
    requires
        0 <= k < es.len(),
    ensures
        wanted(es.take(k + 1), ig, q) <==> wanted(es.take(k), ig, q) || {
            let e = es[k];
            e.path@ == q && !e.is_symlink && !e.is_dir && is_img_path(q) && !ig.spec_ignored(q)
        },
{
    if wanted(es.take(k + 1), ig, q) {
        let i = choose|i: int|
            0 <= i < es.take(k + 1).len() && {
                let e = #[trigger] es.take(k + 1)[i];
                e.path@ == q && !e.is_symlink && !e.is_dir && is_img_path(q) && !ig.spec_ignored(q)
            };
        if i < k {
            assert(es.take(k)[i] == es.take(k + 1)[i]);
            assert(wanted(es.take(k), ig, q));
        } else {
            assert(es.take(k + 1)[i] == es[k]);
        }
    }
    if wanted(es.take(k), ig, q) {
        let i = choose|i: int|
            0 <= i < es.take(k).len() && {
                let e = #[trigger] es.take(k)[i];
                e.path@ == q && !e.is_symlink && !e.is_dir && is_img_path(q) && !ig.spec_ignored(q)
            };
        assert(es.take(k + 1)[i] == es.take(k)[i]);
        assert(wanted(es.take(k + 1), ig, q));
    }
    let e = es[k];
    if e.path@ == q && !e.is_symlink && !e.is_dir && is_img_path(q) && !ig.spec_ignored(q) {
        assert(es.take(k + 1)[k] == e);
        assert(wanted(es.take(k + 1), ig, q));
    }
}

/// The multiset of the paths' views.
pub open spec fn path_multiset(v: Seq<String>) -> Multiset<Seq<char>> {
    views_of(v).to_multiset()
}

/// Move the discovered paths into the shared work queue: the queue then
/// holds exactly the discovered set.
pub fn get_img_paths(found: Vec<String>) -> (q: WorkQueue)
    ensures
        q@ == path_multiset(found@),
{
    broadcast use vstd::seq_lib::group_to_multiset_ensures;

    let mut q = WorkQueue::new();
    let n = found.len();
    let mut found = found;
    let ghost all = found@;
    // Drain from the back; the multiset does not mind the order.
    let mut k: usize = 0;
    while k < n
        invariant
            n == all.len(),
            found@ == all,
            0 <= k <= n,
            q@ == path_multiset(all.take(k as int)),
        decreases n - k,
    {
        proof {
            assert(views_of(all.take(k as int)).push(all[k as int]@) =~= views_of(all.take(k + 1)));
            vstd::seq_lib::to_multiset_build::<Seq<char>>(
                views_of(all.take(k as int)),
                all[k as int]@,
            );
        }
        let p = found[k].clone();
        q.push(p);
        k += 1;
    }
    proof {
        assert(all.take(n as int) =~= all);
    }
    q
}

} // verus!
