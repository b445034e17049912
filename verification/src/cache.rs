//! Persistent content-addressed cache: a store of (path, hash) records in an
//! SQLite database, keyed by exact path match.
//!
//! The store is modelled as the sequence of its records, in insertion order.
//! Inserts append a record; the table enforces no uniqueness, so a path may
//! own several records and a lookup returns the hash of one of them. Garbage
//! collection deletes every record of each path it is given.
//!
//! Two limits of the sqlite crate shape the contracts. Values are bound with
//! their byte length as a C int, so paths and hashes must stay below that
//! limit (`path_fits`, and the hash-length premise of `insert`). And a TEXT
//! column is read back through a C string, which stops at the first NUL
//! character: `paths` therefore promises the full listing only when every
//! stored path is NUL-free (`nul_free`) — lookups, inserts and deletes bind
//! with explicit lengths and are exact either way.

use vstd::prelude::*;

verus! {

/// One stored record: a path and the perceptual hash once computed for it.
pub type CacheRecord = (Seq<char>, Seq<u8>);

/// The records the store at `conn` holds, in insertion order.
pub uninterp spec fn db_records(conn: sqlite::Connection) -> Seq<CacheRecord>;

#[verifier::external_type_specification]
#[verifier::external_body]
pub struct ExConnection(sqlite::Connection);

#[verifier::external_type_specification]
#[verifier::external_body]
pub struct ExSqliteError(sqlite::Error);

/// Whether some record for the path `p` is stored.
pub open spec fn has_record(records: Seq<CacheRecord>, p: Seq<char>) -> bool {
    exists|i: int| 0 <= i < records.len() && (#[trigger] records[i]).0 == p
}

/// Whether the record (`p`, `h`) is stored.
pub open spec fn record_for(records: Seq<CacheRecord>, p: Seq<char>, h: Seq<u8>) -> bool {
    exists|i: int| 0 <= i < records.len() && #[trigger] records[i] == (p, h)
}

/// The store with every record of the path `p` removed, other records kept
/// in order.
pub open spec fn without_path(records: Seq<CacheRecord>, p: Seq<char>) -> Seq<CacheRecord>
    decreases records.len(),
{
    if records.len() == 0 {
        records
    } else {
        let rest = without_path(records.drop_last(), p);
        if records.last().0 == p {
            rest
        } else {
            rest.push(records.last())
        }
    }
}

/// The store after garbage collection removed every record whose path is in
/// `doomed`, other records kept in order.
pub open spec fn gc_spec(records: Seq<CacheRecord>, doomed: Set<Seq<char>>) -> Seq<CacheRecord>
    decreases records.len(),
{
    if records.len() == 0 {
        records
    } else {
        let rest = gc_spec(records.drop_last(), doomed);
        if doomed.contains(records.last().0) {
            rest
        } else {
            rest.push(records.last())
        }
    }
}

/// The views of a list of paths, as a set.
pub open spec fn path_set(paths: Seq<String>) -> Set<Seq<char>> {
    Set::new(|q: Seq<char>| exists|i: int| 0 <= i < paths.len() && (#[trigger] paths[i])@ == q)
}

/// Small enough to bind: the sqlite crate hands SQLite the byte length as a
/// C int, so the UTF-8 form (at most four bytes per character) must stay
/// below 2^31 bytes.
pub open spec fn path_fits(p: Seq<char>) -> bool {
    p.len() < 0x2000_0000
}

/// No interior NUL character: the sqlite crate reads a TEXT column back
/// through a C string, which stops at the first NUL.
pub open spec fn nul_free(p: Seq<char>) -> bool {
    forall|i: int| 0 <= i < p.len() ==> (#[trigger] p[i]) != '\0'
}

/// Every stored record's path is NUL-free, so a listing reads back whole.
pub open spec fn paths_nul_free(records: Seq<CacheRecord>) -> bool {
    forall|i: int| 0 <= i < records.len() ==> nul_free((#[trigger] records[i]).0)
}

/// Relies on sqlite::open and sqlite::Connection::execute: opens or creates
/// the database file and creates the `hashes` table if it is absent. The
/// records are whatever the store already held, so nothing is claimed of
/// them.
#[verifier::external_body]
fn db_open(path: &String) -> (r: Result<sqlite::Connection, sqlite::Error>) {
    let conn = sqlite::open(path.as_str())?;
    let init = "CREATE TABLE IF NOT EXISTS hashes (path TEXT NOT NULL, hash BLOB NOT NULL);";
    conn.execute(init)?;
    Ok(conn)
}

/// Relies on sqlite::Connection::prepare, Statement::bind, Statement::next
/// and Statement::read: `SELECT hash FROM hashes WHERE path = ?` returns a
/// row exactly when a record for the path exists, and the row holds that
/// record's hash.
#[verifier::external_body]
fn db_query(conn: &sqlite::Connection, img_path: &String) -> (r: Result<
    Option<Vec<u8>>,
    sqlite::Error,
>)
    requires
        path_fits(img_path@),
    ensures
        (r matches Ok(Some(h)) ==> record_for(db_records(*conn), img_path@, h@)),
        (r matches Ok(None) ==> !has_record(db_records(*conn), img_path@)),
{
    let mut stmt = conn.prepare("SELECT hash FROM hashes WHERE path = ?")?;
    stmt.bind((1, img_path.as_str()))?;
    match stmt.next()? {
        sqlite::State::Row => Ok(Some(stmt.read::<Vec<u8>, _>(0)?)),
        sqlite::State::Done => Ok(None),
    }
}

/// Relies on sqlite::Connection::prepare, Statement::bind and
/// Statement::next: `INSERT INTO hashes` appends one record, and a single
/// failed INSERT statement changes nothing.
#[verifier::external_body]
fn db_insert(conn: &mut sqlite::Connection, img_path: &String, hash: &Vec<u8>) -> (r: Result<
    (),
    sqlite::Error,
>)
    requires
        path_fits(img_path@),
        hash@.len() < 0x8000_0000,
    ensures
        r is Ok ==> db_records(*final(conn)) == db_records(*old(conn)).push((img_path@, hash@)),
        r is Err ==> db_records(*final(conn)) == db_records(*old(conn)),
{
    let mut stmt = conn.prepare("INSERT INTO hashes (path, hash) VALUES (?, ?)")?;
    stmt.bind((1, img_path.as_str()))?;
    stmt.bind((2, hash.as_slice()))?;
    stmt.next()?;
    Ok(())
}

/// Relies on sqlite::Connection::prepare, Statement::bind and
/// Statement::next: `DELETE FROM hashes WHERE path = ?` removes exactly the
/// records of that path, and a single failed DELETE statement changes
/// nothing.
#[verifier::external_body]
fn db_delete(conn: &mut sqlite::Connection, img_path: &String) -> (r: Result<(), sqlite::Error>)
    requires
        path_fits(img_path@),
    ensures
        r is Ok ==> db_records(*final(conn)) == without_path(db_records(*old(conn)), img_path@),
        r is Err ==> db_records(*final(conn)) == db_records(*old(conn)),
{
    let mut stmt = conn.prepare("DELETE FROM hashes WHERE path = ?")?;
    stmt.bind((1, img_path.as_str()))?;
    stmt.next()?;
    Ok(())
}

/// Relies on sqlite::Connection::prepare, Statement::next and
/// Statement::read: `SELECT path FROM hashes` yields the path of every
/// record exactly once per record, in an order SQLite does not promise. The
/// crate reads each path back through a C string, which stops at the first
/// NUL character, so the listing is promised whole only of a store whose
/// paths are NUL-free.
#[verifier::external_body]
fn db_paths(conn: &sqlite::Connection) -> (r: Result<Vec<String>, sqlite::Error>)
    ensures
        r matches Ok(v) ==> paths_nul_free(db_records(*conn)) ==> v@.map_values(
            |p: String| p@,
        ).to_multiset() == db_records(*conn).map_values(|rec: CacheRecord| rec.0).to_multiset(),
{
    let mut stmt = conn.prepare("SELECT path FROM hashes")?;
    let mut out = Vec::new();
    while let sqlite::State::Row = stmt.next()? {
        out.push(stmt.read::<String, _>(0)?);
    }
    Ok(out)
}

/// A failure of the backing store.
#[derive(Debug)]
pub enum CacheError {
    Storage(sqlite::Error),
}

/// The persistent path-to-hash store. Its view is the sequence of records it
/// holds, in insertion order.
pub struct Cache {
    conn: sqlite::Connection,
}

impl View for Cache {
    type V = Seq<CacheRecord>;

    closed spec fn view(&self) -> Seq<CacheRecord> {
        db_records(self.conn)
    }
}

impl Cache {
    /// Open or create the store at `path`. The view is whatever the store
    /// already held: a fresh file holds nothing, a store from an earlier run
    /// holds that run's records.
    pub fn new(path: &String) -> (r: Result<Cache, CacheError>) {
        match db_open(path) {
            Ok(conn) => Ok(Cache { conn }),
            Err(e) => Err(CacheError::Storage(e)),
        }
    }

    /// Point lookup: `Ok(Some(h))` only for a stored hash of this path,
    /// `Ok(None)` only when no record for the path exists. A storage failure
    /// is surfaced, never mistaken for a miss.
    pub fn query(&self, img_path: &String) -> (r: Result<Option<Vec<u8>>, CacheError>)
        requires
            path_fits(img_path@),
        ensures
            (r matches Ok(Some(h)) ==> record_for(self@, img_path@, h@)),
            (r matches Ok(None) ==> !has_record(self@, img_path@)),
    {
        match db_query(&self.conn, img_path) {
            Ok(o) => Ok(o),
            Err(e) => Err(CacheError::Storage(e)),
        }
    }

    /// Append-only insert: on success the store holds one more record, the
    /// given pair; on failure it is unchanged.
    pub fn insert(&mut self, img_path: &String, hash: &Vec<u8>) -> (r: Result<(), CacheError>)
        requires
            path_fits(img_path@),
            hash@.len() < 0x8000_0000,
        ensures
            r is Ok ==> final(self)@ == old(self)@.push((img_path@, hash@)),
            r is Err ==> final(self)@ == old(self)@,
    {
        match db_insert(&mut self.conn, img_path, hash) {
            Ok(o) => Ok(o),
            Err(e) => Err(CacheError::Storage(e)),
        }
    }

    /// Every stored path, one occurrence per record, in no promised order —
    /// promised whole only of a store whose paths are NUL-free, since the
    /// sqlite crate's text read stops at a NUL.
    pub fn paths(&self) -> (r: Result<Vec<String>, CacheError>)
        ensures
            r matches Ok(v) ==> paths_nul_free(self@) ==> v@.map_values(
                |p: String| p@,
            ).to_multiset() == self@.map_values(|rec: CacheRecord| rec.0).to_multiset(),
    {
        match db_paths(&self.conn) {
            Ok(v) => Ok(v),
            Err(e) => Err(CacheError::Storage(e)),
        }
    }

    /// Garbage collection: delete every record of each path in `missing`
    /// (the caller passes the stored paths whose backing file no longer
    /// exists). A failed delete is skipped, and its path is returned. The
    /// store afterwards holds exactly the records of the paths that were not
    /// deleted; the deleted paths cover every missing path that is not in
    /// the failed list.
    pub fn gc(&mut self, missing: &Vec<String>) -> (failed: Vec<String>)
        requires
            forall|i: int| 0 <= i < missing@.len() ==> path_fits((#[trigger] missing@[i])@),
        ensures
            exists|removed: Set<Seq<char>>|
                {
                    &&& #[trigger] removed.subset_of(path_set(missing@))
                    &&& path_set(missing@).difference(path_set(failed@)).subset_of(removed)
                    &&& final(self)@ == gc_spec(old(self)@, removed)
                },
            forall|i: int|
                0 <= i < failed@.len() ==> path_set(missing@).contains((#[trigger] failed@[i])@),
    {
        let ghost start = self@;
        let ghost mut removedg: Set<Seq<char>> = Set::empty();
        let mut failed: Vec<String> = Vec::new();
        let mut j: usize = 0;

        proof {
            lemma_gc_spec_empty(start);
        }

        while j < missing.len()
            invariant
                forall|i: int| 0 <= i < missing@.len() ==> path_fits((#[trigger] missing@[i])@),
                0 <= j <= missing@.len(),
                removedg.subset_of(path_set(missing@.take(j as int))),
                path_set(missing@.take(j as int)).difference(path_set(failed@)).subset_of(
                    removedg,
                ),
                self@ == gc_spec(start, removedg),
                forall|i: int|
                    0 <= i < failed@.len() ==> path_set(missing@).contains(
                        (#[trigger] failed@[i])@,
                    ),
            decreases missing@.len() - j,
        {
            let ghost prev_take = path_set(missing@.take(j as int));
            let m = &missing[j];
            proof {
                assert(path_set(missing@.take(j + 1)).contains(m@)) by {
                    assert(missing@.take(j + 1)[j as int] == missing@[j as int]);
                }
                assert(prev_take.subset_of(path_set(missing@.take(j + 1)))) by {
                    assert forall|q: Seq<char>| prev_take.contains(q) implies path_set(
                        missing@.take(j + 1),
                    ).contains(q) by {
                        let idx = choose|idx: int|
                            0 <= idx < j && (#[trigger] missing@.take(j as int)[idx])@ == q;
                        assert(missing@.take(j + 1)[idx]@ == q);
                    }
                }
                assert(path_set(missing@).contains(m@)) by {
                    assert(missing@[j as int]@ == m@);
                }
                assert(path_fits((missing@[j as int])@));
            }
            match db_delete(&mut self.conn, m) {
                Ok(_) => {
                    proof {
                        let prev = removedg;
                        removedg = removedg.insert(m@);
                        lemma_gc_spec_insert(start, prev, m@);
                        assert forall|q: Seq<char>|
                            path_set(missing@.take(j + 1)).difference(
                                path_set(failed@),
                            ).contains(q) implies removedg.contains(q) by {
                            let idx = choose|idx: int|
                                0 <= idx < j + 1 && (#[trigger] missing@.take(j + 1)[idx])@ == q;
                            if idx < j {
                                assert(missing@.take(j as int)[idx]@ == q);
                                assert(prev_take.contains(q));
                            } else {
                                assert(q == m@);
                            }
                        }
                    }
                },
                Err(_) => {
                    let ghost prev_failed = failed@;
                    failed.push(m.clone());
                    proof {
                        assert(path_set(failed@).contains(m@)) by {
                            assert(failed@[failed@.len() - 1]@ == m@);
                        }
                        assert(path_set(prev_failed).subset_of(path_set(failed@))) by {
                            assert forall|w: Seq<char>|
                                path_set(prev_failed).contains(w) implies path_set(
                                failed@,
                            ).contains(w) by {
                                let ix = choose|ix: int|
                                    0 <= ix < prev_failed.len() && (#[trigger] prev_failed[ix])@
                                        == w;
                                assert(failed@[ix]@ == w);
                            }
                        }
                        assert forall|q: Seq<char>|
                            path_set(missing@.take(j + 1)).difference(
                                path_set(failed@),
                            ).contains(q) implies removedg.contains(q) by {
                            let idx = choose|idx: int|
                                0 <= idx < j + 1 && (#[trigger] missing@.take(j + 1)[idx])@ == q;
                            if idx < j {
                                assert(missing@.take(j as int)[idx]@ == q);
                                assert(prev_take.contains(q));
                                if path_set(prev_failed).contains(q) {
                                    assert(path_set(failed@).contains(q));
                                }
                            } else {
                                assert(q == m@);
                            }
                        }
                    }
                },
            }
            j += 1;
        }
        proof {
            assert(missing@.take(missing@.len() as int) =~= missing@);
        }
        failed
    }
}

/// Collecting nothing keeps every record.
proof fn lemma_gc_spec_empty(records: Seq<CacheRecord>)
    ensures
        gc_spec(records, Set::empty()) == records,
    decreases records.len(),
{
    if records.len() > 0 {
        lemma_gc_spec_empty(records.drop_last());
        assert(records.drop_last().push(records.last()) =~= records);
    }
}

/// Deleting one more path after a collection is the same as collecting with
/// that path added.
proof fn lemma_gc_spec_insert(records: Seq<CacheRecord>, doomed: Set<Seq<char>>, p: Seq<char>)
    ensures
        without_path(gc_spec(records, doomed), p) == gc_spec(records, doomed.insert(p)),
    decreases records.len(),
{
    if records.len() > 0 {
        lemma_gc_spec_insert(records.drop_last(), doomed, p);
        let rest = gc_spec(records.drop_last(), doomed);
        if !doomed.contains(records.last().0) {
            assert(gc_spec(records, doomed) == rest.push(records.last()));
            assert(rest.push(records.last()).drop_last() =~= rest);
        }
    }
}

/// Cache round trip: storing a hash for a path that has no record yet and
/// looking the path up afterwards yields exactly that hash. A path that
/// already holds a record keeps it, so the lookup may then return the older
/// hash instead; such inputs are left out.
pub proof fn lemma_cache_round_trip(records: Seq<CacheRecord>, p: Seq<char>, h: Seq<u8>)
    requires
        !has_record(records, p),
    ensures
        record_for(records.push((p, h)), p, h),
        forall|h2: Seq<u8>| record_for(records.push((p, h)), p, h2) ==> h2 == h,
        has_record(records.push((p, h)), p),
{
    let stored = records.push((p, h));
    assert(stored[records.len() as int] == (p, h));
    assert forall|h2: Seq<u8>| record_for(stored, p, h2) implies h2 == h by {
        let i = choose|i: int| 0 <= i < stored.len() && #[trigger] stored[i] == (p, h2);
        if i < records.len() {
            assert(records[i].0 == p);
        }
    }
}

/// Garbage-collection correctness: a collected path has no record left, and
/// every record of a path that was not collected is retained exactly.
pub proof fn lemma_gc_correct(records: Seq<CacheRecord>, doomed: Set<Seq<char>>, p: Seq<char>)
    ensures
        doomed.contains(p) ==> !has_record(gc_spec(records, doomed), p),
        !doomed.contains(p) ==> forall|h: Seq<u8>|
            record_for(gc_spec(records, doomed), p, h) == record_for(records, p, h),
    decreases records.len(),
{
    if records.len() == 0 {
    } else {
        lemma_gc_correct(records.drop_last(), doomed, p);
        let rest = gc_spec(records.drop_last(), doomed);
        let whole = gc_spec(records, doomed);
        if doomed.contains(p) {
            if !doomed.contains(records.last().0) {
                assert forall|i: int| 0 <= i < whole.len() implies (#[trigger] whole[i]).0
                    != p by {
                    if i < whole.len() - 1 {
                        assert(rest[i].0 != p);
                    }
                }
            }
        } else {
            assert forall|h: Seq<u8>|
                record_for(whole, p, h) == record_for(records, p, h) by {
                lemma_record_for_push_equiv(records, doomed, p, h);
            }
        }
    }
}

/// Helper for `lemma_gc_correct`: one unfolding step of both sides.
proof fn lemma_record_for_push_equiv(
    records: Seq<CacheRecord>,
    doomed: Set<Seq<char>>,
    p: Seq<char>,
    h: Seq<u8>,
)
    requires
        records.len() > 0,
        !doomed.contains(p),
        record_for(gc_spec(records.drop_last(), doomed), p, h) == record_for(
            records.drop_last(),
            p,
            h,
        ),
    ensures
        record_for(gc_spec(records, doomed), p, h) == record_for(records, p, h),
{
    let rest = gc_spec(records.drop_last(), doomed);
    let whole = gc_spec(records, doomed);
    let last = records.last();
    if doomed.contains(last.0) {
        // whole == rest; the last record's path is doomed, so it is not p.
        if record_for(records, p, h) {
            let i = choose|i: int| 0 <= i < records.len() && #[trigger] records[i] == (p, h);
            assert(i < records.len() - 1);
            assert(records.drop_last()[i] == (p, h));
            assert(record_for(records.drop_last(), p, h));
        }
        if record_for(records.drop_last(), p, h) {
            let i = choose|i: int|
                0 <= i < records.len() - 1 && #[trigger] records.drop_last()[i] == (p, h);
            assert(records[i] == (p, h));
        }
    } else {
        // whole == rest.push(last)
        assert(whole == rest.push(last));
        if record_for(records, p, h) {
            let i = choose|i: int| 0 <= i < records.len() && #[trigger] records[i] == (p, h);
            if i < records.len() - 1 {
                assert(records.drop_last()[i] == (p, h));
                assert(record_for(records.drop_last(), p, h));
                let k = choose|k: int| 0 <= k < rest.len() && #[trigger] rest[k] == (p, h);
                assert(whole[k] == (p, h));
            } else {
                assert(whole[whole.len() - 1] == (p, h));
            }
        }
        if record_for(whole, p, h) {
            let i = choose|i: int| 0 <= i < whole.len() && #[trigger] whole[i] == (p, h);
            if i < whole.len() - 1 {
                assert(rest[i] == (p, h));
                assert(record_for(rest, p, h));
                let k = choose|k: int|
                    0 <= k < records.len() - 1 && #[trigger] records.drop_last()[k] == (p, h);
                assert(records[k] == (p, h));
            } else {
                assert(records[records.len() - 1] == (p, h));
            }
        }
    }
}

} // verus!
