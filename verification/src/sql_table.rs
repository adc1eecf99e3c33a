//! SQL backend: one posting table per hash table, held in a SQLite
//! database through `rusqlite`.
//!
//! The database is an outside collection; its contents are modelled by
//! the uninterpreted [`sql_rows`] and [`sql_state_blob`], and every
//! operation on it goes through a trusted wrapper whose contract states
//! what the call does to those contents.

use vstd::prelude::*;
use vstd::multiset::Multiset;
use crate::error::Error;
use crate::fx::Fx;

verus! {

#[verifier::external_type_specification]
#[verifier::external_body]
pub struct ExConnection(rusqlite::Connection);

/// The postings held by the database behind a connection: for each table
/// index, the multiset of `(codeword blob, id)` rows.
pub uninterp spec fn sql_rows(conn: rusqlite::Connection) -> Map<int, Multiset<(Seq<u8>, u32)>>;

/// The single serialized-hashers blob held by the database's state
/// table, if any.
pub uninterp spec fn sql_state_blob(conn: rusqlite::Connection) -> Option<Seq<u8>>;

/// Relies on rusqlite's `Connection::open`: opens (or creates) the
/// database file at `path`.  Nothing is promised of the contents.
#[verifier::external_body]
fn conn_open(path: &str) -> (r: Result<rusqlite::Connection, Error>)
    ensures
        r matches Err(e) ==> e == Error::SqlFailure,
{
    match rusqlite::Connection::open(path) {
        Ok(c) => Ok(c),
        Err(_) => Err(Error::SqlFailure),
    }
}

/// Relies on rusqlite's `Connection::open_in_memory`: a fresh database
/// holds no posting rows and no state blob.
#[verifier::external_body]
fn conn_open_memory() -> (r: Result<rusqlite::Connection, Error>)
    ensures
        match r {
            Ok(c) => (forall|t: int| sql_rows(c)[t] == Multiset::<(Seq<u8>, u32)>::empty())
                && sql_state_blob(c) is None,
            Err(e) => e == Error::SqlFailure,
        },
{
    match rusqlite::Connection::open_in_memory() {
        Ok(c) => Ok(c),
        Err(_) => Err(Error::SqlFailure),
    }
}

/// Relies on rusqlite's `Connection::execute_batch` running PRAGMA
/// statements: settings do not change the stored rows.
#[verifier::external_body]
fn sql_init_settings(conn: &mut rusqlite::Connection) -> (r: Result<(), Error>)
    ensures
        sql_rows(*final(conn)) == sql_rows(*old(conn)),
        sql_state_blob(*final(conn)) == sql_state_blob(*old(conn)),
        r matches Err(e) ==> e == Error::SqlFailure,
{
    let res = conn.execute_batch(
        "PRAGMA journal_mode = OFF;
    PRAGMA synchronous = OFF;
    PRAGMA cache_size = 100000;
    PRAGMA main.locking_mode=EXCLUSIVE;",
    );
    match res {
        Ok(()) => Ok(()),
        Err(_) => Err(Error::SqlFailure),
    }
}

/// Relies on rusqlite's `Connection::execute_batch` running
/// `CREATE TABLE IF NOT EXISTS hash_table_{t}`: creating a table adds no
/// rows.
#[verifier::external_body]
fn sql_make_table(conn: &mut rusqlite::Connection, t: usize) -> (r: Result<(), Error>)
    ensures
        sql_rows(*final(conn)) == sql_rows(*old(conn)),
        sql_state_blob(*final(conn)) == sql_state_blob(*old(conn)),
        r matches Err(e) ==> e == Error::SqlFailure,
{
    let res = conn.execute_batch(&format!(
        "CREATE TABLE IF NOT EXISTS hash_table_{} (
             hash       BLOB,
             id         INTEGER
            )",
        t,
    ));
    match res {
        Ok(()) => Ok(()),
        Err(_) => Err(Error::SqlFailure),
    }
}

/// Relies on rusqlite's `Connection::execute_batch` running
/// `BEGIN TRANSACTION`: opening a transaction changes no stored rows.
#[verifier::external_body]
fn sql_begin(conn: &mut rusqlite::Connection) -> (r: Result<(), Error>)
    ensures
        sql_rows(*final(conn)) == sql_rows(*old(conn)),
        sql_state_blob(*final(conn)) == sql_state_blob(*old(conn)),
        r matches Err(e) ==> e == Error::SqlFailure,
{
    match conn.execute_batch("BEGIN TRANSACTION;") {
        Ok(()) => Ok(()),
        Err(_) => Err(Error::SqlFailure),
    }
}

/// Relies on rusqlite's `Connection::execute_batch` running
/// `COMMIT TRANSACTION`: committing makes the rows durable and changes
/// none of them.
#[verifier::external_body]
fn sql_commit_tx(conn: &mut rusqlite::Connection) -> (r: Result<(), Error>)
    ensures
        sql_rows(*final(conn)) == sql_rows(*old(conn)),
        sql_state_blob(*final(conn)) == sql_state_blob(*old(conn)),
        r matches Err(e) ==> e == Error::SqlFailure,
{
    match conn.execute_batch("COMMIT TRANSACTION;") {
        Ok(()) => Ok(()),
        Err(_) => Err(Error::SqlFailure),
    }
}

/// Relies on rusqlite's `Statement::execute` running an `INSERT` on
/// `hash_table_{t}`: on success exactly the row `(blob, id)` is added to
/// that table; on failure nothing changes.
#[verifier::external_body]
fn sql_insert_posting(conn: &mut rusqlite::Connection, t: usize, blob: &Vec<u8>, id: u32) -> (r:
    Result<(), Error>)
    ensures
        match r {
            Ok(()) => sql_rows(*final(conn)) == sql_rows(*old(conn)).insert(
                t as int,
                sql_rows(*old(conn))[t as int].insert((blob@, id)),
            ) && sql_state_blob(*final(conn)) == sql_state_blob(*old(conn)),
            Err(e) => e == Error::SqlFailure && sql_rows(*final(conn)) == sql_rows(*old(conn))
                && sql_state_blob(*final(conn)) == sql_state_blob(*old(conn)),
        },
{
    let res = (|| -> rusqlite::Result<()> {
        let mut stmt = conn.prepare_cached(&format!(
            "INSERT INTO hash_table_{} (hash, id) VALUES (?1, ?2)",
            t,
        ))?;
        stmt.execute((blob.as_slice(), id))?;
        Ok(())
    })();
    match res {
        Ok(()) => Ok(()),
        Err(_) => Err(Error::SqlFailure),
    }
}

/// Relies on rusqlite's `Statement::query_map` running a `SELECT` on
/// `hash_table_{t}`: the returned ids are exactly those with a row under
/// the given codeword blob, in no promised order.
#[verifier::external_body]
fn sql_query_posting(conn: &rusqlite::Connection, t: usize, blob: &Vec<u8>) -> (r: Result<
    Vec<u32>,
    Error,
>)
    ensures
        match r {
            Ok(ids) => forall|id: u32|
                ids@.contains(id) <==> sql_rows(*conn)[t as int].count((blob@, id)) > 0,
            Err(e) => e == Error::SqlFailure,
        },
{
    let res = (|| -> rusqlite::Result<Vec<u32>> {
        let mut stmt = conn.prepare_cached(&format!(
            "SELECT (id) FROM hash_table_{} WHERE hash = ?",
            t,
        ))?;
        let rows = stmt.query_map((blob.as_slice(),), |row| row.get::<_, u32>(0))?;
        rows.collect::<rusqlite::Result<Vec<u32>>>()
    })();
    match res {
        Ok(ids) => Ok(ids),
        Err(_) => Err(Error::SqlFailure),
    }
}

/// Relies on rusqlite's `Connection::execute_batch` and
/// `Statement::execute`: creates the one-row `state` table and stores the
/// blob; fails (leaving the rows unchanged) when the table already
/// exists.
#[verifier::external_body]
fn sql_store_state(conn: &mut rusqlite::Connection, blob: &Vec<u8>) -> (r: Result<(), Error>)
    ensures
        sql_rows(*final(conn)) == sql_rows(*old(conn)),
        match r {
            Ok(()) => sql_state_blob(*final(conn)) == Some(blob@),
            Err(e) => e == Error::SqlFailure,
        },
{
    let res = (|| -> rusqlite::Result<()> {
        conn.execute_batch("CREATE TABLE state (hashers BLOB)")?;
        let mut stmt = conn.prepare("INSERT INTO state (hashers) VALUES (?1)")?;
        stmt.execute((blob.as_slice(),))?;
        Ok(())
    })();
    match res {
        Ok(()) => Ok(()),
        Err(_) => Err(Error::SqlFailure),
    }
}

/// Relies on rusqlite's `Statement::query_row` on the `state` table: on
/// success the returned bytes are the stored state blob.
#[verifier::external_body]
fn sql_load_state(conn: &rusqlite::Connection) -> (r: Result<Vec<u8>, Error>)
    ensures
        match r {
            Ok(b) => sql_state_blob(*conn) == Some(b@),
            Err(e) => e == Error::SqlFailure,
        },
{
    let res = (|| -> rusqlite::Result<Vec<u8>> {
        let mut stmt = conn.prepare("SELECT * FROM state;")?;
        stmt.query_row([], |row| row.get::<_, Vec<u8>>(0))
    })();
    match res {
        Ok(b) => Ok(b),
        Err(_) => Err(Error::SqlFailure),
    }
}

/// Relies on rusqlite's `backup::Backup`: only a `Done` from `step`
/// means the copy completed, so on success the new connection holds
/// exactly the rows and state of the source; a busy or locked database
/// is a failure.
#[verifier::external_body]
fn sql_backup_to_file(conn: &rusqlite::Connection, path: &str) -> (r: Result<
    rusqlite::Connection,
    Error,
>)
    ensures
        match r {
            Ok(c2) => sql_rows(c2) == sql_rows(*conn) && sql_state_blob(c2) == sql_state_blob(
                *conn,
            ),
            Err(e) => e == Error::SqlFailure,
        },
{
    let res = (|| -> rusqlite::Result<Option<rusqlite::Connection>> {
        let mut new_con = rusqlite::Connection::open(path)?;
        let done = {
            let backup = rusqlite::backup::Backup::new(conn, &mut new_con)?;
            matches!(backup.step(-1)?, rusqlite::backup::StepResult::Done)
        };
        Ok(if done { Some(new_con) } else { None })
    })();
    match res {
        Ok(Some(c)) => Ok(c),
        _ => Err(Error::SqlFailure),
    }
}

/// Relies on rusqlite's `backup::Backup`: only a `Done` from `step`
/// means the copy completed, so on success the new in-memory connection
/// holds exactly the rows and state of the source; a busy or locked
/// database is a failure.
#[verifier::external_body]
fn sql_backup_to_memory(conn: &rusqlite::Connection) -> (r: Result<rusqlite::Connection, Error>)
    ensures
        match r {
            Ok(c2) => sql_rows(c2) == sql_rows(*conn) && sql_state_blob(c2) == sql_state_blob(
                *conn,
            ),
            Err(e) => e == Error::SqlFailure,
        },
{
    let res = (|| -> rusqlite::Result<Option<rusqlite::Connection>> {
        let mut new_con = rusqlite::Connection::open_in_memory()?;
        let done = {
            let backup = rusqlite::backup::Backup::new(conn, &mut new_con)?;
            matches!(backup.step(-1)?, rusqlite::backup::StepResult::Done)
        };
        Ok(if done { Some(new_con) } else { None })
    })();
    match res {
        Ok(Some(c)) => Ok(c),
        _ => Err(Error::SqlFailure),
    }
}

/// The little-endian byte at position `i` of a codeword element.
pub open spec fn byte_at(x: i64, i: int) -> u8 {
    (((x as u64) >> (8 * i) as u64) & 0xff) as u8
}

/// The little-endian bytes of a codeword element.
pub open spec fn le8(x: i64) -> Seq<u8> {
    Seq::new(8, |i: int| byte_at(x, i))
}

/// The byte serialization of a codeword: the little-endian bytes of each
/// element in order.
pub open spec fn blob_of(code: Seq<i64>) -> Seq<u8>
    decreases code.len(),
{
    if code.len() == 0 {
        Seq::empty()
    } else {
        blob_of(code.drop_last()) + le8(code.last())
    }
}

/// Serialize a codeword as little-endian bytes.
pub fn code_to_blob(code: &[i64]) -> (r: Vec<u8>)
    ensures
        r@ == blob_of(code@),
{
    let mut out: Vec<u8> = Vec::new();
    let mut i: usize = 0;
    while i < code.len()
        invariant
            i <= code@.len(),
            out@ == blob_of(code@.take(i as int)),
        decreases code@.len() - i,
    {
        let b: u64 = code[i] as u64;
        let mut j: u64 = 0;
        while j < 8
            invariant
                j <= 8,
                b == code@[i as int] as u64,
                out@ == blob_of(code@.take(i as int)) + le8(code@[i as int]).take(j as int),
            decreases 8 - j,
        {
            proof {
                assert(((b >> (8 * j) as u64) & 0xff) <= 0xff) by (bit_vector);
                assert(le8(code@[i as int]).take(j + 1).drop_last() =~= le8(
                    code@[i as int],
                ).take(j as int));
            }
            let byte = ((b >> (8 * j)) & 0xff) as u8;
            out.push(byte);
            proof {
                assert(out@ =~= blob_of(code@.take(i as int)) + le8(code@[i as int]).take(j
                    + 1));
            }
            j += 1;
        }
        proof {
            assert(le8(code@[i as int]).take(8) =~= le8(code@[i as int]));
            assert(code@.take(i + 1).drop_last() =~= code@.take(i as int));
            assert(code@.take(i + 1).last() == code@[i as int]);
        }
        i += 1;
    }
    proof {
        assert(code@.take(code@.len() as int) =~= code@);
    }
    out
}

/// SQL backend: `L` posting tables and the id counter, over one
/// database connection.
pub struct SqlTable {
    /// The database connection.
    pub conn: rusqlite::Connection,
    /// Number of hash tables.
    pub n_hash_tables: usize,
    /// Whether only indexes are stored (always the case here: the SQL
    /// backend keeps no vector store).
    pub only_index_storage: bool,
    /// The next id to assign.
    pub counter: u32,
    /// Whether the running transaction has been committed.
    pub committed: bool,
}

impl SqlTable {
    /// The set of ids posted under codeword `c` in table `t`.
    pub open spec fn bucket(self, t: int, c: Seq<i64>) -> Set<u32> {
        Set::new(|id: u32| sql_rows(self.conn)[t].count((blob_of(c), id)) > 0)
    }

    /// A backend over an already open connection: applies the database
    /// settings, creates the posting tables and opens a transaction.
    pub fn init_from_conn(n_hash_tables: usize, only_index_storage: bool, conn:
        rusqlite::Connection) -> (r: Result<SqlTable, Error>)
        ensures
            match r {
                Ok(s) => {
                    &&& s.n_hash_tables == n_hash_tables
                    &&& s.only_index_storage == only_index_storage
                    &&& s.counter == 0
                    &&& !s.committed
                    &&& sql_rows(s.conn) == sql_rows(conn)
                    &&& sql_state_blob(s.conn) == sql_state_blob(conn)
                },
                Err(e) => e == Error::SqlFailure,
            },
    {
        let mut c = conn;
        match sql_init_settings(&mut c) {
            Ok(()) => (),
            Err(e) => {
                return Err(e);
            },
        }
        let mut t: usize = 0;
        while t < n_hash_tables
            invariant
                sql_rows(c) == sql_rows(conn),
                sql_state_blob(c) == sql_state_blob(conn),
            decreases n_hash_tables - t,
        {
            match sql_make_table(&mut c, t) {
                Ok(()) => (),
                Err(e) => {
                    return Err(e);
                },
            }
            t += 1;
        }
        match sql_begin(&mut c) {
            Ok(()) => (),
            Err(e) => {
                return Err(e);
            },
        }
        Ok(SqlTable {
            conn: c,
            n_hash_tables,
            only_index_storage,
            counter: 0,
            committed: false,
        })
    }

    /// A backend over the database file at `db_path`.
    pub fn new(n_hash_tables: usize, only_index_storage: bool, db_path: &str) -> (r: Result<
        SqlTable,
        Error,
    >)
        ensures
            match r {
                Ok(s) => s.n_hash_tables == n_hash_tables && s.only_index_storage
                    == only_index_storage && s.counter == 0,
                Err(e) => e == Error::SqlFailure,
            },
    {
        let conn = match conn_open(db_path) {
            Ok(c) => c,
            Err(e) => {
                return Err(e);
            },
        };
        SqlTable::init_from_conn(n_hash_tables, only_index_storage, conn)
    }

    /// A backend over a fresh in-memory database: every bucket starts
    /// empty.
    pub fn new_in_memory(n_hash_tables: usize, only_index_storage: bool) -> (r: Result<
        SqlTable,
        Error,
    >)
        ensures
            match r {
                Ok(s) => s.n_hash_tables == n_hash_tables && s.only_index_storage
                    == only_index_storage && s.counter == 0 && (forall|t: int, c: Seq<i64>|
                    #[trigger] s.bucket(t, c) == Set::<u32>::empty()) && sql_state_blob(s.conn)
                    is None,
                Err(e) => e == Error::SqlFailure,
            },
    {
        let conn = match conn_open_memory() {
            Ok(c) => c,
            Err(e) => {
                return Err(e);
            },
        };
        match SqlTable::init_from_conn(n_hash_tables, only_index_storage, conn) {
            Ok(s) => {
                proof {
                    assert forall|t: int, c: Seq<i64>| #[trigger]
                        s.bucket(t, c) == Set::<u32>::empty() by {
                        assert(sql_rows(s.conn)[t] == Multiset::<(Seq<u8>, u32)>::empty());
                        assert(s.bucket(t, c) =~= Set::<u32>::empty());
                    }
                }
                Ok(s)
            },
            Err(e) => Err(e),
        }
    }

    /// Insert a posting: add the next id under `hash` in table
    /// `hash_table`; on the last table advance the id counter.  A
    /// storage failure is surfaced unchanged and leaves the rows and the
    /// counter as they were.
    pub fn put(&mut self, hash: Vec<i64>, _d: &[Fx], hash_table: usize) -> (r: Result<
        u32,
        Error,
    >)
        requires
            old(self).counter < 0xffff_ffff,
        ensures
            final(self).n_hash_tables == old(self).n_hash_tables,
            final(self).only_index_storage == old(self).only_index_storage,
            final(self).committed == old(self).committed,
            sql_state_blob(final(self).conn) == sql_state_blob(old(self).conn),
            match r {
                Ok(idx) => {
                    &&& (hash_table as int) < old(self).n_hash_tables
                    &&& idx == old(self).counter
                    &&& final(self).bucket(hash_table as int, hash@) == old(self).bucket(
                        hash_table as int,
                        hash@,
                    ).insert(idx)
                    &&& forall|c: Seq<i64>|
                        blob_of(c) != blob_of(hash@) ==> #[trigger] final(self).bucket(
                            hash_table as int,
                            c,
                        ) == old(self).bucket(hash_table as int, c)
                    &&& forall|t: int, c: Seq<i64>|
                        t != hash_table ==> #[trigger] final(self).bucket(t, c) == old(
                            self,
                        ).bucket(t, c)
                    &&& final(self).counter as int == (if hash_table + 1 == old(
                        self,
                    ).n_hash_tables {
                        old(self).counter + 1
                    } else {
                        old(self).counter as int
                    })
                },
                Err(e) => final(self).counter == old(self).counter && sql_rows(
                    final(self).conn,
                ) == sql_rows(old(self).conn) && (e == Error::TableNotExist && (
                hash_table as int) >= old(self).n_hash_tables || e == Error::SqlFailure && (
                hash_table as int) < old(self).n_hash_tables),
            },
    {
        if hash_table >= self.n_hash_tables {
            return Err(Error::TableNotExist);
        }
        let idx = self.counter;
        let blob = code_to_blob(hash.as_slice());
        match sql_insert_posting(&mut self.conn, hash_table, &blob, idx) {
            Ok(()) => (),
            Err(e) => {
                return Err(e);
            },
        }
        if hash_table == self.n_hash_tables - 1 {
            self.counter = self.counter + 1;
        }
        proof {
            assert(self.bucket(hash_table as int, hash@) =~= old(self).bucket(
                hash_table as int,
                hash@,
            ).insert(idx));
            assert forall|c: Seq<i64>|
                blob_of(c) != blob_of(hash@) implies #[trigger] self.bucket(
                hash_table as int,
                c,
            ) == old(self).bucket(hash_table as int, c) by {
                assert(self.bucket(hash_table as int, c) =~= old(self).bucket(
                    hash_table as int,
                    c,
                ));
            }
            assert forall|t: int, c: Seq<i64>|
                t != hash_table implies #[trigger] self.bucket(t, c) == old(self).bucket(
                t,
                c,
            ) by {
                assert(self.bucket(t, c) =~= old(self).bucket(t, c));
            }
        }
        Ok(idx)
    }

    /// The ids posted under `hash` in table `hash_table`; the empty
    /// vector when the codeword has no rows.
    pub fn query_bucket(&self, hash: &[i64], hash_table: usize) -> (r: Result<Vec<u32>, Error>)
        ensures
            match r {
                Ok(ids) => (hash_table as int) < self.n_hash_tables && forall|id: u32|
                    ids@.contains(id) <==> self.bucket(hash_table as int, hash@).contains(id),
                Err(e) => e == Error::TableNotExist && (hash_table as int)
                    >= self.n_hash_tables || e == Error::SqlFailure,
            },
    {
        if hash_table >= self.n_hash_tables {
            return Err(Error::TableNotExist);
        }
        let blob = code_to_blob(hash);
        sql_query_posting(&self.conn, hash_table, &blob)
    }

    /// Commit the running transaction, once.
    pub fn commit(&mut self) -> (r: Result<(), Error>)
        ensures
            final(self).n_hash_tables == old(self).n_hash_tables,
            final(self).only_index_storage == old(self).only_index_storage,
            final(self).counter == old(self).counter,
            r is Ok ==> final(self).committed,
            r matches Err(e) ==> e == Error::SqlFailure,
            sql_rows(final(self).conn) == sql_rows(old(self).conn),
            sql_state_blob(final(self).conn) == sql_state_blob(old(self).conn),
    {
        if !self.committed {
            match sql_commit_tx(&mut self.conn) {
                Ok(()) => (),
                Err(e) => {
                    return Err(e);
                },
            }
            self.committed = true;
        }
        Ok(())
    }

    /// Open a fresh transaction.
    pub fn init_transaction(&mut self) -> (r: Result<(), Error>)
        ensures
            final(self).n_hash_tables == old(self).n_hash_tables,
            final(self).only_index_storage == old(self).only_index_storage,
            final(self).counter == old(self).counter,
            r is Ok ==> !final(self).committed,
            r matches Err(e) ==> e == Error::SqlFailure,
            sql_rows(final(self).conn) == sql_rows(old(self).conn),
            sql_state_blob(final(self).conn) == sql_state_blob(old(self).conn),
    {
        match sql_begin(&mut self.conn) {
            Ok(()) => (),
            Err(e) => {
                return Err(e);
            },
        }
        self.committed = false;
        Ok(())
    }

    /// Persist the serialized hashers; fails when a state blob already
    /// exists.
    pub fn store_hashers(&mut self, blob: &Vec<u8>) -> (r: Result<(), Error>)
        ensures
            final(self).n_hash_tables == old(self).n_hash_tables,
            final(self).only_index_storage == old(self).only_index_storage,
            final(self).counter == old(self).counter,
            sql_rows(final(self).conn) == sql_rows(old(self).conn),
            r is Ok ==> sql_state_blob(final(self).conn) == Some(blob@),
    {
        match self.commit() {
            Ok(()) => (),
            Err(e) => {
                return Err(e);
            },
        }
        match sql_store_state(&mut self.conn, blob) {
            Ok(()) => (),
            Err(e) => {
                return Err(e);
            },
        }
        self.init_transaction()
    }

    /// The persisted serialized hashers.
    pub fn load_hashers(&self) -> (r: Result<Vec<u8>, Error>)
        ensures
            r matches Ok(b) ==> sql_state_blob(self.conn) == Some(b@),
            r matches Err(e) ==> e == Error::SqlFailure,
    {
        sql_load_state(&self.conn)
    }

    /// Replace the connection by an in-memory copy of the database.
    pub fn to_mem(&mut self) -> (r: Result<(), Error>)
        ensures
            final(self).n_hash_tables == old(self).n_hash_tables,
            final(self).only_index_storage == old(self).only_index_storage,
            final(self).counter == old(self).counter,
            r is Ok ==> sql_rows(final(self).conn) == sql_rows(old(self).conn)
                && sql_state_blob(final(self).conn) == sql_state_blob(old(self).conn)
                && final(self).committed,
    {
        let new_con = match sql_backup_to_memory(&self.conn) {
            Ok(c) => c,
            Err(e) => {
                return Err(e);
            },
        };
        self.conn = new_con;
        self.committed = true;
        Ok(())
    }
}

/// SQL backend over an in-memory database, with a way to write it out to
/// a file.
pub struct SqlTableMem {
    /// The wrapped SQL backend.
    pub sql_table: SqlTable,
}

impl SqlTableMem {
    /// A backend over a fresh in-memory database.
    pub fn new(n_hash_tables: usize, only_index_storage: bool, _db_path: &str) -> (r: Result<
        SqlTableMem,
        Error,
    >)
        ensures
            match r {
                Ok(s) => s.sql_table.n_hash_tables == n_hash_tables
                    && s.sql_table.only_index_storage == only_index_storage
                    && s.sql_table.counter == 0 && (forall|t: int, c: Seq<i64>|
                    #[trigger] s.sql_table.bucket(t, c) == Set::<u32>::empty()),
                Err(e) => e == Error::SqlFailure,
            },
    {
        match SqlTable::new_in_memory(n_hash_tables, only_index_storage) {
            Ok(s) => Ok(SqlTableMem { sql_table: s }),
            Err(e) => Err(e),
        }
    }

    /// Write the database out to `db_path` and keep working on the copy.
    pub fn to_db(&mut self, db_path: &str) -> (r: Result<(), Error>)
        ensures
            final(self).sql_table.n_hash_tables == old(self).sql_table.n_hash_tables,
            final(self).sql_table.only_index_storage == old(self).sql_table.only_index_storage,
            final(self).sql_table.counter == old(self).sql_table.counter,
            r is Ok ==> sql_rows(final(self).sql_table.conn) == sql_rows(
                old(self).sql_table.conn,
            ),
    {
        let new_con = match sql_backup_to_file(&self.sql_table.conn, db_path) {
            Ok(c) => c,
            Err(e) => {
                return Err(e);
            },
        };
        self.sql_table.conn = new_con;
        self.sql_table.committed = true;
        Ok(())
    }
}


impl SqlTable {
    /// Insert one point's codewords, one per table, and return its id:
    /// the counter before the call.  A storage failure is surfaced; the
    /// id counter then stays where it was, though tables before the
    /// failing one keep their new row.
    pub fn put_all(&mut self, codes: &Vec<Vec<i64>>, d: &[Fx]) -> (r: Result<u32, Error>)
        requires
            old(self).counter < 0xffff_fffe,
            codes@.len() == old(self).n_hash_tables,
            1 <= old(self).n_hash_tables,
        ensures
            final(self).n_hash_tables == old(self).n_hash_tables,
            final(self).only_index_storage == old(self).only_index_storage,
            sql_state_blob(final(self).conn) == sql_state_blob(old(self).conn),
            match r {
                Ok(idx) => {
                    &&& idx == old(self).counter
                    &&& final(self).counter == old(self).counter + 1
                    &&& forall|t: int|
                        0 <= t < old(self).n_hash_tables ==> #[trigger] final(self).bucket(
                            t,
                            codes@[t]@,
                        ) == old(self).bucket(t, codes@[t]@).insert(idx)
                    &&& forall|t: int, c: Seq<i64>|
                        0 <= t < old(self).n_hash_tables && blob_of(c) != blob_of(codes@[t]@)
                            ==> #[trigger] final(self).bucket(t, c) == old(self).bucket(t, c)
                            || (exists|t2: int|
                            0 <= t2 < old(self).n_hash_tables && t2 != t && blob_of(c)
                                == blob_of(codes@[t2]@))
                },
                Err(e) => e == Error::SqlFailure && final(self).counter == old(self).counter,
            },
    {
        let ghost s0 = *self;
        let idx = self.counter;
        let n = self.n_hash_tables;
        let mut t: usize = 0;
        while t < n
            invariant
                s0 == *old(self),
                t <= n,
                n == s0.n_hash_tables,
                1 <= n,
                codes@.len() == n,
                s0.counter < 0xffff_fffe,
                idx == s0.counter,
                self.n_hash_tables == n,
                self.only_index_storage == s0.only_index_storage,
                self.committed == s0.committed,
                sql_state_blob(self.conn) == sql_state_blob(s0.conn),
                self.counter as int == (if t == n {
                    s0.counter + 1
                } else {
                    s0.counter as int
                }),
                forall|t2: int|
                    0 <= t2 < t ==> #[trigger] self.bucket(t2, codes@[t2]@) == s0.bucket(
                        t2,
                        codes@[t2]@,
                    ).insert(idx),
                forall|t2: int, c: Seq<i64>|
                    0 <= t2 < n && (forall|t3: int|
                        0 <= t3 < n ==> blob_of(c) != blob_of(#[trigger] codes@[t3]@))
                        ==> #[trigger] self.bucket(t2, c) == s0.bucket(t2, c),
                forall|t2: int, c: Seq<i64>|
                    t <= t2 < n ==> #[trigger] self.bucket(t2, c) == s0.bucket(t2, c),
            decreases n - t,
        {
            let code = crate::mem_table::copy_code(codes[t].as_slice());
            let res = self.put(code, d, t);
            match res {
                Ok(_) => (),
                Err(Error::TableNotExist) => {
                    proof {
                        assert(false);
                    }
                },
                Err(e) => {
                    return Err(e);
                },
            }
            t += 1;
        }
        proof {
            assert forall|t2: int, c: Seq<i64>|
                0 <= t2 < n && blob_of(c) != blob_of(codes@[t2]@) implies #[trigger] self.bucket(
                t2,
                c,
            ) == s0.bucket(t2, c) || (exists|t3: int|
                0 <= t3 < n && t3 != t2 && blob_of(c) == blob_of(codes@[t3]@)) by {
                if forall|t3: int|
                    0 <= t3 < n ==> blob_of(c) != blob_of(#[trigger] codes@[t3]@) {
                } else {
                    let t3 = choose|t3: int|
                        0 <= t3 < n && blob_of(c) == blob_of(#[trigger] codes@[t3]@);
                    assert(t3 != t2);
                }
            }
        }
        Ok(idx)
    }
}

/// The codeword element held by eight little-endian bytes.
pub open spec fn recompose8(s: Seq<u8>) -> i64 {
    ((s[0] as u64) | ((s[1] as u64) << 8) | ((s[2] as u64) << 16) | ((s[3] as u64) << 24) | ((
    s[4] as u64) << 32) | ((s[5] as u64) << 40) | ((s[6] as u64) << 48) | ((s[7] as u64)
        << 56)) as i64
}

/// Reading back the little-endian bytes of an element gives the element.
pub proof fn lemma_recompose_le8(x: i64)
    ensures
        recompose8(le8(x)) == x,
{
    let b = x as u64;
    assert(((b & 0xff) | (((b >> 8) & 0xff) << 8) | (((b >> 16) & 0xff) << 16) | (((b >> 24)
        & 0xff) << 24) | (((b >> 32) & 0xff) << 32) | (((b >> 40) & 0xff) << 40) | (((b >> 48)
        & 0xff) << 48) | (((b >> 56) & 0xff) << 56)) == b) by (bit_vector);
    assert((b >> 0) & 0xff == b & 0xff) by (bit_vector);
    assert((b >> 0) & 0xff <= 0xff && (b >> 8) & 0xff <= 0xff && (b >> 16) & 0xff <= 0xff && (b
        >> 24) & 0xff <= 0xff && (b >> 32) & 0xff <= 0xff && (b >> 40) & 0xff <= 0xff && (b
        >> 48) & 0xff <= 0xff && (b >> 56) & 0xff <= 0xff) by (bit_vector);
    assert(forall|i: int| 0 <= i < 8 ==> #[trigger] le8(x)[i] == byte_at(x, i));
    assert((x as u64) as i64 == x) by (bit_vector);
}

/// Deserialize a codeword from little-endian bytes; fails exactly when
/// the length is not a whole number of elements.
pub fn blob_to_code(blob: &[u8]) -> (r: Option<Vec<i64>>)
    ensures
        match r {
            Some(code) => blob@.len() % 8 == 0 && code@.len() == blob@.len() / 8 && forall|
                i: int,
            |
                0 <= i < code@.len() ==> #[trigger] code@[i] == recompose8(
                    blob@.subrange(8 * i, 8 * i + 8),
                ),
            None => blob@.len() % 8 != 0,
        },
{
    if blob.len() % 8 != 0 {
        return None;
    }
    let len = blob.len();
    let n = len / 8;
    proof {
        assert(blob@.len() == 8 * (blob@.len() / 8)) by (nonlinear_arith)
            requires
                blob@.len() % 8 == 0,
        ;
    }
    let mut out: Vec<i64> = Vec::new();
    let mut i: usize = 0;
    while i < n
        invariant
            i <= n,
            n == blob@.len() / 8,
            blob@.len() % 8 == 0,
            out@.len() == i,
            len == blob@.len(),
            8 * (n as int) <= blob@.len(),
            forall|j: int|
                0 <= j < i ==> #[trigger] out@[j] == recompose8(
                    blob@.subrange(8 * j, 8 * j + 8),
                ),
        decreases n - i,
    {
        proof {
            assert(8 * (i as int) + 8 <= blob@.len());
        }
        let base = 8 * i;
        let x: u64 = (blob[base] as u64) | ((blob[base + 1] as u64) << 8) | ((blob[base
            + 2] as u64) << 16) | ((blob[base + 3] as u64) << 24) | ((blob[base + 4] as u64)
            << 32) | ((blob[base + 5] as u64) << 40) | ((blob[base + 6] as u64) << 48) | ((
        blob[base + 7] as u64) << 56);
        proof {
            let chunk = blob@.subrange(8 * i, 8 * i + 8);
            assert(chunk[0] == blob@[8 * i] && chunk[1] == blob@[8 * i + 1] && chunk[2]
                == blob@[8 * i + 2] && chunk[3] == blob@[8 * i + 3] && chunk[4] == blob@[8 * i
                + 4] && chunk[5] == blob@[8 * i + 5] && chunk[6] == blob@[8 * i + 6] && chunk[7]
                == blob@[8 * i + 7]);
        }
        out.push(x as i64);
        i += 1;
    }
    Some(out)
}

/// Round trip: deserializing a serialized codeword gives the codeword
/// back, so byte equality of stored hashes coincides with codeword
/// equality.
pub proof fn lemma_blob_round_trip(code: Seq<i64>)
    ensures
        blob_of(code).len() == 8 * code.len(),
        blob_of(code).len() % 8 == 0,
        forall|i: int|
            0 <= i < code.len() ==> recompose8(
                #[trigger] blob_of(code).subrange(8 * i, 8 * i + 8),
            ) == code[i],
    decreases code.len(),
{
    if code.len() == 0 {
    } else {
        lemma_blob_round_trip(code.drop_last());
        let prev = blob_of(code.drop_last());
        assert(blob_of(code) == prev + le8(code.last()));
        assert forall|i: int|
            0 <= i < code.len() implies recompose8(
            #[trigger] blob_of(code).subrange(8 * i, 8 * i + 8),
        ) == code[i] by {
            if i < code.len() - 1 {
                assert(blob_of(code).subrange(8 * i, 8 * i + 8) =~= prev.subrange(
                    8 * i,
                    8 * i + 8,
                ));
            } else {
                assert(blob_of(code).subrange(8 * i, 8 * i + 8) =~= le8(code.last()));
                lemma_recompose_le8(code.last());
            }
        }
    }
}


/// The set of distinct codeword blobs with at least one row.
pub open spec fn blob_set(rows: Multiset<(Seq<u8>, u32)>) -> Set<Seq<u8>> {
    Set::new(|b: Seq<u8>| exists|id: u32| rows.count((b, id)) > 0)
}

/// The number of rows held under one codeword blob.
pub open spec fn blob_count(rows: Multiset<(Seq<u8>, u32)>, b: Seq<u8>) -> int {
    rows.filter(|p: (Seq<u8>, u32)| p.0 == b).len() as int
}

/// Every occupied blob of the table holds between `mn` and `mx` rows.
pub open spec fn bucket_size_bounds(rows: Multiset<(Seq<u8>, u32)>, mn: int, mx: int) -> bool {
    forall|b: Seq<u8>|
        #[trigger] blob_set(rows).contains(b) ==> mn <= blob_count(rows, b) <= mx
}

/// Relies on rusqlite's `Statement::query_row` over
/// `SELECT count(*), min(c), max(c) FROM (SELECT count(id) AS c FROM
/// hash_table_{t} GROUP BY hash)`: the group count is the number of
/// distinct blobs, and the smallest and largest group size bound every
/// blob's row count.  An empty table reports three zeros.
#[verifier::external_body]
fn sql_table_stats(conn: &rusqlite::Connection, t: usize) -> (r: Result<
    (usize, usize, usize),
    Error,
>)
    ensures
        match r {
            Ok((n, mn, mx)) => n == blob_set(sql_rows(*conn)[t as int]).len()
                && bucket_size_bounds(sql_rows(*conn)[t as int], mn as int, mx as int),
            Err(e) => e == Error::SqlFailure,
        },
{
    let res = (|| -> rusqlite::Result<(usize, usize, usize)> {
        let sql = format!("SELECT count(*), coalesce(min(c), 0), coalesce(max(c), 0) FROM (SELECT count(id) AS c FROM hash_table_{} GROUP BY hash)", t);
        let mut stmt = conn.prepare_cached(&sql)?;
        stmt.query_row((), |row| Ok((row.get::<_, i64>(0)? as usize, row.get::<_, i64>(1)? as usize, row.get::<_, i64>(2)? as usize)))
    })();
    match res {
        Ok(v) => Ok(v),
        Err(_) => Err(Error::SqlFailure),
    }
}

impl SqlTable {
    /// Collision statistics of one table: the number of occupied
    /// buckets, and bounds on the bucket sizes.
    pub fn bucket_stats(&self, hash_table: usize) -> (r: Result<(usize, usize, usize), Error>)
        ensures
            match r {
                Ok((n, mn, mx)) => (hash_table as int) < self.n_hash_tables && n == blob_set(
                    sql_rows(self.conn)[hash_table as int],
                ).len() && bucket_size_bounds(
                    sql_rows(self.conn)[hash_table as int],
                    mn as int,
                    mx as int,
                ),
                Err(e) => e == Error::TableNotExist && (hash_table as int)
                    >= self.n_hash_tables || e == Error::SqlFailure,
            },
    {
        if hash_table >= self.n_hash_tables {
            return Err(Error::TableNotExist);
        }
        sql_table_stats(&self.conn, hash_table)
    }
}

} // verus!
