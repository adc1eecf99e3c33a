//! The LSH engine: construction, insertion, query, update and deletion
//! over `L` hash tables, with optional multi-probe queries.

use vstd::prelude::*;
use crate::dist::raws_bounded;
use crate::error::{table_error_to_error, Error, HashTableError};
use crate::fx::Fx;
use crate::hash::{Hasher, MinHash, SignRandomProjections, INPUT_LIMIT, L2, MIPS};
use crate::mem_table::{position_of, MemoryTable};
use crate::multi_probe::{
    flip_code, l2_probe_seq, mips_probe_seq, swp_full,
};
use crate::rng::{create_rng, rng_next};
use crate::sql_table::{SqlTable, SqlTableMem};

verus! {

/// The storage backend of an index.
pub enum Backend {
    /// In-memory tables and vector store.
    Mem(MemoryTable),
    /// SQL tables over a database file.
    Sql(SqlTable),
    /// SQL tables over an in-memory database.
    SqlMem(SqlTableMem),
}

/// Which backend a builder will install.
#[derive(Clone, Copy, PartialEq, Eq, Structural, Debug)]
pub enum BackendKind {
    /// In-memory backend.
    Mem,
    /// SQL backend over a database file.
    Sql,
    /// SQL backend over an in-memory database.
    SqlMem,
}

impl Backend {
    /// The set of ids posted under codeword `c` in table `t`.
    pub open spec fn bucket(self, t: int, c: Seq<i64>) -> Set<u32> {
        match self {
            Backend::Mem(m) => m.bucket(t, c),
            Backend::Sql(s) => s.bucket(t, c),
            Backend::SqlMem(s) => s.sql_table.bucket(t, c),
        }
    }

    /// The next id the backend will assign.
    pub open spec fn counter(self) -> u32 {
        match self {
            Backend::Mem(m) => m.counter,
            Backend::Sql(s) => s.counter,
            Backend::SqlMem(s) => s.sql_table.counter,
        }
    }
}

/// A configured but not yet built index.
pub struct LshBuilder {
    /// Codeword length (`K`).
    pub n_projections: usize,
    /// Number of hash tables (`L`).
    pub n_hash_tables: usize,
    /// Dimension of the data points.
    pub dim: usize,
    /// Seed for the hashers; zero draws a seed from the operating system.
    pub seed: u64,
    /// Store only ids, not the data points.
    pub only_index_storage: bool,
    /// Whether queries use multi-probing.
    pub multi_probe: bool,
    /// Number of extra probes per query and table.
    pub multi_probe_budget: usize,
    /// Path of the database file for the SQL backend.
    pub db_path: String,
    /// Which backend to install.
    pub backend: BackendKind,
}

/// An LSH index: `L` seeded hashers over one storage backend.
pub struct LSH {
    /// Number of hash tables (`L`).
    pub n_hash_tables: usize,
    /// Codeword length (`K`).
    pub n_projections: usize,
    /// One hasher per table, all of one family.
    pub hashers: Vec<Hasher>,
    /// Dimension of the data points.
    pub dim: usize,
    /// The storage backend.
    pub hash_tables: Backend,
    /// Store only ids, not the data points.
    pub only_index_storage: bool,
    /// Whether queries use multi-probing.
    pub multi_probe: bool,
    /// Number of extra probes per query and table.
    pub multi_probe_budget: usize,
}

/// The first `len` values of an int sequence as codeword elements.
pub open spec fn ints_to_code(s: Seq<int>, len: nat) -> Seq<i64> {
    Seq::new(len, |p: int| s[p] as i64)
}

/// A tag telling the four hash families apart.
pub open spec fn family_of(h: Hasher) -> int {
    match h {
        Hasher::Srp(_) => 0,
        Hasher::L2(_) => 1,
        Hasher::Mips(_) => 2,
        Hasher::MinHash(_) => 3,
    }
}

impl LSH {
    /// The index is well formed: the hashers agree on family, codeword
    /// length and dimension, and the backend matches the configuration.
    pub open spec fn wf(self) -> bool {
        &&& 1 <= self.n_hash_tables
        &&& 1 <= self.n_projections <= 0x7fff_ffff
        &&& 1 <= self.dim
        &&& self.hashers@.len() == self.n_hash_tables
        &&& forall|i: int|
            0 <= i < self.hashers@.len() ==> (#[trigger] self.hashers@[i]).wf()
                && self.hashers@[i].k() == self.n_projections && self.hashers@[i].dim_spec()
                == self.dim
        &&& forall|i: int|
            0 <= i < self.hashers@.len() ==> family_of(#[trigger] self.hashers@[i]) == family_of(
                self.hashers@[0],
            )
        &&& match self.hash_tables {
            Backend::Mem(m) => {
                &&& m.wf()
                &&& m.n_tables() == self.n_hash_tables
                &&& m.only_index_storage == self.only_index_storage
                &&& (!self.only_index_storage ==> m.vec_store.map@.len() == m.counter)
                &&& (self.only_index_storage ==> m.vec_store.map@.len() == 0)
                &&& forall|t: int, c: Seq<i64>, id: u32|
                    0 <= t < m.n_tables() && #[trigger] m.bucket(t, c).contains(id) ==> id
                        < m.counter
            },
            Backend::Sql(s) => s.n_hash_tables == self.n_hash_tables,
            Backend::SqlMem(s) => s.sql_table.n_hash_tables == self.n_hash_tables,
        }
    }

    /// Every hasher is ready for insertion hashing (a MIPS hasher must be
    /// fitted).
    pub open spec fn put_ready(self) -> bool {
        forall|i: int|
            0 <= i < self.hashers@.len() ==> (#[trigger] self.hashers@[i]).put_ready()
    }

    /// There is room for one more id.
    pub open spec fn can_store(self) -> bool {
        self.hash_tables.counter() < 0xffff_fffe
    }

    /// Both indexes carry the same configuration and hashers.
    pub open spec fn same_config(self, other: LSH) -> bool {
        &&& self.n_hash_tables == other.n_hash_tables
        &&& self.n_projections == other.n_projections
        &&& self.dim == other.dim
        &&& self.hashers@ == other.hashers@
        &&& self.only_index_storage == other.only_index_storage
        &&& self.multi_probe == other.multi_probe
        &&& self.multi_probe_budget == other.multi_probe_budget
    }

    /// The insertion codeword of table `t` for point `v`.
    pub open spec fn put_code_at(self, v: Seq<Fx>, t: int) -> Seq<i64> {
        self.hashers@[t].put_code(v).unwrap()
    }

    /// The query codeword of table `t` for point `v`.
    pub open spec fn query_code_at(self, v: Seq<Fx>, t: int) -> Seq<i64> {
        self.hashers@[t].query_code(v).unwrap()
    }

    /// Every table's insertion codeword for `v` exists.
    pub open spec fn put_codes_ok(self, v: Seq<Fx>) -> bool {
        forall|t: int|
            0 <= t < self.hashers@.len() ==> (#[trigger] self.hashers@[t]).put_code(v) is Some
    }

    /// Every table's query codeword for `v` exists.
    pub open spec fn query_codes_ok(self, v: Seq<Fx>) -> bool {
        forall|t: int|
            0 <= t < self.hashers@.len() ==> (#[trigger] self.hashers@[t]).query_code(v)
                is Some
    }

    /// The union of the buckets of the first `t` tables under the query
    /// codewords of `v`.
    pub open spec fn single_union_upto(self, v: Seq<Fx>, t: int) -> Set<u32>
        decreases t,
    {
        if t <= 0 {
            Set::empty()
        } else {
            self.single_union_upto(v, t - 1) + self.hash_tables.bucket(
                t - 1,
                self.query_code_at(v, t - 1),
            )
        }
    }

    /// The single-probe query result for `v`: the union over all tables.
    pub open spec fn single_union(self, v: Seq<Fx>) -> Set<u32> {
        self.single_union_upto(v, self.n_hash_tables as int)
    }

    /// The probing codewords of hasher `t` for query `v`, absent when
    /// the hasher cannot produce them.
    pub open spec fn probes_of(self, v: Seq<Fx>, t: int) -> Option<Seq<Seq<i64>>> {
        match self.hashers@[t] {
            Hasher::Srp(s) => Some(
                seq![crate::hash::srp_code(s.hyperplanes@, v)] + Seq::new(
                    vstd::math::min(
                        self.multi_probe_budget as int,
                        swp_full(self.n_projections, 1).len() as int,
                    ) as nat,
                    |i: int| flip_code(
                        crate::hash::srp_code(s.hyperplanes@, v),
                        swp_full(self.n_projections, 1)[i],
                    ),
                ),
            ),
            Hasher::L2(h) => match l2_probe_seq(h, v, self.multi_probe_budget as nat) {
                Some(ints) => Some(
                    Seq::new(
                        ints.len(),
                        |i: int| ints_to_code(ints[i], self.n_projections as nat),
                    ),
                ),
                None => None,
            },
            Hasher::Mips(h) => match mips_probe_seq(h, v, self.multi_probe_budget as nat) {
                Some(ints) => Some(
                    Seq::new(
                        ints.len(),
                        |i: int| ints_to_code(ints[i], self.n_projections as nat),
                    ),
                ),
                None => None,
            },
            Hasher::MinHash(_) => None,
        }
    }

    /// Every table's probing codewords for `v` exist.
    pub open spec fn probes_ok(self, v: Seq<Fx>) -> bool {
        forall|t: int|
            0 <= t < self.hashers@.len() ==> (#[trigger] self.probes_of(v, t)) is Some
    }

    /// The union of the buckets of table `t` under the first `i` probing
    /// codewords.
    pub open spec fn probe_union_upto(self, v: Seq<Fx>, t: int, i: int) -> Set<u32>
        decreases i,
    {
        if i <= 0 {
            Set::empty()
        } else {
            self.probe_union_upto(v, t, i - 1) + self.hash_tables.bucket(
                t,
                self.probes_of(v, t).unwrap()[i - 1],
            )
        }
    }

    /// The multi-probe union of the first `t` tables.
    pub open spec fn multi_union_upto(self, v: Seq<Fx>, t: int) -> Set<u32>
        decreases t,
    {
        if t <= 0 {
            Set::empty()
        } else {
            self.multi_union_upto(v, t - 1) + self.probe_union_upto(
                v,
                t - 1,
                self.probes_of(v, t - 1).unwrap().len() as int,
            )
        }
    }

    /// The multi-probe query result for `v`.
    pub open spec fn multi_union(self, v: Seq<Fx>) -> Set<u32> {
        self.multi_union_upto(v, self.n_hash_tables as int)
    }

    /// The query result for `v` under the active probing mode.
    pub open spec fn query_result(self, v: Seq<Fx>) -> Set<u32> {
        if self.multi_probe {
            self.multi_union(v)
        } else {
            self.single_union(v)
        }
    }

    /// The admissible error outcomes of a bucket query: a length
    /// mismatch, a codeword or probe list that cannot be produced, or a
    /// storage failure of a SQL backend.  For the in-memory backend with
    /// producible codewords no error is admissible, so success is owed.
    pub open spec fn query_error(self, v: Seq<Fx>, e: Error) -> bool {
        ||| e == Error::ShapeMismatch && v.len() != self.dim
        ||| v.len() == self.dim && !self.multi_probe && !self.query_codes_ok(v) && (e
            == Error::HashOverflow || (e == Error::Failed && self.hashers@[0] is Mips))
        ||| v.len() == self.dim && self.multi_probe && !self.probes_ok(v) && (e
            == Error::HashOverflow || (e == Error::Failed && self.hashers@[0] is Mips) || e
            == Error::MultiProbeExhausted)
        ||| e == Error::SqlFailure && !(self.hash_tables is Mem) && v.len() == self.dim
    }

    /// A builder with the given codeword length, table count and
    /// dimension, with defaults: no seed, vectors stored, single-probe
    /// queries, in-memory backend.
    pub fn new(n_projections: usize, n_hash_tables: usize, dim: usize) -> (r: LshBuilder)
        ensures
            r.n_projections == n_projections,
            r.n_hash_tables == n_hash_tables,
            r.dim == dim,
            r.seed == 0,
            !r.only_index_storage,
            !r.multi_probe,
            r.multi_probe_budget == 16,
            r.backend == BackendKind::Mem,
            r.db_path@ == "./lsh.db3"@,
    {
        LshBuilder {
            n_projections,
            n_hash_tables,
            dim,
            seed: 0,
            only_index_storage: false,
            multi_probe: false,
            multi_probe_budget: 16,
            db_path: "./lsh.db3".to_owned(),
            backend: BackendKind::Mem,
        }
    }
}


/// The hasher-set shape accepted by the builders.
pub open spec fn hasher_set_ok(hs: Seq<Hasher>, l: int, k: int, dim: int, family: int) -> bool {
    &&& hs.len() == l
    &&& forall|i: int|
        0 <= i < hs.len() ==> (#[trigger] hs[i]).wf() && hs[i].k() == k && hs[i].dim_spec()
            == dim && family_of(hs[i]) == family && (family != 2 ==> hs[i].put_ready())
}

/// Persist freshly generated hashers in a SQL backend's state table, or,
/// when the database already carries a persisted set, load and validate
/// that one instead; the in-memory backend keeps the generated set.
fn attach_hashers(
    backend: &mut Backend,
    generated: Vec<Hasher>,
    l: usize,
    k: usize,
    dim: usize,
    family: u8,
) -> (r: Result<Vec<Hasher>, Error>)
    requires
        hasher_set_ok(generated@, l as int, k as int, dim as int, family as int),
        1 <= k <= 0x7fff_ffff,
        dim <= 0x1_0000_0000,
        l <= 0x1_0000_0000,
    ensures
        backend_frame(*old(backend), *final(backend)),
        match r {
            Ok(hs) => hasher_set_ok(hs@, l as int, k as int, dim as int, family as int),
            Err(e) => (e == Error::SqlFailure || e == Error::Failed) && !(*old(backend) is Mem),
        },
{
    match backend {
        Backend::Mem(_) => Ok(generated),
        Backend::Sql(s) => attach_hashers_sql(s, generated, l, k, dim, family),
        Backend::SqlMem(sm) => attach_hashers_sql(&mut sm.sql_table, generated, l, k, dim, family),
    }
}

/// The backend's observable state other than the persisted hasher blob
/// is unchanged.
pub open spec fn backend_frame(b0: Backend, b1: Backend) -> bool {
    match (b0, b1) {
        (Backend::Mem(m0), Backend::Mem(m1)) => m1 == m0,
        (Backend::Sql(s0), Backend::Sql(s1)) => s1.n_hash_tables == s0.n_hash_tables
            && s1.only_index_storage == s0.only_index_storage && s1.counter == s0.counter
            && crate::sql_table::sql_rows(s1.conn) == crate::sql_table::sql_rows(s0.conn),
        (Backend::SqlMem(s0), Backend::SqlMem(s1)) => s1.sql_table.n_hash_tables
            == s0.sql_table.n_hash_tables && s1.sql_table.only_index_storage
            == s0.sql_table.only_index_storage && s1.sql_table.counter == s0.sql_table.counter
            && crate::sql_table::sql_rows(s1.sql_table.conn) == crate::sql_table::sql_rows(
            s0.sql_table.conn,
        ),
        _ => false,
    }
}

/// The SQL half of `attach_hashers`.
fn attach_hashers_sql(
    s: &mut SqlTable,
    generated: Vec<Hasher>,
    l: usize,
    k: usize,
    dim: usize,
    family: u8,
) -> (r: Result<Vec<Hasher>, Error>)
    requires
        hasher_set_ok(generated@, l as int, k as int, dim as int, family as int),
        1 <= k <= 0x7fff_ffff,
        dim <= 0x1_0000_0000,
        l <= 0x1_0000_0000,
    ensures
        final(s).n_hash_tables == old(s).n_hash_tables,
        final(s).only_index_storage == old(s).only_index_storage,
        final(s).counter == old(s).counter,
        crate::sql_table::sql_rows(final(s).conn) == crate::sql_table::sql_rows(old(s).conn),
        match r {
            Ok(hs) => hasher_set_ok(hs@, l as int, k as int, dim as int, family as int),
            Err(e) => e == Error::SqlFailure || e == Error::Failed,
        },
{
    proof {
        assert forall|i: int|
            0 <= i < generated@.len() implies crate::codec::hasher_sizes_ok(
            #[trigger] generated@[i],
        ) by {
            let h = generated@[i];
            assert(h.wf() && h.k() == k && h.dim_spec() == dim);
            match h {
                Hasher::Srp(sh) => {},
                Hasher::L2(h2) => {},
                Hasher::Mips(m) => {
                    assert(m.hasher.dim == m.dim + m.m <= 0xffff_ffff);
                },
                Hasher::MinHash(mh) => {},
            }
        }
    }
    let blob = crate::codec::hashers_to_blob(&generated);
    match s.store_hashers(&blob) {
        Ok(()) => Ok(generated),
        Err(_) => {
            let b2 = match s.load_hashers() {
                Ok(b) => b,
                Err(e) => {
                    return Err(e);
                },
            };
            match crate::codec::hashers_from_blob(b2.as_slice()) {
                Some(hs2) => {
                    if crate::hash::check_hashers(&hs2, l, k, dim, family) {
                        Ok(hs2)
                    } else {
                        Err(Error::Failed)
                    }
                },
                None => Err(Error::Failed),
            }
        },
    }
}

impl LshBuilder {
    /// Set the seed of the hashers; zero draws one from the operating
    /// system.
    pub fn seed(self, seed: u64) -> (r: LshBuilder)
        ensures
            r == (LshBuilder { seed, ..self }),
    {
        LshBuilder { seed, ..self }
    }

    /// Store only ids; the caller keeps the mapping from ids to points.
    pub fn only_index(self) -> (r: LshBuilder)
        ensures
            r == (LshBuilder { only_index_storage: true, ..self }),
    {
        LshBuilder { only_index_storage: true, ..self }
    }

    /// Enable multi-probing with the given budget.
    pub fn multi_probe(self, budget: usize) -> (r: LshBuilder)
        ensures
            r == (LshBuilder { multi_probe: true, multi_probe_budget: budget, ..self }),
    {
        LshBuilder { multi_probe: true, multi_probe_budget: budget, ..self }
    }

    /// Disable multi-probing.
    pub fn base(self) -> (r: LshBuilder)
        ensures
            r == (LshBuilder { multi_probe: false, ..self }),
    {
        LshBuilder { multi_probe: false, ..self }
    }

    /// Set the database file for the SQL backend.
    pub fn set_database_file(self, path: &str) -> (r: LshBuilder)
        ensures
            r.n_projections == self.n_projections,
            r.n_hash_tables == self.n_hash_tables,
            r.dim == self.dim,
            r.seed == self.seed,
            r.only_index_storage == self.only_index_storage,
            r.multi_probe == self.multi_probe,
            r.multi_probe_budget == self.multi_probe_budget,
            r.backend == self.backend,
            r.db_path@ == path@,
    {
        let db_path = path.to_owned();
        LshBuilder { db_path, ..self }
    }

    /// Install the in-memory backend.
    pub fn mem(self) -> (r: LshBuilder)
        ensures
            r == (LshBuilder { backend: BackendKind::Mem, ..self }),
    {
        LshBuilder { backend: BackendKind::Mem, ..self }
    }

    /// Install the SQL backend over the configured database file.
    pub fn sql(self) -> (r: LshBuilder)
        ensures
            r == (LshBuilder { backend: BackendKind::Sql, ..self }),
    {
        LshBuilder { backend: BackendKind::Sql, ..self }
    }

    /// Install the SQL backend over an in-memory database.
    pub fn sql_mem(self) -> (r: LshBuilder)
        ensures
            r == (LshBuilder { backend: BackendKind::SqlMem, ..self }),
    {
        LshBuilder { backend: BackendKind::SqlMem, ..self }
    }

    /// The configuration is buildable.
    pub open spec fn valid(self) -> bool {
        &&& 1 <= self.n_hash_tables <= 0x1_0000_0000
        &&& 1 <= self.n_projections <= 0x7fff_ffff
        &&& 1 <= self.dim <= 0x7fff_ffff
    }

    /// The backend for this configuration.
    fn build_backend(&self) -> (r: Result<Backend, Error>)
        ensures
            match r {
                Ok(b) => {
                    &&& b.counter() == 0
                    &&& (b is Mem <==> self.backend == BackendKind::Mem)
                    &&& (b is Sql <==> self.backend == BackendKind::Sql)
                    &&& (b is SqlMem <==> self.backend == BackendKind::SqlMem)
                    &&& match b {
                        Backend::Mem(m) => m.wf() && m.n_tables() == self.n_hash_tables
                            && m.only_index_storage == self.only_index_storage
                            && m.vec_store.map@.len() == 0 && forall|t: int, c: Seq<i64>|
                            0 <= t < m.n_tables() ==> #[trigger] m.bucket(t, c) == Set::<
                                u32,
                            >::empty(),
                        Backend::Sql(s) => s.n_hash_tables == self.n_hash_tables
                            && s.only_index_storage == self.only_index_storage,
                        Backend::SqlMem(s) => s.sql_table.n_hash_tables == self.n_hash_tables
                            && s.sql_table.only_index_storage == self.only_index_storage,
                    }
                },
                Err(e) => e == Error::SqlFailure && self.backend != BackendKind::Mem,
            },
    {
        match self.backend {
            BackendKind::Mem => Ok(
                Backend::Mem(
                    MemoryTable::new(
                        self.n_hash_tables,
                        self.only_index_storage,
                        self.db_path.as_str(),
                    ),
                ),
            ),
            BackendKind::Sql => match SqlTable::new(
                self.n_hash_tables,
                self.only_index_storage,
                self.db_path.as_str(),
            ) {
                Ok(s) => Ok(Backend::Sql(s)),
                Err(e) => Err(e),
            },
            BackendKind::SqlMem => match SqlTableMem::new(
                self.n_hash_tables,
                self.only_index_storage,
                self.db_path.as_str(),
            ) {
                Ok(s) => Ok(Backend::SqlMem(s)),
                Err(e) => Err(e),
            },
        }
    }

    /// Build an index over the sign-random-projections family.
    pub fn srp(self) -> (r: Result<LSH, Error>)
        requires
            self.valid(),
        ensures
            match r {
                Ok(l) => {
                    &&& l.wf()
                    &&& l.put_ready()
                    &&& l.n_hash_tables == self.n_hash_tables
                    &&& l.n_projections == self.n_projections
                    &&& l.dim == self.dim
                    &&& l.only_index_storage == self.only_index_storage
                    &&& l.multi_probe == self.multi_probe
                    &&& l.multi_probe_budget == self.multi_probe_budget
                    &&& l.hashers@[0] is Srp
                    &&& l.hash_tables.counter() == 0
                    &&& (l.hash_tables is Mem <==> self.backend == BackendKind::Mem)
                    &&& (l.hash_tables is Sql <==> self.backend == BackendKind::Sql)
                    &&& (l.hash_tables is SqlMem <==> self.backend == BackendKind::SqlMem)
                },
                Err(e) => (e == Error::SqlFailure || e == Error::Failed) && self.backend
                    != BackendKind::Mem,
            },
    {
        let mut rng = create_rng(self.seed);
        let mut hashers: Vec<Hasher> = Vec::new();
        let mut i: usize = 0;
        while i < self.n_hash_tables
            invariant
                i <= self.n_hash_tables,
                self.valid(),
                hashers@.len() == i,
                forall|j: int|
                    0 <= j < i ==> (#[trigger] hashers@[j]).wf() && hashers@[j].k()
                        == self.n_projections && hashers@[j].dim_spec() == self.dim
                        && hashers@[j] is Srp && (0 != 2 ==> hashers@[j].put_ready()),
            decreases self.n_hash_tables - i,
        {
            let s = rng_next(&mut rng);
            let h = SignRandomProjections::new(self.n_projections, self.dim, s);
            hashers.push(Hasher::Srp(h));
            i += 1;
        }
        proof {
            assert forall|j: int|
                0 <= j < hashers@.len() implies family_of(#[trigger] hashers@[j]) == 0 by {}
        }
        let mut backend = match self.build_backend() {
            Ok(b) => b,
            Err(e) => {
                return Err(e);
            },
        };
        let hashers = match attach_hashers(
            &mut backend,
            hashers,
            self.n_hash_tables,
            self.n_projections,
            self.dim,
            0,
        ) {
            Ok(hs) => hs,
            Err(e) => {
                return Err(e);
            },
        };
        proof {
            assert(hashers@[0] is Srp);
        }
        Ok(LSH {
            n_hash_tables: self.n_hash_tables,
            n_projections: self.n_projections,
            hashers,
            dim: self.dim,
            hash_tables: backend,
            only_index_storage: self.only_index_storage,
            multi_probe: self.multi_probe,
            multi_probe_budget: self.multi_probe_budget,
        })
    }

    /// Build an index over the L2 family with slot width `r`.
    pub fn l2(self, r: Fx) -> (res: Result<LSH, Error>)
        requires
            self.valid(),
            0 < r.raw <= 0x8000_0000_0000,
        ensures
            match res {
                Ok(l) => {
                    &&& l.wf()
                    &&& l.put_ready()
                    &&& l.n_hash_tables == self.n_hash_tables
                    &&& l.n_projections == self.n_projections
                    &&& l.dim == self.dim
                    &&& l.only_index_storage == self.only_index_storage
                    &&& l.multi_probe == self.multi_probe
                    &&& l.multi_probe_budget == self.multi_probe_budget
                    &&& l.hashers@[0] is L2
                    &&& l.hash_tables.counter() == 0
                    &&& (l.hash_tables is Mem <==> self.backend == BackendKind::Mem)
                    &&& (l.hash_tables is Sql <==> self.backend == BackendKind::Sql)
                    &&& (l.hash_tables is SqlMem <==> self.backend == BackendKind::SqlMem)
                },
                Err(e) => (e == Error::SqlFailure || e == Error::Failed) && self.backend
                    != BackendKind::Mem,
            },
    {
        let mut rng = create_rng(self.seed);
        let mut hashers: Vec<Hasher> = Vec::new();
        let mut i: usize = 0;
        while i < self.n_hash_tables
            invariant
                i <= self.n_hash_tables,
                self.valid(),
                0 < r.raw <= 0x8000_0000_0000,
                hashers@.len() == i,
                forall|j: int|
                    0 <= j < i ==> (#[trigger] hashers@[j]).wf() && hashers@[j].k()
                        == self.n_projections && hashers@[j].dim_spec() == self.dim
                        && hashers@[j] is L2 && (1 != 2 ==> hashers@[j].put_ready()),
            decreases self.n_hash_tables - i,
        {
            let s = rng_next(&mut rng);
            let h = L2::new(self.dim, r, self.n_projections, s);
            hashers.push(Hasher::L2(h));
            i += 1;
        }
        proof {
            assert forall|j: int|
                0 <= j < hashers@.len() implies family_of(#[trigger] hashers@[j]) == 1 by {}
        }
        let mut backend = match self.build_backend() {
            Ok(b) => b,
            Err(e) => {
                return Err(e);
            },
        };
        let hashers = match attach_hashers(
            &mut backend,
            hashers,
            self.n_hash_tables,
            self.n_projections,
            self.dim,
            1,
        ) {
            Ok(hs) => hs,
            Err(e) => {
                return Err(e);
            },
        };
        proof {
            assert(hashers@[0] is L2);
        }
        Ok(LSH {
            n_hash_tables: self.n_hash_tables,
            n_projections: self.n_projections,
            hashers,
            dim: self.dim,
            hash_tables: backend,
            only_index_storage: self.only_index_storage,
            multi_probe: self.multi_probe,
            multi_probe_budget: self.multi_probe_budget,
        })
    }

    /// Build an index over the MIPS family; `fit` must be called before
    /// points are stored.
    pub fn mips(self, r: Fx, u: Fx, m: usize) -> (res: Result<LSH, Error>)
        requires
            self.valid(),
            0 < r.raw <= 0x8000_0000_0000,
            0 < u.raw < 65536,
            1 <= m,
            self.dim + m <= 0xffff_ffff,
        ensures
            match res {
                Ok(l) => {
                    &&& l.wf()
                    &&& l.n_hash_tables == self.n_hash_tables
                    &&& l.n_projections == self.n_projections
                    &&& l.dim == self.dim
                    &&& l.only_index_storage == self.only_index_storage
                    &&& l.multi_probe == self.multi_probe
                    &&& l.multi_probe_budget == self.multi_probe_budget
                    &&& l.hashers@[0] is Mips
                    &&& l.hash_tables.counter() == 0
                    &&& (l.hash_tables is Mem <==> self.backend == BackendKind::Mem)
                    &&& (l.hash_tables is Sql <==> self.backend == BackendKind::Sql)
                    &&& (l.hash_tables is SqlMem <==> self.backend == BackendKind::SqlMem)
                },
                Err(e) => (e == Error::SqlFailure || e == Error::Failed) && self.backend
                    != BackendKind::Mem,
            },
    {
        let mut rng = create_rng(self.seed);
        let mut hashers: Vec<Hasher> = Vec::new();
        let mut i: usize = 0;
        while i < self.n_hash_tables
            invariant
                i <= self.n_hash_tables,
                self.valid(),
                0 < r.raw <= 0x8000_0000_0000,
                0 < u.raw < 65536,
                1 <= m,
                self.dim + m <= 0xffff_ffff,
                hashers@.len() == i,
                forall|j: int|
                    0 <= j < i ==> (#[trigger] hashers@[j]).wf() && hashers@[j].k()
                        == self.n_projections && hashers@[j].dim_spec() == self.dim
                        && hashers@[j] is Mips && (2 != 2 ==> hashers@[j].put_ready()),
            decreases self.n_hash_tables - i,
        {
            let s = rng_next(&mut rng);
            let h = MIPS::new(self.dim, r, u, m, self.n_projections, s);
            hashers.push(Hasher::Mips(h));
            i += 1;
        }
        proof {
            assert forall|j: int|
                0 <= j < hashers@.len() implies family_of(#[trigger] hashers@[j]) == 2 by {}
        }
        let mut backend = match self.build_backend() {
            Ok(b) => b,
            Err(e) => {
                return Err(e);
            },
        };
        let hashers = match attach_hashers(
            &mut backend,
            hashers,
            self.n_hash_tables,
            self.n_projections,
            self.dim,
            2,
        ) {
            Ok(hs) => hs,
            Err(e) => {
                return Err(e);
            },
        };
        proof {
            assert(hashers@[0] is Mips);
        }
        Ok(LSH {
            n_hash_tables: self.n_hash_tables,
            n_projections: self.n_projections,
            hashers,
            dim: self.dim,
            hash_tables: backend,
            only_index_storage: self.only_index_storage,
            multi_probe: self.multi_probe,
            multi_probe_budget: self.multi_probe_budget,
        })
    }

    /// Build an index over the MinHash family.
    pub fn minhash(self) -> (r: Result<LSH, Error>)
        requires
            self.valid(),
        ensures
            match r {
                Ok(l) => {
                    &&& l.wf()
                    &&& l.put_ready()
                    &&& l.n_hash_tables == self.n_hash_tables
                    &&& l.n_projections == self.n_projections
                    &&& l.dim == self.dim
                    &&& l.only_index_storage == self.only_index_storage
                    &&& l.multi_probe == self.multi_probe
                    &&& l.multi_probe_budget == self.multi_probe_budget
                    &&& l.hashers@[0] is MinHash
                    &&& l.hash_tables.counter() == 0
                    &&& (l.hash_tables is Mem <==> self.backend == BackendKind::Mem)
                    &&& (l.hash_tables is Sql <==> self.backend == BackendKind::Sql)
                    &&& (l.hash_tables is SqlMem <==> self.backend == BackendKind::SqlMem)
                },
                Err(e) => (e == Error::SqlFailure || e == Error::Failed) && self.backend
                    != BackendKind::Mem,
            },
    {
        let mut rng = create_rng(self.seed);
        let mut hashers: Vec<Hasher> = Vec::new();
        let mut i: usize = 0;
        while i < self.n_hash_tables
            invariant
                i <= self.n_hash_tables,
                self.valid(),
                hashers@.len() == i,
                forall|j: int|
                    0 <= j < i ==> (#[trigger] hashers@[j]).wf() && hashers@[j].k()
                        == self.n_projections && hashers@[j].dim_spec() == self.dim
                        && hashers@[j] is MinHash && (3 != 2 ==> hashers@[j].put_ready()),
            decreases self.n_hash_tables - i,
        {
            let s = rng_next(&mut rng);
            let h = MinHash::new(self.n_projections, self.dim, s);
            hashers.push(Hasher::MinHash(h));
            i += 1;
        }
        proof {
            assert forall|j: int|
                0 <= j < hashers@.len() implies family_of(#[trigger] hashers@[j]) == 3 by {}
        }
        let mut backend = match self.build_backend() {
            Ok(b) => b,
            Err(e) => {
                return Err(e);
            },
        };
        let hashers = match attach_hashers(
            &mut backend,
            hashers,
            self.n_hash_tables,
            self.n_projections,
            self.dim,
            3,
        ) {
            Ok(hs) => hs,
            Err(e) => {
                return Err(e);
            },
        };
        proof {
            assert(hashers@[0] is MinHash);
        }
        Ok(LSH {
            n_hash_tables: self.n_hash_tables,
            n_projections: self.n_projections,
            hashers,
            dim: self.dim,
            hash_tables: backend,
            only_index_storage: self.only_index_storage,
            multi_probe: self.multi_probe,
            multi_probe_budget: self.multi_probe_budget,
        })
    }
}


/// Whether `ids` holds `id`.
fn ids_contain(ids: &Vec<u32>, id: u32) -> (r: bool)
    ensures
        r <==> ids@.contains(id),
{
    let mut j: usize = 0;
    while j < ids.len()
        invariant
            j <= ids@.len(),
            forall|x: int| 0 <= x < j ==> ids@[x] != id,
        decreases ids@.len() - j,
    {
        if ids[j] == id {
            proof {
                assert(ids@[j as int] == id);
            }
            return true;
        }
        j += 1;
    }
    false
}

/// Add every id of `more` that is not yet in `acc`.
fn union_into(acc: &mut Vec<u32>, more: &Vec<u32>)
    requires
        old(acc)@.no_duplicates(),
    ensures
        final(acc)@.no_duplicates(),
        final(acc)@.to_set() == old(acc)@.to_set() + more@.to_set(),
{
    let mut j: usize = 0;
    while j < more.len()
        invariant
            j <= more@.len(),
            acc@.no_duplicates(),
            acc@.to_set() == old(acc)@.to_set() + more@.take(j as int).to_set(),
        decreases more@.len() - j,
    {
        let id = more[j];
        let ghost pre = acc@;
        if !ids_contain(acc, id) {
            acc.push(id);
            proof {
                assert(acc@ == pre.push(id));
                crate::mem_table::lemma_to_set_push(pre, id);
                assert(acc@.no_duplicates()) by {
                    assert forall|x: int, y: int|
                        0 <= x < y < acc@.len() implies acc@[x] != acc@[y] by {
                        if y == acc@.len() - 1 {
                            assert(acc@[x] == pre[x]);
                            if pre[x] == id {
                                assert(pre.contains(id));
                            }
                        }
                    }
                }
            }
        } else {
            proof {
                assert(pre.to_set().contains(id));
                assert(acc@.to_set() =~= pre.to_set().insert(id));
            }
        }
        proof {
            assert(more@.take(j + 1) =~= more@.take(j as int).push(more@[j as int]));
            crate::mem_table::lemma_to_set_push(more@.take(j as int), more@[j as int]);
            assert(acc@.to_set() =~= old(acc)@.to_set() + more@.take(j + 1).to_set());
        }
        j += 1;
    }
    proof {
        assert(more@.take(more@.len() as int) =~= more@);
    }
}

impl LSH {
    /// The ids posted under `code` in table `t`; missing buckets give
    /// the empty vector.
    fn bucket_ids(&self, code: &[i64], t: usize) -> (r: Result<Vec<u32>, Error>)
        requires
            self.wf(),
            (t as int) < self.n_hash_tables,
        ensures
            match r {
                Ok(ids) => forall|id: u32|
                    ids@.contains(id) <==> self.hash_tables.bucket(t as int, code@).contains(
                        id,
                    ),
                Err(e) => e == Error::SqlFailure && !(self.hash_tables is Mem),
            },
    {
        match &self.hash_tables {
            Backend::Mem(m) => match m.query_bucket(code, t) {
                Ok(ids) => Ok(ids),
                Err(HashTableError::NotFound) => Ok(Vec::new()),
                Err(_) => {
                    proof {
                        assert(false);
                    }
                    Ok(Vec::new())
                },
            },
            Backend::Sql(s) => match s.query_bucket(code, t) {
                Ok(ids) => Ok(ids),
                Err(Error::TableNotExist) => {
                    proof {
                        assert(false);
                    }
                    Err(Error::SqlFailure)
                },
                Err(_) => Err(Error::SqlFailure),
            },
            Backend::SqlMem(sm) => match sm.sql_table.query_bucket(code, t) {
                Ok(ids) => Ok(ids),
                Err(Error::TableNotExist) => {
                    proof {
                        assert(false);
                    }
                    Err(Error::SqlFailure)
                },
                Err(_) => Err(Error::SqlFailure),
            },
        }
    }

    /// Store one point and return its id.  The codewords of all tables
    /// are computed first, so a hashing failure changes nothing.
    pub fn store_vec(&mut self, v: &[Fx]) -> (r: Result<u32, Error>)
        requires
            old(self).wf(),
            old(self).put_ready(),
            old(self).can_store(),
            raws_bounded(v@, INPUT_LIMIT as int),
        ensures
            final(self).wf(),
            final(self).same_config(*old(self)),
            final(self).hash_tables is Mem <==> old(self).hash_tables is Mem,
            final(self).hash_tables is Sql <==> old(self).hash_tables is Sql,
            match r {
                Ok(id) => {
                    &&& v@.len() == old(self).dim
                    &&& old(self).put_codes_ok(v@)
                    &&& id == old(self).hash_tables.counter()
                    &&& final(self).hash_tables.counter() == id + 1
                    &&& match (old(self).hash_tables, final(self).hash_tables) {
                        (Backend::Mem(m0), Backend::Mem(m1)) => {
                            &&& forall|t: int|
                                0 <= t < old(self).n_hash_tables ==> #[trigger] m1.bucket(
                                    t,
                                    old(self).put_code_at(v@, t),
                                ) == m0.bucket(t, old(self).put_code_at(v@, t)).insert(id)
                            &&& forall|t: int, c: Seq<i64>|
                                0 <= t < old(self).n_hash_tables && c != old(self).put_code_at(
                                    v@,
                                    t,
                                ) ==> #[trigger] m1.bucket(t, c) == m0.bucket(t, c)
                            &&& (!old(self).only_index_storage ==> m1.vec_store.map@.len()
                                == m0.vec_store.map@.len() + 1 && m1.vec_store.map@.last()@
                                == v@ && m1.vec_store.map@.take(m0.vec_store.map@.len() as int)
                                == m0.vec_store.map@)
                        },
                        (Backend::Sql(s0), Backend::Sql(s1)) => forall|t: int|
                            0 <= t < old(self).n_hash_tables ==> #[trigger] s1.bucket(
                                t,
                                old(self).put_code_at(v@, t),
                            ) == s0.bucket(t, old(self).put_code_at(v@, t)).insert(id),
                        (Backend::SqlMem(s0), Backend::SqlMem(s1)) => forall|t: int|
                            0 <= t < old(self).n_hash_tables ==> #[trigger] s1.sql_table.bucket(
                                t,
                                old(self).put_code_at(v@, t),
                            ) == s0.sql_table.bucket(t, old(self).put_code_at(v@, t)).insert(
                                id,
                            ),
                        _ => false,
                    }
                },
                Err(e) => (e == Error::ShapeMismatch && v@.len() != old(self).dim && *final(self) == *old(self)) || (v@.len() == old(self).dim && e == Error::HashOverflow
                    && !old(self).put_codes_ok(v@) && *final(self) == *old(self)) || (v@.len()
                    == old(self).dim && old(self).put_codes_ok(v@) && e == Error::SqlFailure
                    && !(old(self).hash_tables is Mem) && final(self).hash_tables.counter()
                    == old(self).hash_tables.counter()),
            },
    {
        if v.len() != self.dim {
            return Err(Error::ShapeMismatch);
        }
        let n = self.hashers.len();
        let mut codes: Vec<Vec<i64>> = Vec::new();
        let mut t: usize = 0;
        while t < n
            invariant
                t <= n,
                n == self.hashers@.len(),
                self.wf(),
                self.put_ready(),
                v@.len() == self.dim,
                raws_bounded(v@, INPUT_LIMIT as int),
                codes@.len() == t,
                forall|j: int|
                    0 <= j < t ==> (#[trigger] self.hashers@[j]).put_code(v@) == Some(
                        codes@[j]@,
                    ),
            decreases n - t,
        {
            let code = match self.hashers[t].hash_vec_put(v) {
                Ok(c) => c,
                Err(e) => {
                    proof {
                        assert(!self.put_codes_ok(v@));
                    }
                    return Err(e);
                },
            };
            codes.push(code);
            t += 1;
        }
        proof {
            assert(self.put_codes_ok(v@));
            assert forall|t2: int|
                0 <= t2 < self.n_hash_tables implies codes@[t2]@ == old(self).put_code_at(
                v@,
                t2,
            ) by {
                assert(self.hashers@[t2].put_code(v@) == Some(codes@[t2]@));
            }
        }
        let id = match &mut self.hash_tables {
            Backend::Mem(m) => m.put_all(&codes, v),
            Backend::Sql(s) => match s.put_all(&codes, v) {
                Ok(id) => id,
                Err(e) => {
                    return Err(e);
                },
            },
            Backend::SqlMem(sm) => match sm.sql_table.put_all(&codes, v) {
                Ok(id) => id,
                Err(e) => {
                    return Err(e);
                },
            },
        };
        Ok(id)
    }

    /// Store several points; ids are assigned in input order.
    pub fn store_vecs(&mut self, vs: &Vec<Vec<Fx>>) -> (r: Result<Vec<u32>, Error>)
        requires
            old(self).wf(),
            old(self).put_ready(),
            old(self).hash_tables.counter() + vs@.len() < 0xffff_fffe,
            forall|i: int|
                0 <= i < vs@.len() ==> raws_bounded((#[trigger] vs@[i])@, INPUT_LIMIT as int),
        ensures
            final(self).wf(),
            final(self).same_config(*old(self)),
            match r {
                Ok(ids) => {
                    &&& ids@.len() == vs@.len()
                    &&& forall|j: int|
                        0 <= j < ids@.len() ==> #[trigger] ids@[j] == old(self).hash_tables.counter() + j
                    &&& final(self).hash_tables.counter() == old(self).hash_tables.counter()
                        + vs@.len()
                },
                Err(e) => exists|j: int|
                    0 <= j < vs@.len() && ((e == Error::ShapeMismatch && (#[trigger] vs@[j])@.len()
                        != old(self).dim) || (vs@[j]@.len() == old(self).dim && e
                        == Error::HashOverflow && !old(self).put_codes_ok(vs@[j]@)) || (vs@[j]@.len()
                        == old(self).dim && old(self).put_codes_ok(vs@[j]@) && e
                        == Error::SqlFailure && !(old(self).hash_tables is Mem))),
            },
    {
        let ghost c0 = self.hash_tables.counter();
        match &mut self.hash_tables {
            Backend::Mem(m) => {
                m.increase_storage(vs.len());
            },
            _ => (),
        }
        proof {
            match (&old(self).hash_tables, &self.hash_tables) {
                (Backend::Mem(m0), Backend::Mem(m1)) => {
                    assert forall|t: int, c: Seq<i64>| true implies #[trigger] m1.bucket(t, c)
                        == m0.bucket(t, c) by {
                        assert(m1.hash_tables@ == m0.hash_tables@);
                        assert(m1.hash_tables@[t] == m0.hash_tables@[t]);
                    }
                },
                _ => {},
            }
        }
        let mut ids: Vec<u32> = Vec::new();
        let mut i: usize = 0;
        while i < vs.len()
            invariant
                i <= vs@.len(),
                self.wf(),
                self.put_ready(),
                self.same_config(*old(self)),
                self.hash_tables is Mem <==> old(self).hash_tables is Mem,
                c0 == old(self).hash_tables.counter(),
                c0 + vs@.len() < 0xffff_fffe,
                self.hash_tables.counter() == c0 + i,
                ids@.len() == i,
                forall|j: int| 0 <= j < i ==> #[trigger] ids@[j] == c0 + j,
                forall|j: int|
                    0 <= j < vs@.len() ==> raws_bounded((#[trigger] vs@[j])@, INPUT_LIMIT as int),
            decreases vs@.len() - i,
        {
            let ghost pre_call = *self;
            let id = match self.store_vec(vs[i].as_slice()) {
                Ok(id) => id,
                Err(e) => {
                    proof {
                        assert(pre_call.hashers@ == old(self).hashers@);
                        assert(pre_call.dim == old(self).dim);
                        if vs@[i as int]@.len() == old(self).dim {
                            assert forall|t: int|
                                0 <= t < old(self).hashers@.len() implies ((
                            #[trigger] old(self).hashers@[t]).put_code(vs@[i as int]@)
                                is Some) == (pre_call.hashers@[t].put_code(vs@[i as int]@)
                                is Some) by {
                                assert(old(self).hashers@[t] == pre_call.hashers@[t]);
                            }
                        }
                    }
                    return Err(e);
                },
            };
            ids.push(id);
            i += 1;
        }
        Ok(ids)
    }

    /// The ids in the buckets that `v` hashes to: the union over all
    /// tables, and with multi-probing also over all probed codewords.
    pub fn query_bucket_ids(&self, v: &[Fx]) -> (r: Result<Vec<u32>, Error>)
        requires
            self.wf(),
            raws_bounded(v@, INPUT_LIMIT as int),
            self.multi_probe ==> !(self.hashers@[0] is MinHash),
        ensures
            match r {
                Ok(ids) => {
                    &&& v@.len() == self.dim
                    &&& ids@.no_duplicates()
                    &&& ids@.to_set() == self.query_result(v@)
                    &&& (self.multi_probe ==> self.probes_ok(v@))
                    &&& (!self.multi_probe ==> self.query_codes_ok(v@))
                },
                Err(e) => self.query_error(v@, e),
            },
    {
        if v.len() != self.dim {
            return Err(Error::ShapeMismatch);
        }
        let n = self.hashers.len();
        let mut acc: Vec<u32> = Vec::new();
        if !self.multi_probe {
            let mut t: usize = 0;
            while t < n
                invariant
                    t <= n,
                    n == self.hashers@.len(),
                    self.wf(),
                    !self.multi_probe,
                    v@.len() == self.dim,
                    raws_bounded(v@, INPUT_LIMIT as int),
                    acc@.no_duplicates(),
                    acc@.to_set() == self.single_union_upto(v@, t as int),
                    forall|j: int|
                        0 <= j < t ==> (#[trigger] self.hashers@[j]).query_code(v@) is Some,
                decreases n - t,
            {
                let code = match self.hashers[t].hash_vec_query(v) {
                    Ok(c) => c,
                    Err(e) => {
                        proof {
                            assert(!self.query_codes_ok(v@));
                        }
                        return Err(e);
                    },
                };
                let ids = match self.bucket_ids(code.as_slice(), t) {
                    Ok(ids) => ids,
                    Err(e) => {
                        return Err(e);
                    },
                };
                proof {
                    assert(ids@.to_set() =~= self.hash_tables.bucket(t as int, code@)) by {
                        assert forall|id: u32| ids@.to_set().contains(id) implies
                            self.hash_tables.bucket(t as int, code@).contains(id) by {
                            assert(ids@.contains(id));
                        }
                        assert forall|id: u32|
                            self.hash_tables.bucket(t as int, code@).contains(id) implies
                            ids@.to_set().contains(id) by {
                            assert(ids@.contains(id));
                        }
                    }
                    assert(code@ == self.query_code_at(v@, t as int));
                }
                union_into(&mut acc, &ids);
                t += 1;
            }
            proof {
                assert(acc@.to_set() == self.query_result(v@));
            }
            Ok(acc)
        } else {
            let budget = self.multi_probe_budget;
            let mut t: usize = 0;
            while t < n
                invariant
                    t <= n,
                    n == self.hashers@.len(),
                    self.wf(),
                    self.multi_probe,
                    !(self.hashers@[0] is MinHash),
                    budget == self.multi_probe_budget,
                    v@.len() == self.dim,
                    raws_bounded(v@, INPUT_LIMIT as int),
                    acc@.no_duplicates(),
                    acc@.to_set() == self.multi_union_upto(v@, t as int),
                    forall|j: int|
                        0 <= j < t ==> (#[trigger] self.probes_of(v@, j)) is Some,
                decreases n - t,
            {
                let ghost gprobes = self.probes_of(v@, t as int);
                let probes: Vec<Vec<i64>> = match &self.hashers[t] {
                    Hasher::Srp(sh) => {
                        let ps = match sh.step_wise_probe(v, budget, self.n_projections) {
                            Ok(ps) => ps,
                            Err(e) => {
                                proof {
                                    assert(false);
                                }
                                return Err(e);
                            },
                        };
                        proof {
                            assert(gprobes is Some);
                            let base = crate::hash::srp_code(sh.hyperplanes@, v@);
                            let flips = Seq::new(
                                vstd::math::min(
                                    budget as int,
                                    swp_full(self.n_projections, 1).len() as int,
                                ) as nat,
                                |i: int| flip_code(base, swp_full(self.n_projections, 1)[i]),
                            );
                            assert(gprobes.unwrap() == seq![base] + flips);
                            assert(ps@.len() == gprobes.unwrap().len());
                            assert forall|i: int|
                                0 <= i < ps@.len() implies (#[trigger] ps@[i])@
                                == gprobes.unwrap()[i] by {
                                if i == 0 {
                                    assert(gprobes.unwrap()[0] == base);
                                } else {
                                    assert(gprobes.unwrap()[i] == flips[i - 1]);
                                    assert(ps@[i]@ == flip_code(
                                        base,
                                        swp_full(self.n_projections, 1)[i - 1],
                                    ));
                                }
                            }
                        }
                        ps
                    },
                    Hasher::L2(h) => {
                        let ps = match h.query_directed_probe(v, budget) {
                            Ok(ps) => ps,
                            Err(e) => {
                                proof {
                                    assert(l2_probe_seq(*h, v@, budget as nat) is None);
                                    assert(self.probes_of(v@, t as int) is None);
                                    assert(!self.probes_ok(v@));
                                }
                                return Err(e);
                            },
                        };
                        proof {
                            assert(gprobes is Some);
                            let ints = l2_probe_seq(*h, v@, budget as nat).unwrap();
                            assert(ps@.len() == gprobes.unwrap().len());
                            assert forall|i: int|
                                0 <= i < ps@.len() implies (#[trigger] ps@[i])@
                                == gprobes.unwrap()[i] by {
                                assert(gprobes.unwrap()[i] == ints_to_code(
                                    ints[i],
                                    self.n_projections as nat,
                                ));
                                assert(ps@[i]@ =~= ints_to_code(
                                    ints[i],
                                    self.n_projections as nat,
                                ));
                            }
                        }
                        ps
                    },
                    Hasher::Mips(h) => {
                        let ps = match h.query_directed_probe(v, budget) {
                            Ok(ps) => ps,
                            Err(e) => {
                                proof {
                                    assert(mips_probe_seq(*h, v@, budget as nat) is None);
                                    assert(self.probes_of(v@, t as int) is None);
                                    assert(!self.probes_ok(v@));
                                    assert(family_of(self.hashers@[t as int]) == family_of(
                                        self.hashers@[0],
                                    ));
                                    assert(self.hashers@[0] is Mips);
                                }
                                return Err(e);
                            },
                        };
                        proof {
                            assert(gprobes is Some);
                            let ints = mips_probe_seq(*h, v@, budget as nat).unwrap();
                            assert(ps@.len() == budget + 1);
                            assert(ints.len() == budget + 1) by {
                                assert(mips_probe_seq(*h, v@, budget as nat) == l2_probe_seq(
                                    h.hasher,
                                    crate::hash::mips_query_vec(*h, v@),
                                    budget as nat,
                                ));
                                crate::multi_probe::lemma_l2_probe_len(
                                    h.hasher,
                                    crate::hash::mips_query_vec(*h, v@),
                                    budget as nat,
                                );
                            }
                            assert(ps@.len() == gprobes.unwrap().len());
                            assert forall|i: int|
                                0 <= i < ps@.len() implies (#[trigger] ps@[i])@
                                == gprobes.unwrap()[i] by {
                                assert(gprobes.unwrap()[i] == ints_to_code(
                                    ints[i],
                                    self.n_projections as nat,
                                ));
                                assert(ps@[i]@ =~= ints_to_code(
                                    ints[i],
                                    self.n_projections as nat,
                                ));
                            }
                        }
                        ps
                    },
                    Hasher::MinHash(_) => {
                        proof {
                            assert(family_of(self.hashers@[t as int]) == family_of(
                                self.hashers@[0],
                            ));
                            assert(false);
                        }
                        return Err(Error::Failed);
                    },
                };
                let np = probes.len();
                let mut i: usize = 0;
                while i < np
                    invariant
                        i <= np,
                        t < n,
                        n == self.hashers@.len(),
                        self.wf(),
                        gprobes == self.probes_of(v@, t as int),
                        gprobes is Some,
                        np == gprobes.unwrap().len(),
                        v@.len() == self.dim,
                        self.multi_probe,
                        probes@.len() == np,
                        forall|x: int|
                            0 <= x < np ==> (#[trigger] probes@[x])@ == gprobes.unwrap()[x],
                        acc@.no_duplicates(),
                        acc@.to_set() == self.multi_union_upto(v@, t as int)
                            + self.probe_union_upto(v@, t as int, i as int),
                    decreases np - i,
                {
                    let ids = match self.bucket_ids(probes[i].as_slice(), t) {
                        Ok(ids) => ids,
                        Err(e) => {
                            return Err(e);
                        },
                    };
                    proof {
                        assert(ids@.to_set() =~= self.hash_tables.bucket(
                            t as int,
                            probes@[i as int]@,
                        )) by {
                            assert forall|id: u32| ids@.to_set().contains(id) implies
                                self.hash_tables.bucket(t as int, probes@[i as int]@).contains(
                                id,
                            ) by {
                                assert(ids@.contains(id));
                            }
                            assert forall|id: u32|
                                self.hash_tables.bucket(t as int, probes@[i as int]@).contains(
                                id,
                            ) implies ids@.to_set().contains(id) by {
                                assert(ids@.contains(id));
                            }
                        }
                    }
                    union_into(&mut acc, &ids);
                    proof {
                        assert(acc@.to_set() =~= self.multi_union_upto(v@, t as int)
                            + self.probe_union_upto(v@, t as int, i + 1));
                    }
                    i += 1;
                }
                proof {
                    assert(acc@.to_set() =~= self.multi_union_upto(v@, t + 1));
                }
                t += 1;
            }
            proof {
                assert(acc@.to_set() == self.query_result(v@));
            }
            Ok(acc)
        }
    }
}


/// The returned points are exactly the stored points of the result ids:
/// every returned point is some result id's stored point, and every
/// result id's stored point is returned.
pub open spec fn points_of(m: MemoryTable, result: Set<u32>, ps: Seq<Vec<Fx>>) -> bool {
    exists|ids: Seq<u32>|
        (#[trigger] ids.to_set()) == result && ps.len() == ids.len() && (forall|x: int|
            0 <= x < ps.len() ==> (#[trigger] ps[x])@ == m.vec_store.map@[ids[x] as int]@)
}

/// Every id in the single-probe union of an in-memory index is an
/// assigned id.
proof fn lemma_single_union_bound(l: LSH, v: Seq<Fx>, t: int)
    requires
        l.wf(),
        l.hash_tables is Mem,
        0 <= t <= l.n_hash_tables,
    ensures
        forall|id: u32|
            #[trigger] l.single_union_upto(v, t).contains(id) ==> id
                < l.hash_tables.counter(),
    decreases t,
{
    if t <= 0 {
    } else {
        lemma_single_union_bound(l, v, t - 1);
        match l.hash_tables {
            Backend::Mem(m) => {
                assert forall|id: u32|
                    #[trigger] l.single_union_upto(v, t).contains(id) implies id < m.counter by {
                    if l.single_union_upto(v, t - 1).contains(id) {
                    } else {
                        assert(m.bucket(t - 1, l.query_code_at(v, t - 1)).contains(id));
                    }
                }
            },
            _ => {},
        }
    }
}

/// Every id in a probe union of an in-memory index is an assigned id.
proof fn lemma_probe_union_bound(l: LSH, v: Seq<Fx>, t: int, i: int)
    requires
        l.wf(),
        l.hash_tables is Mem,
        0 <= t < l.n_hash_tables,
        0 <= i,
    ensures
        forall|id: u32|
            #[trigger] l.probe_union_upto(v, t, i).contains(id) ==> id
                < l.hash_tables.counter(),
    decreases i,
{
    if i <= 0 {
    } else {
        lemma_probe_union_bound(l, v, t, i - 1);
        match l.hash_tables {
            Backend::Mem(m) => {
                assert forall|id: u32|
                    #[trigger] l.probe_union_upto(v, t, i).contains(id) implies id
                    < m.counter by {
                    if l.probe_union_upto(v, t, i - 1).contains(id) {
                    } else {
                        assert(m.bucket(t, l.probes_of(v, t).unwrap()[i - 1]).contains(id));
                    }
                }
            },
            _ => {},
        }
    }
}

/// Every id in the multi-probe union of an in-memory index is an
/// assigned id.
proof fn lemma_multi_union_bound(l: LSH, v: Seq<Fx>, t: int)
    requires
        l.wf(),
        l.hash_tables is Mem,
        0 <= t <= l.n_hash_tables,
    ensures
        forall|id: u32|
            #[trigger] l.multi_union_upto(v, t).contains(id) ==> id < l.hash_tables.counter(),
    decreases t,
{
    if t <= 0 {
    } else {
        lemma_multi_union_bound(l, v, t - 1);
        lemma_probe_union_bound(l, v, t - 1, l.probes_of(v, t - 1).unwrap().len() as int);
        assert forall|id: u32|
            #[trigger] l.multi_union_upto(v, t).contains(id) implies id
            < l.hash_tables.counter() by {
            if l.multi_union_upto(v, t - 1).contains(id) {
            } else {
                assert(l.probe_union_upto(v, t - 1, l.probes_of(v, t - 1).unwrap().len() as int)
                    .contains(id));
            }
        }
    }
}

impl LSH {
    /// The stored points in the buckets that `v` hashes to; only the
    /// in-memory backend can resolve ids to points.
    pub fn query_bucket(&self, v: &[Fx]) -> (r: Result<Vec<Vec<Fx>>, Error>)
        requires
            self.wf(),
            raws_bounded(v@, INPUT_LIMIT as int),
            self.multi_probe ==> !(self.hashers@[0] is MinHash),
        ensures
            match r {
                Ok(ps) => {
                    &&& v@.len() == self.dim
                    &&& !self.only_index_storage
                    &&& match self.hash_tables {
                        Backend::Mem(m) => points_of(m, self.query_result(v@), ps@),
                        _ => false,
                    }
                },
                Err(e) => (e == Error::Failed && self.only_index_storage)
                    || (!self.only_index_storage && self.query_error(v@, e)) || (
                !self.only_index_storage && e == Error::NotImplemented && !(self.hash_tables
                    is Mem)),
            },
    {
        if self.only_index_storage {
            return Err(Error::Failed);
        }
        let ids = match self.query_bucket_ids(v) {
            Ok(ids) => ids,
            Err(e) => {
                return Err(e);
            },
        };
        match &self.hash_tables {
            Backend::Mem(m) => {
                proof {
                    if self.multi_probe {
                        lemma_multi_union_bound(*self, v@, self.n_hash_tables as int);
                    } else {
                        lemma_single_union_bound(*self, v@, self.n_hash_tables as int);
                    }
                }
                let mut out: Vec<Vec<Fx>> = Vec::new();
                let mut j: usize = 0;
                while j < ids.len()
                    invariant
                        j <= ids@.len(),
                        self.wf(),
                        self.hash_tables is Mem,
                        self.hash_tables == Backend::Mem(*m),
                        !self.only_index_storage,
                        ids@.to_set() == self.query_result(v@),
                        forall|id: u32|
                            #[trigger] self.query_result(v@).contains(id) ==> id < m.counter,
                        out@.len() == j,
                        forall|x: int|
                            0 <= x < j ==> (#[trigger] out@[x])@ == m.vec_store.map@[
                                ids@[x] as int]@,
                    decreases ids@.len() - j,
                {
                    proof {
                        assert(ids@.contains(ids@[j as int]));
                        assert(ids@.to_set().contains(ids@[j as int]));
                    }
                    let d = match m.idx_to_datapoint(ids[j]) {
                        Ok(d) => d,
                        Err(_) => {
                            proof {
                                assert(false);
                            }
                            return Err(Error::Failed);
                        },
                    };
                    out.push(d);
                    j += 1;
                }
                proof {
                    assert(points_of(*m, self.query_result(v@), out@)) by {
                        assert(ids@.to_set() == self.query_result(v@) && out@.len()
                            == ids@.len() && (forall|x: int|
                            0 <= x < out@.len() ==> (#[trigger] out@[x])@ == m.vec_store.map@[
                                ids@[x] as int]@));
                    }
                }
                Ok(out)
            },
            _ => Err(Error::NotImplemented),
        }
    }

    /// The union query per input point.
    pub fn query_bucket_ids_batch(&self, vs: &Vec<Vec<Fx>>) -> (r: Result<Vec<Vec<u32>>, Error>)
        requires
            self.wf(),
            self.multi_probe ==> !(self.hashers@[0] is MinHash),
            forall|i: int|
                0 <= i < vs@.len() ==> raws_bounded((#[trigger] vs@[i])@, INPUT_LIMIT as int),
        ensures
            match r {
                Ok(rs) => rs@.len() == vs@.len() && forall|j: int|
                    0 <= j < rs@.len() ==> (#[trigger] rs@[j])@.to_set() == self.query_result(
                        vs@[j]@,
                    ) && rs@[j]@.no_duplicates(),
                Err(e) => exists|j: int|
                    0 <= j < vs@.len() && self.query_error((#[trigger] vs@[j])@, e),
            },
    {
        let mut out: Vec<Vec<u32>> = Vec::new();
        let mut i: usize = 0;
        while i < vs.len()
            invariant
                i <= vs@.len(),
                self.wf(),
                self.multi_probe ==> !(self.hashers@[0] is MinHash),
                forall|j: int|
                    0 <= j < vs@.len() ==> raws_bounded((#[trigger] vs@[j])@, INPUT_LIMIT as int),
                out@.len() == i,
                forall|j: int|
                    0 <= j < i ==> (#[trigger] out@[j])@.to_set() == self.query_result(vs@[j]@)
                        && out@[j]@.no_duplicates(),
            decreases vs@.len() - i,
        {
            let ids = match self.query_bucket_ids(vs[i].as_slice()) {
                Ok(ids) => ids,
                Err(e) => {
                    return Err(e);
                },
            };
            out.push(ids);
            i += 1;
        }
        Ok(out)
    }

    /// Move the point with id `idx` from its old codewords' buckets to
    /// the new point's; only the in-memory backend supports updates.
    pub fn update_by_idx(&mut self, idx: u32, new_v: &[Fx], old_v: &[Fx]) -> (r: Result<
        (),
        Error,
    >)
        requires
            old(self).wf(),
            old(self).put_ready(),
            raws_bounded(new_v@, INPUT_LIMIT as int),
            raws_bounded(old_v@, INPUT_LIMIT as int),
            idx < old(self).hash_tables.counter(),
        ensures
            final(self).wf(),
            final(self).same_config(*old(self)),
            match r {
                Ok(()) => {
                    &&& new_v@.len() == old(self).dim
                    &&& old_v@.len() == old(self).dim
                    &&& old(self).put_codes_ok(new_v@)
                    &&& old(self).put_codes_ok(old_v@)
                    &&& match (old(self).hash_tables, final(self).hash_tables) {
                        (Backend::Mem(m0), Backend::Mem(m1)) => {
                            &&& forall|t: int|
                                0 <= t < old(self).n_hash_tables && old(self).put_code_at(
                                    new_v@,
                                    t,
                                ) != old(self).put_code_at(old_v@, t) ==> #[trigger] m1.bucket(
                                    t,
                                    old(self).put_code_at(old_v@, t),
                                ) == m0.bucket(t, old(self).put_code_at(old_v@, t)).remove(idx)
                            &&& forall|t: int|
                                0 <= t < old(self).n_hash_tables ==> #[trigger] m1.bucket(
                                    t,
                                    old(self).put_code_at(new_v@, t),
                                ) == (if old(self).put_code_at(new_v@, t) == old(self).put_code_at(old_v@, t) {
                                    m0.bucket(t, old(self).put_code_at(old_v@, t)).remove(idx)
                                } else {
                                    m0.bucket(t, old(self).put_code_at(new_v@, t))
                                }).insert(idx)
                            &&& forall|t: int, c: Seq<i64>|
                                0 <= t < old(self).n_hash_tables && c != old(self).put_code_at(
                                    old_v@,
                                    t,
                                ) && c != old(self).put_code_at(new_v@, t)
                                    ==> #[trigger] m1.bucket(t, c) == m0.bucket(t, c)
                            &&& m1.vec_store.map@ == m0.vec_store.map@
                            &&& m1.counter == m0.counter
                        },
                        _ => false,
                    }
                },
                Err(e) => (e == Error::ShapeMismatch && (new_v@.len() != old(self).dim
                    || old_v@.len() != old(self).dim) && *final(self) == *old(self)) || (
                new_v@.len() == old(self).dim && old_v@.len() == old(self).dim && e
                    == Error::HashOverflow && (!old(self).put_codes_ok(new_v@) || !old(
                    self,
                ).put_codes_ok(old_v@)) && *final(self) == *old(self)) || (new_v@.len() == old(
                    self,
                ).dim && old_v@.len() == old(self).dim && old(self).put_codes_ok(new_v@)
                    && old(self).put_codes_ok(old_v@) && e == Error::NotImplemented && !(old(
                    self,
                ).hash_tables is Mem) && *final(self) == *old(self)) || (new_v@.len() == old(
                    self,
                ).dim && old_v@.len() == old(self).dim && old(self).put_codes_ok(new_v@)
                    && old(self).put_codes_ok(old_v@) && e == Error::NotFound && match old(
                    self,
                ).hash_tables {
                    Backend::Mem(m0) => exists|t: int|
                        0 <= t < old(self).n_hash_tables && !(#[trigger] m0.has_bucket(
                            t,
                            old(self).put_code_at(old_v@, t),
                        )),
                    _ => false,
                }),
            },
    {
        if new_v.len() != self.dim || old_v.len() != self.dim {
            return Err(Error::ShapeMismatch);
        }
        let n = self.hashers.len();
        let mut new_codes: Vec<Vec<i64>> = Vec::new();
        let mut old_codes: Vec<Vec<i64>> = Vec::new();
        let mut t: usize = 0;
        while t < n
            invariant
                t <= n,
                n == self.hashers@.len(),
                self.wf(),
                self.put_ready(),
                new_v@.len() == self.dim,
                old_v@.len() == self.dim,
                raws_bounded(new_v@, INPUT_LIMIT as int),
                raws_bounded(old_v@, INPUT_LIMIT as int),
                new_codes@.len() == t,
                old_codes@.len() == t,
                forall|j: int|
                    0 <= j < t ==> (#[trigger] self.hashers@[j]).put_code(new_v@) == Some(
                        new_codes@[j]@,
                    ),
                forall|j: int|
                    0 <= j < t ==> (#[trigger] self.hashers@[j]).put_code(old_v@) == Some(
                        old_codes@[j]@,
                    ),
            decreases n - t,
        {
            let nc = match self.hashers[t].hash_vec_put(new_v) {
                Ok(c) => c,
                Err(e) => {
                    proof {
                        assert(!self.put_codes_ok(new_v@));
                    }
                    return Err(e);
                },
            };
            let oc = match self.hashers[t].hash_vec_put(old_v) {
                Ok(c) => c,
                Err(e) => {
                    proof {
                        assert(!self.put_codes_ok(old_v@));
                    }
                    return Err(e);
                },
            };
            new_codes.push(nc);
            old_codes.push(oc);
            t += 1;
        }
        proof {
            assert forall|t2: int|
                0 <= t2 < self.n_hash_tables implies new_codes@[t2]@ == old(self).put_code_at(
                new_v@,
                t2,
            ) && old_codes@[t2]@ == old(self).put_code_at(old_v@, t2) by {
                assert(self.hashers@[t2].put_code(new_v@) == Some(new_codes@[t2]@));
                assert(self.hashers@[t2].put_code(old_v@) == Some(old_codes@[t2]@));
            }
        }
        let res = match &mut self.hash_tables {
            Backend::Mem(m) => m.update_all(&old_codes, &new_codes, idx),
            Backend::Sql(_) => {
                return Err(Error::NotImplemented);
            },
            Backend::SqlMem(_) => {
                return Err(Error::NotImplemented);
            },
        };
        match res {
            Ok(()) => Ok(()),
            Err(e) => {
                proof {
                    match &old(self).hash_tables {
                        Backend::Mem(m0) => {
                            let tw = choose|tw: int|
                                0 <= tw < m0.n_tables() && !m0.has_bucket(
                                    tw,
                                    (#[trigger] old_codes@[tw])@,
                                );
                            assert(!m0.has_bucket(tw, old(self).put_code_at(old_v@, tw)));
                        },
                        _ => {},
                    }
                }
                Err(table_error_to_error(e))
            },
        }
    }

    /// Remove the point `v` from every bucket it hashes to; unknown
    /// points and missing buckets are silently ignored, and the SQL
    /// backends do not store points at all.
    pub fn delete_vec(&mut self, v: &[Fx]) -> (r: Result<(), Error>)
        requires
            old(self).wf(),
            raws_bounded(v@, INPUT_LIMIT as int),
        ensures
            final(self).wf(),
            final(self).same_config(*old(self)),
            match r {
                Ok(()) => {
                    &&& v@.len() == old(self).dim
                    &&& old(self).query_codes_ok(v@)
                    &&& match (old(self).hash_tables, final(self).hash_tables) {
                        (Backend::Mem(m0), Backend::Mem(m1)) => match position_of(
                            m0.vec_store.map@,
                            v@,
                        ) {
                            Some(pos) => (forall|t: int|
                                0 <= t < old(self).n_hash_tables ==> #[trigger] m1.bucket(
                                    t,
                                    old(self).query_code_at(v@, t),
                                ) == m0.bucket(t, old(self).query_code_at(v@, t)).remove(
                                    pos as u32,
                                )) && (forall|t: int, c: Seq<i64>|
                                0 <= t < old(self).n_hash_tables && c != old(self).query_code_at(v@, t) ==> #[trigger] m1.bucket(t, c)
                                    == m0.bucket(t, c)) && m1.vec_store.map@
                                == m0.vec_store.map@ && m1.counter == m0.counter,
                            None => m1.same_state(m0),
                        },
                        (Backend::Sql(s0), Backend::Sql(s1)) => forall|t: int, c: Seq<i64>|
                            #[trigger] s1.bucket(t, c) == s0.bucket(t, c),
                        (Backend::SqlMem(s0), Backend::SqlMem(s1)) => forall|t: int, c: Seq<i64>|
                            #[trigger] s1.sql_table.bucket(t, c) == s0.sql_table.bucket(t, c),
                        _ => false,
                    }
                },
                Err(e) => *final(self) == *old(self) && ((e == Error::ShapeMismatch && v@.len()
                    != old(self).dim) || (v@.len() == old(self).dim && !old(
                    self,
                ).query_codes_ok(v@) && (e == Error::HashOverflow || (e == Error::Failed && old(
                    self,
                ).hashers@[0] is Mips)))),
            },
    {
        if v.len() != self.dim {
            return Err(Error::ShapeMismatch);
        }
        let n = self.hashers.len();
        let mut codes: Vec<Vec<i64>> = Vec::new();
        let mut t: usize = 0;
        while t < n
            invariant
                t <= n,
                n == self.hashers@.len(),
                self.wf(),
                v@.len() == self.dim,
                raws_bounded(v@, INPUT_LIMIT as int),
                codes@.len() == t,
                forall|j: int|
                    0 <= j < t ==> (#[trigger] self.hashers@[j]).query_code(v@) == Some(
                        codes@[j]@,
                    ),
            decreases n - t,
        {
            let c = match self.hashers[t].hash_vec_query(v) {
                Ok(c) => c,
                Err(e) => {
                    return Err(e);
                },
            };
            codes.push(c);
            t += 1;
        }
        match &mut self.hash_tables {
            Backend::Mem(m) => {
                m.delete_all(&codes, v);
            },
            Backend::Sql(_) => (),
            Backend::SqlMem(_) => (),
        }
        proof {
            assert forall|t2: int|
                0 <= t2 < self.n_hash_tables implies codes@[t2]@ == old(self).query_code_at(
                v@,
                t2,
            ) by {
                assert(self.hashers@[t2].query_code(v@) == Some(codes@[t2]@));
            }
        }
        Ok(())
    }

    /// Record the largest data norm in every MIPS hasher; afterwards the
    /// index accepts insertions exactly when that norm is positive.
    /// Fails for every other family.
    pub fn fit(&mut self, vs: &Vec<Vec<Fx>>) -> (r: Result<(), Error>)
        requires
            old(self).wf(),
            forall|i: int|
                0 <= i < vs@.len() ==> (#[trigger] vs@[i])@.len() <= 0x1_0000_0000
                    && raws_bounded(vs@[i]@, 0x4000_0000_0000),
        ensures
            final(self).wf(),
            final(self).n_hash_tables == old(self).n_hash_tables,
            final(self).n_projections == old(self).n_projections,
            final(self).dim == old(self).dim,
            final(self).only_index_storage == old(self).only_index_storage,
            final(self).multi_probe == old(self).multi_probe,
            final(self).multi_probe_budget == old(self).multi_probe_budget,
            final(self).hash_tables == old(self).hash_tables,
            match r {
                Ok(()) => old(self).hashers@[0] is Mips && (crate::hash::max_norm_raw(vs@)
                    > 0 ==> final(self).put_ready()),
                Err(e) => e == Error::NotImplemented && !(old(self).hashers@[0] is Mips)
                    && final(self).hashers@ == old(self).hashers@,
            },
    {
        match &self.hashers[0] {
            Hasher::Mips(_) => (),
            _ => {
                return Err(Error::NotImplemented);
            },
        }
        let n = self.hashers.len();
        let mut i: usize = 0;
        while i < n
            invariant
                i <= n,
                n == self.hashers@.len(),
                self.wf(),
                old(self).hashers@[0] is Mips,
                self.hash_tables == old(self).hash_tables,
                self.n_hash_tables == old(self).n_hash_tables,
                self.n_projections == old(self).n_projections,
                self.dim == old(self).dim,
                self.only_index_storage == old(self).only_index_storage,
                self.multi_probe == old(self).multi_probe,
                self.multi_probe_budget == old(self).multi_probe_budget,
                forall|j: int|
                    0 <= j < vs@.len() ==> (#[trigger] vs@[j])@.len() <= 0x1_0000_0000
                        && raws_bounded(vs@[j]@, 0x4000_0000_0000),
                forall|j: int|
                    i <= j < n ==> #[trigger] self.hashers@[j] == old(self).hashers@[j],
                forall|j: int|
                    0 <= j < i ==> ((#[trigger] self.hashers@[j]) matches Hasher::Mips(mh)
                        && mh.m_max.raw == crate::hash::max_norm_raw(vs@)),
            decreases n - i,
        {
            let h = &mut self.hashers[i];
            match h {
                Hasher::Mips(mh) => {
                    mh.fit(vs);
                },
                _ => {
                    proof {
                        assert(family_of(old(self).hashers@[i as int]) == family_of(
                            old(self).hashers@[0],
                        ));
                        assert(false);
                    }
                },
            }
            i += 1;
        }
        proof {
            if crate::hash::max_norm_raw(vs@) > 0 {
                assert forall|j: int|
                    0 <= j < self.hashers@.len() implies (
                #[trigger] self.hashers@[j]).put_ready() by {
                    assert((self.hashers@[j] matches Hasher::Mips(mh) && mh.m_max.raw > 0));
                }
            }
        }
        Ok(())
    }

    /// Commit the running SQL transaction; the in-memory backend has no
    /// transactions.
    pub fn commit(&mut self) -> (r: Result<(), Error>)
        requires
            old(self).wf(),
        ensures
            final(self).wf(),
            final(self).same_config(*old(self)),
            forall|t: int, c: Seq<i64>|
                #[trigger] final(self).hash_tables.bucket(t, c) == old(self).hash_tables.bucket(t, c),
            final(self).hash_tables.counter() == old(self).hash_tables.counter(),
            r matches Err(e) ==> e == Error::NotImplemented || e == Error::SqlFailure,
    {
        match &mut self.hash_tables {
            Backend::Mem(_) => Err(Error::NotImplemented),
            Backend::Sql(s) => {
                let r = s.commit();
                proof {
                    assert forall|t: int, c: Seq<i64>| true implies #[trigger] self.hash_tables.bucket(
                        t,
                        c,
                    ) == old(self).hash_tables.bucket(t, c) by {
                        assert(self.hash_tables.bucket(t, c) =~= old(self).hash_tables.bucket(
                            t,
                            c,
                        ));
                    }
                }
                r
            },
            Backend::SqlMem(sm) => {
                let r = sm.sql_table.commit();
                proof {
                    assert forall|t: int, c: Seq<i64>| true implies #[trigger] self.hash_tables.bucket(
                        t,
                        c,
                    ) == old(self).hash_tables.bucket(t, c) by {
                        assert(self.hash_tables.bucket(t, c) =~= old(self).hash_tables.bucket(
                            t,
                            c,
                        ));
                    }
                }
                r
            },
        }
    }

    /// Open a fresh SQL transaction; the in-memory backend has no
    /// transactions.
    pub fn init_transaction(&mut self) -> (r: Result<(), Error>)
        requires
            old(self).wf(),
        ensures
            final(self).wf(),
            final(self).same_config(*old(self)),
            forall|t: int, c: Seq<i64>|
                #[trigger] final(self).hash_tables.bucket(t, c) == old(self).hash_tables.bucket(t, c),
            final(self).hash_tables.counter() == old(self).hash_tables.counter(),
    {
        match &mut self.hash_tables {
            Backend::Mem(_) => Err(Error::NotImplemented),
            Backend::Sql(s) => {
                let r = s.init_transaction();
                proof {
                    assert forall|t: int, c: Seq<i64>| true implies #[trigger] self.hash_tables.bucket(
                        t,
                        c,
                    ) == old(self).hash_tables.bucket(t, c) by {
                        assert(self.hash_tables.bucket(t, c) =~= old(self).hash_tables.bucket(
                            t,
                            c,
                        ));
                    }
                }
                r
            },
            Backend::SqlMem(sm) => {
                let r = sm.sql_table.init_transaction();
                proof {
                    assert forall|t: int, c: Seq<i64>| true implies #[trigger] self.hash_tables.bucket(
                        t,
                        c,
                    ) == old(self).hash_tables.bucket(t, c) by {
                        assert(self.hash_tables.bucket(t, c) =~= old(self).hash_tables.bucket(
                            t,
                            c,
                        ));
                    }
                }
                r
            },
        }
    }

    /// Reserve room for `upper_bound` further points.
    pub fn increase_storage(&mut self, upper_bound: usize) -> (r: Result<(), Error>)
        requires
            old(self).wf(),
        ensures
            final(self).wf(),
            final(self).same_config(*old(self)),
            forall|t: int, c: Seq<i64>|
                #[trigger] final(self).hash_tables.bucket(t, c) == old(self).hash_tables.bucket(t, c),
            final(self).hash_tables.counter() == old(self).hash_tables.counter(),
    {
        match &mut self.hash_tables {
            Backend::Mem(m) => {
                m.increase_storage(upper_bound);
            },
            Backend::Sql(_) => (),
            Backend::SqlMem(_) => (),
        }
        proof {
            match (&old(self).hash_tables, &self.hash_tables) {
                (Backend::Mem(m0), Backend::Mem(m1)) => {
                    assert forall|t: int, c: Seq<i64>| true implies #[trigger] m1.bucket(t, c)
                        == m0.bucket(t, c) by {
                        assert(m1.hash_tables@ == m0.hash_tables@);
                    }
                    assert forall|t: int, c: Seq<i64>| true implies (#[trigger] m1.has_bucket(
                        t,
                        c,
                    ) <==> m0.has_bucket(t, c)) by {
                        assert(m1.hash_tables@ == m0.hash_tables@);
                    }
                },
                _ => {},
            }
            assert forall|t: int, c: Seq<i64>| true implies #[trigger] self.hash_tables.bucket(
                t,
                c,
            ) == old(self).hash_tables.bucket(t, c) by {
                match (&old(self).hash_tables, &self.hash_tables) {
                    (Backend::Mem(m0), Backend::Mem(m1)) => {
                        assert(m1.hash_tables@ == m0.hash_tables@);
                        assert(m1.hash_tables@[t] == m0.hash_tables@[t]);
                    },
                    _ => {},
                }
            }
        }
        Ok(())
    }

    /// Whether the id space still has room for one more point.
    pub fn can_store_more(&self) -> (r: bool)
        ensures
            r == self.can_store(),
    {
        let c = match &self.hash_tables {
            Backend::Mem(m) => m.counter,
            Backend::Sql(s) => s.counter,
            Backend::SqlMem(sm) => sm.sql_table.counter,
        };
        c < 0xffff_fffe
    }

    /// A short description of the index: the configuration, the number
    /// of assigned ids, and for the in-memory backend the bucket count
    /// with the least and greatest bucket size.
    pub fn describe(&self) -> (r: Result<String, Error>)
        requires
            self.wf(),
        ensures
            r is Ok,
    {
        let counter = match &self.hash_tables {
            Backend::Mem(m) => m.counter,
            Backend::Sql(s) => s.counter,
            Backend::SqlMem(sm) => sm.sql_table.counter,
        };
        let (n_buckets, min_len, max_len) = match &self.hash_tables {
            Backend::Mem(m) => m.bucket_stats(),
            Backend::Sql(s) => match s.bucket_stats(0) {
                Ok(stats) => stats,
                Err(_) => (0, 0, 0),
            },
            Backend::SqlMem(sm) => match sm.sql_table.bucket_stats(0) {
                Ok(stats) => stats,
                Err(_) => (0, 0, 0),
            },
        };
        Ok(
            fmt_describe(
                self.n_hash_tables,
                self.n_projections,
                counter,
                n_buckets,
                min_len,
                max_len,
            ),
        )
    }
}

/// Relies on std's `format!`: a human-readable summary.
#[verifier::external_body]
fn fmt_describe(
    n_tables: usize,
    n_projections: usize,
    counter: u32,
    n_buckets: usize,
    min_len: usize,
    max_len: usize,
) -> String {
    format!(
        "No. of tables: {}\nNo. of projections: {}\nNo. of assigned ids: {}\nNo. of buckets: {}\nbucket size min: {}\nbucket size max: {}\n",
        n_tables,
        n_projections,
        counter,
        n_buckets,
        min_len,
        max_len,
    )
}

} // verus!
