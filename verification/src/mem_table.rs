//! In-memory backend: per-table codeword buckets and the vector store.

use vstd::prelude::*;
use crate::error::HashTableError;
use crate::fx::Fx;
use crate::utils::{all_eq, codes_eq, increase_capacity};

verus! {

/// One bucket: a codeword and the distinct ids posted under it.
#[derive(Clone, Debug)]
pub struct CodeEntry {
    /// The codeword.
    pub code: Vec<i64>,
    /// The ids posted under the codeword, without repetition.
    pub ids: Vec<u32>,
}

/// The bucket stored for codeword `c`: the id sequence of the first entry
/// whose codeword is `c`, if any.
pub open spec fn entry_for(es: Seq<CodeEntry>, c: Seq<i64>) -> Option<Seq<u32>>
    decreases es.len(),
{
    if es.len() == 0 {
        None
    } else if es.first().code@ == c {
        Some(es.first().ids@)
    } else {
        entry_for(es.drop_first(), c)
    }
}

/// A mapping from codewords to buckets of ids, kept as a vector of
/// entries with pairwise distinct codewords.
#[derive(Clone, Debug)]
pub struct CodeMap {
    /// The entries; codewords are pairwise distinct.
    pub entries: Vec<CodeEntry>,
}

impl CodeMap {
    /// Codewords are pairwise distinct and no bucket repeats an id.
    pub open spec fn wf(self) -> bool {
        &&& forall|x: int, y: int|
            0 <= x < y < self.entries@.len() ==> (#[trigger] self.entries@[x]).code@ != (
            #[trigger] self.entries@[y]).code@
        &&& forall|x: int|
            0 <= x < self.entries@.len() ==> (#[trigger] self.entries@[x]).ids@.no_duplicates()
    }

    /// Whether codeword `c` has a bucket.
    pub open spec fn has(self, c: Seq<i64>) -> bool {
        entry_for(self.entries@, c) is Some
    }

    /// The set of ids posted under codeword `c`; empty when there is no
    /// bucket.
    pub open spec fn bucket(self, c: Seq<i64>) -> Set<u32> {
        match entry_for(self.entries@, c) {
            Some(ids) => ids.to_set(),
            None => Set::empty(),
        }
    }

    /// An empty mapping.
    pub fn new() -> (r: CodeMap)
        ensures
            r.wf(),
            r.entries@.len() == 0,
            forall|c: Seq<i64>| !(#[trigger] r.has(c)),
            forall|c: Seq<i64>| #[trigger] r.bucket(c) == Set::<u32>::empty(),
    {
        let r = CodeMap { entries: Vec::new() };
        proof {
            assert(forall|c: Seq<i64>| entry_for(r.entries@, c) is None);
        }
        r
    }

    /// The index of the entry for codeword `c`, if any.
    fn find(&self, code: &[i64]) -> (r: Option<usize>)
        ensures
            match r {
                Some(k) => k < self.entries@.len() && self.entries@[k as int].code@ == code@
                    && entry_for(self.entries@, code@) == Some(self.entries@[k as int].ids@),
                None => entry_for(self.entries@, code@) is None,
            },
    {
        let mut k: usize = 0;
        while k < self.entries.len()
            invariant
                k <= self.entries@.len(),
                forall|j: int| 0 <= j < k ==> (#[trigger] self.entries@[j]).code@ != code@,
            decreases self.entries@.len() - k,
        {
            if codes_eq(self.entries[k].code.as_slice(), code) {
                proof {
                    lemma_entry_for_first_match(self.entries@, code@, k as int);
                }
                return Some(k);
            }
            k += 1;
        }
        proof {
            lemma_entry_for_no_match(self.entries@, code@);
        }
        None
    }

    /// Post `id` under codeword `c`: afterwards the bucket for `c` also
    /// holds `id`, and every other bucket is unchanged.
    pub fn insert_id(&mut self, code: Vec<i64>, id: u32)
        requires
            old(self).wf(),
        ensures
            final(self).wf(),
            final(self).bucket(code@) == old(self).bucket(code@).insert(id),
            forall|c: Seq<i64>|
                c != code@ ==> #[trigger] final(self).bucket(c) == old(self).bucket(c),
            forall|c: Seq<i64>|
                c != code@ ==> (#[trigger] final(self).has(c) <==> old(self).has(c)),
            final(self).has(code@),
    {
        let found = self.find(code.as_slice());
        match found {
            Some(k) => {
                let ghost old_es = self.entries@;
                let mut present = false;
                {
                    let entry = &mut self.entries[k];
                    let mut j: usize = 0;
                    while j < entry.ids.len() && !present
                        invariant
                            j <= entry.ids@.len(),
                            !present ==> forall|t: int| 0 <= t < j ==> entry.ids@[t] != id,
                            present ==> entry.ids@.contains(id),
                        decreases entry.ids@.len() - j, (if present { 0int } else { 1 }),
                    {
                        if entry.ids[j] == id {
                            present = true;
                            proof {
                                assert(entry.ids@[j as int] == id);
                            }
                        } else {
                            j += 1;
                        }
                    }
                    proof {
                        if !present {
                            assert(forall|t: int|
                                0 <= t < entry.ids@.len() ==> entry.ids@[t] != id);
                            if entry.ids@.contains(id) {
                                let w = choose|w: int|
                                    0 <= w < entry.ids@.len() && entry.ids@[w] == id;
                                assert(false);
                            }
                        }
                    }
                    if !present {
                        entry.ids.push(id);
                    }
                }
                proof {
                    let newe = self.entries@[k as int];
                    assert(self.entries@ =~= old_es.update(k as int, newe));
                    assert(newe.code@ == code@);
                    assert(newe.ids@.to_set() =~= old_es[k as int].ids@.to_set().insert(id)) by {
                        let oldids = old_es[k as int].ids@;
                        if oldids.contains(id) {
                            assert(newe.ids@ == oldids);
                            assert(oldids.to_set().contains(id));
                            assert(oldids.to_set() =~= oldids.to_set().insert(id));
                        } else {
                            assert(newe.ids@ == oldids.push(id));
                            lemma_to_set_push(oldids, id);
                        }
                    }
                    assert(newe.ids@.no_duplicates()) by {
                        let oldids = old_es[k as int].ids@;
                        if !oldids.contains(id) {
                            assert(newe.ids@ == oldids.push(id));
                            lemma_no_duplicates_push(oldids, id);
                        }
                    }
                    assert forall|c: Seq<i64>| true implies #[trigger] entry_for(
                        self.entries@,
                        c,
                    ) == if c == code@ {
                        Some(newe.ids@)
                    } else {
                        entry_for(old_es, c)
                    } by {
                        lemma_entry_for_update(old_es, k as int, newe, c);
                    }
                }
            },
            None => {
                let ghost old_es = self.entries@;
                let mut ids: Vec<u32> = Vec::new();
                ids.push(id);
                let entry = CodeEntry { code, ids };
                self.entries.push(entry);
                proof {
                    assert(entry.ids@ =~= seq![id]);
                    assert(entry.ids@.to_set() =~= Set::empty().insert(id)) by {
                        assert(entry.ids@[0] == id);
                        assert(entry.ids@.contains(id));
                        assert forall|y: u32| entry.ids@.to_set().contains(y) implies y
                            == id by {
                            let j = choose|j: int|
                                0 <= j < entry.ids@.len() && entry.ids@[j] == y;
                        }
                    }
                    assert forall|c: Seq<i64>| true implies #[trigger] entry_for(
                        self.entries@,
                        c,
                    ) == if entry_for(old_es, c) is Some {
                        entry_for(old_es, c)
                    } else if entry.code@ == c {
                        Some(entry.ids@)
                    } else {
                        None
                    } by {
                        lemma_entry_for_push(old_es, entry, c);
                    }
                    assert(forall|x: int|
                        0 <= x < old_es.len() ==> (#[trigger] old_es[x]).code@ != code@) by {
                        assert forall|x: int|
                            0 <= x < old_es.len() implies (#[trigger] old_es[x]).code@
                            != code@ by {
                            if old_es[x].code@ == code@ {
                                lemma_entry_for_witness(old_es, code@, x);
                            }
                        }
                    }
                }
            },
        }
    }

    /// Remove `id` from the bucket of codeword `c`; fails with
    /// [`HashTableError::NotFound`], changing nothing, exactly when there
    /// is no bucket for `c`.
    pub fn remove_id(&mut self, code: &[i64], id: u32) -> (r: Result<(), HashTableError>)
        requires
            old(self).wf(),
        ensures
            final(self).wf(),
            match r {
                Ok(()) => old(self).has(code@) && final(self).bucket(code@) == old(self).bucket(
                    code@,
                ).remove(id) && (forall|c: Seq<i64>|
                    c != code@ ==> #[trigger] final(self).bucket(c) == old(self).bucket(c))
                    && (forall|c: Seq<i64>| #[trigger]
                    final(self).has(c) <==> old(self).has(c)),
                Err(e) => e == HashTableError::NotFound && !old(self).has(code@) && *final(self)
                    == *old(self),
            },
    {
        let found = self.find(code);
        match found {
            Some(k) => {
                let ghost old_es = self.entries@;
                {
                    let entry = &mut self.entries[k];
                    let mut j: usize = 0;
                    let mut pos: Option<usize> = None;
                    while j < entry.ids.len() && pos.is_none()
                        invariant
                            j <= entry.ids@.len(),
                            match pos {
                                Some(p) => p < entry.ids@.len() && entry.ids@[p as int] == id,
                                None => forall|t: int| 0 <= t < j ==> entry.ids@[t] != id,
                            },
                        decreases entry.ids@.len() - j, (if pos is Some { 0int } else { 1 }),
                    {
                        if entry.ids[j] == id {
                            pos = Some(j);
                        } else {
                            j += 1;
                        }
                    }
                    match pos {
                        Some(p) => {
                            let ghost oldids = entry.ids@;
                            entry.ids.remove(p);
                            proof {
                                lemma_remove_set(oldids, p as int, id);
                            }
                        },
                        None => {
                            proof {
                                let oldids = entry.ids@;
                                assert(forall|t: int| 0 <= t < oldids.len() ==> oldids[t] != id);
                                assert(!oldids.to_set().contains(id)) by {
                                    if oldids.to_set().contains(id) {
                                        assert(oldids.contains(id));
                                    }
                                }
                                assert(oldids.to_set() =~= oldids.to_set().remove(id));
                            }
                        },
                    }
                }
                proof {
                    let newe = self.entries@[k as int];
                    assert(self.entries@ =~= old_es.update(k as int, newe));
                    assert forall|c: Seq<i64>| true implies #[trigger] entry_for(
                        self.entries@,
                        c,
                    ) == if c == code@ {
                        Some(newe.ids@)
                    } else {
                        entry_for(old_es, c)
                    } by {
                        lemma_entry_for_update(old_es, k as int, newe, c);
                    }
                }
                Ok(())
            },
            None => Err(HashTableError::NotFound),
        }
    }

    /// The ids posted under codeword `c`, or
    /// [`HashTableError::NotFound`] when there is no bucket.
    pub fn get_bucket(&self, code: &[i64]) -> (r: Result<Vec<u32>, HashTableError>)
        requires
            self.wf(),
        ensures
            match r {
                Ok(ids) => self.has(code@) && ids@.to_set() == self.bucket(code@)
                    && ids@.no_duplicates(),
                Err(e) => e == HashTableError::NotFound && !self.has(code@),
            },
    {
        let found = self.find(code);
        match found {
            Some(k) => {
                let entry = &self.entries[k];
                let mut out: Vec<u32> = Vec::new();
                let mut j: usize = 0;
                while j < entry.ids.len()
                    invariant
                        j <= entry.ids@.len(),
                        out@ == entry.ids@.take(j as int),
                    decreases entry.ids@.len() - j,
                {
                    let x = entry.ids[j];
                    out.push(x);
                    proof {
                        assert(out@ =~= entry.ids@.take(j + 1));
                    }
                    j += 1;
                }
                proof {
                    assert(entry.ids@.take(entry.ids@.len() as int) =~= entry.ids@);
                }
                Ok(out)
            },
            None => Err(HashTableError::NotFound),
        }
    }
}

/// A copy of a point.
pub fn copy_point(d: &[Fx]) -> (r: Vec<Fx>)
    ensures
        r@ == d@,
{
    let mut out: Vec<Fx> = Vec::new();
    let mut j: usize = 0;
    while j < d.len()
        invariant
            j <= d@.len(),
            out@ == d@.take(j as int),
        decreases d@.len() - j,
    {
        out.push(d[j]);
        proof {
            assert(out@ =~= d@.take(j + 1));
        }
        j += 1;
    }
    proof {
        assert(d@.take(d@.len() as int) =~= d@);
    }
    out
}

/// A copy of a codeword.
pub fn copy_code(d: &[i64]) -> (r: Vec<i64>)
    ensures
        r@ == d@,
{
    let mut out: Vec<i64> = Vec::new();
    let mut j: usize = 0;
    while j < d.len()
        invariant
            j <= d@.len(),
            out@ == d@.take(j as int),
        decreases d@.len() - j,
    {
        out.push(d[j]);
        proof {
            assert(out@ =~= d@.take(j + 1));
        }
        j += 1;
    }
    proof {
        assert(d@.take(d@.len() as int) =~= d@);
    }
    out
}

/// The first index of `s` holding exactly the point `d`, if any.
pub open spec fn position_of(s: Seq<Vec<Fx>>, d: Seq<Fx>) -> Option<int>
    decreases s.len(),
{
    if s.len() == 0 {
        None
    } else if s.first()@ == d {
        Some(0int)
    } else {
        match position_of(s.drop_first(), d) {
            Some(i) => Some(i + 1),
            None => None,
        }
    }
}

/// Append-only storage of the original points, indexed by id.
#[derive(Clone, Debug)]
pub struct VecStore {
    /// The stored points, in insertion order.
    pub map: Vec<Vec<Fx>>,
}

impl VecStore {
    /// Append a point; its id is its position.
    pub fn push(&mut self, d: Vec<Fx>) -> (r: u32)
        requires
            old(self).map@.len() < 0xffff_ffff,
        ensures
            final(self).map@ == old(self).map@.push(d),
            r == old(self).map@.len(),
    {
        self.map.push(d);
        (self.map.len() - 1) as u32
    }

    /// The id of the first stored point equal to `d`, if any.
    pub fn position(&self, d: &[Fx]) -> (r: Option<u32>)
        requires
            self.map@.len() <= 0xffff_ffff,
        ensures
            match r {
                Some(i) => position_of(self.map@, d@) == Some(i as int),
                None => position_of(self.map@, d@) is None,
            },
    {
        let mut i: usize = 0;
        while i < self.map.len()
            invariant
                i <= self.map@.len(),
                self.map@.len() <= 0xffff_ffff,
                forall|j: int| 0 <= j < i ==> (#[trigger] self.map@[j])@ != d@,
            decreases self.map@.len() - i,
        {
            if all_eq(self.map[i].as_slice(), d) {
                proof {
                    lemma_position_first_match(self.map@, d@, i as int);
                }
                return Some(i as u32);
            }
            i += 1;
        }
        proof {
            lemma_position_no_match(self.map@, d@);
        }
        None
    }

    /// The stored point with id `idx`, or
    /// [`HashTableError::NotFound`] when no such point exists.
    pub fn get(&self, idx: u32) -> (r: Result<Vec<Fx>, HashTableError>)
        ensures
            match r {
                Ok(d) => (idx as int) < self.map@.len() && d@ == self.map@[idx as int]@,
                Err(e) => e == HashTableError::NotFound && (idx as int) >= self.map@.len(),
            },
    {
        if (idx as usize) < self.map.len() {
            Ok(copy_point(self.map[idx as usize].as_slice()))
        } else {
            Err(HashTableError::NotFound)
        }
    }

    /// Reserve room for `size` further points.
    pub fn increase_storage(&mut self, size: usize)
        ensures
            final(self).map@ == old(self).map@,
    {
        increase_capacity(size, &mut self.map);
    }
}

/// If the first `k` points differ from `d` and point `k` equals it, `k`
/// is the position of `d`.
proof fn lemma_position_first_match(s: Seq<Vec<Fx>>, d: Seq<Fx>, k: int)
    requires
        0 <= k < s.len(),
        s[k]@ == d,
        forall|j: int| 0 <= j < k ==> (#[trigger] s[j])@ != d,
    ensures
        position_of(s, d) == Some(k),
    decreases k,
{
    if k == 0 {
    } else {
        lemma_position_first_match(s.drop_first(), d, k - 1);
    }
}

/// If no point equals `d` it has no position.
proof fn lemma_position_no_match(s: Seq<Vec<Fx>>, d: Seq<Fx>)
    requires
        forall|j: int| 0 <= j < s.len() ==> (#[trigger] s[j])@ != d,
    ensures
        position_of(s, d) is None,
    decreases s.len(),
{
    if s.len() == 0 {
    } else {
        lemma_position_no_match(s.drop_first(), d);
    }
}

/// In-memory backend: `L` codeword maps, the vector store and the id
/// counter.
#[derive(Clone, Debug)]
pub struct MemoryTable {
    /// One codeword map per hash table.
    pub hash_tables: Vec<CodeMap>,
    /// The stored points; empty when `only_index_storage` is set.
    pub vec_store: VecStore,
    /// Whether original points are withheld from storage.
    pub only_index_storage: bool,
    /// The next id to assign.
    pub counter: u32,
}

impl MemoryTable {
    /// Every codeword map is well formed.
    pub open spec fn wf(self) -> bool {
        forall|t: int|
            0 <= t < self.hash_tables@.len() ==> (#[trigger] self.hash_tables@[t]).wf()
    }

    /// Number of hash tables.
    pub open spec fn n_tables(self) -> int {
        self.hash_tables@.len() as int
    }

    /// The set of ids posted under codeword `c` in table `t`.
    pub open spec fn bucket(self, t: int, c: Seq<i64>) -> Set<u32> {
        self.hash_tables@[t].bucket(c)
    }

    /// Whether codeword `c` has a bucket in table `t`.
    pub open spec fn has_bucket(self, t: int, c: Seq<i64>) -> bool {
        self.hash_tables@[t].has(c)
    }

    /// Two backends hold the same observable state.
    pub open spec fn same_state(self, other: MemoryTable) -> bool {
        &&& self.hash_tables@ == other.hash_tables@
        &&& self.vec_store.map@ == other.vec_store.map@
        &&& self.only_index_storage == other.only_index_storage
        &&& self.counter == other.counter
    }

    /// An empty backend with `n_hash_tables` tables.
    pub fn new(n_hash_tables: usize, only_index_storage: bool, _db_path: &str) -> (r:
        MemoryTable)
        ensures
            r.wf(),
            r.n_tables() == n_hash_tables,
            r.counter == 0,
            r.vec_store.map@.len() == 0,
            r.only_index_storage == only_index_storage,
            forall|t: int, c: Seq<i64>|
                0 <= t < n_hash_tables ==> !(#[trigger] r.has_bucket(t, c)),
            forall|t: int, c: Seq<i64>|
                0 <= t < n_hash_tables ==> #[trigger] r.bucket(t, c) == Set::<u32>::empty(),
    {
        let mut hash_tables: Vec<CodeMap> = Vec::new();
        let mut i: usize = 0;
        while i < n_hash_tables
            invariant
                i <= n_hash_tables,
                hash_tables@.len() == i,
                forall|t: int| 0 <= t < i ==> (#[trigger] hash_tables@[t]).wf(),
                forall|t: int|
                    0 <= t < i ==> (#[trigger] hash_tables@[t]).entries@.len() == 0,
            decreases n_hash_tables - i,
        {
            let m = CodeMap::new();
            hash_tables.push(m);
            i += 1;
        }
        let r = MemoryTable {
            hash_tables,
            vec_store: VecStore { map: Vec::new() },
            only_index_storage,
            counter: 0,
        };
        proof {
            assert forall|t: int, c: Seq<i64>|
                0 <= t < n_hash_tables implies !(#[trigger] r.has_bucket(t, c)) by {
                assert(r.hash_tables@[t].entries@.len() == 0);
            }
        }
        r
    }

    /// Insert a posting: add the next id to `hash`'s bucket in table
    /// `hash_table`; on table zero also store the point (unless only
    /// indexes are kept), and on the last table advance the id counter.
    /// Fails with [`HashTableError::TableNotExist`], changing nothing,
    /// exactly when the table index is out of range.
    pub fn put(&mut self, hash: Vec<i64>, d: &[Fx], hash_table: usize) -> (r: Result<
        u32,
        HashTableError,
    >)
        requires
            old(self).wf(),
            old(self).counter < 0xffff_ffff,
            old(self).vec_store.map@.len() < 0xffff_ffff,
        ensures
            final(self).wf(),
            final(self).n_tables() == old(self).n_tables(),
            final(self).only_index_storage == old(self).only_index_storage,
            match r {
                Ok(idx) => {
                    &&& (hash_table as int) < old(self).n_tables()
                    &&& idx == old(self).counter
                    &&& final(self).bucket(hash_table as int, hash@) == old(self).bucket(
                        hash_table as int,
                        hash@,
                    ).insert(idx)
                    &&& final(self).has_bucket(hash_table as int, hash@)
                    &&& forall|c: Seq<i64>|
                        c != hash@ ==> #[trigger] final(self).bucket(hash_table as int, c)
                            == old(self).bucket(hash_table as int, c)
                    &&& forall|c: Seq<i64>|
                        c != hash@ ==> (#[trigger] final(self).has_bucket(hash_table as int, c)
                            <==> old(self).has_bucket(hash_table as int, c))
                    &&& forall|t: int|
                        0 <= t < old(self).n_tables() && t != hash_table ==> #[trigger] final(self).hash_tables@[t] == old(self).hash_tables@[t]
                    &&& final(self).vec_store.map@ == (if hash_table == 0 && !old(self).only_index_storage {
                        old(self).vec_store.map@.push(final(self).vec_store.map@.last())
                    } else {
                        old(self).vec_store.map@
                    })
                    &&& hash_table == 0 && !old(self).only_index_storage ==> final(self).vec_store.map@.last()@ == d@
                    &&& final(self).counter as int == (if hash_table + 1 == old(self).n_tables() {
                        old(self).counter + 1
                    } else {
                        old(self).counter as int
                    })
                },
                Err(e) => e == HashTableError::TableNotExist && (hash_table as int) >= old(self).n_tables() && *final(self) == *old(self),
            },
    {
        if hash_table >= self.hash_tables.len() {
            return Err(HashTableError::TableNotExist);
        }
        let idx = self.counter;
        let ghost old_tables = self.hash_tables@;
        {
            let tbl = &mut self.hash_tables[hash_table];
            tbl.insert_id(hash, idx);
        }
        proof {
            assert(self.hash_tables@ =~= old_tables.update(
                hash_table as int,
                self.hash_tables@[hash_table as int],
            ));
        }
        if hash_table == 0 && !self.only_index_storage {
            let p = copy_point(d);
            self.vec_store.push(p);
        }
        if hash_table == self.hash_tables.len() - 1 {
            self.counter = self.counter + 1;
        }
        Ok(idx)
    }

    /// Remove the posting of the point `d` (found by scanning the vector
    /// store) from `hash`'s bucket in table `hash_table`.  Succeeds
    /// without changing anything when the point is not stored; fails with
    /// [`HashTableError::NotFound`] when the bucket is missing and with
    /// [`HashTableError::TableNotExist`] when the table index is out of
    /// range.
    pub fn delete(&mut self, hash: &[i64], d: &[Fx], hash_table: usize) -> (r: Result<
        (),
        HashTableError,
    >)
        requires
            old(self).wf(),
            old(self).vec_store.map@.len() <= 0xffff_ffff,
        ensures
            final(self).wf(),
            final(self).n_tables() == old(self).n_tables(),
            final(self).vec_store.map@ == old(self).vec_store.map@,
            final(self).counter == old(self).counter,
            final(self).only_index_storage == old(self).only_index_storage,
            match r {
                Ok(()) => match position_of(old(self).vec_store.map@, d@) {
                    Some(idx) => {
                        &&& (hash_table as int) < old(self).n_tables()
                        &&& final(self).bucket(hash_table as int, hash@) == old(self).bucket(
                            hash_table as int,
                            hash@,
                        ).remove(idx as u32)
                        &&& forall|c: Seq<i64>|
                            c != hash@ ==> #[trigger] final(self).bucket(hash_table as int, c)
                                == old(self).bucket(hash_table as int, c)
                        &&& forall|t: int|
                            0 <= t < old(self).n_tables() && t != hash_table ==> #[trigger] final(self).hash_tables@[t] == old(self).hash_tables@[t]
                    },
                    None => final(self).same_state(*old(self)),
                },
                Err(e) => final(self).same_state(*old(self)) && (e
                    == HashTableError::TableNotExist && (hash_table as int) >= old(self).n_tables() || e == HashTableError::NotFound && position_of(
                    old(self).vec_store.map@,
                    d@,
                ) is Some && !old(self).has_bucket(hash_table as int, hash@)),
            },
    {
        if hash_table >= self.hash_tables.len() {
            return Err(HashTableError::TableNotExist);
        }
        let idx = match self.vec_store.position(d) {
            None => {
                return Ok(());
            },
            Some(idx) => idx,
        };
        let ghost old_tables = self.hash_tables@;
        let res;
        {
            let tbl = &mut self.hash_tables[hash_table];
            res = tbl.remove_id(hash, idx);
        }
        proof {
            assert(self.hash_tables@ =~= old_tables.update(
                hash_table as int,
                self.hash_tables@[hash_table as int],
            ));
            if res is Err {
                assert(self.hash_tables@ =~= old_tables);
            }
        }
        res
    }

    /// Move id `idx` from `old_hash`'s bucket to `new_hash`'s bucket in
    /// table `hash_table`.  Fails with [`HashTableError::NotFound`],
    /// changing nothing, when `old_hash` has no bucket, and with
    /// [`HashTableError::TableNotExist`] when the table index is out of
    /// range.
    pub fn update_by_idx(
        &mut self,
        old_hash: &[i64],
        new_hash: Vec<i64>,
        idx: u32,
        hash_table: usize,
    ) -> (r: Result<(), HashTableError>)
        requires
            old(self).wf(),
        ensures
            final(self).wf(),
            final(self).n_tables() == old(self).n_tables(),
            final(self).vec_store.map@ == old(self).vec_store.map@,
            final(self).counter == old(self).counter,
            final(self).only_index_storage == old(self).only_index_storage,
            match r {
                Ok(()) => {
                    &&& (hash_table as int) < old(self).n_tables()
                    &&& old(self).has_bucket(hash_table as int, old_hash@)
                    &&& final(self).bucket(hash_table as int, new_hash@) == (if new_hash@
                        == old_hash@ {
                        old(self).bucket(hash_table as int, old_hash@).remove(idx)
                    } else {
                        old(self).bucket(hash_table as int, new_hash@)
                    }).insert(idx)
                    &&& new_hash@ != old_hash@ ==> final(self).bucket(
                        hash_table as int,
                        old_hash@,
                    ) == old(self).bucket(hash_table as int, old_hash@).remove(idx)
                    &&& forall|c: Seq<i64>|
                        c != old_hash@ && c != new_hash@ ==> #[trigger] final(self).bucket(
                            hash_table as int,
                            c,
                        ) == old(self).bucket(hash_table as int, c)
                    &&& forall|t: int|
                        0 <= t < old(self).n_tables() && t != hash_table ==> #[trigger] final(self).hash_tables@[t] == old(self).hash_tables@[t]
                },
                Err(e) => final(self).same_state(*old(self)) && (e
                    == HashTableError::TableNotExist && (hash_table as int) >= old(self).n_tables() || e == HashTableError::NotFound && !old(self).has_bucket(
                    hash_table as int,
                    old_hash@,
                )),
            },
    {
        if hash_table >= self.hash_tables.len() {
            return Err(HashTableError::TableNotExist);
        }
        let ghost old_tables = self.hash_tables@;
        let res;
        {
            let tbl = &mut self.hash_tables[hash_table];
            res = tbl.remove_id(old_hash, idx);
            match res {
                Ok(()) => {
                    tbl.insert_id(new_hash, idx);
                },
                Err(_) => {},
            }
        }
        proof {
            assert(self.hash_tables@ =~= old_tables.update(
                hash_table as int,
                self.hash_tables@[hash_table as int],
            ));
            if res is Err {
                assert(self.hash_tables@ =~= old_tables);
            }
        }
        match res {
            Ok(()) => Ok(()),
            Err(e) => Err(e),
        }
    }

    /// The ids posted under `hash` in table `hash_table`.  Fails with
    /// [`HashTableError::NotFound`] when the bucket is missing and with
    /// [`HashTableError::TableNotExist`] when the table index is out of
    /// range.
    pub fn query_bucket(&self, hash: &[i64], hash_table: usize) -> (r: Result<
        Vec<u32>,
        HashTableError,
    >)
        requires
            self.wf(),
        ensures
            match r {
                Ok(ids) => (hash_table as int) < self.n_tables() && self.has_bucket(
                    hash_table as int,
                    hash@,
                ) && ids@.to_set() == self.bucket(hash_table as int, hash@)
                    && ids@.no_duplicates(),
                Err(e) => e == HashTableError::TableNotExist && (hash_table as int)
                    >= self.n_tables() || e == HashTableError::NotFound && (
                hash_table as int) < self.n_tables() && !self.has_bucket(
                    hash_table as int,
                    hash@,
                ),
            },
    {
        if hash_table >= self.hash_tables.len() {
            return Err(HashTableError::TableNotExist);
        }
        self.hash_tables[hash_table].get_bucket(hash)
    }

    /// The stored point with id `idx`; fails with
    /// [`HashTableError::NotFound`] when no such point is stored.
    pub fn idx_to_datapoint(&self, idx: u32) -> (r: Result<Vec<Fx>, HashTableError>)
        ensures
            match r {
                Ok(d) => (idx as int) < self.vec_store.map@.len() && d@
                    == self.vec_store.map@[idx as int]@,
                Err(e) => e == HashTableError::NotFound && (idx as int)
                    >= self.vec_store.map@.len(),
            },
    {
        self.vec_store.get(idx)
    }

    /// Reserve room for `size` further points.
    pub fn increase_storage(&mut self, size: usize)
        ensures
            final(self).same_state(*old(self)),
    {
        self.vec_store.increase_storage(size);
    }
}

/// If the first `k` entries do not hold codeword `c` and entry `k` does,
/// the bucket for `c` is entry `k`'s.
proof fn lemma_entry_for_first_match(es: Seq<CodeEntry>, c: Seq<i64>, k: int)
    requires
        0 <= k < es.len(),
        es[k].code@ == c,
        forall|j: int| 0 <= j < k ==> (#[trigger] es[j]).code@ != c,
    ensures
        entry_for(es, c) == Some(es[k].ids@),
    decreases k,
{
    if k == 0 {
    } else {
        lemma_entry_for_first_match(es.drop_first(), c, k - 1);
    }
}

/// If no entry holds codeword `c` there is no bucket for it.
proof fn lemma_entry_for_no_match(es: Seq<CodeEntry>, c: Seq<i64>)
    requires
        forall|j: int| 0 <= j < es.len() ==> (#[trigger] es[j]).code@ != c,
    ensures
        entry_for(es, c) is None,
    decreases es.len(),
{
    if es.len() == 0 {
    } else {
        lemma_entry_for_no_match(es.drop_first(), c);
    }
}

/// A bucket exists for the codeword of any entry.
proof fn lemma_entry_for_witness(es: Seq<CodeEntry>, c: Seq<i64>, k: int)
    requires
        0 <= k < es.len(),
        es[k].code@ == c,
    ensures
        entry_for(es, c) is Some,
    decreases k,
{
    if es.first().code@ == c {
    } else {
        lemma_entry_for_witness(es.drop_first(), c, k - 1);
    }
}

/// Replacing entry `k` while keeping its codeword rebinds that codeword's
/// bucket and leaves every other bucket as it was.
proof fn lemma_entry_for_update(es: Seq<CodeEntry>, k: int, e: CodeEntry, c: Seq<i64>)
    requires
        0 <= k < es.len(),
        e.code@ == es[k].code@,
        forall|x: int, y: int|
            0 <= x < y < es.len() ==> (#[trigger] es[x]).code@ != (#[trigger] es[y]).code@,
    ensures
        entry_for(es.update(k, e), c) == if c == e.code@ {
            Some(e.ids@)
        } else {
            entry_for(es, c)
        },
    decreases k,
{
    let es2 = es.update(k, e);
    if k == 0 {
        assert(es2.first() == e);
        assert(es2.drop_first() =~= es.drop_first());
        if c == e.code@ {
        } else {
            assert(es.first().code@ != c);
        }
    } else {
        assert(es2.first() == es.first());
        assert(es2.drop_first() =~= es.drop_first().update(k - 1, e));
        assert(es.drop_first()[k - 1] == es[k]);
        assert(forall|x: int, y: int|
            0 <= x < y < es.drop_first().len() ==> (#[trigger] es.drop_first()[x]).code@ != (
            #[trigger] es.drop_first()[y]).code@);
        lemma_entry_for_update(es.drop_first(), k - 1, e, c);
        if c == e.code@ {
            assert(es[0].code@ != es[k].code@);
            assert(es.first().code@ != c);
        }
    }
}

/// Appending an entry leaves existing buckets as they were and binds the
/// new codeword when it was absent.
proof fn lemma_entry_for_push(es: Seq<CodeEntry>, e: CodeEntry, c: Seq<i64>)
    ensures
        entry_for(es.push(e), c) == if entry_for(es, c) is Some {
            entry_for(es, c)
        } else if e.code@ == c {
            Some(e.ids@)
        } else {
            None
        },
    decreases es.len(),
{
    let es2 = es.push(e);
    if es.len() == 0 {
        assert(es2.first() == e);
        assert(es2.drop_first() =~= Seq::<CodeEntry>::empty());
        assert(entry_for(es2.drop_first(), c) is None);
        assert(entry_for(es, c) is None);
    } else {
        assert(es2.first() == es.first());
        assert(es2.drop_first() =~= es.drop_first().push(e));
        lemma_entry_for_push(es.drop_first(), e, c);
        if es.first().code@ == c {
            assert(entry_for(es, c) == Some(es.first().ids@));
            assert(entry_for(es2, c) == Some(es2.first().ids@));
        } else {
            assert(entry_for(es2, c) == entry_for(es2.drop_first(), c));
            assert(entry_for(es, c) == entry_for(es.drop_first(), c));
        }
    }
}

/// Pushing a fresh element adds exactly it to the set of elements and
/// keeps the sequence free of repetition.
pub proof fn lemma_to_set_push(s: Seq<u32>, x: u32)
    ensures
        s.push(x).to_set() =~= s.to_set().insert(x),
{
    assert forall|y: u32| s.push(x).to_set().contains(y) implies s.to_set().insert(x).contains(
        y,
    ) by {
        let j = choose|j: int| 0 <= j < s.push(x).len() && s.push(x)[j] == y;
        if j < s.len() {
            assert(s[j] == y);
        }
    }
    assert forall|y: u32| s.to_set().insert(x).contains(y) implies s.push(x).to_set().contains(
        y,
    ) by {
        if y == x {
            assert(s.push(x)[s.len() as int] == x);
        } else {
            let j = choose|j: int| 0 <= j < s.len() && s[j] == y;
            assert(s.push(x)[j] == y);
        }
    }
}

/// Pushing an element that is not present keeps a sequence free of
/// repetition.
proof fn lemma_no_duplicates_push(s: Seq<u32>, x: u32)
    requires
        s.no_duplicates(),
        !s.contains(x),
    ensures
        s.push(x).no_duplicates(),
{
    assert forall|i: int, j: int|
        0 <= i < j < s.push(x).len() implies s.push(x)[i] != s.push(x)[j] by {
        if j == s.len() {
            assert(s[i] == s.push(x)[i]);
        }
    }
}

/// Removing position `p`, which holds `x`, from a repetition-free
/// sequence removes exactly `x` from its set of elements.
proof fn lemma_remove_set(s: Seq<u32>, p: int, x: u32)
    requires
        0 <= p < s.len(),
        s[p] == x,
        s.no_duplicates(),
    ensures
        s.remove(p).to_set() =~= s.to_set().remove(x),
        s.remove(p).no_duplicates(),
{
    let s2 = s.remove(p);
    assert forall|y: u32| s2.to_set().contains(y) implies s.to_set().remove(x).contains(y) by {
        let j = choose|j: int| 0 <= j < s2.len() && s2[j] == y;
        if j < p {
            assert(s[j] == y);
            assert(y != x);
        } else {
            assert(s[j + 1] == y);
            assert(y != x);
        }
    }
    assert forall|y: u32| s.to_set().remove(x).contains(y) implies s2.to_set().contains(y) by {
        let j = choose|j: int| 0 <= j < s.len() && s[j] == y;
        if j < p {
            assert(s2[j] == y);
        } else {
            assert(j != p);
            assert(s2[j - 1] == y);
        }
    }
    assert forall|i: int, j: int| 0 <= i < j < s2.len() implies s2[i] != s2[j] by {
        let i2 = if i < p {
            i
        } else {
            i + 1
        };
        let j2 = if j < p {
            j
        } else {
            j + 1
        };
        assert(s2[i] == s[i2] && s2[j] == s[j2]);
    }
}


impl MemoryTable {
    /// Insert one point under its `L` codewords, one per table, and
    /// return its id: the counter before the call.  The point itself is
    /// stored unless only indexes are kept.
    pub fn put_all(&mut self, codes: &Vec<Vec<i64>>, d: &[Fx]) -> (r: u32)
        requires
            old(self).wf(),
            old(self).counter < 0xffff_fffe,
            codes@.len() == old(self).n_tables(),
            1 <= old(self).n_tables(),
            !old(self).only_index_storage ==> old(self).vec_store.map@.len() == old(self).counter,
            old(self).only_index_storage ==> old(self).vec_store.map@.len() == 0,
            forall|t: int, c: Seq<i64>, id: u32|
                0 <= t < old(self).n_tables() && #[trigger] old(self).bucket(t, c).contains(id)
                    ==> id < old(self).counter,
        ensures
            final(self).wf(),
            r == old(self).counter,
            final(self).counter == old(self).counter + 1,
            final(self).n_tables() == old(self).n_tables(),
            final(self).only_index_storage == old(self).only_index_storage,
            !old(self).only_index_storage ==> final(self).vec_store.map@.len() == old(self).vec_store.map@.len() + 1 && final(self).vec_store.map@.last()@ == d@ && final(self).vec_store.map@.take(old(self).vec_store.map@.len() as int) == old(self).vec_store.map@,
            old(self).only_index_storage ==> final(self).vec_store.map@ == old(self).vec_store.map@,
            forall|t: int|
                0 <= t < old(self).n_tables() ==> #[trigger] final(self).bucket(t, codes@[t]@)
                    == old(self).bucket(t, codes@[t]@).insert(r),
            forall|t: int, c: Seq<i64>|
                0 <= t < old(self).n_tables() && c != codes@[t]@ ==> #[trigger] final(self).bucket(t, c) == old(self).bucket(t, c),
            forall|t: int, c: Seq<i64>|
                0 <= t < old(self).n_tables() && c != codes@[t]@ ==> (#[trigger] final(self).has_bucket(t, c) <==> old(self).has_bucket(t, c)),
            forall|t: int|
                0 <= t < old(self).n_tables() ==> #[trigger] final(self).has_bucket(
                    t,
                    codes@[t]@,
                ),
            forall|t: int, c: Seq<i64>, id: u32|
                0 <= t < final(self).n_tables() && #[trigger] final(self).bucket(t, c).contains(
                    id,
                ) ==> id < final(self).counter,
    {
        let ghost m0 = *self;
        let idx = self.counter;
        let n = self.hash_tables.len();
        let mut t: usize = 0;
        while t < n
            invariant
                t <= n,
                n == m0.n_tables(),
                1 <= n,
                codes@.len() == n,
                self.wf(),
                self.n_tables() == n,
                self.only_index_storage == m0.only_index_storage,
                idx == m0.counter,
                m0.counter < 0xffff_fffe,
                !m0.only_index_storage ==> m0.vec_store.map@.len() == m0.counter,
                m0.only_index_storage ==> m0.vec_store.map@.len() == 0,
                self.counter as int == (if t == n {
                    m0.counter + 1
                } else {
                    m0.counter as int
                }),
                !m0.only_index_storage ==> (if t == 0 {
                    self.vec_store.map@ == m0.vec_store.map@
                } else {
                    self.vec_store.map@.len() == m0.vec_store.map@.len() + 1
                        && self.vec_store.map@.last()@ == d@ && self.vec_store.map@.take(
                        m0.vec_store.map@.len() as int,
                    ) == m0.vec_store.map@
                }),
                m0.only_index_storage ==> self.vec_store.map@ == m0.vec_store.map@,
                forall|t2: int|
                    0 <= t2 < t ==> #[trigger] self.bucket(t2, codes@[t2]@) == m0.bucket(
                        t2,
                        codes@[t2]@,
                    ).insert(idx),
                forall|t2: int, c: Seq<i64>|
                    0 <= t2 < t && c != codes@[t2]@ ==> #[trigger] self.bucket(t2, c)
                        == m0.bucket(t2, c),
                forall|t2: int, c: Seq<i64>|
                    0 <= t2 < t && c != codes@[t2]@ ==> (#[trigger] self.has_bucket(t2, c)
                        <==> m0.has_bucket(t2, c)),
                forall|t2: int|
                    0 <= t2 < t ==> #[trigger] self.has_bucket(t2, codes@[t2]@),
                forall|t2: int| t <= t2 < n ==> #[trigger] self.hash_tables@[t2]
                    == m0.hash_tables@[t2],
                forall|t2: int, c: Seq<i64>, id: u32|
                    0 <= t2 < n && #[trigger] self.bucket(t2, c).contains(id) ==> id
                        < m0.counter + 1,
            decreases n - t,
        {
            let code = copy_code(codes[t].as_slice());
            let ghost prev = *self;
            proof {
                assert(prev.hash_tables@[t as int] == m0.hash_tables@[t as int]);
                assert(prev.bucket(t as int, codes@[t as int]@) == m0.bucket(
                    t as int,
                    codes@[t as int]@,
                ));
            }
            let res = self.put(code, d, t);
            match res {
                Ok(_) => (),
                Err(_) => {
                    proof {
                        assert(false);
                    }
                },
            }
            proof {
                assert forall|t2: int, c: Seq<i64>|
                    0 <= t2 < t implies #[trigger] self.bucket(t2, c) == prev.bucket(t2, c) by {
                    assert(self.hash_tables@[t2] == prev.hash_tables@[t2]);
                }
                assert forall|t2: int, c: Seq<i64>|
                    0 <= t2 < t implies (#[trigger] self.has_bucket(t2, c) <==> prev.has_bucket(
                    t2,
                    c,
                )) by {
                    assert(self.hash_tables@[t2] == prev.hash_tables@[t2]);
                }
                assert forall|t2: int|
                    t < t2 < n implies #[trigger] self.hash_tables@[t2] == m0.hash_tables@[
                    t2] by {
                    assert(self.hash_tables@[t2] == prev.hash_tables@[t2]);
                }
                assert forall|t2: int, c: Seq<i64>, id: u32|
                    0 <= t2 < n && #[trigger] self.bucket(t2, c).contains(id) implies id
                    < m0.counter + 1 by {
                    if t2 == t {
                        if c == codes@[t2]@ {
                            assert(self.bucket(t2, c) == prev.bucket(t2, c).insert(idx));
                            if id != idx {
                                assert(prev.bucket(t2, c).contains(id));
                            }
                        } else {
                            assert(self.bucket(t2, c) == prev.bucket(t2, c));
                        }
                    } else {
                        assert(self.bucket(t2, c) == prev.bucket(t2, c));
                    }
                }
            }
            t += 1;
        }
        idx
    }
}


impl MemoryTable {
    /// Move id `idx` from its old codeword's bucket to the new one, in
    /// every table.  Fails with [`HashTableError::NotFound`] when some
    /// table has no bucket for the old codeword; tables before it stay
    /// updated.
    pub fn update_all(
        &mut self,
        old_codes: &Vec<Vec<i64>>,
        new_codes: &Vec<Vec<i64>>,
        idx: u32,
    ) -> (r: Result<(), HashTableError>)
        requires
            old(self).wf(),
            old_codes@.len() == old(self).n_tables(),
            new_codes@.len() == old(self).n_tables(),
            idx < old(self).counter,
            forall|t: int, c: Seq<i64>, id: u32|
                0 <= t < old(self).n_tables() && #[trigger] old(self).bucket(t, c).contains(id)
                    ==> id < old(self).counter,
        ensures
            final(self).wf(),
            final(self).n_tables() == old(self).n_tables(),
            final(self).counter == old(self).counter,
            final(self).only_index_storage == old(self).only_index_storage,
            final(self).vec_store.map@ == old(self).vec_store.map@,
            forall|t: int, c: Seq<i64>, id: u32|
                0 <= t < final(self).n_tables() && #[trigger] final(self).bucket(t, c).contains(
                    id,
                ) ==> id < final(self).counter,
            match r {
                Ok(()) => {
                    &&& forall|t: int|
                        0 <= t < old(self).n_tables() && new_codes@[t]@ != old_codes@[t]@
                            ==> #[trigger] final(self).bucket(t, old_codes@[t]@) == old(self).bucket(t, old_codes@[t]@).remove(idx)
                    &&& forall|t: int|
                        0 <= t < old(self).n_tables() ==> #[trigger] final(self).bucket(
                            t,
                            new_codes@[t]@,
                        ) == (if new_codes@[t]@ == old_codes@[t]@ {
                            old(self).bucket(t, old_codes@[t]@).remove(idx)
                        } else {
                            old(self).bucket(t, new_codes@[t]@)
                        }).insert(idx)
                    &&& forall|t: int, c: Seq<i64>|
                        0 <= t < old(self).n_tables() && c != old_codes@[t]@ && c
                            != new_codes@[t]@ ==> #[trigger] final(self).bucket(t, c) == old(self).bucket(t, c)
                },
                Err(e) => e == HashTableError::NotFound && exists|t: int|
                    0 <= t < old(self).n_tables() && !old(self).has_bucket(
                        t,
                        (#[trigger] old_codes@[t])@,
                    ),
            },
    {
        let ghost m0 = *self;
        let n = self.hash_tables.len();
        let mut t: usize = 0;
        while t < n
            invariant
                m0 == *old(self),
                t <= n,
                n == m0.n_tables(),
                old_codes@.len() == n,
                new_codes@.len() == n,
                idx < m0.counter,
                self.wf(),
                self.n_tables() == n,
                self.counter == m0.counter,
                self.only_index_storage == m0.only_index_storage,
                self.vec_store.map@ == m0.vec_store.map@,
                forall|t2: int|
                    0 <= t2 < t && new_codes@[t2]@ != old_codes@[t2]@ ==> #[trigger] self.bucket(
                        t2,
                        old_codes@[t2]@,
                    ) == m0.bucket(t2, old_codes@[t2]@).remove(idx),
                forall|t2: int|
                    0 <= t2 < t ==> #[trigger] self.bucket(t2, new_codes@[t2]@) == (if
                    new_codes@[t2]@ == old_codes@[t2]@ {
                        m0.bucket(t2, old_codes@[t2]@).remove(idx)
                    } else {
                        m0.bucket(t2, new_codes@[t2]@)
                    }).insert(idx),
                forall|t2: int, c: Seq<i64>|
                    0 <= t2 < t && c != old_codes@[t2]@ && c != new_codes@[t2]@
                        ==> #[trigger] self.bucket(t2, c) == m0.bucket(t2, c),
                forall|t2: int| t <= t2 < n ==> #[trigger] self.hash_tables@[t2]
                    == m0.hash_tables@[t2],
                forall|t2: int, c: Seq<i64>, id: u32|
                    0 <= t2 < n && #[trigger] self.bucket(t2, c).contains(id) ==> id
                        < m0.counter,
            decreases n - t,
        {
            let ghost prev = *self;
            let new_code = copy_code(new_codes[t].as_slice());
            let res = self.update_by_idx(old_codes[t].as_slice(), new_code, idx, t);
            match res {
                Ok(()) => (),
                Err(HashTableError::NotFound) => {
                    proof {
                        assert(self.hash_tables@ == prev.hash_tables@);
                        assert forall|t2: int, c: Seq<i64>| true implies #[trigger] self.bucket(
                            t2,
                            c,
                        ) == prev.bucket(t2, c) by {
                            assert(self.hash_tables@[t2] == prev.hash_tables@[t2]);
                        }
                        assert(prev.hash_tables@[t as int] == m0.hash_tables@[t as int]);
                        assert(!m0.has_bucket(t as int, old_codes@[t as int]@));
                    }
                    return Err(HashTableError::NotFound);
                },
                Err(_) => {
                    proof {
                        assert(false);
                    }
                },
            }
            proof {
                assert forall|t2: int, c: Seq<i64>|
                    0 <= t2 < t implies #[trigger] self.bucket(t2, c) == prev.bucket(t2, c) by {
                    assert(self.hash_tables@[t2] == prev.hash_tables@[t2]);
                }
                assert forall|t2: int|
                    t < t2 < n implies #[trigger] self.hash_tables@[t2] == m0.hash_tables@[
                    t2] by {
                    assert(self.hash_tables@[t2] == prev.hash_tables@[t2]);
                }
                assert(prev.bucket(t as int, old_codes@[t as int]@) == m0.bucket(
                    t as int,
                    old_codes@[t as int]@,
                ));
                assert forall|t2: int, c: Seq<i64>, id: u32|
                    0 <= t2 < n && #[trigger] self.bucket(t2, c).contains(id) implies id
                    < m0.counter by {
                    if t2 == t {
                        if c == new_codes@[t2]@ {
                            if id != idx {
                                assert(self.bucket(t2, c).remove(idx).contains(id));
                            }
                        } else {
                            assert(self.bucket(t2, c) == prev.bucket(t2, c) || self.bucket(
                                t2,
                                c,
                            ) == prev.bucket(t2, c).remove(idx));
                        }
                    } else {
                        assert(self.bucket(t2, c) == prev.bucket(t2, c));
                    }
                }
            }
            t += 1;
        }
        Ok(())
    }

    /// Remove the point `d`'s id (found by scanning the vector store)
    /// from its codeword's bucket in every table; missing buckets are
    /// skipped.
    pub fn delete_all(&mut self, codes: &Vec<Vec<i64>>, d: &[Fx])
        requires
            old(self).wf(),
            codes@.len() == old(self).n_tables(),
            old(self).vec_store.map@.len() <= 0xffff_ffff,
        ensures
            final(self).wf(),
            final(self).n_tables() == old(self).n_tables(),
            final(self).counter == old(self).counter,
            final(self).only_index_storage == old(self).only_index_storage,
            final(self).vec_store.map@ == old(self).vec_store.map@,
            match position_of(old(self).vec_store.map@, d@) {
                Some(pos) => {
                    &&& forall|t: int|
                        0 <= t < old(self).n_tables() ==> #[trigger] final(self).bucket(
                            t,
                            codes@[t]@,
                        ) == old(self).bucket(t, codes@[t]@).remove(pos as u32)
                    &&& forall|t: int, c: Seq<i64>|
                        0 <= t < old(self).n_tables() && c != codes@[t]@ ==> #[trigger] final(self).bucket(t, c) == old(self).bucket(t, c)
                },
                None => final(self).same_state(*old(self)),
            },
            forall|t: int, c: Seq<i64>, id: u32|
                0 <= t < final(self).n_tables() && #[trigger] final(self).bucket(t, c).contains(
                    id,
                ) ==> old(self).bucket(t, c).contains(id),
    {
        let ghost m0 = *self;
        let n = self.hash_tables.len();
        let mut t: usize = 0;
        while t < n
            invariant
                t <= n,
                n == m0.n_tables(),
                codes@.len() == n,
                self.wf(),
                self.n_tables() == n,
                self.counter == m0.counter,
                self.only_index_storage == m0.only_index_storage,
                self.vec_store.map@ == m0.vec_store.map@,
                m0.vec_store.map@.len() <= 0xffff_ffff,
                match position_of(m0.vec_store.map@, d@) {
                    Some(pos) => {
                        &&& forall|t2: int|
                            0 <= t2 < t ==> #[trigger] self.bucket(t2, codes@[t2]@)
                                == m0.bucket(t2, codes@[t2]@).remove(pos as u32)
                        &&& forall|t2: int, c: Seq<i64>|
                            0 <= t2 < t && c != codes@[t2]@ ==> #[trigger] self.bucket(t2, c)
                                == m0.bucket(t2, c)
                    },
                    None => self.same_state(m0),
                },
                forall|t2: int| t <= t2 < n ==> #[trigger] self.hash_tables@[t2]
                    == m0.hash_tables@[t2],
                forall|t2: int, c: Seq<i64>, id: u32|
                    0 <= t2 < n && #[trigger] self.bucket(t2, c).contains(id) ==> m0.bucket(
                        t2,
                        c,
                    ).contains(id),
            decreases n - t,
        {
            let ghost prev = *self;
            let res = self.delete(codes[t].as_slice(), d, t);
            proof {
                assert forall|t2: int, c: Seq<i64>|
                    0 <= t2 < t implies #[trigger] self.bucket(t2, c) == prev.bucket(t2, c) by {
                    assert(self.hash_tables@[t2] == prev.hash_tables@[t2]);
                }
                assert forall|t2: int|
                    t < t2 < n implies #[trigger] self.hash_tables@[t2] == m0.hash_tables@[
                    t2] by {
                    if self.hash_tables@ == prev.hash_tables@ {
                    } else {
                        assert(self.hash_tables@[t2] == prev.hash_tables@[t2]);
                    }
                }
                assert(prev.bucket(t as int, codes@[t as int]@) == m0.bucket(
                    t as int,
                    codes@[t as int]@,
                ));
                assert forall|t2: int, c: Seq<i64>, id: u32|
                    0 <= t2 < n && #[trigger] self.bucket(t2, c).contains(id) implies m0.bucket(
                    t2,
                    c,
                ).contains(id) by {
                    if t2 == t && c == codes@[t2]@ {
                        assert(self.bucket(t2, c) == prev.bucket(t2, c) || self.bucket(t2, c)
                            == prev.bucket(t2, c).remove(
                            position_of(m0.vec_store.map@, d@).unwrap() as u32,
                        ));
                    } else {
                        assert(self.bucket(t2, c) == prev.bucket(t2, c));
                    }
                }
            }
            t += 1;
        }
    }
}


/// Number of buckets over a sequence of codeword maps.
pub open spec fn total_buckets(tables: Seq<CodeMap>) -> int
    decreases tables.len(),
{
    if tables.len() == 0 {
        0
    } else {
        total_buckets(tables.drop_last()) + tables.last().entries@.len()
    }
}

/// A bucket count is nonnegative.
proof fn lemma_total_buckets_nonneg(tables: Seq<CodeMap>)
    ensures
        total_buckets(tables) >= 0,
    decreases tables.len(),
{
    if tables.len() > 0 {
        lemma_total_buckets_nonneg(tables.drop_last());
    }
}

/// A zero bucket count over a prefix means every table of the prefix is
/// empty.
proof fn lemma_total_buckets_zero(tables: Seq<CodeMap>, t: int)
    requires
        0 <= t <= tables.len(),
        total_buckets(tables.take(t)) == 0,
    ensures
        forall|t2: int| 0 <= t2 < t ==> (#[trigger] tables[t2]).entries@.len() == 0,
    decreases t,
{
    if t > 0 {
        lemma_total_buckets_nonneg(tables.take(t - 1));
        assert(tables.take(t).drop_last() =~= tables.take(t - 1));
        assert(tables.take(t).last() == tables[t - 1]);
        lemma_total_buckets_zero(tables, t - 1);
    }
}

impl MemoryTable {
    /// Collision statistics: the number of buckets over all tables
    /// (saturating at the machine word), and the least and greatest
    /// bucket size, both zero when there are no buckets.
    pub fn bucket_stats(&self) -> (r: (usize, usize, usize))
        requires
            self.wf(),
        ensures
            r.0 as int == vstd::math::min(total_buckets(self.hash_tables@), usize::MAX as int),
            forall|t: int, k: int|
                0 <= t < self.hash_tables@.len() && 0 <= k < (
                #[trigger] self.hash_tables@[t]).entries@.len() ==> r.1 <= (
                #[trigger] self.hash_tables@[t].entries@[k]).ids@.len() <= r.2,
            r.0 == 0 ==> r.1 == 0 && r.2 == 0,
            r.0 > 0 ==> exists|t: int, k: int|
                0 <= t < self.hash_tables@.len() && 0 <= k < (
                #[trigger] self.hash_tables@[t]).entries@.len() && (
                #[trigger] self.hash_tables@[t].entries@[k]).ids@.len() == r.2,
            r.0 > 0 ==> exists|t: int, k: int|
                0 <= t < self.hash_tables@.len() && 0 <= k < (
                #[trigger] self.hash_tables@[t]).entries@.len() && (
                #[trigger] self.hash_tables@[t].entries@[k]).ids@.len() == r.1,
    {
        let mut n_buckets: usize = 0;
        let mut min_len: usize = 0;
        let mut max_len: usize = 0;
        let nt = self.hash_tables.len();
        let mut t: usize = 0;
        while t < nt
            invariant
                t <= nt,
                nt == self.hash_tables@.len(),
                n_buckets as int == vstd::math::min(
                    total_buckets(self.hash_tables@.take(t as int)),
                    usize::MAX as int,
                ),
                forall|t2: int, j: int|
                    0 <= t2 < t && 0 <= j < (#[trigger] self.hash_tables@[t2]).entries@.len()
                        ==> min_len <= (#[trigger] self.hash_tables@[t2].entries@[j]).ids@.len()
                        <= max_len,
                n_buckets == 0 ==> min_len == 0 && max_len == 0,
                n_buckets > 0 ==> exists|t2: int, j: int|
                    0 <= t2 < t && 0 <= j < (#[trigger] self.hash_tables@[t2]).entries@.len()
                        && (#[trigger] self.hash_tables@[t2].entries@[j]).ids@.len() == max_len,
                n_buckets > 0 ==> exists|t2: int, j: int|
                    0 <= t2 < t && 0 <= j < (#[trigger] self.hash_tables@[t2]).entries@.len()
                        && (#[trigger] self.hash_tables@[t2].entries@[j]).ids@.len() == min_len,
            decreases nt - t,
        {
            proof {
                lemma_total_buckets_nonneg(self.hash_tables@.take(t as int));
            }
            let tbl = &self.hash_tables[t];
            let ne = tbl.entries.len();
            let mut k: usize = 0;
            while k < ne
                invariant
                    k <= ne,
                    t < nt,
                    nt == self.hash_tables@.len(),
                    ne == self.hash_tables@[t as int].entries@.len(),
                    tbl.entries@ == self.hash_tables@[t as int].entries@,
                    total_buckets(self.hash_tables@.take(t as int)) >= 0,
                    n_buckets as int == vstd::math::min(
                        total_buckets(self.hash_tables@.take(t as int)) + k,
                        usize::MAX as int,
                    ),
                    forall|t2: int, j: int|
                        0 <= t2 < t && 0 <= j < (
                        #[trigger] self.hash_tables@[t2]).entries@.len() ==> min_len <= (
                        #[trigger] self.hash_tables@[t2].entries@[j]).ids@.len() <= max_len,
                    forall|j: int|
                        0 <= j < k ==> min_len <= (
                        #[trigger] self.hash_tables@[t as int].entries@[j]).ids@.len()
                            <= max_len,
                    n_buckets == 0 ==> min_len == 0 && max_len == 0,
                    n_buckets > 0 ==> exists|t2: int, j: int|
                        0 <= t2 <= t && t2 < nt && 0 <= j < (
                        #[trigger] self.hash_tables@[t2]).entries@.len() && (
                        #[trigger] self.hash_tables@[t2].entries@[j]).ids@.len() == max_len
                            && (t2 < t || j < k),
                    n_buckets > 0 ==> exists|t2: int, j: int|
                        0 <= t2 <= t && t2 < nt && 0 <= j < (
                        #[trigger] self.hash_tables@[t2]).entries@.len() && (
                        #[trigger] self.hash_tables@[t2].entries@[j]).ids@.len() == min_len
                            && (t2 < t || j < k),
                decreases ne - k,
            {
                let len = tbl.entries[k].ids.len();
                if n_buckets == 0 {
                    proof {
                        lemma_total_buckets_zero(self.hash_tables@, t as int);
                    }
                    min_len = len;
                    max_len = len;
                } else {
                    if len < min_len {
                        min_len = len;
                    }
                    if len > max_len {
                        max_len = len;
                    }
                }
                if n_buckets < usize::MAX {
                    n_buckets = n_buckets + 1;
                }
                k += 1;
            }
            proof {
                assert(self.hash_tables@.take(t + 1).drop_last() =~= self.hash_tables@.take(
                    t as int,
                ));
                assert(self.hash_tables@.take(t + 1).last() == self.hash_tables@[t as int]);
                if n_buckets > 0 {
                    let (t2, j) = choose|t2: int, j: int|
                        0 <= t2 <= t && t2 < nt && 0 <= j < (
                        #[trigger] self.hash_tables@[t2]).entries@.len() && (
                        #[trigger] self.hash_tables@[t2].entries@[j]).ids@.len() == max_len
                            && (t2 < t || j < ne);
                    assert(0 <= t2 < t + 1 && 0 <= j < self.hash_tables@[t2].entries@.len()
                        && self.hash_tables@[t2].entries@[j].ids@.len() == max_len);
                    let (t3, j3) = choose|t3: int, j3: int|
                        0 <= t3 <= t && t3 < nt && 0 <= j3 < (
                        #[trigger] self.hash_tables@[t3]).entries@.len() && (
                        #[trigger] self.hash_tables@[t3].entries@[j3]).ids@.len() == min_len
                            && (t3 < t || j3 < ne);
                    assert(0 <= t3 < t + 1 && 0 <= j3 < self.hash_tables@[t3].entries@.len()
                        && self.hash_tables@[t3].entries@[j3].ids@.len() == min_len);
                }
            }
            t += 1;
        }
        proof {
            assert(self.hash_tables@.take(nt as int) =~= self.hash_tables@);
        }
        (n_buckets, min_len, max_len)
    }
}

} // verus!
