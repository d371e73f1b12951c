//! The decisions of the store that sit between its files: where a write
//! goes, when the in-memory table is due for a flush, how tables are kept in
//! levels, and which table answers a read.
//!
//! The file work itself (appending to the log, writing and reading table
//! files) is done by the caller, which hands this state plain values.

use crate::memtable::MemTable;
use crate::sstable::SSTable;
use crate::types::{bytes_cmp, compare_bytes, lemma_cmp_equal, lemma_cmp_flip, lemma_lt_trans, share, DBKey, Entry};
use std::sync::Arc;
use vstd::prelude::*;

verus! {

/// Where a read of one key is answered.
pub enum Lookup<V> {
    /// The in-memory table holds a live value.
    Value(Arc<V>),
    /// The in-memory table holds a tombstone: the key is absent.
    Deleted,
    /// The in-memory table does not hold the key; the table at position
    /// `table` of level `level` is the first in read order whose index does,
    /// with the key's frame at `offset`.
    InTable { level: usize, table: usize, offset: u64 },
    /// No table holds the key: it is absent.
    Missing,
}

/// The UTF-8 bytes of a table's file name, by which a level is ordered.
pub open spec fn name_bytes<K: DBKey>(t: SSTable<K>) -> Seq<u8> {
    vstd::utf8::encode_utf8(t.path_view())
}

/// The tables of a level ascend by file name, that is by creation.
pub open spec fn level_sorted<K: DBKey>(level: Seq<SSTable<K>>) -> bool {
    forall|a: int, b: int|
        0 <= a < b < level.len() ==> bytes_cmp(name_bytes(#[trigger] level[a]), name_bytes(
            #[trigger] level[b],
        )) != core::cmp::Ordering::Greater
}

/// The newest table among the first `n` of a level whose index holds `kb`.
pub open spec fn newest_holder<K: DBKey>(level: Seq<SSTable<K>>, kb: Seq<u8>, n: int) -> Option<
    int,
>
    decreases n,
{
    if n <= 0 {
        None
    } else if level[n - 1]@.contains_key(kb) {
        Some(n - 1)
    } else {
        newest_holder(level, kb, n - 1)
    }
}

/// The first table, in read order from level `l` on, whose index holds `kb`:
/// lower levels first, and within a level the newest first.
pub open spec fn first_holder<K: DBKey>(levels: Seq<Seq<SSTable<K>>>, kb: Seq<u8>, l: int) -> Option<
    (int, int),
>
    decreases levels.len() - l,
{
    if l < 0 || l >= levels.len() {
        None
    } else {
        match newest_holder(levels[l], kb, levels[l].len() as int) {
            Some(t) => Some((l, t)),
            None => first_holder(levels, kb, l + 1),
        }
    }
}

/// The answer of the read protocol for `kb`: the in-memory table first, then
/// the tables in read order.
pub open spec fn lookup_in<K: DBKey, V>(
    mem: Map<Seq<u8>, Entry<V>>,
    levels: Seq<Seq<SSTable<K>>>,
    kb: Seq<u8>,
) -> Lookup<V> {
    if mem.contains_key(kb) {
        if mem[kb].is_tombstone {
            Lookup::Deleted
        } else {
            Lookup::Value(mem[kb].value.unwrap())
        }
    } else {
        match first_holder(levels, kb, 0) {
            Some((l, t)) => Lookup::InTable {
                level: l as usize,
                table: t as usize,
                offset: levels[l][t]@[kb],
            },
            None => Lookup::Missing,
        }
    }
}

/// The tables of `level`, or none when there is no such level yet.
pub open spec fn level_base<K>(levels: Seq<Seq<SSTable<K>>>, level: int) -> Seq<SSTable<K>> {
    if 0 <= level < levels.len() {
        levels[level]
    } else {
        Seq::empty()
    }
}

/// `a + b`, or `usize::MAX` when the sum does not fit.
pub open spec fn saturating_sum(a: usize, b: usize) -> usize {
    if a + b > usize::MAX {
        usize::MAX
    } else {
        (a + b) as usize
    }
}

/// The position in `level` before the first table whose name sorts after the
/// name of `table`.
fn insertion_point<K: DBKey>(level: &Vec<SSTable<K>>, table: &SSTable<K>) -> (pos: usize)
    ensures
        pos <= level@.len(),
        forall|j: int|
            0 <= j < pos ==> bytes_cmp(name_bytes(#[trigger] level@[j]), name_bytes(*table))
                != core::cmp::Ordering::Greater,
        pos < level@.len() ==> bytes_cmp(name_bytes(level@[pos as int]), name_bytes(*table))
            == core::cmp::Ordering::Greater,
{
    let name = table.path().as_str().as_bytes();
    let mut pos: usize = 0;
    while pos < level.len()
        invariant
            pos <= level@.len(),
            name@ == name_bytes(*table),
            forall|j: int|
                0 <= j < pos ==> bytes_cmp(name_bytes(#[trigger] level@[j]), name_bytes(*table))
                    != core::cmp::Ordering::Greater,
        decreases level@.len() - pos,
    {
        let other = level[pos].path().as_str().as_bytes();
        match compare_bytes(other, name) {
            core::cmp::Ordering::Greater => {
                return pos;
            },
            _ => {},
        }
        pos = pos + 1;
    }
    pos
}

/// The in-memory state of an open store: the table of recent writes with
/// its accounted size and flush threshold, and the open tables by level.
pub struct DbState<K, V> {
    memtable: MemTable<K, V>,
    levels: Vec<Vec<SSTable<K>>>,
    memtable_size: usize,
    max_memtable_size: usize,
}

impl<K: DBKey, V> DbState<K, V> {
    /// The contents of the in-memory table.
    pub closed spec fn mem_view(&self) -> Map<Seq<u8>, Entry<V>> {
        self.memtable@
    }

    /// The open tables, level by level.
    pub closed spec fn levels_view(&self) -> Seq<Seq<SSTable<K>>> {
        self.levels@.map_values(|l: Vec<SSTable<K>>| l@)
    }

    /// Bytes accounted to the in-memory table since it was last flushed.
    pub closed spec fn size_view(&self) -> usize {
        self.memtable_size
    }

    /// The accounted size above which the in-memory table is flushed.
    pub closed spec fn max_view(&self) -> usize {
        self.max_memtable_size
    }

    /// The read protocol's answer for `kb` in this state.
    pub open spec fn lookup(&self, kb: Seq<u8>) -> Lookup<V> {
        lookup_in(self.mem_view(), self.levels_view(), kb)
    }

    /// The in-memory table is well formed, there is at least level 0, every
    /// table is well formed and every level is ordered by file name.
    pub closed spec fn wf(&self) -> bool {
        &&& self.memtable.wf()
        &&& self.levels@.len() >= 1
        &&& forall|l: int, t: int|
            0 <= l < self.levels@.len() && 0 <= t < self.levels@[l]@.len() ==> (
            #[trigger] self.levels@[l]@[t]).wf()
        &&& forall|l: int| 0 <= l < self.levels@.len() ==> level_sorted(#[trigger] self.levels@[l]@)
    }

    /// The tables of every level ascend by file name.
    pub proof fn lemma_levels_sorted(&self)
        requires
            self.wf(),
        ensures
            forall|l: int|
                0 <= l < self.levels_view().len() ==> level_sorted(#[trigger] self.levels_view()[l]),
    {
        assert forall|l: int| 0 <= l < self.levels_view().len() implies level_sorted(
            #[trigger] self.levels_view()[l],
        ) by {
            assert(self.levels_view()[l] == self.levels@[l]@);
        }
    }

    /// A state over `memtable`, with no table yet and an empty level 0.
    pub fn new(memtable: MemTable<K, V>, max_memtable_size: usize) -> (r: Self)
        requires
            memtable.wf(),
        ensures
            r.wf(),
            r.mem_view() == memtable@,
            r.levels_view() == seq![Seq::<SSTable<K>>::empty()],
            r.size_view() == 0,
            r.max_view() == max_memtable_size,
    {
        let mut levels: Vec<Vec<SSTable<K>>> = Vec::new();
        levels.push(Vec::new());
        let r = DbState { memtable, levels, memtable_size: 0, max_memtable_size };
        assert(r.levels_view() =~= seq![Seq::<SSTable<K>>::empty()]);
        r
    }

    /// The in-memory table.
    pub fn memtable(&self) -> (r: &MemTable<K, V>)
        requires
            self.wf(),
        ensures
            r.wf(),
            r@ == self.mem_view(),
    {
        &self.memtable
    }

    /// Bytes accounted to the in-memory table since it was last flushed.
    pub fn memtable_size(&self) -> (r: usize)
        ensures
            r == self.size_view(),
    {
        self.memtable_size
    }

    /// The accounted size above which the in-memory table is flushed.
    pub fn max_memtable_size(&self) -> (r: usize)
        ensures
            r == self.max_view(),
    {
        self.max_memtable_size
    }

    /// Changes the flush threshold.
    pub fn set_max_memtable_size(&mut self, max: usize)
        requires
            old(self).wf(),
        ensures
            final(self).wf(),
            final(self).max_view() == max,
            final(self).mem_view() == old(self).mem_view(),
            final(self).levels_view() == old(self).levels_view(),
            final(self).size_view() == old(self).size_view(),
    {
        self.max_memtable_size = max;
    }

    /// Number of levels.
    pub fn level_count(&self) -> (r: usize)
        ensures
            r == self.levels_view().len(),
    {
        self.levels.len()
    }

    /// Number of tables in `level`.
    pub fn level_len(&self, level: usize) -> (r: usize)
        requires
            level < self.levels_view().len(),
        ensures
            r == self.levels_view()[level as int].len(),
    {
        self.levels[level].len()
    }

    /// The table at position `table` of `level`.
    pub fn table(&self, level: usize, table: usize) -> (r: &SSTable<K>)
        requires
            self.wf(),
            level < self.levels_view().len(),
            table < self.levels_view()[level as int].len(),
        ensures
            r.wf(),
            *r == self.levels_view()[level as int][table as int],
    {
        &self.levels[level][table]
    }

    /// Records a put that the log has made durable: `key` now maps to a live
    /// `value`, and `footprint` bytes are accounted to the in-memory table.
    /// Returns whether the accounted size now exceeds the flush threshold.
    pub fn record_put(&mut self, key: K, value: Arc<V>, footprint: usize) -> (flush_due: bool)
        requires
            old(self).wf(),
        ensures
            final(self).wf(),
            final(self).mem_view() == old(self).mem_view().insert(
                key.key_bytes(),
                Entry { value: Some(value), is_tombstone: false },
            ),
            final(self).levels_view() == old(self).levels_view(),
            final(self).size_view() == saturating_sum(old(self).size_view(), footprint),
            final(self).max_view() == old(self).max_view(),
            flush_due == (final(self).size_view() > final(self).max_view()),
            final(self).lookup(key.key_bytes()) == Lookup::Value(value),
            forall|kb: Seq<u8>|
                kb != key.key_bytes() ==> #[trigger] final(self).lookup(kb) == old(self).lookup(
                    kb,
                ),
    {
        if footprint > usize::MAX - self.memtable_size {
            self.memtable_size = usize::MAX;
        } else {
            self.memtable_size = self.memtable_size + footprint;
        }
        self.memtable.put(key, value);
        self.memtable_size > self.max_memtable_size
    }

    /// Records a delete that the log has made durable: `key` now maps to a
    /// tombstone, which hides it from reads whatever the tables hold.
    pub fn record_delete(&mut self, key: K)
        requires
            old(self).wf(),
        ensures
            final(self).wf(),
            final(self).mem_view() == old(self).mem_view().insert(
                key.key_bytes(),
                Entry { value: None, is_tombstone: true },
            ),
            final(self).levels_view() == old(self).levels_view(),
            final(self).size_view() == old(self).size_view(),
            final(self).max_view() == old(self).max_view(),
            final(self).lookup(key.key_bytes()) == Lookup::<V>::Deleted,
            forall|kb: Seq<u8>|
                kb != key.key_bytes() ==> #[trigger] final(self).lookup(kb) == old(self).lookup(
                    kb,
                ),
    {
        self.memtable.delete(key);
    }

    /// Adds `table` to `level`, creating the levels up to it if needed, at
    /// the position that keeps the level ordered by file name; returns that
    /// position.
    pub fn add_table(&mut self, level: usize, table: SSTable<K>) -> (pos: usize)
        requires
            old(self).wf(),
            table.wf(),
            level < usize::MAX,
        ensures
            final(self).wf(),
            final(self).mem_view() == old(self).mem_view(),
            final(self).size_view() == old(self).size_view(),
            final(self).max_view() == old(self).max_view(),
            final(self).levels_view().len() == if level < old(self).levels_view().len() {
                old(self).levels_view().len() as int
            } else {
                level + 1
            },
            forall|l: int|
                0 <= l < final(self).levels_view().len() && l != level
                    ==> #[trigger] final(self).levels_view()[l] == if l < old(self).levels_view().len() {
                    old(self).levels_view()[l]
                } else {
                    Seq::<SSTable<K>>::empty()
                },
            pos <= level_base(old(self).levels_view(), level as int).len(),
            final(self).levels_view()[level as int] == level_base(
                old(self).levels_view(),
                level as int,
            ).insert(pos as int, table),
            forall|j: int|
                0 <= j < pos ==> bytes_cmp(
                    name_bytes(#[trigger] level_base(old(self).levels_view(), level as int)[j]),
                    name_bytes(table),
                ) != core::cmp::Ordering::Greater,
            pos < level_base(old(self).levels_view(), level as int).len() ==> bytes_cmp(
                name_bytes(level_base(old(self).levels_view(), level as int)[pos as int]),
                name_bytes(table),
            ) == core::cmp::Ordering::Greater,
            forall|l: int|
                0 <= l < final(self).levels_view().len() ==> level_sorted(
                    #[trigger] final(self).levels_view()[l],
                ),
    {
        let ghost old_levels = self.levels@;
        while self.levels.len() <= level
            invariant
                old_levels.len() >= 1,
                self.levels@.len() >= old_levels.len(),
                self.levels@.len() <= if level < old_levels.len() {
                    old_levels.len() as int
                } else {
                    level + 1
                },
                forall|l: int|
                    0 <= l < self.levels@.len() ==> #[trigger] self.levels@[l]@ == if l
                        < old_levels.len() {
                        old_levels[l]@
                    } else {
                        Seq::<SSTable<K>>::empty()
                    },
                self.memtable == old(self).memtable,
                self.memtable_size == old(self).memtable_size,
                self.max_memtable_size == old(self).max_memtable_size,
            decreases level + 1 - self.levels@.len(),
        {
            self.levels.push(Vec::new());
        }
        let ghost grown = self.levels@;
        let mut lv = self.levels.remove(level);
        let ghost base = lv@;
        let pos = insertion_point(&lv, &table);
        lv.insert(pos, table);
        proof {
            let nl = lv@;
            assert(nl == base.insert(pos as int, table));
            assert(grown[level as int]@ == base);
            assert(level_sorted(base));
            assert forall|a: int, b: int| 0 <= a < b < nl.len() implies bytes_cmp(
                name_bytes(#[trigger] nl[a]),
                name_bytes(#[trigger] nl[b]),
            ) != core::cmp::Ordering::Greater by {
                if b < pos {
                    assert(nl[a] == base[a] && nl[b] == base[b]);
                } else if a > pos {
                    assert(nl[a] == base[a - 1] && nl[b] == base[b - 1]);
                } else if b == pos {
                    assert(nl[a] == base[a]);
                } else if a < pos {
                    assert(nl[a] == base[a] && nl[b] == base[b - 1]);
                } else {
                    // a == pos < b: the table sorts before base[pos] <= base[b - 1]
                    let x = name_bytes(table);
                    let y = name_bytes(base[pos as int]);
                    let z = name_bytes(base[b - 1]);
                    assert(nl[b] == base[b - 1]);
                    assert(bytes_cmp(y, x) == core::cmp::Ordering::Greater);
                    lemma_cmp_flip(y, x);
                    if b - 1 > pos {
                        assert(bytes_cmp(y, z) != core::cmp::Ordering::Greater);
                        lemma_cmp_equal(y, z);
                        if bytes_cmp(y, z) == core::cmp::Ordering::Less {
                            lemma_lt_trans(x, y, z);
                        }
                    }
                }
            }
        }
        self.levels.insert(level, lv);
        proof {
            assert(self.levels@ == grown.update(level as int, lv));
            assert forall|l: int| 0 <= l < self.levels@.len() implies level_sorted(
                #[trigger] self.levels@[l]@,
            ) by {
                if l != level {
                    assert(self.levels@[l] == grown[l]);
                    if l >= old_levels.len() {
                        assert(level_sorted(grown[l]@));
                    }
                }
            }
            assert forall|l: int, t: int|
                0 <= l < self.levels@.len() && 0 <= t < self.levels@[l]@.len() implies (
            #[trigger] self.levels@[l]@[t]).wf() by {
                if l == level {
                    if t > pos {
                        assert(self.levels@[l]@[t] == base[t - 1]);
                    } else if t < pos {
                        assert(self.levels@[l]@[t] == base[t]);
                    }
                } else {
                    assert(self.levels@[l] == grown[l]);
                }
            }
            assert forall|l: int|
                0 <= l < self.levels_view().len() && l != level implies #[trigger] self.levels_view()[l]
                    == if l < old(self).levels_view().len() {
                    old(self).levels_view()[l]
                } else {
                    Seq::<SSTable<K>>::empty()
                } by {
                assert(self.levels@[l] == grown[l]);
            }
            self.lemma_levels_sorted();
            if level < old_levels.len() {
                assert(base == old(self).levels_view()[level as int]);
            } else {
                assert(base == Seq::<SSTable<K>>::empty());
            }
        }
        pos
    }

    /// Records a finished flush: `table`, written from the in-memory table and
    /// so indexing exactly its keys, joins level 0 in name order; the
    /// in-memory table is emptied and its accounted size reset. Returns the
    /// table's position in level 0. When the table is the newest of level 0,
    /// every key it took from memory is now read from it.
    pub fn install_flush(&mut self, table: SSTable<K>) -> (pos: usize)
        requires
            old(self).wf(),
            table.wf(),
            table@.dom() == old(self).mem_view().dom(),
        ensures
            final(self).wf(),
            final(self).mem_view() == Map::<Seq<u8>, Entry<V>>::empty(),
            final(self).size_view() == 0,
            final(self).max_view() == old(self).max_view(),
            final(self).levels_view().len() == old(self).levels_view().len(),
            forall|l: int|
                0 < l < final(self).levels_view().len() ==> #[trigger] final(self).levels_view()[l]
                    == old(self).levels_view()[l],
            pos <= old(self).levels_view()[0].len(),
            final(self).levels_view()[0] == old(self).levels_view()[0].insert(pos as int, table),
            forall|j: int|
                0 <= j < pos ==> bytes_cmp(
                    name_bytes(#[trigger] old(self).levels_view()[0][j]),
                    name_bytes(table),
                ) != core::cmp::Ordering::Greater,
            pos < old(self).levels_view()[0].len() ==> bytes_cmp(
                name_bytes(old(self).levels_view()[0][pos as int]),
                name_bytes(table),
            ) == core::cmp::Ordering::Greater,
            forall|l: int|
                0 <= l < final(self).levels_view().len() ==> level_sorted(
                    #[trigger] final(self).levels_view()[l],
                ),
            pos == old(self).levels_view()[0].len() ==> forall|kb: Seq<u8>|
                old(self).mem_view().contains_key(kb) ==> #[trigger] final(self).lookup(kb)
                    == (Lookup::<V>::InTable { level: 0, table: pos, offset: table@[kb] }),
    {
        let ghost t = table;
        let ghost base = old(self).levels_view()[0];
        assert(old(self).levels_view().len() == old(self).levels@.len());
        let pos = self.add_table(0, table);
        proof {
            assert(level_base(old(self).levels_view(), 0) == base);
        }
        self.memtable.clear();
        self.memtable_size = 0;
        proof {
            if pos == old(self).levels_view()[0].len() {
                assert forall|kb: Seq<u8>| old(self).mem_view().contains_key(kb) implies #[trigger] self.lookup(
                    kb,
                ) == (Lookup::<V>::InTable { level: 0, table: pos, offset: t@[kb] }) by {
                    let l0 = self.levels_view()[0];
                    assert(l0[pos as int] == t);
                    assert(t@.dom().contains(kb));
                    assert(newest_holder(l0, kb, l0.len() as int) == Some(pos as int));
                }
            }
        }
        pos
    }

    /// Where the read of `key` is answered: the in-memory table when it
    /// holds the key, else the first table in read order whose index does.
    pub fn locate(&self, key: &K) -> (r: Lookup<V>)
        requires
            self.wf(),
        ensures
            r == self.lookup(key.key_bytes()),
    {
        let ghost kb = key.key_bytes();
        match self.memtable.entry(key) {
            Some(e) => {
                proof {
                    self.memtable.lemma_entries_wf(kb);
                }
                if e.is_tombstone {
                    Lookup::Deleted
                } else {
                    match &e.value {
                        Some(v) => Lookup::Value(share(v)),
                        None => Lookup::Deleted,
                    }
                }
            },
            None => {
                let ghost lvs = self.levels_view();
                let mut l: usize = 0;
                while l < self.levels.len()
                    invariant
                        self.wf(),
                        lvs == self.levels_view(),
                        kb == key.key_bytes(),
                        !self.mem_view().contains_key(kb),
                        l <= lvs.len(),
                        first_holder(lvs, kb, 0) == first_holder(lvs, kb, l as int),
                    decreases lvs.len() - l,
                {
                    let level = &self.levels[l];
                    assert(level@ == lvs[l as int]);
                    let mut t: usize = level.len();
                    while t > 0
                        invariant
                            self.wf(),
                            lvs == self.levels_view(),
                            kb == key.key_bytes(),
                            !self.mem_view().contains_key(kb),
                            l < lvs.len(),
                            level@ == lvs[l as int],
                            t <= level@.len(),
                            first_holder(lvs, kb, 0) == first_holder(lvs, kb, l as int),
                            newest_holder(level@, kb, level@.len() as int) == newest_holder(
                                level@,
                                kb,
                                t as int,
                            ),
                        decreases t,
                    {
                        assert(self.levels@[l as int]@[t - 1] == level@[t - 1]);
                        match level[t - 1].offset_of(key) {
                            Some(off) => {
                                return Lookup::InTable { level: l, table: t - 1, offset: off };
                            },
                            None => {},
                        }
                        t = t - 1;
                    }
                    l = l + 1;
                }
                Lookup::Missing
            },
        }
    }
}

} // verus!
