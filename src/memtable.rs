//! The in-memory table of recent writes.
//!
//! One vector, kept in ascending key order, serves both the point lookups
//! (by binary search) and the ordered traversal that a flush needs, so the
//! two can never disagree.

use crate::sorted::{
    has_pair, lemma_map_of_at, lemma_map_of_dom, lemma_map_of_len, lemma_map_of_upsert,
    lemma_sorted_drop_last, map_of, search_sorted, strictly_sorted,
};
use crate::types::{bytes_lt, lemma_lt_irreflexive, share, DBKey, Entry};
use std::sync::Arc;
use vstd::prelude::*;

verus! {

/// The keys of `m` whose entry is not a tombstone.
pub open spec fn live_keys<V>(m: Map<Seq<u8>, Entry<V>>) -> Set<Seq<u8>> {
    m.dom().filter(|kb: Seq<u8>| !m[kb].is_tombstone)
}

/// What a reader sees for `kb` in `m`: the value of a live entry, nothing for a
/// tombstone or a missing key.
pub open spec fn visible<V>(m: Map<Seq<u8>, Entry<V>>, kb: Seq<u8>) -> Option<Arc<V>> {
    if m.contains_key(kb) && !m[kb].is_tombstone {
        m[kb].value
    } else {
        None
    }
}

/// Number of pairs of `s` whose entry is not a tombstone.
pub open spec fn live_count<K, V>(s: Seq<(K, Entry<V>)>) -> nat
    decreases s.len(),
{
    if s.len() == 0 {
        0
    } else {
        live_count(s.drop_last()) + if s.last().1.is_tombstone {
            0nat
        } else {
            1nat
        }
    }
}

/// The live keys of a sorted sequence's map are as many as its live pairs.
proof fn lemma_live_count<K: DBKey, V>(s: Seq<(K, Entry<V>)>)
    requires
        strictly_sorted(s),
    ensures
        live_keys(map_of(s)).len() == live_count(s),
    decreases s.len(),
{
    if s.len() > 0 {
        let t = s.drop_last();
        let k = s.last().0.key_bytes();
        let m = map_of(t);
        lemma_sorted_drop_last(s);
        lemma_live_count(t);
        lemma_map_of_len(t);
        if m.contains_key(k) {
            lemma_map_of_dom(t, k);
            let i = choose|i: int| 0 <= i < t.len() && #[trigger] t[i].0.key_bytes() == k;
            assert(bytes_lt(s[i].0.key_bytes(), s[s.len() - 1].0.key_bytes()));
            lemma_lt_irreflexive(k);
        }
        let lk = live_keys(m);
        assert(lk.subset_of(m.dom()));
        vstd::set_lib::lemma_len_subset(lk, m.dom());
        assert(!lk.contains(k));
        if s.last().1.is_tombstone {
            assert(live_keys(map_of(s)) =~= lk);
        } else {
            assert(live_keys(map_of(s)) =~= lk.insert(k));
        }
    } else {
        assert(live_keys(map_of(s)) =~= Set::<Seq<u8>>::empty());
    }
}

/// The in-memory table: each key maps to its latest entry, live or tombstone.
pub struct MemTable<K, V> {
    entries: Vec<(K, Entry<V>)>,
}

impl<K: DBKey, V> View for MemTable<K, V> {
    type V = Map<Seq<u8>, Entry<V>>;

    closed spec fn view(&self) -> Map<Seq<u8>, Entry<V>> {
        map_of(self.entries@)
    }
}

impl<K: DBKey, V> MemTable<K, V> {
    spec fn key_at(&self, i: int) -> Seq<u8> {
        self.entries@[i].0.key_bytes()
    }

    /// The table's keys are kept in ascending order, and every entry is well
    /// formed.
    pub closed spec fn wf(&self) -> bool {
        &&& strictly_sorted(self.entries@)
        &&& forall|i: int| 0 <= i < self.entries@.len() ==> (#[trigger] self.entries@[i]).1.wf()
    }

    /// The table's keys with their entries, in ascending key order.
    pub closed spec fn listing(&self) -> Seq<(K, Entry<V>)> {
        self.entries@
    }

    /// The listing ascends strictly and lists exactly the table's contents.
    pub proof fn lemma_listing(&self)
        requires
            self.wf(),
        ensures
            strictly_sorted(self.listing()),
            map_of(self.listing()) == self@,
            self.listing().len() == self@.len(),
    {
        lemma_map_of_len(self.entries@);
    }

    /// Every entry of the table is well formed.
    pub proof fn lemma_entries_wf(&self, kb: Seq<u8>)
        requires
            self.wf(),
            self@.contains_key(kb),
        ensures
            self@[kb].wf(),
    {
        lemma_map_of_dom(self.entries@, kb);
        let i = choose|i: int|
            0 <= i < self.entries@.len() && #[trigger] self.entries@[i].0.key_bytes() == kb;
        lemma_map_of_at(self.entries@, i);
    }

    /// An empty table.
    pub fn new() -> (r: Self)
        ensures
            r.wf(),
            r@ == Map::<Seq<u8>, Entry<V>>::empty(),
    {
        MemTable { entries: Vec::new() }
    }

    /// Finds `key`: `Ok` with its position, or `Err` with the position where
    /// it would be inserted.
    fn search(&self, key: &K) -> (r: Result<usize, usize>)
        requires
            self.wf(),
        ensures
            match r {
                Ok(i) => i < self.entries@.len() && self.key_at(i as int) == key.key_bytes(),
                Err(i) => {
                    &&& i <= self.entries@.len()
                    &&& forall|j: int|
                        0 <= j < i ==> bytes_lt(#[trigger] self.key_at(j), key.key_bytes())
                    &&& forall|j: int|
                        i <= j < self.entries@.len() ==> bytes_lt(
                            key.key_bytes(),
                            #[trigger] self.key_at(j),
                        )
                },
            },
    {
        search_sorted(&self.entries, key)
    }

    /// Sets `key` to `entry`, returning the entry it replaced, if any.
    fn upsert(&mut self, key: K, entry: Entry<V>) -> (r: Option<Entry<V>>)
        requires
            old(self).wf(),
            entry.wf(),
        ensures
            final(self).wf(),
            final(self)@ == old(self)@.insert(key.key_bytes(), entry),
            r == (if old(self)@.contains_key(key.key_bytes()) {
                Some(old(self)@[key.key_bytes()])
            } else {
                None
            }),
    {
        let ghost kb = key.key_bytes();
        let ghost s = self.entries@;
        let ghost p = (key, entry);
        match self.search(&key) {
            Ok(i) => {
                let old_pair = self.entries.remove(i);
                self.entries.insert(i, (key, entry));
                proof {
                    let t = self.entries@;
                    assert(t =~= s.update(i as int, p));
                    assert forall|a: int, b: int| 0 <= a < b < t.len() implies #[trigger] bytes_lt(
                        t[a].0.key_bytes(),
                        t[b].0.key_bytes(),
                    ) by {
                        assert(bytes_lt(s[a].0.key_bytes(), s[b].0.key_bytes()));
                    }
                    assert forall|j: int| 0 <= j < t.len() && j != i implies has_pair(
                        s,
                        #[trigger] t[j],
                    ) by {
                        assert(s[j] == t[j]);
                    }
                    assert forall|j: int|
                        0 <= j < s.len() && s[j].0.key_bytes() != kb implies has_pair(
                        t,
                        #[trigger] s[j],
                    ) by {
                        assert(s[j] == t[j]);
                    }
                    lemma_map_of_upsert(s, t, i as int, p);
                    lemma_map_of_at(s, i as int);
                }
                Some(old_pair.1)
            },
            Err(i) => {
                self.entries.insert(i, (key, entry));
                proof {
                    let t = self.entries@;
                    assert(t =~= s.insert(i as int, p));
                    assert forall|a: int, b: int| 0 <= a < b < t.len() implies #[trigger] bytes_lt(
                        t[a].0.key_bytes(),
                        t[b].0.key_bytes(),
                    ) by {
                        if b < i {
                            assert(bytes_lt(s[a].0.key_bytes(), s[b].0.key_bytes()));
                        } else if a > i {
                            assert(bytes_lt(s[a - 1].0.key_bytes(), s[b - 1].0.key_bytes()));
                        } else if b == i {
                            assert(bytes_lt(old(self).key_at(a), kb));
                        } else if a == i {
                            assert(bytes_lt(kb, old(self).key_at(b - 1)));
                        } else {
                            assert(bytes_lt(s[a].0.key_bytes(), s[b - 1].0.key_bytes()));
                        }
                    }
                    assert forall|j: int| 0 <= j < t.len() && j != i implies has_pair(
                        s,
                        #[trigger] t[j],
                    ) by {
                        if j < i {
                            assert(s[j] == t[j]);
                        } else {
                            assert(s[j - 1] == t[j]);
                        }
                    }
                    assert forall|j: int|
                        0 <= j < s.len() && s[j].0.key_bytes() != kb implies has_pair(
                        t,
                        #[trigger] s[j],
                    ) by {
                        if j < i {
                            assert(s[j] == t[j]);
                        } else {
                            assert(s[j] == t[j + 1]);
                        }
                    }
                    lemma_map_of_upsert(s, t, i as int, p);
                    if map_of(s).contains_key(kb) {
                        lemma_map_of_dom(s, kb);
                        let j = choose|j: int| 0 <= j < s.len() && #[trigger] s[j].0.key_bytes() == kb;
                        assert(old(self).key_at(j) == kb);
                        lemma_lt_irreflexive(kb);
                    }
                }
                None
            },
        }
    }

    /// Sets `key` to a live entry holding `value`; returns the entry it
    /// replaced, if any.
    pub fn put(&mut self, key: K, value: Arc<V>) -> (r: Option<Entry<V>>)
        requires
            old(self).wf(),
        ensures
            final(self).wf(),
            final(self)@ == old(self)@.insert(
                key.key_bytes(),
                Entry { value: Some(value), is_tombstone: false },
            ),
            r == (if old(self)@.contains_key(key.key_bytes()) {
                Some(old(self)@[key.key_bytes()])
            } else {
                None
            }),
    {
        self.upsert(key, Entry::live(value))
    }

    /// Marks `key` as deleted with a tombstone, whether or not the table held
    /// it; returns the entry it replaced, if any.
    pub fn delete(&mut self, key: K) -> (r: Option<Entry<V>>)
        requires
            old(self).wf(),
        ensures
            final(self).wf(),
            final(self)@ == old(self)@.insert(
                key.key_bytes(),
                Entry { value: None, is_tombstone: true },
            ),
            r == (if old(self)@.contains_key(key.key_bytes()) {
                Some(old(self)@[key.key_bytes()])
            } else {
                None
            }),
    {
        self.upsert(key, Entry::tombstone())
    }

    /// The entry the table holds for `key`, tombstone or live.
    pub fn entry(&self, key: &K) -> (r: Option<&Entry<V>>)
        requires
            self.wf(),
        ensures
            r == (if self@.contains_key(key.key_bytes()) {
                Some(&self@[key.key_bytes()])
            } else {
                None
            }),
    {
        match self.search(key) {
            Ok(i) => {
                proof {
                    lemma_map_of_at(self.entries@, i as int);
                }
                Some(&self.entries[i].1)
            },
            Err(i) => {
                proof {
                    let kb = key.key_bytes();
                    if self@.contains_key(kb) {
                        lemma_map_of_dom(self.entries@, kb);
                        let j = choose|j: int|
                            0 <= j < self.entries@.len() && #[trigger] self.entries@[j].0.key_bytes()
                                == kb;
                        assert(self.key_at(j) == kb);
                        lemma_lt_irreflexive(kb);
                    }
                }
                None
            },
        }
    }

    /// The value of `key`; nothing when the key is missing or deleted.
    pub fn get(&self, key: &K) -> (r: Option<Arc<V>>)
        requires
            self.wf(),
        ensures
            r == visible(self@, key.key_bytes()),
    {
        match self.entry(key) {
            Some(e) => {
                if e.is_tombstone {
                    None
                } else {
                    match &e.value {
                        Some(v) => Some(share(v)),
                        None => None,
                    }
                }
            },
            None => None,
        }
    }

    /// Number of keys whose entry is live.
    pub fn len(&self) -> (r: usize)
        requires
            self.wf(),
        ensures
            r == live_keys(self@).len(),
    {
        let mut count: usize = 0;
        let mut i: usize = 0;
        while i < self.entries.len()
            invariant
                i <= self.entries@.len(),
                count == live_count(self.entries@.take(i as int)),
                count <= i,
            decreases self.entries@.len() - i,
        {
            assert(self.entries@.take(i + 1).drop_last() =~= self.entries@.take(i as int));
            if !self.entries[i].1.is_tombstone {
                count = count + 1;
            }
            i = i + 1;
        }
        proof {
            assert(self.entries@.take(i as int) =~= self.entries@);
            lemma_live_count(self.entries@);
        }
        count
    }

    /// Number of keys the table holds, tombstones included.
    pub fn entry_count(&self) -> (r: usize)
        requires
            self.wf(),
        ensures
            r == self@.len(),
    {
        proof {
            lemma_map_of_len(self.entries@);
        }
        self.entries.len()
    }

    /// Removes every key.
    pub fn clear(&mut self)
        ensures
            final(self).wf(),
            final(self)@ == Map::<Seq<u8>, Entry<V>>::empty(),
    {
        self.entries.clear();
    }

    /// Every key with its entry, tombstones included, in ascending key order.
    pub fn iter(&self) -> (r: Vec<(&K, &Entry<V>)>)
        requires
            self.wf(),
        ensures
            r@.len() == self@.len(),
            forall|i: int, j: int|
                0 <= i < j < r@.len() ==> #[trigger] bytes_lt(
                    r@[i].0.key_bytes(),
                    r@[j].0.key_bytes(),
                ),
            forall|i: int|
                0 <= i < r@.len() ==> self@.contains_key((#[trigger] r@[i]).0.key_bytes())
                    && self@[r@[i].0.key_bytes()] == *r@[i].1,
            forall|i: int|
                0 <= i < r@.len() ==> (#[trigger] r@[i]).0 == self.listing()[i].0 && *r@[i].1
                    == self.listing()[i].1,
    {
        let mut out: Vec<(&K, &Entry<V>)> = Vec::new();
        let mut i: usize = 0;
        while i < self.entries.len()
            invariant
                self.wf(),
                i <= self.entries@.len(),
                out@.len() == i,
                forall|j: int|
                    0 <= j < i ==> (#[trigger] out@[j]).0 == self.entries@[j].0 && *out@[j].1
                        == self.entries@[j].1,
            decreases self.entries@.len() - i,
        {
            let pair = &self.entries[i];
            out.push((&pair.0, &pair.1));
            i = i + 1;
        }
        proof {
            lemma_map_of_len(self.entries@);
            assert forall|a: int, b: int| 0 <= a < b < out@.len() implies #[trigger] bytes_lt(
                out@[a].0.key_bytes(),
                out@[b].0.key_bytes(),
            ) by {
                assert(out@[a].0 == self.entries@[a].0);
                assert(out@[b].0 == self.entries@[b].0);
                assert(bytes_lt(self.entries@[a].0.key_bytes(), self.entries@[b].0.key_bytes()));
            }
            assert forall|a: int| 0 <= a < out@.len() implies self@.contains_key(
                (#[trigger] out@[a]).0.key_bytes(),
            ) && self@[out@[a].0.key_bytes()] == *out@[a].1 by {
                lemma_map_of_at(self.entries@, a);
            }
        }
        out
    }
}

} // verus!
