//! Vectors of key/value pairs kept in strictly ascending key order, and the
//! map they stand for.

use crate::types::{
    bytes_lt, lemma_cmp_equal, lemma_cmp_flip, lemma_lt_irreflexive, lemma_lt_trans, DBKey,
};
use vstd::prelude::*;

verus! {

/// The keys of `s` ascend strictly.
pub open spec fn strictly_sorted<K: DBKey, T>(s: Seq<(K, T)>) -> bool {
    forall|i: int, j: int|
        0 <= i < j < s.len() ==> #[trigger] bytes_lt(s[i].0.key_bytes(), s[j].0.key_bytes())
}

/// The mapping from key bytes to entries that `s` lists, a later pair
/// overriding an earlier one.
pub open spec fn map_of<K: DBKey, T>(s: Seq<(K, T)>) -> Map<Seq<u8>, T>
    decreases s.len(),
{
    if s.len() == 0 {
        Map::empty()
    } else {
        map_of(s.drop_last()).insert(s.last().0.key_bytes(), s.last().1)
    }
}

/// A sorted sequence stays sorted without its last pair.
pub proof fn lemma_sorted_drop_last<K: DBKey, T>(s: Seq<(K, T)>)
    requires
        strictly_sorted(s),
        s.len() > 0,
    ensures
        strictly_sorted(s.drop_last()),
{
    let t = s.drop_last();
    assert forall|i: int, j: int| 0 <= i < j < t.len() implies #[trigger] bytes_lt(
        t[i].0.key_bytes(),
        t[j].0.key_bytes(),
    ) by {
        assert(bytes_lt(s[i].0.key_bytes(), s[j].0.key_bytes()));
    }
}

/// In a sorted sequence each pair's key maps to that pair's value.
pub proof fn lemma_map_of_at<K: DBKey, T>(s: Seq<(K, T)>, i: int)
    requires
        strictly_sorted(s),
        0 <= i < s.len(),
    ensures
        map_of(s).contains_key(s[i].0.key_bytes()),
        map_of(s)[s[i].0.key_bytes()] == s[i].1,
    decreases s.len(),
{
    if i < s.len() - 1 {
        lemma_sorted_drop_last(s);
        lemma_map_of_at(s.drop_last(), i);
        assert(bytes_lt(s[i].0.key_bytes(), s[s.len() - 1].0.key_bytes()));
        lemma_lt_irreflexive(s[i].0.key_bytes());
    }
}

/// Every key of the map is the key of some pair.
pub proof fn lemma_map_of_dom<K: DBKey, T>(s: Seq<(K, T)>, kb: Seq<u8>)
    requires
        map_of(s).contains_key(kb),
    ensures
        exists|i: int| 0 <= i < s.len() && #[trigger] s[i].0.key_bytes() == kb,
    decreases s.len(),
{
    if s.len() > 0 && s.last().0.key_bytes() != kb {
        lemma_map_of_dom(s.drop_last(), kb);
        let i = choose|i: int|
            0 <= i < s.drop_last().len() && #[trigger] s.drop_last()[i].0.key_bytes() == kb;
        assert(s[i].0.key_bytes() == kb);
    }
}

/// `q` is one of the pairs of `s`.
pub open spec fn has_pair<K, T>(s: Seq<(K, T)>, q: (K, T)) -> bool {
    exists|j: int| 0 <= j < s.len() && s[j] == q
}

/// When `t` holds `p` and otherwise the same pairs as `s`, except those of
/// `p`'s key, its map is that of `s` with `p` set.
pub proof fn lemma_map_of_upsert<K: DBKey, T>(
    s: Seq<(K, T)>,
    t: Seq<(K, T)>,
    i: int,
    p: (K, T),
)
    requires
        strictly_sorted(s),
        strictly_sorted(t),
        0 <= i < t.len(),
        t[i] == p,
        forall|j: int| 0 <= j < t.len() && j != i ==> has_pair(s, #[trigger] t[j]),
        forall|j: int|
            0 <= j < s.len() && s[j].0.key_bytes() != p.0.key_bytes() ==> has_pair(
                t,
                #[trigger] s[j],
            ),
    ensures
        map_of(t) == map_of(s).insert(p.0.key_bytes(), p.1),
{
    let kb = p.0.key_bytes();
    let ms = map_of(s);
    let mt = map_of(t);
    lemma_map_of_at(t, i);
    let mu = ms.insert(kb, p.1);
    assert forall|x: Seq<u8>| #[trigger]
        mt.contains_key(x) == mu.contains_key(x) && (mt.contains_key(x) ==> mt[x] == mu[x]) by {
        if x != kb && ms.contains_key(x) {
            lemma_map_of_dom(s, x);
            let j = choose|j: int| 0 <= j < s.len() && #[trigger] s[j].0.key_bytes() == x;
            assert(has_pair(t, s[j]));
            let j2 = choose|j2: int| 0 <= j2 < t.len() && t[j2] == s[j];
            lemma_map_of_at(t, j2);
            lemma_map_of_at(s, j);
        }
        if x != kb && mt.contains_key(x) {
            lemma_map_of_dom(t, x);
            let j = choose|j: int| 0 <= j < t.len() && #[trigger] t[j].0.key_bytes() == x;
            assert(has_pair(s, t[j]));
            let j2 = choose|j2: int| 0 <= j2 < s.len() && s[j2] == t[j];
            lemma_map_of_at(s, j2);
        }
    }
    assert(mt =~= mu);
}

/// Finds `key`: `Ok` with its position, or `Err` with the position where
/// it would be inserted.
pub fn search_sorted<K: DBKey, T>(entries: &Vec<(K, T)>, key: &K) -> (r: Result<usize, usize>)
    requires
        strictly_sorted(entries@),
    ensures
        match r {
            Ok(i) => i < entries@.len() && entries@[i as int].0.key_bytes() == key.key_bytes(),
            Err(i) => {
                &&& i <= entries@.len()
                &&& forall|j: int|
                    0 <= j < i ==> bytes_lt(#[trigger] entries@[j].0.key_bytes(), key.key_bytes())
                &&& forall|j: int|
                    i <= j < entries@.len() ==> bytes_lt(
                        key.key_bytes(),
                        #[trigger] entries@[j].0.key_bytes(),
                    )
            },
        },
{
    let ghost kb = key.key_bytes();
    let mut lo: usize = 0;
    let mut hi: usize = entries.len();
    while lo < hi
        invariant
            strictly_sorted(entries@),
            kb == key.key_bytes(),
            lo <= hi <= entries@.len(),
            forall|j: int| 0 <= j < lo ==> bytes_lt(#[trigger] entries@[j].0.key_bytes(), kb),
            forall|j: int|
                hi <= j < entries@.len() ==> bytes_lt(kb, #[trigger] entries@[j].0.key_bytes()),
        decreases hi - lo,
    {
        let mid = lo + (hi - lo) / 2;
        let probe = &entries[mid];
        assert(*probe == entries@[mid as int]);
        let c = probe.0.compare(key);
        match c {
            core::cmp::Ordering::Less => {
                assert forall|j: int| 0 <= j < mid + 1 implies bytes_lt(
                    #[trigger] entries@[j].0.key_bytes(),
                    kb,
                ) by {
                    if j < mid {
                        assert(bytes_lt(
                            entries@[j].0.key_bytes(),
                            entries@[mid as int].0.key_bytes(),
                        ));
                        lemma_lt_trans(entries@[j].0.key_bytes(), entries@[mid as int].0.key_bytes(), kb);
                    }
                }
                lo = mid + 1;
            },
            core::cmp::Ordering::Greater => {
                proof { lemma_cmp_flip(entries@[mid as int].0.key_bytes(), kb); }
                assert forall|j: int| mid <= j < entries@.len() implies bytes_lt(
                    kb,
                    #[trigger] entries@[j].0.key_bytes(),
                ) by {
                    if j > mid {
                        assert(bytes_lt(
                            entries@[mid as int].0.key_bytes(),
                            entries@[j].0.key_bytes(),
                        ));
                        lemma_lt_trans(kb, entries@[mid as int].0.key_bytes(), entries@[j].0.key_bytes());
                    }
                }
                hi = mid;
            },
            core::cmp::Ordering::Equal => {
                proof { lemma_cmp_equal(entries@[mid as int].0.key_bytes(), kb); }
                return Ok(mid);
            },
        }
    }
    Err(lo)
}

} // verus!

verus! {

/// A strictly sorted vector lists as many keys as it has pairs.
pub proof fn lemma_map_of_len<K: DBKey, T>(s: Seq<(K, T)>)
    requires
        strictly_sorted(s),
    ensures
        map_of(s).dom().finite(),
        map_of(s).dom().len() == s.len(),
    decreases s.len(),
{
    if s.len() > 0 {
        let t = s.drop_last();
        let k = s.last().0.key_bytes();
        lemma_sorted_drop_last(s);
        lemma_map_of_len(t);
        if map_of(t).contains_key(k) {
            lemma_map_of_dom(t, k);
            let i = choose|i: int| 0 <= i < t.len() && #[trigger] t[i].0.key_bytes() == k;
            assert(bytes_lt(s[i].0.key_bytes(), s[s.len() - 1].0.key_bytes()));
            lemma_lt_irreflexive(k);
        }
        assert(map_of(s).dom() =~= map_of(t).dom().insert(k));
    }
}

/// Whether the keys of `entries` ascend strictly.
pub fn is_strictly_sorted<K: DBKey, T>(entries: &Vec<(K, T)>) -> (r: bool)
    ensures
        r == strictly_sorted(entries@),
{
    let mut i: usize = 1;
    if entries.len() == 0 {
        return true;
    }
    while i < entries.len()
        invariant
            1 <= i <= entries@.len(),
            strictly_sorted(entries@.take(i as int)),
        decreases entries@.len() - i,
    {
        let prev = &entries[i - 1];
        let cur = &entries[i];
        match prev.0.compare(&cur.0) {
            core::cmp::Ordering::Less => {},
            _ => {
                assert(!bytes_lt(entries@[i - 1].0.key_bytes(), entries@[i as int].0.key_bytes()));
                return false;
            },
        }
        proof {
            let s = entries@.take(i + 1);
            assert forall|a: int, b: int| 0 <= a < b < s.len() implies #[trigger] bytes_lt(
                s[a].0.key_bytes(),
                s[b].0.key_bytes(),
            ) by {
                let t = entries@.take(i as int);
                if b < i {
                    assert(bytes_lt(t[a].0.key_bytes(), t[b].0.key_bytes()));
                } else if a < i - 1 {
                    assert(bytes_lt(t[a].0.key_bytes(), t[i - 1].0.key_bytes()));
                    lemma_lt_trans(
                        s[a].0.key_bytes(),
                        s[i - 1].0.key_bytes(),
                        s[b].0.key_bytes(),
                    );
                }
            }
        }
        i = i + 1;
    }
    assert(entries@.take(i as int) =~= entries@);
    true
}

} // verus!
