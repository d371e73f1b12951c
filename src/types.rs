//! The records the store keeps: entries, log records, and the key order.

use std::sync::Arc;
use vstd::prelude::*;

verus! {

/// What the store holds for one key: a live value, or a tombstone that marks
/// the key as deleted.
///
/// A tombstone carries no value and a live entry always carries one (see
/// [`Entry::wf`]).
#[derive(Debug, PartialEq)]
pub struct Entry<V> {
    pub value: Option<Arc<V>>,
    pub is_tombstone: bool,
}

impl<V> Entry<V> {
    /// A tombstone carries no value; a live entry carries one.
    pub open spec fn wf(&self) -> bool {
        self.is_tombstone <==> self.value.is_none()
    }

    /// A live entry holding `value`.
    pub fn live(value: Arc<V>) -> (r: Entry<V>)
        ensures
            r.wf(),
            !r.is_tombstone,
            r.value == Some(value),
    {
        Entry { value: Some(value), is_tombstone: false }
    }

    /// What a reader sees of the entry: its value when live, nothing for a
    /// tombstone.
    pub fn into_value(self) -> (r: Option<Arc<V>>)
        ensures
            r == (if self.is_tombstone {
                None
            } else {
                self.value
            }),
    {
        if self.is_tombstone {
            None
        } else {
            self.value
        }
    }

    /// A tombstone.
    pub fn tombstone() -> (r: Entry<V>)
        ensures
            r.wf(),
            r.is_tombstone,
    {
        Entry { value: None, is_tombstone: true }
    }
}

/// Relies on `Arc::clone`: a new handle to the same shared value.
#[verifier::external_body]
pub(crate) fn share<V>(v: &Arc<V>) -> (r: Arc<V>)
    ensures
        r == *v,
{
    Arc::clone(v)
}

impl<V> Clone for Entry<V> {
    fn clone(&self) -> (r: Self)
        ensures
            r == *self,
    {
        let value = match &self.value {
            Some(v) => Some(share(v)),
            None => None,
        };
        Entry { value, is_tombstone: self.is_tombstone }
    }
}

/// Why stored bytes were refused.
#[derive(Debug, Clone, Copy, PartialEq, Eq, Structural)]
pub enum StoreError {
    /// A framed record failed its checksum or could not be decoded.
    CorruptRecord,
    /// A sorted table's footer is missing, truncated or carries the wrong
    /// magic number, or its index is unreadable.
    CorruptSSTable,
}

/// One mutation as the write-ahead log records it.
#[derive(Debug, PartialEq)]
pub enum LogEntry<K, V> {
    Put(K, Arc<V>),
    Delete(K),
}

/// Lexicographic order of byte sequences: a proper prefix comes first.
pub open spec fn bytes_cmp(a: Seq<u8>, b: Seq<u8>) -> core::cmp::Ordering
    decreases a.len(),
{
    if a.len() == 0 {
        if b.len() == 0 {
            core::cmp::Ordering::Equal
        } else {
            core::cmp::Ordering::Less
        }
    } else if b.len() == 0 {
        core::cmp::Ordering::Greater
    } else if a[0] < b[0] {
        core::cmp::Ordering::Less
    } else if a[0] > b[0] {
        core::cmp::Ordering::Greater
    } else {
        bytes_cmp(a.drop_first(), b.drop_first())
    }
}

/// `a` comes strictly before `b`.
pub open spec fn bytes_lt(a: Seq<u8>, b: Seq<u8>) -> bool {
    bytes_cmp(a, b) == core::cmp::Ordering::Less
}

/// Two byte sequences compare equal exactly when they are equal.
pub proof fn lemma_cmp_equal(a: Seq<u8>, b: Seq<u8>)
    ensures
        bytes_cmp(a, b) == core::cmp::Ordering::Equal <==> a == b,
    decreases a.len(),
{
    if a.len() > 0 && b.len() > 0 && a[0] == b[0] {
        lemma_cmp_equal(a.drop_first(), b.drop_first());
        if a.drop_first() == b.drop_first() {
            assert(a =~= seq![a[0]] + a.drop_first());
            assert(b =~= seq![b[0]] + b.drop_first());
        }
        if a == b {
            assert(a.drop_first() =~= b.drop_first());
        }
    } else if a.len() == 0 && b.len() == 0 {
        assert(a =~= b);
    }
}

/// Swapping the operands swaps `Less` and `Greater`.
pub proof fn lemma_cmp_flip(a: Seq<u8>, b: Seq<u8>)
    ensures
        bytes_cmp(a, b) == core::cmp::Ordering::Less <==> bytes_cmp(b, a)
            == core::cmp::Ordering::Greater,
        bytes_cmp(a, b) == core::cmp::Ordering::Greater <==> bytes_cmp(b, a)
            == core::cmp::Ordering::Less,
    decreases a.len(),
{
    if a.len() > 0 && b.len() > 0 && a[0] == b[0] {
        lemma_cmp_flip(a.drop_first(), b.drop_first());
    }
}

/// No byte sequence comes before itself.
pub proof fn lemma_lt_irreflexive(a: Seq<u8>)
    ensures
        !bytes_lt(a, a),
{
    lemma_cmp_equal(a, a);
}

/// The order of byte sequences is transitive.
pub proof fn lemma_lt_trans(a: Seq<u8>, b: Seq<u8>, c: Seq<u8>)
    requires
        bytes_lt(a, b),
        bytes_lt(b, c),
    ensures
        bytes_lt(a, c),
    decreases a.len(),
{
    if a.len() > 0 && b.len() > 0 && c.len() > 0 && a[0] == b[0] && b[0] == c[0] {
        lemma_lt_trans(a.drop_first(), b.drop_first(), c.drop_first());
    }
}

/// Compares two byte strings in lexicographic order.
pub fn compare_bytes(a: &[u8], b: &[u8]) -> (r: core::cmp::Ordering)
    ensures
        r == bytes_cmp(a@, b@),
{
    let mut i: usize = 0;
    assert(a@.skip(0) =~= a@);
    assert(b@.skip(0) =~= b@);
    while i < a.len() && i < b.len()
        invariant
            i <= a@.len(),
            i <= b@.len(),
            bytes_cmp(a@, b@) == bytes_cmp(a@.skip(i as int), b@.skip(i as int)),
        decreases a@.len() - i,
    {
        if a[i] < b[i] {
            return core::cmp::Ordering::Less;
        } else if a[i] > b[i] {
            return core::cmp::Ordering::Greater;
        }
        assert(a@.skip(i as int).drop_first() =~= a@.skip(i + 1));
        assert(b@.skip(i as int).drop_first() =~= b@.skip(i + 1));
        i = i + 1;
    }
    if i == a.len() && i == b.len() {
        core::cmp::Ordering::Equal
    } else if i == a.len() {
        core::cmp::Ordering::Less
    } else {
        core::cmp::Ordering::Greater
    }
}

/// A key of the store: it has a deterministic byte form, and keys are ordered
/// by that form.
pub trait DBKey: Sized {
    /// The key's byte form.
    spec fn key_bytes(&self) -> Seq<u8>;

    /// Compares two keys by their byte forms.
    fn compare(&self, other: &Self) -> (r: core::cmp::Ordering)
        ensures
            r == bytes_cmp(self.key_bytes(), other.key_bytes()),
    ;

    /// A copy of the key.
    fn duplicate(&self) -> (r: Self)
        ensures
            r == *self,
    ;
}

impl DBKey for String {
    /// The UTF-8 encoding: byte order agrees with the order of `String`.
    open spec fn key_bytes(&self) -> Seq<u8> {
        vstd::utf8::encode_utf8(self@)
    }

    fn compare(&self, other: &Self) -> (r: core::cmp::Ordering) {
        compare_bytes(self.as_str().as_bytes(), other.as_str().as_bytes())
    }

    fn duplicate(&self) -> (r: Self) {
        self.clone()
    }
}

} // verus!
