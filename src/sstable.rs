//! The layout of a sorted table file, and the in-memory handle of one.
//!
//! ```text
//! data section:  frame(entry of key 0) frame(entry of key 1) ...  ascending keys
//! index section: the serialized key -> offset map, unframed
//! footer:        index offset (u64 LE), index size (u64 LE), magic (u64 LE)
//! ```

use crate::codec::{
    append_frame, decode_frame, frame_of, frame_valid, frames_of, lemma_frame_round_trip,
    lemma_frames_concat, lemma_u64_le_round_trip, payload_field, payloads, push_all, push_u64_le,
    read_u64_le, u64_from_le, u64_le,
};
use crate::sorted::{
    is_strictly_sorted, lemma_map_of_at, lemma_map_of_dom, lemma_map_of_len, map_of, search_sorted,
    strictly_sorted,
};
use crate::memtable::MemTable;
use crate::types::{bytes_lt, lemma_lt_irreflexive, DBKey, StoreError};
use vstd::prelude::*;

verus! {

/// Size of the footer that ends every table file.
pub const FOOTER_SIZE: usize = 24;

/// The magic number that ends a valid table file.
pub const MAGIC_NUMBER: u64 = 0xDEADC0DEBEEFCAFE;

/// The footer of a table whose index starts at `index_offset` and spans
/// `index_size` bytes.
pub open spec fn footer_of(index_offset: u64, index_size: u64) -> Seq<u8> {
    u64_le(index_offset) + u64_le(index_size) + u64_le(MAGIC_NUMBER)
}

/// Where the frame of `ps[i]` starts in the data section.
pub open spec fn frame_offset(ps: Seq<Seq<u8>>, i: int) -> nat {
    frames_of(ps.take(i)).len()
}

/// The bytes of a table file whose entries serialize to `ps` and whose index
/// serializes to `index`.
pub open spec fn table_bytes(ps: Seq<Seq<u8>>, index: Seq<u8>) -> Seq<u8> {
    frames_of(ps) + index + footer_of(frames_of(ps).len() as u64, index.len() as u64)
}

/// The index offset recorded in the footer that ends `s`.
pub open spec fn footer_index_offset(s: Seq<u8>) -> u64 {
    u64_from_le(s.subrange(s.len() - 24, s.len() - 16))
}

/// The index size recorded in the footer that ends `s`.
pub open spec fn footer_index_size(s: Seq<u8>) -> u64 {
    u64_from_le(s.subrange(s.len() - 16, s.len() - 8))
}

/// The magic number recorded in the footer that ends `s`.
pub open spec fn footer_magic(s: Seq<u8>) -> u64 {
    u64_from_le(s.subrange(s.len() - 8, s.len() as int))
}

/// `s` ends with a footer that carries the magic number and points at an
/// index that lies before it.
pub open spec fn footer_ok(s: Seq<u8>) -> bool {
    &&& s.len() >= 24
    &&& footer_magic(s) == MAGIC_NUMBER
    &&& footer_index_offset(s) + footer_index_size(s) <= s.len() - 24
}

/// Where a table's index lies, as its footer records it.
#[derive(Debug, Clone, Copy, PartialEq, Eq, Structural)]
pub struct Footer {
    pub index_offset: u64,
    pub index_size: u64,
}

/// Reading back a table image: its footer is valid and points at the index
/// it was written with, and the frame at each recorded offset carries the
/// payload it was written from, with a matching checksum.
pub proof fn lemma_table_round_trip(ps: Seq<Seq<u8>>, index: Seq<u8>)
    requires
        table_bytes(ps, index).len() <= u64::MAX,
    ensures
        footer_ok(table_bytes(ps, index)),
        footer_index_offset(table_bytes(ps, index)) == frames_of(ps).len(),
        footer_index_size(table_bytes(ps, index)) == index.len(),
        table_bytes(ps, index).subrange(
            frames_of(ps).len() as int,
            (frames_of(ps).len() + index.len()) as int,
        ) == index,
        forall|i: int|
            0 <= i < ps.len() ==> frame_valid(#[trigger] table_bytes(ps, index).skip(
                frame_offset(ps, i) as int,
            )) && payload_field(table_bytes(ps, index).skip(frame_offset(ps, i) as int)) == ps[i],
{
    let img = table_bytes(ps, index);
    let d = frames_of(ps);
    let n = img.len();
    lemma_u64_le_round_trip(d.len() as u64);
    lemma_u64_le_round_trip(index.len() as u64);
    lemma_u64_le_round_trip(MAGIC_NUMBER);
    assert(img.subrange(n - 24, n - 16) =~= u64_le(d.len() as u64));
    assert(img.subrange(n - 16, n - 8) =~= u64_le(index.len() as u64));
    assert(img.subrange(n - 8, n as int) =~= u64_le(MAGIC_NUMBER));
    assert(img.subrange(d.len() as int, (d.len() + index.len()) as int) =~= index);
    assert forall|i: int| 0 <= i < ps.len() implies frame_valid(
        #[trigger] img.skip(frame_offset(ps, i) as int),
    ) && payload_field(img.skip(frame_offset(ps, i) as int)) == ps[i] by {
        let head = ps.take(i);
        let tail = ps.skip(i + 1);
        assert(ps =~= head + (seq![ps[i]] + tail));
        lemma_frames_concat(head, seq![ps[i]] + tail);
        lemma_frames_concat(seq![ps[i]], tail);
        let one = seq![ps[i]];
        assert(one.drop_last() =~= Seq::<Seq<u8>>::empty());
        assert(frames_of(one) == frames_of(one.drop_last()) + frame_of(one.last()));
        assert(frames_of(one.drop_last()) + frame_of(ps[i]) =~= frame_of(ps[i]));
        let rest = frames_of(tail) + index + footer_of(d.len() as u64, index.len() as u64);
        assert(img.skip(frame_offset(ps, i) as int) =~= frame_of(ps[i]) + rest);
        lemma_frame_round_trip(ps[i], rest);
    }
}

/// Each frame starts at least a header before the end of the data section.
proof fn lemma_frame_starts_inside(ps: Seq<Seq<u8>>, i: int)
    requires
        0 <= i < ps.len(),
    ensures
        frame_offset(ps, i) + 12 <= frames_of(ps).len(),
{
    let rest = ps.skip(i);
    assert(ps =~= ps.take(i) + rest);
    lemma_frames_concat(ps.take(i), rest);
    assert(frames_of(rest) == frames_of(rest.drop_last()) + frame_of(rest.last()));
}

/// Flushing the in-memory table and reading each key back: when the entries
/// of `memtable`, in key order, serialize to `ps`, and `table` maps each key
/// to the offset of its frame, then in the written image the frame at that
/// offset carries the payload of the key's entry, with a matching checksum.
pub proof fn lemma_flush_round_trip<K: DBKey, V>(
    memtable: MemTable<K, V>,
    ps: Seq<Seq<u8>>,
    index: Seq<u8>,
    table: SSTable<K>,
)
    requires
        memtable.wf(),
        ps.len() == memtable@.len(),
        table_bytes(ps, index).len() <= u64::MAX,
        forall|i: int|
            0 <= i < ps.len() ==> table@.contains_key(
                (#[trigger] memtable.listing()[i]).0.key_bytes(),
            ) && table@[memtable.listing()[i].0.key_bytes()] == frame_offset(ps, i),
    ensures
        forall|i: int|
            0 <= i < ps.len() ==> {
                let at = table_bytes(ps, index).skip(
                    table@[(#[trigger] memtable.listing()[i]).0.key_bytes()] as int,
                );
                frame_valid(at) && payload_field(at) == ps[i]
            },
{
    lemma_table_round_trip(ps, index);
    assert forall|i: int| 0 <= i < ps.len() implies {
        let at = table_bytes(ps, index).skip(
            table@[(#[trigger] memtable.listing()[i]).0.key_bytes()] as int,
        );
        frame_valid(at) && payload_field(at) == ps[i]
    } by {
        assert(table@[memtable.listing()[i].0.key_bytes()] == frame_offset(ps, i));
        assert(frame_valid(table_bytes(ps, index).skip(frame_offset(ps, i) as int)));
    }
}

/// Frames each payload, in order, into a data section; returns it with the
/// offset at which each frame starts.
pub fn data_section(entries: &Vec<Vec<u8>>) -> (r: (Vec<u8>, Vec<u64>))
    ensures
        r.0@ == frames_of(payloads(entries@)),
        r.1@.len() == entries@.len(),
        forall|i: int|
            0 <= i < entries@.len() ==> #[trigger] r.1@[i] == frame_offset(payloads(entries@), i),
        forall|i: int| 0 <= i < entries@.len() ==> #[trigger] r.1@[i] < r.0@.len(),
{
    let ghost ps = payloads(entries@);
    let mut data: Vec<u8> = Vec::new();
    let mut offsets: Vec<u64> = Vec::new();
    let mut i: usize = 0;
    while i < entries.len()
        invariant
            ps == payloads(entries@),
            i <= entries@.len(),
            data@ == frames_of(ps.take(i as int)),
            offsets@.len() == i,
            forall|j: int| 0 <= j < i ==> #[trigger] offsets@[j] == frame_offset(ps, j),
        decreases entries@.len() - i,
    {
        assert(ps.take(i as int).take(i as int) =~= ps.take(i as int));
        offsets.push(data.len() as u64);
        append_frame(&mut data, entries[i].as_slice());
        assert(ps.take(i + 1).drop_last() =~= ps.take(i as int));
        assert(ps.take(i + 1).last() == entries@[i as int]@);
        i = i + 1;
    }
    assert(ps.take(i as int) =~= ps);
    proof {
        assert forall|j: int| 0 <= j < entries@.len() implies #[trigger] offsets@[j] < data@.len() by {
            lemma_frame_starts_inside(ps, j);
        }
    }
    (data, offsets)
}

/// Completes a table image: the data section, the serialized index as it
/// is, and the footer that points at the index.
pub fn finish_table(data: Vec<u8>, index: &[u8]) -> (r: Vec<u8>)
    ensures
        r@ == data@ + index@ + footer_of(data@.len() as u64, index@.len() as u64),
{
    let mut out = data;
    let index_offset = out.len() as u64;
    push_all(&mut out, index);
    push_u64_le(&mut out, index_offset);
    push_u64_le(&mut out, index.len() as u64);
    push_u64_le(&mut out, MAGIC_NUMBER);
    assert(out@ =~= data@ + index@ + footer_of(data@.len() as u64, index@.len() as u64));
    out
}

/// Reads the footer that ends a table file; refuses a file shorter than a
/// footer, one whose magic number differs, and one whose index would not lie
/// before its footer.
pub fn parse_footer(file: &[u8]) -> (r: Result<Footer, StoreError>)
    ensures
        match r {
            Ok(f) => {
                &&& footer_ok(file@)
                &&& f.index_offset == footer_index_offset(file@)
                &&& f.index_size == footer_index_size(file@)
            },
            Err(e) => e == StoreError::CorruptSSTable && !footer_ok(file@),
        },
{
    if file.len() < FOOTER_SIZE {
        return Err(StoreError::CorruptSSTable);
    }
    let start = file.len() - FOOTER_SIZE;
    let index_offset = read_u64_le(file, start);
    let index_size = read_u64_le(file, start + 8);
    let magic = read_u64_le(file, start + 16);
    if magic != MAGIC_NUMBER {
        return Err(StoreError::CorruptSSTable);
    }
    if index_offset > start as u64 || index_size > start as u64 - index_offset {
        return Err(StoreError::CorruptSSTable);
    }
    Ok(Footer { index_offset, index_size })
}

/// Reads the record whose frame starts `bytes`: its payload, or
/// `CorruptRecord` when the frame is cut short or fails its checksum.
pub fn decode_record(bytes: &[u8]) -> (r: Result<Vec<u8>, StoreError>)
    ensures
        match r {
            Ok(payload) => frame_valid(bytes@) && payload@ == payload_field(bytes@),
            Err(e) => e == StoreError::CorruptRecord && !frame_valid(bytes@),
        },
{
    assert(bytes@.subrange(0, bytes@.len() as int) =~= bytes@);
    match decode_frame(bytes, 0) {
        Ok((payload, _)) => Ok(payload),
        Err(_) => Err(StoreError::CorruptRecord),
    }
}

/// An open table: its file name, where its data section ends, and its index
/// from key to the offset of the key's frame.
pub struct SSTable<K> {
    path: String,
    data_end: u64,
    index: Vec<(K, u64)>,
}

impl<K: DBKey> View for SSTable<K> {
    type V = Map<Seq<u8>, u64>;

    /// The index: key bytes to the offset of the key's frame.
    closed spec fn view(&self) -> Map<Seq<u8>, u64> {
        map_of(self.index@)
    }
}

impl<K: DBKey> SSTable<K> {
    /// The index lists its keys in ascending order, each pointing into the
    /// data section.
    pub closed spec fn wf(&self) -> bool {
        &&& strictly_sorted(self.index@)
        &&& forall|i: int| 0 <= i < self.index@.len() ==> (#[trigger] self.index@[i]).1 < self.data_end
    }

    /// The table's file name.
    pub closed spec fn path_view(&self) -> Seq<char> {
        self.path@
    }

    /// Where the table's data section ends.
    pub closed spec fn data_end_view(&self) -> u64 {
        self.data_end
    }

    /// A handle on the table at `path` whose index is `index` and whose data
    /// section ends at `data_end`; refuses an index whose keys do not ascend
    /// strictly or that points past the data section.
    pub fn from_index(path: String, index: Vec<(K, u64)>, data_end: u64) -> (r: Result<
        SSTable<K>,
        StoreError,
    >)
        ensures
            match r {
                Ok(t) => {
                    &&& t.wf()
                    &&& t@ == map_of(index@)
                    &&& t.path_view() == path@
                    &&& t.data_end_view() == data_end
                },
                Err(e) => {
                    &&& e == StoreError::CorruptSSTable
                    &&& !(strictly_sorted(index@) && forall|i: int|
                        0 <= i < index@.len() ==> (#[trigger] index@[i]).1 < data_end)
                },
            },
    {
        if !is_strictly_sorted(&index) {
            return Err(StoreError::CorruptSSTable);
        }
        let mut i: usize = 0;
        while i < index.len()
            invariant
                i <= index@.len(),
                forall|j: int| 0 <= j < i ==> (#[trigger] index@[j]).1 < data_end,
            decreases index@.len() - i,
        {
            if index[i].1 >= data_end {
                return Err(StoreError::CorruptSSTable);
            }
            i = i + 1;
        }
        Ok(SSTable { path, data_end, index })
    }

    /// The handle of a table just written from `memtable`: its index maps
    /// the `i`-th key of the memtable, in key order, to `offsets[i]`.
    pub fn for_memtable<V>(
        path: String,
        memtable: &MemTable<K, V>,
        offsets: &Vec<u64>,
        data_end: u64,
    ) -> (r: SSTable<K>)
        requires
            memtable.wf(),
            offsets@.len() == memtable@.len(),
            forall|i: int| 0 <= i < offsets@.len() ==> #[trigger] offsets@[i] < data_end,
        ensures
            r.wf(),
            r.path_view() == path@,
            r.data_end_view() == data_end,
            r@.dom() == memtable@.dom(),
            forall|i: int|
                0 <= i < offsets@.len() ==> r@.contains_key(
                    (#[trigger] memtable.listing()[i]).0.key_bytes(),
                ) && r@[memtable.listing()[i].0.key_bytes()] == offsets@[i],
    {
        let items = memtable.iter();
        let ghost listing = memtable.listing();
        proof {
            memtable.lemma_listing();
        }
        let mut index: Vec<(K, u64)> = Vec::new();
        let mut i: usize = 0;
        while i < items.len()
            invariant
                listing == memtable.listing(),
                items@.len() == listing.len(),
                offsets@.len() == listing.len(),
                forall|j: int| 0 <= j < items@.len() ==> (#[trigger] items@[j]).0 == listing[j].0,
                i <= items@.len(),
                index@.len() == i,
                forall|j: int|
                    0 <= j < i ==> (#[trigger] index@[j]).0 == listing[j].0 && index@[j].1
                        == offsets@[j],
            decreases items@.len() - i,
        {
            let key = items[i].0.duplicate();
            index.push((key, offsets[i]));
            i = i + 1;
        }
        proof {
            let s = index@;
            assert forall|a: int, b: int| 0 <= a < b < s.len() implies #[trigger] bytes_lt(
                s[a].0.key_bytes(),
                s[b].0.key_bytes(),
            ) by {
                assert(bytes_lt(listing[a].0.key_bytes(), listing[b].0.key_bytes()));
            }
            assert forall|j: int| 0 <= j < s.len() implies (#[trigger] s[j]).1 < data_end by {
                assert(s[j].1 == offsets@[j]);
            }
            assert forall|j: int| 0 <= j < offsets@.len() implies map_of(s).contains_key(
                (#[trigger] listing[j]).0.key_bytes(),
            ) && map_of(s)[listing[j].0.key_bytes()] == offsets@[j] by {
                lemma_map_of_at(s, j);
            }
            assert forall|kb: Seq<u8>| #[trigger]
                map_of(s).contains_key(kb) == memtable@.contains_key(kb) by {
                if map_of(s).contains_key(kb) {
                    lemma_map_of_dom(s, kb);
                    let j = choose|j: int| 0 <= j < s.len() && #[trigger] s[j].0.key_bytes() == kb;
                    lemma_map_of_at(listing, j);
                }
                if memtable@.contains_key(kb) {
                    lemma_map_of_dom(listing, kb);
                    let j = choose|j: int|
                        0 <= j < listing.len() && #[trigger] listing[j].0.key_bytes() == kb;
                    lemma_map_of_at(s, j);
                }
            }
            assert(map_of(s).dom() =~= memtable@.dom());
        }
        SSTable { path, data_end, index }
    }

    /// The table's file name.
    pub fn path(&self) -> (r: &String)
        ensures
            r@ == self.path_view(),
    {
        &self.path
    }

    /// Number of keys in the table's index.
    pub fn len(&self) -> (r: usize)
        requires
            self.wf(),
        ensures
            r == self@.len(),
    {
        proof {
            lemma_map_of_len(self.index@);
        }
        self.index.len()
    }

    /// Where the frame of `key` starts, when the index lists the key.
    pub fn offset_of(&self, key: &K) -> (r: Option<u64>)
        requires
            self.wf(),
        ensures
            r == (if self@.contains_key(key.key_bytes()) {
                Some(self@[key.key_bytes()])
            } else {
                None
            }),
    {
        match search_sorted(&self.index, key) {
            Ok(i) => {
                proof {
                    lemma_map_of_at(self.index@, i as int);
                }
                Some(self.index[i].1)
            },
            Err(_) => {
                proof {
                    let kb = key.key_bytes();
                    if self@.contains_key(kb) {
                        lemma_map_of_dom(self.index@, kb);
                        let j = choose|j: int|
                            0 <= j < self.index@.len() && #[trigger] self.index@[j].0.key_bytes()
                                == kb;
                        lemma_lt_irreflexive(kb);
                    }
                }
                None
            },
        }
    }

    /// The byte range of the file to read for `key`: from the start of its
    /// frame to the end of the data section.
    pub fn frame_span(&self, key: &K) -> (r: Option<(u64, u64)>)
        requires
            self.wf(),
        ensures
            r == (if self@.contains_key(key.key_bytes()) {
                Some((self@[key.key_bytes()], self.data_end_view()))
            } else {
                None
            }),
    {
        match self.offset_of(key) {
            Some(off) => Some((off, self.data_end)),
            None => None,
        }
    }
}

} // verus!
