//! Replay of the write-ahead log: splitting its bytes into records, and
//! applying the recorded mutations to a table.
//!
//! A log is a concatenation of frames. Reading it yields the records of its
//! whole frames, then says how it ended: at a frame boundary, inside a frame
//! cut short (by a crash in mid-write), or at a whole frame whose checksum
//! does not match. Recovery accepts a cut-short tail and refuses corruption.

use crate::codec::{
    decode_frame, frame_complete, frame_of, frame_valid, frames_of, lemma_frame_round_trip,
    lemma_frames_concat, lemma_u64_le_round_trip, len_field, payload_field, payloads, u64_le,
    FrameError,
};
use crate::memtable::MemTable;
use crate::types::{share, DBKey, Entry, LogEntry, StoreError};
use vstd::prelude::*;

verus! {

/// How the bytes of a log end, after its last whole, valid frame.
#[derive(Debug, Clone, Copy, PartialEq, Eq, Structural)]
pub enum LogEnd {
    /// At a frame boundary: no byte follows.
    Clean,
    /// Inside a frame: the bytes end before its header or its payload does.
    Torn,
    /// At a whole frame whose payload fails its checksum.
    Corrupt,
}

/// The payloads of the whole, valid frames that start a log, in order, and
/// how the log ends after them.
pub open spec fn log_scan(s: Seq<u8>) -> (Seq<Seq<u8>>, LogEnd)
    decreases s.len(),
{
    if s.len() == 0 {
        (Seq::empty(), LogEnd::Clean)
    } else if !frame_complete(s) {
        (Seq::empty(), LogEnd::Torn)
    } else if !frame_valid(s) {
        (Seq::empty(), LogEnd::Corrupt)
    } else {
        let rest = log_scan(s.skip(12 + len_field(s) as int));
        (seq![payload_field(s)] + rest.0, rest.1)
    }
}

/// Splits the bytes of a log into the payloads of its whole, valid frames,
/// and says how the log ends after them.
pub fn read_log(buf: &[u8]) -> (r: (Vec<Vec<u8>>, LogEnd))
    ensures
        (payloads(r.0@), r.1) == log_scan(buf@),
{
    let mut out: Vec<Vec<u8>> = Vec::new();
    let mut pos: usize = 0;
    assert(buf@.skip(0) =~= buf@);
    assert(payloads(out@) + log_scan(buf@).0 =~= log_scan(buf@).0);
    while pos < buf.len()
        invariant
            pos <= buf@.len(),
            log_scan(buf@) == (
                payloads(out@) + log_scan(buf@.skip(pos as int)).0,
                log_scan(buf@.skip(pos as int)).1,
            ),
        decreases buf@.len() - pos,
    {
        let ghost s = buf@.skip(pos as int);
        assert(buf@.subrange(pos as int, buf@.len() as int) =~= s);
        match decode_frame(buf, pos) {
            Ok((payload, next)) => {
                assert(s.skip(12 + len_field(s) as int) =~= buf@.skip(next as int));
                let ghost before = payloads(out@);
                out.push(payload);
                assert(payloads(out@) =~= before.push(payload_field(s)));
                assert(before + (seq![payload_field(s)] + log_scan(buf@.skip(next as int)).0)
                    =~= before.push(payload_field(s)) + log_scan(buf@.skip(next as int)).0);
                pos = next;
            },
            Err(FrameError::Truncated) => {
                assert(payloads(out@) + Seq::<Seq<u8>>::empty() =~= payloads(out@));
                return (out, LogEnd::Torn);
            },
            Err(FrameError::ChecksumMismatch) => {
                assert(payloads(out@) + Seq::<Seq<u8>>::empty() =~= payloads(out@));
                return (out, LogEnd::Corrupt);
            },
        }
    }
    assert(buf@.skip(pos as int) =~= Seq::<u8>::empty());
    assert(payloads(out@) + Seq::<Seq<u8>>::empty() =~= payloads(out@));
    (out, LogEnd::Clean)
}

/// The records to replay at recovery: those of the whole frames when the
/// log ends cleanly or inside a frame cut short; `CorruptRecord` when a
/// whole frame fails its checksum.
pub fn recover_log(buf: &[u8]) -> (r: Result<Vec<Vec<u8>>, StoreError>)
    ensures
        match r {
            Ok(v) => log_scan(buf@).1 != LogEnd::Corrupt && payloads(v@) == log_scan(buf@).0,
            Err(e) => e == StoreError::CorruptRecord && log_scan(buf@).1 == LogEnd::Corrupt,
        },
{
    let (records, end) = read_log(buf);
    match end {
        LogEnd::Corrupt => Err(StoreError::CorruptRecord),
        _ => Ok(records),
    }
}

/// A log written as whole frames yields their payloads, in order, followed
/// by what the bytes after them yield, and ends as those bytes do.
pub proof fn lemma_replay_frames(ps: Seq<Seq<u8>>, tail: Seq<u8>)
    requires
        forall|i: int| 0 <= i < ps.len() ==> (#[trigger] ps[i]).len() <= u64::MAX,
    ensures
        log_scan(frames_of(ps) + tail) == (ps + log_scan(tail).0, log_scan(tail).1),
    decreases ps.len(),
{
    if ps.len() == 0 {
        assert(frames_of(ps) + tail =~= tail);
        assert(ps + log_scan(tail).0 =~= log_scan(tail).0);
    } else {
        let p = ps[0];
        let rest_ps = ps.drop_first();
        let one = seq![p];
        assert(ps =~= one + rest_ps);
        lemma_frames_concat(one, rest_ps);
        assert(one.drop_last() =~= Seq::<Seq<u8>>::empty());
        assert(frames_of(one) == frames_of(one.drop_last()) + frame_of(one.last()));
        assert(frames_of(one.drop_last()) + frame_of(p) =~= frame_of(p));
        let after = frames_of(rest_ps) + tail;
        let s = frames_of(ps) + tail;
        assert(s =~= frame_of(p) + after);
        lemma_frame_round_trip(p, after);
        assert(s.skip(12 + len_field(s) as int) =~= after);
        lemma_replay_frames(rest_ps, tail);
        assert(seq![p] + (rest_ps + log_scan(tail).0) =~= ps + log_scan(tail).0);
    }
}

/// A frame cut short by a crash in mid-write yields no record; the log ends
/// inside it unless nothing of it was written.
pub proof fn lemma_torn_frame(p: Seq<u8>, cut: int)
    requires
        p.len() <= u64::MAX,
        0 <= cut < frame_of(p).len(),
    ensures
        log_scan(frame_of(p).take(cut)) == (
            Seq::<Seq<u8>>::empty(),
            if cut == 0 {
                LogEnd::Clean
            } else {
                LogEnd::Torn
            },
        ),
{
    let t = frame_of(p).take(cut);
    if t.len() >= 12 {
        lemma_u64_le_round_trip(p.len() as u64);
        assert(t.subrange(4, 12) =~= u64_le(p.len() as u64));
    }
}

/// Recovery after a crash in mid-write: a log of whole frames followed by
/// the torn start of one more yields exactly the whole frames' payloads, and
/// is accepted by recovery.
pub proof fn lemma_replay_torn_tail(ps: Seq<Seq<u8>>, p: Seq<u8>, cut: int)
    requires
        forall|i: int| 0 <= i < ps.len() ==> (#[trigger] ps[i]).len() <= u64::MAX,
        p.len() <= u64::MAX,
        0 <= cut < frame_of(p).len(),
    ensures
        log_scan(frames_of(ps) + frame_of(p).take(cut)).0 == ps,
        log_scan(frames_of(ps) + frame_of(p).take(cut)).1 != LogEnd::Corrupt,
{
    lemma_torn_frame(p, cut);
    lemma_replay_frames(ps, frame_of(p).take(cut));
    assert(ps + Seq::<Seq<u8>>::empty() =~= ps);
}

/// The entry a log record leaves for its key.
pub open spec fn record_entry<K, V>(op: LogEntry<K, V>) -> Entry<V> {
    match op {
        LogEntry::Put(_, v) => Entry { value: Some(v), is_tombstone: false },
        LogEntry::Delete(_) => Entry { value: None, is_tombstone: true },
    }
}

/// The key a log record writes.
pub open spec fn record_key<K: DBKey, V>(op: LogEntry<K, V>) -> Seq<u8> {
    match op {
        LogEntry::Put(k, _) => k.key_bytes(),
        LogEntry::Delete(k) => k.key_bytes(),
    }
}

/// The table that results from applying `log`, in order, to `m`.
pub open spec fn apply_log<K: DBKey, V>(
    m: Map<Seq<u8>, Entry<V>>,
    log: Seq<LogEntry<K, V>>,
) -> Map<Seq<u8>, Entry<V>>
    decreases log.len(),
{
    if log.len() == 0 {
        m
    } else {
        apply_log(m, log.drop_last()).insert(record_key(log.last()), record_entry(log.last()))
    }
}

/// The entry the last record of `log` on `kb` leaves, if any record writes it.
pub open spec fn last_write<K: DBKey, V>(log: Seq<LogEntry<K, V>>, kb: Seq<u8>) -> Option<Entry<V>>
    decreases log.len(),
{
    if log.len() == 0 {
        None
    } else if record_key(log.last()) == kb {
        Some(record_entry(log.last()))
    } else {
        last_write(log.drop_last(), kb)
    }
}

/// What replaying `log` onto `m` leaves for `kb`: the entry of the last
/// record that writes `kb`, or what `m` held when no record does.
pub proof fn lemma_apply_log_at<K: DBKey, V>(
    m: Map<Seq<u8>, Entry<V>>,
    log: Seq<LogEntry<K, V>>,
    kb: Seq<u8>,
)
    ensures
        match last_write(log, kb) {
            Some(e) => apply_log(m, log).contains_key(kb) && apply_log(m, log)[kb] == e,
            None => (apply_log(m, log).contains_key(kb) <==> m.contains_key(kb)) && (
            m.contains_key(kb) ==> apply_log(m, log)[kb] == m[kb]),
        },
    decreases log.len(),
{
    if log.len() > 0 {
        lemma_apply_log_at(m, log.drop_last(), kb);
    }
}

/// Replaying a log a second time changes nothing: each key ends with the
/// entry of the last record that writes it, or keeps the one it had.
pub proof fn lemma_replay_idempotent<K: DBKey, V>(
    m: Map<Seq<u8>, Entry<V>>,
    log: Seq<LogEntry<K, V>>,
)
    ensures
        apply_log(apply_log(m, log), log) == apply_log(m, log),
{
    let once = apply_log(m, log);
    let twice = apply_log(once, log);
    assert forall|kb: Seq<u8>| #[trigger]
        twice.contains_key(kb) == once.contains_key(kb) && (twice.contains_key(kb) ==> twice[kb]
            == once[kb]) by {
        lemma_apply_log_at(m, log, kb);
        lemma_apply_log_at(once, log, kb);
    }
    assert(twice =~= once);
}

/// Applies the records of `log`, in order, to `memtable`: a put sets its key
/// to a live entry, a delete to a tombstone.
pub fn replay_into<K: DBKey, V>(memtable: &mut MemTable<K, V>, log: &Vec<LogEntry<K, V>>)
    requires
        old(memtable).wf(),
    ensures
        final(memtable).wf(),
        final(memtable)@ == apply_log(old(memtable)@, log@),
{
    let mut i: usize = 0;
    while i < log.len()
        invariant
            memtable.wf(),
            i <= log@.len(),
            memtable@ == apply_log(old(memtable)@, log@.take(i as int)),
        decreases log@.len() - i,
    {
        assert(log@.take(i + 1).drop_last() =~= log@.take(i as int));
        match &log[i] {
            LogEntry::Put(k, v) => {
                memtable.put(k.duplicate(), share(v));
            },
            LogEntry::Delete(k) => {
                memtable.delete(k.duplicate());
            },
        }
        i = i + 1;
    }
    assert(log@.take(i as int) =~= log@);
}

} // verus!
