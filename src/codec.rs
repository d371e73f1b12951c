//! Record framing shared by the write-ahead log and the data section of a
//! sorted table: `[crc32: 4 bytes LE][length: 8 bytes LE][payload]`.

use vstd::prelude::*;

verus! {

/// The CRC-32 (IEEE polynomial) of a byte sequence.
pub uninterp spec fn crc32_of(data: Seq<u8>) -> u32;

/// Relies on `crc32fast::hash`: the CRC-32 (IEEE) checksum of the bytes,
/// which depends on the bytes alone.
#[verifier::external_body]
fn checksum(data: &[u8]) -> (r: u32)
    ensures
        r == crc32_of(data@),
{
    crc32fast::hash(data)
}

/// Size of the frame header: checksum then payload length.
pub const FRAME_HEADER_SIZE: usize = 12;

/// Little-endian bytes of a `u32`.
pub open spec fn u32_le(x: u32) -> Seq<u8> {
    seq![x as u8, (x >> 8u32) as u8, (x >> 16u32) as u8, (x >> 24u32) as u8]
}

/// Little-endian bytes of a `u64`.
pub open spec fn u64_le(x: u64) -> Seq<u8> {
    seq![
        x as u8,
        (x >> 8u64) as u8,
        (x >> 16u64) as u8,
        (x >> 24u64) as u8,
        (x >> 32u64) as u8,
        (x >> 40u64) as u8,
        (x >> 48u64) as u8,
        (x >> 56u64) as u8,
    ]
}

/// The `u32` whose little-endian bytes start `b`.
pub open spec fn u32_from_le(b: Seq<u8>) -> u32
    recommends
        b.len() >= 4,
{
    (b[0] as u32) | ((b[1] as u32) << 8u32) | ((b[2] as u32) << 16u32) | ((b[3] as u32) << 24u32)
}

/// The `u64` whose little-endian bytes start `b`.
pub open spec fn u64_from_le(b: Seq<u8>) -> u64
    recommends
        b.len() >= 8,
{
    (b[0] as u64) | ((b[1] as u64) << 8u64) | ((b[2] as u64) << 16u64) | ((b[3] as u64) << 24u64)
        | ((b[4] as u64) << 32u64) | ((b[5] as u64) << 40u64) | ((b[6] as u64) << 48u64) | ((
    b[7] as u64) << 56u64)
}

/// The frame that carries `payload`.
pub open spec fn frame_of(payload: Seq<u8>) -> Seq<u8> {
    u32_le(crc32_of(payload)) + u64_le(payload.len() as u64) + payload
}

/// The checksum field of a frame that starts `s`.
pub open spec fn crc_field(s: Seq<u8>) -> u32 {
    u32_from_le(s.subrange(0, 4))
}

/// The length field of a frame that starts `s`.
pub open spec fn len_field(s: Seq<u8>) -> u64 {
    u64_from_le(s.subrange(4, 12))
}

/// `s` starts with a whole frame: a header and as many payload bytes as it
/// announces.
pub open spec fn frame_complete(s: Seq<u8>) -> bool {
    s.len() >= 12 && len_field(s) <= s.len() - 12
}

/// The payload of the whole frame that starts `s`.
pub open spec fn payload_field(s: Seq<u8>) -> Seq<u8> {
    s.subrange(12, 12 + len_field(s) as int)
}

/// The whole frame that starts `s` carries a payload whose checksum matches.
pub open spec fn frame_valid(s: Seq<u8>) -> bool {
    frame_complete(s) && crc32_of(payload_field(s)) == crc_field(s)
}

/// Why no record could be read from a frame.
#[derive(Debug, Clone, Copy, PartialEq, Eq, Structural)]
pub enum FrameError {
    /// The bytes end before the header or the announced payload does.
    Truncated,
    /// The payload's checksum differs from the one in the header.
    ChecksumMismatch,
}

/// Reading back the little-endian bytes of a `u32` gives it again.
pub proof fn lemma_u32_le_round_trip(x: u32)
    ensures
        u32_from_le(u32_le(x)) == x,
{
    assert(((x as u8) as u32) | ((((x >> 8u32) as u8) as u32) << 8u32) | ((((x >> 16u32) as u8)
        as u32) << 16u32) | ((((x >> 24u32) as u8) as u32) << 24u32) == x) by (bit_vector);
}

/// Reading back the little-endian bytes of a `u64` gives it again.
pub proof fn lemma_u64_le_round_trip(x: u64)
    ensures
        u64_from_le(u64_le(x)) == x,
{
    assert(((x as u8) as u64) | ((((x >> 8u64) as u8) as u64) << 8u64) | ((((x >> 16u64) as u8)
        as u64) << 16u64) | ((((x >> 24u64) as u8) as u64) << 24u64) | ((((x >> 32u64) as u8)
        as u64) << 32u64) | ((((x >> 40u64) as u8) as u64) << 40u64) | ((((x >> 48u64) as u8)
        as u64) << 48u64) | ((((x >> 56u64) as u8) as u64) << 56u64) == x) by (bit_vector);
}

/// Reading a frame back yields the payload it was written from, whatever
/// follows it.
pub proof fn lemma_frame_round_trip(payload: Seq<u8>, rest: Seq<u8>)
    requires
        payload.len() <= u64::MAX,
    ensures
        frame_complete(frame_of(payload) + rest),
        frame_valid(frame_of(payload) + rest),
        payload_field(frame_of(payload) + rest) == payload,
        len_field(frame_of(payload) + rest) == payload.len(),
        frame_of(payload).len() == payload.len() + 12,
{
    let s = frame_of(payload) + rest;
    lemma_u32_le_round_trip(crc32_of(payload));
    lemma_u64_le_round_trip(payload.len() as u64);
    assert(s.subrange(0, 4) =~= u32_le(crc32_of(payload)));
    assert(s.subrange(4, 12) =~= u64_le(payload.len() as u64));
    assert(s.subrange(12, 12 + payload.len() as int) =~= payload);
}

/// Appends the little-endian bytes of `x`.
pub fn push_u32_le(out: &mut Vec<u8>, x: u32)
    ensures
        final(out)@ == old(out)@ + u32_le(x),
{
    out.push(x as u8);
    out.push((x >> 8u32) as u8);
    out.push((x >> 16u32) as u8);
    out.push((x >> 24u32) as u8);
    assert(final(out)@ =~= old(out)@ + u32_le(x));
}

/// Appends the little-endian bytes of `x`.
pub fn push_u64_le(out: &mut Vec<u8>, x: u64)
    ensures
        final(out)@ == old(out)@ + u64_le(x),
{
    out.push(x as u8);
    out.push((x >> 8u64) as u8);
    out.push((x >> 16u64) as u8);
    out.push((x >> 24u64) as u8);
    out.push((x >> 32u64) as u8);
    out.push((x >> 40u64) as u8);
    out.push((x >> 48u64) as u8);
    out.push((x >> 56u64) as u8);
    assert(final(out)@ =~= old(out)@ + u64_le(x));
}

/// Reads a little-endian `u32` at `pos`.
pub fn read_u32_le(buf: &[u8], pos: usize) -> (r: u32)
    requires
        pos + 4 <= buf@.len(),
    ensures
        r == u32_from_le(buf@.subrange(pos as int, pos + 4)),
{
    (buf[pos] as u32) | ((buf[pos + 1] as u32) << 8u32) | ((buf[pos + 2] as u32) << 16u32) | ((
    buf[pos + 3] as u32) << 24u32)
}

/// Reads a little-endian `u64` at `pos`.
pub fn read_u64_le(buf: &[u8], pos: usize) -> (r: u64)
    requires
        pos + 8 <= buf@.len(),
    ensures
        r == u64_from_le(buf@.subrange(pos as int, pos + 8)),
{
    (buf[pos] as u64) | ((buf[pos + 1] as u64) << 8u64) | ((buf[pos + 2] as u64) << 16u64) | ((
    buf[pos + 3] as u64) << 24u64) | ((buf[pos + 4] as u64) << 32u64) | ((buf[pos + 5] as u64)
        << 40u64) | ((buf[pos + 6] as u64) << 48u64) | ((buf[pos + 7] as u64) << 56u64)
}

/// Appends all of `src` to `out`.
pub fn push_all(out: &mut Vec<u8>, src: &[u8])
    ensures
        final(out)@ == old(out)@ + src@,
{
    let mut i: usize = 0;
    while i < src.len()
        invariant
            i <= src@.len(),
            out@ == old(out)@ + src@.subrange(0, i as int),
        decreases src@.len() - i,
    {
        out.push(src[i]);
        i = i + 1;
        assert(out@ =~= old(out)@ + src@.subrange(0, i as int));
    }
    assert(src@.subrange(0, src@.len() as int) =~= src@);
}

/// Appends the frame that carries `payload` to `out`.
pub fn append_frame(out: &mut Vec<u8>, payload: &[u8])
    ensures
        final(out)@ == old(out)@ + frame_of(payload@),
{
    let crc = checksum(payload);
    push_u32_le(out, crc);
    push_u64_le(out, payload.len() as u64);
    push_all(out, payload);
    assert(final(out)@ =~= old(out)@ + frame_of(payload@));
}

/// The frame that carries `payload`, given `crc`, the payload's checksum.
pub fn frame_with_checksum(payload: &[u8], crc: u32) -> (r: Vec<u8>)
    ensures
        r@ == u32_le(crc) + u64_le(payload@.len() as u64) + payload@,
{
    let mut out: Vec<u8> = Vec::new();
    push_u32_le(&mut out, crc);
    push_u64_le(&mut out, payload.len() as u64);
    push_all(&mut out, payload);
    assert(out@ =~= u32_le(crc) + u64_le(payload@.len() as u64) + payload@);
    out
}

/// The frame that carries `payload`.
pub fn encode_frame(payload: &[u8]) -> (r: Vec<u8>)
    ensures
        r@ == frame_of(payload@),
{
    frame_with_checksum(payload, checksum(payload))
}

/// Locates the frame that starts at `pos` in `buf`: the checksum its header
/// stores, and where its payload starts and ends.
pub fn frame_bounds(buf: &[u8], pos: usize) -> (r: Result<(u32, usize, usize), FrameError>)
    requires
        pos <= buf@.len(),
    ensures
        ({
            let s = buf@.subrange(pos as int, buf@.len() as int);
            match r {
                Ok((stored, start, end)) => {
                    &&& frame_complete(s)
                    &&& stored == crc_field(s)
                    &&& start == pos + 12
                    &&& end == pos + 12 + len_field(s)
                },
                Err(e) => e == FrameError::Truncated && !frame_complete(s),
            }
        }),
{
    let ghost s = buf@.subrange(pos as int, buf@.len() as int);
    if buf.len() - pos < FRAME_HEADER_SIZE {
        return Err(FrameError::Truncated);
    }
    let stored = read_u32_le(buf, pos);
    let len = read_u64_le(buf, pos + 4);
    assert(s.subrange(0, 4) =~= buf@.subrange(pos as int, pos + 4));
    assert(s.subrange(4, 12) =~= buf@.subrange(pos + 4, pos + 12));
    let room = buf.len() - pos - FRAME_HEADER_SIZE;
    if len > room as u64 {
        return Err(FrameError::Truncated);
    }
    let start = pos + FRAME_HEADER_SIZE;
    Ok((stored, start, start + len as usize))
}

/// The size of the frame whose header starts `header`, when the frame fits
/// in `room` bytes; nothing when the header is short or the frame would not
/// fit.
pub fn frame_extent(header: &[u8], room: u64) -> (r: Option<u64>)
    ensures
        r == (if header@.len() >= 12 && room >= 12 && len_field(header@) <= room - 12 {
            Some((12 + len_field(header@)) as u64)
        } else {
            None::<u64>
        }),
{
    if header.len() < FRAME_HEADER_SIZE || room < 12 {
        return None;
    }
    let len = read_u64_le(header, 4);
    if len > room - 12 {
        None
    } else {
        Some(12 + len)
    }
}

/// The payload `body` of a frame whose header stores the checksum `stored`,
/// given `actual`, the checksum of `body`: refused when the two differ.
pub fn check_payload(body: &[u8], stored: u32, actual: u32) -> (r: Result<Vec<u8>, FrameError>)
    ensures
        match r {
            Ok(payload) => actual == stored && payload@ == body@,
            Err(e) => e == FrameError::ChecksumMismatch && actual != stored,
        },
{
    if actual != stored {
        return Err(FrameError::ChecksumMismatch);
    }
    let mut payload: Vec<u8> = Vec::new();
    push_all(&mut payload, body);
    assert(payload@ =~= body@);
    Ok(payload)
}

/// Reads the frame that starts at `pos` in `buf`: its payload and the
/// position just past it.
pub fn decode_frame(buf: &[u8], pos: usize) -> (r: Result<(Vec<u8>, usize), FrameError>)
    requires
        pos <= buf@.len(),
    ensures
        ({
            let s = buf@.subrange(pos as int, buf@.len() as int);
            match r {
                Ok((payload, next)) => {
                    &&& frame_valid(s)
                    &&& payload@ == payload_field(s)
                    &&& next == pos + 12 + len_field(s)
                }
                Err(FrameError::Truncated) => !frame_complete(s),
                Err(FrameError::ChecksumMismatch) => frame_complete(s) && !frame_valid(s),
            }
        }),
{
    let ghost s = buf@.subrange(pos as int, buf@.len() as int);
    let (stored, start, end) = match frame_bounds(buf, pos) {
        Ok(bounds) => bounds,
        Err(e) => {
            return Err(e);
        },
    };
    let body = vstd::slice::slice_subrange(buf, start, end);
    assert(body@ =~= payload_field(s));
    match check_payload(body, stored, checksum(body)) {
        Ok(payload) => Ok((payload, end)),
        Err(e) => Err(e),
    }
}

/// The payloads held by a vector of byte vectors.
pub open spec fn payloads(v: Seq<Vec<u8>>) -> Seq<Seq<u8>> {
    v.map_values(|b: Vec<u8>| b@)
}

/// The frames of `ps`, one after another.
pub open spec fn frames_of(ps: Seq<Seq<u8>>) -> Seq<u8>
    decreases ps.len(),
{
    if ps.len() == 0 {
        Seq::empty()
    } else {
        frames_of(ps.drop_last()) + frame_of(ps.last())
    }
}

/// The frames of two runs of payloads are the frames of each, one after the
/// other.
pub proof fn lemma_frames_concat(a: Seq<Seq<u8>>, b: Seq<Seq<u8>>)
    ensures
        frames_of(a + b) == frames_of(a) + frames_of(b),
    decreases b.len(),
{
    if b.len() == 0 {
        assert(a + b =~= a);
        assert(frames_of(a) + frames_of(b) =~= frames_of(a));
    } else {
        lemma_frames_concat(a, b.drop_last());
        assert((a + b).drop_last() =~= a + b.drop_last());
        assert(frames_of(a) + frames_of(b) =~= frames_of(a) + frames_of(b.drop_last()) + frame_of(
            b.last(),
        ));
    }
}

} // verus!
