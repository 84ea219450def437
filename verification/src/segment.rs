//! Indexed segment files: checksummed frames, the footer that locates the index, the index's
//! own checks, block statistics and which blocks and rows a query reads.

use crate::error::FormatError;
use crate::le::{le32, le64, push_u32, push_u64, read_u32, read_u64, u32_at, u64_at};
use crate::real_block::Mode;
use crate::text::text_equal;
use crate::wrappers::{crc32, crc32_of};
use vstd::prelude::*;

verus! {

pub const FRAME_BYTES: usize = 24;
pub const MAX_META: usize = 16 * 1024 * 1024;
pub const MAX_PAYLOAD: usize = 128 * 1024 * 1024;
pub const MAX_BLOCKS: usize = 100_000;

/// The kinds of frame in a segment and of its trailer, each with its magic.
#[derive(Clone, Copy, Debug, PartialEq, Eq, Structural)]
pub enum FrameKind {
    Header,
    Block,
    Index,
    End,
}

/// "GQOBHDR1", "GQOBBLK1", "GQOBIDX1" and "GQOBEND1".
pub open spec fn frame_magic(kind: FrameKind) -> Seq<u8> {
    match kind {
        FrameKind::Header => seq![71u8, 81, 79, 66, 72, 68, 82, 49],
        FrameKind::Block => seq![71u8, 81, 79, 66, 66, 76, 75, 49],
        FrameKind::Index => seq![71u8, 81, 79, 66, 73, 68, 88, 49],
        FrameKind::End => seq![71u8, 81, 79, 66, 69, 78, 68, 49],
    }
}

impl FrameKind {
    pub fn magic(self) -> (r: [u8; 8])
        ensures
            r@ == frame_magic(self),
    {
        let r: [u8; 8] = match self {
            FrameKind::Header => [71u8, 81, 79, 66, 72, 68, 82, 49],
            FrameKind::Block => [71u8, 81, 79, 66, 66, 76, 75, 49],
            FrameKind::Index => [71u8, 81, 79, 66, 73, 68, 88, 49],
            FrameKind::End => [71u8, 81, 79, 66, 69, 78, 68, 49],
        };
        assert(r@ =~= frame_magic(self));
        r
    }
}

/// The native codec that a segment header names.
pub open spec fn native_mode_of(codec: Seq<char>) -> Option<Mode> {
    if codec == "GQOREAL3/GQOADP02"@ {
        Some(Mode::Gqodb)
    } else if codec == "GQOREAL4/GQOBOOK1"@ {
        Some(Mode::GqodbBook)
    } else {
        None
    }
}

/// The codec name that a segment header stores for a native mode.
pub open spec fn codec_name_of(mode: Mode) -> Option<Seq<char>> {
    match mode {
        Mode::Gqodb => Some("GQOREAL3/GQOADP02"@),
        Mode::GqodbBook => Some("GQOREAL4/GQOBOOK1"@),
        _ => None,
    }
}

pub fn native_mode(codec: &str) -> (r: Result<Mode, FormatError>)
    ensures
        native_mode_of(codec@) matches Some(m) ==> r == Ok::<Mode, FormatError>(m),
        native_mode_of(codec@) is None ==> r == Err::<Mode, FormatError>(FormatError::UnsupportedCodec),
{
    if text_equal(codec, "GQOREAL3/GQOADP02") {
        Ok(Mode::Gqodb)
    } else if text_equal(codec, "GQOREAL4/GQOBOOK1") {
        Ok(Mode::GqodbBook)
    } else {
        Err(FormatError::UnsupportedCodec)
    }
}

pub fn codec_name(mode: Mode) -> (r: Result<&'static str, FormatError>)
    ensures
        codec_name_of(mode) matches Some(n) ==> (r matches Ok(s) && s@ == n),
        codec_name_of(mode) is None ==> r == Err::<&'static str, FormatError>(FormatError::UnsupportedCodec),
{
    match mode {
        Mode::Gqodb => Ok("GQOREAL3/GQOADP02"),
        Mode::GqodbBook => Ok("GQOREAL4/GQOBOOK1"),
        _ => Err(FormatError::UnsupportedCodec),
    }
}

/// The codec name stored for a native mode names that mode again.
pub proof fn lemma_codec_name_roundtrip(mode: Mode)
    requires
        mode == Mode::Gqodb || mode == Mode::GqodbBook,
    ensures
        codec_name_of(mode) matches Some(n) && native_mode_of(n) == Some(mode),
{
    reveal_strlit("GQOREAL3/GQOADP02");
    reveal_strlit("GQOREAL4/GQOBOOK1");
    assert("GQOREAL3/GQOADP02"@[7] != "GQOREAL4/GQOBOOK1"@[7]);
}

/// The 24-byte head of a frame: magic, metadata and payload lengths, the CRC-32 of metadata
/// and payload, then the CRC-32 of those twenty bytes.
pub open spec fn frame_head(magic: Seq<u8>, meta: Seq<u8>, payload: Seq<u8>) -> Seq<u8> {
    let h = magic + le32(meta.len() as u32) + le32(payload.len() as u32) + le32(crc32_of(meta + payload));
    h + le32(crc32_of(h))
}

/// A whole frame: its head, metadata and payload.
pub open spec fn frame_of(magic: Seq<u8>, meta: Seq<u8>, payload: Seq<u8>) -> Seq<u8> {
    frame_head(magic, meta, payload) + meta + payload
}

/// Frames metadata and a payload, each within its limit.
pub fn frame(kind: FrameKind, meta: &[u8], payload: &[u8]) -> (r: Result<Vec<u8>, FormatError>)
    ensures
        (meta@.len() > MAX_META || payload@.len() > MAX_PAYLOAD) ==> r == Err::<Vec<u8>, FormatError>(FormatError::FrameTooLarge),
        (meta@.len() <= MAX_META && payload@.len() <= MAX_PAYLOAD) ==> (r matches Ok(v) && v@ == frame_of(frame_magic(kind), meta@, payload@)
            && v@.len() == FRAME_BYTES + meta@.len() + payload@.len()),
{
    if meta.len() > MAX_META || payload.len() > MAX_PAYLOAD {
        return Err(FormatError::FrameTooLarge);
    }
    let magic = kind.magic();
    let mut body: Vec<u8> = Vec::new();
    body.extend_from_slice(meta);
    let ghost m = body@;
    body.extend_from_slice(payload);
    assert(m =~= meta@);
    assert(body@ =~= meta@ + payload@);
    let body_crc = crc32(body.as_slice());
    let mut out: Vec<u8> = Vec::new();
    let mut k: usize = 0;
    while k < 8
        invariant
            k <= 8,
            magic@ == frame_magic(kind),
            out@ =~= frame_magic(kind).take(k as int),
        decreases 8 - k,
    {
        out.push(magic[k]);
        k = k + 1;
    }
    push_u32(&mut out, meta.len() as u32);
    push_u32(&mut out, payload.len() as u32);
    push_u32(&mut out, body_crc);
    assert(out@ =~= frame_magic(kind) + le32(meta@.len() as u32) + le32(payload@.len() as u32) + le32(crc32_of(meta@ + payload@)));
    let head_crc = crc32(out.as_slice());
    push_u32(&mut out, head_crc);
    assert(out@ =~= frame_head(frame_magic(kind), meta@, payload@));
    let ghost head = out@;
    out.extend_from_slice(meta);
    let ghost middle = out@;
    assert(middle =~= head + meta@);
    out.extend_from_slice(payload);
    assert(out@ =~= middle + payload@);
    Ok(out)
}

/// What the head of a frame says: its magic, metadata and payload lengths and body CRC-32.
#[derive(Clone, Copy, Debug)]
pub struct FrameHeader {
    pub magic: [u8; 8],
    pub meta_len: usize,
    pub payload_len: usize,
    pub body_crc: u32,
    pub length: u64,
}

/// A frame at `offset` of a file of `end` bytes: `None` where not even a head fits.
pub open spec fn frame_room_of(offset: u64, end: u64) -> Result<Option<u64>, FormatError> {
    if offset > end {
        Err(FormatError::FramePastEnd)
    } else if end - offset < FRAME_BYTES {
        Ok(None)
    } else {
        Ok(Some((end - offset) as u64))
    }
}

pub fn frame_room(offset: u64, end: u64) -> (r: Result<Option<u64>, FormatError>)
    ensures
        r == frame_room_of(offset, end),
{
    if offset > end {
        return Err(FormatError::FramePastEnd);
    }
    if end - offset < 24 {
        return Ok(None);
    }
    Ok(Some(end - offset))
}

/// What a frame head says, given `room` bytes from its start to the end of the file:
/// `None` where the frame would run past the end (an incomplete tail).
pub open spec fn frame_header_of(h: Seq<u8>, room: nat) -> Result<Option<(Seq<u8>, nat, nat, u32)>, FormatError> {
    if crc32_of(h.subrange(0, 20)) != u32_at(h, 20) {
        Err(FormatError::FrameHeadChecksum)
    } else if u32_at(h, 8) > MAX_META || u32_at(h, 12) > MAX_PAYLOAD {
        Err(FormatError::FrameTooLarge)
    } else if FRAME_BYTES + u32_at(h, 8) + u32_at(h, 12) > room {
        Ok(None)
    } else {
        Ok(Some((h.subrange(0, 8), u32_at(h, 8) as nat, u32_at(h, 12) as nat, u32_at(h, 16))))
    }
}

pub fn parse_frame_header(h: &[u8], room: u64) -> (r: Result<Option<FrameHeader>, FormatError>)
    requires
        h@.len() == FRAME_BYTES,
    ensures
        r matches Ok(Some(f)) ==> frame_header_of(h@, room as nat) == Ok::<Option<(Seq<u8>, nat, nat, u32)>, FormatError>(
            Some((f.magic@, f.meta_len as nat, f.payload_len as nat, f.body_crc))) && f.length == FRAME_BYTES + f.meta_len
            + f.payload_len,
        r matches Ok(None) ==> frame_header_of(h@, room as nat) == Ok::<Option<(Seq<u8>, nat, nat, u32)>, FormatError>(None),
        r matches Err(e) ==> frame_header_of(h@, room as nat) == Err::<Option<(Seq<u8>, nat, nat, u32)>, FormatError>(e),
{
    let expected = read_u32(h, 20);
    if crc32(&h[0..20]) != expected {
        return Err(FormatError::FrameHeadChecksum);
    }
    let m = read_u32(h, 8) as usize;
    let p = read_u32(h, 12) as usize;
    if m > MAX_META || p > MAX_PAYLOAD {
        return Err(FormatError::FrameTooLarge);
    }
    let length = 24 + m as u64 + p as u64;
    if length > room {
        return Ok(None);
    }
    let magic: [u8; 8] = [h[0], h[1], h[2], h[3], h[4], h[5], h[6], h[7]];
    assert(magic@ =~= h@.subrange(0, 8));
    Ok(Some(FrameHeader { magic, meta_len: m, payload_len: p, body_crc: read_u32(h, 16), length }))
}

/// Checks the metadata and payload read after a frame head against its CRC-32.
pub fn check_frame_body(header: &FrameHeader, meta: &[u8], payload: &[u8]) -> (r: Result<(), FormatError>)
    ensures
        r is Ok <==> crc32_of(meta@ + payload@) == header.body_crc,
        r matches Err(e) ==> e == FormatError::FrameBodyChecksum,
{
    let mut body: Vec<u8> = Vec::new();
    body.extend_from_slice(meta);
    let ghost m = body@;
    body.extend_from_slice(payload);
    assert(m =~= meta@);
    assert(body@ =~= meta@ + payload@);
    if crc32(body.as_slice()) != header.body_crc {
        return Err(FormatError::FrameBodyChecksum);
    }
    Ok(())
}

proof fn lemma_head_fields(magic: Seq<u8>, meta: Seq<u8>, payload: Seq<u8>)
    requires
        magic.len() == 8,
    ensures
        ({
            let s = frame_head(magic, meta, payload);
            &&& s.len() == 24
            &&& s.subrange(0, 8) == magic
            &&& u32_at(s, 8) == meta.len() as u32
            &&& u32_at(s, 12) == payload.len() as u32
            &&& u32_at(s, 16) == crc32_of(meta + payload)
            &&& crc32_of(s.subrange(0, 20)) == u32_at(s, 20)
        }),
{
    let h = magic + le32(meta.len() as u32) + le32(payload.len() as u32) + le32(crc32_of(meta + payload));
    let s = h + le32(crc32_of(h));
    assert(s.subrange(0, 20) =~= h);
    assert(s.subrange(0, 8) =~= magic);
    assert(s.subrange(8, 12) =~= le32(meta.len() as u32));
    assert(s.subrange(12, 16) =~= le32(payload.len() as u32));
    assert(s.subrange(16, 20) =~= le32(crc32_of(meta + payload)));
    assert(s.subrange(20, 24) =~= le32(crc32_of(h)));
    crate::le::lemma_u32_at(s, 8, meta.len() as u32);
    crate::le::lemma_u32_at(s, 12, payload.len() as u32);
    crate::le::lemma_u32_at(s, 16, crc32_of(meta + payload));
    crate::le::lemma_u32_at(s, 20, crc32_of(h));
}

/// A written frame reads back: its head gives its magic, lengths and body checksum, and the
/// metadata and payload follow it.
pub proof fn lemma_frame_roundtrip(magic: Seq<u8>, meta: Seq<u8>, payload: Seq<u8>, room: nat)
    requires
        magic.len() == 8,
        meta.len() <= MAX_META,
        payload.len() <= MAX_PAYLOAD,
        room >= FRAME_BYTES + meta.len() + payload.len(),
    ensures
        ({
            let f = frame_of(magic, meta, payload);
            &&& frame_header_of(f.subrange(0, 24), room) == Ok::<Option<(Seq<u8>, nat, nat, u32)>, FormatError>(
                Some((magic, meta.len(), payload.len(), crc32_of(meta + payload))))
            &&& f.subrange(24, 24 + meta.len() as int) == meta
            &&& f.subrange(24 + meta.len() as int, 24 + meta.len() + payload.len() as int) == payload
        }),
{
    let head = frame_head(magic, meta, payload);
    lemma_head_fields(magic, meta, payload);
    let f = head + meta + payload;
    assert(f.subrange(0, 24) =~= head);
    assert(f.subrange(24, 24 + meta.len() as int) =~= meta);
    assert(f.subrange(24 + meta.len() as int, 24 + meta.len() + payload.len() as int) =~= payload);
}

/// A written frame whose room ends before the frame does reads as an incomplete tail
/// (`None`), never as a corrupt frame: a truncated segment keeps its complete prefix.
pub proof fn lemma_truncated_frame_is_incomplete(magic: Seq<u8>, meta: Seq<u8>, payload: Seq<u8>, room: nat)
    requires
        magic.len() == 8,
        meta.len() <= MAX_META,
        payload.len() <= MAX_PAYLOAD,
        room < FRAME_BYTES + meta.len() + payload.len(),
    ensures
        frame_header_of(frame_of(magic, meta, payload).subrange(0, 24), room) == Ok::<
            Option<(Seq<u8>, nat, nat, u32)>,
            FormatError,
        >(None),
{
    let head = frame_head(magic, meta, payload);
    lemma_head_fields(magic, meta, payload);
    let f = head + meta + payload;
    assert(f.subrange(0, 24) =~= head);
}

/// The trailer: the end magic, the index frame's offset and a CRC-32 of those sixteen bytes.
pub open spec fn footer_of(offset: u64) -> Seq<u8> {
    let t = frame_magic(FrameKind::End) + le64(offset);
    t + le32(crc32_of(t))
}

pub fn footer(offset: u64) -> (r: Vec<u8>)
    ensures
        r@ == footer_of(offset),
{
    let magic = FrameKind::End.magic();
    let mut out: Vec<u8> = Vec::new();
    let mut k: usize = 0;
    while k < 8
        invariant
            k <= 8,
            magic@ == frame_magic(FrameKind::End),
            out@ =~= frame_magic(FrameKind::End).take(k as int),
        decreases 8 - k,
    {
        out.push(magic[k]);
        k = k + 1;
    }
    push_u64(&mut out, offset);
    assert(out@ =~= frame_magic(FrameKind::End) + le64(offset));
    let c = crc32(out.as_slice());
    push_u32(&mut out, c);
    out
}

/// Where a segment of `end` bytes keeps its footer, given that its frames start at `first`.
pub fn footer_start(first: u64, end: u64) -> (r: Result<u64, FormatError>)
    ensures
        end >= first + 20 ==> r == Ok::<u64, FormatError>((end - 20) as u64),
        end < first + 20 ==> r == Err::<u64, FormatError>(FormatError::MissingFooter),
{
    if end < first || end - first < 20 {
        return Err(FormatError::MissingFooter);
    }
    Ok(end - 20)
}

/// The index offset that a footer gives: it must carry the end magic and its checksum, and
/// point between the first frame and the footer.
pub open spec fn footer_offset(tail: Seq<u8>, first: nat, end: nat) -> Result<u64, FormatError> {
    if tail.subrange(0, 8) != frame_magic(FrameKind::End) || crc32_of(tail.subrange(0, 16)) != u32_at(tail, 16) {
        Err(FormatError::InvalidFooter)
    } else if !(u64_at(tail, 8) >= first && u64_at(tail, 8) < end - 20) {
        Err(FormatError::InvalidIndexOffset)
    } else {
        Ok(u64_at(tail, 8))
    }
}

pub fn parse_footer(tail: &[u8], first: u64, end: u64) -> (r: Result<u64, FormatError>)
    requires
        tail@.len() == 20,
        end >= first + 20,
    ensures
        r matches Ok(o) ==> footer_offset(tail@, first as nat, end as nat) == Ok::<u64, FormatError>(o),
        r matches Err(e) ==> footer_offset(tail@, first as nat, end as nat) == Err::<u64, FormatError>(e),
{
    let magic = FrameKind::End.magic();
    let mut same = true;
    let mut k: usize = 0;
    while k < 8
        invariant
            k <= 8,
            tail@.len() == 20,
            magic@ == frame_magic(FrameKind::End),
            same == (forall|j: int| 0 <= j < k ==> tail@[j] == magic@[j]),
        decreases 8 - k,
    {
        if tail[k] != magic[k] {
            same = false;
        }
        k = k + 1;
    }
    proof {
        if same {
            assert(tail@.subrange(0, 8) =~= frame_magic(FrameKind::End));
        } else {
            assert(tail@.subrange(0, 8) != frame_magic(FrameKind::End)) by {
                let j = choose|j: int| 0 <= j < 8 && tail@[j] != magic@[j];
                assert(tail@.subrange(0, 8)[j] != frame_magic(FrameKind::End)[j]);
            }
        }
    }
    if !same {
        return Err(FormatError::InvalidFooter);
    }
    let expected = read_u32(tail, 16);
    if crc32(&tail[0..16]) != expected {
        return Err(FormatError::InvalidFooter);
    }
    let offset = read_u64(tail, 8);
    if !(offset >= first && offset < end - 20) {
        return Err(FormatError::InvalidIndexOffset);
    }
    Ok(offset)
}

/// A written footer reads back as the offset it was written with.
pub proof fn lemma_footer_roundtrip(offset: u64, first: nat, end: nat)
    requires
        first <= offset,
        offset + 20 < end,
    ensures
        footer_offset(footer_of(offset), first, end) == Ok::<u64, FormatError>(offset),
{
    let t = frame_magic(FrameKind::End) + le64(offset);
    let f = t + le32(crc32_of(t));
    assert(f.subrange(0, 8) =~= frame_magic(FrameKind::End));
    assert(f.subrange(0, 16) =~= t);
    assert(f.subrange(8, 16) =~= le64(offset));
    assert(f.subrange(16, 20) =~= le32(crc32_of(t)));
    crate::le::lemma_u64_at(f, 8, offset);
    crate::le::lemma_u32_at(f, 16, crc32_of(t));
}

} // verus!
