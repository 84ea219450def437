//! Framing of normalized real-data blocks: the native tick and book codecs behind a schema
//! metadata section, and the checksum envelope shared with Parquet blocks.
use crate::adaptive::{adaptive_decoded, adaptive_encoded, decode_values_with_scratch, encode_values};
use crate::book::{book_decoded, book_encoded};
use crate::error::FormatError;
use crate::le::{le32, push_u32, read_u32, u32_at};
use crate::wrappers::{crc32, crc32_of, vec_capacity};
use vstd::prelude::*;

verus! {

pub const ENVELOPE_MAX_BYTES: usize = 128 * 1024 * 1024;

/// How a real-data block is stored.
#[derive(Clone, Copy, Debug, PartialEq, Eq, Structural)]
pub enum Mode {
    Gqodb,
    GqodbBook,
    ParquetLz4,
    ParquetDictionaryLz4,
    ParquetSnappy,
    ParquetBrotli,
    ParquetNormalizedLz4,
}

/// The profile name of each mode.
pub open spec fn mode_name(mode: Mode) -> Seq<char> {
    match mode {
        Mode::Gqodb => "gqodb-adaptive-lz4"@,
        Mode::GqodbBook => "gqodb-book-runs-planes-lz4"@,
        Mode::ParquetLz4 => "parquet-delta-bss-lz4"@,
        Mode::ParquetDictionaryLz4 => "parquet-dictionary-lz4"@,
        Mode::ParquetSnappy => "parquet-delta-bss-snappy"@,
        Mode::ParquetBrotli => "parquet-delta-bss-brotli5"@,
        Mode::ParquetNormalizedLz4 => "parquet-normalized-lz4"@,
    }
}

impl Mode {
    /// The modes that benchmarks compare (the book mode is used by segments only).
    pub fn all() -> (r: [Mode; 6])
        ensures
            r@ == seq![Mode::Gqodb, Mode::ParquetLz4, Mode::ParquetDictionaryLz4, Mode::ParquetSnappy, Mode::ParquetBrotli,
                Mode::ParquetNormalizedLz4],
    {
        [Mode::Gqodb, Mode::ParquetLz4, Mode::ParquetDictionaryLz4, Mode::ParquetSnappy, Mode::ParquetBrotli, Mode::ParquetNormalizedLz4]
    }

    pub fn name(self) -> (r: &'static str)
        ensures
            r@ == mode_name(self),
    {
        match self {
            Mode::Gqodb => "gqodb-adaptive-lz4",
            Mode::GqodbBook => "gqodb-book-runs-planes-lz4",
            Mode::ParquetLz4 => "parquet-delta-bss-lz4",
            Mode::ParquetDictionaryLz4 => "parquet-dictionary-lz4",
            Mode::ParquetSnappy => "parquet-delta-bss-snappy",
            Mode::ParquetBrotli => "parquet-delta-bss-brotli5",
            Mode::ParquetNormalizedLz4 => "parquet-normalized-lz4",
        }
    }

    /// Whether the mode is one of the native codecs (tick or book), which this library frames.
    pub fn is_native(self) -> (r: bool)
        ensures
            r == (self == Mode::Gqodb || self == Mode::GqodbBook),
    {
        match self {
            Mode::Gqodb | Mode::GqodbBook => true,
            _ => false,
        }
    }
}

/// "GQOREAL4" for the book codec, "GQOREAL3" for the tick codec.
pub open spec fn real_magic(book: bool) -> Seq<u8> {
    if book {
        seq![71u8, 81, 79, 82, 69, 65, 76, 52]
    } else {
        seq![71u8, 81, 79, 82, 69, 65, 76, 51]
    }
}

/// The length of an enveloped block without its checksum, or why it is refused: at least
/// twelve and at most 128 MiB bytes, ending in the CRC-32 of the rest.
pub open spec fn envelope_end(input: Seq<u8>) -> Result<nat, FormatError> {
    if input.len() < 12 || input.len() > ENVELOPE_MAX_BYTES {
        Err(FormatError::InvalidBlockSize)
    } else if crc32_of(input.subrange(0, input.len() - 4)) != u32_at(input, input.len() - 4) {
        Err(FormatError::ChecksumMismatch)
    } else {
        Ok((input.len() - 4) as nat)
    }
}

/// Checks the length and checksum of an enveloped block; returns where the checksum starts.
pub fn checked_envelope(input: &[u8]) -> (r: Result<usize, FormatError>)
    ensures
        r matches Ok(n) ==> envelope_end(input@) == Ok::<nat, FormatError>(n as nat),
        r matches Err(e) ==> envelope_end(input@) == Err::<nat, FormatError>(e),
{
    let n = input.len();
    if n < 12 || n > ENVELOPE_MAX_BYTES {
        return Err(FormatError::InvalidBlockSize);
    }
    let end = n - 4;
    let expected = read_u32(input, end);
    if crc32(&input[0..end]) != expected {
        return Err(FormatError::ChecksumMismatch);
    }
    Ok(end)
}

/// Appends the CRC-32 of everything before it.
pub fn seal(out: &mut Vec<u8>)
    ensures
        final(out)@ == old(out)@ + le32(crc32_of(old(out)@)),
{
    let checksum = crc32(out.as_slice());
    push_u32(out, checksum);
}

/// The length of the schema metadata of a native real block, or why the block is refused.
pub open spec fn native_frame(input: Seq<u8>, book: bool) -> Result<nat, FormatError> {
    match envelope_end(input) {
        Err(e) => Err(e),
        Ok(end) => if input.subrange(0, 8) != real_magic(book) {
            Err(FormatError::BadMagic)
        } else if u32_at(input, 8) > end - 12 {
            Err(FormatError::InvalidSchemaLength)
        } else {
            Ok(u32_at(input, 8) as nat)
        },
    }
}

fn has_real_magic(input: &[u8], book: bool) -> (r: bool)
    requires
        8 <= input@.len(),
    ensures
        r == (input@.subrange(0, 8) == real_magic(book)),
{
    let magic: [u8; 8] = if book { [71u8, 81, 79, 82, 69, 65, 76, 52] } else { [71u8, 81, 79, 82, 69, 65, 76, 51] };
    assert(magic@ == real_magic(book));
    let mut i: usize = 0;
    while i < 8
        invariant
            i <= 8 <= input@.len(),
            magic@ == real_magic(book),
            forall|j: int| 0 <= j < i ==> input@[j] == magic@[j],
        decreases 8 - i,
    {
        if input[i] != magic[i] {
            assert(input@.subrange(0, 8)[i as int] != real_magic(book)[i as int]);
            return false;
        }
        i = i + 1;
    }
    assert(input@.subrange(0, 8) =~= real_magic(book));
    true
}

/// Blocks of twelve to fifteen bytes that pass the checksum and magic: their metadata bound
/// `end - 12` is below zero, an arithmetic overflow.
pub open spec fn native_frame_panics(input: Seq<u8>, book: bool) -> bool {
    &&& 12 <= input.len() < 16
    &&& envelope_end(input) is Ok
    &&& input.subrange(0, 8) == real_magic(book)
}

/// Checks the envelope and magic of a native real block; returns the length of its schema
/// metadata, which starts at byte twelve.
pub fn check_native_frame(input: &[u8], book: bool) -> (r: Result<usize, FormatError>)
    requires
        !native_frame_panics(input@, book),
    ensures
        r matches Ok(n) ==> native_frame(input@, book) == Ok::<nat, FormatError>(n as nat),
        r matches Err(e) ==> native_frame(input@, book) == Err::<nat, FormatError>(e),
{
    let end = match checked_envelope(input) {
        Ok(end) => end,
        Err(e) => {
            return Err(e);
        },
    };
    if !has_real_magic(input, book) {
        return Err(FormatError::BadMagic);
    }
    let n = read_u32(input, 8) as usize;
    if n > end - 12 {
        return Err(FormatError::InvalidSchemaLength);
    }
    Ok(n)
}

/// The columns in the payload of a native real block whose metadata takes `meta` bytes.
pub open spec fn native_payload(input: Seq<u8>, meta: nat, book: bool) -> Result<Seq<Seq<i64>>, FormatError> {
    let payload = input.subrange(12 + meta as int, input.len() - 4);
    if book {
        book_decoded(payload)
    } else {
        match adaptive_decoded(payload) {
            Err(e) => Err(e),
            Ok((kind, values)) => if kind != 0 {
                Err(FormatError::WrongKind)
            } else {
                Ok(values)
            },
        }
    }
}

/// A native real block: magic, metadata length, metadata, the codec's block, then a CRC-32.
pub open spec fn native_encoded(values: Seq<Seq<i64>>, meta: Seq<u8>, book: bool) -> Result<Seq<u8>, FormatError> {
    let payload = if book { book_encoded(values) } else { adaptive_encoded(values, true, 0) };
    match payload {
        Err(e) => Err(e),
        Ok(p) => {
            let body = real_magic(book) + le32(meta.len() as u32) + meta + p;
            Ok(body + le32(crc32_of(body)))
        },
    }
}

fn push_native_header(out: &mut Vec<u8>, book: bool, meta_len: u32)
    ensures
        final(out)@ == old(out)@ + real_magic(book) + le32(meta_len),
{
    let magic: [u8; 8] = if book { [71u8, 81, 79, 82, 69, 65, 76, 52] } else { [71u8, 81, 79, 82, 69, 65, 76, 51] };
    let ghost start = out@;
    let mut k: usize = 0;
    while k < 8
        invariant
            k <= 8,
            magic@ == real_magic(book),
            out@ =~= start + real_magic(book).take(k as int),
        decreases 8 - k,
    {
        out.push(magic[k]);
        k = k + 1;
    }
    push_u32(out, meta_len);
    assert(final(out)@ =~= old(out)@ + real_magic(book) + le32(meta_len));
}

/// Frames normalized columns and their schema metadata with the native tick or book codec.
/// A block within the envelope's size limit, with metadata of fewer than 2^32 bytes, passes
/// `check_native_frame` with the metadata's length and decodes back to the same columns.
#[verifier::spinoff_prover]
#[verifier::rlimit(40)]
pub fn encode_native(values: &Vec<Vec<i64>>, meta: &[u8], book: bool) -> (r: Result<Vec<u8>, FormatError>)
    ensures
        r matches Ok(v) ==> native_encoded(values@.map_values(|c: Vec<i64>| c@), meta@, book) == Ok::<Seq<u8>, FormatError>(v@),
        r matches Err(e) ==> native_encoded(values@.map_values(|c: Vec<i64>| c@), meta@, book) == Err::<Seq<u8>, FormatError>(e),
        r matches Ok(v) ==> v@.len() >= 16 && !native_frame_panics(v@, book),
        r matches Ok(v) ==> (v@.len() <= ENVELOPE_MAX_BYTES && meta@.len() <= u32::MAX ==> native_frame(v@, book) == Ok::<
            nat,
            FormatError,
        >(meta@.len()) && native_payload(v@, meta@.len(), book) == Ok::<Seq<Seq<i64>>, FormatError>(
            values@.map_values(|c: Vec<i64>| c@))),
{
    let ghost vals = values@.map_values(|c: Vec<i64>| c@);
    let payload = if book {
        crate::book::encode(values)
    } else {
        encode_values(values, true, 0)
    };
    let payload = match payload {
        Ok(p) => p,
        Err(e) => {
            return Err(e);
        },
    };
    let mut out: Vec<u8> = Vec::new();
    push_native_header(&mut out, book, meta.len() as u32);
    let ghost head = out@;
    out.extend_from_slice(meta);
    assert(out@ =~= head + meta@);
    let ghost middle = out@;
    out.extend_from_slice(payload.as_slice());
    assert(out@ =~= middle + payload@);
    let ghost body = out@;
    seal(&mut out);
    proof {
        lemma_native_frame(body, out@, meta@, payload@, book);
        if out@.len() <= ENVELOPE_MAX_BYTES && meta@.len() <= u32::MAX && !book {
            crate::adaptive_roundtrip::lemma_adaptive_decoded(vals, true, 0);
        }
    }
    Ok(out)
}

/// The framing of a native block reads back: its envelope, magic and metadata length, and the
/// codec's block between the metadata and the checksum.
pub(crate) proof fn lemma_native_frame(body: Seq<u8>, block: Seq<u8>, meta: Seq<u8>, payload: Seq<u8>, book: bool)
    requires
        body == real_magic(book) + le32(meta.len() as u32) + meta + payload,
        block == body + le32(crc32_of(body)),
        payload.len() >= 4,
    ensures
        block.len() >= 16,
        !native_frame_panics(block, book),
        block.len() <= ENVELOPE_MAX_BYTES && meta.len() <= u32::MAX ==> native_frame(block, book) == Ok::<nat, FormatError>(
            meta.len()),
        block.subrange(12 + meta.len() as int, block.len() - 4) == payload,
{
    assert(forall|v: u32| #[trigger] le32(v).len() == 4);
    assert(block.subrange(0, block.len() - 4) =~= body);
    assert(block.subrange(block.len() - 4, block.len() as int) =~= le32(crc32_of(body)));
    crate::le::lemma_u32_at(block, block.len() - 4, crc32_of(body));
    assert(block.subrange(0, 8) =~= real_magic(book));
    assert(block.subrange(8, 12) =~= le32(meta.len() as u32));
    crate::le::lemma_u32_at(block, 8, meta.len() as u32);
    assert(block.subrange(12 + meta.len() as int, block.len() - 4) =~= payload);
}

/// A reusable per-worker LZ4 workspace. Decoded columns own their data.
pub struct Decoder {
    scratch: Vec<u8>,
    /// Set while the workspace is a fresh `Vec::new()`, which holds no allocation.
    released: bool,
}

impl Decoder {
    pub fn new() -> (r: Decoder)
        ensures
            r.workspace().len() == 0,
            r.is_released(),
    {
        Decoder { scratch: Vec::new(), released: true }
    }

    /// The bytes currently kept in the workspace.
    pub closed spec fn workspace(&self) -> Seq<u8> {
        self.scratch@
    }

    /// Whether the workspace is fresh: made by `new` or `release`, and not used by a decode
    /// since.
    pub closed spec fn is_released(&self) -> bool {
        self.released && self.scratch@.len() == 0
    }

    /// Bytes retained for the largest decoded packed column so far: the workspace's capacity.
    /// A fresh workspace (`Vec::new()`, which does not allocate) retains none; otherwise it is
    /// at least the bytes it holds, and how much more the allocator decides.
    pub fn retained_bytes(&self) -> (r: usize)
        ensures
            self.is_released() ==> r == 0,
            r >= self.workspace().len(),
    {
        if self.released && self.scratch.len() == 0 {
            0
        } else {
            vec_capacity(&self.scratch)
        }
    }

    /// Releases the workspace when a stream becomes idle: it then holds nothing and retains
    /// no bytes.
    pub fn release(&mut self)
        ensures
            final(self).workspace().len() == 0,
            final(self).is_released(),
    {
        self.scratch = Vec::new();
        self.released = true;
    }

    /// Decodes the columns of a native real block whose framing `check_native_frame` accepted
    /// with a metadata length of `meta`. What it leaves in the workspace is not stated.
    pub fn decode_payload(&mut self, input: &[u8], meta: usize, book: bool) -> (r: Result<Vec<Vec<i64>>, FormatError>)
        requires
            16 <= input@.len(),
            meta <= input@.len() - 16,
        ensures
            r matches Ok(v) ==> native_payload(input@, meta as nat, book) == Ok::<Seq<Seq<i64>>, FormatError>(
                v@.map_values(|c: Vec<i64>| c@)),
            r matches Err(e) ==> native_payload(input@, meta as nat, book) == Err::<Seq<Seq<i64>>, FormatError>(e),
            !final(self).is_released(),
    {
        let end = input.len() - 4;
        let payload = &input[12 + meta..end];
        self.released = false;
        if book {
            crate::book::decode(payload, &mut self.scratch)
        } else {
            let (kind, values) = match decode_values_with_scratch(payload, &mut self.scratch) {
                Ok(t) => t,
                Err(e) => {
                    return Err(e);
                },
            };
            if kind != 0 {
                return Err(FormatError::WrongKind);
            }
            Ok(values)
        }
    }

    /// Checks the framing of a native real block, then decodes its columns; returns the length
    /// of its schema metadata and the columns. A block of twelve to fifteen bytes that passes
    /// the checksum and magic has no room for metadata and is refused as `InvalidSchemaLength`.
    pub fn decode_native(&mut self, input: &[u8], book: bool) -> (r: Result<(usize, Vec<Vec<i64>>), FormatError>)
        ensures
            r matches Ok((m, v)) ==> native_decoded(input@, book) == Ok::<(nat, Seq<Seq<i64>>), FormatError>(
                (m as nat, v@.map_values(|c: Vec<i64>| c@)),
            ),
            r matches Err(e) ==> native_decoded(input@, book) == Err::<(nat, Seq<Seq<i64>>), FormatError>(e),
    {
        if native_frame_panics_at(input, book) {
            return Err(FormatError::InvalidSchemaLength);
        }
        let meta = match check_native_frame(input, book) {
            Ok(m) => m,
            Err(e) => {
                return Err(e);
            },
        };
        match self.decode_payload(input, meta, book) {
            Ok(v) => Ok((meta, v)),
            Err(e) => Err(e),
        }
    }
}

/// The schema metadata length and the columns of a native real block, or the first check of
/// its framing or payload that it fails.
pub open spec fn native_decoded(input: Seq<u8>, book: bool) -> Result<(nat, Seq<Seq<i64>>), FormatError> {
    match native_frame(input, book) {
        Err(e) => Err(e),
        Ok(m) => match native_payload(input, m, book) {
            Err(e) => Err(e),
            Ok(v) => Ok((m, v)),
        },
    }
}

/// Whether a block is one of the twelve-to-fifteen-byte blocks that pass the checksum and
/// magic but leave no room for metadata.
pub fn native_frame_panics_at(input: &[u8], book: bool) -> (r: bool)
    ensures
        r == native_frame_panics(input@, book),
{
    if input.len() < 12 || input.len() >= 16 {
        return false;
    }
    match checked_envelope(input) {
        Ok(_) => has_real_magic(input, book),
        Err(_) => false,
    }
}

impl Default for Decoder {
    fn default() -> (r: Decoder)
        ensures
            r.workspace().len() == 0,
            r.is_released(),
    {
        Decoder::new()
    }
}

} // verus!
