//! Checked dispatch over the native tick and book codecs: which codec a file holds, and the
//! bounds a block must meet before it is decoded.
use crate::data::MAX_ROWS;
use crate::error::FormatError;
use crate::le::{read_u16, read_u32, u16_at, u32_at};
use crate::limits::{expansion_of, layout_expansion, payload_magic, BoundError, MAX_BLOCK_BYTES, MAX_DECODED_BYTES, MAX_METADATA_BYTES};
use crate::wrappers::{block_layout, block_layout_of};
use crate::real_block::{real_magic, Mode};
use crate::text::text_equal;
use crate::wrappers::{crc32, crc32_of};
use vstd::prelude::*;

verus! {

/// The two families of normalized data.
#[derive(Clone, Copy, Debug, PartialEq, Eq, Structural)]
pub enum Family {
    Tick,
    Orderbook,
}

pub open spec fn family_name(f: Family) -> Seq<char> {
    match f {
        Family::Tick => "tick"@,
        Family::Orderbook => "orderbook"@,
    }
}

pub open spec fn family_of_name(s: Seq<char>) -> Option<Family> {
    if s == "tick"@ {
        Some(Family::Tick)
    } else if s == "orderbook"@ {
        Some(Family::Orderbook)
    } else {
        None
    }
}

pub open spec fn family_mode(f: Family) -> Mode {
    match f {
        Family::Tick => Mode::Gqodb,
        Family::Orderbook => Mode::GqodbBook,
    }
}

impl Family {
    pub fn parse(s: &str) -> (r: Result<Family, FormatError>)
        ensures
            family_of_name(s@) matches Some(f) ==> r == Ok::<Family, FormatError>(f),
            family_of_name(s@) is None ==> r == Err::<Family, FormatError>(FormatError::UnknownFamily),
    {
        if text_equal(s, "tick") {
            Ok(Family::Tick)
        } else if text_equal(s, "orderbook") {
            Ok(Family::Orderbook)
        } else {
            Err(FormatError::UnknownFamily)
        }
    }

    pub fn name(self) -> (r: &'static str)
        ensures
            r@ == family_name(self),
    {
        match self {
            Family::Tick => "tick",
            Family::Orderbook => "orderbook",
        }
    }

    pub fn mode(self) -> (r: Mode)
        ensures
            r == family_mode(self),
    {
        match self {
            Family::Tick => Mode::Gqodb,
            Family::Orderbook => Mode::GqodbBook,
        }
    }
}

/// A family's name parses back to the family.
pub proof fn lemma_family_name_roundtrip(f: Family)
    ensures
        family_of_name(family_name(f)) == Some(f),
{
    reveal_strlit("tick");
    reveal_strlit("orderbook");
    assert("tick"@.len() == 4);
    assert("orderbook"@.len() == 9);
    assert("tick"@ != "orderbook"@);
}

/// The physical formats a native file may hold.
#[derive(Clone, Copy, Debug, PartialEq, Eq, Structural)]
pub enum Format {
    AdaptiveBlockV3,
    BookBlockV4,
    NativeSegmentV1,
}

pub open spec fn format_family(f: Format) -> Family {
    match f {
        Format::AdaptiveBlockV3 => Family::Tick,
        _ => Family::Orderbook,
    }
}

impl Format {
    pub fn family(self) -> (r: Family)
        ensures
            r == format_family(self),
    {
        match self {
            Format::AdaptiveBlockV3 => Family::Tick,
            _ => Family::Orderbook,
        }
    }
}

/// "GQOBHDR1", the first bytes of a segment.
pub open spec fn segment_magic() -> Seq<u8> {
    seq![71u8, 81, 79, 66, 72, 68, 82, 49]
}

/// The format that a file's first eight bytes name; a file name never decides it.
pub open spec fn format_of(bytes: Seq<u8>) -> Result<Format, FormatError> {
    if bytes.len() < 8 {
        Err(FormatError::TruncatedMagic)
    } else if bytes.subrange(0, 8) == real_magic(false) {
        Ok(Format::AdaptiveBlockV3)
    } else if bytes.subrange(0, 8) == real_magic(true) {
        Ok(Format::BookBlockV4)
    } else if bytes.subrange(0, 8) == segment_magic() {
        Ok(Format::NativeSegmentV1)
    } else {
        Err(FormatError::UnknownFormat)
    }
}

fn equals_at(input: &[u8], at: usize, magic: [u8; 8]) -> (r: bool)
    requires
        at + 8 <= input@.len(),
    ensures
        r == (input@.subrange(at as int, at + 8) == magic@),
{
    let _n = input.len();
    let mut i: usize = 0;
    while i < 8
        invariant
            i <= 8,
            at + 8 <= input@.len() <= usize::MAX,
            forall|j: int| 0 <= j < i ==> input@[at + j] == magic@[j],
        decreases 8 - i,
    {
        if input[at + i] != magic[i] {
            assert(input@.subrange(at as int, at + 8)[i as int] != magic@[i as int]);
            return false;
        }
        i = i + 1;
    }
    assert(input@.subrange(at as int, at + 8) =~= magic@);
    true
}

pub fn detect(bytes: &[u8]) -> (r: Result<Format, FormatError>)
    ensures
        r == format_of(bytes@),
{
    if bytes.len() < 8 {
        return Err(FormatError::TruncatedMagic);
    }
    let tick: [u8; 8] = [71u8, 81, 79, 82, 69, 65, 76, 51];
    let book: [u8; 8] = [71u8, 81, 79, 82, 69, 65, 76, 52];
    let segment: [u8; 8] = [71u8, 81, 79, 66, 72, 68, 82, 49];
    assert(tick@ =~= real_magic(false));
    assert(book@ =~= real_magic(true));
    assert(segment@ =~= segment_magic());
    if equals_at(bytes, 0, tick) {
        Ok(Format::AdaptiveBlockV3)
    } else if equals_at(bytes, 0, book) {
        Ok(Format::BookBlockV4)
    } else if equals_at(bytes, 0, segment) {
        Ok(Format::NativeSegmentV1)
    } else {
        Err(FormatError::UnknownFormat)
    }
}

/// The schema metadata length of a native block, checked before its metadata is parsed:
/// 32 bytes to 128 MiB, a matching checksum, and at most 1 MiB of metadata within the block.
pub open spec fn preflight_frame_of(bytes: Seq<u8>) -> Result<nat, FormatError> {
    if !(32 <= bytes.len() <= MAX_BLOCK_BYTES) {
        Err(FormatError::InvalidBlockSize)
    } else if crc32_of(bytes.subrange(0, bytes.len() - 4)) != u32_at(bytes, bytes.len() - 4) {
        Err(FormatError::ChecksumMismatch)
    } else if !(u32_at(bytes, 8) <= MAX_METADATA_BYTES && u32_at(bytes, 8) <= bytes.len() - 16) {
        Err(FormatError::InvalidSchemaLength)
    } else {
        Ok(u32_at(bytes, 8) as nat)
    }
}

pub fn preflight_frame(bytes: &[u8]) -> (r: Result<usize, FormatError>)
    ensures
        r matches Ok(m) ==> preflight_frame_of(bytes@) == Ok::<nat, FormatError>(m as nat),
        r matches Err(e) ==> preflight_frame_of(bytes@) == Err::<nat, FormatError>(e),
{
    let n = bytes.len();
    if !(32 <= n && n <= MAX_BLOCK_BYTES) {
        return Err(FormatError::InvalidBlockSize);
    }
    let end = n - 4;
    let expected = read_u32(bytes, end);
    if crc32(&bytes[0..end]) != expected {
        return Err(FormatError::ChecksumMismatch);
    }
    let meta = read_u32(bytes, 8) as usize;
    if !(meta <= MAX_METADATA_BYTES && meta <= end - 12) {
        return Err(FormatError::InvalidSchemaLength);
    }
    Ok(meta)
}

/// The rows and columns of a native block whose metadata takes `meta` bytes and declares
/// `fields` schema fields and `mappings` column mappings, or why it is refused.
pub open spec fn preflight_dimensions_of(bytes: Seq<u8>, meta: nat, format: Format, fields: nat, mappings: nat) -> Result<(nat, nat), FormatError> {
    let payload = bytes.subrange(12 + meta as int, bytes.len() - 4);
    if !(1 <= fields <= 64) {
        Err(FormatError::SchemaFieldBound)
    } else if mappings != fields {
        Err(FormatError::MappingMismatch)
    } else if payload.len() < 20 {
        Err(FormatError::TruncatedPayload)
    } else if format == Format::NativeSegmentV1 {
        Err(FormatError::NotABlock)
    } else {
        let book = format == Format::BookBlockV4;
        if payload.subrange(0, 8) != payload_magic(book) || (!book && payload[9] != 0) {
            Err(FormatError::UnknownPayload)
        } else {
            let (rows, cols) = if book {
                (u32_at(payload, 8) as nat, u32_at(payload, 12) as nat)
            } else {
                (u32_at(payload, 12) as nat, u16_at(payload, 10) as nat)
            };
            if !(rows <= MAX_ROWS && 1 <= cols <= 64) {
                Err(FormatError::InvalidDimensions)
            } else {
                Ok((rows, cols))
            }
        }
    }
}

pub fn preflight_dimensions(bytes: &[u8], meta: usize, format: Format, fields: usize, mappings: usize) -> (r: Result<(usize, usize), FormatError>)
    requires
        preflight_frame_of(bytes@) == Ok::<nat, FormatError>(meta as nat),
    ensures
        r matches Ok((rows, cols)) ==> preflight_dimensions_of(bytes@, meta as nat, format, fields as nat, mappings as nat)
            == Ok::<(nat, nat), FormatError>((rows as nat, cols as nat)),
        r matches Err(e) ==> preflight_dimensions_of(bytes@, meta as nat, format, fields as nat, mappings as nat)
            == Err::<(nat, nat), FormatError>(e),
{
    if !(1 <= fields && fields <= 64) {
        return Err(FormatError::SchemaFieldBound);
    }
    if mappings != fields {
        return Err(FormatError::MappingMismatch);
    }
    let end = bytes.len() - 4;
    let payload = &bytes[12 + meta..end];
    if payload.len() < 20 {
        return Err(FormatError::TruncatedPayload);
    }
    let book = match format {
        Format::AdaptiveBlockV3 => false,
        Format::BookBlockV4 => true,
        Format::NativeSegmentV1 => {
            return Err(FormatError::NotABlock);
        },
    };
    let magic: [u8; 8] = if book { [71u8, 81, 79, 66, 79, 79, 75, 49] } else { [71u8, 81, 79, 65, 68, 80, 48, 50] };
    assert(magic@ =~= payload_magic(book));
    if !equals_at(payload, 0, magic) || (!book && payload[9] != 0) {
        return Err(FormatError::UnknownPayload);
    }
    let (rows, cols) = if book {
        (read_u32(payload, 8) as usize, read_u32(payload, 12) as usize)
    } else {
        (read_u32(payload, 12) as usize, read_u16(payload, 10) as usize)
    };
    if !(rows <= MAX_ROWS && 1 <= cols && cols <= 64) {
        return Err(FormatError::InvalidDimensions);
    }
    Ok((rows, cols))
}

/// A native block's preflight before it is decoded: its framing, then from its schema metadata
/// an Arrow schema of 1 to 64 fields and a column mapping for each, then the payload's
/// dimensions, then the worst case of decoding against 128 MiB, with the dictionaries of the
/// large-string fields counted.
pub open spec fn preflight_of(bytes: Seq<u8>, format: Format) -> Result<(), BoundError> {
    match preflight_frame_of(bytes) {
        Err(e) => Err(BoundError::Format(e)),
        Ok(meta) => match block_layout_of(bytes.subrange(12, 12 + meta as int)) {
            None => Err(BoundError::UnreadableMetadata),
            Some(layout) => match layout.0 {
                None => Err(BoundError::InvalidSchema),
                Some(strings) => if !(1 <= strings.len() <= 64) {
                    Err(BoundError::Format(FormatError::SchemaFieldBound))
                } else {
                    match layout.1 {
                        None => Err(BoundError::MissingColumnMapping),
                        Some(dicts) => match preflight_dimensions_of(bytes, meta, format, strings.len(), dicts.len()) {
                            Err(e) => Err(BoundError::Format(e)),
                            Ok((rows, cols)) => expansion_of(
                                rows,
                                cols,
                                strings.len(),
                                strings,
                                dicts,
                                MAX_DECODED_BYTES as nat,
                            ),
                        },
                    }
                },
            },
        },
    }
}

/// Checks a native block's framing, schema metadata, dimensions and worst-case expansion before
/// it is decoded.
pub fn preflight(bytes: &[u8], format: Format) -> (r: Result<(), BoundError>)
    ensures
        r == preflight_of(bytes@, format),
{
    let meta = match preflight_frame(bytes) {
        Ok(m) => m,
        Err(e) => {
            return Err(BoundError::Format(e));
        },
    };
    let layout = match block_layout(&bytes[12..12 + meta]) {
        Some(l) => l,
        None => {
            return Err(BoundError::UnreadableMetadata);
        },
    };
    let strings = match layout.strings {
        Some(s) => s,
        None => {
            return Err(BoundError::InvalidSchema);
        },
    };
    if !(1 <= strings.len() && strings.len() <= 64) {
        return Err(BoundError::Format(FormatError::SchemaFieldBound));
    }
    let dicts = match layout.columns {
        Some(d) => d,
        None => {
            return Err(BoundError::MissingColumnMapping);
        },
    };
    let (rows, cols) = match preflight_dimensions(bytes, meta, format, strings.len(), dicts.len()) {
        Ok(d) => d,
        Err(e) => {
            return Err(BoundError::Format(e));
        },
    };
    layout_expansion(rows, cols, strings.len(), &strings, &dicts, MAX_DECODED_BYTES)
}

} // verus!
