//! Why a block, fixture or frame was refused.
use vstd::prelude::*;

verus! {

#[derive(Debug, Clone, Copy, PartialEq, Eq, Structural)]
pub enum FormatError {
    /// The fixed schema requires eight columns.
    WrongColumnCount,
    /// More rows than a block may hold.
    TooManyRows,
    /// Columns of different lengths.
    RaggedColumns,
    /// A schema id other than quote, trade or L2.
    UnknownSchema,
    /// A raw column whose length is not eight bytes per row.
    InvalidRawLength,
    /// Bytes stored for a column without rows.
    NonemptyZeroRowColumn,
    /// A delta column shorter than its first value.
    MissingFirstValue,
    /// A varint cut off by the end of the column.
    TruncatedVarint,
    /// A tenth varint byte above one.
    VarintOverflow,
    /// A varint still continuing after ten bytes.
    UnterminatedVarint,
    /// A packed group without its width byte.
    MissingBitWidth,
    /// A packed width above 64 bits.
    InvalidBitWidth,
    /// A packed group cut off by the end of the column.
    TruncatedPackedGroup,
    /// Nonzero bits after the last packed value of a group.
    NoncanonicalPadding,
    /// Bytes after the last value of a column.
    TrailingBytes,
    /// A block shorter than its header and checksum, or longer than the block limit.
    InvalidBlockSize,
    /// A block that does not start with the expected magic and version.
    BadMagic,
    /// A block whose checksum does not match its contents.
    ChecksumMismatch,
    /// A layout id other than raw, varint or bitpack.
    UnknownLayout,
    /// Column or row counts outside the schema's bounds.
    InvalidDimensions,
    /// A directory that runs past the checksum.
    TruncatedDirectory,
    /// A column that claims to expand past its worst case.
    ExpandedTooLarge,
    /// A compressed column that runs past the checksum.
    TruncatedColumn,
    /// A compressed column that does not decode within its stated size.
    Decompression,
    /// A decompressed column of another size than stated.
    SizeMismatch,
    /// Bytes between the last column and the checksum.
    TrailingBlockBytes,
    /// A packed column scaled by zero.
    ZeroScale,
    /// A packed group without its width byte.
    MissingPackedWidth,
    /// A group of full 64-bit quotients cut off by the end of the column.
    TruncatedWideGroup,
    /// A SIMD group width above 32 bits.
    InvalidSimdWidth,
    /// A SIMD group cut off by the end of the column.
    TruncatedSimdGroup,
    /// Nonzero values in the unused slots of a SIMD group.
    NonzeroGroupPadding,
    /// Bytes after the last group of a packed column.
    TrailingPackedBytes,
    /// A column count outside one to sixty-four.
    InvalidColumns,
    /// Too many rows, or columns of different lengths.
    InvalidRows,
    /// A column index out of range, or one already decoded.
    InvalidColumn,
    /// A predictor id other than absolute, delta, linear or reference.
    UnknownPredictor,
    /// A reference to a column out of range or not yet decoded.
    InvalidReference,
    /// A reference byte on a column that does not predict from another.
    UnexpectedReference,
    /// A compressed column in a block written without compression.
    InvalidCompressionFlag,
    /// Column lengths past their bound or past the checksum.
    InvalidColumnLengths,
    /// A column whose packed length differs from its stated length.
    ExpandedLengthMismatch,
    /// A delta column that does not start at its origin.
    InvalidInitialDelta,
    /// A column entry cut off by the end of the block.
    TruncatedEntry,
    /// Run, width, compression or reserved flags out of range.
    InvalidFlags,
    /// A zero scale, or more stored values than rows.
    InvalidCountScale,
    /// A value count that does not fit the run flag and the rows.
    InvalidRunCount,
    /// A stored column that runs past the checksum.
    TruncatedPayload,
    /// A zero run, or runs past the rows.
    InvalidRunLength,
    /// A decoded column with another number of rows than the block.
    RowCountMismatch,
    /// An encoding that would exceed the block limit.
    EncodedTooLarge,
    /// Schema metadata that runs past the checksum.
    InvalidSchemaLength,
    /// A tick payload that does not carry the real-data schema byte.
    WrongKind,
    /// Text that is not digits with at most eight decimals.
    InvalidDecimal,
    /// A decimal too large for a scaled 64-bit integer.
    DecimalOverflow,
    /// A worker count outside one to sixty-four.
    InvalidWorkers,
    /// A segment codec other than the native tick or book codec.
    UnsupportedCodec,
    /// Frame metadata or payload above its limit.
    FrameTooLarge,
    /// A frame offset past the end of the file.
    FramePastEnd,
    /// A frame head whose checksum does not match.
    FrameHeadChecksum,
    /// Frame metadata and payload whose checksum does not match.
    FrameBodyChecksum,
    /// A segment too short to hold its footer.
    MissingFooter,
    /// A footer without its magic or whose checksum does not match.
    InvalidFooter,
    /// An index offset outside the segment's frames.
    InvalidIndexOffset,
    /// A block without rows.
    EmptyBlock,
    /// More indexed blocks than a segment may hold.
    TooManyBlocks,
    /// Indexed blocks that do not follow each other or leave the frames.
    NoncontiguousIndex,
    /// Index statistics that cannot describe a block.
    InvalidIndexStats,
    /// An index that does not reach the index frame.
    IndexOmitsBlocks,
    /// A query whose range ends before it starts.
    ReversedRange,
    /// A block too short for its framing, or rows beyond the caller's budget.
    BoundedLength,
    /// A block whose magics differ from the segment's codec.
    CodecMismatch,
    /// A worst case of decoding that does not fit a machine word.
    ExpansionOverflow,
    /// A worst case of decoding above the allowed bytes.
    ExpansionLimit,
    /// More column mappings than columns may exist.
    MappingLimit,
    /// A family name other than tick or orderbook.
    UnknownFamily,
    /// A file shorter than its magic.
    TruncatedMagic,
    /// A magic of no native codec or version.
    UnknownFormat,
    /// A schema without fields or with more than sixty-four.
    SchemaFieldBound,
    /// Column mappings that do not match the schema's fields one to one.
    MappingMismatch,
    /// A segment where a block was expected.
    NotABlock,
    /// A payload of an unknown codec version or schema.
    UnknownPayload,
    /// A field name that is empty, longer than 128 bytes or repeated.
    InvalidFieldName,
    /// Schema metadata naming no family, or another one.
    FamilyMismatch,
    /// A normalized schema version other than one.
    UnknownSchemaVersion,
    /// Schema metadata without the source's SHA-256.
    MissingSourceSha,
    /// A source SHA-256 that is not 64 lower-case hex digits, or all zeros.
    InvalidSourceSha,
    /// Schema metadata without a decimal scale.
    MissingScale,
    /// A decimal scale that is not a byte-sized integer.
    InvalidScale,
    /// A decimal scale above twelve.
    ScaleTooLarge,
    /// A schema without a required field.
    MissingField,
    /// A required field of another type, or nullable where it may not be.
    WrongFieldType,
    /// A tick schema whose subtype is neither trade nor quote.
    InvalidSubtype,
    /// An order-book schema without its source depth.
    MissingDepth,
    /// A source depth that is not an integer from one to 100000.
    InvalidDepth,
    /// Parquet schema metadata without a schema id.
    MissingSchemaId,
    /// A Parquet schema id that is not a `u8`.
    InvalidSchemaId,
    /// Parquet fields other than the schema's names, or not non-null 64-bit integers.
    InvalidParquetSchema,
    /// A Parquet row count below zero or above the row limit.
    InvalidRowCount,
    /// A Parquet column that is not read as 64-bit integers.
    InvalidIntegerArray,
    /// Null values in a Parquet column.
    UnexpectedNulls,
}

} // verus!
