//! The calls into outside crates, each with the contract that the library relies on.
use bitpacking::{BitPacker, BitPacker4x};
use sha2::Digest;
use arrow_array::{Array, Int64Array};
use arrow_schema::DataType;
use parquet::arrow::arrow_reader::ParquetRecordBatchReaderBuilder;
use crate::parquet_file::{ParquetBatches, ParquetHeader};
use crate::limits::BlockLayout;
use vstd::prelude::*;

verus! {

/// The CRC-32 (IEEE) checksum that `crc32fast::hash` computes over `data`.
pub uninterp spec fn crc32_of(data: Seq<u8>) -> u32;

/// Calls `crc32fast::hash`: the CRC-32 of the bytes, a function of the bytes alone.
#[verifier::external_body]
pub(crate) fn crc32(data: &[u8]) -> (r: u32)
    ensures
        r == crc32_of(data@),
{
    crc32fast::hash(data)
}

/// The LZ4 block that `lz4_flex::block::compress` produces for `data`.
pub uninterp spec fn lz4_compressed(data: Seq<u8>) -> Seq<u8>;

/// What an LZ4 block decodes to, or `None` for a malformed block
/// (`lz4_flex::block::decompress_into` with room enough for the output).
pub uninterp spec fn lz4_decoded(block: Seq<u8>) -> Option<Seq<u8>>;

#[verifier::external_type_specification]
#[verifier::external_body]
pub struct ExDecompressError(lz4_flex::block::DecompressError);

/// Calls `lz4_flex::block::compress`. Claims that the block is a function of the input
/// and that it decodes back to the input (the crate's documented block roundtrip).
#[verifier::external_body]
pub(crate) fn lz4_compress(data: &[u8]) -> (r: Vec<u8>)
    ensures
        r@ == lz4_compressed(data@),
        lz4_decoded(r@) == Some(data@),
{
    lz4_flex::block::compress(data)
}

/// Calls `lz4_flex::block::decompress_into` on the whole of `output`. Claims: the length
/// of `output` is kept; success means the block decodes to the returned number of bytes,
/// now at the front of `output`; a block that decodes to at most `output.len()` bytes succeeds.
/// What the call leaves in `output` after the decoded bytes, or after a failure, is not stated.
#[verifier::external_body]
pub(crate) fn lz4_decompress_into(input: &[u8], output: &mut Vec<u8>) -> (r: Result<
    usize,
    lz4_flex::block::DecompressError,
>)
    ensures
        final(output)@.len() == old(output)@.len(),
        r matches Ok(n) ==> lz4_decoded(input@) matches Some(d) && n == d.len() && n
            <= old(output)@.len() && final(output)@.subrange(0, n as int) == d,
        lz4_decoded(input@) matches Some(d) && d.len() <= old(output)@.len() ==> r is Ok,
{
    lz4_flex::block::decompress_into(input, output.as_mut_slice())
}

/// The number of bits needed for `v`: zero for zero, else one more than the top bit's index.
pub open spec fn bit_width(v: nat) -> nat
    decreases v,
{
    if v == 0 {
        0
    } else {
        1 + bit_width(v / 2)
    }
}

/// The largest of the first `n` values (zero when `n` is zero).
pub open spec fn max_prefix(values: Seq<u32>, n: int) -> nat
    decreases n,
{
    if n <= 0 {
        0
    } else {
        let m = max_prefix(values, n - 1);
        if values[n - 1] > m {
            values[n - 1] as nat
        } else {
            m
        }
    }
}

/// The 16 * `bits` bytes that `BitPacker4x::compress` makes of 128 values below 2^`bits`.
pub uninterp spec fn bitpacked(values: Seq<u32>, bits: u8) -> Seq<u8>;

/// The 128 values that `BitPacker4x::decompress` reads from 16 * `bits` bytes.
pub uninterp spec fn bitunpacked(bytes: Seq<u8>, bits: u8) -> Seq<u32>;

/// Calls `BitPacker4x::num_bits`: the number of bits of the largest value.
#[verifier::external_body]
pub(crate) fn bitpack_num_bits(values: &[u32; 128]) -> (r: u8)
    ensures
        r as nat == bit_width(max_prefix(values@, 128)),
{
    BitPacker4x::new().num_bits(values)
}

/// Calls `BitPacker4x::compress` into `out[start..]`, for 1 to 32 bits and values below
/// 2^`bits`. Claims: exactly 16 * `bits` bytes at `start` change, to a function of the values
/// and the width, and `BitPacker4x::decompress` gives the values back (the crate's roundtrip).
#[verifier::external_body]
pub(crate) fn bitpack_compress(values: &[u32; 128], out: &mut Vec<u8>, start: usize, bits: u8) -> (r: usize)
    requires
        1 <= bits <= 32,
        start + 16 * bits <= old(out)@.len(),
        bit_width(max_prefix(values@, 128)) <= bits,
    ensures
        r == 16 * bits,
        final(out)@.len() == old(out)@.len(),
        final(out)@ == old(out)@.subrange(0, start as int) + bitpacked(values@, bits)
            + old(out)@.subrange(start + 16 * bits, old(out)@.len() as int),
        bitunpacked(final(out)@.subrange(start as int, start + 16 * bits), bits) == values@,
{
    BitPacker4x::new().compress(values, &mut out[start..], bits)
}

/// Calls `BitPacker4x::decompress` on exactly 16 * `bits` bytes, for 1 to 32 bits.
#[verifier::external_body]
pub(crate) fn bitpack_decompress(input: &[u8], bits: u8) -> (r: [u32; 128])
    requires
        1 <= bits <= 32,
        input@.len() == 16 * bits,
    ensures
        r@ == bitunpacked(input@, bits),
{
    let mut values = [0u32; 128];
    BitPacker4x::new().decompress(input, &mut values, bits);
    values
}

/// The SHA-256 digest of `data`.
pub uninterp spec fn sha256_of(data: Seq<u8>) -> Seq<u8>;

/// Calls `sha2::Sha256::digest`: the 32-byte SHA-256 digest of the bytes.
#[verifier::external_body]
pub(crate) fn sha256(data: &[u8]) -> (r: Vec<u8>)
    ensures
        r@ == sha256_of(data@),
        r@.len() == 32,
{
    sha2::Sha256::digest(data).to_vec()
}

/// Calls `Vec::capacity`: how many bytes the vector can hold without reallocating, so at
/// least the bytes it holds. Beyond that the number depends on the allocator and is not
/// stated.
#[verifier::external_body]
pub(crate) fn vec_capacity(v: &Vec<u8>) -> (r: usize)
    ensures
        r >= v@.len(),
{
    v.capacity()
}

/// The characters of ASCII bytes.
pub open spec fn ascii_chars(bytes: Seq<u8>) -> Seq<char> {
    bytes.map_values(|b: u8| b as char)
}

/// Calls `String::from_utf8` on ASCII bytes, which are valid UTF-8 with one char per byte.
#[verifier::external_body]
pub(crate) fn ascii_string(bytes: Vec<u8>) -> (r: String)
    requires
        forall|i: int| 0 <= i < bytes@.len() ==> bytes@[i] < 128,
    ensures
        r@ == ascii_chars(bytes@),
{
    match String::from_utf8(bytes) {
        Ok(s) => s,
        Err(_) => String::new(),
    }
}

#[verifier::external_type_specification]
#[verifier::external_body]
pub struct ExParquetError(parquet::errors::ParquetError);

/// What the parquet crate reads from a Parquet file's footer: the value stored under `key` in
/// its Arrow schema's metadata, each field's name, whether its type is `Int64` and whether it
/// is nullable, and the file's row count; `None` where it cannot read the footer.
pub uninterp spec fn parquet_footer_of(file: Seq<u8>, key: Seq<char>) -> Option<
    (Option<Seq<char>>, Seq<(Seq<char>, bool, bool)>, i64),
>;

/// Whether the parquet crate can panic on some malformed file is not stated: its source does
/// not rule it out, so no `requires` leaves such files out, and a panic there is the crate's.
/// Opens `file` with `ParquetRecordBatchReaderBuilder::try_new` and reads its footer. Claims
/// only that what comes back, or whether it fails, is a function of the bytes and the key.
#[verifier::external_body]
pub(crate) fn parquet_footer(file: &[u8], key: &str) -> (r: Result<ParquetHeader, parquet::errors::ParquetError>)
    ensures
        r matches Ok(h) ==> parquet_footer_of(file@, key@) == Some(h@),
        r is Err ==> parquet_footer_of(file@, key@) is None,
{
    let builder = ParquetRecordBatchReaderBuilder::try_new(bytes::Bytes::copy_from_slice(file))?;
    let schema = builder.schema();
    Ok(ParquetHeader {
        schema_id: schema.metadata().get(key).cloned(),
        fields: schema.fields().iter().map(|f| (f.name().clone(), f.data_type() == &DataType::Int64, f.is_nullable())).collect(),
        rows: builder.metadata().file_metadata().num_rows(),
    })
}

/// What the parquet crate reads from a Parquet file in batches of `batch_rows` rows: each
/// batch's columns, each as its values where it is an `Int64Array` and its null count, up to
/// the first error; and whether an error ended the reading.
pub uninterp spec fn parquet_batches_of(file: Seq<u8>, batch_rows: usize) -> (
    Seq<Seq<(Option<Seq<i64>>, usize)>>,
    bool,
);

/// Whether the parquet crate can panic on some malformed file is not stated: its source does
/// not rule it out, so no `requires` leaves such files out, and a panic there is the crate's.
/// Reads every record batch of `file` with a `ParquetRecordBatchReader` built for batches of
/// `batch_rows` rows. Claims only that what comes back is a function of the bytes and the
/// batch size; which values a file holds is the parquet crate's to decide.
#[verifier::external_body]
pub(crate) fn parquet_batches(file: &[u8], batch_rows: usize) -> (r: ParquetBatches)
    ensures
        r@ == parquet_batches_of(file@, batch_rows),
{
    let mut batches = Vec::new();
    let built = ParquetRecordBatchReaderBuilder::try_new(bytes::Bytes::copy_from_slice(file))
        .and_then(|builder| builder.with_batch_size(batch_rows).build());
    let reader = match built {
        Ok(reader) => reader,
        Err(e) => return ParquetBatches { batches, failed: Some(e) },
    };
    for batch in reader {
        match batch {
            Ok(b) => batches.push(b.columns().iter().map(|a| (a.as_any().downcast_ref::<Int64Array>().map(|a| a.values().to_vec()), a.null_count())).collect()),
            Err(e) => return ParquetBatches { batches, failed: Some(e.into()) },
        }
    }
    ParquetBatches { batches, failed: None }
}

/// The compressed size of every column chunk of every row group that the parquet crate reads
/// from a Parquet file's footer, in order; `None` where it cannot read the footer.
pub uninterp spec fn parquet_chunk_sizes_of(file: Seq<u8>) -> Option<Seq<i64>>;

/// Whether the parquet crate can panic on some malformed file is not stated: its source does
/// not rule it out, so no `requires` leaves such files out, and a panic there is the crate's.
/// Opens `file` with `ParquetRecordBatchReaderBuilder::try_new` and lists the compressed size
/// of each column chunk. Claims only that the result is a function of the bytes.
#[verifier::external_body]
pub(crate) fn parquet_chunk_sizes(file: &[u8]) -> (r: Result<Vec<i64>, parquet::errors::ParquetError>)
    ensures
        r matches Ok(v) ==> parquet_chunk_sizes_of(file@) == Some(v@),
        r is Err ==> parquet_chunk_sizes_of(file@) is None,
{
    let builder = ParquetRecordBatchReaderBuilder::try_new(bytes::Bytes::copy_from_slice(file))?;
    Ok(builder.metadata().row_groups().iter().flat_map(|r| r.columns()).map(|c| c.compressed_size()).collect())
}

/// What `serde_json` reads from a block's schema metadata: which fields of its Arrow schema
/// (under "schema") are `LargeUtf8`, and the byte length of each dictionary entry of each
/// column mapping (under "columns", each under "dictionary"); `None` where it is not JSON.
pub uninterp spec fn block_layout_of(meta: Seq<u8>) -> Option<(Option<Seq<bool>>, Option<Seq<Option<Seq<Option<usize>>>>>)>;

/// Parses a block's schema metadata with `serde_json` (the schema as an `arrow_schema::Schema`)
/// and keeps what bounds its decoding. Claims only that the result is a function of the bytes.
#[verifier::external_body]
pub(crate) fn block_layout(meta: &[u8]) -> (r: Option<BlockLayout>)
    ensures
        r matches Some(l) ==> block_layout_of(meta@) == Some(l@),
        r is None ==> block_layout_of(meta@) is None,
{
    let layout: serde_json::Value = serde_json::from_slice(meta).ok()?;
    let schema = layout.get("schema").and_then(|s| serde_json::from_value::<arrow_schema::Schema>(s.clone()).ok());
    let strings = schema.map(|s| s.fields().iter().map(|f| f.data_type() == &DataType::LargeUtf8).collect());
    let columns = layout["columns"].as_array().map(|cs| {
        cs.iter().map(|c| c["dictionary"].as_array().map(|d| d.iter().map(|e| e.as_str().map(str::len)).collect())).collect()
    });
    Some(BlockLayout { strings, columns })
}

} // verus!
