//! The checks that a Parquet file of the fixed schema must pass, on plain values read from it:
//! its schema metadata and fields before any column is read, then its columns.
use crate::data::{columns_error, kind_names, kind_of_id, rows_of, Columns, Kind, MAX_ROWS};
use crate::codec::ParquetMode;
use crate::error::FormatError;
use crate::real_block::{checked_envelope, envelope_end};
use crate::wrappers::{parquet_batches, parquet_batches_of, parquet_chunk_sizes, parquet_chunk_sizes_of, parquet_footer, parquet_footer_of};
use crate::schema::{parse_unsigned, unsigned_of};
use vstd::prelude::*;

verus! {

/// What a Parquet file's footer says: the schema id stored in its schema's metadata, if any,
/// each field's name, whether it is a 64-bit integer and whether it is nullable, and the row
/// count.
#[derive(Clone, Debug)]
pub struct ParquetHeader {
    pub schema_id: Option<String>,
    pub fields: Vec<(String, bool, bool)>,
    pub rows: i64,
}

/// The fields with their names as text.
pub open spec fn fields_view(f: Seq<(String, bool, bool)>) -> Seq<(Seq<char>, bool, bool)> {
    Seq::new(f.len(), |i: int| (f[i].0@, f[i].1, f[i].2))
}

impl View for ParquetHeader {
    type V = (Option<Seq<char>>, Seq<(Seq<char>, bool, bool)>, i64);

    open spec fn view(&self) -> Self::V {
        (
            match self.schema_id {
                Some(t) => Some(t@),
                None => None,
            },
            fields_view(self.fields@),
            self.rows,
        )
    }
}

/// Whether field `i` is the schema's `i`-th column: its name, a non-null 64-bit integer.
pub open spec fn field_fits(fields: Seq<(Seq<char>, bool, bool)>, kind: Kind, i: int) -> bool {
    fields[i].0 == kind_names(kind)[i] && fields[i].1 && !fields[i].2
}

/// The schema of a Parquet file, or the first check that its footer fails: a schema id that
/// names a kind, eight fields that are that kind's columns, and 0 to `MAX_ROWS` rows.
pub open spec fn parquet_kind_of(schema_id: Option<Seq<char>>, fields: Seq<(Seq<char>, bool, bool)>, rows: i64) -> Result<Kind, FormatError> {
    match schema_id {
        None => Err(FormatError::MissingSchemaId),
        Some(v) => match unsigned_of(v) {
            None => Err(FormatError::InvalidSchemaId),
            Some(id) => if id > 255 {
                Err(FormatError::InvalidSchemaId)
            } else {
                match kind_of_id(id as u8) {
                    None => Err(FormatError::UnknownSchema),
                    Some(kind) => if fields.len() != 8 {
                        Err(FormatError::WrongColumnCount)
                    } else if exists|i: int| 0 <= i < 8 && !#[trigger] field_fits(fields, kind, i) {
                        Err(FormatError::InvalidParquetSchema)
                    } else if rows < 0 || rows > MAX_ROWS {
                        Err(FormatError::InvalidRowCount)
                    } else {
                        Ok(kind)
                    },
                }
            },
        },
    }
}

/// Checks a Parquet footer before its columns are read; returns the kind it names.
#[verifier::loop_isolation(false)]
pub fn parquet_kind(header: &ParquetHeader) -> (r: Result<Kind, FormatError>)
    ensures
        r == parquet_kind_of(header@.0, header@.1, header@.2),
{
    let id = match &header.schema_id {
        None => {
            return Err(FormatError::MissingSchemaId);
        },
        Some(v) => match parse_unsigned(v.as_str()) {
            None => {
                return Err(FormatError::InvalidSchemaId);
            },
            Some(n) => n,
        },
    };
    if id > 255 {
        return Err(FormatError::InvalidSchemaId);
    }
    let kind = match Kind::from_id(id as u8) {
        Ok(k) => k,
        Err(e) => {
            return Err(e);
        },
    };
    let fields = &header.fields;
    if fields.len() != 8 {
        return Err(FormatError::WrongColumnCount);
    }
    let names = kind.names();
    let mut i: usize = 0;
    while i < 8
        invariant
            i <= 8 == fields@.len(),
            names@.map_values(|s: &str| s@) == kind_names(kind),
            forall|j: int| 0 <= j < i ==> #[trigger] field_fits(fields_view(fields@), kind, j),
        decreases 8 - i,
    {
        let (name, integer, nullable) = (&fields[i].0, fields[i].1, fields[i].2);
        assert(names@.map_values(|s: &str| s@)[i as int] == names@[i as int]@);
        if !crate::text::text_equal(name.as_str(), names[i]) || !integer || nullable {
            assert(!field_fits(fields_view(fields@), kind, i as int));
            return Err(FormatError::InvalidParquetSchema);
        }
        i = i + 1;
    }
    if header.rows < 0 || header.rows > MAX_ROWS as i64 {
        return Err(FormatError::InvalidRowCount);
    }
    Ok(kind)
}

/// The batches that the parquet crate read from a file, in order: for each batch, each
/// column's values where the reader gave 64-bit integers, and its null count; then the error
/// that ended the reading early, if one did.
#[derive(Debug)]
pub struct ParquetBatches {
    pub batches: Vec<Vec<(Option<Vec<i64>>, usize)>>,
    pub failed: Option<parquet::errors::ParquetError>,
}

pub open spec fn array_view(a: (Option<Vec<i64>>, usize)) -> (Option<Seq<i64>>, usize) {
    (
        match a.0 {
            Some(v) => Some(v@),
            None => None,
        },
        a.1,
    )
}

pub open spec fn batch_view(b: Seq<(Option<Vec<i64>>, usize)>) -> Seq<(Option<Seq<i64>>, usize)> {
    Seq::new(b.len(), |j: int| array_view(b[j]))
}

impl View for ParquetBatches {
    type V = (Seq<Seq<(Option<Seq<i64>>, usize)>>, bool);

    open spec fn view(&self) -> Self::V {
        (Seq::new(self.batches@.len(), |i: int| batch_view(self.batches@[i]@)), self.failed is Some)
    }
}

/// Why a Parquet file was not read into columns.
#[derive(Debug, Clone, Copy, PartialEq, Eq, Structural)]
pub enum ParquetReadError {
    /// The parquet crate could not read the file.
    Unreadable,
    /// The file was read, and what it holds fails a check.
    Invalid(FormatError),
}

/// Eight empty columns.
pub open spec fn empty_columns() -> Seq<Seq<i64>> {
    Seq::new(8, |i: int| Seq::<i64>::empty())
}

/// Appends one batch's columns to `acc`, from column `c` on (at most as many columns as `acc`
/// has): the first column that was not read as 64-bit integers, or that has nulls, refuses it.
pub open spec fn batch_read(batch: Seq<(Option<Seq<i64>>, usize)>, acc: Seq<Seq<i64>>, c: int) -> Result<Seq<Seq<i64>>, FormatError>
    decreases batch.len() - c,
{
    if c < 0 || c >= batch.len() || c >= acc.len() {
        Ok(acc)
    } else {
        match batch[c].0 {
            None => Err(FormatError::InvalidIntegerArray),
            Some(v) => if batch[c].1 > 0 {
                Err(FormatError::UnexpectedNulls)
            } else {
                batch_read(batch, acc.update(c, acc[c] + v), c + 1)
            },
        }
    }
}

/// Appends the batches from `i` on to `acc`, one after the other.
pub open spec fn batches_read(batches: Seq<Seq<(Option<Seq<i64>>, usize)>>, acc: Seq<Seq<i64>>, i: int) -> Result<Seq<Seq<i64>>, FormatError>
    decreases batches.len() - i,
{
    if i < 0 || i >= batches.len() {
        Ok(acc)
    } else {
        match batch_read(batches[i], acc, 0) {
            Err(e) => Err(e),
            Ok(next) => batches_read(batches, next, i + 1),
        }
    }
}

/// The columns of a Parquet file whose footer passed and said `rows` rows, given what was
/// read from it: the first batch check that fails, then a read that ended early, then the
/// fixed schema's checks on the columns, then the row count.
pub open spec fn parquet_assembled(rows: i64, read: (Seq<Seq<(Option<Seq<i64>>, usize)>>, bool)) -> Result<Seq<Seq<i64>>, ParquetReadError> {
    match batches_read(read.0, empty_columns(), 0) {
        Err(e) => Err(ParquetReadError::Invalid(e)),
        Ok(cols) => if read.1 {
            Err(ParquetReadError::Unreadable)
        } else if columns_error(cols) is Some {
            Err(ParquetReadError::Invalid(columns_error(cols).unwrap()))
        } else if rows_of(cols) != rows {
            Err(ParquetReadError::Invalid(FormatError::RowCountMismatch))
        } else {
            Ok(cols)
        },
    }
}

/// Gathers the batches read from a Parquet file whose footer named `kind` and `rows` into
/// its columns, and checks them.
pub fn parquet_assemble(kind: Kind, rows: i64, read: ParquetBatches) -> (r: Result<Columns, ParquetReadError>)
    ensures
        r matches Ok(c) ==> c.kind == kind && parquet_assembled(rows, read@) == Ok::<
            Seq<Seq<i64>>,
            ParquetReadError,
        >(c.cols()),
        r matches Err(e) ==> parquet_assembled(rows, read@) == Err::<Seq<Seq<i64>>, ParquetReadError>(e),
{
    let ghost bs = read@.0;
    let failed = read.failed.is_some();
    let mut batches = read.batches;
    let mut values: Vec<Vec<i64>> = vec![Vec::new(), Vec::new(), Vec::new(), Vec::new(), Vec::new(), Vec::new(), Vec::new(), Vec::new()];
    assert(values@.map_values(|v: Vec<i64>| v@) =~= empty_columns());
    let mut i: usize = 0;
    while i < batches.len()
        invariant
            i <= batches@.len() == bs.len(),
            bs == read@.0,
            forall|k: int| i <= k < bs.len() ==> #[trigger] batch_view(batches@[k]@) == bs[k],
            values@.len() == 8,
            batches_read(bs, empty_columns(), 0) == batches_read(bs, values@.map_values(|v: Vec<i64>| v@), i as int),
        decreases batches@.len() - i,
    {
        let mut batch: Vec<(Option<Vec<i64>>, usize)> = Vec::new();
        batches.set_and_swap(i, &mut batch);
        let ghost bv = bs[i as int];
        let ghost start = values@.map_values(|v: Vec<i64>| v@);
        assert(batch_view(batch@) == bv);
        let mut c: usize = 0;
        while c < batch.len() && c < 8
            invariant
                c <= batch@.len() == bv.len(),
                c <= 8,
                forall|k: int| c <= k < bv.len() ==> #[trigger] array_view(batch@[k]) == bv[k],
                values@.len() == 8,
                batch_read(bv, start, 0) == batch_read(bv, values@.map_values(|v: Vec<i64>| v@), c as int),
                i < bs.len(),
                bs == read@.0,
                bv == bs[i as int],
                batches@.len() == bs.len(),
                forall|k: int| i < k < bs.len() ==> #[trigger] batch_view(batches@[k]@) == bs[k],
                batches_read(bs, empty_columns(), 0) == batches_read(bs, start, i as int),
            decreases batch@.len() - c,
        {
            assert(array_view(batch@[c as int]) == bv[c as int]);
            let mut entry: (Option<Vec<i64>>, usize) = (None, 0);
            batch.set_and_swap(c, &mut entry);
            let (read_values, nulls) = entry;
            match read_values {
                None => {
                    return Err(ParquetReadError::Invalid(FormatError::InvalidIntegerArray));
                },
                Some(mut v) => {
                    if nulls > 0 {
                        return Err(ParquetReadError::Invalid(FormatError::UnexpectedNulls));
                    }
                    let ghost before = values@.map_values(|v: Vec<i64>| v@);
                    let mut col: Vec<i64> = Vec::new();
                    values.set_and_swap(c, &mut col);
                    col.append(&mut v);
                    values.set(c, col);
                    assert(values@.map_values(|v: Vec<i64>| v@) =~= before.update(
                        c as int,
                        before[c as int] + bv[c as int].0.unwrap(),
                    ));
                },
            }
            c = c + 1;
        }
        i = i + 1;
    }
    if failed {
        return Err(ParquetReadError::Unreadable);
    }
    let data = Columns { kind, values };
    assert(data.cols() == values@.map_values(|v: Vec<i64>| v@));
    match data.validate() {
        Err(e) => {
            return Err(ParquetReadError::Invalid(e));
        },
        Ok(()) => {},
    }
    if data.rows() as i64 != rows {
        return Err(ParquetReadError::Invalid(FormatError::RowCountMismatch));
    }
    Ok(data)
}

/// The sum of the sizes.
pub open spec fn sizes_sum(sizes: Seq<i64>) -> int
    decreases sizes.len(),
{
    if sizes.len() == 0 {
        0
    } else {
        sizes_sum(sizes.drop_last()) + sizes.last()
    }
}

/// Every running total of the sizes fits an `i64`, as summing them in turn requires.
pub open spec fn sums_fit(sizes: Seq<i64>) -> bool {
    forall|k: int| 0 <= k <= sizes.len() ==> i64::MIN <= #[trigger] sizes_sum(sizes.take(k)) <= i64::MAX
}

/// The bytes of a Parquet file outside its column chunks (footer, indexes and the checksum),
/// given the enveloped length and the compressed size of every column chunk; refused where
/// the sizes are negative in sum or exceed the length.
pub fn parquet_framing(total: usize, sizes: &Vec<i64>) -> (r: Result<usize, FormatError>)
    requires
        sums_fit(sizes@),
    ensures
        0 <= sizes_sum(sizes@) <= total ==> r == Ok::<usize, FormatError>((total - sizes_sum(sizes@)) as usize),
        !(0 <= sizes_sum(sizes@) <= total) ==> r == Err::<usize, FormatError>(FormatError::InvalidColumnLengths),
{
    let mut sum: i64 = 0;
    let mut i: usize = 0;
    while i < sizes.len()
        invariant
            i <= sizes@.len(),
            sums_fit(sizes@),
            sum == sizes_sum(sizes@.take(i as int)),
        decreases sizes@.len() - i,
    {
        assert(sizes@.take(i + 1).drop_last() =~= sizes@.take(i as int));
        assert(i64::MIN <= sizes_sum(sizes@.take(i + 1)) <= i64::MAX);
        sum = sum + sizes[i];
        i = i + 1;
    }
    assert(sizes@.take(sizes@.len() as int) =~= sizes@);
    if sum < 0 || sum as u64 > total as u64 {
        return Err(FormatError::InvalidColumnLengths);
    }
    Ok(total - sum as usize)
}

/// The footer check, then the gathering of the columns, on what the parquet crate reads from
/// `file`: batches of the footer's row count (one row at least).
pub open spec fn parquet_decode_of(file: Seq<u8>) -> Result<(Kind, Seq<Seq<i64>>), ParquetReadError> {
    match parquet_footer_of(file, "gqodb.schema_id"@) {
        None => Err(ParquetReadError::Unreadable),
        Some(h) => match parquet_kind_of(h.0, h.1, h.2) {
            Err(e) => Err(ParquetReadError::Invalid(e)),
            Ok(kind) => match parquet_assembled(h.2, parquet_batches_of(file, batch_rows_for(h.2))) {
                Err(e) => Err(e),
                Ok(cols) => Ok((kind, cols)),
            },
        },
    }
}

pub open spec fn batch_rows_for(rows: i64) -> usize {
    if rows > 0 {
        rows as usize
    } else {
        1
    }
}

/// Reads the columns of a Parquet file of the fixed schema (`file` is the file without its
/// checksum envelope): the footer is checked before any column is read, then the columns.
pub fn parquet_decode(file: &[u8]) -> (r: Result<Columns, ParquetReadError>)
    ensures
        r matches Ok(c) ==> parquet_decode_of(file@) == Ok::<(Kind, Seq<Seq<i64>>), ParquetReadError>(
            (c.kind, c.cols()),
        ),
        r matches Err(e) ==> parquet_decode_of(file@) == Err::<(Kind, Seq<Seq<i64>>), ParquetReadError>(e),
{
    let header = match parquet_footer(file, "gqodb.schema_id") {
        Ok(h) => h,
        Err(_) => {
            return Err(ParquetReadError::Unreadable);
        },
    };
    let kind = match parquet_kind(&header) {
        Ok(k) => k,
        Err(e) => {
            return Err(ParquetReadError::Invalid(e));
        },
    };
    let rows = header.rows;
    let batch_rows: usize = if rows > 0 {
        rows as usize
    } else {
        1
    };
    parquet_assemble(kind, rows, parquet_batches(file, batch_rows))
}

/// Whether every running total of the sizes fits an `i64`.
fn running_sums_fit(sizes: &Vec<i64>) -> (r: bool)
    ensures
        r == sums_fit(sizes@),
{
    let mut sum: i64 = 0;
    let mut i: usize = 0;
    assert(sizes_sum(sizes@.take(0)) == 0);
    while i < sizes.len()
        invariant
            i <= sizes@.len(),
            sum == sizes_sum(sizes@.take(i as int)),
            forall|k: int| 0 <= k <= i ==> i64::MIN <= #[trigger] sizes_sum(sizes@.take(k)) <= i64::MAX,
        decreases sizes@.len() - i,
    {
        assert(sizes@.take(i + 1).drop_last() =~= sizes@.take(i as int));
        match sum.checked_add(sizes[i]) {
            Some(t) => {
                sum = t;
            },
            None => {
                assert(!(i64::MIN <= sizes_sum(sizes@.take(i + 1)) <= i64::MAX));
                return false;
            },
        }
        i = i + 1;
    }
    true
}

/// The bytes of an enveloped Parquet file outside its column chunks, given what the parquet
/// crate reads of the chunk sizes from the file without its checksum; sizes whose running
/// total leaves `i64` are refused as invalid column lengths.
pub open spec fn parquet_framing_of(input: Seq<u8>) -> Result<usize, ParquetReadError> {
    match envelope_end(input) {
        Err(e) => Err(ParquetReadError::Invalid(e)),
        Ok(end) => match parquet_chunk_sizes_of(input.subrange(0, end as int)) {
            None => Err(ParquetReadError::Unreadable),
            Some(sizes) => if sums_fit(sizes) && 0 <= sizes_sum(sizes) <= input.len() {
                Ok((input.len() - sizes_sum(sizes)) as usize)
            } else {
                Err(ParquetReadError::Invalid(FormatError::InvalidColumnLengths))
            },
        },
    }
}

/// Bytes of an enveloped Parquet file outside its column chunks: footer, indexes and the
/// checksum.
pub fn parquet_framing_bytes(input: &[u8]) -> (r: Result<usize, ParquetReadError>)
    ensures
        r == parquet_framing_of(input@),
{
    let end = match checked_envelope(input) {
        Ok(end) => end,
        Err(e) => {
            return Err(ParquetReadError::Invalid(e));
        },
    };
    let sizes = match parquet_chunk_sizes(&input[0..end]) {
        Ok(sizes) => sizes,
        Err(_) => {
            return Err(ParquetReadError::Unreadable);
        },
    };
    if !running_sums_fit(&sizes) {
        return Err(ParquetReadError::Invalid(FormatError::InvalidColumnLengths));
    }
    match parquet_framing(input.len(), &sizes) {
        Ok(n) => Ok(n),
        Err(e) => Err(ParquetReadError::Invalid(e)),
    }
}

/// The compression codec of a Parquet file's pages.
#[derive(Clone, Copy, Debug, PartialEq, Eq, Structural)]
pub enum ParquetCompression {
    Lz4Raw,
    Snappy,
    Brotli,
}

/// What the writer of a Parquet file of the fixed schema is set to: page compression (and
/// its Brotli level), dictionary pages, plain or delta-binary-packed values, rows per row group,
/// and the row and byte limits of a data page.
#[derive(Clone, Copy, Debug, PartialEq, Eq, Structural)]
pub struct ParquetSettings {
    pub compression: ParquetCompression,
    pub brotli_level: u32,
    pub dictionary: bool,
    pub plain: bool,
    pub group_rows: usize,
    pub page_rows: usize,
    pub page_bytes: usize,
}

/// The writer settings of a mode, for a file of `rows` rows: one row group of all the rows
/// (at least one), pages of at most 65536 rows and 1 MiB, Brotli at level 5, dictionary pages
/// only for the dictionary mode and plain values only for the plain mode.
pub open spec fn parquet_settings_of(mode: ParquetMode, rows: usize) -> ParquetSettings {
    ParquetSettings {
        compression: match mode {
            ParquetMode::DeltaSnappy => ParquetCompression::Snappy,
            ParquetMode::DeltaBrotli => ParquetCompression::Brotli,
            _ => ParquetCompression::Lz4Raw,
        },
        brotli_level: 5,
        dictionary: mode == ParquetMode::DictionaryLz4,
        plain: mode == ParquetMode::PlainLz4,
        group_rows: if rows > 1 {
            rows
        } else {
            1
        },
        page_rows: 65536,
        page_bytes: 1048576,
    }
}

/// The writer settings of a mode for a file of `rows` rows.
pub fn parquet_settings(mode: ParquetMode, rows: usize) -> (r: ParquetSettings)
    ensures
        r == parquet_settings_of(mode, rows),
{
    let compression = match mode {
        ParquetMode::DeltaSnappy => ParquetCompression::Snappy,
        ParquetMode::DeltaBrotli => ParquetCompression::Brotli,
        _ => ParquetCompression::Lz4Raw,
    };
    let dictionary = match mode {
        ParquetMode::DictionaryLz4 => true,
        _ => false,
    };
    let plain = match mode {
        ParquetMode::PlainLz4 => true,
        _ => false,
    };
    ParquetSettings {
        compression,
        brotli_level: 5,
        dictionary,
        plain,
        group_rows: if rows > 1 {
            rows
        } else {
            1
        },
        page_rows: 65536,
        page_bytes: 1048576,
    }
}

} // verus!
